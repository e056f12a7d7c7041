# mpee_planet

Planet-scale offline routing and geocoding: from an OpenStreetMap extract to a
set of flat arrays, and from those arrays to routes, addresses and tolls. The
library is written in Verus: its functions carry contracts that the verifier has
proved. What they rest on without proof are the contracts of a few small
functions that call out of the library (hashing, compression, sorting, text of
the standard library). These are marked `#[verifier::external_body]`, and the
comment above each says what is claimed of the call.

## What is in it

* `pbf`, `profile`, `ways`, `contract`, `graph` — reading an extract, deciding
  what can be driven and how fast, cutting ways into segments, and putting the
  graph together: vertices in Hilbert order, packed adjacency both ways, an
  attribute dictionary, and a grid to find segments by.
* `dataset`, `router` — the arrays as a whole, and routes over them. Everything
  between the two ends of a route is an exact sum.
* `overlay` — nested regions with tables of what it costs to cross them, built
  at once or filled row by row as queries need them. A search over the overlay
  answers what a search over the roads answers (`overlay::agree`).
* `overrides`, `diff`, `osc` — local rules, changes between extracts, change
  files, and carrying what moved up the overlay (`diff::propagate`).
* `addresses`, `geocode`, `nearby` — the address book, finding an address by
  its street and number, and what lies around a point.
* `checks`, `overlay::nesting` — whether arrays that come from a file fit
  together, tested before they are searched.
* `double` — numbers as binary64 keeps them, on integers, where speeds and
  coordinates are rounded that way.
* `artifacts`, `inspection`, `catalog`, `pipeline`, `cachecap`, `codecstat` —
  which files a dataset is made of, whether they agree, and how a build becomes
  the live one.

Functions of the library take arrays and give arrays. Mapping files, the
catalogue's database, the clock, and everything measured in floating point are
in `app/`, which turns them into the integers the library works on.

## What the contracts say

A contract states what the result is over mathematical models: walks in a
network (`paths`), the contents of a search (`searchstate`), the records of a
byte stream. Laws that relate several functions are public proof functions
named `lemma_…` with the law in words above them; among them:

* `overlay::exact::lemma_trip_exact`, `overlay::agree::lemma_routers_agree`,
  `lemma_vertices_agree` and `lemma_levels_agree`: the overlay answers what a
  search over the roads answers, however many levels it climbs, for ends in
  different regions and in the same one, and also where the search is drawn to
  its goal by a consistent bound. They speak of a search that did not give up for
  want of memory; drawn to its goal, it leaves out costs within `reach` of the
  largest a number can hold;
* `diff::propagate::propagate`: after a change every row is right again;
* `router::kept::lemma_time_kept`: a route takes the time that was found;
* `osc::settle::lemma_cost_without_nodes` and `lemma_course_without_tags`: what
  a way costs does not depend on its nodes, nor its course on its tags;
* `router::line::lemma_line_ends`: a route's line begins and ends where it does;
* `geo::lemma_hilbert_next`: neighbours on the curve are neighbours on the
  ground;
* `artifacts::lemma_level_named`: a level's files are known for what they are;
* `graph::sound::lemma_graph_sound`, `overlay::fits::lemma_ground_fits`,
  `geocode::sound::lemma_book_reads`: what is built is what is read.
