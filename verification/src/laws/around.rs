//! A search around a place misses nothing that is near.

use vstd::prelude::*;
use crate::addresses::words::norm_of;
use crate::dataset::{cell_list, cells_ok, Dataset};
use crate::geocode::index::{ring_from, ring_of, ring_row};
use crate::graph::grid::{fine, key_of, line};
use crate::nearby::{around, label, near_by, segments_in};

verus! {

/// The cell of a point: how many cells of a hundredth of a degree it lies north
/// and east of the south pole and the date line.
pub open spec fn cell_at(lat: int, lon: int) -> (int, int) {
    ((lat + 900_000_000) / 100_000, (lon + 1_800_000_000) / 100_000)
}

/// The point is on the map.
pub open spec fn on_map(lat: int, lon: int) -> bool {
    -900_000_000 <= lat <= 900_000_000 && -1_800_000_000 <= lon <= 1_800_000_000
}

/// The cell in line `y` and column `x` lists the segment.
pub open spec fn lists(ds: Dataset, y: int, x: int, s: u32) -> bool {
    exists|i: int, j: int|
        #![trigger ds.snap_cell@[i], ds.snap_seg@[j]]
        0 <= i < ds.snap_cell@.len() && ds.snap_cell@[i] == y * 0x1_0000_0000 + x
            && ds.snap_off@[i] <= j < ds.snap_off@[i + 1] && ds.snap_seg@[j] == s
}

proof fn lemma_key_at(lat: int, lon: int, dy: int, dx: int)
    requires
        on_map(lat, lon),
        on_map(lat + dy * 100_000, lon + dx * 100_000),
    ensures
        ({
            let (y, x) = cell_at(lat, lon);
            &&& fine(lat + dy * 100_000, 900_000_000) == y + dy
            &&& fine(lon + dx * 100_000, 1_800_000_000) == x + dx
            &&& 0 <= y + dy <= 0xFFFF
            &&& 0 <= x + dx <= 0xFFFF
            &&& key_of(
                fine(lat + dy * 100_000, 900_000_000),
                fine(lon + dx * 100_000, 1_800_000_000),
            ) == (y + dy) * 0x1_0000_0000 + (x + dx)
        }),
{
    let (y, x) = cell_at(lat, lon);
    assert(line(lat + dy * 100_000, 900_000_000, 100_000) == y + dy);
    assert(line(lon + dx * 100_000, 1_800_000_000, 100_000) == x + dx);
    crate::graph::grid::lemma_key((y + dy) as u64, (x + dx) as u64);
}

proof fn lemma_row(lat: int, lon: int, ring: int, dy: int, dx: int, k: u64)
    ensures
        ring_row(lat, lon, ring, dy, dx).contains(k) <==> in_row(lat, lon, ring, dy, dx, k),
    decreases ring + 1 - dx,
{
    let all = ring_row(lat, lon, ring, dy, dx);
    if dx <= ring {
        lemma_row(lat, lon, ring, dy, dx + 1, k);
        let rest = ring_row(lat, lon, ring, dy, dx + 1);
        let here = cell_key(lat, lon, dy, dx);
        if dy == ring || dy == -ring || dx == ring || dx == -ring {
            assert(all == seq![here] + rest);
            if all.contains(k) {
                let i = all.index_of(k);
                if i > 0 {
                    assert(rest[i - 1] == k);
                    let z = choose|z: int| dx + 1 <= z <= ring && is_rim(ring, dy, z) && k
                        == #[trigger] cell_key(lat, lon, dy, z);
                    assert(cell_key(lat, lon, dy, z) == k);
                } else {
                    assert(cell_key(lat, lon, dy, dx) == k);
                }
            }
            if in_row(lat, lon, ring, dy, dx, k) {
                let z = choose|z: int| dx <= z <= ring && is_rim(ring, dy, z) && k
                    == #[trigger] cell_key(lat, lon, dy, z);
                if z == dx {
                    assert(all[0] == k);
                } else {
                    assert(cell_key(lat, lon, dy, z) == k);
                    assert(in_row(lat, lon, ring, dy, dx + 1, k));
                    let i = rest.index_of(k);
                    assert(all[i + 1] == k);
                }
            }
        } else {
            assert(all == rest);
            if in_row(lat, lon, ring, dy, dx, k) {
                let z = choose|z: int| dx <= z <= ring && is_rim(ring, dy, z) && k
                    == #[trigger] cell_key(lat, lon, dy, z);
                assert(z != dx);
                assert(cell_key(lat, lon, dy, z) == k);
            }
            if in_row(lat, lon, ring, dy, dx + 1, k) {
                let z = choose|z: int| dx + 1 <= z <= ring && is_rim(ring, dy, z) && k
                    == #[trigger] cell_key(lat, lon, dy, z);
                assert(cell_key(lat, lon, dy, z) == k);
            }
        }
    } else {
        if in_row(lat, lon, ring, dy, dx, k) {
            let z = choose|z: int| dx <= z <= ring && is_rim(ring, dy, z) && k
                == #[trigger] cell_key(lat, lon, dy, z);
        }
    }
}

/// The key of the cell so many cells north and east.
pub open spec fn cell_key(lat: int, lon: int, dy: int, dx: int) -> u64 {
    key_of(fine(lat + dy * 100_000, 900_000_000), fine(lon + dx * 100_000, 1_800_000_000))
}

pub open spec fn is_rim(ring: int, dy: int, dx: int) -> bool {
    dy == ring || dy == -ring || dx == ring || dx == -ring
}

pub open spec fn in_row(lat: int, lon: int, ring: int, dy: int, dx: int, k: u64) -> bool {
    exists|z: int|
        dx <= z <= ring && is_rim(ring, dy, z) && k == #[trigger] cell_key(lat, lon, dy, z)
}

/// Some cell of a ring has the key.
pub open spec fn in_ring(lat: int, lon: int, ring: int, from: int, k: u64) -> bool {
    exists|y: int, x: int|
        from <= y <= ring && -ring <= x <= ring && is_rim(ring, y, x) && k == #[trigger] cell_key(
            lat,
            lon,
            y,
            x,
        )
}

proof fn lemma_ring(lat: int, lon: int, ring: int, dy: int, k: u64)
    ensures
        ring_from(lat, lon, ring, dy).contains(k) <==> in_ring(lat, lon, ring, dy, k),
    decreases ring + 1 - dy,
{
    let all = ring_from(lat, lon, ring, dy);
    if dy <= ring {
        lemma_ring(lat, lon, ring, dy + 1, k);
        lemma_row(lat, lon, ring, dy, -ring, k);
        let (row, rest) = (ring_row(lat, lon, ring, dy, -ring), ring_from(lat, lon, ring, dy + 1));
        assert(all == row + rest);
        if all.contains(k) {
            let i = all.index_of(k);
            if i < row.len() {
                assert(row[i] == k);
                let z = choose|z: int| -ring <= z <= ring && is_rim(ring, dy, z) && k
                    == #[trigger] cell_key(lat, lon, dy, z);
                assert(cell_key(lat, lon, dy, z) == k);
            } else {
                assert(rest[i - row.len()] == k);
                let (y, x) = choose|y: int, x: int|
                    dy + 1 <= y <= ring && -ring <= x <= ring && is_rim(ring, y, x) && k
                        == #[trigger] cell_key(lat, lon, y, x);
                assert(cell_key(lat, lon, y, x) == k);
            }
        }
        if in_ring(lat, lon, ring, dy, k) {
            let (y, x) = choose|y: int, x: int|
                dy <= y <= ring && -ring <= x <= ring && is_rim(ring, y, x) && k
                    == #[trigger] cell_key(lat, lon, y, x);
            assert(cell_key(lat, lon, y, x) == k);
            if y == dy {
                assert(in_row(lat, lon, ring, dy, -ring, k));
                let i = row.index_of(k);
                assert(all[i] == k);
            } else {
                assert(in_ring(lat, lon, ring, dy + 1, k));
                let i = rest.index_of(k);
                assert(all[row.len() + i] == k);
            }
        }
    } else {
        if in_ring(lat, lon, ring, dy, k) {
            let (y, x) = choose|y: int, x: int|
                dy <= y <= ring && -ring <= x <= ring && is_rim(ring, y, x) && k
                    == #[trigger] cell_key(lat, lon, y, x);
        }
    }
}

proof fn lemma_segments_in(ds: Dataset, keys: Seq<u64>, s: u32)
    ensures
        segments_in(ds, keys).contains(s) <==> exists|i: int|
            0 <= i < keys.len() && cell_list(
                ds.snap_cell@,
                ds.snap_off@,
                ds.snap_seg@,
                #[trigger] keys[i],
            ).contains(s),
    decreases keys.len(),
{
    if keys.len() > 0 {
        let k0 = keys.drop_last();
        lemma_segments_in(ds, k0, s);
        let (was, now) = (segments_in(ds, k0), segments_in(ds, keys));
        let list = cell_list(ds.snap_cell@, ds.snap_off@, ds.snap_seg@, keys.last());
        assert(now == was + list);
        if now.contains(s) {
            let j = now.index_of(s);
            if j < was.len() {
                assert(was[j] == s);
                let i = choose|i: int|
                    0 <= i < k0.len() && cell_list(
                        ds.snap_cell@,
                        ds.snap_off@,
                        ds.snap_seg@,
                        #[trigger] k0[i],
                    ).contains(s);
                assert(keys[i] == k0[i]);
            } else {
                assert(list[j - was.len()] == s);
                assert(keys[keys.len() - 1] == keys.last());
            }
        }
        if exists|i: int|
            0 <= i < keys.len() && cell_list(
                ds.snap_cell@,
                ds.snap_off@,
                ds.snap_seg@,
                #[trigger] keys[i],
            ).contains(s) {
            let i = choose|i: int|
                0 <= i < keys.len() && cell_list(
                    ds.snap_cell@,
                    ds.snap_off@,
                    ds.snap_seg@,
                    #[trigger] keys[i],
                ).contains(s);
            if i < k0.len() {
                assert(k0[i] == keys[i]);
                let j = was.index_of(s);
                assert(now[j] == s);
            } else {
                let j = list.index_of(s);
                assert(now[was.len() + j] == s);
            }
        }
    }
}

/// What a cell lists.
proof fn lemma_cell(ds: Dataset, key: u64, y: int, x: int, s: u32)
    requires
        cells_ok(ds.snap_cell@, ds.snap_off@, ds.snap_seg@),
        key == y * 0x1_0000_0000 + x,
    ensures
        cell_list(ds.snap_cell@, ds.snap_off@, ds.snap_seg@, key).contains(s) <==> lists(
            ds,
            y,
            x,
            s,
        ),
{
    let (cell, off, seg) = (ds.snap_cell@, ds.snap_off@, ds.snap_seg@);
    let list = cell_list(cell, off, seg, key);
    if list.contains(s) {
        let i = choose|i: int| 0 <= i < cell.len() && cell[i] == key;
        let k = list.index_of(s);
        assert(seg[off[i] + k] == s);
        assert(cell[i] == key);
    }
    if lists(ds, y, x, s) {
        let (i, j) = choose|i: int, j: int|
            #![trigger cell[i], seg[j]]
            0 <= i < cell.len() && cell[i] == y * 0x1_0000_0000 + x && off[i] <= j < off[i + 1]
                && seg[j] == s;
        assert(cell[i] == key);
        let i2 = choose|i: int| 0 <= i < cell.len() && cell[i] == key;
        assert(i2 == i) by {
            if i < i2 {
                assert(cell[i] < cell[i2]);
            } else if i2 < i {
                assert(cell[i2] < cell[i]);
            }
        }
        assert(off[i + 1] <= off[off.len() - 1]);
        assert(list[j - off[i]] == s);
    }
}

proof fn lemma_around(ds: Dataset, lat: int, lon: int, ring: int, s: u32, k: int)
    requires
        0 <= k <= ring,
        segments_in(ds, ring_of(lat, lon, k)).contains(s),
    ensures
        around(ds, lat, lon, ring).contains(s),
    decreases ring,
{
    let all = around(ds, lat, lon, ring);
    let last = segments_in(ds, ring_of(lat, lon, ring));
    let was = around(ds, lat, lon, ring - 1);
    assert(all == was + last);
    if k == ring {
        let j = last.index_of(s);
        assert(all[was.len() + j] == s);
    } else {
        lemma_around(ds, lat, lon, ring - 1, s, k);
        let j = was.index_of(s);
        assert(all[j] == s);
    }
}

proof fn lemma_around_from(ds: Dataset, lat: int, lon: int, ring: int, s: u32) -> (k: int)
    requires
        around(ds, lat, lon, ring).contains(s),
    ensures
        0 <= k <= ring,
        segments_in(ds, ring_of(lat, lon, k)).contains(s),
    decreases ring + 1,
{
    let all = around(ds, lat, lon, ring);
    let last = segments_in(ds, ring_of(lat, lon, ring));
    let was = around(ds, lat, lon, ring - 1);
    let j = all.index_of(s);
    assert(ring >= 0);
    assert(all == was + last);
    if j < was.len() {
        assert(was[j] == s);
        lemma_around_from(ds, lat, lon, ring - 1, s)
    } else {
        assert(last[j - was.len()] == s);
        ring
    }
}

/// A search of so many rings around a place finds every segment that is listed
/// in the cell of a place no further north, south, east or west than so many
/// cells, and is on the street that was asked for.
pub proof fn lemma_none_missed(
    ds: Dataset,
    lat: int,
    lon: int,
    rings: int,
    street: Option<Seq<char>>,
    out: Seq<u32>,
    lat2: int,
    lon2: int,
    s: u32,
)
    requires
        cells_ok(ds.snap_cell@, ds.snap_off@, ds.snap_seg@),
        near_by(ds, lat, lon, rings, street, out),
        on_map(lat, lon),
        on_map(lat2, lon2),
        -rings * 100_000 <= lat2 - lat <= rings * 100_000,
        -rings * 100_000 <= lon2 - lon <= rings * 100_000,
        lists(ds, cell_at(lat2, lon2).0, cell_at(lat2, lon2).1, s),
        street matches Some(t) ==> norm_of(label(ds, s)) == norm_of(t),
    ensures
        out.contains(s),
{
    let ((y, x), (y2, x2)) = (cell_at(lat, lon), cell_at(lat2, lon2));
    let (dy, dx) = (y2 - y, x2 - x);
    assert(-rings <= dy <= rings && -rings <= dx <= rings);
    let (ay, ax) = (
        if dy < 0 {
            -dy
        } else {
            dy
        },
        if dx < 0 {
            -dx
        } else {
            dx
        },
    );
    let r = if ay > ax {
        ay
    } else {
        ax
    };
    let key = cell_key(lat, lon, dy, dx);
    assert(line(lat + dy * 100_000, 900_000_000, 100_000) == y2);
    assert(line(lon + dx * 100_000, 1_800_000_000, 100_000) == x2);
    crate::graph::grid::lemma_key(y2 as u64, x2 as u64);
    assert(key == y2 * 0x1_0000_0000 + x2);
    lemma_ring(lat, lon, r, -r, key);
    assert(is_rim(r, dy, dx));
    assert(in_ring(lat, lon, r, -r, key));
    let keys = ring_of(lat, lon, r);
    let i = keys.index_of(key);
    assert(keys[i] == key);
    lemma_cell(ds, key, y2, x2, s);
    lemma_segments_in(ds, keys, s);
    lemma_around(ds, lat, lon, rings, s, r);
}

/// What is found around a place is listed in a cell no more than so many cells
/// away, and on the street that was asked for; nothing is found twice.
pub proof fn lemma_found_near(
    ds: Dataset,
    lat: int,
    lon: int,
    rings: int,
    street: Option<Seq<char>>,
    out: Seq<u32>,
    i: int,
) -> (at: (int, int))
    requires
        cells_ok(ds.snap_cell@, ds.snap_off@, ds.snap_seg@),
        near_by(ds, lat, lon, rings, street, out),
        on_map(lat, lon),
        -900_000_000 <= lat - rings * 100_000,
        lat + rings * 100_000 <= 900_000_000,
        -1_800_000_000 <= lon - rings * 100_000,
        lon + rings * 100_000 <= 1_800_000_000,
        0 <= i < out.len(),
    ensures
        lists(ds, at.0, at.1, out[i]),
        -rings <= at.0 - cell_at(lat, lon).0 <= rings,
        -rings <= at.1 - cell_at(lat, lon).1 <= rings,
        street matches Some(t) ==> norm_of(label(ds, out[i])) == norm_of(t),
        out.no_duplicates(),
{
    let s = out[i];
    assert(out.contains(s));
    let r = lemma_around_from(ds, lat, lon, rings, s);
    let keys = ring_of(lat, lon, r);
    lemma_segments_in(ds, keys, s);
    let j = choose|j: int|
        0 <= j < keys.len() && cell_list(
            ds.snap_cell@,
            ds.snap_off@,
            ds.snap_seg@,
            #[trigger] keys[j],
        ).contains(s);
    let key = keys[j];
    assert(keys.contains(key));
    lemma_ring(lat, lon, r, -r, key);
    let (dy, dx) = choose|dy: int, dx: int|
        -r <= dy <= r && -r <= dx <= r && is_rim(r, dy, dx) && key == #[trigger] cell_key(
            lat,
            lon,
            dy,
            dx,
        );
    lemma_key_at(lat, lon, dy, dx);
    let (y, x) = cell_at(lat, lon);
    lemma_cell(ds, key, y + dy, x + dx, s);
    (y + dy, x + dx)
}

/// A ring around a place is the cells at its distance, north, south, east or
/// west, and no others.
pub proof fn lemma_ring_cells(lat: int, lon: int, ring: int, dy: int, dx: int)
    requires
        0 <= ring,
        -900_000_000 <= lat - ring * 100_000,
        lat + ring * 100_000 <= 900_000_000,
        -1_800_000_000 <= lon - ring * 100_000,
        lon + ring * 100_000 <= 1_800_000_000,
        on_map(lat + dy * 100_000, lon + dx * 100_000),
    ensures
        ({
            let (y, x) = cell_at(lat, lon);
            let key = ((y + dy) * 0x1_0000_0000 + (x + dx)) as u64;
            ring_of(lat, lon, ring).contains(key) <==> (-ring <= dy <= ring && -ring <= dx <= ring
                && (dy == ring || dy == -ring || dx == ring || dx == -ring))
        }),
{
    let (y, x) = cell_at(lat, lon);
    lemma_key_at(lat, lon, dy, dx);
    let key = cell_key(lat, lon, dy, dx);
    lemma_ring(lat, lon, ring, -ring, key);
    if ring_of(lat, lon, ring).contains(key) {
        let (b, a) = choose|b: int, a: int|
            -ring <= b <= ring && -ring <= a <= ring && is_rim(ring, b, a) && key
                == #[trigger] cell_key(lat, lon, b, a);
        lemma_key_at(lat, lon, b, a);
    }
    if -ring <= dy <= ring && -ring <= dx <= ring && is_rim(ring, dy, dx) {
        assert(in_ring(lat, lon, ring, -ring, key));
    }
}

} // verus!
