//! Region labelling: a flood fill that splits the parcels of chosen kinds
//! into their 4-connected districts and numbers them in raster order.

use vstd::prelude::*;
use vstd::set_lib::{lemma_int_range, lemma_len_subset, set_int_range};
use crate::grid::{Selection, TileGrid, lemma_row_col};
use crate::tile::{Tile, TileType, kind_listed, is_listed};

verus! {

/// The kinds of the cells, in order.
pub open spec fn types_of(tiles: Seq<(Tile, u8, Selection)>) -> Seq<TileType> {
    Seq::new(tiles.len(), |i: int| tiles[i].0.tile_type)
}

/// The region label of every cell in channel `ch`.
pub open spec fn labels_of(tiles: Seq<(Tile, u8, Selection)>, ch: int) -> Seq<u32> {
    Seq::new(tiles.len(), |i: int| tiles[i].0.regions@[ch])
}

/// Cells `a` and `b` of a grid of `n` cells and `w` columns share a side.
pub open spec fn adjacent(w: int, n: int, a: int, b: int) -> bool {
    &&& 0 <= a < n
    &&& 0 <= b < n
    &&& ((b == a + 1 && a % w + 1 < w) || (a == b + 1 && b % w + 1 < w) || b == a + w || a
        == b + w)
}

/// Cell `i` is of a kind listed in `wl`.
pub open spec fn is_member(kinds: Seq<TileType>, wl: Seq<TileType>, i: int) -> bool {
    kind_listed(wl, kinds[i])
}

/// `p` is a walk through member cells, each step to a cell sharing a side.
pub open spec fn is_path(kinds: Seq<TileType>, w: int, wl: Seq<TileType>, p: Seq<int>) -> bool {
    &&& p.len() >= 1
    &&& forall|k: int|
        0 <= k < p.len() ==> 0 <= #[trigger] p[k] < kinds.len() && is_member(kinds, wl, p[k])
    &&& forall|k: int|
        0 <= k < p.len() - 1 ==> adjacent(w, kinds.len() as int, #[trigger] p[k], p[k + 1])
}

/// A walk through member cells leads from `a` to `b`.
pub open spec fn connected(kinds: Seq<TileType>, w: int, wl: Seq<TileType>, a: int, b: int) -> bool {
    exists|p: Seq<int>| is_path(kinds, w, wl, p) && p[0] == a && p[p.len() - 1] == b
}

/// Exactly the member cells have a positive label.
pub open spec fn labels_zero_off_members(kinds: Seq<TileType>, wl: Seq<TileType>, labels: Seq<u32>) -> bool {
    forall|i: int| 0 <= i < kinds.len() ==> (#[trigger] labels[i] == 0 <==> !is_member(kinds, wl, i))
}

/// Member cells sharing a side have the same label.
pub open spec fn labels_agree_on_sides(
    kinds: Seq<TileType>,
    w: int,
    wl: Seq<TileType>,
    labels: Seq<u32>,
) -> bool {
    forall|i: int, j: int|
        #[trigger] adjacent(w, kinds.len() as int, i, j) && is_member(kinds, wl, i) && is_member(
            kinds,
            wl,
            j,
        ) ==> labels[i] == labels[j]
}

/// Cells with the same positive label are connected.
#[verifier::opaque]
pub open spec fn labels_connected(
    kinds: Seq<TileType>,
    w: int,
    wl: Seq<TileType>,
    labels: Seq<u32>,
) -> bool {
    forall|i: int, j: int|
        0 <= i < kinds.len() && 0 <= j < kinds.len() && #[trigger] labels[i] != 0 && labels[i]
            == #[trigger] labels[j] ==> connected(kinds, w, wl, i, j)
}

/// Labels are handed out in raster order: a labelled cell either shares its
/// label with an earlier cell, or its label exceeds every earlier label by
/// one exactly.
#[verifier::opaque]
pub open spec fn labels_in_raster_order(labels: Seq<u32>) -> bool {
    forall|i: int|
        0 <= i < labels.len() && #[trigger] labels[i] != 0 ==> (exists|j: int|
            0 <= j < i && labels[j] == labels[i]) || ((forall|j: int|
            0 <= j < i ==> labels[j] < labels[i]) && (labels[i] == 1 || exists|j: int|
            0 <= j < i && labels[j] + 1 == labels[i]))
}

/// `labels` numbers the districts of the member cells: non-members have
/// label 0; members sharing a side have the same label; cells with the same
/// positive label are connected; and labels are handed out in raster order.
pub open spec fn is_region_labelling(
    kinds: Seq<TileType>,
    w: int,
    wl: Seq<TileType>,
    labels: Seq<u32>,
) -> bool {
    &&& labels.len() == kinds.len()
    &&& labels_zero_off_members(kinds, wl, labels)
    &&& labels_agree_on_sides(kinds, w, wl, labels)
    &&& labels_connected(kinds, w, wl, labels)
    &&& labels_in_raster_order(labels)
}

/// Some cell carries label `l`.
pub open spec fn label_used(labels: Seq<u32>, l: int) -> bool {
    exists|k: int| 0 <= k < labels.len() && labels[k] == l
}

/// `b` equals `a` but for the label in channel `ch`.
pub open spec fn same_but_label(a: (Tile, u8, Selection), b: (Tile, u8, Selection), ch: int) -> bool {
    &&& b.0.tile_type == a.0.tile_type
    &&& b.0.variant == a.0.variant
    &&& b.0.cost == a.0.cost
    &&& b.1 == a.1
    &&& b.2 == a.2
    &&& b.0.regions@.len() == a.0.regions@.len()
    &&& b.0.regions@ == a.0.regions@.update(ch, b.0.regions@[ch])
}

proof fn lemma_adjacent_symmetric(w: int, n: int, a: int, b: int)
    requires
        adjacent(w, n, a, b),
    ensures
        adjacent(w, n, b, a),
{
}

proof fn lemma_path_single(kinds: Seq<TileType>, w: int, wl: Seq<TileType>, a: int)
    requires
        0 <= a < kinds.len(),
        is_member(kinds, wl, a),
    ensures
        connected(kinds, w, wl, a, a),
{
    let p = seq![a];
    assert(is_path(kinds, w, wl, p));
    assert(is_path(kinds, w, wl, p) && p[0] == a && p[p.len() - 1] == a);
}

proof fn lemma_connected_extend(kinds: Seq<TileType>, w: int, wl: Seq<TileType>, a: int, b: int, c: int)
    requires
        connected(kinds, w, wl, a, b),
        adjacent(w, kinds.len() as int, b, c),
        is_member(kinds, wl, c),
    ensures
        connected(kinds, w, wl, a, c),
{
    let p = choose|p: Seq<int>| is_path(kinds, w, wl, p) && p[0] == a && p[p.len() - 1] == b;
    let q = p.push(c);
    assert forall|k: int| 0 <= k < q.len() - 1 implies adjacent(
        w,
        kinds.len() as int,
        #[trigger] q[k],
        q[k + 1],
    ) by {
        if k < p.len() - 1 {
            assert(q[k] == p[k] && q[k + 1] == p[k + 1]);
        }
    }
    assert(is_path(kinds, w, wl, q));
    assert(q[0] == a && q[q.len() - 1] == c);
}

proof fn lemma_connected_symmetric(kinds: Seq<TileType>, w: int, wl: Seq<TileType>, a: int, b: int)
    requires
        connected(kinds, w, wl, a, b),
    ensures
        connected(kinds, w, wl, b, a),
{
    let p = choose|p: Seq<int>| is_path(kinds, w, wl, p) && p[0] == a && p[p.len() - 1] == b;
    let q = Seq::new(p.len(), |k: int| p[p.len() - 1 - k]);
    assert forall|k: int| 0 <= k < q.len() - 1 implies adjacent(
        w,
        kinds.len() as int,
        #[trigger] q[k],
        q[k + 1],
    ) by {
        let j = p.len() - 2 - k;
        assert(adjacent(w, kinds.len() as int, p[j], p[j + 1]));
        lemma_adjacent_symmetric(w, kinds.len() as int, p[j], p[j + 1]);
    }
    assert forall|k: int| 0 <= k < q.len() implies 0 <= #[trigger] q[k] < kinds.len()
        && is_member(kinds, wl, q[k]) by {
        assert(q[k] == p[p.len() - 1 - k]);
    }
    assert(is_path(kinds, w, wl, q));
    assert(is_path(kinds, w, wl, q) && q[0] == b && q[q.len() - 1] == a);
}

proof fn lemma_connected_trans(kinds: Seq<TileType>, w: int, wl: Seq<TileType>, a: int, b: int, c: int)
    requires
        connected(kinds, w, wl, a, b),
        connected(kinds, w, wl, b, c),
    ensures
        connected(kinds, w, wl, a, c),
{
    let p = choose|p: Seq<int>| is_path(kinds, w, wl, p) && p[0] == a && p[p.len() - 1] == b;
    let q = choose|q: Seq<int>| is_path(kinds, w, wl, q) && q[0] == b && q[q.len() - 1] == c;
    let r = p + q.subrange(1, q.len() as int);
    assert forall|k: int| 0 <= k < r.len() - 1 implies adjacent(
        w,
        kinds.len() as int,
        #[trigger] r[k],
        r[k + 1],
    ) by {
        if k < p.len() - 1 {
            assert(r[k] == p[k] && r[k + 1] == p[k + 1]);
        } else if k == p.len() - 1 {
            assert(r[k] == b && r[k + 1] == q[1]);
            assert(adjacent(w, kinds.len() as int, q[0], q[1]));
        } else {
            let j = k - p.len() + 1;
            assert(r[k] == q[j] && r[k + 1] == q[j + 1]);
        }
    }
    assert forall|k: int| 0 <= k < r.len() implies 0 <= #[trigger] r[k] < kinds.len()
        && is_member(kinds, wl, r[k]) by {
        if k < p.len() {
            assert(r[k] == p[k]);
        } else {
            assert(r[k] == q[k - p.len() + 1]);
        }
    }
    assert(is_path(kinds, w, wl, r));
    if q.len() == 1 {
        assert(r[r.len() - 1] == c);
    } else {
        assert(r[r.len() - 1] == q[q.len() - 1]);
    }
    assert(is_path(kinds, w, wl, r) && r[0] == a && r[r.len() - 1] == c);
}

/// Column arithmetic for the cell left of `c`.
proof fn lemma_left_column(c: int, w: int)
    requires
        w >= 1,
        c >= 1,
    ensures
        c % w > 0 ==> (c - 1) % w + 1 == c % w,
        c % w == 0 ==> (c - 1) % w + 1 == w,
        c % w <= c,
{
    let q = c / w;
    let r = c % w;
    assert(c == q * w + r && 0 <= r < w) by (nonlinear_arith)
        requires
            w >= 1,
            q == c / w,
            r == c % w,
    ;
    if r > 0 {
        assert((c - 1) % w == r - 1) by (nonlinear_arith)
            requires
                c - 1 == q * w + (r - 1),
                0 <= r - 1 < w,
                w >= 1,
        ;
    } else {
        assert(c - 1 == (q - 1) * w + (w - 1)) by (nonlinear_arith)
            requires
                c == q * w + r,
                r == 0,
        ;
        assert((c - 1) % w == w - 1) by (nonlinear_arith)
            requires
                c - 1 == (q - 1) * w + (w - 1),
                w >= 1,
        ;
    }
    assert(r <= c) by (nonlinear_arith)
        requires
            c == q * w + r,
            0 <= r < w,
            c >= 1,
            w >= 1,
    ;
}

/// The cells sharing a side with cell `c`.
fn neighbours(c: usize, w: usize, n: usize) -> (r: Vec<usize>)
    requires
        c < n,
        w >= 1,
    ensures
        forall|k: int| 0 <= k < r@.len() ==> adjacent(w as int, n as int, c as int, #[trigger] r@[k] as int),
        forall|b: int| adjacent(w as int, n as int, c as int, b) ==> r@.contains(b as usize),
{
    let ghost ci = c as int;
    let ghost wi = w as int;
    proof {
        if c >= 1 {
            lemma_left_column(ci, wi);
        } else {
            assert(ci % wi == 0) by (nonlinear_arith)
                requires
                    ci == 0,
                    wi >= 1,
            ;
        }
    }
    let x = c % w;
    let left = x > 0;
    let right = x + 1 < w && c + 1 < n;
    let up = c >= w;
    let down = w <= n && c < n - w;
    let mut r: Vec<usize> = Vec::new();
    if left {
        r.push(c - 1);
    }
    let ghost r1 = r@;
    if right {
        r.push(c + 1);
    }
    let ghost r2 = r@;
    if up {
        r.push(c - w);
    }
    let ghost r3 = r@;
    if down {
        r.push(c + w);
    }
    proof {
        assert(left ==> r@.contains((c - 1) as usize)) by {
            if left {
                assert(r1[0] == c - 1);
                assert(r2[0] == c - 1);
                assert(r3[0] == c - 1);
                assert(r@[0] == c - 1);
            }
        }
        assert(right ==> r@.contains((c + 1) as usize)) by {
            if right {
                assert(r2[r2.len() - 1] == c + 1);
                assert(r3[r2.len() - 1] == c + 1);
                assert(r@[r2.len() - 1] == c + 1);
            }
        }
        assert(up ==> r@.contains((c - w) as usize)) by {
            if up {
                assert(r3[r3.len() - 1] == c - w);
                assert(r@[r3.len() - 1] == c - w);
            }
        }
        assert(down ==> r@.contains((c + w) as usize)) by {
            if down {
                assert(r@[r@.len() - 1] == c + w);
            }
        }
        assert forall|b: int| adjacent(wi, n as int, ci, b) implies r@.contains(b as usize) by {
            if b == ci + 1 && ci % wi + 1 < wi {
                assert(right);
            } else if ci == b + 1 && b % wi + 1 < wi {
                assert(left);
            } else if b == ci + wi {
                assert(down);
            } else {
                assert(up);
            }
        }
        assert forall|k: int| 0 <= k < r@.len() implies adjacent(
            wi,
            n as int,
            ci,
            #[trigger] r@[k] as int,
        ) by {
            if k < r1.len() {
                assert(r@[k] == r1[k]);
            } else if k < r2.len() {
                assert(r@[k] == r2[k]);
            } else if k < r3.len() {
                assert(r@[k] == r3[k]);
            }
        }
    }
    r
}

/// Along a walk through member cells a region labelling is constant.
proof fn lemma_path_same_label(
    kinds: Seq<TileType>,
    w: int,
    wl: Seq<TileType>,
    labels: Seq<u32>,
    p: Seq<int>,
)
    requires
        labels_agree_on_sides(kinds, w, wl, labels),
        is_path(kinds, w, wl, p),
    ensures
        labels[p[p.len() - 1]] == labels[p[0]],
    decreases p.len(),
{
    if p.len() > 1 {
        let q = p.drop_last();
        assert forall|k: int| 0 <= k < q.len() - 1 implies adjacent(
            w,
            kinds.len() as int,
            #[trigger] q[k],
            q[k + 1],
        ) by {
            assert(q[k] == p[k] && q[k + 1] == p[k + 1]);
        }
        assert(is_path(kinds, w, wl, q));
        lemma_path_same_label(kinds, w, wl, labels, q);
        let a = p[p.len() - 2];
        let b = p[p.len() - 1];
        assert(adjacent(w, kinds.len() as int, a, b));
        assert(is_member(kinds, wl, a) && is_member(kinds, wl, b));
    }
}

/// Region labels are determined by the kinds alone: two region labellings of
/// the same grid of kinds, for the same whitelist, are equal. So relabelling
/// an unchanged grid reproduces the same labels.
pub proof fn lemma_region_labels_deterministic(
    kinds: Seq<TileType>,
    w: int,
    wl: Seq<TileType>,
    l1: Seq<u32>,
    l2: Seq<u32>,
)
    requires
        is_region_labelling(kinds, w, wl, l1),
        is_region_labelling(kinds, w, wl, l2),
    ensures
        l1 == l2,
{
    lemma_labels_agree_below(kinds, w, wl, l1, l2, kinds.len() as int);
    assert(l1 =~= l2);
}

proof fn lemma_use_connected(
    kinds: Seq<TileType>,
    w: int,
    wl: Seq<TileType>,
    labels: Seq<u32>,
    i: int,
    j: int,
)
    requires
        labels_connected(kinds, w, wl, labels),
        0 <= i < kinds.len(),
        0 <= j < kinds.len(),
        labels[i] != 0,
        labels[i] == labels[j],
    ensures
        connected(kinds, w, wl, i, j),
{
    reveal(labels_connected);
}

proof fn lemma_use_raster(labels: Seq<u32>, i: int)
    requires
        labels_in_raster_order(labels),
        0 <= i < labels.len(),
        labels[i] != 0,
    ensures
        (exists|j: int| 0 <= j < i && labels[j] == labels[i]) || ((forall|j: int|
            0 <= j < i ==> labels[j] < labels[i]) && (labels[i] == 1 || exists|j: int|
            0 <= j < i && labels[j] + 1 == labels[i])),
{
    reveal(labels_in_raster_order);
}

proof fn lemma_labels_agree_below(
    kinds: Seq<TileType>,
    w: int,
    wl: Seq<TileType>,
    l1: Seq<u32>,
    l2: Seq<u32>,
    m: int,
)
    requires
        is_region_labelling(kinds, w, wl, l1),
        is_region_labelling(kinds, w, wl, l2),
        0 <= m <= kinds.len(),
    ensures
        forall|j: int| 0 <= j < m ==> l1[j] == l2[j],
    decreases m,
{
    if m > 0 {
        lemma_labels_agree_below(kinds, w, wl, l1, l2, m - 1);
        let i = m - 1;
        if is_member(kinds, wl, i) {
            assert(l1[i] != 0 && l2[i] != 0);
            if exists|j: int| 0 <= j < i && l1[j] == l1[i] {
                let j = choose|j: int| 0 <= j < i && l1[j] == l1[i];
                lemma_use_connected(kinds, w, wl, l1, j, i);
                let p = choose|p: Seq<int>| is_path(kinds, w, wl, p) && p[0] == j && p[p.len() - 1] == i;
                lemma_path_same_label(kinds, w, wl, l2, p);
            } else if exists|j: int| 0 <= j < i && l2[j] == l2[i] {
                let j = choose|j: int| 0 <= j < i && l2[j] == l2[i];
                lemma_use_connected(kinds, w, wl, l2, j, i);
                let p = choose|p: Seq<int>| is_path(kinds, w, wl, p) && p[0] == j && p[p.len() - 1] == i;
                lemma_path_same_label(kinds, w, wl, l1, p);
            } else {
                lemma_use_raster(l1, i);
                lemma_use_raster(l2, i);
                if l1[i] < l2[i] {
                    assert(l2[i] != 1);
                    let j = choose|j: int| 0 <= j < i && l2[j] + 1 == l2[i];
                    assert(l1[j] < l1[i]);
                } else if l2[i] < l1[i] {
                    assert(l1[i] != 1);
                    let j = choose|j: int| 0 <= j < i && l1[j] + 1 == l1[i];
                    assert(l2[j] < l2[i]);
                }
            }
        } else {
            assert(l1[i] == 0 && l2[i] == 0);
        }
    }
}

/// Nonzero labels belong to members and lie below `next`.
spec fn labels_bounded(kinds: Seq<TileType>, wl: Seq<TileType>, labels: Seq<u32>, next: int) -> bool {
    forall|k: int|
        0 <= k < labels.len() && #[trigger] labels[k] != 0 ==> is_member(kinds, wl, k) && labels[k]
            < next
}

/// Every member before cell `s` is labelled.
spec fn members_labelled_below(
    kinds: Seq<TileType>,
    wl: Seq<TileType>,
    labels: Seq<u32>,
    s: int,
) -> bool {
    forall|k: int| 0 <= k < s && is_member(kinds, wl, k) ==> #[trigger] labels[k] != 0
}

/// Labelled cells pass their label on to member neighbours, except cells of
/// label `cur` that are not yet in `done`.
spec fn closed(
    kinds: Seq<TileType>,
    w: int,
    wl: Seq<TileType>,
    labels: Seq<u32>,
    cur: int,
    done: Set<int>,
) -> bool {
    forall|c: int, b: int|
        #[trigger] adjacent(w, kinds.len() as int, c, b) && labels[c] != 0 && (labels[c] != cur
            || done.contains(c)) && is_member(kinds, wl, b) ==> labels[b] == labels[c]
}

/// `seeds[m]` is the first cell of label `m + 1`; seeds increase and lie
/// before cell `s`.
spec fn seeds_ok(labels: Seq<u32>, seeds: Seq<int>, s: int) -> bool {
    &&& forall|m: int|
        0 <= m < seeds.len() ==> 0 <= #[trigger] seeds[m] < s && labels[seeds[m]] == m + 1
    &&& forall|m1: int, m2: int|
        0 <= m1 < m2 < seeds.len() ==> #[trigger] seeds[m1] < #[trigger] seeds[m2]
}

/// Every labelled cell lies at or after its label's seed and is connected
/// to it; label `cur` (being filled) has seed `s`.
spec fn reach_ok(
    kinds: Seq<TileType>,
    w: int,
    wl: Seq<TileType>,
    labels: Seq<u32>,
    seeds: Seq<int>,
    cur: int,
    s: int,
) -> bool {
    forall|k: int|
        0 <= k < labels.len() && #[trigger] labels[k] != 0 ==> if labels[k] == cur {
            s <= k && connected(kinds, w, wl, s, k)
        } else {
            seeds[labels[k] - 1] <= k && connected(kinds, w, wl, seeds[labels[k] - 1], k)
        }
}

/// `lab` is the set of labelled cells.
spec fn lab_ok(labels: Seq<u32>, lab: Set<int>) -> bool {
    &&& forall|k: int| 0 <= k < labels.len() ==> (lab.contains(k) <==> #[trigger] labels[k] != 0)
    &&& forall|k: int| #[trigger] lab.contains(k) ==> 0 <= k < labels.len()
    &&& lab.finite()
    &&& lab.len() <= labels.len()
}

/// Tiles keep everything but their label in channel `ch`.
pub open spec fn frame_ok(old_tiles: Seq<(Tile, u8, Selection)>, tiles: Seq<(Tile, u8, Selection)>, ch: int) -> bool {
    &&& tiles.len() == old_tiles.len()
    &&& forall|k: int| 0 <= k < tiles.len() ==> same_but_label(old_tiles[k], #[trigger] tiles[k], ch)
}

proof fn lemma_lab_insert(labels: Seq<u32>, lab: Set<int>, i: int, v: u32)
    requires
        lab_ok(labels, lab),
        0 <= i < labels.len(),
        labels[i] == 0,
        v != 0,
    ensures
        lab_ok(labels.update(i, v), lab.insert(i)),
        lab.insert(i).len() == lab.len() + 1,
{
    let l2 = lab.insert(i);
    assert(!lab.contains(i));
    assert(l2.subset_of(set_int_range(0, labels.len() as int)));
    lemma_int_range(0, labels.len() as int);
    lemma_len_subset(l2, set_int_range(0, labels.len() as int));
}

/// From the fill's invariants at the end of the scan to the labelling's
/// characterisation.
proof fn lemma_labelling_complete(
    kinds: Seq<TileType>,
    w: int,
    wl: Seq<TileType>,
    labels: Seq<u32>,
    seeds: Seq<int>,
    next: int,
)
    requires
        labels.len() == kinds.len(),
        next == seeds.len() + 1,
        labels_bounded(kinds, wl, labels, next),
        members_labelled_below(kinds, wl, labels, kinds.len() as int),
        closed(kinds, w, wl, labels, 0, Set::empty()),
        seeds_ok(labels, seeds, kinds.len() as int),
        reach_ok(kinds, w, wl, labels, seeds, 0, kinds.len() as int),
    ensures
        is_region_labelling(kinds, w, wl, labels),
{
    reveal(labels_connected);
    reveal(labels_in_raster_order);
    let n = kinds.len() as int;
    assert forall|i: int, j: int|
        #[trigger] adjacent(w, n, i, j) && is_member(kinds, wl, i) && is_member(kinds, wl, j)
        implies labels[i] == labels[j] by {
        assert(labels[i] != 0);
    }
    assert forall|i: int, j: int|
        0 <= i < n && 0 <= j < n && #[trigger] labels[i] != 0 && labels[i] == #[trigger] labels[j]
        implies connected(kinds, w, wl, i, j) by {
        let sd = seeds[labels[i] - 1];
        lemma_connected_symmetric(kinds, w, wl, sd, i);
        lemma_connected_trans(kinds, w, wl, i, sd, j);
    }
    assert forall|i: int| 0 <= i < n && #[trigger] labels[i] != 0 implies (exists|j: int|
        0 <= j < i && labels[j] == labels[i]) || ((forall|j: int|
        0 <= j < i ==> labels[j] < labels[i]) && (labels[i] == 1 || exists|j: int|
        0 <= j < i && labels[j] + 1 == labels[i])) by {
        let l = labels[i] as int;
        let sd = seeds[l - 1];
        if sd < i {
            assert(labels[sd] == labels[i]);
        } else {
            assert forall|j: int| 0 <= j < i implies labels[j] < labels[i] by {
                if labels[j] >= labels[i] {
                    let m = labels[j] as int;
                    assert(seeds[m - 1] <= j);
                    if m > l {
                        assert(seeds[l - 1] < seeds[m - 1]);
                    }
                }
            }
            if l != 1 {
                assert(seeds[l - 2] < seeds[l - 1]);
                assert(labels[seeds[l - 2]] + 1 == labels[i]);
            }
        }
    }
}

/// Every tile has a label in channel `ch`.
spec fn channels_ok(tiles: Seq<(Tile, u8, Selection)>, ch: int) -> bool {
    forall|k: int| 0 <= k < tiles.len() ==> ch < (#[trigger] tiles[k]).0.regions@.len()
}

proof fn lemma_frame_trans(
    a: Seq<(Tile, u8, Selection)>,
    b: Seq<(Tile, u8, Selection)>,
    c: Seq<(Tile, u8, Selection)>,
    ch: int,
)
    requires
        frame_ok(a, b, ch),
        frame_ok(b, c, ch),
        channels_ok(a, ch),
        0 <= ch,
    ensures
        frame_ok(a, c, ch),
{
    assert forall|k: int| 0 <= k < c.len() implies same_but_label(a[k], #[trigger] c[k], ch) by {
        assert(same_but_label(a[k], b[k], ch));
        assert(same_but_label(b[k], c[k], ch));
        assert(ch < a[k].0.regions@.len());
        let ra = a[k].0.regions@;
        let rb = b[k].0.regions@;
        let rc = c[k].0.regions@;
        assert forall|j: int| 0 <= j < rc.len() && j != ch implies rc[j] == ra[j] by {
            assert(rc[j] == rb.update(ch, rc[ch])[j]);
            assert(rb[j] == ra.update(ch, rb[ch])[j]);
        }
        assert(rc =~= ra.update(ch, rc[ch]));
    }
}

/// Sets the label of cell `i` in channel `ch` to `v`.
fn set_label(
    tiles: &mut Vec<(Tile, u8, Selection)>,
    i: usize,
    ch: usize,
    v: u32,
    Ghost(base): Ghost<Seq<(Tile, u8, Selection)>>,
)
    requires
        i < old(tiles)@.len(),
        channels_ok(old(tiles)@, ch as int),
        channels_ok(base, ch as int),
        frame_ok(base, old(tiles)@, ch as int),
    ensures
        frame_ok(base, final(tiles)@, ch as int),
        final(tiles)@.len() == old(tiles)@.len(),
        channels_ok(final(tiles)@, ch as int),
        forall|k: int|
            0 <= k < old(tiles)@.len() ==> same_but_label(
                old(tiles)@[k],
                #[trigger] final(tiles)@[k],
                ch as int,
            ),
        labels_of(final(tiles)@, ch as int) == labels_of(old(tiles)@, ch as int).update(i as int, v),
{
    let ghost before = tiles@;
    tiles[i].0.regions[ch] = v;
    proof {
        assert forall|k: int| 0 <= k < before.len() implies same_but_label(
            before[k],
            #[trigger] tiles@[k],
            ch as int,
        ) by {
            if k == i {
                assert(tiles@[k].0.regions@ =~= before[k].0.regions@.update(ch as int, v));
            } else {
                assert(tiles@[k] == before[k]);
                assert(before[k].0.regions@ =~= before[k].0.regions@.update(
                    ch as int,
                    before[k].0.regions@[ch as int],
                ));
            }
        }
        assert(labels_of(tiles@, ch as int) =~= labels_of(before, ch as int).update(i as int, v));
        assert forall|k: int| 0 <= k < tiles@.len() implies ch < (#[trigger] tiles@[k]).0.regions@.len() by {
            assert(same_but_label(before[k], tiles@[k], ch as int));
        }
        lemma_frame_trans(base, before, tiles@, ch as int);
    }
}

impl TileGrid {
    /// Labels the districts of the cells whose kind is in `whitelist`, in
    /// channel `region_type`: every label of the channel is first reset to 0,
    /// then the cells are scanned in raster order and each member cell not yet
    /// labelled starts a new district with the next label (from 1), spread by
    /// a depth-first fill to every member cell reachable through shared sides.
    /// The channel's next unused label is recorded in `num_regions`.
    pub fn find_connected_regions(&mut self, whitelist: &Vec<TileType>, region_type: usize)
        requires
            old(self).wf(),
            region_type < old(self).num_regions@.len(),
            old(self).tiles@.len() < u32::MAX,
        ensures
            final(self).wf(),
            final(self).width == old(self).width,
            final(self).height == old(self).height,
            final(self).num_selected == old(self).num_selected,
            frame_ok(old(self).tiles@, final(self).tiles@, region_type as int),
            is_region_labelling(
                types_of(old(self).tiles@),
                old(self).width as int,
                whitelist@,
                labels_of(final(self).tiles@, region_type as int),
            ),
            final(self).num_regions@ == old(self).num_regions@.update(
                region_type as int,
                final(self).num_regions@[region_type as int],
            ),
            final(self).num_regions@[region_type as int] >= 1,
            forall|k: int|
                0 <= k < old(self).tiles@.len() ==> #[trigger] labels_of(
                    final(self).tiles@,
                    region_type as int,
                )[k] < final(self).num_regions@[region_type as int],
            forall|l: int|
                1 <= l < final(self).num_regions@[region_type as int] ==> #[trigger] label_used(
                    labels_of(final(self).tiles@, region_type as int),
                    l,
                ),
    {
        let ch = region_type;
        let ghost chi = ch as int;
        let ghost old_tiles = self.tiles@;
        let ghost kinds = types_of(old_tiles);
        let ghost wi = self.width as int;
        let ghost hi = self.height as int;
        let ghost wl = whitelist@;
        let n = self.tiles.len();
        let w = self.width;
        proof {
            assert forall|k: int| 0 <= k < old_tiles.len() implies chi < (
            #[trigger] old_tiles[k]).0.regions@.len() by {
                assert(old_tiles[k].0.wf(old(self).num_regions@.len()));
            }
            assert forall|k: int| 0 <= k < old_tiles.len() implies same_but_label(
                old_tiles[k],
                #[trigger] old_tiles[k],
                chi,
            ) by {
                assert(old_tiles[k].0.regions@ =~= old_tiles[k].0.regions@.update(
                    chi,
                    old_tiles[k].0.regions@[chi],
                ));
            }
        }
        let mut i: usize = 0;
        while i < n
            invariant
                i <= n,
                chi == ch,
                n == old_tiles.len(),
                old_tiles == old(self).tiles@,
                channels_ok(old_tiles, chi),
                old(self).wf(),
                ch < old(self).num_regions@.len(),
                self.width == old(self).width,
                self.height == old(self).height,
                self.num_selected == old(self).num_selected,
                self.num_regions == old(self).num_regions,
                frame_ok(old_tiles, self.tiles@, chi),
                channels_ok(self.tiles@, chi),
                forall|k: int| 0 <= k < i ==> #[trigger] labels_of(self.tiles@, chi)[k] == 0,
            decreases n - i,
        {
            proof {
                assert(old_tiles[i as int].0.wf(old(self).num_regions@.len()));
            }
            set_label(&mut self.tiles, i, ch, 0, Ghost(old_tiles));
            i = i + 1;
        }
        let mut next: u32 = 1;
        let ghost mut seeds: Seq<int> = Seq::empty();
        let ghost mut lab: Set<int> = Set::empty();
        proof {
            assert(lab_ok(labels_of(self.tiles@, chi), lab));
        }
        let mut s: usize = 0;
        while s < n
            invariant
                s <= n,
                n == old_tiles.len(),
                n < u32::MAX,
                old_tiles == old(self).tiles@,
                kinds == types_of(old_tiles),
                wl == whitelist@,
                wi == w,
                w == self.width,
                hi == self.height,
                old(self).wf(),
                ch < old(self).num_regions@.len(),
                chi == ch,
                self.width == old(self).width,
                self.height == old(self).height,
                self.num_selected == old(self).num_selected,
                self.num_regions == old(self).num_regions,
                frame_ok(old_tiles, self.tiles@, chi),
                channels_ok(self.tiles@, chi),
                1 <= next,
                next - 1 <= s,
                next == seeds.len() + 1,
                labels_bounded(kinds, wl, labels_of(self.tiles@, chi), next as int),
                members_labelled_below(kinds, wl, labels_of(self.tiles@, chi), s as int),
                closed(kinds, wi, wl, labels_of(self.tiles@, chi), 0, Set::empty()),
                seeds_ok(labels_of(self.tiles@, chi), seeds, s as int),
                reach_ok(kinds, wi, wl, labels_of(self.tiles@, chi), seeds, 0, s as int),
                lab_ok(labels_of(self.tiles@, chi), lab),
            decreases n - s,
        {
            proof {
                assert(old_tiles[s as int].0.wf(old(self).num_regions@.len()));
                assert(same_but_label(old_tiles[s as int], self.tiles@[s as int], chi));
            }
            if self.tiles[s].0.regions[ch] == 0 && is_listed(whitelist, &self.tiles[s].0.tile_type) {
                let cur = next;
                proof {
                    lemma_row_col(s as int, wi, hi);
                    assert(is_member(kinds, wl, s as int));
                    lemma_lab_insert(labels_of(self.tiles@, chi), lab, s as int, cur);
                    lab = lab.insert(s as int);
                    lemma_path_single(kinds, wi, wl, s as int);
                }
                set_label(&mut self.tiles, s, ch, cur, Ghost(old_tiles));
                let mut stack: Vec<usize> = vec![s];
                let ghost mut done: Set<int> = Set::empty();
                while stack.len() > 0
                    invariant
                        s < n,
                        w >= 1,
                        n == old_tiles.len(),
                        n < u32::MAX,
                        old_tiles == old(self).tiles@,
                        kinds == types_of(old_tiles),
                        wl == whitelist@,
                        wi == w,
                        w == self.width,
                        old(self).wf(),
                        ch < old(self).num_regions@.len(),
                        chi == ch,
                        self.width == old(self).width,
                        self.height == old(self).height,
                        self.num_selected == old(self).num_selected,
                        self.num_regions == old(self).num_regions,
                        frame_ok(old_tiles, self.tiles@, chi),
                        channels_ok(self.tiles@, chi),
                        cur == next,
                        1 <= next,
                        next - 1 <= s,
                        next == seeds.len() + 1,
                        labels_bounded(kinds, wl, labels_of(self.tiles@, chi), cur + 1),
                        members_labelled_below(kinds, wl, labels_of(self.tiles@, chi), s as int),
                        labels_of(self.tiles@, chi)[s as int] == cur,
                        closed(kinds, wi, wl, labels_of(self.tiles@, chi), cur as int, done),
                        forall|x: int|
                            #[trigger] done.contains(x) ==> 0 <= x < n && labels_of(self.tiles@, chi)[x]
                                == cur,
                        forall|x: int|
                            0 <= x < n && #[trigger] labels_of(self.tiles@, chi)[x] == cur
                                ==> done.contains(x) || stack@.contains(x as usize),
                        forall|k: int|
                            0 <= k < stack@.len() ==> #[trigger] stack@[k] < n && labels_of(
                                self.tiles@,
                                chi,
                            )[stack@[k] as int] == cur,
                        seeds_ok(labels_of(self.tiles@, chi), seeds, s as int),
                        reach_ok(kinds, wi, wl, labels_of(self.tiles@, chi), seeds, cur as int, s as int),
                        lab_ok(labels_of(self.tiles@, chi), lab),
                    decreases 2 * (n - lab.len()) + stack@.len(),
                {
                    let ghost measure = 2 * (n - lab.len()) + stack@.len();
                    let ghost before_pop = stack@;
                    let c = stack.pop().unwrap();
                    proof {
                        assert forall|x: int|
                            0 <= x < n && #[trigger] labels_of(self.tiles@, chi)[x] == cur implies done.contains(x)
                                || stack@.contains(x as usize) || x == c by {
                            if !done.contains(x) {
                                let j = choose|j: int| 0 <= j < before_pop.len() && before_pop[j] == x as usize;
                                if j < stack@.len() {
                                    assert(stack@[j] == x as usize);
                                }
                            }
                        }
                    }
                    let nbs = neighbours(c, w, n);
                    let mut k: usize = 0;
                    while k < nbs.len()
                        invariant
                            s < n,
                            c < n,
                            w >= 1,
                            n == old_tiles.len(),
                            n < u32::MAX,
                            old_tiles == old(self).tiles@,
                            kinds == types_of(old_tiles),
                            wl == whitelist@,
                            wi == w,
                            w == self.width,
                            old(self).wf(),
                            ch < old(self).num_regions@.len(),
                            chi == ch,
                            self.width == old(self).width,
                            self.height == old(self).height,
                            self.num_selected == old(self).num_selected,
                            self.num_regions == old(self).num_regions,
                            frame_ok(old_tiles, self.tiles@, chi),
                            channels_ok(self.tiles@, chi),
                            cur == next,
                            1 <= next,
                            next - 1 <= s,
                            next == seeds.len() + 1,
                            labels_bounded(kinds, wl, labels_of(self.tiles@, chi), cur + 1),
                            members_labelled_below(kinds, wl, labels_of(self.tiles@, chi), s as int),
                            labels_of(self.tiles@, chi)[s as int] == cur,
                            labels_of(self.tiles@, chi)[c as int] == cur,
                            closed(kinds, wi, wl, labels_of(self.tiles@, chi), cur as int, done),
                            forall|x: int|
                                #[trigger] done.contains(x) ==> 0 <= x < n && labels_of(self.tiles@, chi)[x]
                                    == cur,
                            forall|x: int|
                                0 <= x < n && #[trigger] labels_of(self.tiles@, chi)[x] == cur
                                    ==> done.contains(x) || stack@.contains(x as usize) || x == c,
                            forall|j: int|
                                0 <= j < stack@.len() ==> #[trigger] stack@[j] < n && labels_of(
                                    self.tiles@,
                                    chi,
                                )[stack@[j] as int] == cur,
                            forall|j: int|
                                0 <= j < nbs@.len() ==> adjacent(
                                    wi,
                                    n as int,
                                    c as int,
                                    #[trigger] nbs@[j] as int,
                                ),
                            forall|b: int|
                                adjacent(wi, n as int, c as int, b) ==> nbs@.contains(b as usize),
                            forall|j: int|
                                0 <= j < k && is_member(kinds, wl, #[trigger] nbs@[j] as int)
                                    ==> labels_of(self.tiles@, chi)[nbs@[j] as int] == cur,
                            seeds_ok(labels_of(self.tiles@, chi), seeds, s as int),
                            reach_ok(
                                kinds,
                                wi,
                                wl,
                                labels_of(self.tiles@, chi),
                                seeds,
                                cur as int,
                                s as int,
                            ),
                            lab_ok(labels_of(self.tiles@, chi), lab),
                            2 * (n - lab.len()) + stack@.len() < measure,
                        decreases nbs@.len() - k,
                    {
                        let b = nbs[k];
                        proof {
                            assert(adjacent(wi, n as int, c as int, b as int));
                            assert(old_tiles[b as int].0.wf(old(self).num_regions@.len()));
                            assert(same_but_label(old_tiles[b as int], self.tiles@[b as int], chi));
                        }
                        let ghost labels0 = labels_of(self.tiles@, chi);
                        if self.tiles[b].0.regions[ch] == 0 && is_listed(
                            whitelist,
                            &self.tiles[b].0.tile_type,
                        ) {
                            proof {
                                assert(is_member(kinds, wl, b as int));
                                lemma_lab_insert(labels0, lab, b as int, cur);
                                lab = lab.insert(b as int);
                                lemma_connected_extend(kinds, wi, wl, s as int, c as int, b as int);
                            }
                            set_label(&mut self.tiles, b, ch, cur, Ghost(old_tiles));
                            let ghost before_push = stack@;
                            stack.push(b);
                            proof {
                                let labels1 = labels_of(self.tiles@, chi);
                                assert(labels1 == labels0.update(b as int, cur));
                                assert forall|x: int|
                                    0 <= x < n && #[trigger] labels1[x] == cur implies done.contains(x)
                                        || stack@.contains(x as usize) || x == c by {
                                    if x == b {
                                        assert(stack@[stack@.len() - 1] == b);
                                    } else if before_push.contains(x as usize) {
                                        let j = choose|j: int|
                                            0 <= j < before_push.len() && before_push[j] == x as usize;
                                        assert(stack@[j] == x as usize);
                                    }
                                }
                                assert forall|x: int, y: int|
                                    #[trigger] adjacent(wi, kinds.len() as int, x, y) && labels1[x] != 0
                                        && (labels1[x] != cur || done.contains(x)) && is_member(
                                        kinds,
                                        wl,
                                        y,
                                    ) implies labels1[y] == labels1[x] by {
                                    if x == b {
                                        assert(!done.contains(x));
                                    } else if y == b {
                                        assert(labels0[y] == labels0[x]);
                                    }
                                }
                            }
                        } else {
                            proof {
                                if is_member(kinds, wl, b as int) {
                                    lemma_adjacent_symmetric(wi, n as int, c as int, b as int);
                                    if labels0[b as int] != cur {
                                        assert(!stack@.contains(b as usize)) by {
                                            if stack@.contains(b as usize) {
                                                let j = choose|j: int|
                                                    0 <= j < stack@.len() && stack@[j] == b as usize;
                                                assert(stack@[j] == b);
                                            }
                                        }
                                        assert(adjacent(wi, n as int, b as int, c as int));
                                        assert(labels0[c as int] == labels0[b as int]);
                                    }
                                }
                            }
                        }
                        k = k + 1;
                    }
                    proof {
                        let labels1 = labels_of(self.tiles@, chi);
                        assert forall|b: int|
                            #[trigger] adjacent(wi, n as int, c as int, b) && is_member(kinds, wl, b)
                            implies labels1[b] == cur by {
                            assert(nbs@.contains(b as usize));
                            let j = choose|j: int| 0 <= j < nbs@.len() && nbs@[j] == b as usize;
                            assert(is_member(kinds, wl, nbs@[j] as int));
                        }
                        done = done.insert(c as int);
                        assert forall|x: int|
                            0 <= x < n && #[trigger] labels1[x] == cur implies done.contains(x)
                                || stack@.contains(x as usize) by {
                            if x == c {
                                assert(done.contains(x));
                            }
                        }
                    }
                }
                proof {
                    let labels1 = labels_of(self.tiles@, chi);
                    assert forall|x: int, y: int|
                        #[trigger] adjacent(wi, kinds.len() as int, x, y) && labels1[x] != 0 && (
                        labels1[x] != 0 || Set::<int>::empty().contains(x)) && is_member(kinds, wl, y)
                        implies labels1[y] == labels1[x] by {
                        if labels1[x] == cur {
                            assert(done.contains(x));
                        }
                    }
                    seeds = seeds.push(s as int);
                    assert forall|m1: int, m2: int|
                        0 <= m1 < m2 < seeds.len() implies #[trigger] seeds[m1] < #[trigger] seeds[m2] by {
                        if m2 == seeds.len() - 1 {
                            assert(seeds[m1] < s);
                        }
                    }
                    assert forall|k: int|
                        0 <= k < labels1.len() && #[trigger] labels1[k] != 0 implies if labels1[k]
                            == 0 {
                            (s as int) <= k && connected(kinds, wi, wl, s as int, k)
                        } else {
                            seeds[labels1[k] - 1] <= k && connected(
                                kinds,
                                wi,
                                wl,
                                seeds[labels1[k] - 1],
                                k,
                            )
                        } by {
                        if labels1[k] == cur {
                            assert(seeds[labels1[k] - 1] == s);
                        }
                    }
                }
                next = next + 1;
            }
            s = s + 1;
        }
        proof {
            lemma_labelling_complete(kinds, wi, wl, labels_of(self.tiles@, chi), seeds, next as int);
        }
        let ghost nr = self.num_regions@;
        self.num_regions[ch] = next;
        proof {
            assert(self.num_regions@ == nr.update(chi, next));
            assert forall|l: int| 1 <= l < next implies #[trigger] label_used(
                labels_of(self.tiles@, chi),
                l,
            ) by {
                assert(labels_of(self.tiles@, chi)[seeds[l - 1]] == l);
            }
            assert forall|k: int| 0 <= k < self.tiles@.len() implies (#[trigger] self.tiles@[k]).0.wf(
                self.num_regions@.len(),
            ) by {
                assert(old_tiles[k].0.wf(old(self).num_regions@.len()));
                assert(same_but_label(old_tiles[k], self.tiles@[k], chi));
            }
        }
    }
}

} // verus!
