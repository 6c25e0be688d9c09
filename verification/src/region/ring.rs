//! The ring of corners on the hull, and what a cut does to it.

use super::{Corner, Side};
use vstd::prelude::*;

verus! {

/// Whether corner `c` leaves the hull.
pub open spec fn is_outside(sides: Seq<Side>, c: usize) -> bool {
    sides[c as int] is Outside
}

/// The test that a corner passes to stay on the hull.
pub open spec fn retained(sides: Seq<Side>) -> spec_fn(usize) -> bool {
    |c: usize| !is_outside(sides, c)
}

/// On `ring`, which starts at a corner that leaves, exactly the corners at
/// the positions `lo..=hi` stay.
pub open spec fn outside_run(ring: Seq<usize>, sides: Seq<Side>, lo: int, hi: int) -> bool {
    &&& 1 <= lo <= hi < ring.len()
    &&& forall|t: int|
        0 <= t < ring.len() ==> (#[trigger] is_outside(sides, ring[t])) == (t < lo || t > hi)
}

/// The new corners in the order in which the hull stores them.
pub open spec fn new_hull_entries(l_new: bool, r_new: bool, n: usize) -> Seq<usize> {
    let a = n;
    let b = if l_new { (n + 1) as usize } else { n };
    (if l_new { seq![a] } else { Seq::<usize>::empty() }) + (if r_new { seq![b] } else { Seq::<usize>::empty() })
}

/// Keeping the items that pass a test keeps them distinct, and keeps
/// exactly those that pass.
pub proof fn lemma_filter_distinct(s: Seq<usize>, pred: spec_fn(usize) -> bool)
    requires
        s.no_duplicates(),
    ensures
        s.filter(pred).no_duplicates(),
        forall|c: usize| #[trigger] s.filter(pred).contains(c) <==> s.contains(c) && pred(c),
    decreases s.len(),
{
    reveal(Seq::filter);
    if s.len() > 0 {
        let rest = s.drop_last();
        let last = s.last();
        lemma_filter_distinct(rest, pred);
        let f = rest.filter(pred);
        assert forall|c: usize| #[trigger] s.filter(pred).contains(c) <==> s.contains(c) && pred(c) by {
            if s.filter(pred).contains(c) {
                let i = choose|i: int| 0 <= i < s.filter(pred).len() && s.filter(pred)[i] == c;
                if pred(last) && i == f.len() {
                    assert(s[s.len() - 1] == c);
                } else {
                    assert(f[i] == c);
                    assert(f.contains(c));
                    let j = choose|j: int| 0 <= j < rest.len() && rest[j] == c;
                    assert(s[j] == c);
                }
            }
            if s.contains(c) && pred(c) {
                let j = choose|j: int| 0 <= j < s.len() && s[j] == c;
                if j == s.len() - 1 {
                    assert(s.filter(pred)[f.len() as int] == c);
                } else {
                    assert(rest[j] == c);
                    assert(f.contains(c));
                    let i = choose|i: int| 0 <= i < f.len() && f[i] == c;
                    assert(s.filter(pred)[i] == c);
                }
            }
        }
        if pred(last) {
            assert forall|i: int, j: int|
                0 <= i < f.len() + 1 && 0 <= j < f.len() + 1 && i != j implies s.filter(pred)[i]
                != s.filter(pred)[j] by {
                if i == f.len() {
                    assert(f[j] == s.filter(pred)[j]);
                    assert(f.contains(f[j]));
                    assert(rest.contains(f[j]));
                    let t = choose|t: int| 0 <= t < rest.len() && rest[t] == f[j];
                    assert(s[t] == f[j]);
                } else if j == f.len() {
                    assert(f[i] == s.filter(pred)[i]);
                    assert(f.contains(f[i]));
                    assert(rest.contains(f[i]));
                    let t = choose|t: int| 0 <= t < rest.len() && rest[t] == f[i];
                    assert(s[t] == f[i]);
                }
            }
        }
    }
}

/// If as many corners stay as the positions `lo..=hi` hold, and every
/// corner outside these positions leaves, then exactly these positions stay.
pub proof fn lemma_run_from_count(
    ring: Seq<usize>,
    sides: Seq<Side>,
    lo: int,
    hi: int,
    kept: Seq<usize>,
)
    requires
        ring.no_duplicates(),
        1 <= lo <= hi < ring.len(),
        forall|t: int| 0 <= t < lo ==> #[trigger] is_outside(sides, ring[t]),
        forall|t: int| hi < t < ring.len() ==> #[trigger] is_outside(sides, ring[t]),
        kept.no_duplicates(),
        forall|c: usize| #[trigger] kept.contains(c) <==> ring.contains(c) && !is_outside(sides, c),
        kept.len() == hi - lo + 1,
    ensures
        outside_run(ring, sides, lo, hi),
{
    let arc = ring.subrange(lo, hi + 1);
    assert(arc.no_duplicates()) by {
        assert forall|i: int, j: int| 0 <= i < arc.len() && 0 <= j < arc.len() && i != j implies arc[i]
            != arc[j] by {
            assert(arc[i] == ring[lo + i] && arc[j] == ring[lo + j]);
        }
    }
    kept.unique_seq_to_set();
    arc.unique_seq_to_set();
    vstd::seq_lib::seq_to_set_is_finite(kept);
    vstd::seq_lib::seq_to_set_is_finite(arc);
    assert forall|c: usize| kept.to_set().contains(c) implies arc.to_set().contains(c) by {
        assert(kept.contains(c));
        let t = choose|t: int| 0 <= t < ring.len() && ring[t] == c;
        if t < lo || t > hi {
            assert(is_outside(sides, ring[t]));
        }
        assert(arc[t - lo] == c);
    }
    vstd::set_lib::lemma_subset_equality(kept.to_set(), arc.to_set());
    assert forall|t: int| 0 <= t < ring.len() implies (#[trigger] is_outside(sides, ring[t])) == (t < lo
        || t > hi) by {
        if lo <= t <= hi {
            assert(arc[t - lo] == ring[t]);
            assert(arc.to_set().contains(ring[t]));
            assert(kept.to_set().contains(ring[t]));
            assert(kept.contains(ring[t]));
        }
    }
}

/// If exactly the positions `lo..=hi` stay, then as many corners stay as
/// these positions hold.
pub proof fn lemma_count_from_run(
    ring: Seq<usize>,
    sides: Seq<Side>,
    lo: int,
    hi: int,
    kept: Seq<usize>,
)
    requires
        ring.no_duplicates(),
        outside_run(ring, sides, lo, hi),
        kept.no_duplicates(),
        forall|c: usize| #[trigger] kept.contains(c) <==> ring.contains(c) && !is_outside(sides, c),
    ensures
        kept.len() == hi - lo + 1,
        kept.to_set() == ring.subrange(lo, hi + 1).to_set(),
{
    let arc = ring.subrange(lo, hi + 1);
    assert(arc.no_duplicates()) by {
        assert forall|i: int, j: int| 0 <= i < arc.len() && 0 <= j < arc.len() && i != j implies arc[i]
            != arc[j] by {
            assert(arc[i] == ring[lo + i] && arc[j] == ring[lo + j]);
        }
    }
    kept.unique_seq_to_set();
    arc.unique_seq_to_set();
    assert forall|c: usize| kept.to_set().contains(c) == arc.to_set().contains(c) by {
        if kept.contains(c) {
            let t = choose|t: int| 0 <= t < ring.len() && ring[t] == c;
            assert(is_outside(sides, ring[t]) == (t < lo || t > hi));
            assert(arc[t - lo] == c);
        }
        if arc.contains(c) {
            let i = choose|i: int| 0 <= i < arc.len() && arc[i] == c;
            assert(ring[lo + i] == c);
            assert(is_outside(sides, ring[lo + i]) == (lo + i < lo || lo + i > hi));
            assert(ring.contains(c));
        }
    }
    assert(kept.to_set() =~= arc.to_set());
}

/// The stored hull and the ring hold the same corners after a cut.
pub proof fn lemma_cut_hull(
    ring: Seq<usize>,
    lo: int,
    hi: int,
    kept: Seq<usize>,
    l_new: bool,
    r_new: bool,
    n: usize,
)
    requires
        ring.no_duplicates(),
        1 <= lo <= hi < ring.len(),
        forall|t: int| 0 <= t < ring.len() ==> (#[trigger] ring[t]) < n,
        n + 2 <= usize::MAX,
        kept.no_duplicates(),
        kept.len() == hi - lo + 1,
        kept.to_set() == ring.subrange(lo, hi + 1).to_set(),
    ensures
        (kept + new_hull_entries(l_new, r_new, n)).no_duplicates(),
        (kept + new_hull_entries(l_new, r_new, n)).len() == cut_ring(ring, lo, hi, l_new, r_new, n).len(),
        (kept + new_hull_entries(l_new, r_new, n)).to_set() == cut_ring(
            ring,
            lo,
            hi,
            l_new,
            r_new,
            n,
        ).to_set(),
{
    let arc = ring.subrange(lo, hi + 1);
    let extra = new_hull_entries(l_new, r_new, n);
    let hull = kept + extra;
    let nr = cut_ring(ring, lo, hi, l_new, r_new, n);
    let a = n;
    let b = if l_new { (n + 1) as usize } else { n };
    assert forall|i: int| 0 <= i < kept.len() implies (#[trigger] kept[i]) < n by {
        assert(kept.to_set().contains(kept[i]));
        assert(arc.to_set().contains(kept[i]));
        let j = choose|j: int| 0 <= j < arc.len() && arc[j] == kept[i];
        assert(arc[j] == ring[lo + j]);
    }
    assert forall|i: int, j: int| 0 <= i < hull.len() && 0 <= j < hull.len() && i != j implies hull[i]
        != hull[j] by {
        if i < kept.len() {
            assert(hull[i] == kept[i]);
        }
        if j < kept.len() {
            assert(hull[j] == kept[j]);
        }
    }
    assert forall|x: usize| hull.to_set().contains(x) == nr.to_set().contains(x) by {
        if hull.contains(x) {
            let i = choose|i: int| 0 <= i < hull.len() && hull[i] == x;
            if i < kept.len() {
                assert(kept.to_set().contains(kept[i]));
                assert(arc.to_set().contains(x));
                let j = choose|j: int| 0 <= j < arc.len() && arc[j] == x;
                assert(nr[j] == x);
            } else if x == b && r_new {
                assert(nr[arc.len() as int] == b);
            } else {
                assert(x == a && l_new);
                assert(nr[nr.len() - 1] == a);
            }
        }
        if nr.contains(x) {
            let j = choose|j: int| 0 <= j < nr.len() && nr[j] == x;
            if j < arc.len() {
                assert(arc[j] == x);
                assert(arc.to_set().contains(x));
                assert(kept.to_set().contains(x));
                let i = choose|i: int| 0 <= i < kept.len() && kept[i] == x;
                assert(hull[i] == x);
            } else if r_new && j == arc.len() {
                assert(x == b);
                assert(hull[hull.len() - 1] == b);
            } else {
                assert(x == a);
                assert(hull[kept.len() as int] == a);
            }
        }
    }
    assert(hull.to_set() =~= nr.to_set());
}

/// The position that follows `i` on a ring of `m` positions.
pub open spec fn next_pos(i: int, m: int) -> int {
    if i + 1 == m {
        0
    } else {
        i + 1
    }
}

/// The position that precedes `i` on a ring of `m` positions.
pub open spec fn prev_pos(i: int, m: int) -> int {
    if i == 0 {
        m - 1
    } else {
        i - 1
    }
}

/// Position `i` of `ring` names a corner of the arena that is linked to its
/// successor on the left and back; both agree on the constraint between
/// them, and, where the ring has more than one corner, the corner has two
/// different constraints on its two sides.
pub open spec fn link_ok(corners: Seq<Corner>, ring: Seq<usize>, i: int) -> bool {
    let m = ring.len() as int;
    let here = corners[ring[i] as int];
    let there = corners[ring[next_pos(i, m)] as int];
    &&& ring[i] < corners.len()
    &&& here.left == ring[next_pos(i, m)]
    &&& there.right == ring[i]
    &&& here.left_constraint == there.right_constraint
    &&& (m >= 2 ==> here.left_constraint != here.right_constraint)
}

/// `ring` lists corners of the arena, each once, and is linked all the way
/// round.
pub open spec fn ring_ok(corners: Seq<Corner>, ring: Seq<usize>) -> bool {
    &&& ring.len() >= 1
    &&& ring.no_duplicates()
    &&& forall|i: int| 0 <= i < ring.len() ==> #[trigger] link_ok(corners, ring, i)
}

/// `ring`, started at position `p`.
pub open spec fn rotate(ring: Seq<usize>, p: int) -> Seq<usize> {
    ring.subrange(p, ring.len() as int) + ring.subrange(0, p)
}

/// A ring may be started at any of its positions.
pub proof fn lemma_rotate_ring(corners: Seq<Corner>, ring: Seq<usize>, p: int)
    requires
        ring_ok(corners, ring),
        0 <= p < ring.len(),
    ensures
        ring_ok(corners, rotate(ring, p)),
        rotate(ring, p).len() == ring.len(),
        rotate(ring, p).to_set() == ring.to_set(),
        forall|t: int| 0 <= t < ring.len() - p ==> #[trigger] rotate(ring, p)[t] == ring[p + t],
        forall|t: int|
            ring.len() - p <= t < ring.len() ==> #[trigger] rotate(ring, p)[t] == ring[t - (ring.len()
                - p)],
{
    let m = ring.len() as int;
    let r = rotate(ring, p);
    assert(r.len() == m);
    assert forall|t: int| 0 <= t < m - p implies #[trigger] r[t] == ring[p + t] by {}
    assert forall|t: int| m - p <= t < m implies #[trigger] r[t] == ring[t - (m - p)] by {}
    assert forall|i: int, j: int| 0 <= i < m && 0 <= j < m && i != j implies r[i] != r[j] by {
        let a = if i < m - p { p + i } else { i - (m - p) };
        let b = if j < m - p { p + j } else { j - (m - p) };
        assert(r[i] == ring[a] && r[j] == ring[b] && a != b);
    }
    assert forall|i: int| 0 <= i < m implies #[trigger] link_ok(corners, r, i) by {
        let a = if i < m - p { p + i } else { i - (m - p) };
        let ni = next_pos(i, m);
        let b = if ni < m - p { p + ni } else { ni - (m - p) };
        assert(r[i] == ring[a]);
        assert(r[ni] == ring[b]);
        assert(b == next_pos(a, m));
        assert(link_ok(corners, ring, a));
    }
    assert forall|x: usize| r.to_set().contains(x) == ring.to_set().contains(x) by {
        if r.contains(x) {
            let i = choose|i: int| 0 <= i < r.len() && r[i] == x;
            let a = if i < m - p { p + i } else { i - (m - p) };
            assert(ring[a] == x);
        }
        if ring.contains(x) {
            let a = choose|a: int| 0 <= a < ring.len() && ring[a] == x;
            let i = if a >= p { a - p } else { a + (m - p) };
            assert(r[i] == x);
        }
    }
    assert(r.to_set() =~= ring.to_set());
}

/// The corner that a cut leaves at index `c_index`, where `c` stood before.
///
/// The cut ends at the retained corners `l` (reached by walking left) and
/// `r` (reached by walking right). An end that lies strictly inside gets a
/// new corner (`a` next to `l`, `b` next to `r`) as its neighbour; an end on
/// the boundary becomes an end point itself and takes the new constraint
/// `k` on the side of the cut.
pub open spec fn stitched(
    c: Corner,
    c_index: int,
    l: usize,
    r: usize,
    l_new: bool,
    r_new: bool,
    a: usize,
    b: usize,
    k: usize,
) -> Corner {
    let index_right = if l_new { a } else { l };
    let index_left = if r_new { b } else { r };
    let c1 = if c_index == l {
        if l_new {
            Corner { right: a, ..c }
        } else {
            Corner { right: index_left, right_constraint: k, ..c }
        }
    } else {
        c
    };
    if c_index == r {
        if r_new {
            Corner { left: b, ..c1 }
        } else {
            Corner { left: index_right, left_constraint: k, ..c1 }
        }
    } else {
        c1
    }
}

/// The arena after a cut with ends `l` and `r` and new constraint `k`.
pub open spec fn cut_corners(
    old: Seq<Corner>,
    l: usize,
    r: usize,
    l_new: bool,
    r_new: bool,
    k: usize,
) -> Seq<Corner> {
    let a = old.len() as usize;
    let b = if l_new { (old.len() + 1) as usize } else { old.len() as usize };
    let index_right = if l_new { a } else { l };
    let index_left = if r_new { b } else { r };
    let base = Seq::new(old.len(), |c: int| stitched(old[c], c, l, r, l_new, r_new, a, b, k));
    let with_a = if l_new {
        base.push(
            Corner {
                is_checked: false,
                left: l,
                right: index_left,
                left_constraint: old[l as int].right_constraint,
                right_constraint: k,
            },
        )
    } else {
        base
    };
    if r_new {
        with_a.push(
            Corner {
                is_checked: false,
                left: index_right,
                right: r,
                left_constraint: k,
                right_constraint: old[r as int].left_constraint,
            },
        )
    } else {
        with_a
    }
}

/// The ring after a cut: the retained arc `ring[lo..=hi]`, then the new
/// corner next to its last corner, then the new corner next to its first.
pub open spec fn cut_ring(
    ring: Seq<usize>,
    lo: int,
    hi: int,
    l_new: bool,
    r_new: bool,
    n: usize,
) -> Seq<usize> {
    let a = n;
    let b = if l_new { (n + 1) as usize } else { n };
    ring.subrange(lo, hi + 1) + (if r_new { seq![b] } else { Seq::<usize>::empty() }) + (if l_new {
        seq![a]
    } else {
        Seq::<usize>::empty()
    })
}

/// What a cut needs: a ring, a retained arc `ring[lo..=hi]` that leaves out
/// position 0, room for two more corners, and a constraint index `k` that
/// no corner uses yet.
pub open spec fn cut_pre(old: Seq<Corner>, ring: Seq<usize>, lo: int, hi: int, k: usize) -> bool {
    &&& ring_ok(old, ring)
    &&& 1 <= lo <= hi < ring.len()
    &&& old.len() + 2 <= usize::MAX
    &&& forall|c: int|
        0 <= c < old.len() ==> (#[trigger] old[c]).left_constraint < k && old[c].right_constraint < k
}

/// The shape of the arena and the ring after a cut.
pub proof fn lemma_cut_shape(
    old: Seq<Corner>,
    ring: Seq<usize>,
    lo: int,
    hi: int,
    l_new: bool,
    r_new: bool,
    k: usize,
)
    requires
        cut_pre(old, ring, lo, hi, k),
    ensures
        ({
            let n = old.len() as usize;
            let l = ring[lo];
            let r = ring[hi];
            let a = n;
            let b = if l_new { (n + 1) as usize } else { n };
            let index_right = if l_new { a } else { l };
            let index_left = if r_new { b } else { r };
            let new = cut_corners(old, l, r, l_new, r_new, k);
            let nr = cut_ring(ring, lo, hi, l_new, r_new, n);
            let arc = hi - lo + 1;
            &&& l < n && r < n
            &&& (l == r <==> lo == hi)
            &&& nr.len() == arc + (if r_new { 1int } else { 0int }) + (if l_new { 1int } else { 0int })
            &&& new.len() == n + (if r_new { 1int } else { 0int }) + (if l_new { 1int } else { 0int })
            &&& forall|i: int| 0 <= i < arc ==> #[trigger] nr[i] == ring[lo + i]
            &&& forall|i: int| 0 <= i < arc ==> (#[trigger] ring[lo + i]) < n
            &&& forall|c: int|
                0 <= c < n ==> #[trigger] new[c] == stitched(old[c], c, l, r, l_new, r_new, a, b, k)
            &&& r_new ==> nr[arc] == b && new[b as int] == (Corner {
                is_checked: false,
                left: index_right,
                right: r,
                left_constraint: k,
                right_constraint: old[r as int].left_constraint,
            })
            &&& l_new ==> nr[nr.len() - 1] == a && new[a as int] == (Corner {
                is_checked: false,
                left: l,
                right: index_left,
                left_constraint: old[l as int].right_constraint,
                right_constraint: k,
            })
        }),
{
    let l = ring[lo];
    let r = ring[hi];
    assert(link_ok(old, ring, lo));
    assert(link_ok(old, ring, hi));
    assert forall|i: int| 0 <= i < hi - lo + 1 implies (#[trigger] ring[lo + i]) < old.len() by {
        assert(link_ok(old, ring, lo + i));
    }
}

/// The links inside the retained arc survive a cut.
proof fn lemma_cut_link_arc(
    old: Seq<Corner>,
    ring: Seq<usize>,
    lo: int,
    hi: int,
    l_new: bool,
    r_new: bool,
    k: usize,
    i: int,
)
    requires
        cut_pre(old, ring, lo, hi, k),
        0 <= i < hi - lo,
    ensures
        link_ok(
            cut_corners(old, ring[lo], ring[hi], l_new, r_new, k),
            cut_ring(ring, lo, hi, l_new, r_new, old.len() as usize),
            i,
        ),
{
    lemma_cut_shape(old, ring, lo, hi, l_new, r_new, k);
    let n = old.len() as usize;
    let nr = cut_ring(ring, lo, hi, l_new, r_new, n);
    let new = cut_corners(old, ring[lo], ring[hi], l_new, r_new, k);
    let c = ring[lo + i];
    let d = ring[lo + i + 1];
    assert(link_ok(old, ring, lo + i));
    assert(next_pos(lo + i, ring.len() as int) == lo + i + 1);
    assert(next_pos(i, nr.len() as int) == i + 1);
    assert(nr[i] == c);
    assert(nr[i + 1] == d);
    assert(c != ring[hi]);
    assert(d != ring[lo]);
    assert(c < n && d < n);
    let a = n;
    let b = if l_new { (n + 1) as usize } else { n };
    assert(new[c as int] == stitched(old[c as int], c as int, ring[lo], ring[hi], l_new, r_new, a, b, k));
    assert(new[d as int] == stitched(old[d as int], d as int, ring[lo], ring[hi], l_new, r_new, a, b, k));
}

/// After a cut, the last corner of the retained arc is linked to what
/// follows it.
proof fn lemma_cut_link_last(
    old: Seq<Corner>,
    ring: Seq<usize>,
    lo: int,
    hi: int,
    l_new: bool,
    r_new: bool,
    k: usize,
)
    requires
        cut_pre(old, ring, lo, hi, k),
    ensures
        link_ok(
            cut_corners(old, ring[lo], ring[hi], l_new, r_new, k),
            cut_ring(ring, lo, hi, l_new, r_new, old.len() as usize),
            hi - lo,
        ),
{
    lemma_cut_shape(old, ring, lo, hi, l_new, r_new, k);
    let n = old.len() as usize;
    let nr = cut_ring(ring, lo, hi, l_new, r_new, n);
    let new = cut_corners(old, ring[lo], ring[hi], l_new, r_new, k);
    let l = ring[lo];
    let r = ring[hi];
    let i = hi - lo;
    let a = n;
    let b = if l_new { (n + 1) as usize } else { n };
    assert(nr[i] == r);
    assert(nr[0] == l);
    assert(link_ok(old, ring, hi));
    assert(link_ok(old, ring, lo));
    assert(new[r as int] == stitched(old[r as int], r as int, l, r, l_new, r_new, a, b, k));
    assert(new[l as int] == stitched(old[l as int], l as int, l, r, l_new, r_new, a, b, k));
    let ni = next_pos(i, nr.len() as int);
    if r_new {
        assert(ni == i + 1);
        assert(nr[ni] == b);
    } else if l_new {
        assert(ni == i + 1);
        assert(nr[ni] == a);
    } else {
        assert(ni == 0);
    }
}

/// After a cut, the new corner at the end of the retained arc is linked
/// to what follows it.
proof fn lemma_cut_link_b(
    old: Seq<Corner>,
    ring: Seq<usize>,
    lo: int,
    hi: int,
    l_new: bool,
    k: usize,
)
    requires
        cut_pre(old, ring, lo, hi, k),
    ensures
        link_ok(
            cut_corners(old, ring[lo], ring[hi], l_new, true, k),
            cut_ring(ring, lo, hi, l_new, true, old.len() as usize),
            hi - lo + 1,
        ),
{
    lemma_cut_shape(old, ring, lo, hi, l_new, true, k);
    let n = old.len() as usize;
    let nr = cut_ring(ring, lo, hi, l_new, true, n);
    let new = cut_corners(old, ring[lo], ring[hi], l_new, true, k);
    let l = ring[lo];
    let r = ring[hi];
    let i = hi - lo + 1;
    let a = n;
    let b = if l_new { (n + 1) as usize } else { n };
    assert(nr[i] == b);
    assert(nr[0] == l);
    assert(link_ok(old, ring, hi));
    assert(link_ok(old, ring, lo));
    assert(new[l as int] == stitched(old[l as int], l as int, l, r, l_new, true, a, b, k));
    let ni = next_pos(i, nr.len() as int);
    if l_new {
        assert(ni == i + 1);
        assert(nr[ni] == a);
    } else {
        assert(ni == 0);
    }
}

/// After a cut, the new corner before the start of the retained arc is
/// linked to that start.
proof fn lemma_cut_link_a(
    old: Seq<Corner>,
    ring: Seq<usize>,
    lo: int,
    hi: int,
    r_new: bool,
    k: usize,
)
    requires
        cut_pre(old, ring, lo, hi, k),
    ensures
        link_ok(
            cut_corners(old, ring[lo], ring[hi], true, r_new, k),
            cut_ring(ring, lo, hi, true, r_new, old.len() as usize),
            cut_ring(ring, lo, hi, true, r_new, old.len() as usize).len() - 1,
        ),
{
    lemma_cut_shape(old, ring, lo, hi, true, r_new, k);
    let n = old.len() as usize;
    let nr = cut_ring(ring, lo, hi, true, r_new, n);
    let new = cut_corners(old, ring[lo], ring[hi], true, r_new, k);
    let l = ring[lo];
    let r = ring[hi];
    let i = nr.len() - 1;
    let a = n;
    let b = (n + 1) as usize;
    assert(nr[i] == a);
    assert(nr[0] == l);
    assert(link_ok(old, ring, lo));
    assert(new[l as int] == stitched(old[l as int], l as int, l, r, true, r_new, a, b, k));
    assert(next_pos(i, nr.len() as int) == 0);
}

/// Cutting off the corners outside `ring[lo..=hi]` leaves a ring again.
pub proof fn lemma_cut_ring(
    old: Seq<Corner>,
    ring: Seq<usize>,
    lo: int,
    hi: int,
    l_new: bool,
    r_new: bool,
    k: usize,
)
    requires
        cut_pre(old, ring, lo, hi, k),
    ensures
        ring_ok(
            cut_corners(old, ring[lo], ring[hi], l_new, r_new, k),
            cut_ring(ring, lo, hi, l_new, r_new, old.len() as usize),
        ),
{
    lemma_cut_shape(old, ring, lo, hi, l_new, r_new, k);
    let n = old.len() as usize;
    let new = cut_corners(old, ring[lo], ring[hi], l_new, r_new, k);
    let nr = cut_ring(ring, lo, hi, l_new, r_new, n);
    let arc = hi - lo + 1;
    let mm = nr.len() as int;
    assert forall|i: int, j: int| 0 <= i < mm && 0 <= j < mm && i != j implies nr[i] != nr[j] by {
        if i < arc {
            assert(nr[i] == ring[lo + i]);
            assert(ring[lo + i] < n);
        }
        if j < arc {
            assert(nr[j] == ring[lo + j]);
            assert(ring[lo + j] < n);
        }
    }
    assert forall|i: int| 0 <= i < mm implies #[trigger] link_ok(new, nr, i) by {
        if i < arc - 1 {
            lemma_cut_link_arc(old, ring, lo, hi, l_new, r_new, k, i);
        } else if i == arc - 1 {
            lemma_cut_link_last(old, ring, lo, hi, l_new, r_new, k);
        } else if r_new && i == arc {
            lemma_cut_link_b(old, ring, lo, hi, l_new, k);
        } else {
            lemma_cut_link_a(old, ring, lo, hi, r_new, k);
        }
    }
}

/// Marking corners as checked changes nothing about the ring.
pub proof fn lemma_ring_ignores_checks(before: Seq<Corner>, after: Seq<Corner>, ring: Seq<usize>)
    requires
        ring_ok(before, ring),
        before.len() == after.len(),
        forall|c: int|
            0 <= c < before.len() ==> {
                &&& (#[trigger] after[c]).left == before[c].left
                &&& after[c].right == before[c].right
                &&& after[c].left_constraint == before[c].left_constraint
                &&& after[c].right_constraint == before[c].right_constraint
            },
    ensures
        ring_ok(after, ring),
{
    let m = ring.len() as int;
    assert forall|i: int| 0 <= i < m implies #[trigger] link_ok(after, ring, i) by {
        let ni = next_pos(i, m);
        assert(link_ok(before, ring, i));
        assert(link_ok(before, ring, ni));
    }
}

} // verus!
