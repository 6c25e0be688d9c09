//! The exact preference region of one path for three cost dimensions.
//!
//! The region is a convex polygon inside the simplex, cut down halfplane by
//! halfplane. This module keeps its combinatorial side: the arena of
//! corners, the ring that links the corners currently on the hull, and the
//! integer constraints that bound them. Coordinates live with the caller,
//! who tells for each corner on which side of a new halfplane it lies.

pub mod exact;
pub mod output;
pub mod ring;

pub use output::{lowered_constraint, print_intersections};
pub use ring::{
    cut_corners, cut_ring, is_outside, link_ok, new_hull_entries, next_pos, outside_run, prev_pos,
    retained, ring_ok, rotate,
};

use ring::{
    cut_pre, lemma_count_from_run, lemma_cut_hull, lemma_cut_ring, lemma_cut_shape,
    lemma_filter_distinct, lemma_ring_ignores_checks, lemma_rotate_ring, lemma_run_from_count,
};
use vstd::prelude::*;

verus! {

/// Where a corner lies relative to a new halfplane, up to the precision of
/// the caller's arithmetic.
#[derive(Debug, Clone, Copy, PartialEq, Eq, Structural)]
pub enum Side {
    /// Strictly inside: the corner stays and is no end point of the cut.
    Inside,
    /// On the bounding line: the corner stays and becomes an end point of the cut.
    Boundary,
    /// Violates the halfplane: the corner leaves the hull.
    Outside,
}

/// A vertex of the region. Neighbours and constraints are indices into the
/// arena of corners and into the list of constraints.
#[derive(Debug, Clone, Copy)]
pub struct Corner {
    /// Whether the oracle has been asked at this corner.
    pub is_checked: bool,
    /// The next corner on the hull in walking direction "left".
    pub left: usize,
    /// The next corner on the hull in walking direction "right".
    pub right: usize,
    /// The constraint that bounds the hull between this corner and `left`.
    pub left_constraint: usize,
    /// The constraint that bounds the hull between this corner and `right`.
    pub right_constraint: usize,
}

/// A corner that a cut has added to the arena. Its place is on the segment
/// between the retained corner `inner` and the removed corner `outer`, where
/// the new halfplane crosses it.
#[derive(Debug, Clone, Copy, PartialEq, Eq)]
pub struct NewCorner {
    /// Index of the new corner in the arena.
    pub index: usize,
    /// The retained end of the crossed segment.
    pub inner: usize,
    /// The removed end of the crossed segment.
    pub outer: usize,
}

/// The corners that a cut has added: at most one at each end of what it
/// removed.
#[derive(Debug, Clone, Copy, PartialEq, Eq)]
pub struct Cut {
    /// Added next to the first retained corner on the left.
    pub left: Option<NewCorner>,
    /// Added next to the first retained corner on the right.
    pub right: Option<NewCorner>,
}

/// One corner of the hull as the region is written out: its index in the
/// arena and the places in the hull of its neighbours.
#[derive(Debug, Clone, Copy, PartialEq, Eq)]
pub struct AreaLine {
    /// Index of the corner in the arena.
    pub corner: usize,
    /// Place in the hull of the left neighbour.
    pub left: usize,
    /// Place in the hull of the right neighbour.
    pub right: usize,
}

/// Why a halfplane could not be cut into the region.
#[derive(Debug, Clone, Copy, PartialEq, Eq)]
pub enum CutError {
    /// Every corner of the hull lies outside: nothing would be left.
    NothingLeft,
    /// The corners that lie outside do not form one piece of the ring, as
    /// they do for any halfplane and any convex polygon.
    Scattered,
}

/// The three constraints every region starts with, `-a_i <= 0`.
pub open spec fn simplex_bound(i: int) -> Seq<i32> {
    Seq::new(3, |j: int| if j == i { -1i32 } else { 0i32 })
}

/// The value of a cost read as a signed number, as a cast does it.
pub open spec fn signed(c: u32) -> int {
    if c <= i32::MAX {
        c as int
    } else {
        c - 0x1_0000_0000
    }
}

/// Builds the preference region of one path between `source` and `target`.
pub struct AreaCalculator {
    source: u32,
    target: u32,
    costs: Vec<u32>,
    corners: Vec<Corner>,
    hull_indices: Vec<usize>,
    ch_counter: usize,
    constraints: Vec<Vec<i32>>,
    ring: Ghost<Seq<usize>>,
}

impl AreaCalculator {
    /// All corners ever made, by index.
    pub closed spec fn corners(&self) -> Seq<Corner> {
        self.corners@
    }

    /// The corners on the hull, in the order they are stored.
    pub closed spec fn hull(&self) -> Seq<usize> {
        self.hull_indices@
    }

    /// The corners on the hull in walking order: each is followed by its
    /// left neighbour, and the last by the first.
    pub closed spec fn ring(&self) -> Seq<usize> {
        self.ring@
    }

    /// The halfplanes, each `c . a <= 0`, that bound the region.
    pub closed spec fn constraint_rows(&self) -> Seq<Seq<i32>> {
        Seq::new(self.constraints@.len(), |k: int| self.constraints@[k]@)
    }

    /// The cost vector of the path.
    pub closed spec fn path_costs(&self) -> Seq<u32> {
        self.costs@
    }

    /// How often the oracle has been asked.
    pub closed spec fn oracle_calls(&self) -> nat {
        self.ch_counter as nat
    }

    /// The end points of the path.
    pub closed spec fn end_points(&self) -> (u32, u32) {
        (self.source, self.target)
    }

    /// The hull is a closed ring of distinct corners, stored in
    /// `hull` in some order, and every corner names constraints that exist.
    pub open spec fn wf(&self) -> bool {
        &&& ring_ok(self.corners(), self.ring())
        &&& self.hull().no_duplicates()
        &&& self.hull().len() == self.ring().len()
        &&& self.hull().to_set() == self.ring().to_set()
        &&& forall|c: int|
            0 <= c < self.corners().len() ==> (#[trigger] self.corners()[c]).left_constraint
                < self.constraint_rows().len() && self.corners()[c].right_constraint
                < self.constraint_rows().len()
        &&& self.constraint_rows().len() >= 3
        &&& forall|k: int| 0 <= k < 3 ==> #[trigger] self.constraint_rows()[k] == simplex_bound(k)
        &&& forall|k: int|
            0 <= k < self.constraint_rows().len() ==> (#[trigger] self.constraint_rows()[k]).len() == 3
    }

    /// Whether corner `c` is on the hull.
    pub open spec fn on_hull(&self, c: usize) -> bool {
        self.hull().contains(c)
    }

    /// The region before any cut: the whole simplex, a triangle whose
    /// corners are the three unit preferences, none of them checked.
    pub fn new(source: u32, target: u32, costs: Vec<u32>) -> (calc: Self)
        ensures
            calc.wf(),
            calc.end_points() == (source, target),
            calc.path_costs() == costs@,
            calc.oracle_calls() == 0,
            calc.hull() == seq![0usize, 1usize, 2usize],
            calc.ring() == seq![0usize, 1usize, 2usize],
            calc.constraint_rows().len() == 3,
            calc.corners().len() == 3,
            forall|i: int|
                0 <= i < 3 ==> #[trigger] calc.corners()[i] == (Corner {
                    is_checked: false,
                    left: ((i + 1) % 3) as usize,
                    right: ((i + 2) % 3) as usize,
                    left_constraint: ((i + 2) % 3) as usize,
                    right_constraint: ((i + 1) % 3) as usize,
                }),
    {
        let mut corners: Vec<Corner> = Vec::new();
        let mut hull_indices: Vec<usize> = Vec::new();
        let mut constraints: Vec<Vec<i32>> = Vec::new();
        let mut i: usize = 0;
        while i < 3
            invariant
                i <= 3,
                corners@.len() == i,
                hull_indices@.len() == i,
                constraints@.len() == i,
                forall|j: int| 0 <= j < i ==> #[trigger] hull_indices@[j] == j,
                forall|j: int| 0 <= j < i ==> (#[trigger] constraints@[j])@ == simplex_bound(j),
                forall|j: int|
                    0 <= j < i ==> #[trigger] corners@[j] == (Corner {
                        is_checked: false,
                        left: ((j + 1) % 3) as usize,
                        right: ((j + 2) % 3) as usize,
                        left_constraint: ((j + 2) % 3) as usize,
                        right_constraint: ((j + 1) % 3) as usize,
                    }),
            decreases 3 - i,
        {
            let mut constraint: Vec<i32> = Vec::new();
            constraint.push(0);
            constraint.push(0);
            constraint.push(0);
            constraint[i] = -1;
            assert(constraint@ =~= simplex_bound(i as int));
            constraints.push(constraint);
            corners.push(
                Corner {
                    is_checked: false,
                    left: (i + 1) % 3,
                    right: (i + 2) % 3,
                    left_constraint: (i + 2) % 3,
                    right_constraint: (i + 1) % 3,
                },
            );
            hull_indices.push(i);
            i += 1;
        }
        let ghost triangle: Seq<usize> = seq![0usize, 1usize, 2usize];
        let calc = AreaCalculator {
            source,
            target,
            costs,
            corners,
            hull_indices,
            ch_counter: 0,
            constraints,
            ring: Ghost(triangle),
        };
        proof {
            let ring = calc.ring();
            assert(calc.hull() =~= ring);
            assert(ring[0] == 0 && ring[1] == 1 && ring[2] == 2);
            assert(calc.corners()[0].left == 1 && calc.corners()[1].left == 2 && calc.corners()[2].left
                == 0);
            assert(link_ok(calc.corners(), ring, 0));
            assert(link_ok(calc.corners(), ring, 1));
            assert(link_ok(calc.corners(), ring, 2));
            assert(ring_ok(calc.corners(), ring));
            assert forall|k: int| 0 <= k < 3 implies #[trigger] calc.constraint_rows()[k]
                == simplex_bound(k) by {
                assert(calc.constraints@[k]@ == simplex_bound(k));
            }
            assert forall|c: int| 0 <= c < 3 implies (#[trigger] calc.corners()[c]).left_constraint < 3
                && calc.corners()[c].right_constraint < 3 by {}
        }
        calc
    }

    /// Number of corners in the arena.
    pub fn corner_count(&self) -> (n: usize)
        ensures
            n == self.corners().len(),
    {
        self.corners.len()
    }

    /// The corner with index `c`.
    pub fn corner(&self, c: usize) -> (corner: Corner)
        requires
            c < self.corners().len(),
        ensures
            corner == self.corners()[c as int],
    {
        self.corners[c]
    }

    /// The corners on the hull, in the order they are stored.
    pub fn hull_indices(&self) -> (hull: &Vec<usize>)
        ensures
            hull@ == self.hull(),
    {
        &self.hull_indices
    }

    /// The constraints found so far, the three simplex bounds first.
    pub fn constraints(&self) -> (rows: &Vec<Vec<i32>>)
        ensures
            rows@.len() == self.constraint_rows().len(),
            forall|k: int| 0 <= k < rows@.len() ==> (#[trigger] rows@[k])@ == self.constraint_rows()[k],
    {
        &self.constraints
    }

    /// How often the oracle has been asked.
    pub fn ch_counter(&self) -> (n: usize)
        ensures
            n == self.oracle_calls(),
    {
        self.ch_counter
    }

    /// Start of the path.
    pub fn source(&self) -> (s: u32)
        ensures
            s == self.end_points().0,
    {
        self.source
    }

    /// End of the path.
    pub fn target(&self) -> (t: u32)
        ensures
            t == self.end_points().1,
    {
        self.target
    }

    /// The cost vector of the path.
    pub fn costs(&self) -> (costs: &Vec<u32>)
        ensures
            costs@ == self.path_costs(),
    {
        &self.costs
    }

    /// Whether corner `c` is on the hull.
    pub fn is_on_hull(&self, c: usize) -> (b: bool)
        ensures
            b == self.on_hull(c),
    {
        let mut i: usize = 0;
        while i < self.hull_indices.len()
            invariant
                i <= self.hull_indices@.len(),
                forall|j: int| 0 <= j < i ==> self.hull_indices@[j] != c,
            decreases self.hull_indices@.len() - i,
        {
            if self.hull_indices[i] == c {
                return true;
            }
            i += 1;
        }
        false
    }

    /// The first corner in `hull` at which the oracle has not been asked
    /// yet; `None` once the region is final.
    pub fn next_unchecked(&self) -> (next: Option<usize>)
        requires
            self.wf(),
        ensures
            match next {
                Some(c) => exists|i: int|
                    {
                        &&& 0 <= i < self.hull().len()
                        &&& self.hull()[i] == c
                        &&& !self.corners()[c as int].is_checked
                        &&& forall|j: int|
                            0 <= j < i ==> self.corners()[#[trigger] self.hull()[j] as int].is_checked
                    },
                None => forall|j: int|
                    0 <= j < self.hull().len() ==> self.corners()[#[trigger] self.hull()[j] as int].is_checked,
            },
    {
        let mut hull_index: usize = 0;
        while hull_index < self.hull_indices.len()
            invariant
                self.wf(),
                hull_index <= self.hull().len(),
                forall|j: int|
                    0 <= j < hull_index ==> self.corners()[#[trigger] self.hull()[j] as int].is_checked,
            decreases self.hull().len() - hull_index,
        {
            proof {
                self.lemma_hull_in_arena(hull_index as int);
            }
            let c: usize = self.hull_indices[hull_index];
            if !self.corners[c].is_checked {
                return Some(c);
            }
            hull_index += 1;
        }
        None
    }

    /// Every stored hull index names a corner of the arena.
    pub proof fn lemma_hull_in_arena(&self, i: int)
        requires
            self.wf(),
            0 <= i < self.hull().len(),
        ensures
            self.hull()[i] < self.corners().len(),
            self.ring().contains(self.hull()[i]),
    {
        let c = self.hull()[i];
        assert(self.hull().to_set().contains(c));
        assert(self.ring().to_set().contains(c));
        let p = choose|p: int| 0 <= p < self.ring().len() && self.ring()[p] == c;
        assert(link_ok(self.corners(), self.ring(), p));
    }

    /// Counts one question to the oracle at corner `c` and marks the corner
    /// as checked.
    pub fn check_corner(&mut self, c: usize)
        requires
            old(self).wf(),
            c < old(self).corners().len(),
            old(self).oracle_calls() < usize::MAX,
        ensures
            final(self).wf(),
            final(self).oracle_calls() == old(self).oracle_calls() + 1,
            final(self).corners() == old(self).corners().update(
                c as int,
                Corner { is_checked: true, ..old(self).corners()[c as int] },
            ),
            final(self).hull() == old(self).hull(),
            final(self).ring() == old(self).ring(),
            final(self).constraint_rows() == old(self).constraint_rows(),
            final(self).path_costs() == old(self).path_costs(),
            final(self).end_points() == old(self).end_points(),
    {
        self.ch_counter = self.ch_counter + 1;
        let before: Corner = self.corners[c];
        self.corners[c] = Corner { is_checked: true, ..before };
        proof {
            assert(self.constraint_rows() =~= old(self).constraint_rows());
            lemma_ring_ignores_checks(old(self).corners(), self.corners(), self.ring());
        }
    }

    /// The ring, started at position `p` where corner `v` stands, keeps
    /// exactly its positions `lo..=hi` when the corners that `sides` puts
    /// outside leave.
    pub open spec fn cut_at(&self, v: usize, sides: Seq<Side>, p: int, lo: int, hi: int) -> bool {
        &&& 0 <= p < self.ring().len()
        &&& self.ring()[p] == v
        &&& outside_run(rotate(self.ring(), p), sides, lo, hi)
    }

    /// The corners that `sides` puts outside form one piece of the ring
    /// around `v`, and some corner stays.
    pub open spec fn cut_applicable(&self, v: usize, sides: Seq<Side>) -> bool {
        exists|p: int, lo: int, hi: int| self.cut_at(v, sides, p, lo, hi)
    }

    /// `after` is this region cut by the halfplane `cost_diff`, and `cut`
    /// names the corners that were added.
    pub open spec fn cut_outcome(
        &self,
        after: &AreaCalculator,
        cut: Cut,
        v: usize,
        cost_diff: Seq<i32>,
        sides: Seq<Side>,
        p: int,
        lo: int,
        hi: int,
    ) -> bool {
        let ring = rotate(self.ring(), p);
        let l = ring[lo];
        let r = ring[hi];
        let l_new = sides[l as int] is Inside;
        let r_new = sides[r as int] is Inside;
        let n = self.corners().len() as usize;
        let k = self.constraint_rows().len() as usize;
        let b = if l_new { (n + 1) as usize } else { n };
        &&& self.cut_at(v, sides, p, lo, hi)
        &&& after.corners() == cut_corners(self.corners(), l, r, l_new, r_new, k)
        &&& after.ring() == cut_ring(ring, lo, hi, l_new, r_new, n)
        &&& after.hull() == self.hull().filter(retained(sides)) + new_hull_entries(l_new, r_new, n)
        &&& after.constraint_rows() == self.constraint_rows().push(cost_diff)
        &&& cut.left == (if l_new {
            Some(NewCorner { index: n, inner: l, outer: self.corners()[l as int].right })
        } else {
            None
        })
        &&& cut.right == (if r_new {
            Some(NewCorner { index: b, inner: r, outer: self.corners()[r as int].left })
        } else {
            None
        })
        &&& after.path_costs() == self.path_costs()
        &&& after.end_points() == self.end_points()
        &&& after.oracle_calls() == self.oracle_calls()
    }

    /// Cuts the halfplane `cost_diff . a <= 0` into the region.
    ///
    /// `v` is a hull corner that violates it, and `sides` tells for every
    /// corner of the arena where it lies. The corners outside leave the
    /// hull. Walking from `v` to the left and to the right, the first corner
    /// that stays is an end of the cut: it is reused if it lies on the
    /// boundary, else a new corner is put between it and its neighbour that
    /// left. The two ends become neighbours, with the new constraint
    /// between them.
    pub fn cut(&mut self, v: usize, cost_diff: Vec<i32>, sides: &Vec<Side>) -> (res: Result<
        Cut,
        CutError,
    >)
        requires
            old(self).wf(),
            sides@.len() == old(self).corners().len(),
            cost_diff@.len() == 3,
            old(self).on_hull(v),
            is_outside(sides@, v),
            old(self).corners().len() + 2 <= usize::MAX,
        ensures
            final(self).wf(),
            match res {
                Ok(cut) => exists|p: int, lo: int, hi: int|
                    old(self).cut_outcome(final(self), cut, v, cost_diff@, sides@, p, lo, hi),
                Err(CutError::NothingLeft) => {
                    &&& *final(self) == *old(self)
                    &&& forall|c: usize| old(self).on_hull(c) ==> is_outside(sides@, c)
                },
                Err(CutError::Scattered) => {
                    &&& *final(self) == *old(self)
                    &&& exists|c: usize| old(self).on_hull(c) && !is_outside(sides@, c)
                    &&& !old(self).cut_applicable(v, sides@)
                },
            },
    {
        let n: usize = self.corners.len();
        let k: usize = self.constraints.len();
        let hull_len: usize = self.hull_indices.len();
        let ghost ring = self.ring();
        let ghost m = ring.len() as int;
        let ghost pred = retained(sides@);
        let ghost p: int = self.position_of(v);
        let ghost rho = rotate(ring, p);
        proof {
            self.lemma_position_of(v);
            lemma_rotate_ring(self.corners(), ring, p);
            assert(rho[0] == v);
            assert(link_ok(self.corners(), rho, 0));
        }
        // The corners that stay, in the order of the hull.
        let mut new_hull: Vec<usize> = Vec::new();
        let mut i: usize = 0;
        while i < hull_len
            invariant
                self.wf(),
                hull_len == self.hull().len(),
                sides@.len() == self.corners().len(),
                pred == retained(sides@),
                i <= hull_len,
                new_hull@ == self.hull().subrange(0, i as int).filter(pred),
            decreases hull_len - i,
        {
            proof {
                self.lemma_hull_in_arena(i as int);
                let s0 = self.hull().subrange(0, i as int);
                let s1 = self.hull().subrange(0, i as int + 1);
                assert(s1.drop_last() =~= s0);
                assert(s1.last() == self.hull()[i as int]);
                reveal(Seq::filter);
            }
            let c: usize = self.hull_indices[i];
            match sides[c] {
                Side::Outside => {},
                _ => {
                    new_hull.push(c);
                },
            }
            i += 1;
        }
        proof {
            assert(self.hull().subrange(0, hull_len as int) =~= self.hull());
            lemma_filter_distinct(self.hull(), pred);
        }
        if new_hull.len() == 0 {
            proof {
                assert forall|c: usize| self.on_hull(c) implies is_outside(sides@, c) by {
                    if !is_outside(sides@, c) {
                        assert(pred(c));
                        assert(new_hull@.contains(c));
                    }
                }
            }
            return Err(CutError::NothingLeft);
        }
        let ghost stays: usize = new_hull@[0];
        let ghost stay_at: int = 0;
        proof {
            assert(new_hull@.contains(stays));
            assert(self.hull().contains(stays) && pred(stays));
            assert(self.hull().to_set().contains(stays));
            assert(rho.to_set().contains(stays));
            stay_at = choose|t: int| 0 <= t < rho.len() && rho[t] == stays;
            assert(!is_outside(sides@, rho[stay_at]));
        }
        // Walk left to the first corner that stays.
        let mut first_in: usize = v;
        let mut steps_left: usize = 0;
        while is_out(sides, first_in)
            invariant
                self.wf(),
                ring_ok(self.corners(), rho),
                rho.len() == m,
                m == hull_len,
                sides@.len() == self.corners().len(),
                0 <= stay_at < m,
                !is_outside(sides@, rho[stay_at]),
                steps_left <= stay_at,
                first_in == rho[steps_left as int],
                first_in < self.corners().len(),
                forall|t: int| 0 <= t < steps_left ==> #[trigger] is_outside(sides@, rho[t]),
            decreases stay_at - steps_left,
        {
            proof {
                assert(link_ok(self.corners(), rho, steps_left as int));
                assert(link_ok(self.corners(), rho, steps_left as int + 1));
            }
            first_in = self.corners[first_in].left;
            steps_left += 1;
        }
        let left_in: usize = first_in;
        let ghost lo: int = steps_left as int;
        // Walk right to the first corner that stays.
        let mut first_in: usize = v;
        let mut steps_right: usize = 0;
        while is_out(sides, first_in)
            invariant
                self.wf(),
                ring_ok(self.corners(), rho),
                rho.len() == m,
                m == hull_len,
                sides@.len() == self.corners().len(),
                1 <= lo < m,
                !is_outside(sides@, rho[lo]),
                steps_right <= m - lo,
                first_in == rho[if steps_right == 0 { 0 } else { m - steps_right }],
                first_in < self.corners().len(),
                forall|t: int| m - steps_right < t < m ==> #[trigger] is_outside(sides@, rho[t]),
            decreases m - steps_right,
        {
            proof {
                let q: int = if steps_right == 0 { 0 } else { m - steps_right };
                let before: int = prev_pos(q, m);
                assert(q != lo);
                assert(next_pos(before, m) == q);
                assert(link_ok(self.corners(), rho, before));
            }
            first_in = self.corners[first_in].right;
            steps_right += 1;
        }
        let right_in: usize = first_in;
        let ghost hi: int = m - steps_right;
        proof {
            assert(1 <= lo <= hi < m);
            assert(left_in == rho[lo] && right_in == rho[hi]);
            assert forall|c: usize| #[trigger] new_hull@.contains(c) <==> rho.contains(c) && !is_outside(
                sides@,
                c,
            ) by {
                assert(self.hull().to_set().contains(c) == rho.to_set().contains(c));
                assert(pred(c) == !is_outside(sides@, c));
            }
        }
        // The corners that leave must be the ones the two walks have passed.
        if new_hull.len() != hull_len - steps_right - steps_left + 1 {
            proof {
                assert(self.on_hull(stays) && !is_outside(sides@, stays));
                if self.cut_applicable(v, sides@) {
                    let (p2, lo2, hi2) = choose|p2: int, lo2: int, hi2: int|
                        self.cut_at(v, sides@, p2, lo2, hi2);
                    assert(self.cut_at(v, sides@, p2, lo2, hi2));
                    assert(p2 == p);
                    assert(is_outside(sides@, rho[lo]) == (lo < lo2 || lo > hi2));
                    assert(is_outside(sides@, rho[hi]) == (hi < lo2 || hi > hi2));
                    assert(is_outside(sides@, rho[lo2]) == (lo2 < lo2 || lo2 > hi2));
                    assert(is_outside(sides@, rho[hi2]) == (hi2 < lo2 || hi2 > hi2));
                    assert(lo2 == lo && hi2 == hi);
                    lemma_count_from_run(rho, sides@, lo, hi, new_hull@);
                    assert(false);
                }
            }
            return Err(CutError::Scattered);
        }
        proof {
            lemma_run_from_count(rho, sides@, lo, hi, new_hull@);
            lemma_count_from_run(rho, sides@, lo, hi, new_hull@);
            assert(self.cut_at(v, sides@, p, lo, hi));
        }
        let left_new: bool = is_in(sides, left_in);
        let right_new: bool = is_in(sides, right_in);
        let index_right: usize = if left_new { n } else { left_in };
        let index_left: usize = if right_new {
            if left_new { n + 1 } else { n }
        } else {
            right_in
        };
        let ghost kept = new_hull@;
        let mut cut = Cut { left: None, right: None };
        self.constraints.push(cost_diff);
        if left_new {
            let inner: Corner = self.corners[left_in];
            cut.left = Some(NewCorner { index: n, inner: left_in, outer: inner.right });
            self.corners[left_in] = Corner { right: index_right, ..inner };
            self.corners.push(
                Corner {
                    is_checked: false,
                    left: left_in,
                    right: index_left,
                    left_constraint: inner.right_constraint,
                    right_constraint: k,
                },
            );
            new_hull.push(index_right);
        }
        if right_new {
            let inner: Corner = self.corners[right_in];
            cut.right = Some(NewCorner { index: index_left, inner: right_in, outer: inner.left });
            self.corners[right_in] = Corner { left: index_left, ..inner };
            self.corners.push(
                Corner {
                    is_checked: false,
                    left: index_right,
                    right: right_in,
                    left_constraint: k,
                    right_constraint: inner.left_constraint,
                },
            );
            new_hull.push(index_left);
        }
        let end_left: Corner = self.corners[index_left];
        self.corners[index_left] = Corner { left: index_right, left_constraint: k, ..end_left };
        let end_right: Corner = self.corners[index_right];
        self.corners[index_right] = Corner { right: index_left, right_constraint: k, ..end_right };
        self.hull_indices = new_hull;
        self.ring = Ghost(cut_ring(rho, lo, hi, left_new, right_new, n));
        proof {
            let before = old(self).corners();
            assert(link_ok(before, rho, lo));
            assert(link_ok(before, rho, hi));
            assert(cut_pre(before, rho, lo, hi, k));
            lemma_cut_shape(before, rho, lo, hi, left_new, right_new, k);
            lemma_cut_ring(before, rho, lo, hi, left_new, right_new, k);
            let expected = cut_corners(before, left_in, right_in, left_new, right_new, k);
            assert(self.corners().len() == expected.len());
            assert forall|c: int| 0 <= c < expected.len() implies self.corners()[c] == expected[c] by {}
            assert(self.corners() =~= expected);
            assert(self.hull() =~= kept + new_hull_entries(left_new, right_new, n));
            assert forall|t: int| 0 <= t < rho.len() implies (#[trigger] rho[t]) < n by {
                assert(link_ok(before, rho, t));
            }
            lemma_cut_hull(rho, lo, hi, kept, left_new, right_new, n);
            assert(self.constraint_rows() =~= old(self).constraint_rows().push(cost_diff@));
            assert forall|c: int| 0 <= c < self.corners().len() implies (
            #[trigger] self.corners()[c]).left_constraint < self.constraint_rows().len()
                && self.corners()[c].right_constraint < self.constraint_rows().len() by {
                if c < n {
                    assert(before[c].left_constraint < k);
                }
            }
            assert forall|j: int| 0 <= j < 3 implies #[trigger] self.constraint_rows()[j]
                == simplex_bound(j) by {
                assert(old(self).constraint_rows()[j] == simplex_bound(j));
            }
            assert forall|j: int| 0 <= j < self.constraint_rows().len() implies (
            #[trigger] self.constraint_rows()[j]).len() == 3 by {
                if j < k {
                    assert(old(self).constraint_rows()[j].len() == 3);
                }
            }
            assert(old(self).cut_outcome(self, cut, v, cost_diff@, sides@, p, lo, hi));
        }
        Ok(cut)
    }

    /// A position of the ring at which corner `c` stands.
    pub closed spec fn position_of(&self, c: usize) -> int {
        choose|p: int| 0 <= p < self.ring().len() && self.ring()[p] == c
    }

    /// Every corner on the hull stands at a position of the ring.
    pub proof fn lemma_position_of(&self, c: usize)
        requires
            self.wf(),
            self.on_hull(c),
        ensures
            0 <= self.position_of(c) < self.ring().len(),
            self.ring()[self.position_of(c)] == c,
    {
        assert(self.hull().to_set().contains(c));
        assert(self.ring().to_set().contains(c));
        assert(self.ring().contains(c));
    }

    /// The ring, started at the corner that the hull stores first.
    pub open spec fn ring_from_first(&self) -> Seq<usize> {
        rotate(self.ring(), self.position_of(self.hull()[0]))
    }

    /// The pairs of constraints that meet at the corners of the region,
    /// walking the ring to the left from the first corner of the hull: each
    /// corner of the region is where its two constraints intersect.
    pub fn get_intersections(&self) -> (res: Vec<Vec<Vec<i32>>>)
        requires
            self.wf(),
        ensures
            res@.len() == self.ring().len(),
            forall|t: int|
                #![trigger res@[t]]
                0 <= t < res@.len() ==> {
                    let c = self.corners()[self.ring_from_first()[t] as int];
                    &&& res@[t]@.len() == 2
                    &&& res@[t]@[0]@ == self.constraint_rows()[c.left_constraint as int]
                    &&& res@[t]@[1]@ == self.constraint_rows()[c.right_constraint as int]
                },
    {
        let mut intersections: Vec<Vec<Vec<i32>>> = Vec::new();
        if self.hull_indices.len() == 0 {
            return intersections;
        }
        let first_index: usize = self.hull_indices[0];
        let ghost w = self.ring_from_first();
        let ghost m = self.ring().len() as int;
        proof {
            assert(self.hull().contains(first_index));
            self.lemma_position_of(first_index);
            lemma_rotate_ring(self.corners(), self.ring(), self.position_of(first_index));
            assert(w[0] == first_index);
        }
        let mut index: usize = first_index;
        let mut finished: bool = false;
        while !finished
            invariant
                self.wf(),
                ring_ok(self.corners(), w),
                w.len() == m,
                w[0] == first_index,
                intersections@.len() <= m,
                finished ==> intersections@.len() == m,
                !finished ==> intersections@.len() < m && index == w[intersections@.len() as int],
                forall|t: int|
                    #![trigger intersections@[t]]
                    0 <= t < intersections@.len() ==> {
                        let c = self.corners()[w[t] as int];
                        &&& intersections@[t]@.len() == 2
                        &&& intersections@[t]@[0]@ == self.constraint_rows()[c.left_constraint as int]
                        &&& intersections@[t]@[1]@ == self.constraint_rows()[c.right_constraint as int]
                    },
            decreases m - intersections@.len(), if finished { 0int } else { 1int },
        {
            let ghost t0 = intersections@.len() as int;
            proof {
                assert(link_ok(self.corners(), w, t0));
            }
            let corner: Corner = self.corners[index];
            let mut intersection: Vec<Vec<i32>> = Vec::new();
            intersection.push(copy_row(&self.constraints[corner.left_constraint]));
            intersection.push(copy_row(&self.constraints[corner.right_constraint]));
            intersections.push(intersection);
            index = corner.left;
            if index == first_index {
                finished = true;
            }
            proof {
                let nt = next_pos(t0, m);
                assert(index == w[nt]);
                if nt != 0 {
                    assert(w[nt] != w[0]);
                }
            }
        }
        intersections
    }

    /// For each corner of the hull, in the order the hull stores them, its
    /// index and the places in the hull of its two neighbours, counted from
    /// `offset`.
    pub fn hull_lines(&self, offset: usize) -> (lines: Vec<AreaLine>)
        requires
            self.wf(),
            offset + self.hull().len() <= usize::MAX,
        ensures
            lines@.len() == self.hull().len(),
            forall|i: int|
                #![trigger lines@[i]]
                0 <= i < lines@.len() ==> {
                    let corner = self.corners()[self.hull()[i] as int];
                    &&& lines@[i].corner == self.hull()[i]
                    &&& offset <= lines@[i].left < offset + self.hull().len()
                    &&& offset <= lines@[i].right < offset + self.hull().len()
                    &&& self.hull()[lines@[i].left - offset] == corner.left
                    &&& self.hull()[lines@[i].right - offset] == corner.right
                },
    {
        let hull_len: usize = self.hull_indices.len();
        let mut index_map: Vec<usize> = Vec::new();
        let mut c: usize = 0;
        while c < self.corners.len()
            invariant
                c <= self.corners@.len(),
                index_map@.len() == c,
            decreases self.corners@.len() - c,
        {
            index_map.push(0);
            c += 1;
        }
        let mut i: usize = 0;
        while i < hull_len
            invariant
                self.wf(),
                hull_len == self.hull().len(),
                i <= hull_len,
                index_map@.len() == self.corners().len(),
                forall|j: int|
                    #![trigger self.hull()[j]]
                    0 <= j < i ==> index_map@[self.hull()[j] as int] == j,
            decreases hull_len - i,
        {
            proof {
                self.lemma_hull_in_arena(i as int);
            }
            let ghost before = index_map@;
            index_map[self.hull_indices[i]] = i;
            proof {
                assert forall|j: int|
                    #![trigger self.hull()[j]]
                    0 <= j < i + 1 implies index_map@[self.hull()[j] as int] == j by {
                    self.lemma_hull_in_arena(j);
                    if j < i {
                        assert(self.hull()[j] != self.hull()[i as int]);
                        assert(before[self.hull()[j] as int] == j);
                    }
                }
            }
            i += 1;
        }
        let mut lines: Vec<AreaLine> = Vec::new();
        let mut i: usize = 0;
        while i < hull_len
            invariant
                self.wf(),
                hull_len == self.hull().len(),
                offset + hull_len <= usize::MAX,
                i <= hull_len,
                index_map@.len() == self.corners().len(),
                forall|j: int|
                    #![trigger self.hull()[j]]
                    0 <= j < hull_len ==> index_map@[self.hull()[j] as int] == j,
                lines@.len() == i,
                forall|j: int|
                    #![trigger lines@[j]]
                    0 <= j < i ==> {
                        let corner = self.corners()[self.hull()[j] as int];
                        &&& lines@[j].corner == self.hull()[j]
                        &&& offset <= lines@[j].left < offset + hull_len
                        &&& offset <= lines@[j].right < offset + hull_len
                        &&& self.hull()[lines@[j].left - offset] == corner.left
                        &&& self.hull()[lines@[j].right - offset] == corner.right
                    },
            decreases hull_len - i,
        {
            proof {
                self.lemma_hull_in_arena(i as int);
                self.lemma_neighbours_on_hull(self.hull()[i as int]);
            }
            let hi: usize = self.hull_indices[i];
            let corner: Corner = self.corners[hi];
            proof {
                let a = choose|a: int| 0 <= a < self.hull().len() && self.hull()[a] == corner.left;
                let b = choose|b: int| 0 <= b < self.hull().len() && self.hull()[b] == corner.right;
                assert(index_map@[self.hull()[a] as int] == a);
                assert(index_map@[self.hull()[b] as int] == b);
                self.lemma_hull_in_arena(a);
                self.lemma_hull_in_arena(b);
            }
            lines.push(
                AreaLine {
                    corner: hi,
                    left: index_map[corner.left] + offset,
                    right: index_map[corner.right] + offset,
                },
            );
            i += 1;
        }
        lines
    }

    /// Both neighbours of a corner on the hull are on the hull, and are
    /// linked back to it.
    pub proof fn lemma_neighbours_on_hull(&self, c: usize)
        requires
            self.wf(),
            self.on_hull(c),
        ensures
            c < self.corners().len(),
            self.on_hull(self.corners()[c as int].left),
            self.on_hull(self.corners()[c as int].right),
            self.corners()[self.corners()[c as int].left as int].right == c,
            self.corners()[self.corners()[c as int].right as int].left == c,
            self.corners()[c as int].left_constraint == self.corners()[self.corners()[c as int].left as int].right_constraint,
            self.corners()[c as int].right_constraint == self.corners()[self.corners()[c as int].right as int].left_constraint,
    {
        let ring = self.ring();
        let m = ring.len() as int;
        self.lemma_position_of(c);
        let p = self.position_of(c);
        let q = prev_pos(p, m);
        assert(next_pos(q, m) == p);
        assert(link_ok(self.corners(), ring, p));
        assert(link_ok(self.corners(), ring, q));
        assert(ring.contains(ring[next_pos(p, m)]));
        assert(ring.contains(ring[q]));
        assert(ring.to_set().contains(ring[next_pos(p, m)]));
        assert(ring.to_set().contains(ring[q]));
        assert(self.hull().to_set().contains(ring[next_pos(p, m)]));
        assert(self.hull().to_set().contains(ring[q]));
    }

    /// With three or more corners the hull is a simple polygon: every
    /// corner has two neighbours on the hull that differ from it and from
    /// each other and that name it as their neighbour in turn, and the
    /// constraints on its two sides differ.
    pub proof fn lemma_simple_polygon(&self, c: usize)
        requires
            self.wf(),
            self.hull().len() >= 3,
            self.on_hull(c),
        ensures
            c < self.corners().len(),
            self.on_hull(self.corners()[c as int].left),
            self.on_hull(self.corners()[c as int].right),
            self.corners()[c as int].left != c,
            self.corners()[c as int].right != c,
            self.corners()[c as int].left != self.corners()[c as int].right,
            self.corners()[self.corners()[c as int].left as int].right == c,
            self.corners()[self.corners()[c as int].right as int].left == c,
            self.corners()[c as int].left_constraint != self.corners()[c as int].right_constraint,
    {
        self.lemma_neighbours_on_hull(c);
        let ring = self.ring();
        let m = ring.len() as int;
        self.lemma_position_of(c);
        let p = self.position_of(c);
        let q = prev_pos(p, m);
        let nx = next_pos(p, m);
        assert(next_pos(q, m) == p);
        assert(link_ok(self.corners(), ring, p));
        assert(link_ok(self.corners(), ring, q));
        assert(q != nx && q != p && nx != p);
    }

    /// Walking left from the first corner of the hull passes every corner
    /// of the hull once and comes back to the first: the ring closes.
    pub proof fn lemma_ring_closes(&self)
        requires
            self.wf(),
        ensures
            ring_ok(self.corners(), self.ring_from_first()),
            self.ring_from_first().len() == self.hull().len(),
            self.ring_from_first()[0] == self.hull()[0],
            self.ring_from_first().to_set() == self.hull().to_set(),
            self.corners()[self.ring_from_first().last() as int].left == self.hull()[0],
    {
        let first = self.hull()[0];
        assert(self.hull().contains(first));
        self.lemma_position_of(first);
        lemma_rotate_ring(self.corners(), self.ring(), self.position_of(first));
        let w = self.ring_from_first();
        assert(link_ok(self.corners(), w, w.len() - 1));
    }

    /// The costs of the path that gave constraint `k`: the costs of this
    /// path less the constraint, component by component, read as unsigned
    /// numbers again.
    pub fn costs_across(&self, k: usize) -> (costs: Vec<u32>)
        requires
            self.wf(),
            3 <= k < self.constraint_rows().len(),
            self.path_costs().len() >= 3,
            forall|j: int|
                0 <= j < 3 ==> i32::MIN <= signed(#[trigger] self.path_costs()[j])
                    - self.constraint_rows()[k as int][j] <= i32::MAX,
        ensures
            costs@.len() == 3,
            forall|j: int|
                0 <= j < 3 ==> signed(#[trigger] costs@[j]) == signed(self.path_costs()[j])
                    - self.constraint_rows()[k as int][j],
    {
        let mut new_costs: Vec<u32> = Vec::new();
        let mut j: usize = 0;
        assert(self.constraint_rows()[k as int] == self.constraints@[k as int]@);
        assert(self.constraint_rows()[k as int].len() == 3);
        while j < 3
            invariant
                j <= 3,
                k < self.constraints@.len(),
                self.constraints@[k as int]@.len() == 3,
                self.costs@.len() >= 3,
                new_costs@.len() == j,
                forall|i: int|
                    0 <= i < 3 ==> i32::MIN <= signed(#[trigger] self.costs@[i])
                        - self.constraints@[k as int]@[i] <= i32::MAX,
                forall|i: int|
                    0 <= i < j ==> signed(#[trigger] new_costs@[i]) == signed(self.costs@[i])
                        - self.constraints@[k as int]@[i],
            decreases 3 - j,
        {
            let own: i32 = as_signed(self.costs[j]);
            let other: i32 = self.constraints[k][j];
            assert(i32::MIN <= signed(self.costs@[j as int]) - self.constraints@[k as int]@[j as int]
                <= i32::MAX);
            new_costs.push(as_unsigned(own - other));
            j += 1;
        }
        new_costs
    }

    /// The new constraint that a better path with costs `best` gives: the
    /// path's own costs less `best`, component by component, both read as
    /// signed numbers.
    pub fn cost_difference(&self, best: &Vec<u32>) -> (diff: Vec<i32>)
        requires
            best@.len() <= self.path_costs().len(),
            forall|i: int|
                0 <= i < best@.len() ==> i32::MIN <= signed(#[trigger] self.path_costs()[i]) - signed(
                    best@[i],
                ) <= i32::MAX,
        ensures
            diff@.len() == best@.len(),
            forall|i: int|
                0 <= i < best@.len() ==> (#[trigger] diff@[i]) == signed(self.path_costs()[i]) - signed(
                    best@[i],
                ),
    {
        let mut cost_diff: Vec<i32> = Vec::new();
        let mut i: usize = 0;
        while i < best.len()
            invariant
                i <= best@.len(),
                best@.len() <= self.costs@.len(),
                cost_diff@.len() == i,
                forall|j: int|
                    0 <= j < best@.len() ==> i32::MIN <= signed(#[trigger] self.costs@[j]) - signed(
                        best@[j],
                    ) <= i32::MAX,
                forall|j: int|
                    0 <= j < i ==> (#[trigger] cost_diff@[j]) == signed(self.costs@[j]) - signed(
                        best@[j],
                    ),
            decreases best@.len() - i,
        {
            let own: i32 = as_signed(self.costs[i]);
            let other: i32 = as_signed(best[i]);
            assert(i32::MIN <= signed(self.costs@[i as int]) - signed(best@[i as int]) <= i32::MAX);
            cost_diff.push(own - other);
            i += 1;
        }
        cost_diff
    }
}

/// A copy of a constraint.
fn copy_row(row: &Vec<i32>) -> (copy: Vec<i32>)
    ensures
        copy@ == row@,
{
    let mut copy: Vec<i32> = Vec::new();
    let mut i: usize = 0;
    while i < row.len()
        invariant
            i <= row@.len(),
            copy@ == row@.subrange(0, i as int),
        decreases row@.len() - i,
    {
        copy.push(row[i]);
        assert(copy@ =~= row@.subrange(0, i as int + 1));
        i += 1;
    }
    assert(row@.subrange(0, row@.len() as int) =~= row@);
    copy
}

/// Whether corner `c` leaves the hull.
fn is_out(sides: &Vec<Side>, c: usize) -> (b: bool)
    requires
        c < sides@.len(),
    ensures
        b == is_outside(sides@, c),
{
    match sides[c] {
        Side::Outside => true,
        _ => false,
    }
}

/// Whether corner `c` lies strictly inside.
fn is_in(sides: &Vec<Side>, c: usize) -> (b: bool)
    requires
        c < sides@.len(),
    ensures
        b == (sides@[c as int] is Inside),
{
    match sides[c] {
        Side::Inside => true,
        _ => false,
    }
}

/// A signed number read as a cost.
fn as_unsigned(s: i32) -> (c: u32)
    ensures
        signed(c) == s,
{
    let c: u32 = #[verifier::truncate] (s as u32);
    assert(signed(c) == s) by (bit_vector)
        requires
            c == s as u32,
    ;
    c
}

/// Whether two cost vectors agree in their first three components.
pub open spec fn same_costs(a: Seq<u32>, b: Seq<u32>) -> bool {
    a[0] == b[0] && a[1] == b[1] && a[2] == b[2]
}

/// Adds `costs` to the cost vectors known, unless a vector with the same
/// first three components is among them, and says whether it did.
pub fn add_new_costs(known: &mut Vec<Vec<u32>>, costs: Vec<u32>) -> (is_new: bool)
    requires
        costs@.len() >= 3,
        forall|i: int| 0 <= i < old(known)@.len() ==> (#[trigger] old(known)@[i])@.len() >= 3,
    ensures
        is_new == !exists|i: int| 0 <= i < old(known)@.len() && same_costs(old(known)@[i]@, costs@),
        final(known)@ == (if is_new {
            old(known)@.push(costs)
        } else {
            old(known)@
        }),
{
    let mut j: usize = 0;
    while j < known.len()
        invariant
            j <= known@.len(),
            known@ == old(known)@,
            costs@.len() >= 3,
            forall|i: int| 0 <= i < known@.len() ==> (#[trigger] known@[i])@.len() >= 3,
            forall|i: int| 0 <= i < j ==> !same_costs(known@[i]@, costs@),
        decreases known@.len() - j,
    {
        if known[j][0] == costs[0] && known[j][1] == costs[1] && known[j][2] == costs[2] {
            assert(same_costs(known@[j as int]@, costs@));
            return false;
        }
        j += 1;
    }
    known.push(costs);
    true
}

/// A cost read as a signed number.
fn as_signed(c: u32) -> (s: i32)
    ensures
        s == signed(c),
{
    let s: i32 = #[verifier::truncate] (c as i32);
    assert(s == signed(c)) by (bit_vector)
        requires
            s == c as i32,
    ;
    s
}

} // verus!
