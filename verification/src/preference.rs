//! The decisions of the search for preferences: when a linear program is
//! solved again, when a constraint is kept, which paths need the oracle,
//! and how the paths are shared out among workers.
//!
//! The numbers themselves, weights, costs and margins, stay with the
//! caller, who reports how they compare.

use crate::utils::{BitSet, BitSetFns};
use itertools::Itertools;
use vstd::prelude::*;

verus! {

/// What the feasibility solver answered.
#[derive(Debug, Clone, Copy, PartialEq, Eq)]
pub enum LpAnswer {
    /// No weights satisfy the constraints.
    Infeasible,
    /// Weights were found; `margin_ok` tells whether the margin by which
    /// they satisfy the constraints is not negative beyond the tolerance.
    Feasible { margin_ok: bool },
}

/// What the oracle said of one path under the current weights.
#[derive(Debug, Clone, Copy, PartialEq, Eq)]
pub enum Verdict {
    /// The path is optimal.
    Optimal,
    /// A better path exists. `repeated` tells whether the constraint it
    /// gives is the one last kept.
    Violated { repeated: bool },
}

/// Which weights to go on with after solving.
#[derive(Debug, Clone, Copy, PartialEq, Eq)]
pub enum SolveStep {
    /// The weights the solver has found.
    UsePreference,
    /// Equal weights for all dimensions.
    UseEqualWeights,
    /// None: the paths have no preference in common.
    Infeasible,
}

/// What to do with the constraint of a path.
#[derive(Debug, Clone, Copy, PartialEq, Eq)]
pub enum ConstraintUse {
    /// There is none.
    Nothing,
    /// Give it to the solver only.
    AddToLp,
    /// Give it to the solver and keep it for the path.
    AddAndRecord,
}

/// How to go on after all paths have been looked at.
#[derive(Debug, Clone, Copy, PartialEq, Eq)]
pub enum RoundStep {
    /// Solve once more, exactly if `exact`.
    SolveAgain { exact: bool },
    /// The current weights are a preference for all paths.
    Found,
    /// The paths have no preference in common.
    Infeasible,
}

/// Steers the loop that looks for a common preference of some paths:
/// solve, ask the oracle for every path, add what it objects, and solve
/// again, until nothing is objected or nothing new is learnt.
#[derive(Debug, Clone, Copy, PartialEq, Eq)]
pub struct PrefFinder {
    dim: usize,
    no_constraints: bool,
    exact: bool,
    repeating: bool,
    recorded: bool,
}

impl PrefFinder {
    /// Number of cost dimensions.
    pub closed spec fn dimension(&self) -> nat {
        self.dim as nat
    }

    /// Whether the solver has been given no constraint yet.
    pub closed spec fn unconstrained(&self) -> bool {
        self.no_constraints
    }

    /// Whether the next solve uses exact arithmetic.
    pub closed spec fn exact(&self) -> bool {
        self.exact
    }

    /// Whether in this round a path has repeated its constraint.
    pub closed spec fn repeating(&self) -> bool {
        self.repeating
    }

    /// Whether in this round a constraint has been kept.
    pub closed spec fn recorded(&self) -> bool {
        self.recorded
    }

    pub fn new(dim: usize) -> (finder: PrefFinder)
        ensures
            finder.dimension() == dim,
            finder.unconstrained(),
            !finder.exact(),
            !finder.repeating(),
            !finder.recorded(),
    {
        PrefFinder { dim, no_constraints: true, exact: false, repeating: false, recorded: false }
    }

    /// Number of cost dimensions.
    pub fn dim(&self) -> (dim: usize)
        ensures
            dim == self.dimension(),
    {
        self.dim
    }

    /// Starts a search after the solver was reset and given `seeded`
    /// constraints known from earlier searches.
    pub fn begin(&mut self, seeded: usize)
        ensures
            final(self).dimension() == old(self).dimension(),
            final(self).unconstrained() == (seeded == 0),
            !final(self).exact(),
            !final(self).repeating(),
            !final(self).recorded(),
    {
        self.no_constraints = seeded == 0;
        self.exact = false;
        self.repeating = false;
        self.recorded = false;
    }

    /// Whether to solve with exact arithmetic now.
    pub fn solve_exact(&self) -> (exact: bool)
        ensures
            exact == self.exact(),
    {
        self.exact
    }

    /// Takes the answer of the solver and opens a round of questions to
    /// the oracle.
    ///
    /// A negative margin ends the search. Where the solver finds nothing
    /// and was given no constraint, equal weights are tried, once.
    pub fn after_solve(&mut self, answer: LpAnswer) -> (step: SolveStep)
        ensures
            step == (match answer {
                LpAnswer::Feasible { margin_ok } => if margin_ok {
                    SolveStep::UsePreference
                } else {
                    SolveStep::Infeasible
                },
                LpAnswer::Infeasible => if old(self).unconstrained() {
                    SolveStep::UseEqualWeights
                } else {
                    SolveStep::Infeasible
                },
            }),
            final(self).dimension() == old(self).dimension(),
            final(self).exact() == old(self).exact(),
            final(self).unconstrained() == (old(self).unconstrained() && step
                != SolveStep::UseEqualWeights),
            !final(self).repeating(),
            !final(self).recorded(),
    {
        self.repeating = false;
        self.recorded = false;
        match answer {
            LpAnswer::Feasible { margin_ok } => {
                if margin_ok {
                    SolveStep::UsePreference
                } else {
                    SolveStep::Infeasible
                }
            },
            LpAnswer::Infeasible => {
                if self.no_constraints {
                    self.no_constraints = false;
                    SolveStep::UseEqualWeights
                } else {
                    SolveStep::Infeasible
                }
            },
        }
    }

    /// Takes the verdict of the oracle on one path.
    ///
    /// Every constraint goes to the solver. A new one is kept for the
    /// path; one that repeats the last kept is not.
    pub fn note(&mut self, verdict: Verdict) -> (what: ConstraintUse)
        ensures
            what == (match verdict {
                Verdict::Optimal => ConstraintUse::Nothing,
                Verdict::Violated { repeated } => if repeated {
                    ConstraintUse::AddToLp
                } else {
                    ConstraintUse::AddAndRecord
                },
            }),
            final(self).dimension() == old(self).dimension(),
            final(self).exact() == old(self).exact(),
            final(self).unconstrained() == old(self).unconstrained(),
            final(self).repeating() == (old(self).repeating() || what == ConstraintUse::AddToLp),
            final(self).recorded() == (old(self).recorded() || what == ConstraintUse::AddAndRecord),
    {
        match verdict {
            Verdict::Optimal => ConstraintUse::Nothing,
            Verdict::Violated { repeated } => {
                if repeated {
                    self.repeating = true;
                    ConstraintUse::AddToLp
                } else {
                    self.recorded = true;
                    ConstraintUse::AddAndRecord
                }
            },
        }
    }

    /// Closes the round. `all_optimal` tells whether, all paths taken
    /// together, the oracle found nothing better within the tolerance.
    ///
    /// A repeated constraint means the solver is caught by its rounding:
    /// it solves again, exactly. If a constraint is repeated even then, the
    /// search ends without a preference. Else the weights are the answer if
    /// all paths are optimal; the search ends without one if nothing new
    /// was learnt; and goes on otherwise.
    pub fn after_round(&mut self, all_optimal: bool) -> (step: RoundStep)
        ensures
            step == (if old(self).repeating() {
                if old(self).exact() {
                    RoundStep::Infeasible
                } else {
                    RoundStep::SolveAgain { exact: true }
                }
            } else if all_optimal {
                RoundStep::Found
            } else if !old(self).recorded() {
                RoundStep::Infeasible
            } else {
                RoundStep::SolveAgain { exact: false }
            }),
            final(self).dimension() == old(self).dimension(),
            final(self).unconstrained() == old(self).unconstrained(),
            final(self).exact() == (step == RoundStep::SolveAgain { exact: true }),
            !final(self).repeating(),
            !final(self).recorded(),
    {
        let repeating: bool = self.repeating;
        let exact: bool = self.exact;
        let recorded: bool = self.recorded;
        self.repeating = false;
        self.recorded = false;
        self.exact = false;
        if repeating {
            if exact {
                RoundStep::Infeasible
            } else {
                self.exact = true;
                RoundStep::SolveAgain { exact: true }
            }
        } else if all_optimal {
            RoundStep::Found
        } else if !recorded {
            RoundStep::Infeasible
        } else {
            RoundStep::SolveAgain { exact: false }
        }
    }

    /// The search that asks no oracle: with no constraint known any
    /// weights will do, and equal ones are taken; else the solver is asked
    /// once, and its weights are the answer if their margin is not negative.
    pub fn lp_only(seeded: usize, answer: LpAnswer) -> (step: SolveStep)
        ensures
            step == (if seeded == 0 {
                SolveStep::UseEqualWeights
            } else {
                match answer {
                    LpAnswer::Feasible { margin_ok } => if margin_ok {
                        SolveStep::UsePreference
                    } else {
                        SolveStep::Infeasible
                    },
                    LpAnswer::Infeasible => SolveStep::Infeasible,
                }
            }),
    {
        if seeded == 0 {
            return SolveStep::UseEqualWeights;
        }
        match answer {
            LpAnswer::Feasible { margin_ok } => {
                if margin_ok {
                    SolveStep::UsePreference
                } else {
                    SolveStep::Infeasible
                }
            },
            LpAnswer::Infeasible => SolveStep::Infeasible,
        }
    }
}

/// How the approximation of a region goes on in one direction.
#[derive(Debug, Clone, Copy, PartialEq, Eq)]
pub enum ApproxStep {
    /// The weights are taken as the farthest point of the region in this
    /// direction; go to the next direction.
    Accept,
    /// Give the constraint to the solver, keep it as an outer bound, and
    /// solve again.
    AddConstraint,
}

/// Which weights the approximation asks the oracle about after solving.
#[derive(Debug, Clone, Copy, PartialEq, Eq)]
pub enum ApproxSolve {
    /// The weights the solver has found.
    UsePreference,
    /// Equal weights for all dimensions.
    UseEqualWeights,
    /// None: the solver found nothing though constraints were given.
    Fail,
}

/// Steers the approximation of the region of one path: in every direction
/// of a schedule, push the weights as far as the constraints known allow,
/// ask the oracle, and add what it objects.
#[derive(Debug, Clone, Copy, PartialEq, Eq)]
pub struct PrefSizeApproximator {
    no_constraints: bool,
}

impl PrefSizeApproximator {
    /// Whether the approximation started without constraints.
    pub closed spec fn unconstrained(&self) -> bool {
        self.no_constraints
    }

    /// Starts an approximation after the solver was reset and given
    /// `seeded` constraints.
    pub fn new(seeded: usize) -> (approximator: PrefSizeApproximator)
        ensures
            approximator.unconstrained() == (seeded == 0),
    {
        PrefSizeApproximator { no_constraints: seeded == 0 }
    }

    /// Takes the answer of the solver: its weights if it has found some;
    /// equal weights if it has not and the approximation started without
    /// constraints.
    pub fn after_solve(&self, feasible: bool) -> (step: ApproxSolve)
        ensures
            step == (if feasible {
                ApproxSolve::UsePreference
            } else if self.unconstrained() {
                ApproxSolve::UseEqualWeights
            } else {
                ApproxSolve::Fail
            }),
    {
        if feasible {
            ApproxSolve::UsePreference
        } else if self.no_constraints {
            ApproxSolve::UseEqualWeights
        } else {
            ApproxSolve::Fail
        }
    }

    /// Takes the verdict of the oracle on the weights. Weights under which
    /// the path is optimal lie inside the region. A constraint that repeats
    /// the last one added shows that the solver cannot get past that
    /// boundary: the weights are taken as they are.
    pub fn after_oracle(&self, verdict: Verdict) -> (step: ApproxStep)
        ensures
            step == (match verdict {
                Verdict::Optimal => ApproxStep::Accept,
                Verdict::Violated { repeated } => if repeated {
                    ApproxStep::Accept
                } else {
                    ApproxStep::AddConstraint
                },
            }),
    {
        match verdict {
            Verdict::Optimal => ApproxStep::Accept,
            Verdict::Violated { repeated } => {
                if repeated {
                    ApproxStep::Accept
                } else {
                    ApproxStep::AddConstraint
                }
            },
        }
    }
}

/// `pairs` lists every pair of different indices below `dim` once, the
/// smaller index first, ordered by the first index and then by the second.
pub open spec fn is_pair_list(pairs: Seq<(usize, usize)>, dim: usize) -> bool {
    &&& forall|k: int| 0 <= k < pairs.len() ==> (#[trigger] pairs[k]).0 < pairs[k].1 < dim
    &&& forall|i: int, j: int|
        0 <= i < j < pairs.len() ==> (#[trigger] pairs[i]).0 < (#[trigger] pairs[j]).0 || (pairs[i].0
            == pairs[j].0 && pairs[i].1 < pairs[j].1)
    &&& forall|a: usize, b: usize| a < b < dim ==> #[trigger] pairs.contains((a, b))
}

/// `Itertools::tuple_combinations` on the indices `0..dim`, taken two at a
/// time: every pair of different indices once, in the order in which the
/// crate's documentation lists the pairs of `1..5`.
#[verifier::external_body]
fn tuple_combinations(dim: usize) -> (pairs: Vec<(usize, usize)>)
    ensures
        is_pair_list(pairs@, dim),
{
    (0..dim).tuple_combinations().collect()
}

/// One direction of the rotation schedule: the vector with one half on
/// `axis1` and on `axis2`, turned `turns` times by the step angle in the
/// plane of the two axes.
#[derive(Debug, Clone, Copy, PartialEq, Eq)]
pub struct Turn {
    pub axis1: usize,
    pub axis2: usize,
    pub turns: usize,
}

/// The rotation schedule for `dim` dimensions: for every pair of axes, the
/// directions reached by one to `epsilon` turns of a full circle divided
/// into `epsilon` steps.
pub fn dir_iter(dim: usize, epsilon: usize) -> (schedule: Vec<Turn>)
    ensures
        exists|pairs: Seq<(usize, usize)>|
            {
                &&& is_pair_list(pairs, dim)
                &&& schedule@.len() == pairs.len() * epsilon
                &&& forall|p: int, s: int|
                    0 <= p < pairs.len() && 0 <= s < epsilon ==> #[trigger] schedule@[p * epsilon + s]
                        == (Turn { axis1: pairs[p].0, axis2: pairs[p].1, turns: (s + 1) as usize })
            },
{
    let pairs = tuple_combinations(dim);
    let mut schedule: Vec<Turn> = Vec::new();
    let mut p: usize = 0;
    while p < pairs.len()
        invariant
            p <= pairs@.len(),
            schedule@.len() == p * epsilon,
            forall|q: int, s: int|
                0 <= q < p && 0 <= s < epsilon ==> #[trigger] schedule@[q * epsilon + s] == (Turn {
                    axis1: pairs@[q].0,
                    axis2: pairs@[q].1,
                    turns: (s + 1) as usize,
                }),
        decreases pairs@.len() - p,
    {
        let (a, b) = pairs[p];
        let mut s: usize = 0;
        let ghost before = schedule@;
        while s < epsilon
            invariant
                p < pairs@.len(),
                (a, b) == pairs@[p as int],
                s <= epsilon,
                before.len() == p * epsilon,
                schedule@.len() == p * epsilon + s,
                forall|x: int| 0 <= x < before.len() ==> schedule@[x] == before[x],
                forall|t: int|
                    0 <= t < s ==> #[trigger] schedule@[p * epsilon + t] == (Turn {
                        axis1: a,
                        axis2: b,
                        turns: (t + 1) as usize,
                    }),
            decreases epsilon - s,
        {
            schedule.push(Turn { axis1: a, axis2: b, turns: s + 1 });
            s += 1;
        }
        proof {
            assert((p + 1) * epsilon == p * epsilon + epsilon) by (nonlinear_arith);
            assert forall|q: int, t: int| 0 <= q < p + 1 && 0 <= t < epsilon implies #[trigger] schedule@[q
                * epsilon + t] == (Turn {
                axis1: pairs@[q].0,
                axis2: pairs@[q].1,
                turns: (t + 1) as usize,
            }) by {
                if q < p {
                    assert(q * epsilon + t < p * epsilon) by (nonlinear_arith)
                        requires
                            0 <= q < p,
                            0 <= t < epsilon,
                    ;
                    assert(before[q * epsilon + t] == (Turn {
                        axis1: pairs@[q].0,
                        axis2: pairs@[q].1,
                        turns: (t + 1) as usize,
                    }));
                }
            }
        }
        p += 1;
    }
    schedule
}

/// One direction of the axis schedule: the unit vector of `axis`, or its
/// negative.
#[derive(Debug, Clone, Copy, PartialEq, Eq)]
pub struct AxisDirection {
    pub axis: usize,
    pub negative: bool,
}

/// The axis schedule for `dim` dimensions: for every axis the unit vector
/// and then its negative.
pub fn axis_iter(dim: usize) -> (schedule: Vec<AxisDirection>)
    ensures
        schedule@.len() == 2 * dim,
        forall|i: int|
            0 <= i < dim ==> (#[trigger] schedule@[2 * i]) == (AxisDirection {
                axis: i as usize,
                negative: false,
            }) && schedule@[2 * i + 1] == (AxisDirection { axis: i as usize, negative: true }),
{
    let mut schedule: Vec<AxisDirection> = Vec::new();
    let mut i: usize = 0;
    while i < dim
        invariant
            i <= dim,
            schedule@.len() == 2 * i,
            forall|k: int|
                0 <= k < i ==> (#[trigger] schedule@[2 * k]) == (AxisDirection {
                    axis: k as usize,
                    negative: false,
                }) && schedule@[2 * k + 1] == (AxisDirection { axis: k as usize, negative: true }),
        decreases dim - i,
    {
        schedule.push(AxisDirection { axis: i, negative: false });
        schedule.push(AxisDirection { axis: i, negative: true });
        i += 1;
    }
    schedule
}

/// The largest number of paths a [`SetPreferences`] can keep apart.
pub const MAX_PATHS: usize = 128;

/// Keeps, for a fixed set of paths, which of them still need the oracle
/// when a common preference is looked for.
#[derive(Debug, Clone, Copy)]
pub struct SetPreferences {
    path_count: usize,
    do_dijkstra: BitSet,
}

impl SetPreferences {
    /// Number of paths.
    pub closed spec fn paths(&self) -> nat {
        self.path_count as nat
    }

    /// The paths that need the oracle.
    pub closed spec fn active(&self) -> Set<int> {
        self.do_dijkstra@
    }

    /// The paths are few enough, and only paths are marked.
    pub open spec fn wf(&self) -> bool {
        &&& self.paths() <= MAX_PATHS
        &&& forall|i: int| self.active().contains(i) ==> 0 <= i < MAX_PATHS
    }

    /// At first every path needs the oracle.
    pub fn new(path_count: usize) -> (set: SetPreferences)
        requires
            path_count <= MAX_PATHS,
        ensures
            set.wf(),
            set.paths() == path_count,
            set.active() == Set::new(|i: int| 0 <= i < path_count),
    {
        let mut do_dijkstra = BitSet::new();
        let mut i: u8 = 0;
        while (i as usize) < path_count
            invariant
                path_count <= MAX_PATHS,
                i <= path_count,
                do_dijkstra@ == Set::new(|x: int| 0 <= x < i),
            decreases path_count - i,
        {
            do_dijkstra.add(i);
            assert(do_dijkstra@ =~= Set::new(|x: int| 0 <= x < i + 1));
            i += 1;
        }
        SetPreferences { path_count, do_dijkstra }
    }

    /// Says whether path `index` needs the oracle from now on.
    pub fn do_dijkstra(&mut self, index: usize, active: bool)
        requires
            old(self).wf(),
            index < MAX_PATHS,
        ensures
            final(self).wf(),
            final(self).paths() == old(self).paths(),
            final(self).active() == (if active {
                old(self).active().insert(index as int)
            } else {
                old(self).active().remove(index as int)
            }),
    {
        let ghost before = self.do_dijkstra@;
        if active && !self.do_dijkstra.contains(index as u8) {
            self.do_dijkstra.add(index as u8);
        } else if !active && self.do_dijkstra.contains(index as u8) {
            self.do_dijkstra.remove(index as u8);
        }
        proof {
            if active {
                assert(self.do_dijkstra@ =~= before.insert(index as int));
            } else {
                assert(self.do_dijkstra@ =~= before.remove(index as int));
            }
        }
    }

    /// Whether path `index` needs the oracle.
    pub fn needs_dijkstra(&self, index: usize) -> (b: bool)
        requires
            self.wf(),
            index < MAX_PATHS,
        ensures
            b == self.active().contains(index as int),
    {
        self.do_dijkstra.contains(index as u8)
    }

    /// Of the paths in `subset_indices`, in their order, those that need
    /// the oracle.
    pub fn only_with_dijkstra(&self, subset_indices: &Vec<usize>) -> (chosen: Vec<usize>)
        requires
            self.wf(),
            forall|i: int| 0 <= i < subset_indices@.len() ==> subset_indices@[i] < MAX_PATHS,
        ensures
            chosen@ == subset_indices@.filter(|i: usize| self.active().contains(i as int)),
    {
        let ghost keep = |i: usize| self.active().contains(i as int);
        let mut chosen: Vec<usize> = Vec::new();
        let mut k: usize = 0;
        while k < subset_indices.len()
            invariant
                self.wf(),
                k <= subset_indices@.len(),
                forall|i: int| 0 <= i < subset_indices@.len() ==> subset_indices@[i] < MAX_PATHS,
                keep == |i: usize| self.active().contains(i as int),
                chosen@ == subset_indices@.subrange(0, k as int).filter(keep),
            decreases subset_indices@.len() - k,
        {
            let index: usize = subset_indices[k];
            proof {
                let s0 = subset_indices@.subrange(0, k as int);
                let s1 = subset_indices@.subrange(0, k as int + 1);
                assert(s1.drop_last() =~= s0);
                assert(s1.last() == index);
                reveal(Seq::filter);
            }
            if self.needs_dijkstra(index) {
                chosen.push(index);
            }
            k += 1;
        }
        assert(subset_indices@.subrange(0, subset_indices@.len() as int) =~= subset_indices@);
        chosen
    }

    /// Whether a common preference can be looked for among inner points
    /// alone: every path of the subset must have some. `inner_points` holds
    /// for every path how many are known.
    pub fn yes_filter_applies(&self, inner_points: &Vec<usize>, subset_indices: &Vec<usize>) -> (applicable: bool)
        requires
            forall|i: int|
                0 <= i < subset_indices@.len() ==> subset_indices@[i] < inner_points@.len(),
        ensures
            applicable == forall|i: int|
                0 <= i < subset_indices@.len() ==> inner_points@[#[trigger] subset_indices@[i] as int]
                    > 0,
    {
        let mut k: usize = 0;
        while k < subset_indices.len()
            invariant
                k <= subset_indices@.len(),
                forall|i: int|
                    0 <= i < subset_indices@.len() ==> subset_indices@[i] < inner_points@.len(),
                forall|i: int|
                    0 <= i < k ==> inner_points@[#[trigger] subset_indices@[i] as int] > 0,
            decreases subset_indices@.len() - k,
        {
            if inner_points[subset_indices[k]] == 0 {
                return false;
            }
            k += 1;
        }
        true
    }
}

/// The part of the work that goes to worker `i` of `workers`, where `n`
/// items are shared out evenly: the first `n % workers` get one more.
pub open spec fn chunk_start(n: int, workers: int, i: int) -> int {
    i * (n / workers) + if i < n % workers {
        i
    } else {
        n % workers
    }
}

/// Shares `n` paths out among as many workers as there are cores, but no
/// more workers than paths: the parts are consecutive ranges of the same
/// size, up to one path.
pub fn chunks(n: usize, cores: usize) -> (parts: Vec<(usize, usize)>)
    requires
        n > 0,
        cores > 0,
    ensures
        parts@.len() == (if cores <= n {
            cores
        } else {
            n
        }),
        forall|i: int|
            0 <= i < parts@.len() ==> (#[trigger] parts@[i]).0 == chunk_start(
                n as int,
                parts@.len() as int,
                i,
            ) && parts@[i].1 == chunk_start(n as int, parts@.len() as int, i + 1),
        parts@[0].0 == 0,
        parts@.last().1 == n,
        forall|i: int|
            0 <= i < parts@.len() ==> (n as int) / (parts@.len() as int) <= (#[trigger] parts@[i]).1
                - parts@[i].0 <= (n as int) / (parts@.len() as int) + 1,
{
    let workers: usize = if cores <= n {
        cores
    } else {
        n
    };
    let share: usize = n / workers;
    let extra: usize = n % workers;
    assert(n == share * workers + extra) by (nonlinear_arith)
        requires
            workers > 0,
            share == n / workers,
            extra == n % workers,
    ;
    let mut parts: Vec<(usize, usize)> = Vec::new();
    let mut start: usize = 0;
    let mut i: usize = 0;
    while i < workers
        invariant
            0 < workers <= n,
            share == n / workers,
            extra == n % workers,
            n == share * workers + extra,
            i <= workers,
            parts@.len() == i,
            start == chunk_start(n as int, workers as int, i as int),
            forall|j: int|
                0 <= j < i ==> (#[trigger] parts@[j]).0 == chunk_start(n as int, workers as int, j)
                    && parts@[j].1 == chunk_start(n as int, workers as int, j + 1),
        decreases workers - i,
    {
        assert(share + extra <= n) by (nonlinear_arith)
            requires
                workers >= 1,
                n == share * workers + extra,
        ;
        let size: usize = if i < extra {
            share + 1
        } else {
            share
        };
        proof {
            assert(chunk_start(n as int, workers as int, i as int + 1) == start + size) by (nonlinear_arith)
                requires
                    start == chunk_start(n as int, workers as int, i as int),
                    share == n / workers,
                    extra == n % workers,
                    size == (if i < extra { share + 1 } else { share as int }),
            ;
            assert(chunk_start(n as int, workers as int, i as int + 1) <= n) by (nonlinear_arith)
                requires
                    i < workers,
                    share == n / workers,
                    extra == n % workers,
                    n == share * workers + extra,
                    extra < workers,
            ;
        }
        parts.push((start, start + size));
        start = start + size;
        i += 1;
    }
    proof {
        assert(chunk_start(n as int, workers as int, 0) == 0) by (nonlinear_arith)
            requires
                workers > 0,
        ;
        assert(chunk_start(n as int, workers as int, workers as int) == n) by (nonlinear_arith)
            requires
                share == n / workers,
                extra == n % workers,
                n == share * workers + extra,
                extra < workers,
        ;
        assert forall|j: int| 0 <= j < parts@.len() implies (n as int) / (parts@.len() as int) <= (
        #[trigger] parts@[j]).1 - parts@[j].0 <= (n as int) / (parts@.len() as int) + 1 by {
            assert(chunk_start(n as int, workers as int, j + 1) - chunk_start(
                n as int,
                workers as int,
                j,
            ) == (n as int) / (workers as int) + if j < (n as int) % (workers as int) {
                1int
            } else {
                0int
            }) by (nonlinear_arith);
        }
    }
    parts
}

/// `num_cpus::get`: the number of processors this process may use, as the
/// machine reports it.
#[verifier::external_body]
fn available_cores() -> (cores: usize) {
    num_cpus::get()
}

/// Shares `n` paths out among the processors of this machine; `None` where
/// there is nothing to share out or nobody to share it among.
pub fn worker_chunks(n: usize) -> (parts: Option<Vec<(usize, usize)>>)
    ensures
        parts is Some <== n > 0,
        match parts {
            None => true,
            Some(parts) => {
                &&& n > 0
                &&& 1 <= parts@.len() <= n
                &&& parts@[0].0 == 0
                &&& parts@.last().1 == n
                &&& forall|i: int|
                    0 <= i < parts@.len() ==> (#[trigger] parts@[i]).0 == chunk_start(
                        n as int,
                        parts@.len() as int,
                        i,
                    ) && parts@[i].1 == chunk_start(n as int, parts@.len() as int, i + 1)
            },
        },
{
    let cores: usize = available_cores();
    if n == 0 {
        return None;
    }
    if cores == 0 {
        return Some(chunks(n, 1));
    }
    Some(chunks(n, cores))
}

} // verus!
