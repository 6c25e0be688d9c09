//! The requests and replies of the solver that pushes a preference as far
//! as the constraints allow in a given direction.

use super::{convert_to_words, message, reply_of, zeroed, Reply, Request, Word};
use super::{framed, reply_for};
use vstd::prelude::*;

verus! {

/// The sum of the products of the components of `h` and `p`, as far as
/// `p` reaches.
pub open spec fn dot(h: Seq<int>, p: Seq<int>) -> int
    decreases p.len(),
{
    if p.len() == 0 {
        0
    } else {
        dot(h, p.drop_last()) + h[p.len() - 1] * p.last()
    }
}

/// The sum of the components of `p`.
pub open spec fn sum(p: Seq<int>) -> int
    decreases p.len(),
{
    if p.len() == 0 {
        0
    } else {
        sum(p.drop_last()) + p.last()
    }
}

/// A constraint in the form the solver takes: the last component is taken
/// off all others, and stands negated at the end as the bound.
pub open spec fn lowered(h: Seq<int>) -> Seq<int> {
    Seq::new(
        h.len(),
        |i: int|
            if i < h.len() - 1 {
                h[i] - h.last()
            } else {
                -h.last()
            },
    )
}

/// Weights as the solver gives them, with the last weight added that makes
/// the sum `unit`.
pub open spec fn increased(p: Seq<int>, unit: int) -> Seq<int> {
    p.push(unit - sum(p))
}

/// Taking one component off all others changes the sum of products by
/// that component times the sum of the weights.
pub proof fn lemma_dot_lowered(h: Seq<int>, p: Seq<int>)
    requires
        p.len() < h.len(),
    ensures
        dot(lowered(h), p) == dot(h, p) - h.last() * sum(p),
    decreases p.len(),
{
    if p.len() > 0 {
        lemma_dot_lowered(h, p.drop_last());
        let i = p.len() - 1;
        assert(lowered(h)[i] == h[i] - h.last());
        assert((h[i] - h.last()) * p.last() == h[i] * p.last() - h.last() * p.last())
            by (nonlinear_arith);
        assert(h.last() * (sum(p.drop_last()) + p.last()) == h.last() * sum(p.drop_last()) + h.last()
            * p.last()) by (nonlinear_arith);
    }
}

/// Lowering a constraint and increasing the weights fit together: the
/// full constraint at the increased weights has the value of the lowered
/// constraint at the weights, less its bound times `unit`. So the full
/// constraint holds of the increased weights exactly where the lowered one
/// holds of the weights as they are.
pub proof fn lemma_lower_then_increase(h: Seq<int>, p: Seq<int>, unit: int)
    requires
        h.len() == p.len() + 1,
    ensures
        dot(h, increased(p, unit)) == dot(lowered(h), p) - lowered(h).last() * unit,
        dot(h, increased(p, unit)) >= 0 <==> dot(lowered(h), p) >= lowered(h).last() * unit,
        sum(increased(p, unit)) == unit,
{
    let q = increased(p, unit);
    assert(q.drop_last() =~= p);
    assert(q.last() == unit - sum(p));
    lemma_dot_lowered(h, p);
    assert(lowered(h).last() == -h.last());
    assert(h.last() * (unit - sum(p)) == h.last() * unit - h.last() * sum(p)) by (nonlinear_arith);
    assert((-h.last()) * unit == -(h.last() * unit)) by (nonlinear_arith);
    assert(h[q.len() - 1] == h.last());
}

/// The protocol side of a size approximation solver for `dim` cost
/// dimensions. The solver works with the first `dim - 1` weights; the last
/// one is what is missing to one.
#[derive(Debug, Clone, Copy)]
pub struct SizeApproxLp {
    dim: usize,
}

impl SizeApproxLp {
    /// Number of cost dimensions.
    pub closed spec fn dimension(&self) -> nat {
        self.dim as nat
    }

    pub fn new(dim: usize) -> (lp: SizeApproxLp)
        ensures
            lp.dimension() == dim,
    {
        SizeApproxLp { dim }
    }

    /// Number of cost dimensions.
    pub fn dim(&self) -> (dim: usize)
        ensures
            dim == self.dimension(),
    {
        self.dim
    }

    /// Room for `dim` numbers.
    pub fn buffer(dim: usize) -> (buffer: Vec<u8>)
        requires
            8 * dim <= usize::MAX,
        ensures
            buffer@.len() == 8 * dim,
            forall|i: int| 0 <= i < buffer@.len() ==> buffer@[i] == 0,
    {
        zeroed(dim)
    }

    /// The request to maximise `coef . a` over the first `dim - 1` weights.
    pub fn set_obj_fun(&self, coef: &Vec<Word>) -> (bytes: Vec<u8>)
        requires
            coef@.len() == self.dimension() - 1,
            8 * coef@.len() < usize::MAX,
        ensures
            bytes@ == framed(Request::SetObjective, coef@),
    {
        message(Request::SetObjective, coef)
    }

    /// The request to add a constraint, given in the lowered form with the
    /// bound as its last number. The solver answers with the row it gave
    /// the constraint.
    pub fn add_constraint(&self, costs: &Vec<Word>) -> (bytes: Vec<u8>)
        requires
            costs@.len() == self.dimension(),
            8 * costs@.len() < usize::MAX,
        ensures
            bytes@ == framed(Request::AddConstraint, costs@),
    {
        message(Request::AddConstraint, costs)
    }

    /// The request to forget all constraints.
    pub fn reset(&self) -> (bytes: Vec<u8>)
        ensures
            bytes@ == framed(Request::Reset, Seq::empty()),
    {
        let none: Vec<Word> = Vec::new();
        message(Request::Reset, &none)
    }

    /// The request to solve, with exact arithmetic if `exact`.
    pub fn solve(&self, exact: bool) -> (bytes: Vec<u8>)
        ensures
            bytes@ == framed(
                if exact {
                    Request::SolveExact
                } else {
                    Request::Solve
                },
                Seq::empty(),
            ),
    {
        let none: Vec<Word> = Vec::new();
        if exact {
            message(Request::SolveExact, &none)
        } else {
            message(Request::Solve, &none)
        }
    }

    /// Reads the reply to a request to solve: `control` is its first byte,
    /// and `buffer` holds what followed where a solution was announced, the
    /// first `dim - 1` weights. An unknown control byte is handed back as
    /// the error.
    pub fn read_solution(&self, control: u8, buffer: &Vec<u8>) -> (res: Result<Option<Vec<Word>>, u8>)
        requires
            reply_for(control) == Some(Reply::Solution) ==> buffer@.len() == 8 * (self.dimension() - 1),
        ensures
            match res {
                Err(byte) => byte == control && reply_for(control) is None,
                Ok(None) => reply_for(control) == Some(Reply::Infeasible),
                Ok(Some(weights)) => {
                    &&& reply_for(control) == Some(Reply::Solution)
                    &&& weights@.len() == self.dimension() - 1
                    &&& forall|i: int, j: int|
                        0 <= i < weights@.len() && 0 <= j < 8 ==> (#[trigger] weights@[i]@[j])
                            == buffer@[8 * i + j]
                },
            },
    {
        match reply_of(control) {
            None => Err(control),
            Some(Reply::Infeasible) => Ok(None),
            Some(Reply::Solution) => Ok(Some(convert_to_words(buffer))),
        }
    }

    /// The request for the constraints that are tight at the optimum.
    pub fn non_basic_constraints(&self) -> (bytes: Vec<u8>)
        ensures
            bytes@ == framed(Request::NonBasicConstraints, Seq::empty()),
    {
        let none: Vec<Word> = Vec::new();
        message(Request::NonBasicConstraints, &none)
    }

    /// Number of bytes in which `count` constraints arrive, if there can
    /// be so many.
    pub fn non_basic_len(&self, count: usize) -> (len: Option<usize>)
        ensures
            match len {
                Some(n) => n == 8 * (count * self.dimension()),
                None => 8 * (count * self.dimension()) > usize::MAX,
            },
    {
        match count.checked_mul(self.dim) {
            None => {
                assert(8 * (count * self.dim) > usize::MAX) by (nonlinear_arith)
                    requires
                        count * self.dim > usize::MAX,
                ;
                None
            },
            Some(numbers) => numbers.checked_mul(8),
        }
    }

    /// Takes the reply with the tight constraints apart: `dim` numbers for
    /// each, in full form.
    pub fn read_non_basic(&self, count: usize, buffer: &Vec<u8>) -> (rows: Vec<Vec<Word>>)
        requires
            buffer@.len() == 8 * (count * self.dimension()),
        ensures
            rows@.len() == count,
            forall|c: int| 0 <= c < count ==> (#[trigger] rows@[c])@.len() == self.dimension(),
            forall|c: int, i: int, j: int|
                0 <= c < count && 0 <= i < self.dimension() && 0 <= j < 8 ==> (
                #[trigger] rows@[c]@[i]@[j]) == buffer@[8 * (c * self.dimension() + i) + j],
    {
        let words = convert_to_words(buffer);
        let dim: usize = self.dim;
        let total: usize = words.len();
        let mut rows: Vec<Vec<Word>> = Vec::new();
        let mut c: usize = 0;
        while c < count
            invariant
                dim == self.dimension(),
                c <= count,
                total == words@.len(),
                words@.len() == count * dim,
                rows@.len() == c,
                forall|a: int| 0 <= a < c ==> (#[trigger] rows@[a])@.len() == dim,
                forall|a: int, i: int|
                    0 <= a < c && 0 <= i < dim ==> (#[trigger] rows@[a]@[i]) == words@[a * dim + i],
            decreases count - c,
        {
            let mut row: Vec<Word> = Vec::new();
            let mut i: usize = 0;
            proof {
                crate::graph::edge::lemma_slot_fits(c as int, count as int, dim as int);
            }
            while i < dim
                invariant
                    c < count,
                    i <= dim,
                    total == words@.len(),
                    words@.len() == count * dim,
                    0 <= c * dim,
                    c * dim + dim <= count * dim,
                    row@.len() == i,
                    forall|x: int| 0 <= x < i ==> (#[trigger] row@[x]) == words@[c * dim + x],
                decreases dim - i,
            {
                row.push(words[c * dim + i]);
                i += 1;
            }
            rows.push(row);
            c += 1;
        }
        proof {
            assert forall|a: int, i: int, j: int| 0 <= a < count && 0 <= i < dim && 0 <= j < 8 implies (
            #[trigger] rows@[a]@[i]@[j]) == buffer@[8 * (a * dim + i) + j] by {
                crate::graph::edge::lemma_slot_fits(a, count as int, dim as int);
                assert(rows@[a]@[i] == words@[a * dim + i]);
                assert(words@[a * dim + i]@[j] == buffer@[8 * (a * dim + i) + j]);
            }
        }
        rows
    }
}

} // verus!
