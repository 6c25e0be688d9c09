//! The requests and replies of the solver that looks for a preference
//! under which all constraints hold.

use super::{convert_to_words, message, reply_of, zeroed, Reply, Request, Word};
use super::{framed, reply_for};
use vstd::prelude::*;

verus! {

/// The protocol side of a preference solver for `dim` cost dimensions.
#[derive(Debug, Clone, Copy)]
pub struct PreferenceLp {
    dim: usize,
}

/// What a preference solver has found: the preference, then the margin by
/// which all constraints hold.
#[derive(Debug, Clone, PartialEq, Eq)]
pub struct PreferenceSolution {
    pub preference: Vec<Word>,
    pub margin: Word,
}

impl PreferenceLp {
    /// Number of cost dimensions.
    pub closed spec fn dimension(&self) -> nat {
        self.dim as nat
    }

    pub fn new(dim: usize) -> (lp: PreferenceLp)
        ensures
            lp.dimension() == dim,
    {
        PreferenceLp { dim }
    }

    /// Number of cost dimensions.
    pub fn dim(&self) -> (dim: usize)
        ensures
            dim == self.dimension(),
    {
        self.dim
    }

    /// Room for one constraint.
    pub fn input_buffer(dim: usize) -> (buffer: Vec<u8>)
        requires
            8 * dim <= usize::MAX,
        ensures
            buffer@.len() == 8 * dim,
            forall|i: int| 0 <= i < buffer@.len() ==> buffer@[i] == 0,
    {
        zeroed(dim)
    }

    /// Room for one solution: a preference and the margin.
    pub fn output_buffer(dim: usize) -> (buffer: Vec<u8>)
        requires
            8 * (dim + 1) <= usize::MAX,
        ensures
            buffer@.len() == 8 * (dim + 1),
            forall|i: int| 0 <= i < buffer@.len() ==> buffer@[i] == 0,
    {
        zeroed(dim + 1)
    }

    /// The request to add the constraint `costs . a - margin >= 0`.
    pub fn add_constraint(&self, costs: &Vec<Word>) -> (bytes: Vec<u8>)
        requires
            costs@.len() == self.dimension(),
            8 * costs@.len() < usize::MAX,
        ensures
            bytes@ == framed(Request::AddConstraint, costs@),
    {
        message(Request::AddConstraint, costs)
    }

    /// The request to forget all constraints.
    pub fn reset(&self) -> (bytes: Vec<u8>)
        ensures
            bytes@ == framed(Request::Reset, Seq::empty()),
    {
        let none: Vec<Word> = Vec::new();
        message(Request::Reset, &none)
    }

    /// The request to solve, with exact arithmetic if `exact`.
    pub fn solve(&self, exact: bool) -> (bytes: Vec<u8>)
        ensures
            bytes@ == framed(
                if exact {
                    Request::SolveExact
                } else {
                    Request::Solve
                },
                Seq::empty(),
            ),
    {
        let none: Vec<Word> = Vec::new();
        if exact {
            message(Request::SolveExact, &none)
        } else {
            message(Request::Solve, &none)
        }
    }

    /// Reads the reply to a request to solve: `control` is its first byte,
    /// and `buffer` holds what followed where a solution was announced.
    ///
    /// The solution has one number for every dimension and the margin last.
    /// An unknown control byte is handed back as the error.
    pub fn read_solution(&self, control: u8, buffer: &Vec<u8>) -> (res: Result<
        Option<PreferenceSolution>,
        u8,
    >)
        requires
            reply_for(control) == Some(Reply::Solution) ==> buffer@.len() == 8 * (self.dimension() + 1),
        ensures
            match res {
                Err(byte) => byte == control && reply_for(control) is None,
                Ok(None) => reply_for(control) == Some(Reply::Infeasible),
                Ok(Some(solution)) => {
                    &&& reply_for(control) == Some(Reply::Solution)
                    &&& solution.preference@.len() == self.dimension()
                    &&& forall|i: int, j: int|
                        0 <= i < self.dimension() && 0 <= j < 8 ==> (
                        #[trigger] solution.preference@[i]@[j]) == buffer@[8 * i + j]
                    &&& forall|j: int|
                        0 <= j < 8 ==> (#[trigger] solution.margin@[j]) == buffer@[8 * self.dimension()
                            + j]
                },
            },
    {
        match reply_of(control) {
            None => Err(control),
            Some(Reply::Infeasible) => Ok(None),
            Some(Reply::Solution) => {
                let mut words = convert_to_words(buffer);
                let ghost all = words@;
                let margin: Word = words[self.dim];
                words.truncate(self.dim);
                proof {
                    assert forall|i: int, j: int| 0 <= i < self.dim && 0 <= j < 8 implies (
                    #[trigger] words@[i]@[j]) == buffer@[8 * i + j] by {
                        assert(words@[i] == all[i]);
                    }
                }
                Ok(Some(PreferenceSolution { preference: words, margin }))
            },
        }
    }
}

} // verus!
