//! The byte protocol spoken with the linear program solvers.
//!
//! A solver runs as a process of its own. A request is one control byte,
//! followed for some requests by numbers of eight bytes each; so is a
//! reply. This module frames requests and takes replies apart. What the
//! eight bytes of a number mean is left to the caller.

pub mod preference;
pub mod size_approx;

pub use preference::{PreferenceLp, PreferenceSolution};
pub use size_approx::SizeApproxLp;

use vstd::prelude::*;

verus! {

/// Number of bytes of one number on the wire.
pub const WORD_SIZE: usize = 8;

/// One number as it travels: eight bytes in the byte order of the machine.
pub type Word = [u8; 8];

/// What can be asked of a solver.
#[derive(Debug, Clone, Copy, PartialEq, Eq)]
pub enum Request {
    /// Forget all constraints.
    Reset,
    /// Add the constraint that follows.
    AddConstraint,
    /// Solve with the simplex method.
    Solve,
    /// Solve with exact arithmetic.
    SolveExact,
    /// Take the objective that follows.
    SetObjective,
    /// Report the constraints that are tight at the optimum.
    NonBasicConstraints,
}

/// How a solver answers a request to solve.
#[derive(Debug, Clone, Copy, PartialEq, Eq)]
pub enum Reply {
    /// A solution follows.
    Solution,
    /// There is no solution.
    Infeasible,
}

/// The byte that stands for a request.
pub open spec fn control_of(request: Request) -> u8 {
    match request {
        Request::Reset => 0,
        Request::AddConstraint => 1,
        Request::Solve => 2,
        Request::SolveExact => 3,
        Request::SetObjective => 4,
        Request::NonBasicConstraints => 5,
    }
}

/// The bytes of `words`, one word after the other.
pub open spec fn flat(words: Seq<Word>) -> Seq<u8> {
    Seq::new(8 * words.len(), |i: int| words[i / 8]@[i % 8])
}

/// A request as it is sent: its control byte, then its numbers.
pub open spec fn framed(request: Request, words: Seq<Word>) -> Seq<u8> {
    seq![control_of(request)] + flat(words)
}

/// The byte that stands for a request.
pub fn control_byte(request: Request) -> (b: u8)
    ensures
        b == control_of(request),
{
    match request {
        Request::Reset => 0,
        Request::AddConstraint => 1,
        Request::Solve => 2,
        Request::SolveExact => 3,
        Request::SetObjective => 4,
        Request::NonBasicConstraints => 5,
    }
}

/// The request that a control byte stands for, if any.
pub fn request_of(control: u8) -> (request: Option<Request>)
    ensures
        match request {
            Some(r) => control_of(r) == control,
            None => control > 5,
        },
{
    match control {
        0 => Some(Request::Reset),
        1 => Some(Request::AddConstraint),
        2 => Some(Request::Solve),
        3 => Some(Request::SolveExact),
        4 => Some(Request::SetObjective),
        5 => Some(Request::NonBasicConstraints),
        _ => None,
    }
}

/// The reply that a control byte stands for, if any.
pub open spec fn reply_for(control: u8) -> Option<Reply> {
    if control == 0 {
        Some(Reply::Solution)
    } else if control == 1 {
        Some(Reply::Infeasible)
    } else {
        None
    }
}

/// The reply that a control byte stands for, if any.
pub fn reply_of(control: u8) -> (reply: Option<Reply>)
    ensures
        reply == reply_for(control),
{
    match control {
        0 => Some(Reply::Solution),
        1 => Some(Reply::Infeasible),
        _ => None,
    }
}

/// The byte that stands for a reply.
pub fn reply_byte(reply: Reply) -> (b: u8)
    ensures
        b == (match reply {
            Reply::Solution => 0u8,
            Reply::Infeasible => 1u8,
        }),
        reply_for(b) == Some(reply),
{
    match reply {
        Reply::Solution => 0,
        Reply::Infeasible => 1,
    }
}

/// A buffer of zeros for `count` numbers.
pub fn zeroed(count: usize) -> (buffer: Vec<u8>)
    requires
        8 * count <= usize::MAX,
    ensures
        buffer@.len() == 8 * count,
        forall|i: int| 0 <= i < buffer@.len() ==> buffer@[i] == 0,
{
    let mut buffer: Vec<u8> = Vec::new();
    let mut i: usize = 0;
    while i < WORD_SIZE * count
        invariant
            8 * count <= usize::MAX,
            i <= 8 * count,
            buffer@.len() == i,
            forall|j: int| 0 <= j < i ==> buffer@[j] == 0,
        decreases 8 * count - i,
    {
        buffer.push(0);
        i += 1;
    }
    buffer
}

/// The numbers in a buffer, eight bytes each; bytes left over at the end
/// are no number.
pub fn convert_to_words(buffer: &Vec<u8>) -> (words: Vec<Word>)
    ensures
        words@.len() == buffer@.len() / 8,
        forall|i: int, j: int|
            0 <= i < words@.len() && 0 <= j < 8 ==> (#[trigger] words@[i]@[j]) == buffer@[8 * i + j],
        flat(words@) == buffer@.subrange(0, 8 * (buffer@.len() / 8) as int),
{
    let total: usize = buffer.len();
    let count: usize = total / WORD_SIZE;
    let mut words: Vec<Word> = Vec::new();
    let mut i: usize = 0;
    while i < count
        invariant
            total == buffer@.len(),
            count == total / 8,
            i <= count,
            words@.len() == i,
            forall|a: int, j: int|
                0 <= a < i && 0 <= j < 8 ==> (#[trigger] words@[a]@[j]) == buffer@[8 * a + j],
        decreases count - i,
    {
        let at: usize = WORD_SIZE * i;
        let word: Word = [
            buffer[at],
            buffer[at + 1],
            buffer[at + 2],
            buffer[at + 3],
            buffer[at + 4],
            buffer[at + 5],
            buffer[at + 6],
            buffer[at + 7],
        ];
        words.push(word);
        i += 1;
    }
    proof {
        let cut = buffer@.subrange(0, 8 * (buffer@.len() / 8) as int);
        assert forall|x: int| 0 <= x < cut.len() implies flat(words@)[x] == cut[x] by {
            assert(words@[x / 8]@[x % 8] == buffer@[8 * (x / 8) + x % 8]);
        }
        assert(flat(words@) =~= cut);
    }
    words
}

/// The bytes of `words`, one word after the other.
pub fn convert_to_bytes(words: &Vec<Word>) -> (bytes: Vec<u8>)
    requires
        8 * words@.len() <= usize::MAX,
    ensures
        bytes@ == flat(words@),
{
    let mut bytes: Vec<u8> = Vec::new();
    let mut i: usize = 0;
    while i < words.len()
        invariant
            i <= words@.len(),
            bytes@.len() == 8 * i,
            forall|x: int| 0 <= x < 8 * i ==> bytes@[x] == words@[x / 8]@[x % 8],
        decreases words@.len() - i,
    {
        let word: Word = words[i];
        let mut j: usize = 0;
        while j < 8
            invariant
                i < words@.len(),
                word == words@[i as int],
                j <= 8,
                bytes@.len() == 8 * i + j,
                forall|x: int| 0 <= x < 8 * i + j ==> bytes@[x] == words@[x / 8]@[x % 8],
            decreases 8 - j,
        {
            bytes.push(word[j]);
            j += 1;
        }
        i += 1;
    }
    assert(bytes@ =~= flat(words@));
    bytes
}

/// A request as it is sent: its control byte, then its numbers.
pub fn message(request: Request, words: &Vec<Word>) -> (bytes: Vec<u8>)
    requires
        8 * words@.len() < usize::MAX,
    ensures
        bytes@ == framed(request, words@),
{
    let mut bytes: Vec<u8> = Vec::new();
    bytes.push(control_byte(request));
    let mut payload = convert_to_bytes(words);
    bytes.append(&mut payload);
    assert(bytes@ =~= framed(request, words@));
    bytes
}

/// Takes a request apart again: the request, and the numbers sent with it.
pub fn parse_message(bytes: &Vec<u8>) -> (parsed: Option<(Request, Vec<Word>)>)
    ensures
        match parsed {
            Some((request, words)) => bytes@.len() == 1 + 8 * words@.len() && bytes@ == framed(
                request,
                words@,
            ),
            None => bytes@.len() == 0 || bytes@[0] > 5 || (bytes@.len() - 1) % 8 != 0,
        },
{
    if bytes.len() == 0 {
        return None;
    }
    let request = match request_of(bytes[0]) {
        Some(r) => r,
        None => {
            return None;
        },
    };
    if (bytes.len() - 1) % WORD_SIZE != 0 {
        return None;
    }
    let mut payload: Vec<u8> = Vec::new();
    let mut i: usize = 1;
    while i < bytes.len()
        invariant
            1 <= i <= bytes@.len(),
            payload@ == bytes@.subrange(1, i as int),
        decreases bytes@.len() - i,
    {
        payload.push(bytes[i]);
        assert(payload@ =~= bytes@.subrange(1, i as int + 1));
        i += 1;
    }
    let words = convert_to_words(&payload);
    proof {
        assert(payload@.subrange(0, 8 * (payload@.len() / 8) as int) =~= payload@);
        assert(bytes@ =~= seq![bytes@[0]] + payload@);
    }
    Some((request, words))
}

/// Every word keeps its bytes when the words are laid out flat and read back.
pub proof fn lemma_flat_words(words: Seq<Word>, i: int, j: int)
    requires
        0 <= i < words.len(),
        0 <= j < 8,
    ensures
        flat(words).len() == 8 * words.len(),
        flat(words)[8 * i + j] == words[i]@[j],
{
    assert((8 * i + j) / 8 == i && (8 * i + j) % 8 == j);
}

/// A framed request is told apart by its first byte, and its numbers are
/// what follows: two frames are equal only if request and numbers are.
pub proof fn lemma_framed_injective(r1: Request, w1: Seq<Word>, r2: Request, w2: Seq<Word>)
    requires
        framed(r1, w1) == framed(r2, w2),
    ensures
        r1 == r2,
        w1.len() == w2.len(),
        forall|i: int| 0 <= i < w1.len() ==> (#[trigger] w1[i])@ == w2[i]@,
{
    let f1 = framed(r1, w1);
    let f2 = framed(r2, w2);
    assert(f1[0] == control_of(r1));
    assert(f2[0] == control_of(r2));
    assert(f1.len() == 1 + 8 * w1.len());
    assert(f2.len() == 1 + 8 * w2.len());
    assert forall|i: int| 0 <= i < w1.len() implies (#[trigger] w1[i])@ == w2[i]@ by {
        assert forall|j: int| 0 <= j < 8 implies w1[i]@[j] == w2[i]@[j] by {
            lemma_flat_words(w1, i, j);
            lemma_flat_words(w2, i, j);
            assert(f1[1 + 8 * i + j] == flat(w1)[8 * i + j]);
            assert(f2[1 + 8 * i + j] == flat(w2)[8 * i + j]);
        }
        assert(w1[i]@.len() == 8 && w2[i]@.len() == 8);
        assert(w1[i]@ =~= w2[i]@);
    }
}

} // verus!
