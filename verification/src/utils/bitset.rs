//! Sets of small natural numbers packed into machine words.

use super::text::{decimal_digits, push_digits};
use vstd::prelude::*;

verus! {

/// The members from `from` up to but without `to`, as text: each in
/// decimal with a space behind it, the smallest first.
pub open spec fn members_text(members: Set<int>, from: int, to: int) -> Seq<u8>
    decreases to - from,
{
    if from >= to {
        Seq::empty()
    } else {
        (if members.contains(from) && from >= 0 {
            decimal_digits(from as nat) + seq![32u8]
        } else {
            Seq::empty()
        }) + members_text(members, from + 1, to)
    }
}

/// The members below `capacity` as a line of text.
pub open spec fn members_line(members: Set<int>, capacity: int) -> Seq<u8> {
    members_text(members, 0, capacity) + seq![10u8]
}

/// The text of a range is the text of its two parts.
pub proof fn lemma_members_text_split(members: Set<int>, a: int, b: int, c: int)
    requires
        a <= b <= c,
    ensures
        members_text(members, a, c) == members_text(members, a, b) + members_text(members, b, c),
    decreases b - a,
{
    if a < b {
        lemma_members_text_split(members, a + 1, b, c);
        let head = if members.contains(a) && a >= 0 {
            decimal_digits(a as nat) + seq![32u8]
        } else {
            Seq::<u8>::empty()
        };
        assert(head + (members_text(members, a + 1, b) + members_text(members, b, c)) =~= (head
            + members_text(members, a + 1, b)) + members_text(members, b, c));
    } else {
        assert(Seq::<u8>::empty() + members_text(members, b, c) =~= members_text(members, b, c));
    }
}

/// A range without members has no text.
pub proof fn lemma_members_text_skip(members: Set<int>, a: int, b: int)
    requires
        forall|x: int| a <= x < b ==> !members.contains(x),
    ensures
        members_text(members, a, b) == Seq::<u8>::empty(),
    decreases b - a,
{
    if a < b {
        lemma_members_text_skip(members, a + 1, b);
        assert(Seq::<u8>::empty() + Seq::<u8>::empty() =~= Seq::<u8>::empty());
    }
}

/// The text up to and with member `x`, where no member lies between
/// `done` and `x`.
pub proof fn lemma_members_text_next(members: Set<int>, done: int, x: int)
    requires
        0 <= done <= x,
        members.contains(x),
        forall|y: int| done <= y < x ==> !members.contains(y),
    ensures
        members_text(members, 0, x + 1) == members_text(members, 0, done) + decimal_digits(x as nat)
            + seq![32u8],
{
    lemma_members_text_split(members, 0, done, x + 1);
    lemma_members_text_split(members, done, x, x + 1);
    lemma_members_text_skip(members, done, x);
    let last = decimal_digits(x as nat) + seq![32u8];
    assert(members_text(members, x + 1, x + 1) == Seq::<u8>::empty());
    assert(members_text(members, x, x + 1) =~= last) by {
        assert(last + Seq::<u8>::empty() =~= last);
    }
    assert(members_text(members, 0, done) + (Seq::<u8>::empty() + last) =~= members_text(
        members,
        0,
        done,
    ) + decimal_digits(x as nat) + seq![32u8]);
}

/// Whether position `i` of the word `bits` holds a one. Positions outside
/// `0..128` never do.
pub open spec fn bit_is_set(bits: u128, i: int) -> bool {
    0 <= i < 128 && (bits >> (i as u128)) & 1u128 == 1u128
}

/// The members encoded by a word: the positions of its one bits.
pub open spec fn word_members(bits: u128) -> Set<int> {
    Set::new(|i: int| bit_is_set(bits, i))
}

/// A set of numbers below 128, one bit per possible member.
#[derive(Debug, Clone, Copy, Eq, PartialEq, Hash, PartialOrd, Ord)]
pub struct BitSet(u128);

/// Walks the members of a [`BitSet`] in increasing order.
#[derive(Debug, Clone)]
pub struct BitSetIter {
    bits: BitSet,
    counter: usize,
}

/// Common interface of the bit sets of this module.
///
/// `members` is the mathematical set a value stands for; `capacity` bounds
/// the members the value can hold in its current size.
pub trait BitSetFns<'a>: Sized {
    type Element;

    type Iter;

    /// Representation invariant.
    spec fn wf(&self) -> bool;

    /// The set this value stands for.
    spec fn members(&self) -> Set<int>;

    /// Every member is below this bound.
    spec fn capacity(&self) -> int;

    /// The number an element denotes.
    spec fn element_value(i: Self::Element) -> int;

    /// The elements the set accepts.
    spec fn valid_element(i: Self::Element) -> bool;

    fn new() -> (s: Self)
        ensures
            s.wf(),
            s.members() == Set::<int>::empty(),
    ;

    fn add(&mut self, i: Self::Element)
        requires
            old(self).wf(),
            Self::valid_element(i),
        ensures
            final(self).wf(),
            final(self).members() == old(self).members().insert(Self::element_value(i)),
    ;

    fn contains(&self, i: Self::Element) -> (b: bool)
        requires
            self.wf(),
            Self::valid_element(i),
        ensures
            b == self.members().contains(Self::element_value(i)),
    ;

    fn remove(&mut self, i: Self::Element)
        requires
            old(self).wf(),
            Self::valid_element(i),
        ensures
            final(self).wf(),
            final(self).members() == old(self).members().remove(Self::element_value(i)),
            final(self).capacity() == old(self).capacity(),
    ;

    fn is_empty(&self) -> (b: bool)
        requires
            self.wf(),
        ensures
            b == (self.members() == Set::<int>::empty()),
    ;

    /// What both operands can hold, of what either holds.
    fn union(&self, other: &Self) -> (r: Self)
        requires
            self.wf(),
            other.wf(),
        ensures
            r.wf(),
            r.capacity() == spec_min(self.capacity(), other.capacity()),
            r.members() == Set::new(
                |x: int|
                    x < spec_min(self.capacity(), other.capacity()) && (self.members().contains(x)
                        || other.members().contains(x)),
            ),
    ;

    fn intersect(&self, other: &Self) -> (r: Self)
        requires
            self.wf(),
            other.wf(),
        ensures
            r.wf(),
            r.capacity() == spec_min(self.capacity(), other.capacity()),
            r.members() == self.members().intersect(other.members()),
    ;

    /// Representation invariant of an iterator over such a set.
    spec fn iter_wf(it: &Self::Iter) -> bool;

    /// The members an iterator has still to hand out.
    spec fn iter_remaining(it: &Self::Iter) -> Set<int>;

    /// An iterator over all members, smallest first.
    fn iter(&'a self) -> (it: Self::Iter)
        requires
            self.wf(),
        ensures
            Self::iter_wf(&it),
            Self::iter_remaining(&it) == self.members(),
    ;

    /// The members as a line of text, for printing: each in decimal with
    /// a space behind it, the smallest first, and a line feed at the end.
    fn print(&'a self) -> (line: Vec<u8>)
        requires
            self.wf(),
        ensures
            line@ == members_line(self.members(), self.capacity()),
    ;

    /// No member reaches the capacity.
    proof fn lemma_members_below_capacity(&self)
        requires
            self.wf(),
        ensures
            forall|x: int| self.members().contains(x) ==> 0 <= x < self.capacity(),
    ;
}

/// The smaller of two integers.
pub open spec fn spec_min(a: int, b: int) -> int {
    if a <= b {
        a
    } else {
        b
    }
}

impl BitSet {
    /// The underlying word.
    pub closed spec fn bits(&self) -> u128 {
        self.0
    }
}

impl View for BitSet {
    type V = Set<int>;

    open spec fn view(&self) -> Set<int> {
        word_members(self.bits())
    }
}

proof fn lemma_set_bit(bits: u128, s: u128)
    by (bit_vector)
    requires
        s < 128,
    ensures
        forall|j: u128| j < 128 ==> (#[trigger] ((bits | (1u128 << s)) >> j) & 1u128 == 1u128 <==> (j == s || (bits >> j) & 1u128 == 1u128)),
{
}

impl<'a> BitSetFns<'a> for BitSet {
    type Element = u8;

    type Iter = BitSetIter;

    open spec fn wf(&self) -> bool {
        true
    }

    open spec fn members(&self) -> Set<int> {
        self@
    }

    open spec fn capacity(&self) -> int {
        128
    }

    open spec fn element_value(i: u8) -> int {
        i as int
    }

    open spec fn valid_element(i: u8) -> bool {
        i < 128
    }

    fn new() -> (s: Self) {
        let s = Self(0);
        proof {
            assert forall|i: int| !bit_is_set(0u128, i) by {
                if 0 <= i < 128 {
                    let j: u128 = i as u128;
                    assert((0u128 >> j) & 1u128 == 0u128) by (bit_vector);
                }
            }
            assert(s@ =~= Set::<int>::empty());
        }
        s
    }

    fn add(&mut self, i: u8) {
        let shift: u128 = i as u128;
        proof {
            lemma_set_bit(self.0, shift);
        }
        self.0 = self.0 | (1u128 << shift);
        proof {
            assert forall|k: int| final(self)@.contains(k) == old(self)@.insert(i as int).contains(k) by {
                if 0 <= k < 128 {
                    let j: u128 = k as u128;
                    assert(j < 128);
                }
            }
            assert(self@ =~= old(self)@.insert(i as int));
        }
    }

    fn contains(&self, i: u8) -> (b: bool) {
        let shift: u128 = i as u128;
        let mask: u128 = 1u128 << shift;
        proof {
            let w: u128 = self.0;
            assert((w & (1u128 << shift) != 0u128) == ((w >> shift) & 1u128 == 1u128)) by (bit_vector)
                requires
                    shift < 128,
            ;
        }
        self.0 & mask != 0
    }

    fn remove(&mut self, i: u8) {
        let shift: u128 = i as u128;
        let mask: u128 = u128::MAX - (1u128 << shift);
        self.0 = self.0 & mask;
        proof {
            let w: u128 = old(self).0;
            assert(forall|j: u128| j < 128 ==> (#[trigger] ((w & mask) >> j) & 1u128 == 1u128 <==> (j != shift && (w >> j) & 1u128 == 1u128))) by (bit_vector)
                requires
                    shift < 128,
                    mask == u128::MAX - (1u128 << shift),
            ;
            assert forall|k: int| self@.contains(k) == old(self)@.remove(i as int).contains(k) by {
                if 0 <= k < 128 {
                    let j: u128 = k as u128;
                    assert(j < 128);
                }
            }
            assert(self@ =~= old(self)@.remove(i as int));
        }
    }

    fn union(&self, other: &Self) -> (r: Self)
        ensures
            r@ == self@.union(other@),
            r.bits() == self.bits() | other.bits(),
    {
        let r = Self(self.0 | other.0);
        proof {
            let a: u128 = self.0;
            let b: u128 = other.0;
            assert(forall|j: u128| j < 128 ==> (#[trigger] ((a | b) >> j) & 1u128 == 1u128 <==> ((a >> j) & 1u128 == 1u128 || (b >> j) & 1u128 == 1u128))) by (bit_vector);
            assert forall|k: int| r@.contains(k) == self@.union(other@).contains(k) by {
                if 0 <= k < 128 {
                    let j: u128 = k as u128;
                    assert(j < 128);
                }
            }
            assert(r@ =~= self@.union(other@));
            assert(r.members() =~= Set::new(
                |x: int| x < spec_min(128, 128) && (self.members().contains(x) || other.members().contains(x)),
            ));
        }
        r
    }

    fn intersect(&self, other: &Self) -> (r: Self)
        ensures
            r.bits() == self.bits() & other.bits(),
    {
        let r = Self(self.0 & other.0);
        proof {
            let a: u128 = self.0;
            let b: u128 = other.0;
            assert(forall|j: u128| j < 128 ==> (#[trigger] ((a & b) >> j) & 1u128 == 1u128 <==> ((a >> j) & 1u128 == 1u128 && (b >> j) & 1u128 == 1u128))) by (bit_vector);
            assert forall|k: int| r@.contains(k) == self@.intersect(other@).contains(k) by {
                if 0 <= k < 128 {
                    let j: u128 = k as u128;
                    assert(j < 128);
                }
            }
            assert(r@ =~= self@.intersect(other@));
        }
        r
    }

    open spec fn iter_wf(it: &BitSetIter) -> bool {
        it.wf()
    }

    open spec fn iter_remaining(it: &BitSetIter) -> Set<int> {
        it.remaining()
    }

    fn iter(&'a self) -> (it: BitSetIter) {
        BitSetIter::new(*self)
    }

    fn print(&'a self) -> (line: Vec<u8>) {
        let mut line: Vec<u8> = Vec::new();
        let mut it = self.iter();
        let ghost members = self@;
        let ghost mut done: int = 0;
        loop
            invariant
                it.wf(),
                members == self@,
                0 <= done <= 128,
                line@ == members_text(members, 0, done),
                forall|x: int| it.remaining().contains(x) <==> members.contains(x) && x >= done,
            ensures
                line@ == members_text(members, 0, 128),
            decreases 128 - done,
        {
            let ghost before = it;
            match it.next() {
                None => {
                    proof {
                        assert forall|x: int| done <= x < 128 implies !members.contains(x) by {
                            assert(!before.remaining().contains(x));
                        }
                        lemma_members_text_split(members, 0, done, 128);
                        lemma_members_text_skip(members, done, 128);
                        assert(line@ + Seq::<u8>::empty() =~= line@);
                    }
                    break ;
                },
                Some(x) => {
                    proof {
                        before.lemma_remaining_bounded();
                        assert(before.remaining().contains(x as int));
                        assert(members.contains(x as int));
                        assert forall|y: int| done <= y < x implies !members.contains(y) by {
                            if members.contains(y) {
                                assert(before.remaining().contains(y));
                            }
                        }
                        lemma_members_text_next(members, done, x as int);
                    }
                    push_digits(&mut line, x as u64);
                    line.push(32);
                    proof {
                        done = x + 1;
                    }
                },
            }
        }
        line.push(10);
        line
    }

    proof fn lemma_members_below_capacity(&self) {
    }

    fn is_empty(&self) -> (b: bool) {
        proof {
            let w: u128 = self.0;
            if w == 0 {
                assert forall|k: int| !bit_is_set(w, k) by {
                    if 0 <= k < 128 {
                        let j: u128 = k as u128;
                        assert((0u128 >> j) & 1u128 == 0u128) by (bit_vector);
                    }
                }
                assert(self@ =~= Set::<int>::empty());
            } else {
                assert((w >> 0u128) != 0) by (bit_vector)
                    requires
                        w != 0,
                ;
                let j = lemma_lowest_bit_from(w, 0);
                assert(bit_is_set(w, j as int));
                assert(self@.contains(j as int));
            }
        }
        self.0 == 0
    }
}

impl BitSet {
    /// The set a word stands for.
    pub closed spec fn of_bits(bits: u128) -> BitSet {
        BitSet(bits)
    }

    /// `of_bits` keeps the word as it is.
    pub broadcast proof fn lemma_of_bits(bits: u128)
        ensures
            (#[trigger] BitSet::of_bits(bits)).bits() == bits,
    {
    }

    /// An iterator over all members, smallest first.
    pub fn into_iter(&self) -> (it: BitSetIter)
        ensures
            it.wf(),
            it.remaining() == self@,
    {
        BitSetIter::new(*self)
    }
}

impl From<u128> for BitSet {
    fn from(source: u128) -> (r: Self) {
        Self(source)
    }
}

impl vstd::std_specs::convert::FromSpecImpl<u128> for BitSet {
    open spec fn obeys_from_spec() -> bool {
        true
    }

    open spec fn from_spec(source: u128) -> Self {
        BitSet::of_bits(source)
    }
}

impl std::ops::Sub<BitSet> for BitSet {
    type Output = BitSet;

    fn sub(self, rhs: BitSet) -> (r: BitSet) {
        Self(self.0 - rhs.0)
    }
}

impl vstd::std_specs::ops::SubSpecImpl<BitSet> for BitSet {
    open spec fn obeys_sub_spec() -> bool {
        true
    }

    open spec fn sub_req(self, rhs: BitSet) -> bool {
        rhs.bits() <= self.bits()
    }

    open spec fn sub_spec(self, rhs: BitSet) -> BitSet {
        BitSet::of_bits((self.bits() - rhs.bits()) as u128)
    }
}

impl std::ops::Add<BitSet> for BitSet {
    type Output = BitSet;

    fn add(self, rhs: BitSet) -> (r: BitSet) {
        Self(self.0 + rhs.0)
    }
}

impl vstd::std_specs::ops::AddSpecImpl<BitSet> for BitSet {
    open spec fn obeys_add_spec() -> bool {
        true
    }

    open spec fn add_req(self, rhs: BitSet) -> bool {
        self.bits() + rhs.bits() <= u128::MAX
    }

    open spec fn add_spec(self, rhs: BitSet) -> BitSet {
        BitSet::of_bits((self.bits() + rhs.bits()) as u128)
    }
}

/// Subtracting a subset removes its members.
pub proof fn lemma_sub_of_subset(a: BitSet, b: BitSet)
    requires
        b@.subset_of(a@),
    ensures
        b.bits() <= a.bits(),
        BitSet::of_bits((a.bits() - b.bits()) as u128)@ == a@.difference(b@),
{
    let x: u128 = a.bits();
    let y: u128 = b.bits();
    assert forall|j: u128| j < 128 && (#[trigger] (y >> j)) & 1u128 == 1u128 implies (x >> j) & 1u128
        == 1u128 by {
        if (y >> j) & 1u128 == 1u128 {
            assert(bit_is_set(y, j as int));
            assert(b@.contains(j as int));
            assert(a@.contains(j as int));
        }
    }
    lemma_bits_subset(x, y);
    let d: u128 = (x - y) as u128;
    BitSet::lemma_of_bits(d);
    lemma_sub_bits(x, y);
    assert forall|k: int| BitSet::of_bits(d)@.contains(k) == a@.difference(b@).contains(k) by {
        if 0 <= k < 128 {
            let j: u128 = k as u128;
            assert(j < 128);
        }
    }
    assert(BitSet::of_bits(d)@ =~= a@.difference(b@));
}

/// Adding a disjoint set joins the members.
pub proof fn lemma_add_of_disjoint(a: BitSet, b: BitSet)
    requires
        a@.disjoint(b@),
    ensures
        a.bits() + b.bits() <= u128::MAX,
        BitSet::of_bits((a.bits() + b.bits()) as u128)@ == a@.union(b@),
{
    let x: u128 = a.bits();
    let y: u128 = b.bits();
    assert forall|j: u128| j < 128 implies !((#[trigger] (x >> j)) & 1u128 == 1u128 && (y >> j) & 1u128
        == 1u128) by {
        if (x >> j) & 1u128 == 1u128 && (y >> j) & 1u128 == 1u128 {
            assert(bit_is_set(x, j as int));
            assert(bit_is_set(y, j as int));
            assert(a@.contains(j as int) && b@.contains(j as int));
        }
    }
    lemma_bits_disjoint(x, y);
    lemma_add_bits(x, y);
    let d: u128 = (x + y) as u128;
    BitSet::lemma_of_bits(d);
    assert forall|k: int| BitSet::of_bits(d)@.contains(k) == a@.union(b@).contains(k) by {
        if 0 <= k < 128 {
            let j: u128 = k as u128;
            assert(j < 128);
        }
    }
    assert(BitSet::of_bits(d)@ =~= a@.union(b@));
}

/// Bitwise containment, from containment at every position.
proof fn lemma_bits_subset(x: u128, y: u128)
    requires
        forall|j: u128| j < 128 && (#[trigger] (y >> j)) & 1u128 == 1u128 ==> (x >> j) & 1u128 == 1u128,
    ensures
        y & !x == 0,
{
    let z: u128 = y & !x;
    if z != 0 {
        assert((z >> 0u128) != 0) by (bit_vector)
            requires
                z != 0,
        ;
        let j = lemma_lowest_bit_from(z, 0);
        assert((y >> j) & 1u128 == 1u128 && (x >> j) & 1u128 != 1u128) by (bit_vector)
            requires
                z == y & !x,
                j < 128,
                (z >> j) & 1u128 == 1u128,
        ;
    }
}

/// Bitwise disjointness, from disjointness at every position.
proof fn lemma_bits_disjoint(x: u128, y: u128)
    requires
        forall|j: u128| j < 128 ==> !((#[trigger] (x >> j)) & 1u128 == 1u128 && (y >> j) & 1u128 == 1u128),
    ensures
        x & y == 0,
{
    let z: u128 = x & y;
    if z != 0 {
        assert((z >> 0u128) != 0) by (bit_vector)
            requires
                z != 0,
        ;
        let j = lemma_lowest_bit_from(z, 0);
        assert((y >> j) & 1u128 == 1u128 && (x >> j) & 1u128 == 1u128) by (bit_vector)
            requires
                z == x & y,
                j < 128,
                (z >> j) & 1u128 == 1u128,
        ;
    }
}

proof fn lemma_sub_bits(x: u128, y: u128)
    by (bit_vector)
    requires
        y & !x == 0,
    ensures
        y <= x,
        forall|j: u128| j < 128 ==> ((#[trigger] (((x - y) as u128) >> j)) & 1u128 == 1u128 <==> ((x >> j) & 1u128 == 1u128 && (y >> j) & 1u128 != 1u128)),
{
}

proof fn lemma_add_bits(x: u128, y: u128)
    by (bit_vector)
    requires
        x & y == 0,
    ensures
        x + y <= u128::MAX,
        forall|j: u128| j < 128 ==> ((#[trigger] (((x + y) as u128) >> j)) & 1u128 == 1u128 <==> ((x >> j) & 1u128 == 1u128 || (y >> j) & 1u128 == 1u128)),
{
}

impl BitSetIter {
    /// No pending bit would count past the word size.
    pub closed spec fn wf(&self) -> bool {
        &&& self.counter <= 128
        &&& forall|i: int| bit_is_set(self.bits.0, i) ==> self.counter + i < 128
    }

    /// The members still to be handed out.
    pub closed spec fn remaining(&self) -> Set<int> {
        Set::new(|x: int| bit_is_set(self.bits.0, x - self.counter))
    }

    pub fn new(bits: BitSet) -> (it: Self)
        ensures
            it.wf(),
            it.remaining() == bits@,
    {
        let it = Self { bits, counter: 0 };
        assert(it.remaining() =~= bits@);
        it
    }

    /// What is left is below 128.
    pub proof fn lemma_remaining_bounded(&self)
        requires
            self.wf(),
        ensures
            forall|x: int| self.remaining().contains(x) ==> 0 <= x < 128,
    {
    }

    /// Hands out the smallest member not yet seen, if any is left.
    pub fn next(&mut self) -> (r: Option<usize>)
        requires
            old(self).wf(),
        ensures
            final(self).wf(),
            match r {
                None => old(self).remaining() == Set::<int>::empty() && final(self).remaining()
                    == Set::<int>::empty(),
                Some(x) => {
                    &&& old(self).remaining().contains(x as int)
                    &&& forall|y: int| old(self).remaining().contains(y) ==> x <= y
                    &&& final(self).remaining() == old(self).remaining().remove(x as int)
                },
            },
    {
        let mut res: Option<usize> = None;
        while self.bits.0 > 0
            invariant_except_break
                res is None,
                self.remaining() == old(self).remaining(),
            invariant
                self.wf(),
            ensures
                match res {
                    None => self.bits.0 == 0 && self.remaining() == old(self).remaining(),
                    Some(x) => {
                        &&& old(self).remaining().contains(x as int)
                        &&& forall|y: int| old(self).remaining().contains(y) ==> x <= y
                        &&& self.remaining() == old(self).remaining().remove(x as int)
                    },
                },
            decreases self.bits.0,
        {
            let ghost before = *self;
            let w: u128 = self.bits.0;
            proof {
                assert((w >> 0u128) != 0) by (bit_vector)
                    requires
                        w != 0,
                ;
                let j = lemma_lowest_bit_from(w, 0);
                assert(bit_is_set(w, j as int));
                lemma_halve(w);
            }
            if w % 2 == 1 {
                res = Some(self.counter);
            }
            self.bits.0 = w / 2;
            self.counter = self.counter + 1;
            proof {
                let c = before.counter as int;
                assert forall|i: int| bit_is_set(self.bits.0, i) implies self.counter + i < 128 by {
                    let j: u128 = i as u128;
                    assert(j < 127);
                    let j1: u128 = (j + 1) as u128;
                    assert(j1 == j + 1);
                    assert(bit_is_set(w, i + 1));
                }
                let gone: Set<int> = if w % 2 == 1 {
                    before.remaining().remove(c)
                } else {
                    before.remaining()
                };
                assert forall|x: int| self.remaining().contains(x) == gone.contains(x) by {
                    let i = x - c - 1;
                    if 0 <= i < 127 {
                        let j: u128 = i as u128;
                        assert(j < 127);
                        let j1: u128 = (j + 1) as u128;
                        assert(j1 == j + 1);
                    } else if i == 127 {
                        let j: u128 = 127;
                        assert(((w / 2) >> j) & 1u128 != 1u128);
                    } else if i == -1 {
                        assert((w % 2 == 1) == bit_is_set(w, 0));
                    }
                }
                assert(self.remaining() =~= gone);
                if w % 2 == 1 {
                    assert(bit_is_set(w, 0));
                    assert(before.remaining().contains(c));
                }
            }
            if res.is_some() {
                break ;
            }
        }
        proof {
            if res is None {
                let w: u128 = self.bits.0;
                assert forall|x: int| !self.remaining().contains(x) by {
                    let i = x - self.counter;
                    if 0 <= i < 128 {
                        let j: u128 = i as u128;
                        assert((0u128 >> j) & 1u128 == 0u128) by (bit_vector);
                    }
                }
                assert(self.remaining() =~= Set::<int>::empty());
            }
        }
        res
    }
}

/// Halving a word moves every one a position down and drops the lowest.
proof fn lemma_halve(w: u128)
    by (bit_vector)
    ensures
        forall|j: u128| j < 127 ==> (#[trigger] ((w / 2) >> j)) & 1u128 == (w >> ((j + 1) as u128)) & 1u128,
        ((w / 2) >> 127u128) & 1u128 != 1u128,
        (w % 2 == 1) == ((w >> 0u128) & 1u128 == 1u128),
        w != 0 ==> w / 2 < w,
{
}

/// Most words a [`GrowingBitSet`] ever needs: enough for every `u32`.
pub const MAX_WORDS: usize = 0x200_0000;

/// A set of `u32` numbers that grows, a word of 128 bits at a time, to hold
/// the largest member added so far.
#[derive(Debug, Clone, PartialEq, Eq)]
pub struct GrowingBitSet(Vec<BitSet>);

/// Walks the members of a [`GrowingBitSet`] in increasing order.
#[derive(Debug, Clone)]
pub struct GrowingBitSetIter<'a> {
    set: &'a GrowingBitSet,
    index: usize,
    iter: BitSetIter,
}

impl View for GrowingBitSet {
    type V = Set<int>;

    open spec fn view(&self) -> Set<int> {
        Set::new(
            |x: int| 0 <= x < 128 * self.word_count() && self.word(x / 128)@.contains(x % 128),
        )
    }
}

impl GrowingBitSet {
    /// Number of words in use.
    pub closed spec fn word_count(&self) -> nat {
        self.0@.len()
    }

    /// The `k`-th word, holding the members from `128 * k` on.
    pub closed spec fn word(&self, k: int) -> BitSet {
        self.0@[k]
    }

    /// Splits an element into the word that holds it and its place there.
    pub fn element_into_index_and_val(i: u32) -> (r: (usize, u8))
        ensures
            r.0 == i / 128,
            r.1 == i % 128,
            r.0 < MAX_WORDS,
            r.1 < 128,
    {
        let index: usize = (i / 128) as usize;
        let val: u8 = (i % 128) as u8;
        (index, val)
    }

    /// The member that sits at place `val` of word `index`.
    pub fn index_and_val_into_usize(index: usize, val: u8) -> (r: usize)
        requires
            128 * index + val <= usize::MAX,
        ensures
            r == 128 * index + val,
    {
        128 * index + val as usize
    }

    /// Adds empty words until word `index` exists.
    pub fn grow_if_necessary(&mut self, index: usize)
        requires
            old(self).wf(),
            index < MAX_WORDS,
        ensures
            final(self).wf(),
            final(self)@ == old(self)@,
            final(self).word_count() == if index < old(self).word_count() {
                old(self).word_count()
            } else {
                (index + 1) as nat
            },
            forall|k: int| 0 <= k < old(self).word_count() ==> final(self).word(k) == old(self).word(k),
            forall|k: int|
                old(self).word_count() <= k < final(self).word_count() ==> (#[trigger] final(self).word(
                    k,
                ))@ == Set::<int>::empty(),
    {
        if !self.has_index(index) {
            let ghost before = self.0@;
            let empty = BitSet::new();
            self.0.resize(index + 1, empty);
            proof {
                assert(self.0@.subrange(0, before.len() as int) == before);
                assert forall|k: int| 0 <= k < before.len() implies self.0@[k] == before[k] by {
                    assert(self.0@.subrange(0, before.len() as int)[k] == self.0@[k]);
                }
                assert forall|k: int| before.len() <= k < self.0@.len() implies (#[trigger] self.0@[k])@
                    == Set::<int>::empty() by {
                    assert(cloned::<BitSet>(empty, self.0@[k]));
                }
                assert forall|x: int| self@.contains(x) == old(self)@.contains(x) by {
                    let k = x / 128;
                    if 0 <= x < 128 * self.0@.len() && k >= before.len() {
                        assert(self.0@[k]@ == Set::<int>::empty());
                    }
                }
                assert(self@ =~= old(self)@);
            }
        }
    }

    /// Whether word `index` exists.
    pub fn has_index(&self, index: usize) -> (b: bool)
        ensures
            b == (index < self.word_count()),
    {
        self.0.len() > index
    }

    /// An iterator over all members, smallest first.
    pub fn into_iter(&self) -> (it: GrowingBitSetIter<'_>)
        requires
            self.wf(),
        ensures
            it.wf(),
            it.remaining() == self@,
    {
        let it = GrowingBitSetIter { set: self, index: 0, iter: self.0[0].iter() };
        proof {
            assert forall|x: int| it.remaining().contains(x) == self@.contains(x) by {
                it.iter.lemma_remaining_bounded();
            }
            assert(it.remaining() =~= self@);
        }
        it
    }
}

impl<'a> BitSetFns<'a> for GrowingBitSet {
    type Element = u32;

    type Iter = GrowingBitSetIter<'a>;

    open spec fn wf(&self) -> bool {
        1 <= self.word_count() <= MAX_WORDS
    }

    open spec fn members(&self) -> Set<int> {
        self@
    }

    open spec fn capacity(&self) -> int {
        128 * (self.word_count() as int)
    }

    open spec fn element_value(i: u32) -> int {
        i as int
    }

    open spec fn valid_element(i: u32) -> bool {
        true
    }

    fn new() -> (s: Self)
        ensures
            s.word_count() == 2,
    {
        let mut words: Vec<BitSet> = Vec::new();
        words.push(BitSet::new());
        words.push(BitSet::new());
        let s = Self(words);
        assert(s@ =~= Set::<int>::empty());
        s
    }

    fn add(&mut self, i: u32)
        ensures
            final(self).word_count() == if i / 128 < old(self).word_count() {
                old(self).word_count()
            } else {
                (i / 128 + 1) as nat
            },
    {
        let (index, val) = Self::element_into_index_and_val(i);
        self.grow_if_necessary(index);
        let ghost grown = *self;
        let mut word = self.0[index];
        word.add(val);
        self.0[index] = word;
        proof {
            assert forall|x: int| self@.contains(x) == old(self)@.insert(i as int).contains(x) by {
                if 0 <= x < 128 * self.0@.len() {
                    if x / 128 == index {
                        assert(self.0@[x / 128]@ == grown.0@[x / 128]@.insert(val as int));
                    } else {
                        assert(self.0@[x / 128] == grown.0@[x / 128]);
                    }
                }
            }
            assert(self@ =~= old(self)@.insert(i as int));
        }
    }

    fn contains(&self, i: u32) -> (b: bool) {
        let (index, val) = Self::element_into_index_and_val(i);
        if !self.has_index(index) {
            return false;
        }
        self.0[index].contains(val)
    }

    fn remove(&mut self, i: u32)
        ensures
            final(self).word_count() == old(self).word_count(),
    {
        let (index, val) = Self::element_into_index_and_val(i);
        if !self.has_index(index) {
            assert(self@ =~= old(self)@.remove(i as int));
            return ;
        }
        let mut word = self.0[index];
        word.remove(val);
        self.0[index] = word;
        proof {
            assert forall|x: int| self@.contains(x) == old(self)@.remove(i as int).contains(x) by {
                if 0 <= x < 128 * self.0@.len() {
                    if x / 128 == index {
                        assert(self.0@[x / 128]@ == old(self).0@[x / 128]@.remove(val as int));
                    } else {
                        assert(self.0@[x / 128] == old(self).0@[x / 128]);
                    }
                }
            }
            assert(self@ =~= old(self)@.remove(i as int));
        }
    }

    fn is_empty(&self) -> (b: bool) {
        let mut k: usize = 0;
        while k < self.0.len()
            invariant
                k <= self.0.len(),
                forall|j: int| 0 <= j < k ==> (#[trigger] self.0@[j])@ == Set::<int>::empty(),
            decreases self.0.len() - k,
        {
            if !self.0[k].is_empty() {
                proof {
                    let w = self.0@[k as int]@;
                    if forall|y: int| !w.contains(y) {
                        assert(w =~= Set::<int>::empty());
                    }
                    let y = choose|y: int| w.contains(y);
                    assert(self@.contains(128 * k + y));
                }
                return false;
            }
            k += 1;
        }
        proof {
            assert forall|x: int| !self@.contains(x) by {
                if 0 <= x < 128 * self.0@.len() {
                    assert(self.0@[x / 128]@ == Set::<int>::empty());
                }
            }
            assert(self@ =~= Set::<int>::empty());
        }
        true
    }

    fn union(&self, other: &Self) -> (r: Self) {
        let n: usize = if self.0.len() <= other.0.len() {
            self.0.len()
        } else {
            other.0.len()
        };
        let mut words: Vec<BitSet> = Vec::with_capacity(n);
        let mut k: usize = 0;
        while k < n
            invariant
                k <= n,
                n <= self.0@.len(),
                n <= other.0@.len(),
                words@.len() == k,
                forall|j: int| 0 <= j < k ==> (#[trigger] words@[j])@ == self.0@[j]@.union(other.0@[j]@),
            decreases n - k,
        {
            words.push(self.0[k].union(&other.0[k]));
            k += 1;
        }
        let r = Self(words);
        proof {
            let expected = Set::new(
                |x: int|
                    x < spec_min(self.capacity(), other.capacity()) && (self.members().contains(x)
                        || other.members().contains(x)),
            );
            assert forall|x: int| r@.contains(x) == expected.contains(x) by {
                if 0 <= x < 128 * n {
                    assert(r.0@[x / 128]@ == self.0@[x / 128]@.union(other.0@[x / 128]@));
                }
            }
            assert(r@ =~= expected);
        }
        r
    }

    fn intersect(&self, other: &Self) -> (r: Self) {
        let n: usize = if self.0.len() <= other.0.len() {
            self.0.len()
        } else {
            other.0.len()
        };
        let mut words: Vec<BitSet> = Vec::with_capacity(n);
        let mut k: usize = 0;
        while k < n
            invariant
                k <= n,
                n <= self.0@.len(),
                n <= other.0@.len(),
                words@.len() == k,
                forall|j: int|
                    0 <= j < k ==> (#[trigger] words@[j])@ == self.0@[j]@.intersect(other.0@[j]@),
            decreases n - k,
        {
            words.push(self.0[k].intersect(&other.0[k]));
            k += 1;
        }
        let r = Self(words);
        proof {
            assert forall|x: int| r@.contains(x) == self@.intersect(other@).contains(x) by {
                if 0 <= x < 128 * n {
                    assert(r.0@[x / 128]@ == self.0@[x / 128]@.intersect(other.0@[x / 128]@));
                }
            }
            assert(r@ =~= self@.intersect(other@));
        }
        r
    }

    open spec fn iter_wf(it: &GrowingBitSetIter<'a>) -> bool {
        it.wf()
    }

    open spec fn iter_remaining(it: &GrowingBitSetIter<'a>) -> Set<int> {
        it.remaining()
    }

    fn iter(&'a self) -> (it: GrowingBitSetIter<'a>) {
        self.into_iter()
    }

    fn print(&'a self) -> (line: Vec<u8>) {
        let mut line: Vec<u8> = Vec::new();
        let mut it = self.iter();
        let ghost members = self@;
        let ghost capacity = self.capacity();
        let ghost mut done: int = 0;
        loop
            invariant
                it.wf(),
                members == self@,
                capacity == self.capacity(),
                0 <= done <= capacity,
                line@ == members_text(members, 0, done),
                forall|x: int| it.remaining().contains(x) <==> members.contains(x) && x >= done,
            ensures
                line@ == members_text(members, 0, capacity),
            decreases capacity - done,
        {
            let ghost before = it;
            match it.next() {
                None => {
                    proof {
                        assert forall|x: int| done <= x < capacity implies !members.contains(x) by {
                            assert(!before.remaining().contains(x));
                        }
                        lemma_members_text_split(members, 0, done, capacity);
                        lemma_members_text_skip(members, done, capacity);
                        assert(line@ + Seq::<u8>::empty() =~= line@);
                    }
                    break ;
                },
                Some(x) => {
                    proof {
                        assert(members.contains(x as int));
                        assert forall|y: int| done <= y < x implies !members.contains(y) by {
                            if members.contains(y) {
                                assert(before.remaining().contains(y));
                            }
                        }
                        lemma_members_text_next(members, done, x as int);
                    }
                    push_digits(&mut line, x as u64);
                    line.push(32);
                    proof {
                        done = x + 1;
                    }
                },
            }
        }
        line.push(10);
        line
    }

    proof fn lemma_members_below_capacity(&self) {
    }
}

impl<'a> GrowingBitSetIter<'a> {
    /// The set is well formed and the word iterator belongs to the current word.
    pub closed spec fn wf(&self) -> bool {
        &&& self.set.wf()
        &&& self.index <= self.set.word_count()
        &&& self.iter.wf()
    }

    /// The members still to be handed out.
    pub closed spec fn remaining(&self) -> Set<int> {
        Set::new(
            |x: int|
                self.index < self.set.word_count() && (if x / 128 == self.index {
                    self.iter.remaining().contains(x % 128)
                } else {
                    x / 128 > self.index && self.set@.contains(x)
                }),
        )
    }

    /// Hands out the smallest member not yet seen, if any is left.
    pub fn next(&mut self) -> (r: Option<usize>)
        requires
            old(self).wf(),
        ensures
            final(self).wf(),
            match r {
                None => old(self).remaining() == Set::<int>::empty() && final(self).remaining()
                    == Set::<int>::empty(),
                Some(x) => {
                    &&& old(self).remaining().contains(x as int)
                    &&& forall|y: int| old(self).remaining().contains(y) ==> x <= y
                    &&& final(self).remaining() == old(self).remaining().remove(x as int)
                },
            },
    {
        loop
            invariant
                self.wf(),
                self.set == old(self).set,
                self.remaining() == old(self).remaining(),
            decreases self.set.word_count() - self.index,
        {
            if !self.set.has_index(self.index) {
                assert(self.remaining() =~= Set::<int>::empty());
                return None;
            }
            let ghost before = *self;
            let found = self.iter.next();
            if let Some(val) = found {
                proof {
                    before.iter.lemma_remaining_bounded();
                }
                let x = GrowingBitSet::index_and_val_into_usize(self.index, val as u8);
                proof {
                    assert(x / 128 == self.index && x % 128 == val);
                    assert(before.remaining().contains(x as int));
                    assert forall|y: int| before.remaining().contains(y) implies x <= y by {
                        if y / 128 == self.index {
                            assert(before.iter.remaining().contains(y % 128));
                        }
                    }
                    assert(self.remaining() =~= before.remaining().remove(x as int));
                }
                return Some(x);
            }
            self.index = self.index + 1;
            if self.set.has_index(self.index) {
                self.iter = self.set.0[self.index].iter();
            }
            proof {
                assert forall|x: int| self.remaining().contains(x) == before.remaining().contains(x) by {
                    self.iter.lemma_remaining_bounded();
                    before.iter.lemma_remaining_bounded();
                }
                assert(self.remaining() =~= before.remaining());
            }
        }
    }
}

/// A word with a one at or above position `k` has a lowest such position.
proof fn lemma_lowest_bit_from(w: u128, k: u128) -> (j: u128)
    requires
        k < 128,
        (w >> k) != 0,
    ensures
        k <= j < 128,
        (w >> j) & 1u128 == 1u128,
        forall|i: u128| k <= i < j ==> (#[trigger] (w >> i)) & 1u128 != 1u128,
    decreases 128 - k,
{
    if (w >> k) & 1u128 == 1u128 {
        k
    } else if k == 127 {
        assert((w >> 127u128) & 1u128 == 1u128) by (bit_vector)
            requires
                (w >> 127u128) != 0,
        ;
        k
    } else {
        let k1: u128 = (k + 1) as u128;
        assert((w >> k1) != 0) by (bit_vector)
            requires
                k < 127,
                k1 == k + 1,
                (w >> k) != 0,
                (w >> k) & 1u128 != 1u128,
        ;
        lemma_lowest_bit_from(w, k1)
    }
}

} // verus!
