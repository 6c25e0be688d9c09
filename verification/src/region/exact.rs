//! Where new corners lie, in exact arithmetic.

use vstd::prelude::*;

verus! {

/// The value of a constraint at a point of three components.
pub open spec fn dot3(c: Seq<int>, x: Seq<int>) -> int {
    c[0] * x[0] + c[1] * x[1] + c[2] * x[2]
}

/// Where a new corner is put, in exact arithmetic.
///
/// A cut puts a new corner on the segment between a retained corner `l`
/// and a removed corner `o`, where the new constraint `k` is zero. With
/// `dl` and `d_o` the values of `k` at `l` and at `o`, that point is
/// `(d_o * l - dl * o) / (d_o - dl)`. It lies on the new constraint, and on
/// the constraint `c` of the segment, on which both `l` and `o` lie. If the
/// weights of `l` and of `o` sum up to `unit`, so do those of the point.
pub proof fn lemma_new_corner_on_both_constraints(
    k: Seq<int>,
    c: Seq<int>,
    l: Seq<int>,
    o: Seq<int>,
    unit: int,
)
    requires
        k.len() == 3 && c.len() == 3 && l.len() == 3 && o.len() == 3,
        dot3(c, l) == 0,
        dot3(c, o) == 0,
        l[0] + l[1] + l[2] == unit,
        o[0] + o[1] + o[2] == unit,
    ensures
        ({
            let dl = dot3(k, l);
            let d_o = dot3(k, o);
            let x = seq![d_o * l[0] - dl * o[0], d_o * l[1] - dl * o[1], d_o * l[2] - dl * o[2]];
            &&& dot3(k, x) == 0
            &&& dot3(c, x) == 0
            &&& x[0] + x[1] + x[2] == (d_o - dl) * unit
        }),
{
    let dl = dot3(k, l);
    let d_o = dot3(k, o);
    let x = seq![d_o * l[0] - dl * o[0], d_o * l[1] - dl * o[1], d_o * l[2] - dl * o[2]];
    assert(x[0] == d_o * l[0] - dl * o[0] && x[1] == d_o * l[1] - dl * o[1] && x[2] == d_o * l[2] - dl
        * o[2]);
    lemma_mixed_value(k, l, o, d_o, dl);
    lemma_mixed_value(c, l, o, d_o, dl);
    lemma_commutes(d_o, dl);
    lemma_times_zero(d_o);
    lemma_times_zero(dl);
    let ones = seq![1int, 1int, 1int];
    assert(ones[0] == 1 && ones[1] == 1 && ones[2] == 1);
    lemma_mixed_value(ones, l, o, d_o, dl);
    assert(dot3(ones, l) == unit && dot3(ones, o) == unit);
    assert(dot3(ones, x) == x[0] + x[1] + x[2]);
    lemma_difference_times(d_o, dl, unit);
    assert(dot3(k, x) == d_o * dl - dl * d_o);
    assert(dot3(c, x) == d_o * 0 - dl * 0);
}

/// The value of a constraint at a mix of two points is the mix of its
/// values at the points.
proof fn lemma_mixed_value(c: Seq<int>, l: Seq<int>, o: Seq<int>, a: int, b: int)
    requires
        c.len() == 3 && l.len() == 3 && o.len() == 3,
    ensures
        dot3(c, seq![a * l[0] - b * o[0], a * l[1] - b * o[1], a * l[2] - b * o[2]]) == a * dot3(c, l)
            - b * dot3(c, o),
{
    let x = seq![a * l[0] - b * o[0], a * l[1] - b * o[1], a * l[2] - b * o[2]];
    assert(x[0] == a * l[0] - b * o[0] && x[1] == a * l[1] - b * o[1] && x[2] == a * l[2] - b * o[2]);
    lemma_mixed_term(c[0], a, b, l[0], o[0]);
    lemma_mixed_term(c[1], a, b, l[1], o[1]);
    lemma_mixed_term(c[2], a, b, l[2], o[2]);
    lemma_times_sum(a, c[0] * l[0], c[1] * l[1], c[2] * l[2]);
    lemma_times_sum(b, c[0] * o[0], c[1] * o[1], c[2] * o[2]);
}

proof fn lemma_mixed_term(c: int, a: int, b: int, l: int, o: int)
    by (nonlinear_arith)
    ensures
        c * (a * l - b * o) == a * (c * l) - b * (c * o),
{
}

proof fn lemma_times_sum(d: int, x: int, y: int, z: int)
    by (nonlinear_arith)
    ensures
        d * (x + y + z) == d * x + d * y + d * z,
{
}

proof fn lemma_commutes(a: int, b: int)
    by (nonlinear_arith)
    ensures
        a * b == b * a,
{
}

proof fn lemma_times_zero(a: int)
    by (nonlinear_arith)
    ensures
        a * 0 == 0,
{
}

proof fn lemma_difference_times(a: int, b: int, u: int)
    by (nonlinear_arith)
    ensures
        (a - b) * u == a * u - b * u,
{
}

} // verus!
