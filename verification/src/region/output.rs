//! Regions as they are written out.

use crate::utils::text::{decimal, push_decimal, push_digits};
use vstd::prelude::*;

verus! {

/// A constraint `c_0 a_0 + c_1 a_1 + c_2 a_2 <= 0` on the simplex, written
/// for the first two weights alone: with `a_2 = 1 - a_0 - a_1` it reads
/// `(c_0 - c_2) a_0 + (c_1 - c_2) a_1 + c_2 <= 0`.
pub fn lowered_constraint(constraint: &Vec<i32>) -> (lowered: (i64, i64, i64))
    requires
        constraint@.len() >= 3,
    ensures
        lowered.0 == constraint@[0] - constraint@[2],
        lowered.1 == constraint@[1] - constraint@[2],
        lowered.2 == constraint@[2],
{
    let c0: i64 = constraint[0] as i64;
    let c1: i64 = constraint[1] as i64;
    let c2: i64 = constraint[2] as i64;
    (c0 - c2, c1 - c2, c2)
}

/// Lowering a constraint loses nothing: for weights that sum to `unit`, the
/// lowered form has the value of the full one.
pub proof fn lemma_lowered_constraint_agrees(c0: int, c1: int, c2: int, a0: int, a1: int, a2: int, unit: int)
    requires
        a0 + a1 + a2 == unit,
    ensures
        (c0 - c2) * a0 + (c1 - c2) * a1 + c2 * unit == c0 * a0 + c1 * a1 + c2 * a2,
{
    assert((c0 - c2) * a0 + (c1 - c2) * a1 + c2 * unit == c0 * a0 + c1 * a1 + c2 * a2) by (nonlinear_arith)
        requires
            a0 + a1 + a2 == unit,
    ;
}

/// A constraint as it is written out: a space and a number, three times,
/// for the constraint in lowered form.
pub open spec fn constraint_text(c: Seq<i32>) -> Seq<u8> {
    seq![32u8] + decimal(c[0] - c[2]) + seq![32u8] + decimal(c[1] - c[2]) + seq![32u8] + decimal(
        c[2] as int,
    )
}

/// The constraints that meet at a corner, written one after the other.
pub open spec fn corner_text(constraints: Seq<Seq<i32>>) -> Seq<u8>
    decreases constraints.len(),
{
    if constraints.len() == 0 {
        Seq::empty()
    } else {
        corner_text(constraints.drop_last()) + constraint_text(constraints.last())
    }
}

/// The corners of a region, written one after the other.
pub open spec fn corners_text(corners: Seq<Seq<Seq<i32>>>) -> Seq<u8>
    decreases corners.len(),
{
    if corners.len() == 0 {
        Seq::empty()
    } else {
        corners_text(corners.drop_last()) + corner_text(corners.last())
    }
}

/// A region as a line: the number of its corners, then the corners.
pub open spec fn region_text(corners: Seq<Seq<Seq<i32>>>) -> Seq<u8> {
    decimal(corners.len() as int) + corners_text(corners) + seq![10u8]
}

/// Regions, written line by line.
pub open spec fn regions_text(regions: Seq<Seq<Seq<Seq<i32>>>>) -> Seq<u8>
    decreases regions.len(),
{
    if regions.len() == 0 {
        Seq::empty()
    } else {
        regions_text(regions.drop_last()) + region_text(regions.last())
    }
}

/// The file of intersections: the number of regions on a line of its own,
/// then the regions.
pub open spec fn intersections_text(regions: Seq<Seq<Seq<Seq<i32>>>>) -> Seq<u8> {
    decimal(regions.len() as int) + seq![10u8] + regions_text(regions)
}

/// The constraints of a corner as sequences.
pub open spec fn corner_rows(corner: Seq<Vec<i32>>) -> Seq<Seq<i32>> {
    Seq::new(corner.len(), |i: int| corner[i]@)
}

/// The corners of a region as sequences.
pub open spec fn region_rows(region: Seq<Vec<Vec<i32>>>) -> Seq<Seq<Seq<i32>>> {
    Seq::new(region.len(), |i: int| corner_rows(region[i]@))
}

/// Regions as sequences.
pub open spec fn all_rows(regions: Seq<Vec<Vec<Vec<i32>>>>) -> Seq<Seq<Seq<Seq<i32>>>> {
    Seq::new(regions.len(), |i: int| region_rows(regions[i]@))
}

/// Every constraint has three components.
pub open spec fn rows_complete(regions: Seq<Vec<Vec<Vec<i32>>>>) -> bool {
    forall|r: int, c: int, k: int|
        0 <= r < regions.len() && 0 <= c < regions[r]@.len() && 0 <= k < regions[r]@[c]@.len()
            ==> (#[trigger] regions[r]@[c]@[k])@.len() >= 3
}

/// Writes a constraint.
fn push_constraint(out: &mut Vec<u8>, constraint: &Vec<i32>)
    requires
        constraint@.len() >= 3,
    ensures
        final(out)@ == old(out)@ + constraint_text(constraint@),
{
    let (first, second, last) = lowered_constraint(constraint);
    out.push(32);
    push_decimal(out, first);
    out.push(32);
    push_decimal(out, second);
    out.push(32);
    push_decimal(out, last);
    assert(out@ =~= old(out)@ + constraint_text(constraint@));
}

/// Writes the constraints that meet at a corner.
fn push_corner(out: &mut Vec<u8>, corner: &Vec<Vec<i32>>)
    requires
        forall|k: int| 0 <= k < corner@.len() ==> (#[trigger] corner@[k])@.len() >= 3,
    ensures
        final(out)@ == old(out)@ + corner_text(corner_rows(corner@)),
{
    let ghost rows = corner_rows(corner@);
    let mut k: usize = 0;
    assert(rows.subrange(0, 0) =~= Seq::<Seq<i32>>::empty());
    assert(out@ =~= old(out)@ + corner_text(rows.subrange(0, 0)));
    while k < corner.len()
        invariant
            k <= corner@.len(),
            rows == corner_rows(corner@),
            forall|j: int| 0 <= j < corner@.len() ==> (#[trigger] corner@[j])@.len() >= 3,
            out@ == old(out)@ + corner_text(rows.subrange(0, k as int)),
        decreases corner@.len() - k,
    {
        let ghost before = out@;
        push_constraint(out, &corner[k]);
        proof {
            let next = rows.subrange(0, k as int + 1);
            assert(next.drop_last() =~= rows.subrange(0, k as int));
            assert(next.last() == corner@[k as int]@);
            assert(out@ =~= old(out)@ + corner_text(next));
        }
        k += 1;
    }
    assert(rows.subrange(0, corner@.len() as int) =~= rows);
}

/// Writes a region as a line.
fn push_region(out: &mut Vec<u8>, region: &Vec<Vec<Vec<i32>>>)
    requires
        forall|c: int, k: int|
            0 <= c < region@.len() && 0 <= k < region@[c]@.len() ==> (#[trigger] region@[c]@[k])@.len()
                >= 3,
    ensures
        final(out)@ == old(out)@ + region_text(region_rows(region@)),
{
    let ghost rows = region_rows(region@);
    push_digits(out, region.len() as u64);
    let ghost start = out@;
    let mut c: usize = 0;
    assert(rows.subrange(0, 0) =~= Seq::<Seq<Seq<i32>>>::empty());
    assert(out@ =~= start + corners_text(rows.subrange(0, 0)));
    while c < region.len()
        invariant
            c <= region@.len(),
            rows == region_rows(region@),
            forall|a: int, k: int|
                0 <= a < region@.len() && 0 <= k < region@[a]@.len() ==> (
                #[trigger] region@[a]@[k])@.len() >= 3,
            out@ == start + corners_text(rows.subrange(0, c as int)),
        decreases region@.len() - c,
    {
        proof {
            assert forall|k: int| 0 <= k < region@[c as int]@.len() implies (
            #[trigger] region@[c as int]@[k])@.len() >= 3 by {}
        }
        push_corner(out, &region[c]);
        proof {
            let next = rows.subrange(0, c as int + 1);
            assert(next.drop_last() =~= rows.subrange(0, c as int));
            assert(next.last() == corner_rows(region@[c as int]@));
            assert(out@ =~= start + corners_text(next));
        }
        c += 1;
    }
    out.push(10);
    proof {
        assert(rows.subrange(0, region@.len() as int) =~= rows);
        assert(out@ =~= old(out)@ + region_text(rows));
    }
}

/// The text of the file of intersections: for every region what
/// `get_intersections` has given, each constraint in lowered form.
pub fn print_intersections(intersections: &Vec<Vec<Vec<Vec<i32>>>>) -> (content: Vec<u8>)
    requires
        rows_complete(intersections@),
    ensures
        content@ == intersections_text(all_rows(intersections@)),
{
    let ghost rows = all_rows(intersections@);
    let mut content: Vec<u8> = Vec::new();
    push_digits(&mut content, intersections.len() as u64);
    content.push(10);
    let ghost start = content@;
    let mut r: usize = 0;
    assert(rows.subrange(0, 0) =~= Seq::<Seq<Seq<Seq<i32>>>>::empty());
    assert(content@ =~= start + regions_text(rows.subrange(0, 0)));
    while r < intersections.len()
        invariant
            r <= intersections@.len(),
            rows == all_rows(intersections@),
            rows_complete(intersections@),
            content@ == start + regions_text(rows.subrange(0, r as int)),
        decreases intersections@.len() - r,
    {
        proof {
            assert forall|c: int, k: int|
                0 <= c < intersections@[r as int]@.len() && 0 <= k < intersections@[r as int]@[c]@.len() implies (
            #[trigger] intersections@[r as int]@[c]@[k])@.len() >= 3 by {}
        }
        push_region(&mut content, &intersections[r]);
        proof {
            let next = rows.subrange(0, r as int + 1);
            assert(next.drop_last() =~= rows.subrange(0, r as int));
            assert(next.last() == region_rows(intersections@[r as int]@));
            assert(content@ =~= start + regions_text(next));
        }
        r += 1;
    }
    proof {
        assert(rows.subrange(0, intersections@.len() as int) =~= rows);
        assert(Seq::<u8>::empty() + decimal(intersections@.len() as int) =~= decimal(
            intersections@.len() as int,
        ));
        assert(content@ =~= intersections_text(rows));
    }
    content
}

} // verus!
