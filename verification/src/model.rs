//! The mathematical model: what the symmetric difference of two sequences is,
//! and what the merge assumes of the item order.

use crate::tag::Tag;
use core::cmp::Ordering;
use vstd::prelude::*;
use vstd::std_specs::cmp::OrdSpec;

verus! {

/// Weakly increasing under the order that `cmp` decides.
pub open spec fn sorted<T: Ord>(s: Seq<T>) -> bool {
    forall|i: int, j: int|
        0 <= i < j < s.len() ==> (#[trigger] s[i].cmp_spec(&s[j])) != Ordering::Greater
}

/// Strictly increasing under the order that `cmp` decides: sorted with no
/// internal duplicates.
pub open spec fn sorted_strict<T: Ord>(s: Seq<T>) -> bool {
    forall|i: int, j: int|
        0 <= i < j < s.len() ==> (#[trigger] s[i].cmp_spec(&s[j])) == Ordering::Less
}

/// `cmp` decides a total order that agrees with equality.  Holds of the
/// primitive integer types and of every well-behaved `Ord` implementation.
pub open spec fn cmp_is_total_order<T: Ord>() -> bool {
    &&& forall|x: T, y: T| (#[trigger] x.cmp_spec(&y)) == Ordering::Equal <==> x == y
    &&& forall|x: T, y: T|
        (#[trigger] x.cmp_spec(&y)) == Ordering::Less <==> (#[trigger] y.cmp_spec(&x))
            == Ordering::Greater
    &&& forall|x: T, y: T, z: T|
        (#[trigger] x.cmp_spec(&y)) == Ordering::Less && (#[trigger] y.cmp_spec(&z))
            == Ordering::Less ==> x.cmp_spec(&z) == Ordering::Less
}

/// The symmetric difference of two sequences, as the two-cursor merge
/// produces it: unequal heads emit the smaller one, tagged with its side;
/// equal heads cancel pairwise and emit nothing; an exhausted side lets the
/// other drain.
pub open spec fn sym_diff<T: Ord>(a: Seq<T>, b: Seq<T>) -> Seq<Tag<T>>
    decreases a.len() + b.len(),
{
    if a.len() == 0 && b.len() == 0 {
        Seq::empty()
    } else if b.len() == 0 {
        seq![Tag::Left(a[0])] + sym_diff(a.drop_first(), b)
    } else if a.len() == 0 {
        seq![Tag::Right(b[0])] + sym_diff(a, b.drop_first())
    } else {
        match a[0].cmp_spec(&b[0]) {
            Ordering::Less => seq![Tag::Left(a[0])] + sym_diff(a.drop_first(), b),
            Ordering::Greater => seq![Tag::Right(b[0])] + sym_diff(a, b.drop_first()),
            Ordering::Equal => sym_diff(a.drop_first(), b.drop_first()),
        }
    }
}

/// The untagged items of a symmetric-difference output, in emission order.
pub open spec fn items_of<T>(d: Seq<Tag<T>>) -> Seq<T> {
    d.map_values(|t: Tag<T>| t.item())
}

} // verus!
