//! Proved properties of the symmetric-difference model that every delivery
//! variant inherits through its contract.

use crate::model::{cmp_is_total_order, items_of, sorted, sorted_strict, sym_diff};
use crate::tag::Tag;
use core::cmp::Ordering;
use vstd::prelude::*;
use vstd::std_specs::cmp::OrdSpec;

verus! {

/// Every emitted item is tagged with exactly one side.
pub proof fn lemma_exactly_one_side<T>(t: Tag<T>)
    ensures
        (t is Left) <==> !(t is Right),
{
}

/// With one input empty the output is the other input, every item tagged to
/// that side; with both inputs empty the output is empty.
pub proof fn lemma_empty_side<T: Ord>(a: Seq<T>, b: Seq<T>)
    ensures
        sym_diff(a, Seq::<T>::empty()) == a.map_values(|x: T| Tag::Left(x)),
        sym_diff(Seq::<T>::empty(), b) == b.map_values(|x: T| Tag::Right(x)),
        sym_diff(Seq::<T>::empty(), Seq::<T>::empty()) == Seq::<Tag<T>>::empty(),
    decreases a.len() + b.len(),
{
    let e = Seq::<T>::empty();
    if a.len() == 0 && b.len() == 0 {
        assert(sym_diff(a, e) =~= a.map_values(|x: T| Tag::Left(x)));
        assert(sym_diff(e, b) =~= b.map_values(|x: T| Tag::Right(x)));
    } else {
        if a.len() > 0 {
            lemma_empty_side(a.drop_first(), b);
            assert(sym_diff(a, e) =~= a.map_values(|x: T| Tag::Left(x)));
        } else {
            assert(sym_diff(a, e) =~= a.map_values(|x: T| Tag::Left(x)));
        }
        if b.len() > 0 {
            lemma_empty_side(a, b.drop_first());
            assert(sym_diff(e, b) =~= b.map_values(|x: T| Tag::Right(x)));
        } else {
            assert(sym_diff(e, b) =~= b.map_values(|x: T| Tag::Right(x)));
        }
    }
}

/// The difference of any sequence with itself is empty: every pair of equal
/// heads cancels.
pub proof fn lemma_self_empty<T: Ord>(a: Seq<T>)
    requires
        cmp_is_total_order::<T>(),
    ensures
        sym_diff(a, a) == Seq::<Tag<T>>::empty(),
    decreases a.len(),
{
    if a.len() > 0 {
        assert(a[0].cmp_spec(&a[0]) == Ordering::Equal);
        lemma_self_empty(a.drop_first());
    }
}

/// Under a total order, "not greater" is transitive.
proof fn lemma_le_trans<T: Ord>(x: T, y: T, z: T)
    requires
        cmp_is_total_order::<T>(),
        x.cmp_spec(&y) != Ordering::Greater,
        y.cmp_spec(&z) != Ordering::Greater,
    ensures
        x.cmp_spec(&z) != Ordering::Greater,
{
    if x.cmp_spec(&y) == Ordering::Equal {
        assert(x == y);
    } else if y.cmp_spec(&z) == Ordering::Equal {
        assert(y == z);
    } else {
        assert(x.cmp_spec(&z) == Ordering::Less);
    }
}

/// An element of the rest of a sequence is an element of the sequence.
proof fn lemma_drop_first_contains<T>(s: Seq<T>, x: T)
    requires
        s.len() > 0,
        s.drop_first().contains(x),
    ensures
        s.contains(x),
{
    let i = choose|i: int| 0 <= i < s.drop_first().len() && s.drop_first()[i] == x;
    assert(s[i + 1] == x);
}

/// Dropping the head of a sorted sequence keeps it sorted, and the head is
/// no greater than anything that remains.
proof fn lemma_sorted_drop_first<T: Ord>(s: Seq<T>)
    requires
        sorted(s),
        s.len() > 0,
    ensures
        sorted(s.drop_first()),
        forall|i: int|
            0 <= i < s.drop_first().len() ==> s[0].cmp_spec(&(s.drop_first()[i]))
                != Ordering::Greater,
{
    assert forall|i: int| 0 <= i < s.drop_first().len() implies s[0].cmp_spec(
        &(s.drop_first()[i]),
    ) != Ordering::Greater by {
        assert(s.drop_first()[i] == s[i + 1]);
        assert(s[0].cmp_spec(&s[i + 1]) != Ordering::Greater);
    }
    assert forall|i: int, j: int| 0 <= i < j < s.drop_first().len() implies (
    s.drop_first()[i]).cmp_spec(&(s.drop_first()[j])) != Ordering::Greater by {
        assert(s.drop_first()[i] == s[i + 1] && s.drop_first()[j] == s[j + 1]);
        assert(s[i + 1].cmp_spec(&s[j + 1]) != Ordering::Greater);
    }
}

/// Every output item carries a value of the input on its tagged side.
pub proof fn lemma_items_come_from_inputs<T: Ord>(a: Seq<T>, b: Seq<T>)
    ensures
        forall|i: int|
            0 <= i < sym_diff(a, b).len() ==> match #[trigger] sym_diff(a, b)[i] {
                Tag::Left(x) => a.contains(x),
                Tag::Right(x) => b.contains(x),
            },
    decreases a.len() + b.len(),
{
    let d = sym_diff(a, b);
    if a.len() == 0 && b.len() == 0 {
    } else if b.len() == 0 {
        lemma_items_come_from_inputs(a.drop_first(), b);
        assert forall|i: int| 0 <= i < d.len() implies match #[trigger] d[i] {
            Tag::Left(x) => a.contains(x),
            Tag::Right(x) => b.contains(x),
        } by {
            if i == 0 {
                assert(a.contains(a[0]));
            } else {
                assert(d[i] == sym_diff(a.drop_first(), b)[i - 1]);
                match sym_diff(a.drop_first(), b)[i - 1] {
                    Tag::Left(x) => lemma_drop_first_contains(a, x),
                    Tag::Right(_) => (),
                }
            }
        }
    } else if a.len() == 0 {
        lemma_items_come_from_inputs(a, b.drop_first());
        assert forall|i: int| 0 <= i < d.len() implies match #[trigger] d[i] {
            Tag::Left(x) => a.contains(x),
            Tag::Right(x) => b.contains(x),
        } by {
            if i == 0 {
                assert(b.contains(b[0]));
            } else {
                assert(d[i] == sym_diff(a, b.drop_first())[i - 1]);
                match sym_diff(a, b.drop_first())[i - 1] {
                    Tag::Left(_) => (),
                    Tag::Right(x) => lemma_drop_first_contains(b, x),
                }
            }
        }
    } else {
        match a[0].cmp_spec(&b[0]) {
            Ordering::Less => {
                lemma_items_come_from_inputs(a.drop_first(), b);
                assert forall|i: int| 0 <= i < d.len() implies match #[trigger] d[i] {
                    Tag::Left(x) => a.contains(x),
                    Tag::Right(x) => b.contains(x),
                } by {
                    if i == 0 {
                        assert(a.contains(a[0]));
                    } else {
                        assert(d[i] == sym_diff(a.drop_first(), b)[i - 1]);
                        match sym_diff(a.drop_first(), b)[i - 1] {
                            Tag::Left(x) => lemma_drop_first_contains(a, x),
                            Tag::Right(_) => (),
                        }
                    }
                }
            },
            Ordering::Greater => {
                lemma_items_come_from_inputs(a, b.drop_first());
                assert forall|i: int| 0 <= i < d.len() implies match #[trigger] d[i] {
                    Tag::Left(x) => a.contains(x),
                    Tag::Right(x) => b.contains(x),
                } by {
                    if i == 0 {
                        assert(b.contains(b[0]));
                    } else {
                        assert(d[i] == sym_diff(a, b.drop_first())[i - 1]);
                        match sym_diff(a, b.drop_first())[i - 1] {
                            Tag::Left(_) => (),
                            Tag::Right(x) => lemma_drop_first_contains(b, x),
                        }
                    }
                }
            },
            Ordering::Equal => {
                lemma_items_come_from_inputs(a.drop_first(), b.drop_first());
                assert forall|i: int| 0 <= i < d.len() implies match #[trigger] d[i] {
                    Tag::Left(x) => a.contains(x),
                    Tag::Right(x) => b.contains(x),
                } by {
                    assert(d[i] == sym_diff(a.drop_first(), b.drop_first())[i]);
                    match sym_diff(a.drop_first(), b.drop_first())[i] {
                        Tag::Left(x) => lemma_drop_first_contains(a, x),
                        Tag::Right(x) => lemma_drop_first_contains(b, x),
                    }
                }
            },
        }
    }
}

/// A value no greater than every input element is no greater than every
/// output value.
proof fn lemma_output_lower_bound<T: Ord>(a: Seq<T>, b: Seq<T>, z: T)
    requires
        forall|i: int| 0 <= i < a.len() ==> z.cmp_spec(#[trigger] &a[i]) != Ordering::Greater,
        forall|i: int| 0 <= i < b.len() ==> z.cmp_spec(#[trigger] &b[i]) != Ordering::Greater,
    ensures
        forall|i: int|
            0 <= i < sym_diff(a, b).len() ==> z.cmp_spec(&((#[trigger] sym_diff(a, b)[i]).item()))
                != Ordering::Greater,
{
    lemma_items_come_from_inputs(a, b);
    let d = sym_diff(a, b);
    assert forall|i: int| 0 <= i < d.len() implies z.cmp_spec(&(d[i].item()))
        != Ordering::Greater by {
        match d[i] {
            Tag::Left(x) => {
                let j = choose|j: int| 0 <= j < a.len() && a[j] == x;
                assert(z.cmp_spec(&a[j]) != Ordering::Greater);
            },
            Tag::Right(x) => {
                let j = choose|j: int| 0 <= j < b.len() && b[j] == x;
                assert(z.cmp_spec(&b[j]) != Ordering::Greater);
            },
        }
    }
}

/// With both inputs sorted, the output values come out in non-decreasing
/// order: the merge emits in the merged ascending order of the two inputs.
pub proof fn lemma_output_sorted<T: Ord>(a: Seq<T>, b: Seq<T>)
    requires
        cmp_is_total_order::<T>(),
        sorted(a),
        sorted(b),
    ensures
        sorted(items_of(sym_diff(a, b))),
    decreases a.len() + b.len(),
{
    let d = sym_diff(a, b);
    let out = items_of(d);
    if a.len() == 0 && b.len() == 0 {
    } else if b.len() == 0 {
        lemma_sorted_drop_first(a);
        lemma_output_sorted(a.drop_first(), b);
        lemma_output_lower_bound(a.drop_first(), b, a[0]);
        lemma_head_keeps_sorted(a[0], Tag::Left(a[0]), sym_diff(a.drop_first(), b));
    } else if a.len() == 0 {
        lemma_sorted_drop_first(b);
        lemma_output_sorted(a, b.drop_first());
        lemma_output_lower_bound(a, b.drop_first(), b[0]);
        lemma_head_keeps_sorted(b[0], Tag::Right(b[0]), sym_diff(a, b.drop_first()));
    } else {
        match a[0].cmp_spec(&b[0]) {
            Ordering::Less => {
                lemma_sorted_drop_first(a);
                lemma_output_sorted(a.drop_first(), b);
                assert forall|i: int| 0 <= i < b.len() implies a[0].cmp_spec(#[trigger] &b[i])
                    != Ordering::Greater by {
                    if i > 0 {
                        lemma_le_trans(a[0], b[0], b[i]);
                    }
                }
                lemma_output_lower_bound(a.drop_first(), b, a[0]);
                lemma_head_keeps_sorted(a[0], Tag::Left(a[0]), sym_diff(a.drop_first(), b));
            },
            Ordering::Greater => {
                lemma_sorted_drop_first(b);
                lemma_output_sorted(a, b.drop_first());
                assert forall|i: int| 0 <= i < a.len() implies b[0].cmp_spec(#[trigger] &a[i])
                    != Ordering::Greater by {
                    assert(b[0].cmp_spec(&a[0]) == Ordering::Less);
                    if i > 0 {
                        lemma_le_trans(b[0], a[0], a[i]);
                    }
                }
                lemma_output_lower_bound(a, b.drop_first(), b[0]);
                lemma_head_keeps_sorted(b[0], Tag::Right(b[0]), sym_diff(a, b.drop_first()));
            },
            Ordering::Equal => {
                lemma_sorted_drop_first(a);
                lemma_sorted_drop_first(b);
                lemma_output_sorted(a.drop_first(), b.drop_first());
            },
        }
    }
}

/// Putting a tagged head in front of a sorted output keeps it sorted when
/// the head's value is no greater than every output value.
proof fn lemma_head_keeps_sorted<T: Ord>(v: T, t: Tag<T>, rest: Seq<Tag<T>>)
    requires
        t.item() == v,
        sorted(items_of(rest)),
        forall|i: int|
            0 <= i < rest.len() ==> v.cmp_spec(&((#[trigger] rest[i]).item())) != Ordering::Greater,
    ensures
        sorted(items_of(seq![t] + rest)),
{
    let out = items_of(seq![t] + rest);
    assert forall|i: int, j: int| #![trigger out[i], out[j]] 0 <= i < j < out.len() implies (
    out[i]).cmp_spec(&(out[j])) != Ordering::Greater by {
        assert(out[j] == rest[j - 1].item());
        if i == 0 {
            assert(out[0] == v);
        } else {
            assert(out[i] == rest[i - 1].item());
            assert(items_of(rest)[i - 1].cmp_spec(&(items_of(rest)[j - 1]))
                != Ordering::Greater);
        }
    }
}

/// The head of a sequence or an element of its rest: the two ways to be an
/// element of a non-empty sequence.
proof fn lemma_contains_head_or_rest<T>(s: Seq<T>, x: T)
    requires
        s.len() > 0,
    ensures
        s.contains(x) <==> (x == s[0] || s.drop_first().contains(x)),
{
    if s.contains(x) {
        let i = choose|i: int| 0 <= i < s.len() && s[i] == x;
        if i > 0 {
            assert(s.drop_first()[i - 1] == x);
        }
    }
    if s.drop_first().contains(x) {
        lemma_drop_first_contains(s, x);
    }
    if x == s[0] {
        assert(s[0] == x);
    }
}

/// The untagged output of a tagged head followed by a rest.
proof fn lemma_items_cons<T>(t: Tag<T>, rest: Seq<Tag<T>>)
    ensures
        items_of(seq![t] + rest).len() == rest.len() + 1,
        items_of(seq![t] + rest)[0] == t.item(),
        items_of(seq![t] + rest).drop_first() == items_of(rest),
{
    assert(items_of(seq![t] + rest).drop_first() =~= items_of(rest));
}

/// For strictly ascending inputs the output values, as a set, are exactly
/// the symmetric difference of the two input value-sets: the values in one
/// input but not the other.
pub proof fn lemma_set_symmetric_difference<T: Ord>(a: Seq<T>, b: Seq<T>)
    requires
        cmp_is_total_order::<T>(),
        sorted_strict(a),
        sorted_strict(b),
    ensures
        items_of(sym_diff(a, b)).to_set() == a.to_set().difference(b.to_set()).union(
            b.to_set().difference(a.to_set()),
        ),
    decreases a.len() + b.len(),
{
    let d = sym_diff(a, b);
    let rhs = a.to_set().difference(b.to_set()).union(b.to_set().difference(a.to_set()));
    if a.len() == 0 && b.len() == 0 {
        assert(items_of(d).to_set() =~= rhs);
    } else if b.len() == 0 {
        lemma_strict_is_sorted(a);
        lemma_sorted_strict_drop_first(a);
        lemma_set_symmetric_difference(a.drop_first(), b);
        let rec = sym_diff(a.drop_first(), b);
        lemma_items_cons(Tag::Left(a[0]), rec);
        assert(d == seq![Tag::Left(a[0])] + rec);
        assert forall|x: T| items_of(d).contains(x) == rhs.contains(x) by {
            lemma_contains_head_or_rest(items_of(d), x);
            lemma_contains_head_or_rest(a, x);
            assert(items_of(d).contains(x) == (x == a[0] || items_of(rec).contains(x)));
            assert(items_of(rec).contains(x) == items_of(rec).to_set().contains(x));
            assert(items_of(rec).to_set().contains(x) == (a.drop_first().to_set().difference(
                b.to_set(),
            ).union(b.to_set().difference(a.drop_first().to_set()))).contains(x));
            assert(!b.contains(x));
            assert(a.contains(x) == (x == a[0] || a.drop_first().contains(x)));
        }
        assert(items_of(d).to_set() =~= rhs);
    } else if a.len() == 0 {
        lemma_strict_is_sorted(b);
        lemma_sorted_strict_drop_first(b);
        lemma_set_symmetric_difference(a, b.drop_first());
        let rec = sym_diff(a, b.drop_first());
        lemma_items_cons(Tag::Right(b[0]), rec);
        assert(d == seq![Tag::Right(b[0])] + rec);
        assert forall|x: T| items_of(d).contains(x) == rhs.contains(x) by {
            lemma_contains_head_or_rest(items_of(d), x);
            lemma_contains_head_or_rest(b, x);
            assert(items_of(d).contains(x) == (x == b[0] || items_of(rec).contains(x)));
            assert(items_of(rec).contains(x) == items_of(rec).to_set().contains(x));
            assert(items_of(rec).to_set().contains(x) == (a.to_set().difference(
                b.drop_first().to_set(),
            ).union(b.drop_first().to_set().difference(a.to_set()))).contains(x));
            assert(!a.contains(x));
            assert(b.contains(x) == (x == b[0] || b.drop_first().contains(x)));
        }
        assert(items_of(d).to_set() =~= rhs);
    } else {
        lemma_strict_is_sorted(a);
        lemma_strict_is_sorted(b);
        lemma_sorted_strict_drop_first(a);
        lemma_sorted_strict_drop_first(b);
        match a[0].cmp_spec(&b[0]) {
            Ordering::Less => {
                lemma_set_symmetric_difference(a.drop_first(), b);
                let rec = sym_diff(a.drop_first(), b);
                lemma_items_cons(Tag::Left(a[0]), rec);
                assert(d == seq![Tag::Left(a[0])] + rec);
                lemma_head_below_all(a[0], b);
                assert forall|x: T| items_of(d).contains(x) == rhs.contains(x) by {
                    lemma_contains_head_or_rest(items_of(d), x);
                    lemma_contains_head_or_rest(a, x);
                    assert(items_of(d).contains(x) == (x == a[0] || items_of(
                        rec,
                    ).contains(x)));
                    assert(items_of(rec).contains(x) == items_of(rec).to_set().contains(x));
                    assert(items_of(rec).to_set().contains(x) == (a.drop_first().to_set(
                    ).difference(b.to_set()).union(
                        b.to_set().difference(a.drop_first().to_set()),
                    )).contains(x));
                    assert(a.contains(x) == (x == a[0] || a.drop_first().contains(x)));
                    assert(!b.contains(a[0]));
                    assert(!a.drop_first().contains(a[0]));
                }
                assert(items_of(d).to_set() =~= rhs);
            },
            Ordering::Greater => {
                lemma_set_symmetric_difference(a, b.drop_first());
                let rec = sym_diff(a, b.drop_first());
                lemma_items_cons(Tag::Right(b[0]), rec);
                assert(d == seq![Tag::Right(b[0])] + rec);
                assert(b[0].cmp_spec(&a[0]) == Ordering::Less);
                lemma_head_below_all(b[0], a);
                assert forall|x: T| items_of(d).contains(x) == rhs.contains(x) by {
                    lemma_contains_head_or_rest(items_of(d), x);
                    lemma_contains_head_or_rest(b, x);
                    assert(items_of(d).contains(x) == (x == b[0] || items_of(
                        rec,
                    ).contains(x)));
                    assert(items_of(rec).contains(x) == items_of(rec).to_set().contains(x));
                    assert(items_of(rec).to_set().contains(x) == (a.to_set().difference(
                        b.drop_first().to_set(),
                    ).union(b.drop_first().to_set().difference(a.to_set()))).contains(x));
                    assert(b.contains(x) == (x == b[0] || b.drop_first().contains(x)));
                    assert(!a.contains(b[0]));
                    assert(!b.drop_first().contains(b[0]));
                }
                assert(items_of(d).to_set() =~= rhs);
            },
            Ordering::Equal => {
                lemma_set_symmetric_difference(a.drop_first(), b.drop_first());
                let rec = sym_diff(a.drop_first(), b.drop_first());
                assert(d == rec);
                assert(a[0] == b[0]);
                assert forall|x: T| items_of(d).contains(x) == rhs.contains(x) by {
                    lemma_contains_head_or_rest(a, x);
                    lemma_contains_head_or_rest(b, x);
                    assert(items_of(rec).contains(x) == items_of(rec).to_set().contains(x));
                    assert(items_of(rec).to_set().contains(x) == (a.drop_first().to_set(
                    ).difference(b.drop_first().to_set()).union(
                        b.drop_first().to_set().difference(a.drop_first().to_set()),
                    )).contains(x));
                    assert(!a.drop_first().contains(a[0]));
                    assert(!b.drop_first().contains(b[0]));
                }
                assert(items_of(d).to_set() =~= rhs);
            },
        }
    }
}

/// A strictly ascending sequence is sorted.
proof fn lemma_strict_is_sorted<T: Ord>(s: Seq<T>)
    requires
        sorted_strict(s),
    ensures
        sorted(s),
{
}

/// Dropping the head of a strictly ascending sequence keeps it strictly
/// ascending, and the head does not recur in the rest.
proof fn lemma_sorted_strict_drop_first<T: Ord>(s: Seq<T>)
    requires
        cmp_is_total_order::<T>(),
        sorted_strict(s),
        s.len() > 0,
    ensures
        sorted_strict(s.drop_first()),
        !s.drop_first().contains(s[0]),
    decreases s.len(),
{
    assert forall|i: int, j: int|
        #![trigger s.drop_first()[i], s.drop_first()[j]]
        0 <= i < j < s.drop_first().len() implies (s.drop_first()[i]).cmp_spec(
        &(s.drop_first()[j])) == Ordering::Less by {
        assert(s.drop_first()[i] == s[i + 1] && s.drop_first()[j] == s[j + 1]);
        assert(s[i + 1].cmp_spec(&s[j + 1]) == Ordering::Less);
    }
    if s.drop_first().contains(s[0]) {
        let i = choose|i: int| 0 <= i < s.drop_first().len() && s.drop_first()[i] == s[0];
        assert(s[0].cmp_spec(&s[i + 1]) == Ordering::Less);
        assert(s[0].cmp_spec(&s[0]) == Ordering::Equal);
    }
}

/// A value strictly below a sorted sequence's head occurs nowhere in it.
proof fn lemma_head_below_all<T: Ord>(z: T, s: Seq<T>)
    requires
        cmp_is_total_order::<T>(),
        sorted(s),
        s.len() > 0,
        z.cmp_spec(&s[0]) == Ordering::Less,
    ensures
        !s.contains(z),
{
    if s.contains(z) {
        let i = choose|i: int| 0 <= i < s.len() && s[i] == z;
        if i > 0 {
            assert(s[0].cmp_spec(&s[i]) != Ordering::Greater);
            if s[0].cmp_spec(&s[i]) == Ordering::Equal {
                assert(s[0] == s[i]);
            } else {
                assert(z.cmp_spec(&s[i]) == Ordering::Less);
            }
        }
        assert(z.cmp_spec(&z) == Ordering::Equal);
    }
}

/// An element of a head-plus-rest sequence is the head or an element of the
/// rest.
proof fn lemma_cons_contains<A>(t: A, rest: Seq<A>, u: A)
    requires
        (seq![t] + rest).contains(u),
    ensures
        u == t || rest.contains(u),
{
    let i = choose|i: int| 0 <= i < (seq![t] + rest).len() && (seq![t] + rest)[i] == u;
    if i > 0 {
        assert(rest[i - 1] == u);
    }
}

/// For sorted inputs, no single value is reported both as left-only and as
/// right-only.
pub proof fn lemma_sides_exclusive<T: Ord>(a: Seq<T>, b: Seq<T>, x: T)
    requires
        cmp_is_total_order::<T>(),
        sorted(a),
        sorted(b),
    ensures
        !(sym_diff(a, b).contains(Tag::Left(x)) && sym_diff(a, b).contains(Tag::Right(x))),
    decreases a.len() + b.len(),
{
    let d = sym_diff(a, b);
    if d.contains(Tag::Left(x)) && d.contains(Tag::Right(x)) {
        if a.len() == 0 && b.len() == 0 {
            let i = choose|i: int| 0 <= i < d.len() && d[i] == Tag::Left(x);
        } else if b.len() == 0 {
            lemma_empty_side(a, b);
            assert(b =~= Seq::<T>::empty());
            let i = choose|i: int| 0 <= i < d.len() && d[i] == Tag::Right(x);
            assert(d[i] == Tag::Left(a[i]));
        } else if a.len() == 0 {
            lemma_empty_side(a, b);
            assert(a =~= Seq::<T>::empty());
            let i = choose|i: int| 0 <= i < d.len() && d[i] == Tag::Left(x);
            assert(d[i] == Tag::Right(b[i]));
        } else {
            match a[0].cmp_spec(&b[0]) {
                Ordering::Less => {
                    let rec = sym_diff(a.drop_first(), b);
                    assert(d == seq![Tag::Left(a[0])] + rec);
                    lemma_sorted_drop_first(a);
                    lemma_cons_contains(Tag::Left(a[0]), rec, Tag::Right(x));
                    lemma_cons_contains(Tag::Left(a[0]), rec, Tag::Left(x));
                    if rec.contains(Tag::Left(x)) {
                        lemma_sides_exclusive(a.drop_first(), b, x);
                    } else {
                        lemma_items_come_from_inputs(a.drop_first(), b);
                        let j = choose|j: int| 0 <= j < rec.len() && rec[j] == Tag::Right(x);
                        assert(b.contains(x));
                        lemma_head_below_all(a[0], b);
                    }
                },
                Ordering::Greater => {
                    let rec = sym_diff(a, b.drop_first());
                    assert(d == seq![Tag::Right(b[0])] + rec);
                    lemma_sorted_drop_first(b);
                    lemma_cons_contains(Tag::Right(b[0]), rec, Tag::Left(x));
                    lemma_cons_contains(Tag::Right(b[0]), rec, Tag::Right(x));
                    if rec.contains(Tag::Right(x)) {
                        lemma_sides_exclusive(a, b.drop_first(), x);
                    } else {
                        lemma_items_come_from_inputs(a, b.drop_first());
                        let j = choose|j: int| 0 <= j < rec.len() && rec[j] == Tag::Left(x);
                        assert(a.contains(x));
                        assert(b[0].cmp_spec(&a[0]) == Ordering::Less);
                        lemma_head_below_all(b[0], a);
                    }
                },
                Ordering::Equal => {
                    assert(d == sym_diff(a.drop_first(), b.drop_first()));
                    lemma_sorted_drop_first(a);
                    lemma_sorted_drop_first(b);
                    lemma_sides_exclusive(a.drop_first(), b.drop_first(), x);
                },
            }
        }
    }
}

} // verus!
