//! Scaffolding shared by the delivery variants: the cursor model of a
//! half-consumed input, and the small facts about reversal that the merge
//! loops lean on.  Each variant runs its own merge loop; only this proof
//! vocabulary is common.

use vstd::prelude::*;

verus! {

/// The forward sequence that one cursor still has to deliver: the pulled
/// head, if any, followed by the stored items (which are kept in reverse, so
/// that the next one is at the back).
pub(crate) open spec fn cursor_seq<T>(head: Option<T>, stored_rev: Seq<T>) -> Seq<T> {
    match head {
        Some(x) => seq![x] + stored_rev.reverse(),
        None => stored_rev.reverse(),
    }
}

/// How much a pulled head contributes to the remaining work.
pub(crate) open spec fn head_weight<T>(head: Option<T>) -> int {
    if head is Some {
        1
    } else {
        0
    }
}

/// Taking the last element off a sequence and putting it in front of the
/// reversed remainder yields the reversed whole.
pub(crate) proof fn lemma_pop_reverse<T>(v: Seq<T>)
    requires
        v.len() > 0,
    ensures
        seq![v[v.len() - 1]] + v.subrange(0, v.len() - 1).reverse() == v.reverse(),
{
    assert(seq![v[v.len() - 1]] + v.subrange(0, v.len() - 1).reverse() =~= v.reverse());
}

/// Putting one element in front of a sequence yields that element at index
/// zero and the sequence as the rest.
pub(crate) proof fn lemma_cons_first_rest<A>(x: A, s: Seq<A>)
    ensures
        (seq![x] + s).len() == s.len() + 1,
        (seq![x] + s)[0] == x,
        (seq![x] + s).drop_first() == s,
{
    assert((seq![x] + s).drop_first() =~= s);
}

/// Reverses a vector, transferring ownership of the elements.
pub(crate) fn reversed<T>(v: Vec<T>) -> (r: Vec<T>)
    ensures
        r@ == v@.reverse(),
{
    let ghost orig = v@;
    let mut v = v;
    let mut r: Vec<T> = Vec::new();
    while v.len() > 0
        invariant
            orig == v@ + r@.reverse(),
        decreases v.len(),
    {
        let ghost prev_v = v@;
        let ghost prev_r = r@;
        let x = v.pop().unwrap();
        r.push(x);
        proof {
            assert(r@.reverse() =~= seq![x] + prev_r.reverse());
            assert(prev_v =~= v@ + seq![x]);
            assert(v@ + r@.reverse() =~= prev_v + prev_r.reverse());
        }
    }
    proof {
        assert(r@ =~= orig.reverse());
    }
    r
}

} // verus!
