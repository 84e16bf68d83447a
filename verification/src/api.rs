//! The public operations: one pull-style and two push-style deliveries of
//! the same symmetric-difference merge.  Each variant runs the two-cursor
//! merge itself; what ties them together is the shared model
//! [`crate::model::sym_diff`], which every variant is verified against.

use crate::iter::SymDiffIter;
use crate::merge::{cursor_seq, head_weight, lemma_cons_first_rest, lemma_pop_reverse, reversed};
use crate::model::sym_diff;
use crate::tag::Tag;
use vstd::prelude::*;
use vstd::std_specs::cmp::OrdSpec;

verus! {

/// Symmetric-difference operations over an ordered collection of comparable
/// items.
pub trait SymmetricDifference<T: Ord>: Sized {
    /// The items the collection holds, in order.
    spec fn elems(self) -> Seq<T>;

    /// Pull delivery: wraps the merge in a lazy iterator whose pending
    /// inputs start as `self` (left) and `rhs` (right).
    fn difference(self, rhs: Self) -> (it: SymDiffIter<T>)
        ensures
            it.lefts() == self.elems(),
            it.rights() == rhs.elems(),
    ;

    /// Push delivery, tagged single sink: runs the merge to completion and
    /// hands every differing item to `f`, tagged with its side, in merge
    /// order.
    fn iter_difference<F: FnMut(Tag<T>)>(self, rhs: Self, f: F)
        requires
            T::obeys_cmp_spec(),
            forall|t: Tag<T>|
                sym_diff(self.elems(), rhs.elems()).contains(t) ==> call_requires(f, (t,)),
    ;

    /// Push delivery, dual sink: runs the merge to completion and hands
    /// every left-only item to `on_left` and every right-only item to
    /// `on_right`, undecorated, in merge order.
    fn split_difference<F: FnMut(T), G: FnMut(T)>(self, rhs: Self, on_left: F, on_right: G)
        requires
            T::obeys_cmp_spec(),
            forall|x: T|
                sym_diff(self.elems(), rhs.elems()).contains(Tag::Left(x)) ==> call_requires(
                    on_left,
                    (x,),
                ),
            forall|x: T|
                sym_diff(self.elems(), rhs.elems()).contains(Tag::Right(x)) ==> call_requires(
                    on_right,
                    (x,),
                ),
    ;
}

impl<T: Ord> SymmetricDifference<T> for Vec<T> {
    open spec fn elems(self) -> Seq<T> {
        self@
    }

    fn difference(self, rhs: Vec<T>) -> (it: SymDiffIter<T>) {
        SymDiffIter::new(self, rhs)
    }

    fn iter_difference<F: FnMut(Tag<T>)>(self, rhs: Vec<T>, f: F) {
        let ghost total = sym_diff(self@, rhs@);
        let mut f = f;
        proof {
            assert forall|t: Tag<T>| total.contains(t) implies call_requires(f, (t,)) by {
                assert(sym_diff(self.elems(), rhs.elems()).contains(t));
            }
        }
        let ghost orig_left = self@;
        let ghost orig_right = rhs@;
        let mut left = reversed(self);
        let mut right = reversed(rhs);
        let ghost init_left = left@;
        let ghost init_right = right@;
        let mut cur_left = left.pop();
        let mut cur_right = right.pop();
        proof {
            if init_left.len() > 0 {
                lemma_pop_reverse(init_left);
            }
            if init_right.len() > 0 {
                lemma_pop_reverse(init_right);
            }
            assert(init_left.reverse() =~= orig_left);
            assert(init_right.reverse() =~= orig_right);
            assert(sym_diff(cursor_seq(cur_left, left@), cursor_seq(cur_right, right@)) == total);
        }
        let ghost mut emitted: Seq<Tag<T>> = Seq::empty();
        loop
            invariant
                T::obeys_cmp_spec(),
                forall|t: Tag<T>| total.contains(t) ==> call_requires(f, (t,)),
                cur_left is None ==> left@.len() == 0,
                cur_right is None ==> right@.len() == 0,
                emitted + sym_diff(cursor_seq(cur_left, left@), cursor_seq(cur_right, right@))
                    == total,
            decreases left@.len() + right@.len() + head_weight(cur_left) + head_weight(cur_right),
        {
            let ghost cl = cursor_seq(cur_left, left@);
            let ghost cr = cursor_seq(cur_right, right@);
            let ghost pending = sym_diff(cl, cr);
            match (cur_left, cur_right) {
                (None, None) => {
                    return;
                },
                (Some(a), None) => {
                    proof {
                        lemma_cons_first_rest(a, left@.reverse());
                        lemma_cons_first_rest(Tag::Left(a), sym_diff(left@.reverse(), cr));
                        assert(pending == seq![Tag::Left(a)] + sym_diff(left@.reverse(), cr));
                        assert(total[emitted.len() as int] == Tag::Left(a));
                        assert(total.contains(Tag::Left(a)));
                        emitted = emitted.push(Tag::Left(a));
                        assert(emitted + sym_diff(left@.reverse(), cr) =~= total);
                    }
                    f(Tag::Left(a));
                    let ghost step_left = left@;
                    cur_left = left.pop();
                    cur_right = None;
                    proof {
                        if step_left.len() > 0 {
                            lemma_pop_reverse(step_left);
                        }
                    }
                },
                (None, Some(b)) => {
                    proof {
                        lemma_cons_first_rest(b, right@.reverse());
                        lemma_cons_first_rest(Tag::Right(b), sym_diff(cl, right@.reverse()));
                        assert(pending == seq![Tag::Right(b)] + sym_diff(cl, right@.reverse()));
                        assert(total[emitted.len() as int] == Tag::Right(b));
                        assert(total.contains(Tag::Right(b)));
                        emitted = emitted.push(Tag::Right(b));
                        assert(emitted + sym_diff(cl, right@.reverse()) =~= total);
                    }
                    f(Tag::Right(b));
                    let ghost step_right = right@;
                    cur_left = None;
                    cur_right = right.pop();
                    proof {
                        if step_right.len() > 0 {
                            lemma_pop_reverse(step_right);
                        }
                    }
                },
                (Some(a), Some(b)) => {
                    match a.cmp(&b) {
                        core::cmp::Ordering::Greater => {
                            proof {
                                lemma_cons_first_rest(a, left@.reverse());
                                lemma_cons_first_rest(b, right@.reverse());
                                lemma_cons_first_rest(Tag::Right(b), sym_diff(cl, right@.reverse()));
                                assert(pending == seq![Tag::Right(b)] + sym_diff(
                                    cl,
                                    right@.reverse(),
                                ));
                                assert(total[emitted.len() as int] == Tag::Right(b));
                                assert(total.contains(Tag::Right(b)));
                                emitted = emitted.push(Tag::Right(b));
                                assert(emitted + sym_diff(cl, right@.reverse()) =~= total);
                            }
                            f(Tag::Right(b));
                            let ghost step_right = right@;
                            cur_left = Some(a);
                            cur_right = right.pop();
                            proof {
                                if step_right.len() > 0 {
                                    lemma_pop_reverse(step_right);
                                }
                            }
                        },
                        core::cmp::Ordering::Less => {
                            proof {
                                lemma_cons_first_rest(a, left@.reverse());
                                lemma_cons_first_rest(b, right@.reverse());
                                lemma_cons_first_rest(Tag::Left(a), sym_diff(left@.reverse(), cr));
                                assert(pending == seq![Tag::Left(a)] + sym_diff(
                                    left@.reverse(),
                                    cr,
                                ));
                                assert(total[emitted.len() as int] == Tag::Left(a));
                                assert(total.contains(Tag::Left(a)));
                                emitted = emitted.push(Tag::Left(a));
                                assert(emitted + sym_diff(left@.reverse(), cr) =~= total);
                            }
                            f(Tag::Left(a));
                            let ghost step_left = left@;
                            cur_left = left.pop();
                            cur_right = Some(b);
                            proof {
                                if step_left.len() > 0 {
                                    lemma_pop_reverse(step_left);
                                }
                            }
                        },
                        core::cmp::Ordering::Equal => {
                            let ghost step_left = left@;
                            let ghost step_right = right@;
                            cur_left = left.pop();
                            cur_right = right.pop();
                            proof {
                                lemma_cons_first_rest(a, step_left.reverse());
                                lemma_cons_first_rest(b, step_right.reverse());
                                assert(pending == sym_diff(
                                    step_left.reverse(),
                                    step_right.reverse(),
                                ));
                                if step_left.len() > 0 {
                                    lemma_pop_reverse(step_left);
                                }
                                if step_right.len() > 0 {
                                    lemma_pop_reverse(step_right);
                                }
                            }
                        },
                    }
                },
            }
        }
    }

    fn split_difference<F: FnMut(T), G: FnMut(T)>(self, rhs: Vec<T>, on_left: F, on_right: G) {
        let ghost total = sym_diff(self@, rhs@);
        let mut on_left = on_left;
        let mut on_right = on_right;
        proof {
            assert forall|x: T| total.contains(Tag::Left(x)) implies call_requires(
                on_left,
                (x,),
            ) by {
                assert(sym_diff(self.elems(), rhs.elems()).contains(Tag::Left(x)));
            }
            assert forall|x: T| total.contains(Tag::Right(x)) implies call_requires(
                on_right,
                (x,),
            ) by {
                assert(sym_diff(self.elems(), rhs.elems()).contains(Tag::Right(x)));
            }
        }
        let ghost orig_left = self@;
        let ghost orig_right = rhs@;
        let mut left = reversed(self);
        let mut right = reversed(rhs);
        let ghost init_left = left@;
        let ghost init_right = right@;
        let mut cur_left = left.pop();
        let mut cur_right = right.pop();
        proof {
            if init_left.len() > 0 {
                lemma_pop_reverse(init_left);
            }
            if init_right.len() > 0 {
                lemma_pop_reverse(init_right);
            }
            assert(init_left.reverse() =~= orig_left);
            assert(init_right.reverse() =~= orig_right);
            assert(sym_diff(cursor_seq(cur_left, left@), cursor_seq(cur_right, right@)) == total);
        }
        let ghost mut emitted: Seq<Tag<T>> = Seq::empty();
        loop
            invariant
                T::obeys_cmp_spec(),
                forall|x: T| total.contains(Tag::Left(x)) ==> call_requires(on_left, (x,)),
                forall|x: T| total.contains(Tag::Right(x)) ==> call_requires(on_right, (x,)),
                cur_left is None ==> left@.len() == 0,
                cur_right is None ==> right@.len() == 0,
                emitted + sym_diff(cursor_seq(cur_left, left@), cursor_seq(cur_right, right@))
                    == total,
            decreases left@.len() + right@.len() + head_weight(cur_left) + head_weight(cur_right),
        {
            let ghost cl = cursor_seq(cur_left, left@);
            let ghost cr = cursor_seq(cur_right, right@);
            let ghost pending = sym_diff(cl, cr);
            match (cur_left, cur_right) {
                (None, None) => {
                    return;
                },
                (Some(a), None) => {
                    proof {
                        lemma_cons_first_rest(a, left@.reverse());
                        lemma_cons_first_rest(Tag::Left(a), sym_diff(left@.reverse(), cr));
                        assert(pending == seq![Tag::Left(a)] + sym_diff(left@.reverse(), cr));
                        assert(total[emitted.len() as int] == Tag::Left(a));
                        assert(total.contains(Tag::Left(a)));
                        emitted = emitted.push(Tag::Left(a));
                        assert(emitted + sym_diff(left@.reverse(), cr) =~= total);
                    }
                    on_left(a);
                    let ghost step_left = left@;
                    cur_left = left.pop();
                    cur_right = None;
                    proof {
                        if step_left.len() > 0 {
                            lemma_pop_reverse(step_left);
                        }
                    }
                },
                (None, Some(b)) => {
                    proof {
                        lemma_cons_first_rest(b, right@.reverse());
                        lemma_cons_first_rest(Tag::Right(b), sym_diff(cl, right@.reverse()));
                        assert(pending == seq![Tag::Right(b)] + sym_diff(cl, right@.reverse()));
                        assert(total[emitted.len() as int] == Tag::Right(b));
                        assert(total.contains(Tag::Right(b)));
                        emitted = emitted.push(Tag::Right(b));
                        assert(emitted + sym_diff(cl, right@.reverse()) =~= total);
                    }
                    on_right(b);
                    let ghost step_right = right@;
                    cur_left = None;
                    cur_right = right.pop();
                    proof {
                        if step_right.len() > 0 {
                            lemma_pop_reverse(step_right);
                        }
                    }
                },
                (Some(a), Some(b)) => {
                    match a.cmp(&b) {
                        core::cmp::Ordering::Greater => {
                            proof {
                                lemma_cons_first_rest(a, left@.reverse());
                                lemma_cons_first_rest(b, right@.reverse());
                                lemma_cons_first_rest(Tag::Right(b), sym_diff(cl, right@.reverse()));
                                assert(pending == seq![Tag::Right(b)] + sym_diff(
                                    cl,
                                    right@.reverse(),
                                ));
                                assert(total[emitted.len() as int] == Tag::Right(b));
                                assert(total.contains(Tag::Right(b)));
                                emitted = emitted.push(Tag::Right(b));
                                assert(emitted + sym_diff(cl, right@.reverse()) =~= total);
                            }
                            on_right(b);
                            let ghost step_right = right@;
                            cur_left = Some(a);
                            cur_right = right.pop();
                            proof {
                                if step_right.len() > 0 {
                                    lemma_pop_reverse(step_right);
                                }
                            }
                        },
                        core::cmp::Ordering::Less => {
                            proof {
                                lemma_cons_first_rest(a, left@.reverse());
                                lemma_cons_first_rest(b, right@.reverse());
                                lemma_cons_first_rest(Tag::Left(a), sym_diff(left@.reverse(), cr));
                                assert(pending == seq![Tag::Left(a)] + sym_diff(
                                    left@.reverse(),
                                    cr,
                                ));
                                assert(total[emitted.len() as int] == Tag::Left(a));
                                assert(total.contains(Tag::Left(a)));
                                emitted = emitted.push(Tag::Left(a));
                                assert(emitted + sym_diff(left@.reverse(), cr) =~= total);
                            }
                            on_left(a);
                            let ghost step_left = left@;
                            cur_left = left.pop();
                            cur_right = Some(b);
                            proof {
                                if step_left.len() > 0 {
                                    lemma_pop_reverse(step_left);
                                }
                            }
                        },
                        core::cmp::Ordering::Equal => {
                            let ghost step_left = left@;
                            let ghost step_right = right@;
                            cur_left = left.pop();
                            cur_right = right.pop();
                            proof {
                                lemma_cons_first_rest(a, step_left.reverse());
                                lemma_cons_first_rest(b, step_right.reverse());
                                assert(pending == sym_diff(
                                    step_left.reverse(),
                                    step_right.reverse(),
                                ));
                                if step_left.len() > 0 {
                                    lemma_pop_reverse(step_left);
                                }
                                if step_right.len() > 0 {
                                    lemma_pop_reverse(step_right);
                                }
                            }
                        },
                    }
                },
            }
        }
    }
}

} // verus!
