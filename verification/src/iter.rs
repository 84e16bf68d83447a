//! The pull-style delivery: a lazy iterator over the symmetric difference.

use crate::merge::{cursor_seq, head_weight, lemma_cons_first_rest, lemma_pop_reverse, reversed};
use crate::model::sym_diff;
use crate::tag::Tag;
use core::cmp::Ordering;
use vstd::prelude::*;
use vstd::std_specs::cmp::OrdSpec;

verus! {

/// The pull-style symmetric-difference iterator.
///
/// It owns the unconsumed remainder of both inputs plus a one-slot lookahead
/// buffer: an item that was already pulled off its side but not yet resolved
/// against the other side.  [`Self::lefts`] and [`Self::rights`] are the
/// forward sequences each side still has to deliver, lookahead included.
pub struct SymDiffIter<T> {
    /// Remaining left items, next one at the back.
    left: Vec<T>,
    /// Remaining right items, next one at the back.
    right: Vec<T>,
    /// The one-slot lookahead buffer.
    rem: Option<Tag<T>>,
}

impl<T> SymDiffIter<T> {
    /// The left items not yet consumed by the merge, in input order.
    pub closed spec fn lefts(self) -> Seq<T> {
        match self.rem {
            Some(Tag::Left(x)) => seq![x] + self.left@.reverse(),
            _ => self.left@.reverse(),
        }
    }

    /// The right items not yet consumed by the merge, in input order.
    pub closed spec fn rights(self) -> Seq<T> {
        match self.rem {
            Some(Tag::Right(x)) => seq![x] + self.right@.reverse(),
            _ => self.right@.reverse(),
        }
    }

    /// Builds an iterator over the symmetric difference of `left` and
    /// `right`.
    pub(crate) fn new(left: Vec<T>, right: Vec<T>) -> (it: SymDiffIter<T>)
        ensures
            it.lefts() == left@,
            it.rights() == right@,
    {
        let ghost l0 = left@;
        let ghost r0 = right@;
        let it = SymDiffIter { left: reversed(left), right: reversed(right), rem: None };
        proof {
            assert(it.lefts() =~= l0);
            assert(it.rights() =~= r0);
        }
        it
    }
}

impl<T: Ord> SymDiffIter<T> {
    /// Produces the next tagged item of the symmetric difference, or `None`
    /// once both inputs are exhausted.  The head of the difference of the
    /// remaining inputs is returned, and the remaining inputs shrink to a
    /// state whose difference is the rest.
    pub fn next(&mut self) -> (r: Option<Tag<T>>)
        requires
            T::obeys_cmp_spec(),
        ensures
            ({
                let d = sym_diff(old(self).lefts(), old(self).rights());
                let d_after = sym_diff(final (self).lefts(), final (self).rights());
                &&& d.len() == 0 ==> r is None && d_after == Seq::<Tag<T>>::empty()
                &&& d.len() > 0 ==> r == Some(d[0]) && d_after == d.drop_first()
            }),
    {
        let ghost l0 = old(self).lefts();
        let ghost r0 = old(self).rights();
        let ghost prev_left = self.left@;
        let ghost prev_right = self.right@;
        let stash = self.rem.take();
        let (mut cur_left, mut cur_right) = match stash {
            None => (self.left.pop(), self.right.pop()),
            Some(Tag::Left(x)) => (Some(x), self.right.pop()),
            Some(Tag::Right(x)) => (self.left.pop(), Some(x)),
        };
        proof {
            if prev_left.len() > 0 {
                lemma_pop_reverse(prev_left);
            }
            if prev_right.len() > 0 {
                lemma_pop_reverse(prev_right);
            }
            assert(cursor_seq(cur_left, self.left@) == l0);
            assert(cursor_seq(cur_right, self.right@) == r0);
        }
        loop
            invariant
                T::obeys_cmp_spec(),
                l0 == old(self).lefts(),
                r0 == old(self).rights(),
                self.rem is None,
                cur_left is None ==> self.left@.len() == 0,
                cur_right is None ==> self.right@.len() == 0,
                sym_diff(cursor_seq(cur_left, self.left@), cursor_seq(cur_right, self.right@))
                    == sym_diff(l0, r0),
            decreases
                    self.left@.len() + self.right@.len() + head_weight(cur_left) + head_weight(
                        cur_right,
                    ),
        {
            let ghost cl = cursor_seq(cur_left, self.left@);
            let ghost cr = cursor_seq(cur_right, self.right@);
            match (cur_left, cur_right) {
                (None, None) => {
                    return None;
                },
                (Some(a), None) => {
                    proof {
                        lemma_cons_first_rest(a, self.left@.reverse());
                        lemma_cons_first_rest(Tag::Left(a), sym_diff(self.left@.reverse(), cr));
                        assert(sym_diff(cl, cr) == seq![Tag::Left(a)] + sym_diff(
                            self.left@.reverse(),
                            cr,
                        ));
                    }
                    return Some(Tag::Left(a));
                },
                (None, Some(b)) => {
                    proof {
                        lemma_cons_first_rest(b, self.right@.reverse());
                        lemma_cons_first_rest(Tag::Right(b), sym_diff(cl, self.right@.reverse()));
                        assert(sym_diff(cl, cr) == seq![Tag::Right(b)] + sym_diff(
                            cl,
                            self.right@.reverse(),
                        ));
                    }
                    return Some(Tag::Right(b));
                },
                (Some(a), Some(b)) => {
                    match a.cmp(&b) {
                        Ordering::Greater => {
                            self.rem = Some(Tag::Left(a));
                            proof {
                                lemma_cons_first_rest(a, self.left@.reverse());
                                lemma_cons_first_rest(b, self.right@.reverse());
                                lemma_cons_first_rest(
                                    Tag::Right(b),
                                    sym_diff(cl, self.right@.reverse()),
                                );
                                assert(sym_diff(cl, cr) == seq![Tag::Right(b)] + sym_diff(
                                    cl,
                                    self.right@.reverse(),
                                ));
                            }
                            return Some(Tag::Right(b));
                        },
                        Ordering::Less => {
                            self.rem = Some(Tag::Right(b));
                            proof {
                                lemma_cons_first_rest(a, self.left@.reverse());
                                lemma_cons_first_rest(b, self.right@.reverse());
                                lemma_cons_first_rest(
                                    Tag::Left(a),
                                    sym_diff(self.left@.reverse(), cr),
                                );
                                assert(sym_diff(cl, cr) == seq![Tag::Left(a)] + sym_diff(
                                    self.left@.reverse(),
                                    cr,
                                ));
                            }
                            return Some(Tag::Left(a));
                        },
                        Ordering::Equal => {
                            let ghost step_left = self.left@;
                            let ghost step_right = self.right@;
                            cur_left = self.left.pop();
                            cur_right = self.right.pop();
                            proof {
                                lemma_cons_first_rest(a, step_left.reverse());
                                lemma_cons_first_rest(b, step_right.reverse());
                                assert(sym_diff(cl, cr) == sym_diff(
                                    step_left.reverse(),
                                    step_right.reverse(),
                                ));
                                if step_left.len() > 0 {
                                    lemma_pop_reverse(step_left);
                                }
                                if step_right.len() > 0 {
                                    lemma_pop_reverse(step_right);
                                }
                            }
                        },
                    }
                },
            }
        }
    }
}

} // verus!
