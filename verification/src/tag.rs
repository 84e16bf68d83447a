use vstd::prelude::*;

verus! {

/// An output item of the symmetric difference, marked with the input side it
/// came from.
#[derive(Debug, PartialEq, Eq, Structural)]
pub enum Tag<T> {
    Left(T),
    Right(T),
}

impl<T> Tag<T> {
    /// The wrapped item, regardless of side.
    pub open spec fn item(self) -> T {
        match self {
            Tag::Left(x) => x,
            Tag::Right(x) => x,
        }
    }

    /// Takes the wrapped item out, regardless of side.
    pub fn unwrap(self) -> (r: T)
        ensures
            r == self.item(),
    {
        match self {
            Tag::Left(x) => x,
            Tag::Right(x) => x,
        }
    }

    /// Borrows the wrapped item, regardless of side.
    pub fn value(&self) -> (r: &T)
        ensures
            *r == self.item(),
    {
        match self {
            Tag::Left(x) => x,
            Tag::Right(x) => x,
        }
    }

    /// True exactly when the item came from the left input.
    pub fn is_left(&self) -> (r: bool)
        ensures
            r == (*self is Left),
    {
        match self {
            Tag::Left(_) => true,
            Tag::Right(_) => false,
        }
    }

    /// True exactly when the item came from the right input.
    pub fn is_right(&self) -> (r: bool)
        ensures
            r == (*self is Right),
    {
        match self {
            Tag::Left(_) => false,
            Tag::Right(_) => true,
        }
    }
}

} // verus!
