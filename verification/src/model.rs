//! The mathematical values that the values of a program stand for.

use vstd::prelude::*;

verus! {

/// A type whose values stand for mathematical values.
pub trait Modeled {
    type M;

    spec fn m(&self) -> Self::M;
}

impl Modeled for () {
    type M = ();

    open spec fn m(&self) -> () {
        ()
    }
}

impl Modeled for bool {
    type M = bool;

    open spec fn m(&self) -> bool {
        *self
    }
}

impl Modeled for usize {
    type M = int;

    open spec fn m(&self) -> int {
        *self as int
    }
}

impl Modeled for String {
    type M = Seq<char>;

    open spec fn m(&self) -> Seq<char> {
        self@
    }
}

impl<T: Modeled> Modeled for Option<T> {
    type M = Option<T::M>;

    open spec fn m(&self) -> Option<T::M> {
        match self {
            Some(x) => Some(x.m()),
            None => None,
        }
    }
}

impl<T: Modeled, E: Modeled> Modeled for Result<T, E> {
    type M = Result<T::M, E::M>;

    open spec fn m(&self) -> Result<T::M, E::M> {
        match self {
            Ok(x) => Ok(x.m()),
            Err(e) => Err(e.m()),
        }
    }
}

impl<T: Modeled> Modeled for Vec<T> {
    type M = Seq<T::M>;

    open spec fn m(&self) -> Seq<T::M> {
        Seq::new(self@.len(), |i: int| self@[i].m())
    }
}

} // verus!
