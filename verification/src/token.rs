//! Tokens: the atomic units a chain is built over.

use vstd::prelude::*;

verus! {

/// A value that can serve as a state of a chain.
///
/// A token stands for the mathematical value `deep_view()`; two tokens are
/// the same state exactly when these values are equal. The two operations
/// are the capabilities a chain needs: comparing and copying.
pub trait Token: DeepView + Sized {
    /// Whether `self` and `other` stand for the same value.
    fn same_as(&self, other: &Self) -> (r: bool)
        ensures
            r == (self.deep_view() == other.deep_view()),
    ;

    /// A fresh token standing for the same value as `self`.
    fn duplicate(&self) -> (r: Self)
        ensures
            r.deep_view() == self.deep_view(),
    ;
}

impl Token for String {
    fn same_as(&self, other: &Self) -> (r: bool) {
        *self == *other
    }

    fn duplicate(&self) -> (r: Self) {
        self.clone()
    }
}

impl Token for u8 {
    fn same_as(&self, other: &Self) -> (r: bool) {
        *self == *other
    }

    fn duplicate(&self) -> (r: Self) {
        *self
    }
}

impl Token for char {
    fn same_as(&self, other: &Self) -> (r: bool) {
        *self == *other
    }

    fn duplicate(&self) -> (r: Self) {
        *self
    }
}

} // verus!
