use vstd::prelude::*;

verus! {

/// A type ordered by an integer key.
///
/// The containers and algorithms of this crate compare elements through
/// this trait, so every contract about ordering is stated over the
/// mathematical key, where the solver reasons with plain integer
/// arithmetic. The key of the integer types below is the value itself.
pub trait KeyOrd: Sized {
    /// The mathematical key that orders values of this type.
    spec fn key(self) -> int;

    /// Executable strict comparison, `self < other` on keys.
    fn lt(&self, other: &Self) -> (r: bool)
        ensures
            r == (self.key() < other.key()),
    ;

    /// Executable comparison, `self <= other` on keys.
    fn le(&self, other: &Self) -> (r: bool)
        ensures
            r == (self.key() <= other.key()),
    ;

    /// Executable key equality.
    fn key_eq(&self, other: &Self) -> (r: bool)
        ensures
            r == (self.key() == other.key()),
    ;
}

impl KeyOrd for i32 {
    open spec fn key(self) -> int {
        self as int
    }

    fn lt(&self, other: &Self) -> (r: bool) {
        *self < *other
    }

    fn le(&self, other: &Self) -> (r: bool) {
        *self <= *other
    }

    fn key_eq(&self, other: &Self) -> (r: bool) {
        *self == *other
    }
}

impl KeyOrd for i64 {
    open spec fn key(self) -> int {
        self as int
    }

    fn lt(&self, other: &Self) -> (r: bool) {
        *self < *other
    }

    fn le(&self, other: &Self) -> (r: bool) {
        *self <= *other
    }

    fn key_eq(&self, other: &Self) -> (r: bool) {
        *self == *other
    }
}

impl KeyOrd for u64 {
    open spec fn key(self) -> int {
        self as int
    }

    fn lt(&self, other: &Self) -> (r: bool) {
        *self < *other
    }

    fn le(&self, other: &Self) -> (r: bool) {
        *self <= *other
    }

    fn key_eq(&self, other: &Self) -> (r: bool) {
        *self == *other
    }
}

impl KeyOrd for usize {
    open spec fn key(self) -> int {
        self as int
    }

    fn lt(&self, other: &Self) -> (r: bool) {
        *self < *other
    }

    fn le(&self, other: &Self) -> (r: bool) {
        *self <= *other
    }

    fn key_eq(&self, other: &Self) -> (r: bool) {
        *self == *other
    }
}

} // verus!
