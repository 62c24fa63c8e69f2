//! The capability a value needs to be stored in a grid: a null value and a
//! test for it.

use vstd::prelude::*;

verus! {

/// A value that can be stored in the cells of a grid.
///
/// Exactly one value of the type is null: it is what unoccupied cells hold.
pub trait Cell: Sized {
    /// The null value, held by every cell that was never written.
    spec fn null_spec() -> Self;

    /// Returns the null value.
    fn null() -> (r: Self)
        ensures
            r == Self::null_spec(),
    ;

    /// Returns true if the cell is null.
    fn is_null(&self) -> (r: bool)
        ensures
            r == (*self == Self::null_spec()),
    ;
}

/// True when `a` is the null value of its type.
pub open spec fn null<A: Cell>(a: A) -> bool {
    a == A::null_spec()
}

/// Encapsulation of an optional value: `None` is the null cell.
#[derive(Clone, Copy, Debug)]
pub struct Opt<T>(pub Option<T>);

impl<T> Cell for Opt<T> {
    open spec fn null_spec() -> Self {
        Opt(None)
    }

    fn null() -> (r: Self) {
        Opt(None)
    }

    fn is_null(&self) -> (r: bool) {
        self.0.is_none()
    }
}

impl Cell for u8 {
    open spec fn null_spec() -> Self {
        0
    }

    fn null() -> (r: Self) {
        0
    }

    fn is_null(&self) -> (r: bool) {
        *self == 0
    }
}

impl Cell for u16 {
    open spec fn null_spec() -> Self {
        0
    }

    fn null() -> (r: Self) {
        0
    }

    fn is_null(&self) -> (r: bool) {
        *self == 0
    }
}

impl Cell for u32 {
    open spec fn null_spec() -> Self {
        0
    }

    fn null() -> (r: Self) {
        0
    }

    fn is_null(&self) -> (r: bool) {
        *self == 0
    }
}

impl Cell for u64 {
    open spec fn null_spec() -> Self {
        0
    }

    fn null() -> (r: Self) {
        0
    }

    fn is_null(&self) -> (r: bool) {
        *self == 0
    }
}

impl Cell for usize {
    open spec fn null_spec() -> Self {
        0
    }

    fn null() -> (r: Self) {
        0
    }

    fn is_null(&self) -> (r: bool) {
        *self == 0
    }
}

impl Cell for i8 {
    open spec fn null_spec() -> Self {
        0
    }

    fn null() -> (r: Self) {
        0
    }

    fn is_null(&self) -> (r: bool) {
        *self == 0
    }
}

impl Cell for i16 {
    open spec fn null_spec() -> Self {
        0
    }

    fn null() -> (r: Self) {
        0
    }

    fn is_null(&self) -> (r: bool) {
        *self == 0
    }
}

impl Cell for i32 {
    open spec fn null_spec() -> Self {
        0
    }

    fn null() -> (r: Self) {
        0
    }

    fn is_null(&self) -> (r: bool) {
        *self == 0
    }
}

impl Cell for i64 {
    open spec fn null_spec() -> Self {
        0
    }

    fn null() -> (r: Self) {
        0
    }

    fn is_null(&self) -> (r: bool) {
        *self == 0
    }
}

impl Cell for isize {
    open spec fn null_spec() -> Self {
        0
    }

    fn null() -> (r: Self) {
        0
    }

    fn is_null(&self) -> (r: bool) {
        *self == 0
    }
}

} // verus!
