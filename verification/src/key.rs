//! The keys a tree can hold.

use vstd::prelude::*;
use crate::text::{decimal, signed_decimal, decimal_string, signed_decimal_string};

verus! {

/// A key type whose order is that of an integer rank, and whose keys can be
/// written out as text.
///
/// Two keys are ordered as their ranks are, and keys of equal rank are the
/// same key, so the order is total and agrees with equality.
pub trait OrderedKey: Copy {
    /// The integer by which this key is ordered.
    spec fn rank(self) -> int;

    /// The text that stands for this key where a tree is drawn.
    spec fn label(self) -> Seq<char>;

    /// Keys of equal rank are equal.
    proof fn rank_is_injective(a: Self, b: Self)
        requires
            a.rank() == b.rank(),
        ensures
            a == b,
    ;

    /// Whether `self` comes strictly before `other`.
    fn less(&self, other: &Self) -> (r: bool)
        ensures
            r == (self.rank() < other.rank()),
    ;

    /// The key written out as text.
    fn to_label(&self) -> (s: String)
        ensures
            s@ == self.label(),
    ;
}

impl OrderedKey for i32 {
    open spec fn rank(self) -> int {
        self as int
    }

    open spec fn label(self) -> Seq<char> {
        signed_decimal(self as int)
    }

    proof fn rank_is_injective(a: Self, b: Self) {
    }

    fn less(&self, other: &Self) -> (r: bool) {
        *self < *other
    }

    fn to_label(&self) -> (s: String) {
        signed_decimal_string(*self as i64)
    }
}

impl OrderedKey for i64 {
    open spec fn rank(self) -> int {
        self as int
    }

    open spec fn label(self) -> Seq<char> {
        signed_decimal(self as int)
    }

    proof fn rank_is_injective(a: Self, b: Self) {
    }

    fn less(&self, other: &Self) -> (r: bool) {
        *self < *other
    }

    fn to_label(&self) -> (s: String) {
        signed_decimal_string(*self as i64)
    }
}

impl OrderedKey for u32 {
    open spec fn rank(self) -> int {
        self as int
    }

    open spec fn label(self) -> Seq<char> {
        decimal(self as nat)
    }

    proof fn rank_is_injective(a: Self, b: Self) {
    }

    fn less(&self, other: &Self) -> (r: bool) {
        *self < *other
    }

    fn to_label(&self) -> (s: String) {
        decimal_string(*self as u64)
    }
}

impl OrderedKey for u64 {
    open spec fn rank(self) -> int {
        self as int
    }

    open spec fn label(self) -> Seq<char> {
        decimal(self as nat)
    }

    proof fn rank_is_injective(a: Self, b: Self) {
    }

    fn less(&self, other: &Self) -> (r: bool) {
        *self < *other
    }

    fn to_label(&self) -> (s: String) {
        decimal_string(*self as u64)
    }
}

impl OrderedKey for usize {
    open spec fn rank(self) -> int {
        self as int
    }

    open spec fn label(self) -> Seq<char> {
        decimal(self as nat)
    }

    proof fn rank_is_injective(a: Self, b: Self) {
    }

    fn less(&self, other: &Self) -> (r: bool) {
        *self < *other
    }

    fn to_label(&self) -> (s: String) {
        decimal_string(*self as u64)
    }
}

} // verus!
