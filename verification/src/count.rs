//! Element types of a multiset: the scalar trait that every element type has,
//! and the unsigned counter types whose values are multiplicities.
use rand::rngs::StdRng;
use rand::Rng;
use vstd::prelude::*;

verus! {

/// The random number generator that `Multiset::choose_random` draws from.
#[verifier::external_type_specification]
#[verifier::external_body]
pub struct ExStdRng(StdRng);

/// A value that can be stored in a multiset slot and copied out of it.
pub trait ElemScalar: Copy {
    /// A copy of `self`.
    fn inlined_clone(&self) -> (r: Self)
        ensures
            r == *self,
    ;
}

impl<T: Copy> ElemScalar for T {
    fn inlined_clone(&self) -> (r: T) {
        *self
    }
}

/// An unsigned integer type used as a multiplicity.
///
/// `count_value` is the number a value stands for; every operation of the
/// trait is stated over it.
pub trait Count: ElemScalar {
    /// The natural number that this count stands for.
    spec fn count_value(self) -> int;

    /// The largest count the type can hold.
    spec fn max_count() -> int;

    /// Counts lie in `0 ..= max_count()`, and the type holds at least `1`.
    proof fn lemma_count_bounds(self)
        ensures
            0 <= self.count_value() <= Self::max_count(),
            1 <= Self::max_count(),
    ;

    /// Two counts with the same value are the same count.
    proof fn lemma_count_injective(self, other: Self)
        ensures
            self.count_value() == other.count_value() ==> self == other,
    ;

    /// The count `0`.
    fn zero() -> (r: Self)
        ensures
            r.count_value() == 0,
    ;

    /// The count `1`.
    fn one() -> (r: Self)
        ensures
            r.count_value() == 1,
    ;

    /// `self < other`.
    fn is_less(&self, other: &Self) -> (r: bool)
        ensures
            r == (self.count_value() < other.count_value()),
    ;

    /// `self == other`.
    fn is_equal(&self, other: &Self) -> (r: bool)
        ensures
            r == (self.count_value() == other.count_value()),
    ;

    /// `self + other`, where the sum fits in the type.
    fn plus(self, other: Self) -> (r: Self)
        requires
            self.count_value() + other.count_value() <= Self::max_count(),
        ensures
            r.count_value() == self.count_value() + other.count_value(),
    ;

    /// A count drawn from `rng` in `low .. high`.
    fn random_in(rng: &mut StdRng, low: Self, high: Self) -> (r: Self)
        requires
            low.count_value() < high.count_value(),
        ensures
            low.count_value() <= r.count_value() < high.count_value(),
    ;
}

/// `rand::Rng::gen_range` on `u8`: rand documents a value in `[low, high)`, and
/// a panic when `low >= high`, which `requires` rules out. Which value comes out
/// depends on the generator's state and is not stated.
#[verifier::external_body]
fn gen_range_u8(rng: &mut StdRng, low: u8, high: u8) -> (r: u8)
    requires
        low < high,
    ensures
        low <= r < high,
{
    rng.gen_range(low, high)
}

/// `rand::Rng::gen_range` on `u16`, as for `gen_range_u8`.
#[verifier::external_body]
fn gen_range_u16(rng: &mut StdRng, low: u16, high: u16) -> (r: u16)
    requires
        low < high,
    ensures
        low <= r < high,
{
    rng.gen_range(low, high)
}

/// `rand::Rng::gen_range` on `u32`, as for `gen_range_u8`.
#[verifier::external_body]
fn gen_range_u32(rng: &mut StdRng, low: u32, high: u32) -> (r: u32)
    requires
        low < high,
    ensures
        low <= r < high,
{
    rng.gen_range(low, high)
}

/// `rand::Rng::gen_range` on `u64`, as for `gen_range_u8`.
#[verifier::external_body]
fn gen_range_u64(rng: &mut StdRng, low: u64, high: u64) -> (r: u64)
    requires
        low < high,
    ensures
        low <= r < high,
{
    rng.gen_range(low, high)
}

/// `rand::Rng::gen_range` on `usize`, as for `gen_range_u8`.
#[verifier::external_body]
fn gen_range_usize(rng: &mut StdRng, low: usize, high: usize) -> (r: usize)
    requires
        low < high,
    ensures
        low <= r < high,
{
    rng.gen_range(low, high)
}

impl Count for u8 {
    open spec fn count_value(self) -> int {
        self as int
    }

    open spec fn max_count() -> int {
        u8::MAX as int
    }

    proof fn lemma_count_bounds(self) {
    }

    proof fn lemma_count_injective(self, other: Self) {
    }

    fn zero() -> (r: u8) {
        0
    }

    fn one() -> (r: u8) {
        1
    }

    fn is_less(&self, other: &Self) -> (r: bool) {
        *self < *other
    }

    fn is_equal(&self, other: &Self) -> (r: bool) {
        *self == *other
    }

    fn plus(self, other: Self) -> (r: u8) {
        self + other
    }

    fn random_in(rng: &mut StdRng, low: Self, high: Self) -> (r: u8) {
        gen_range_u8(rng, low, high)
    }
}

impl Count for u16 {
    open spec fn count_value(self) -> int {
        self as int
    }

    open spec fn max_count() -> int {
        u16::MAX as int
    }

    proof fn lemma_count_bounds(self) {
    }

    proof fn lemma_count_injective(self, other: Self) {
    }

    fn zero() -> (r: u16) {
        0
    }

    fn one() -> (r: u16) {
        1
    }

    fn is_less(&self, other: &Self) -> (r: bool) {
        *self < *other
    }

    fn is_equal(&self, other: &Self) -> (r: bool) {
        *self == *other
    }

    fn plus(self, other: Self) -> (r: u16) {
        self + other
    }

    fn random_in(rng: &mut StdRng, low: Self, high: Self) -> (r: u16) {
        gen_range_u16(rng, low, high)
    }
}

impl Count for u32 {
    open spec fn count_value(self) -> int {
        self as int
    }

    open spec fn max_count() -> int {
        u32::MAX as int
    }

    proof fn lemma_count_bounds(self) {
    }

    proof fn lemma_count_injective(self, other: Self) {
    }

    fn zero() -> (r: u32) {
        0
    }

    fn one() -> (r: u32) {
        1
    }

    fn is_less(&self, other: &Self) -> (r: bool) {
        *self < *other
    }

    fn is_equal(&self, other: &Self) -> (r: bool) {
        *self == *other
    }

    fn plus(self, other: Self) -> (r: u32) {
        self + other
    }

    fn random_in(rng: &mut StdRng, low: Self, high: Self) -> (r: u32) {
        gen_range_u32(rng, low, high)
    }
}

impl Count for u64 {
    open spec fn count_value(self) -> int {
        self as int
    }

    open spec fn max_count() -> int {
        u64::MAX as int
    }

    proof fn lemma_count_bounds(self) {
    }

    proof fn lemma_count_injective(self, other: Self) {
    }

    fn zero() -> (r: u64) {
        0
    }

    fn one() -> (r: u64) {
        1
    }

    fn is_less(&self, other: &Self) -> (r: bool) {
        *self < *other
    }

    fn is_equal(&self, other: &Self) -> (r: bool) {
        *self == *other
    }

    fn plus(self, other: Self) -> (r: u64) {
        self + other
    }

    fn random_in(rng: &mut StdRng, low: Self, high: Self) -> (r: u64) {
        gen_range_u64(rng, low, high)
    }
}

impl Count for usize {
    open spec fn count_value(self) -> int {
        self as int
    }

    open spec fn max_count() -> int {
        usize::MAX as int
    }

    proof fn lemma_count_bounds(self) {
    }

    proof fn lemma_count_injective(self, other: Self) {
    }

    fn zero() -> (r: usize) {
        0
    }

    fn one() -> (r: usize) {
        1
    }

    fn is_less(&self, other: &Self) -> (r: bool) {
        *self < *other
    }

    fn is_equal(&self, other: &Self) -> (r: bool) {
        *self == *other
    }

    fn plus(self, other: Self) -> (r: usize) {
        self + other
    }

    fn random_in(rng: &mut StdRng, low: Self, high: Self) -> (r: usize) {
        gen_range_usize(rng, low, high)
    }
}

} // verus!
