//! The per-user counter: one unsigned 64-bit value updated through a
//! caller-supplied transformation, and the standard transformations the
//! request handlers pass in.
//!
//! The update primitives take the transformation as a parameter rather than
//! offering specialized methods, so one pair of primitives serves saturating
//! addition, saturating subtraction and checked subtraction alike.

use vstd::prelude::*;

verus! {

/// A single counter holding an unsigned 64-bit points balance.
pub struct AtomicU64(u64);

impl View for AtomicU64 {
    type V = u64;

    open spec fn view(&self) -> u64 {
        self.value()
    }
}

/// A cell updated in place through a transformation of its current value.
pub trait Atomic {
    type Value;

    /// The current content of the cell.
    spec fn value(&self) -> Self::Value;

    /// The current value.
    fn get(&self) -> (r: Self::Value)
        ensures
            r == self.value(),
    ;

    /// Replaces the value with `f(current, operand)` and returns the value
    /// installed.
    fn update_infallible<F: Fn(Self::Value, Self::Value) -> Self::Value>(
        &mut self,
        operand: Self::Value,
        f: F,
    ) -> (r: Self::Value)
        requires
            call_requires(f, (old(self).value(), operand)),
        ensures
            call_ensures(f, (old(self).value(), operand), r),
            final(self).value() == r,
    ;

    /// Replaces the value with `f(current, operand)` when `f` accepts the
    /// current value, and leaves the cell untouched when `f` refuses.
    fn update_fallible<F: Fn(Self::Value, Self::Value) -> Option<Self::Value>>(
        &mut self,
        operand: Self::Value,
        f: F,
    ) -> (r: Option<Self::Value>)
        requires
            call_requires(f, (old(self).value(), operand)),
        ensures
            call_ensures(f, (old(self).value(), operand), r),
            match r {
                Some(v) => final(self).value() == v,
                None => final(self).value() == old(self).value(),
            },
    ;
}

impl Atomic for AtomicU64 {
    type Value = u64;

    closed spec fn value(&self) -> u64 {
        self.0
    }

    fn get(&self) -> (r: u64) {
        self.0
    }

    fn update_infallible<F: Fn(u64, u64) -> u64>(&mut self, operand: u64, f: F) -> (r: u64) {
        let new = f(self.0, operand);
        self.0 = new;
        new
    }

    fn update_fallible<F: Fn(u64, u64) -> Option<u64>>(&mut self, operand: u64, f: F) -> (r:
        Option<u64>) {
        match f(self.0, operand) {
            Some(new) => {
                self.0 = new;
                Some(new)
            },
            None => None,
        }
    }
}

impl AtomicU64 {
    /// A counter holding `v`.
    pub fn new(v: u64) -> (r: AtomicU64)
        ensures
            r@ == v,
            r == AtomicU64::spec_new(v),
    {
        AtomicU64(v)
    }
}

impl Default for AtomicU64 {
    /// A counter holding zero.
    fn default() -> (r: AtomicU64)
        ensures
            r@ == 0,
    {
        AtomicU64(0)
    }
}

impl From<u64> for AtomicU64 {
    /// A counter holding `v`.
    fn from(v: u64) -> (r: AtomicU64) {
        AtomicU64(v)
    }
}

impl vstd::std_specs::convert::FromSpecImpl<u64> for AtomicU64 {
    open spec fn obeys_from_spec() -> bool {
        true
    }

    open spec fn from_spec(v: u64) -> AtomicU64 {
        AtomicU64::spec_new(v)
    }
}

impl AtomicU64 {
    /// The counter holding `v`, as the contracts see it.
    pub closed spec fn spec_new(v: u64) -> AtomicU64 {
        AtomicU64(v)
    }
}

/// What a counter built from a plain value holds: `AtomicU64::from(v)` and
/// `AtomicU64::new(v)` both read back as `v`.
pub broadcast proof fn lemma_spec_new_value(v: u64)
    ensures
        (#[trigger] AtomicU64::spec_new(v))@ == v,
{
}

/// Addition clamped at `u64::MAX`.
pub open spec fn spec_sat_add(a: u64, b: u64) -> u64 {
    if a + b > u64::MAX {
        u64::MAX
    } else {
        (a + b) as u64
    }
}

/// Subtraction clamped at zero.
pub open spec fn spec_sat_sub(a: u64, b: u64) -> u64 {
    if a >= b {
        (a - b) as u64
    } else {
        0
    }
}

/// Subtraction refused when it would underflow.
pub open spec fn spec_checked_sub(a: u64, b: u64) -> Option<u64> {
    if a >= b {
        Some((a - b) as u64)
    } else {
        None
    }
}

/// Saturating addition, the transformation behind `Add` and positive bulk
/// edits.
pub fn saturating_add(a: u64, b: u64) -> (r: u64)
    ensures
        r == spec_sat_add(a, b),
{
    a.saturating_add(b)
}

/// Saturating subtraction, the transformation behind forced `Remove` and
/// negative bulk edits.
pub fn saturating_sub(a: u64, b: u64) -> (r: u64)
    ensures
        r == spec_sat_sub(a, b),
{
    a.saturating_sub(b)
}

/// Checked subtraction, the transformation behind unforced `Remove`.
pub fn checked_sub(a: u64, b: u64) -> (r: Option<u64>)
    ensures
        r == spec_checked_sub(a, b),
{
    a.checked_sub(b)
}

} // verus!
