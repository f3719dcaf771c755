//! The two numeric kinds the protocol carries, kept apart by the type system.
//!
//! `Calls` and `Edge` are deltas that accumulate. `Census` is an absolute
//! reading that replaces the previous one. Summing a census is the easiest bug
//! to write against this protocol, so the two never share an addition operator
//! and neither converts into the other. A `Cumulative` grows only through
//! [`Cumulative::accumulate`] and [`Cumulative::absorb`]; an `Absolute` cannot
//! be mutated at all, only overwritten wholesale by a newer reading.
use vstd::prelude::*;

verus! {

/// The sum of two counts, held at the largest count where it would not fit.
pub open spec fn capped(a: u64, b: u64) -> u64 {
    if a + b > u64::MAX {
        u64::MAX
    } else {
        (a + b) as u64
    }
}

/// The product of two counts, held at the largest count where it would not fit.
pub open spec fn capped_product(a: u64, b: u64) -> u64 {
    if a * b > u64::MAX {
        u64::MAX
    } else {
        (a * b) as u64
    }
}

/// Multiplies, stopping at the largest count.
pub fn times(a: u64, b: u64) -> (r: u64)
    ensures
        r == capped_product(a, b),
{
    match a.checked_mul(b) {
        Some(product) => product,
        None => u64::MAX,
    }
}

/// A quantity that grows by folding in one window's delta after another.
#[derive(Debug, Clone, Copy, PartialEq, Eq, PartialOrd, Ord)]
pub struct Cumulative(u64);

impl View for Cumulative {
    type V = u64;

    closed spec fn view(&self) -> u64 {
        self.0
    }
}

impl Default for Cumulative {
    fn default() -> (r: Self)
        ensures
            r@ == 0,
    {
        Cumulative(0)
    }
}

impl Cumulative {
    /// Nothing accumulated yet.
    pub fn zero() -> (r: Cumulative)
        ensures
            r@ == 0,
    {
        Cumulative(0)
    }

    /// Folds one window's delta in. Saturating, because the arithmetic runs on
    /// counts a hostile client chooses and a panic here would take down a
    /// connection the boundary is supposed to contain.
    pub fn accumulate(&mut self, delta: u64)
        ensures
            final(self)@ == capped(old(self)@, delta),
    {
        self.0 = self.0.saturating_add(delta);
    }

    /// Folds another accumulation of the same quantity in, as when a fine
    /// window's total rolls up into a coarse one.
    pub fn absorb(&mut self, other: Cumulative)
        ensures
            final(self)@ == capped(old(self)@, other@),
    {
        self.0 = self.0.saturating_add(other.0);
    }

    pub fn get(self) -> (r: u64)
        ensures
            r == self@,
    {
        self.0
    }
}

/// A reading taken at one instant. A newer reading replaces an older one.
#[derive(Debug, Clone, Copy, PartialEq, Eq, PartialOrd, Ord)]
pub struct Absolute(u64);

impl View for Absolute {
    type V = u64;

    closed spec fn view(&self) -> u64 {
        self.0
    }
}

impl Absolute {
    pub fn reading(value: u64) -> (r: Self)
        ensures
            r@ == value,
    {
        Absolute(value)
    }

    pub fn get(self) -> (r: u64)
        ensures
            r == self@,
    {
        self.0
    }
}

/// A total is exactly the sum while that fits, and the largest count past that.
pub proof fn lemma_a_total_is_the_sum_while_it_fits(a: u64, b: u64)
    ensures
        a + b <= u64::MAX ==> capped(a, b) == a + b,
        a + b > u64::MAX ==> capped(a, b) == u64::MAX,
        a * b <= u64::MAX ==> capped_product(a, b) == a * b,
        a * b > u64::MAX ==> capped_product(a, b) == u64::MAX,
{
}

/// The order in which deltas arrive does not matter to a total, saturated or
/// not.
pub proof fn lemma_deltas_commute(total: u64, a: u64, b: u64)
    ensures
        capped(capped(total, a), b) == capped(capped(total, b), a),
{
}

/// Rolling two deltas up first gives the total that folding them in one after
/// the other gives.
pub proof fn lemma_deltas_roll_up(total: u64, a: u64, b: u64)
    ensures
        capped(capped(total, a), b) == capped(total, capped(a, b)),
{
}

/// A total never falls.
pub proof fn lemma_totals_never_fall(total: u64, delta: u64)
    ensures
        total <= capped(total, delta),
{
}

} // verus!
