//! A hasher offered for maps with integer keys on a measurement hot path.
//!
//! Such a map is keyed by an interned id: a function id, a calling-context id, a
//! bucket index, or a pair of those. A general hash costs more on one `u32` than
//! the rest of the lookup together, and its collision resistance buys nothing
//! there because the keys are counters the probe handed out itself, not input an
//! adversary chooses.
//!
//! So: multiply by the golden-ratio constant, which scatters sequential ids
//! across the whole word, then fold the high half down, so entropy reaches both
//! ends of it.
use vstd::prelude::*;

verus! {

/// 2^64 divided by the golden ratio. Odd, so multiplying by it is invertible
/// and no two distinct ids collapse onto each other.
pub const SCATTER: u64 = 0x9E37_79B9_7F4A_7C15;

#[derive(Debug)]
pub struct IntHasher(u64);

impl View for IntHasher {
    type V = u64;

    closed spec fn view(&self) -> u64 {
        self.0
    }
}

impl Default for IntHasher {
    fn default() -> (r: Self)
        ensures
            r@ == 0,
    {
        IntHasher(0)
    }
}

/// A hash with one more value in it.
pub open spec fn mixed(h: u64, value: u64) -> u64 {
    (h ^ value).wrapping_mul(SCATTER)
}

/// A hash with bytes in it, one by one.
pub open spec fn mixed_bytes(h: u64, bytes: Seq<u8>) -> u64
    decreases bytes.len(),
{
    if bytes.len() == 0 {
        h
    } else {
        mixed(mixed_bytes(h, bytes.drop_last()), bytes.last() as u64)
    }
}

/// A hash as it is handed out, the high half folded down.
pub open spec fn folded(h: u64) -> u64 {
    h ^ (h >> 32)
}

impl IntHasher {
    /// Written so that a tuple key, which arrives as two values, depends on the
    /// order of its fields: `(1, 2)` and `(2, 1)` are different calling contexts
    /// and must not share a slot.
    fn mix(&mut self, value: u64)
        ensures
            final(self)@ == mixed(old(self)@, value),
    {
        self.0 = (self.0 ^ value).wrapping_mul(SCATTER);
    }

    pub fn finish(&self) -> (r: u64)
        ensures
            r == folded(self@),
    {
        self.0 ^ (self.0 >> 32)
    }

    /// Only reached by a key type that hashes as bytes. Nothing on the hot
    /// path does, but a wrong answer here would be a silent collision.
    pub fn write(&mut self, bytes: &[u8])
        ensures
            final(self)@ == mixed_bytes(old(self)@, bytes@),
    {
        let ghost before = self@;
        for n in 0..bytes.len()
            invariant
                self@ == mixed_bytes(before, bytes@.take(n as int)),
        {
            proof {
                assert(bytes@.take(n + 1).drop_last() =~= bytes@.take(n as int));
            }
            self.mix(bytes[n] as u64);
        }
        proof {
            assert(bytes@.take(bytes@.len() as int) =~= bytes@);
        }
    }

    pub fn write_u8(&mut self, value: u8)
        ensures
            final(self)@ == mixed(old(self)@, value as u64),
    {
        self.mix(value as u64);
    }

    pub fn write_u16(&mut self, value: u16)
        ensures
            final(self)@ == mixed(old(self)@, value as u64),
    {
        self.mix(value as u64);
    }

    pub fn write_u32(&mut self, value: u32)
        ensures
            final(self)@ == mixed(old(self)@, value as u64),
    {
        self.mix(value as u64);
    }

    pub fn write_u64(&mut self, value: u64)
        ensures
            final(self)@ == mixed(old(self)@, value),
    {
        self.mix(value);
    }

    pub fn write_usize(&mut self, value: usize)
        ensures
            final(self)@ == mixed(old(self)@, value as u64),
    {
        self.mix(value as u64);
    }
}

impl std::hash::Hasher for IntHasher {
    fn finish(&self) -> (r: u64)
        ensures
            r == folded(self@),
    {
        IntHasher::finish(self)
    }

    fn write(&mut self, bytes: &[u8])
        ensures
            final(self)@ == mixed_bytes(old(self)@, bytes@),
    {
        IntHasher::write(self, bytes);
    }

    fn write_u8(&mut self, value: u8)
        ensures
            final(self)@ == mixed(old(self)@, value as u64),
    {
        IntHasher::write_u8(self, value);
    }

    fn write_u16(&mut self, value: u16)
        ensures
            final(self)@ == mixed(old(self)@, value as u64),
    {
        IntHasher::write_u16(self, value);
    }

    fn write_u32(&mut self, value: u32)
        ensures
            final(self)@ == mixed(old(self)@, value as u64),
    {
        IntHasher::write_u32(self, value);
    }

    fn write_u64(&mut self, value: u64)
        ensures
            final(self)@ == mixed(old(self)@, value),
    {
        IntHasher::write_u64(self, value);
    }

    fn write_usize(&mut self, value: usize)
        ensures
            final(self)@ == mixed(old(self)@, value as u64),
    {
        IntHasher::write_usize(self, value);
    }
}

/// What undoes a multiplication by [`SCATTER`].
const GATHER: u64 = 0xF1DE_83E1_9937_733D;

proof fn lemma_scatter_is_undone(a: u64)
    ensures
        a.wrapping_mul(SCATTER).wrapping_mul(GATHER) == a,
{
    let m: int = 0x1_0000_0000_0000_0000;
    let k: int = 10771413168148108919;
    let (x, s, g) = (a as int, SCATTER as int, GATHER as int);
    assert(s * g == 1 + k * m) by (nonlinear_arith)
        requires
            s == 0x9E37_79B9_7F4A_7C15,
            g == 0xF1DE_83E1_9937_733D,
            k == 10771413168148108919,
            m == 0x1_0000_0000_0000_0000,
    ;
    vstd::arithmetic::div_mod::lemma_mul_mod_noop_left(x * s, g, m);
    assert((x * s) * g == x + (x * k) * m) by (nonlinear_arith)
        requires
            s * g == 1 + k * m,
    ;
    vstd::arithmetic::div_mod::lemma_mod_multiples_vanish(x * k, x, m);
    assert(m * (x * k) + x == x + (x * k) * m) by (nonlinear_arith);
    vstd::arithmetic::div_mod::lemma_small_mod(x as nat, m as nat);
}

/// No two distinct ids collapse onto each other: mixing a value into a hash
/// loses nothing of it, whatever the hash held before.
pub proof fn lemma_mixing_tells_values_apart(h: u64, a: u64, b: u64)
    requires
        mixed(h, a) == mixed(h, b),
    ensures
        a == b,
{
    lemma_scatter_is_undone(h ^ a);
    lemma_scatter_is_undone(h ^ b);
    assert(a == b) by (bit_vector)
        requires
            h ^ a == h ^ b,
    ;
}

/// What was mixed in before is not lost either, so the order of a key's parts
/// matters.
pub proof fn lemma_mixing_keeps_what_came_before(g: u64, h: u64, value: u64)
    requires
        mixed(g, value) == mixed(h, value),
    ensures
        g == h,
{
    lemma_scatter_is_undone(g ^ value);
    lemma_scatter_is_undone(h ^ value);
    assert(g == h) by (bit_vector)
        requires
            g ^ value == h ^ value,
    ;
}

/// Folding leaves the high half as it is and brings it to bear on the low one.
pub proof fn lemma_folding_brings_the_high_half_down(h: u64)
    ensures
        folded(h) >> 32 == h >> 32,
        folded(h) & 0xffff_ffff == (h & 0xffff_ffff) ^ (h >> 32),
{
    assert((h ^ (h >> 32)) >> 32 == h >> 32) by (bit_vector);
    assert((h ^ (h >> 32)) & 0xffff_ffff == (h & 0xffff_ffff) ^ (h >> 32)) by (bit_vector);
}

/// Folding the high half down loses nothing either.
pub proof fn lemma_folding_tells_hashes_apart(a: u64, b: u64)
    requires
        folded(a) == folded(b),
    ensures
        a == b,
{
    assert(a == b) by (bit_vector)
        requires
            a ^ (a >> 32) == b ^ (b >> 32),
    ;
}

/// One id hashes like no other.
pub proof fn lemma_an_id_hashes_like_no_other(a: u64, b: u64)
    requires
        folded(mixed(0, a)) == folded(mixed(0, b)),
    ensures
        a == b,
{
    lemma_folding_tells_hashes_apart(mixed(0, a), mixed(0, b));
    lemma_mixing_tells_values_apart(0, a, b);
}

} // verus!
