use vstd::prelude::*;

verus! {

/// A single-bit mask selecting one flag of a `BitField`.
#[derive(Clone, Copy, Debug, PartialEq, Eq, Hash, Structural)]
pub struct BFNDX(pub u64);

impl BFNDX {
    /// The mask of bit number `ndx`.
    pub fn new(ndx: u64) -> (r: BFNDX)
        requires
            ndx < 64,
        ensures
            r.0 == 1u64 << ndx,
    {
        BFNDX(1u64 << ndx)
    }

    pub open spec fn mask(self) -> u64 {
        self.0
    }
}

/// A set of up to 64 boolean flags.
#[derive(Clone, Copy, Debug, Default, PartialEq, Eq, Hash, Structural)]
pub struct BitField(pub u64);

/// Whether any bit of `mask` is on in `bits`: the flag test.
pub open spec fn bits_test(bits: u64, mask: u64) -> bool {
    bits & mask != 0
}

impl BitField {
    pub open spec fn bits(self) -> u64 {
        self.0
    }

    /// Whether the flag `ndx` is on.
    pub open spec fn spec_get(self, ndx: BFNDX) -> bool {
        bits_test(self.0, ndx.0)
    }

    /// A field with every flag off.
    pub fn new() -> (r: BitField)
        ensures
            r.bits() == 0,
    {
        BitField(0)
    }

    pub fn get(&self, ndx: BFNDX) -> (r: bool)
        ensures
            r == self.spec_get(ndx),
    {
        (self.0 & ndx.0) != 0
    }

    /// Turns the flag `ndx` on or off, leaving every bit outside its mask as it was.
    pub fn set(&mut self, ndx: BFNDX, val: bool)
        ensures
            val ==> final(self).bits() == old(self).bits() | ndx.mask(),
            !val ==> final(self).bits() == old(self).bits() & !ndx.mask(),
    {
        if val {
            self.0 = self.0 | ndx.0;
        } else {
            self.0 = self.0 & !ndx.0;
        }
    }

    /// Flips the bits of the mask `ndx`.
    pub fn toggle(&mut self, ndx: BFNDX)
        ensures
            final(self).bits() == old(self).bits() ^ ndx.mask(),
    {
        self.0 = self.0 ^ ndx.0;
    }
}

/// Setting one flag makes it read back as set, and leaves every flag with a
/// different bit as it was.
pub proof fn lemma_set_get(bits: u64, i: u64, j: u64, val: bool)
    requires
        i < 64,
        j < 64,
    ensures
        ({
            let m = 1u64 << i;
            let after = if val { bits | m } else { bits & !m };
            &&& bits_test(after, m) == val
            &&& i != j ==> bits_test(after, 1u64 << j) == bits_test(bits, 1u64 << j)
        }),
{
    let m = 1u64 << i;
    let n = 1u64 << j;
    assert((bits | m) & m != 0) by (bit_vector)
        requires
            m == 1u64 << i,
            i < 64,
    ;
    assert((bits & !m) & m == 0) by (bit_vector)
        requires
            m == 1u64 << i,
            i < 64,
    ;
    if i != j {
        assert(((bits | m) & n != 0) == (bits & n != 0)) by (bit_vector)
            requires
                m == 1u64 << i,
                n == 1u64 << j,
                i < 64,
                j < 64,
                i != j,
        ;
        assert(((bits & !m) & n != 0) == (bits & n != 0)) by (bit_vector)
            requires
                m == 1u64 << i,
                n == 1u64 << j,
                i < 64,
                j < 64,
                i != j,
        ;
    }
}

/// Toggling a flag inverts it, and leaves every flag with a different bit as it was.
pub proof fn lemma_toggle_get(bits: u64, i: u64, j: u64)
    requires
        i < 64,
        j < 64,
    ensures
        bits_test(bits ^ (1u64 << i), 1u64 << i) == !bits_test(bits, 1u64 << i),
        i != j ==> bits_test(bits ^ (1u64 << i), 1u64 << j) == bits_test(bits, 1u64 << j),
{
    let m = 1u64 << i;
    let n = 1u64 << j;
    assert(((bits ^ m) & m != 0) == !(bits & m != 0)) by (bit_vector)
        requires
            m == 1u64 << i,
            i < 64,
    ;
    if i != j {
        assert(((bits ^ m) & n != 0) == (bits & n != 0)) by (bit_vector)
            requires
                m == 1u64 << i,
                n == 1u64 << j,
                i < 64,
                j < 64,
                i != j,
        ;
    }
}

} // verus!
