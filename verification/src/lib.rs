//! Bitfield structs, batteries included: layouts of named fields over a
//! single unsigned storage word, with MSB-0 or LSB-0 bit numbering, signed,
//! enum and nested fields, non-contiguous fields, readonly fields, aliases,
//! overlay groups and default values; plus masks over bit ranges and the
//! extraction, insertion and placement of bits.
use vstd::prelude::*;
use vstd::arithmetic::power2::pow2;

pub mod access;
pub mod bit_enum;
pub mod bitfield;
pub mod bits;
pub mod bytes;
pub mod define;
pub mod defaults;
pub mod laws;
pub mod layout;
pub mod mask;
pub mod model;
pub mod ordering;
pub mod parse;
pub mod text;
pub mod validate;

verus! {

/// Types that can be used as the backing storage of a bitfield.
///
/// Implemented for `u8`, `u16`, `u32`, `u64`, and `u128`.
pub trait BitStorage: Copy + Sized {
    /// Total number of bits in this type.
    const BITS: u32;
    /// The zero value for this type.
    const ZERO: Self;

    /// The number this value denotes.
    spec fn spec_value(self) -> nat;

    /// The number of bits of this type.
    spec fn spec_bits() -> nat;

    /// Truncating cast from `u128`: keeps the low bits that fit.
    fn from_u128(v: u128) -> (r: Self)
        ensures
            r.spec_value() == (v as nat) % pow2(Self::spec_bits());

    /// Widening cast to `u128`.
    fn to_u128(self) -> (r: u128)
        ensures
            r == self.spec_value();
}

/// Values with a raw storage word and a bit numbering: bitfield values and
/// bit enum values.
pub trait BitField: Sized {
    /// The raw storage word.
    spec fn spec_raw(&self) -> u128;

    /// Whether bit 0 is the most significant bit.
    spec fn spec_is_msb0(&self) -> bool;

    /// Number of bits of the storage type.
    spec fn spec_bits(&self) -> nat;

    /// The value is well formed.
    spec fn spec_wf(&self) -> bool;

    /// `other` is a value of the same kind: everything but the raw word is
    /// the same (for a bitfield value, the layout it is read through).
    spec fn spec_same_kind(&self, other: &Self) -> bool;

    /// Two values of the same kind with the same raw word are equal.
    proof fn lemma_same_kind_same_raw(a: &Self, b: &Self)
        requires
            a.spec_same_kind(b),
            a.spec_raw() == b.spec_raw(),
        ensures
            *a == *b;

    /// `true` if this value uses MSB0 ordering (bit 0 = most-significant bit).
    fn is_msb0(&self) -> (r: bool)
        ensures
            r == self.spec_is_msb0();

    /// Number of bits of the storage type.
    fn storage_bits(&self) -> (r: u32)
        requires
            self.spec_wf(),
        ensures
            r == self.spec_bits(),
            8 <= r <= 128;

    /// Returns the raw storage value.
    fn raw_value(&self) -> (r: u128)
        requires
            self.spec_wf(),
        ensures
            r == self.spec_raw(),
            r < pow2(self.spec_bits());

    /// A value of the same kind holding the raw storage value `raw`.
    fn with_raw(&self, raw: u128) -> (r: Self)
        requires
            self.spec_wf(),
            raw < pow2(self.spec_bits()),
        ensures
            r.spec_wf(),
            r.spec_raw() == raw,
            r.spec_is_msb0() == self.spec_is_msb0(),
            r.spec_bits() == self.spec_bits(),
            r.spec_same_kind(self);
}

} // verus!

verus! {

proof fn lemma_pow2_widths()
    ensures
        pow2(8) == 0x100,
        pow2(16) == 0x1_0000,
        pow2(32) == 0x1_0000_0000,
        pow2(64) == 0x1_0000_0000_0000_0000,
        pow2(128) == 0x1_0000_0000_0000_0000_0000_0000_0000_0000,
{
    vstd::arithmetic::power2::lemma2_to64();
    crate::bits::lemma_pow2_128();
}

impl BitStorage for u8 {
    const BITS: u32 = 8;
    const ZERO: Self = 0;

    open spec fn spec_value(self) -> nat {
        self as nat
    }

    open spec fn spec_bits() -> nat {
        8
    }

    fn from_u128(v: u128) -> (r: Self) {
        proof { lemma_pow2_widths(); }
        assert(v & 0xffu128 == v % 0x100) by (bit_vector);
        (v & 0xff) as u8
    }

    fn to_u128(self) -> (r: u128) {
        self as u128
    }
}

impl BitStorage for u16 {
    const BITS: u32 = 16;
    const ZERO: Self = 0;

    open spec fn spec_value(self) -> nat {
        self as nat
    }

    open spec fn spec_bits() -> nat {
        16
    }

    fn from_u128(v: u128) -> (r: Self) {
        proof { lemma_pow2_widths(); }
        assert(v & 0xffffu128 == v % 0x1_0000) by (bit_vector);
        (v & 0xffff) as u16
    }

    fn to_u128(self) -> (r: u128) {
        self as u128
    }
}

impl BitStorage for u32 {
    const BITS: u32 = 32;
    const ZERO: Self = 0;

    open spec fn spec_value(self) -> nat {
        self as nat
    }

    open spec fn spec_bits() -> nat {
        32
    }

    fn from_u128(v: u128) -> (r: Self) {
        proof { lemma_pow2_widths(); }
        assert(v & 0xffff_ffffu128 == v % 0x1_0000_0000) by (bit_vector);
        (v & 0xffff_ffff) as u32
    }

    fn to_u128(self) -> (r: u128) {
        self as u128
    }
}

impl BitStorage for u64 {
    const BITS: u32 = 64;
    const ZERO: Self = 0;

    open spec fn spec_value(self) -> nat {
        self as nat
    }

    open spec fn spec_bits() -> nat {
        64
    }

    fn from_u128(v: u128) -> (r: Self) {
        proof { lemma_pow2_widths(); }
        assert(v & 0xffff_ffff_ffff_ffffu128 == v % 0x1_0000_0000_0000_0000) by (bit_vector);
        (v & 0xffff_ffff_ffff_ffff) as u64
    }

    fn to_u128(self) -> (r: u128) {
        self as u128
    }
}

impl BitStorage for u128 {
    const BITS: u32 = 128;
    const ZERO: Self = 0;

    open spec fn spec_value(self) -> nat {
        self as nat
    }

    open spec fn spec_bits() -> nat {
        128
    }

    fn from_u128(v: u128) -> (r: Self) {
        proof {
            lemma_pow2_widths();
            vstd::arithmetic::div_mod::lemma_small_mod(v as nat, pow2(128));
        }
        v
    }

    fn to_u128(self) -> (r: u128) {
        self
    }
}

} // verus!
