//! Bit-level vocabulary shared by the specifications: what it means for a
//! bit of a storage value to be set, and the facts that connect the shift and
//! mask operators to that meaning.
use vstd::prelude::*;
use vstd::arithmetic::power2::{pow2, lemma_pow2_unfold, lemma_pow2_pos, lemma_pow2_strictly_increases,
    lemma_pow2_adds};
use vstd::arithmetic::div_mod::{lemma_div_denominator, lemma_fundamental_div_mod, lemma_small_mod};
use vstd::bits::lemma_u128_shr_is_div;

verus! {

/// Bit `i` (counted from the least-significant bit) of `x` is set.
pub open spec fn bit(x: u128, i: nat) -> bool {
    i < 128 && (x >> (i as u128)) & 1u128 == 1u128
}

/// Bit `i` of a natural number.
pub open spec fn nbit(x: nat, i: nat) -> bool {
    (x / pow2(i)) % 2 == 1
}

/// The value with the low `w` bits set (all bits when `w >= 128`).
pub open spec fn low_mask(w: nat) -> u128 {
    if w >= 128 { u128::MAX } else { (pow2(w) - 1) as u128 }
}

pub proof fn lemma_pow2_0_1()
    ensures pow2(0) == 1, pow2(1) == 2,
{
    lemma_pow2_unfold(1);
    vstd::arithmetic::power2::lemma2_to64();
}

pub proof fn lemma_pow2_128()
    ensures pow2(128) == 0x1_0000_0000_0000_0000_0000_0000_0000_0000,
{
    vstd::arithmetic::power2::lemma2_to64();
    vstd::arithmetic::power2::lemma2_to64_rest();
    lemma_pow2_adds(64, 64);
}

/// The shift-and-mask view of a bit agrees with the arithmetic one.
pub proof fn lemma_bit_nat(x: u128, i: nat)
    requires i < 128,
    ensures bit(x, i) == nbit(x as nat, i),
{
    let s = i as u128;
    lemma_u128_shr_is_div(x, s);
    let y = x >> s;
    assert(y & 1u128 == y % 2) by (bit_vector);
}

proof fn lemma_nbit_div2(x: nat, i: nat)
    ensures nbit(x / 2, i) == nbit(x, i + 1),
{
    lemma_pow2_unfold(i + 1);
    lemma_pow2_pos(i);
    lemma_div_denominator(x as int, 2, pow2(i) as int);
    assert(pow2(i + 1) == 2 * pow2(i));
}

proof fn lemma_nat_ext(x: nat, y: nat, n: nat)
    requires
        x < pow2(n),
        y < pow2(n),
        forall|i: nat| i < n ==> #[trigger] nbit(x, i) == nbit(y, i),
    ensures
        x == y,
    decreases n,
{
    lemma_pow2_0_1();
    if n == 0 {
    } else {
        assert(nbit(x, 0) == nbit(y, 0));
        assert(x % 2 == y % 2);
        lemma_pow2_unfold(n);
        let x2 = x / 2;
        let y2 = y / 2;
        assert forall|i: nat| i < (n - 1) as nat implies #[trigger] nbit(x2, i) == nbit(y2, i) by {
            lemma_nbit_div2(x, i);
            lemma_nbit_div2(y, i);
            assert(nbit(x, i + 1) == nbit(y, i + 1));
        }
        lemma_nat_ext(x2, y2, (n - 1) as nat);
        lemma_fundamental_div_mod(x as int, 2);
        lemma_fundamental_div_mod(y as int, 2);
    }
}

/// Two storage values with the same bits are equal.
pub proof fn lemma_bits_ext(x: u128, y: u128)
    requires
        forall|i: nat| i < 128 ==> #[trigger] bit(x, i) == bit(y, i),
    ensures
        x == y,
{
    assert forall|i: nat| i < 128 implies #[trigger] nbit(x as nat, i) == nbit(y as nat, i) by {
        lemma_bit_nat(x, i);
        lemma_bit_nat(y, i);
        assert(bit(x, i) == bit(y, i));
    }
    vstd::arithmetic::power2::lemma2_to64_rest();
    assert(pow2(128) == pow2(64) * pow2(64)) by { lemma_pow2_adds(64, 64); }
    assert(pow2(128) == 0x1_0000_0000_0000_0000_0000_0000_0000_0000) by {
        vstd::arithmetic::power2::lemma2_to64();
    }
    lemma_nat_ext(x as nat, y as nat, 128);
}

/// A value lies below `2^n` exactly when none of its bits from `n` upwards is set.
pub proof fn lemma_bits_below(x: u128, n: nat)
    requires n <= 128,
    ensures
        x < pow2(n) <==> (forall|i: nat| n <= i ==> !#[trigger] bit(x, i)),
{
    if x < pow2(n) {
        assert forall|i: nat| n <= i implies !#[trigger] bit(x, i) by {
            if i < 128 {
                lemma_bit_nat(x, i);
                if n < i { lemma_pow2_strictly_increases(n, i); }
                lemma_pow2_pos(i);
                vstd::arithmetic::div_mod::lemma_basic_div(x as int, pow2(i) as int);
            }
        }
    }
    if forall|i: nat| n <= i ==> !#[trigger] bit(x, i) {
        if n < 128 {
            let m = low_mask(n);
            let y = x & m;
            assert forall|i: nat| i < 128 implies #[trigger] bit(y, i) == bit(x, i) by {
                lemma_and_bit(x, m, i);
                lemma_low_mask_bit(n, i);
            }
            lemma_bits_ext(y, x);
            assert(x & m <= m) by (bit_vector);
            lemma_pow2_strictly_increases(n, 128);
            lemma_pow2_128();
            lemma_pow2_pos(n);
        } else {
            assert(pow2(128) == 0x1_0000_0000_0000_0000_0000_0000_0000_0000) by {
                vstd::arithmetic::power2::lemma2_to64();
                vstd::arithmetic::power2::lemma2_to64_rest();
                lemma_pow2_adds(64, 64);
            }
        }
    }
}

pub proof fn lemma_and_bit(x: u128, y: u128, i: nat)
    ensures bit(x & y, i) == (bit(x, i) && bit(y, i)),
{
    if i < 128 {
        let s = i as u128;
        assert((((x & y) >> s) & 1u128 == 1u128) == (((x >> s) & 1u128 == 1u128) && ((y >> s) & 1u128 == 1u128)))
            by (bit_vector);
    }
}

pub proof fn lemma_or_bit(x: u128, y: u128, i: nat)
    ensures bit(x | y, i) == (bit(x, i) || bit(y, i)),
{
    if i < 128 {
        let s = i as u128;
        assert((((x | y) >> s) & 1u128 == 1u128) == (((x >> s) & 1u128 == 1u128) || ((y >> s) & 1u128 == 1u128)))
            by (bit_vector);
    }
}

pub proof fn lemma_xor_bit(x: u128, y: u128, i: nat)
    ensures bit(x ^ y, i) == (i < 128 && bit(x, i) != bit(y, i)),
{
    if i < 128 {
        let s = i as u128;
        assert((((x ^ y) >> s) & 1u128 == 1u128) == (((x >> s) & 1u128 == 1u128) != ((y >> s) & 1u128 == 1u128)))
            by (bit_vector);
    }
}

pub proof fn lemma_not_bit(x: u128, i: nat)
    ensures bit(!x, i) == (i < 128 && !bit(x, i)),
{
    if i < 128 {
        let s = i as u128;
        assert((((!x) >> s) & 1u128 == 1u128) == !((x >> s) & 1u128 == 1u128)) by (bit_vector)
            requires s < 128;
    }
}

/// Shifting left by `o` moves bit `i - o` to bit `i`.
pub proof fn lemma_shl_bit(y: u128, o: nat, i: nat)
    requires o < 128,
    ensures bit(y << (o as u128), i) == (o <= i && i < 128 && bit(y, (i - o) as nat)),
{
    if i < 128 {
        let s = i as u128;
        let t = o as u128;
        assert((((y << t) >> s) & 1u128 == 1u128) == (s >= t && (y >> (s - t) as u128) & 1u128 == 1u128))
            by (bit_vector)
            requires s < 128, t < 128;
        if o <= i {
            assert(((i - o) as nat) as u128 == (s - t) as u128);
        }
    }
}

/// Shifting right by `o` moves bit `i + o` to bit `i`.
pub proof fn lemma_shr_bit(y: u128, o: nat, i: nat)
    requires o < 128,
    ensures bit(y >> (o as u128), i) == bit(y, i + o),
{
    if i < 128 {
        let s = i as u128;
        let t = o as u128;
        assert((((y >> t) >> s) & 1u128 == 1u128) == (s + t < 128 && (y >> (s + t) as u128) & 1u128 == 1u128))
            by (bit_vector)
            requires s < 128, t < 128;
    }
}

pub proof fn lemma_low_mask_bit(w: nat, i: nat)
    ensures bit(low_mask(w), i) == (i < 128 && i < w),
{
    if i < 128 {
        let s = i as u128;
        if w >= 128 {
            assert((0xffff_ffff_ffff_ffff_ffff_ffff_ffff_ffffu128 >> s) & 1u128 == 1u128) by (bit_vector) requires s < 128;
        } else {
            let t = w as u128;
            lemma_shl_one(w);
            assert(((((1u128 << t) - 1u128) as u128 >> s) & 1u128 == 1u128) == (s < t))
                by (bit_vector)
                requires s < 128, t < 128;
        }
    }
}

/// `1 << w` is `2^w`.
pub proof fn lemma_shl_one(w: nat)
    requires w < 128,
    ensures (1u128 << (w as u128)) as nat == pow2(w),
    decreases w,
{
    lemma_pow2_0_1();
    if w == 0 {
        assert(1u128 << 0u128 == 1u128) by (bit_vector);
    } else {
        lemma_shl_one((w - 1) as nat);
        lemma_pow2_unfold(w);
        let t = w as u128;
        assert(1u128 << t == ((1u128 << (t - 1) as u128) * 2) as u128) by (bit_vector)
            requires 0 < t < 128;
        assert(pow2(w) < pow2(128)) by { lemma_pow2_strictly_increases(w, 128); }
        assert(pow2(128) == 0x1_0000_0000_0000_0000_0000_0000_0000_0000) by {
            vstd::arithmetic::power2::lemma2_to64();
            vstd::arithmetic::power2::lemma2_to64_rest();
            lemma_pow2_adds(64, 64);
        }
    }
}

/// Zero has no bit set.
pub proof fn lemma_zero_bits()
    ensures
        forall|i: nat| !#[trigger] bit(0u128, i),
{
    assert forall|i: nat| !#[trigger] bit(0u128, i) by {
        if i < 128 {
            let s = i as u128;
            assert((0u128 >> s) & 1u128 == 0u128) by (bit_vector);
        }
    }
}

/// A value is nonzero exactly when one of its bits is set.
pub proof fn lemma_nonzero_bit(x: u128)
    ensures
        x != 0 <==> exists|i: nat| i < 128 && #[trigger] bit(x, i),
{
    lemma_zero_bits();
    if x != 0 {
        if !exists|i: nat| i < 128 && #[trigger] bit(x, i) {
            assert forall|i: nat| i < 128 implies #[trigger] bit(x, i) == bit(0u128, i) by {}
            lemma_bits_ext(x, 0u128);
        }
    }
}

/// Bit `i` of `x mod 2^n` is bit `i` of `x` below `n`, and clear from `n` on.
pub proof fn lemma_nbit_mod(x: nat, n: nat, i: nat)
    ensures
        nbit(x % pow2(n), i) == (i < n && nbit(x, i)),
{
    lemma_pow2_pos(n);
    lemma_pow2_pos(i);
    if i >= n {
        if n < i { lemma_pow2_strictly_increases(n, i); }
        vstd::arithmetic::div_mod::lemma_basic_div((x % pow2(n)) as int, pow2(i) as int);
    } else {
        let d = (n - i) as nat;
        lemma_pow2_adds(i, d);
        lemma_pow2_pos(d);
        vstd::arithmetic::div_mod::lemma_mod_breakdown(x as int, pow2(i) as int, pow2(d) as int);
        let q = ((x / pow2(i)) % pow2(d)) as int;
        let r = (x % pow2(i)) as int;
        vstd::arithmetic::div_mod::lemma_fundamental_div_mod_converse_div(
            (pow2(i) * q + r) as int, pow2(i) as int, q, r);
        assert(pow2(i) * q == q * pow2(i)) by (nonlinear_arith);
        lemma_pow2_unfold(d);
        lemma_pow2_pos((d - 1) as nat);
        vstd::arithmetic::div_mod::lemma_mod_mod((x / pow2(i)) as int, 2, pow2((d - 1) as nat) as int);
    }
}

/// Masking with the low `w` bits is reduction modulo `2^w`.
pub proof fn lemma_and_low_mask_is_mod(x: u128, w: nat)
    requires
        w <= 128,
    ensures
        (x & low_mask(w)) as nat == (x as nat) % pow2(w),
{
    lemma_pow2_128();
    if w == 128 {
        assert(x & 0xffff_ffff_ffff_ffff_ffff_ffff_ffff_ffffu128 == x) by (bit_vector);
        vstd::arithmetic::div_mod::lemma_small_mod(x as nat, pow2(128));
    } else {
        lemma_pow2_pos(w);
        lemma_pow2_strictly_increases(w, 128);
        let y = x & low_mask(w);
        let z = ((x as nat) % pow2(w)) as u128;
        assert forall|i: nat| i < 128 implies #[trigger] bit(y, i) == bit(z, i) by {
            lemma_and_bit(x, low_mask(w), i);
            lemma_low_mask_bit(w, i);
            lemma_bit_nat(z, i);
            lemma_bit_nat(x, i);
            lemma_nbit_mod(x as nat, w, i);
        }
        lemma_bits_ext(y, z);
    }
}

/// Setting bit `q` of `m` sets exactly that bit.
pub proof fn lemma_set_bit(m: u128, q: nat, p: nat)
    requires
        q < 128,
    ensures
        bit(m | (1u128 << (q as u128)), p) == (bit(m, p) || (p == q)),
{
    lemma_or_bit(m, 1u128 << (q as u128), p);
    lemma_shl_bit(1u128, q, p);
    if q <= p && p < 128 {
        let t = (p - q) as u128;
        assert(((1u128 >> t) & 1u128 == 1u128) == (t == 0)) by (bit_vector);
    }
}

/// Computes `low_mask(w)`.
pub fn low_mask_exec(w: u32) -> (r: u128)
    ensures r == low_mask(w as nat),
{
    if w >= 128 {
        u128::MAX
    } else {
        proof { lemma_shl_one(w as nat); lemma_pow2_pos(w as nat); }
        let p = 1u128 << w;
        p - 1
    }
}

} // verus!
