//! Byte views of storage values.
use vstd::prelude::*;
use vstd::arithmetic::power2::{pow2, lemma_pow2_pos, lemma_pow2_adds, lemma_pow2_strictly_increases};
use vstd::bits::lemma_u128_shr_is_div;
use crate::bits::lemma_pow2_128;

verus! {

/// The `n` little-endian bytes of `x`: byte `i` is `x / 2^(8 i) mod 256`.
pub open spec fn le_bytes(x: nat, n: nat) -> Seq<u8> {
    Seq::new(n, |i: int| ((x / pow2((8 * i) as nat)) % 256) as u8)
}

/// The number whose little-endian bytes are `s`.
pub open spec fn le_value(s: Seq<u8>) -> nat
    decreases s.len(),
{
    if s.len() == 0 {
        0
    } else {
        s[0] as nat + 256 * le_value(s.drop_first())
    }
}

pub proof fn lemma_pow2_8()
    ensures
        pow2(8) == 256,
{
    vstd::arithmetic::power2::lemma2_to64();
}

/// A value read from `n` bytes lies below `2^(8 n)`.
pub proof fn lemma_le_value_bound(s: Seq<u8>)
    ensures
        le_value(s) < pow2((8 * s.len()) as nat),
    decreases s.len(),
{
    lemma_pow2_8();
    if s.len() == 0 {
        vstd::arithmetic::power2::lemma2_to64();
    } else {
        lemma_le_value_bound(s.drop_first());
        let n1 = (8 * (s.len() - 1)) as nat;
        lemma_pow2_adds(8, n1);
        assert((8 * s.len()) as nat == 8 + n1);
        let v = le_value(s.drop_first());
        assert(s[0] + 256 * v <= 255 + 256 * v);
        assert(256 * v + 256 <= 256 * pow2(n1)) by (nonlinear_arith)
            requires v < pow2(n1), v + 1 <= pow2(n1);
    }
}

/// Reading the little-endian bytes of `x` gives back `x`.
pub proof fn lemma_le_round_trip(x: nat, n: nat)
    requires
        x < pow2(8 * n),
    ensures
        le_value(le_bytes(x, n)) == x,
    decreases n,
{
    lemma_pow2_8();
    if n == 0 {
        vstd::arithmetic::power2::lemma2_to64();
    } else {
        let s = le_bytes(x, n);
        let y = x / 256;
        let n1 = (n - 1) as nat;
        lemma_pow2_adds(8, 8 * n1);
        assert(8 * n == 8 + 8 * n1);
        lemma_pow2_pos(8 * n1);
        vstd::arithmetic::div_mod::lemma_fundamental_div_mod(x as int, 256);
        let r = x % 256;
        assert(y < pow2(8 * n1)) by (nonlinear_arith)
            requires x == 256 * y + r, r >= 0, x < 256 * pow2(8 * n1);
        assert forall|i: int| 0 <= i < n1 implies #[trigger] s.drop_first()[i] == le_bytes(y, n1)[i] by {
            lemma_pow2_adds(8, (8 * i) as nat);
            assert((8 * (i + 1)) as nat == 8 + (8 * i) as nat);
            lemma_pow2_pos((8 * i) as nat);
            vstd::arithmetic::div_mod::lemma_div_denominator(x as int, 256, pow2((8 * i) as nat) as int);
        }
        assert(s.drop_first() =~= le_bytes(y, n1));
        lemma_le_round_trip(y, n1);
        assert(pow2(0) == 1) by { vstd::arithmetic::power2::lemma2_to64(); }
        assert(pow2((8 * 0) as nat) == 1);
        assert(x / 1 == x);
        assert(s[0] == ((x / pow2((8 * 0) as nat)) % 256) as u8);
        assert(s[0] == x % 256);
    }
}

/// Writing the bytes of a value read from bytes gives back the bytes.
pub proof fn lemma_le_bytes_of_value(s: Seq<u8>)
    ensures
        le_bytes(le_value(s), s.len()) == s,
    decreases s.len(),
{
    lemma_pow2_8();
    if s.len() > 0 {
        let t = s.drop_first();
        lemma_le_bytes_of_value(t);
        let x = le_value(s);
        let v = le_value(t);
        let n = s.len();
        assert(x == v * 256 + s[0]);
        vstd::arithmetic::div_mod::lemma_fundamental_div_mod_converse(x as int, 256, v as int, s[0] as int);
        assert(x / 256 == v);
        assert(x % 256 == s[0]);
        assert forall|i: int| 0 <= i < n implies #[trigger] le_bytes(x, n)[i] == s[i] by {
            if i == 0 {
                assert(pow2(0) == 1) by { vstd::arithmetic::power2::lemma2_to64(); }
                assert(pow2((8 * 0) as nat) == 1);
                assert(x / 1 == x);
            } else {
                let pp = pow2((8 * (i - 1)) as nat);
                lemma_pow2_adds(8, (8 * (i - 1)) as nat);
                assert((8 * i) as nat == 8 + (8 * (i - 1)) as nat);
                assert(pow2((8 * i) as nat) == 256 * pp);
                lemma_pow2_pos((8 * (i - 1)) as nat);
                vstd::arithmetic::div_mod::lemma_div_denominator(x as int, 256, pp as int);
                assert(x / pow2((8 * i) as nat) == v / pp);
                assert(le_bytes(v, (n - 1) as nat)[i - 1] == t[i - 1]);
                assert(le_bytes(v, (n - 1) as nat)[i - 1] == ((v / pp) % 256) as u8);
            }
        }
        assert(le_bytes(x, n) =~= s);
    }
}

/// The `n` little-endian bytes of `x`.
pub fn le_bytes_exec(x: u128, n: usize) -> (r: Vec<u8>)
    requires
        n <= 16,
    ensures
        r@ == le_bytes(x as nat, n as nat),
{
    let mut r: Vec<u8> = Vec::new();
    let mut i: usize = 0;
    while i < n
        invariant
            n <= 16,
            0 <= i <= n,
            r@.len() == i,
            forall|k: int| 0 <= k < i ==> #[trigger] r@[k] == le_bytes(x as nat, n as nat)[k],
        decreases n - i,
    {
        let s = (8 * i) as u128;
        proof { lemma_u128_shr_is_div(x, s); }
        let y = x >> s;
        let b = (y & 0xff) as u8;
        assert(y & 0xffu128 == y % 256) by (bit_vector);
        r.push(b);
        i = i + 1;
    }
    proof { assert(r@ =~= le_bytes(x as nat, n as nat)); }
    r
}

/// The number whose little-endian bytes are `s`, for at most 16 bytes.
pub fn le_value_exec(s: &[u8]) -> (r: u128)
    requires
        s@.len() <= 16,
    ensures
        r == le_value(s@),
{
    let n = s.len();
    let mut acc: u128 = 0;
    let mut i: usize = n;
    while i > 0
        invariant
            n == s@.len(),
            n <= 16,
            0 <= i <= n,
            acc == le_value(s@.subrange(i as int, n as int)),
        decreases i,
    {
        let ghost rest = s@.subrange(i as int, n as int);
        let ghost longer = s@.subrange(i - 1, n as int);
        proof {
            assert(longer.drop_first() =~= rest);
            lemma_le_value_bound(rest);
            lemma_le_value_bound(longer);
            lemma_pow2_128();
            if rest.len() < 15 {
                lemma_pow2_strictly_increases((8 * rest.len()) as nat, 120);
            }
            lemma_pow2_adds(8, 120);
            lemma_pow2_8();
            let p = pow2((8 * rest.len()) as nat);
            assert(p <= pow2(120));
            assert(acc * 256 + 255 < 0x1_0000_0000_0000_0000_0000_0000_0000_0000) by (nonlinear_arith)
                requires acc < p, p <= pow2(120), pow2(128) == pow2(8) * pow2(120), pow2(8) == 256,
                    pow2(128) == 0x1_0000_0000_0000_0000_0000_0000_0000_0000;
        }
        acc = acc * 256 + s[i - 1] as u128;
        i = i - 1;
    }
    proof { assert(s@.subrange(0, n as int) =~= s@); }
    acc
}

} // verus!
