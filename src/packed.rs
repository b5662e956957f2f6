//! Arithmetic model of words that pack two-bit units.
//!
//! A word is read as a number in base four. `units(x, k)` lists the last `k`
//! digits of `x`, the most significant first, and `encode` turns such a list
//! back into a number.
use vstd::arithmetic::div_mod::{
    lemma_div_denominator,
    lemma_fundamental_div_mod_converse,
    lemma_mod_breakdown,
};
use vstd::arithmetic::power2::{lemma2_to64, lemma2_to64_rest, lemma_pow2_adds, lemma_pow2_unfold, pow2};
use vstd::bits::{lemma_u64_low_bits_mask_is_mod, lemma_u64_shr_is_div, low_bits_mask};
use vstd::prelude::*;

verus! {

/// Four to the power `n`: the number of distinct sequences of `n` units.
pub open spec fn pow4(n: nat) -> nat
    decreases n,
{
    if n == 0 {
        1
    } else {
        4 * pow4((n - 1) as nat)
    }
}

/// The last `k` base-four digits of `x`, most significant first.
pub open spec fn units(x: nat, k: nat) -> Seq<nat>
    decreases k,
{
    if k == 0 {
        Seq::empty()
    } else {
        units(x / 4, (k - 1) as nat).push(x % 4)
    }
}

/// The number whose base-four digits are `s`, most significant first.
pub open spec fn encode(s: Seq<nat>) -> nat
    decreases s.len(),
{
    if s.len() == 0 {
        0
    } else {
        encode(s.drop_last()) * 4 + s.last()
    }
}

/// Every element of `s` is a two-bit unit.
pub open spec fn all_units(s: Seq<nat>) -> bool {
    forall|i: int| 0 <= i < s.len() ==> #[trigger] s[i] < 4
}

/// Each unit replaced by its bitwise complement.
pub open spec fn comp_units(s: Seq<nat>) -> Seq<nat> {
    s.map_values(|u: nat| (3 - u) as nat)
}

pub proof fn lemma_pow4_pos(n: nat)
    ensures
        pow4(n) > 0,
    decreases n,
{
    if n > 0 {
        lemma_pow4_pos((n - 1) as nat);
    }
}

pub proof fn lemma_pow4_mono(a: nat, b: nat)
    requires
        a <= b,
    ensures
        pow4(a) <= pow4(b),
    decreases b,
{
    lemma_pow4_pos(b);
    if a < b {
        lemma_pow4_mono(a, (b - 1) as nat);
    }
}

pub proof fn lemma_pow4_pow2(n: nat)
    ensures
        pow4(n) == pow2(2 * n),
    decreases n,
{
    if n == 0 {
        lemma2_to64();
    } else {
        lemma_pow4_pow2((n - 1) as nat);
        lemma_pow2_unfold(2 * n);
        lemma_pow2_unfold((2 * n - 1) as nat);
    }
}

/// The values of `pow4` that bound the words of a 64-bit machine.
pub proof fn lemma_pow4_values()
    ensures
        pow4(31) == 0x4000_0000_0000_0000,
        pow4(32) == 0x1_0000_0000_0000_0000,
{
    lemma_pow4_pow2(31);
    lemma_pow4_pow2(32);
    lemma2_to64();
    lemma2_to64_rest();
}

pub proof fn lemma_units_props(x: nat, k: nat)
    ensures
        units(x, k).len() == k,
        all_units(units(x, k)),
    decreases k,
{
    if k > 0 {
        lemma_units_props(x / 4, (k - 1) as nat);
    }
}

pub proof fn lemma_encode_units(x: nat, k: nat)
    ensures
        encode(units(x, k)) == x % pow4(k),
    decreases k,
{
    lemma_pow4_pos(k);
    if k > 0 {
        let p = pow4((k - 1) as nat);
        lemma_pow4_pos((k - 1) as nat);
        lemma_encode_units(x / 4, (k - 1) as nat);
        assert(units(x, k).drop_last() =~= units(x / 4, (k - 1) as nat));
        lemma_mod_breakdown(x as int, 4, p as int);
    }
}

pub proof fn lemma_units_encode(s: Seq<nat>)
    requires
        all_units(s),
    ensures
        units(encode(s), s.len()) == s,
        encode(s) < pow4(s.len()),
    decreases s.len(),
{
    if s.len() > 0 {
        let d = s.drop_last();
        assert(all_units(d));
        lemma_units_encode(d);
        let e = encode(s);
        lemma_fundamental_div_mod_converse(e as int, 4, encode(d) as int, s.last() as int);
        assert(units(e, s.len()) =~= s);
    }
}

/// Digit `i` of the last `k`, counted from the most significant.
pub proof fn lemma_units_index(x: nat, k: nat, i: nat)
    requires
        i < k,
    ensures
        units(x, k)[i as int] == (x / pow4((k - 1 - i) as nat)) % 4,
    decreases k,
{
    lemma_units_props(x / 4, (k - 1) as nat);
    if i < k - 1 {
        lemma_units_index(x / 4, (k - 1) as nat, i);
        lemma_pow4_pos((k - 2 - i) as nat);
        lemma_div_denominator(x as int, 4, pow4((k - 2 - i) as nat) as int);
        assert(pow4((k - 1 - i) as nat) == 4 * pow4((k - 2 - i) as nat));
    } else {
        assert(pow4(0) == 1);
        assert(x / 1 == x);
    }
}

/// Dropping the most significant of the last `k` digits leaves the last `k - 1`.
pub proof fn lemma_units_drop_first(x: nat, k: nat)
    requires
        k > 0,
    ensures
        units(x, k).drop_first() == units(x, (k - 1) as nat),
    decreases k,
{
    lemma_units_props(x, k);
    lemma_units_props(x, (k - 1) as nat);
    if k > 1 {
        lemma_units_drop_first(x / 4, (k - 1) as nat);
        assert(units(x, k).drop_first() =~= units(x / 4, (k - 1) as nat).drop_first().push(x % 4));
    } else {
        assert(units(x, k).drop_first() =~= Seq::<nat>::empty());
    }
}

pub proof fn lemma_comp_props(s: Seq<nat>)
    requires
        all_units(s),
    ensures
        comp_units(s).len() == s.len(),
        all_units(comp_units(s)),
        comp_units(comp_units(s)) == s,
        encode(comp_units(s)) + encode(s) + 1 == pow4(s.len()),
    decreases s.len(),
{
    assert(comp_units(comp_units(s)) =~= s);
    if s.len() > 0 {
        let d = s.drop_last();
        assert(all_units(d));
        lemma_comp_props(d);
        assert(comp_units(s).drop_last() =~= comp_units(d));
    }
}

/// The complement commutes with reversal.
pub proof fn lemma_comp_reverse(s: Seq<nat>)
    ensures
        comp_units(s.reverse()) == comp_units(s).reverse(),
{
    assert(comp_units(s.reverse()) =~= comp_units(s).reverse());
}

pub proof fn lemma_reverse_props(s: Seq<nat>)
    requires
        all_units(s),
    ensures
        s.reverse().len() == s.len(),
        all_units(s.reverse()),
        s.reverse().reverse() == s,
{
    assert(s.reverse().reverse() =~= s);
}

/// Shifting right by `64 - 2k` keeps the ones of the low `2k` bits.
pub proof fn lemma_live_mask(k: nat)
    requires
        1 <= k <= 32,
    ensures
        (u64::MAX >> ((64 - 2 * k) as u64)) as nat == pow4(k) - 1,
{
    let s: nat = (64 - 2 * k) as nat;
    lemma_u64_shr_is_div(u64::MAX, s as u64);
    lemma2_to64();
    lemma2_to64_rest();
    lemma_pow2_adds(s, 2 * k);
    lemma_pow4_pow2(k);
    let p = pow2(s) as int;
    let q = pow2(2 * k) as int;
    assert(p > 0) by {
        vstd::arithmetic::power2::lemma_pow2_pos(s);
    }
    assert(q > 0) by {
        vstd::arithmetic::power2::lemma_pow2_pos(2 * k);
    }
    assert((q - 1) * p + (p - 1) == p * q - 1) by (nonlinear_arith);
    lemma_fundamental_div_mod_converse(p * q - 1, p, q - 1, p - 1);
}

/// Masking with the low `2k` bits takes the remainder by `4^k`.
pub proof fn lemma_and_live_mask(x: u64, k: nat)
    requires
        1 <= k <= 32,
    ensures
        (x & (u64::MAX >> ((64 - 2 * k) as u64))) as nat == x as nat % pow4(k),
{
    lemma_live_mask(k);
    lemma_pow4_pow2(k);
    lemma_pow4_values();
    if k == 32 {
        assert(x & (u64::MAX >> 0u64) == x) by (bit_vector);
    } else {
        lemma_u64_low_bits_mask_is_mod(x, 2 * k);
        vstd::bits::lemma_u64_pow2_no_overflow(2 * k);
        assert(low_bits_mask(2 * k) == pow4(k) - 1);
    }
}

/// Shifting a unit in at the bottom of a word with room for it.
pub proof fn lemma_shift_in(y: u64, u: u64)
    requires
        y < pow4(31),
        u < 4,
    ensures
        (y << 2u64) | u == y * 4 + u,
{
    lemma_pow4_values();
    assert(y < 0x4000_0000_0000_0000 && u < 4 ==> (y << 2u64) | u == y * 4 + u) by (bit_vector);
}

/// Shifting a unit into a word and keeping the low `64 - s` bits.
pub proof fn lemma_extend_bits(x: u64, u: u64, s: u64)
    requires
        u < 4,
        s <= 60,
    ensures
        ((x << 2u64) | u) & (u64::MAX >> s) == ((x & (u64::MAX >> (s + 2))) << 2u64) | u,
{
    assert(u < 4 && s <= 60 ==> ((x << 2u64) | u) & (u64::MAX >> s) == ((x & (u64::MAX >> (s
        + 2))) << 2u64) | u) by (bit_vector);
}

/// The unit that stands `j` places above the bottom of a word.
pub proof fn lemma_unit_bits(x: u64, j: nat)
    requires
        j < 32,
    ensures
        ((x >> ((2 * j) as u64)) & 3) as nat == (x as nat / pow4(j)) % 4,
{
    lemma_u64_shr_is_div(x, (2 * j) as u64);
    lemma_pow4_pow2(j);
    let y = x >> ((2 * j) as u64);
    assert(y & 3 == y % 4) by (bit_vector);
}

} // verus!
