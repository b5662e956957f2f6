//! A k-mer packed into one 64-bit word, two bits per base.
//!
//! The `k` units occupy the low `2k` bits, the first base in the most
//! significant of them. A word is live when every bit above those is zero.
use crate::packed::{
    all_units, comp_units, encode, lemma_and_live_mask, lemma_comp_props, lemma_encode_units,
    lemma_comp_reverse, lemma_extend_bits, lemma_live_mask, lemma_reverse_props,
    lemma_units_encode, lemma_pow4_mono, lemma_pow4_pos, lemma_pow4_values,
    lemma_shift_in, lemma_unit_bits, lemma_units_drop_first, lemma_units_index, lemma_units_props,
    pow4, units,
};
use std::marker::PhantomData;
use vstd::prelude::*;

verus! {

/// A set of at most four symbols, each coded in a two-bit unit.
pub trait Alphabet {
    /// The unit that codes `base`, if `base` is a symbol of the alphabet.
    spec fn unit_of(base: u8) -> Option<u8>;

    /// The symbol that `unit` codes, if any.
    spec fn base_of(unit: u8) -> Option<u8>;

    /// The two codings are inverse, and every two-bit unit codes a symbol.
    proof fn lemma_codes(base: u8, unit: u8)
        ensures
            Self::unit_of(base) == Some(unit) <==> Self::base_of(unit) == Some(base),
            Self::base_of(unit) is Some <==> unit < 4,
    ;

    fn to_unit(base: u8) -> (r: Option<u8>)
        ensures
            r == Self::unit_of(base),
    ;

    fn to_u8(unit: u8) -> (r: Option<u8>)
        ensures
            r == Self::base_of(unit),
    ;
}

/// Nucleotides, coded so that the bitwise complement of a unit is the
/// complementary base: `A = 00`, `C = 01`, `G = 10`, `T = 11`.
#[derive(Clone, Copy, Debug, PartialEq, Eq, PartialOrd, Ord, Hash)]
pub struct DNA {}

impl Alphabet for DNA {
    open spec fn unit_of(base: u8) -> Option<u8> {
        if base == 65 {
            Some(0u8)
        } else if base == 67 {
            Some(1u8)
        } else if base == 71 {
            Some(2u8)
        } else if base == 84 {
            Some(3u8)
        } else {
            None
        }
    }

    open spec fn base_of(unit: u8) -> Option<u8> {
        if unit == 0 {
            Some(65u8)
        } else if unit == 1 {
            Some(67u8)
        } else if unit == 2 {
            Some(71u8)
        } else if unit == 3 {
            Some(84u8)
        } else {
            None
        }
    }

    proof fn lemma_codes(base: u8, unit: u8) {
    }

    fn to_unit(base: u8) -> (r: Option<u8>) {
        match base {
            65 => Some(0b00),  // A
            84 => Some(0b11),  // T
            71 => Some(0b10),  // G
            67 => Some(0b01),  // C
            _ => None,
        }
    }

    fn to_u8(unit: u8) -> (r: Option<u8>) {
        match unit {
            0b00 => Some(65),  // A
            0b11 => Some(84),  // T
            0b10 => Some(71),  // G
            0b01 => Some(67),  // C
            _ => None,
        }
    }
}

/// Every one of `s` is a symbol of the alphabet.
pub open spec fn all_bases<A: Alphabet>(s: Seq<u8>) -> bool {
    forall|i: int| 0 <= i < s.len() ==> (#[trigger] A::unit_of(s[i])) is Some
}

/// The units that code the symbols of `s`.
pub open spec fn units_of_bases<A: Alphabet>(s: Seq<u8>) -> Seq<nat> {
    s.map_values(|b: u8| (A::unit_of(b)->0) as nat)
}

/// The text of the `k` units of `x`.
pub open spec fn bases_of<A: Alphabet>(x: nat, k: nat) -> Seq<char> {
    units(x, k).map_values(|u: nat| (A::base_of(u as u8)->0) as char)
}

/// The word of the k-mer read from the first `k` symbols of `s`.
pub open spec fn word_of_bases<A: Alphabet>(s: Seq<u8>, k: nat) -> nat {
    encode(units_of_bases::<A>(s.subrange(0, k as int)))
}

/// The k-mer `x` slid one base on: its first unit dropped, `u` appended.
pub open spec fn extend_word(x: nat, k: nat, u: nat) -> nat {
    encode(units(x, k).drop_first().push(u))
}

/// Each unit of `x` complemented.
pub open spec fn complement_word(x: nat, k: nat) -> nat {
    encode(comp_units(units(x, k)))
}

/// The units of `x` in reverse order.
pub open spec fn reverse_word(x: nat, k: nat) -> nat {
    encode(units(x, k).reverse())
}

/// The reverse complement: the k-mer read off the other strand.
pub open spec fn revcomp_word(x: nat, k: nat) -> nat {
    complement_word(reverse_word(x, k), k)
}

/// The smaller, as an integer, of `x` and its reverse complement.
pub open spec fn canonical_word(x: nat, k: nat) -> nat {
    let rc = revcomp_word(x, k);
    if x > rc {
        rc
    } else {
        x
    }
}

/// The operations of a k-mer of fixed length over some alphabet.
pub trait AbstractKMer: Sized {
    /// The integer value of the k-mer.
    spec fn word(&self) -> nat;

    /// The number of bases.
    spec fn spec_kmer_len() -> nat;

    /// The length fits the representation.
    spec fn len_fits() -> bool;

    /// The unit that codes `base`, if it is a symbol of the alphabet.
    spec fn base_unit(base: u8) -> Option<u8>;

    fn kmer_len() -> (r: usize)
        ensures
            r == Self::spec_kmer_len(),
    ;

    /// Slides the window on by `base`; `None` if it is not a symbol.
    fn extend(&self, base: u8) -> (r: Option<Self>)
        requires
            Self::len_fits(),
        ensures
            r is None <==> Self::base_unit(base) is None,
            r is Some ==> r->0.word() == extend_word(
                self.word(),
                Self::spec_kmer_len(),
                Self::base_unit(base)->0 as nat,
            ),
    ;

    /// Reads the first `k` symbols of `bytes`; `None` if there are fewer, or
    /// if one of them is not a symbol of the alphabet.
    fn from_bytes(bytes: &[u8]) -> (r: Option<Self>)
        requires
            Self::len_fits(),
        ensures
            r is Some <==> bytes@.len() >= Self::spec_kmer_len() && (forall|i: int|
                0 <= i < Self::spec_kmer_len() ==> (#[trigger] Self::base_unit(bytes@[i])) is Some),
            r is Some ==> r->0.word() == encode(
                bytes@.subrange(0, Self::spec_kmer_len() as int).map_values(
                    |b: u8| (Self::base_unit(b)->0) as nat,
                ),
            ),
    ;

    fn reverse(&self) -> (r: Self)
        requires
            Self::len_fits(),
        ensures
            r.word() == reverse_word(self.word(), Self::spec_kmer_len()),
    ;

    fn complement(&self) -> (r: Self)
        requires
            Self::len_fits(),
        ensures
            r.word() == complement_word(self.word(), Self::spec_kmer_len()),
    ;

    fn get_canonical(&self) -> (r: Self)
        requires
            Self::len_fits(),
        ensures
            r.word() == canonical_word(self.word(), Self::spec_kmer_len()),
    ;
}

/// A k-mer of `N` bases of the alphabet `A`, packed into the low `2N` bits of
/// `data`. Equality is equality of `data`.
#[derive(Debug, Hash, PartialOrd, Ord)]
pub struct KMeru64<A, const N: usize> {
    pub data: u64,
    pub _mark: PhantomData<A>,
}

impl<A, const N: usize> Clone for KMeru64<A, N> {
    fn clone(&self) -> (r: Self) {
        KMeru64 { data: self.data, _mark: PhantomData }
    }
}

impl<A, const N: usize> Copy for KMeru64<A, N> {
}

impl<A, const N: usize> PartialEq for KMeru64<A, N> {
    fn eq(&self, other: &Self) -> (r: bool) {
        self.data == other.data
    }
}

impl<A, const N: usize> vstd::std_specs::cmp::PartialEqSpecImpl for KMeru64<A, N> {
    open spec fn obeys_eq_spec() -> bool {
        true
    }

    open spec fn eq_spec(&self, other: &Self) -> bool {
        self.data == other.data
    }
}

impl<A, const N: usize> Eq for KMeru64<A, N> {
}

impl<A: Alphabet, const N: usize> Default for KMeru64<A, N> {
    fn default() -> (r: Self)
        ensures
            r.data == 0,
    {
        Self::new(0)
    }
}

/// Relies on `String::push`: appends the character.
#[verifier::external_body]
fn push_char(s: &mut String, c: char)
    ensures
        final(s)@ == old(s)@.push(c),
{
    s.push(c);
}

/// Reverses the order of the last `k` units of `x`.
fn reverse_units(x: u64, k: usize) -> (r: u64)
    requires
        1 <= k <= 32,
    ensures
        r as nat == encode(units(x as nat, k as nat).reverse()),
{
    let ghost us = units(x as nat, k as nat);
    proof {
        lemma_units_props(x as nat, k as nat);
        lemma_pow4_values();
        assert(pow4(0) == 1);
        assert(us.subrange(k as int, k as int).reverse() =~= Seq::<nat>::empty());
    }
    let mut rest: u64 = x;
    let mut r: u64 = 0;
    let mut i: usize = 0;
    while i < k
        invariant
            i <= k <= 32,
            us == units(x as nat, k as nat),
            us.len() == k,
            all_units(us),
            rest as nat == x as nat / pow4(i as nat),
            r as nat == encode(us.subrange(k - i, k as int).reverse()),
            r < pow4(i as nat),
        decreases k - i,
    {
        proof {
            lemma_units_index(x as nat, k as nat, (k - 1 - i) as nat);
            lemma_pow4_mono(i as nat, 31);
            assert(rest & 3 == rest % 4) by (bit_vector);
            assert(rest & 3 < 4) by (bit_vector);
            lemma_shift_in(r, rest & 3);
            assert(rest >> 2u64 == rest / 4) by (bit_vector);
            lemma_pow4_pos(i as nat);
            vstd::arithmetic::div_mod::lemma_div_denominator(x as int, pow4(i as nat) as int, 4);
            assert(pow4((i + 1) as nat) == pow4(i as nat) * 4);
            let prev = us.subrange(k - i, k as int).reverse();
            let next = us.subrange(k - i - 1, k as int).reverse();
            assert(next.drop_last() =~= prev);
        }
        r = (r << 2u64) | (rest & 3);
        rest = rest >> 2u64;
        i = i + 1;
    }
    proof {
        assert(us.subrange(0, k as int) =~= us);
    }
    r
}

/// Reverses the order of all 32 two-bit units of `data`.
pub fn reverse_u64_pack_2(data: u64) -> (r: u64)
    ensures
        r as nat == encode(units(data as nat, 32).reverse()),
{
    reverse_units(data, 32)
}

impl<A: Alphabet, const N: usize> KMeru64<A, N> {
    /// Every bit above the `2N` of the k-mer is zero.
    pub open spec fn live(&self) -> bool {
        self.data < pow4(N as nat)
    }

    pub fn new(data: u64) -> (r: Self)
        ensures
            r.data == data,
    {
        KMeru64 { data, _mark: PhantomData }
    }

    /// Sets the bits of unit `at`, counted from the top of the word; the bits
    /// that are already set stay set.
    pub fn set_unit(&mut self, at: usize, unit: u8)
        requires
            at < 32,
            unit < 4,
        ensures
            final(self).data == old(self).data | ((unit as u64) << (62 - 2 * at) as u64),
    {
        let unit = unit as u64;
        self.data = self.data | (unit << (Self::data_len() - 2 * (at + 1)) as u64);
    }

    /// The unit `at`, counted from the top of the word.
    pub fn get_unit(&self, at: usize) -> (r: u8)
        requires
            at < 32,
        ensures
            r as u64 == (self.data >> (62 - 2 * at) as u64) & 3,
            r < 4,
    {
        let d = self.data;
        let ret = (d >> (Self::data_len() - 2 * (at + 1)) as u64) & 3;
        assert(ret < 4) by (bit_vector)
            requires
                ret == (d >> (62 - 2 * at) as u64) & 3,
        ;
        ret as u8
    }

    /// The bits above the k-mer.
    pub fn unused_bits() -> (r: usize)
        requires
            1 <= N <= 32,
        ensures
            r == 64 - 2 * N,
    {
        Self::data_len() - Self::used_bits()
    }

    /// The bits the k-mer occupies.
    pub fn used_bits() -> (r: usize)
        requires
            1 <= N <= 32,
        ensures
            r == 2 * N,
    {
        2 * N
    }

    /// The bits of the word.
    pub fn data_len() -> (r: usize)
        ensures
            r == 64,
    {
        64
    }

    /// The units the word has room for.
    pub fn unit_num() -> (r: usize)
        ensures
            r == 32,
    {
        Self::data_len() / 2
    }

    /// The text of the k-mer, one symbol per unit, first base first.
    pub fn to_string(&self) -> (r: String)
        requires
            1 <= N <= 32,
        ensures
            r@ == bases_of::<A>(self.data as nat, N as nat),
    {
        let mut s = String::new();
        let start = Self::unused_bits() / 2;
        let mut i: usize = start;
        proof {
            lemma_units_props(self.data as nat, N as nat);
        }
        while i < 32
            invariant
                start == 32 - N,
                start <= i <= 32,
                1 <= N <= 32,
                units(self.data as nat, N as nat).len() == N,
                s@ == bases_of::<A>(self.data as nat, N as nat).subrange(0, i - start),
            decreases 32 - i,
        {
            let u = self.get_unit(i);
            proof {
                let j = (i - start) as nat;
                lemma_unit_bits(self.data, (31 - i) as nat);
                lemma_units_index(self.data as nat, N as nat, j);
                A::lemma_codes(0, u);
                assert((62 - 2 * i) == 2 * (31 - i));
                assert(u as nat == units(self.data as nat, N as nat)[j as int]);
                assert(units(self.data as nat, N as nat)[j as int] as u8 == u);
            }
            let b = A::to_u8(u).unwrap();
            push_char(&mut s, b as char);
            proof {
                let j = (i - start) as int;
                assert(bases_of::<A>(self.data as nat, N as nat)[j] == b as char);
                assert(s@ =~= bases_of::<A>(self.data as nat, N as nat).subrange(0, i + 1 - start));
            }
            i = i + 1;
        }
        proof {
            assert(bases_of::<A>(self.data as nat, N as nat).subrange(0, N as int) =~= bases_of::<A>(
                self.data as nat,
                N as nat,
            ));
        }
        s
    }
}

impl<A: Alphabet, const N: usize> AbstractKMer for KMeru64<A, N> {
    open spec fn word(&self) -> nat {
        self.data as nat
    }

    open spec fn spec_kmer_len() -> nat {
        N as nat
    }

    open spec fn len_fits() -> bool {
        1 <= N <= 32
    }

    open spec fn base_unit(base: u8) -> Option<u8> {
        A::unit_of(base)
    }

    fn kmer_len() -> (r: usize) {
        N
    }

    fn extend(&self, base: u8) -> (r: Option<Self>) {
        let unit = match A::to_unit(base) {
            Some(u) => u as u64,
            None => return None,
        };
        proof {
            A::lemma_codes(base, unit as u8);
        }
        let data = ((self.data << 2u64) | unit) & (u64::MAX >> Self::unused_bits() as u64);
        proof {
            let x = self.data as nat;
            let k = N as nat;
            lemma_units_props(x, k);
            lemma_units_drop_first(x, k);
            let s = units(x, k).drop_first().push(unit as nat);
            assert(s.drop_last() =~= units(x, (k - 1) as nat));
            lemma_pow4_values();
            if N == 1 {
                let d = self.data;
                assert(((d << 2u64) | unit) & (u64::MAX >> 62u64) == unit) by (bit_vector)
                    requires
                        unit < 4,
                ;
                assert(units(x, 0) =~= Seq::<nat>::empty());
                assert(s.drop_last() =~= Seq::<nat>::empty());
                assert(encode(Seq::<nat>::empty()) == 0);
                assert(data == unit);
                assert(encode(s) == unit);
            } else {
                let sh = (64 - 2 * N) as u64;
                lemma_extend_bits(self.data, unit, sh);
                lemma_and_live_mask(self.data, (k - 1) as nat);
                assert((64 - 2 * ((k - 1) as nat)) as u64 == sh + 2);
                lemma_pow4_pos((k - 1) as nat);
                let y = self.data & (u64::MAX >> (sh + 2));
                lemma_encode_units(x, (k - 1) as nat);
                lemma_pow4_mono((k - 1) as nat, 31);
                lemma_shift_in(y, unit);
                assert(data == y * 4 + unit);
                assert(y as nat == x % pow4((k - 1) as nat));
                assert(encode(s) == encode(units(x, (k - 1) as nat)) * 4 + unit);
            }
            assert(data as nat == encode(s));
            assert(data as nat == extend_word(x, k, unit as nat));
        }
        Some(Self::new(data))
    }

    fn from_bytes(bytes: &[u8]) -> (r: Option<Self>) {
        if bytes.len() < N {
            return None;
        }
        let mut data: u64 = 0;
        let mut i: usize = 0;
        proof {
            lemma_pow4_values();
        }
        while i < N
            invariant
                1 <= N <= 32,
                i <= N <= bytes@.len(),
                forall|j: int| 0 <= j < i ==> (#[trigger] A::unit_of(bytes@[j])) is Some,
                all_units(units_of_bases::<A>(bytes@.subrange(0, i as int))),
                data as nat == encode(units_of_bases::<A>(bytes@.subrange(0, i as int))),
                data < pow4(i as nat),
            decreases N - i,
        {
            let u = match A::to_unit(bytes[i]) {
                Some(u) => u,
                None => {
                    assert(Self::base_unit(bytes@[i as int]) is None);
                    return None;
                },
            };
            proof {
                A::lemma_codes(bytes@[i as int], u);
                lemma_pow4_mono(i as nat, 31);
                lemma_shift_in(data, u as u64);
                let prev = units_of_bases::<A>(bytes@.subrange(0, i as int));
                let next = units_of_bases::<A>(bytes@.subrange(0, i + 1));
                assert(next.drop_last() =~= prev);
                assert(next[i as int] == (A::unit_of(bytes@[i as int])->0) as nat);
                assert(next.last() == u as nat);
                assert forall|j: int| 0 <= j < next.len() implies next[j] < 4 by {
                    if j < i {
                        assert(next[j] == prev[j]);
                    }
                }
            }
            data = (data << 2u64) | u as u64;
            i = i + 1;
        }
        assert(bytes@.subrange(0, N as int).map_values(|b: u8| (Self::base_unit(b)->0) as nat)
            =~= units_of_bases::<A>(bytes@.subrange(0, N as int)));
        Some(Self::new(data))
    }

    fn reverse(&self) -> (r: Self) {
        Self::new(reverse_units(self.data, N))
    }

    fn complement(&self) -> (r: Self) {
        let data = !self.data & (u64::MAX >> Self::unused_bits() as u64);
        proof {
            let m = u64::MAX >> (64 - 2 * N) as u64;
            let d = self.data;
            assert((!d) & m == m - (d & m)) by (bit_vector);
            lemma_live_mask(N as nat);
            lemma_and_live_mask(self.data, N as nat);
            lemma_units_props(self.data as nat, N as nat);
            lemma_comp_props(units(self.data as nat, N as nat));
            lemma_encode_units(self.data as nat, N as nat);
        }
        Self::new(data)
    }

    fn get_canonical(&self) -> (r: Self) {
        let rc = self.reverse().complement();
        if self.data > rc.data {
            rc
        } else {
            *self
        }
    }
}

impl<A: Alphabet, const N: usize> std::str::FromStr for KMeru64<A, N> {
    type Err = ();

    fn from_str(s: &str) -> Result<Self, Self::Err> {
        if N == 0 || N > 32 {
            return Err(());
        }
        match Self::from_bytes(s.as_bytes()) {
            Some(k) => Ok(k),
            None => Err(()),
        }
    }
}

/// The units of the k-mer `x` complemented, and the facts that follow.
proof fn lemma_complement_units(x: nat, k: nat)
    ensures
        units(complement_word(x, k), k) == comp_units(units(x, k)),
        complement_word(x, k) < pow4(k),
{
    lemma_units_props(x, k);
    lemma_comp_props(units(x, k));
    lemma_units_encode(comp_units(units(x, k)));
}

/// The units of the k-mer `x` reversed, and the facts that follow.
proof fn lemma_reverse_units(x: nat, k: nat)
    ensures
        units(reverse_word(x, k), k) == units(x, k).reverse(),
        reverse_word(x, k) < pow4(k),
{
    lemma_units_props(x, k);
    lemma_reverse_props(units(x, k));
    lemma_units_encode(units(x, k).reverse());
}

/// A live k-mer is the number its units encode.
proof fn lemma_live_encode(x: nat, k: nat)
    requires
        x < pow4(k),
    ensures
        encode(units(x, k)) == x,
{
    lemma_encode_units(x, k);
    vstd::arithmetic::div_mod::lemma_small_mod(x, pow4(k));
}

/// Writing out the k-mer read from `k` symbols gives those symbols back.
pub proof fn lemma_round_trip<A: Alphabet>(s: Seq<u8>, k: nat)
    requires
        s.len() == k,
        all_bases::<A>(s),
    ensures
        bases_of::<A>(word_of_bases::<A>(s, k), k) == s.map_values(|b: u8| b as char),
{
    let us = units_of_bases::<A>(s.subrange(0, k as int));
    assert forall|i: int| 0 <= i < us.len() implies us[i] < 4 by {
        A::lemma_codes(s[i], A::unit_of(s[i])->0);
    }
    lemma_units_encode(us);
    let t = bases_of::<A>(word_of_bases::<A>(s, k), k);
    assert forall|i: int| 0 <= i < k implies t[i] == s[i] as char by {
        A::lemma_codes(s[i], A::unit_of(s[i])->0);
    }
    assert(t =~= s.map_values(|b: u8| b as char));
}

/// Extending by a symbol drops the first symbol of the text and appends it.
pub proof fn lemma_extend_text<A: Alphabet>(x: nat, k: nat, b: u8)
    requires
        k >= 1,
        A::unit_of(b) is Some,
    ensures
        bases_of::<A>(extend_word(x, k, (A::unit_of(b)->0) as nat), k) == bases_of::<A>(
            x,
            k,
        ).drop_first().push(b as char),
{
    let u = A::unit_of(b)->0;
    A::lemma_codes(b, u);
    lemma_units_props(x, k);
    let t = units(x, k).drop_first().push(u as nat);
    assert(all_units(t));
    lemma_units_encode(t);
    let lhs = bases_of::<A>(extend_word(x, k, u as nat), k);
    let rhs = bases_of::<A>(x, k).drop_first().push(b as char);
    assert forall|i: int| 0 <= i < k implies lhs[i] == rhs[i] by {
    }
    assert(lhs =~= rhs);
}

/// Complementing a live k-mer twice gives it back.
pub proof fn lemma_complement_involution(x: nat, k: nat)
    requires
        x < pow4(k),
    ensures
        complement_word(complement_word(x, k), k) == x,
{
    lemma_complement_units(x, k);
    lemma_units_props(x, k);
    lemma_comp_props(units(x, k));
    lemma_live_encode(x, k);
}

/// Reversing a live k-mer twice gives it back.
pub proof fn lemma_reverse_involution(x: nat, k: nat)
    requires
        x < pow4(k),
    ensures
        reverse_word(reverse_word(x, k), k) == x,
{
    lemma_reverse_units(x, k);
    lemma_units_props(x, k);
    lemma_reverse_props(units(x, k));
    lemma_live_encode(x, k);
}

/// Complement and reversal commute.
pub proof fn lemma_complement_reverse_commute(x: nat, k: nat)
    ensures
        complement_word(reverse_word(x, k), k) == reverse_word(complement_word(x, k), k),
{
    lemma_reverse_units(x, k);
    lemma_complement_units(x, k);
    lemma_comp_reverse(units(x, k));
}

/// The reverse complement of a live k-mer is live, and taking it twice gives
/// the k-mer back.
pub proof fn lemma_revcomp_involution(x: nat, k: nat)
    requires
        x < pow4(k),
    ensures
        revcomp_word(x, k) < pow4(k),
        revcomp_word(revcomp_word(x, k), k) == x,
{
    let u = units(x, k);
    let rc = revcomp_word(x, k);
    lemma_units_props(x, k);
    lemma_reverse_props(u);
    lemma_comp_props(u.reverse());
    lemma_reverse_units(x, k);
    lemma_complement_units(reverse_word(x, k), k);
    lemma_reverse_units(rc, k);
    lemma_comp_reverse(u.reverse());
    lemma_complement_units(reverse_word(rc, k), k);
    lemma_comp_props(u);
    lemma_live_encode(x, k);
}

/// Canonicalising a canonical k-mer changes nothing.
pub proof fn lemma_canonical_idempotent(x: nat, k: nat)
    requires
        x < pow4(k),
    ensures
        canonical_word(canonical_word(x, k), k) == canonical_word(x, k),
{
    lemma_revcomp_involution(x, k);
}

/// A live k-mer and its reverse complement have the same canonical form.
pub proof fn lemma_canonical_strand_agnostic(x: nat, k: nat)
    requires
        x < pow4(k),
    ensures
        canonical_word(x, k) == canonical_word(revcomp_word(x, k), k),
{
    lemma_revcomp_involution(x, k);
}

/// Every k-mer that the operations build is live: the bits above its `2k`
/// are zero.
pub proof fn lemma_results_live<A: Alphabet>(x: nat, k: nat, u: nat, s: Seq<u8>)
    requires
        k >= 1,
        u < 4,
        s.len() >= k,
        all_bases::<A>(s.subrange(0, k as int)),
    ensures
        extend_word(x, k, u) < pow4(k),
        complement_word(x, k) < pow4(k),
        reverse_word(x, k) < pow4(k),
        revcomp_word(x, k) < pow4(k),
        canonical_word(x, k) < pow4(k),
        word_of_bases::<A>(s, k) < pow4(k),
{
    lemma_units_props(x, k);
    let t = units(x, k).drop_first().push(u);
    assert(all_units(t));
    lemma_units_encode(t);
    lemma_complement_units(x, k);
    lemma_reverse_units(x, k);
    lemma_complement_units(reverse_word(x, k), k);
    let us = units_of_bases::<A>(s.subrange(0, k as int));
    assert forall|i: int| 0 <= i < us.len() implies us[i] < 4 by {
        let b = s.subrange(0, k as int)[i];
        A::lemma_codes(b, A::unit_of(b)->0);
    }
    lemma_units_encode(us);
}


} // verus!
