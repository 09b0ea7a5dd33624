//! A path from a chunk's root down to an octant, packed into one 64-bit word.
//!
//! The word holds three bits per octant. The octant chosen at the root sits
//! in the lowest three bits, each deeper octant three bits higher, and a
//! single sentinel bit stands just above the deepest octant. The empty path
//! is the sentinel alone, the word `1`; a path of 21 octants has its sentinel
//! in bit 63 and is full. The word is never zero, so an absent path costs no
//! extra space.
use vstd::prelude::*;
use vstd::arithmetic::power2::pow2;
use vstd::std_specs::bits::u64_leading_zeros;
use vstd::std_specs::convert::FromSpecImpl;
use vstd::string::StringExecFns;
use crate::direction::Direction;
use crate::text::{digit, digit_str};

verus! {

/// A 64-bit word that is never zero: std's `NonZeroU64`, whose inside Verus
/// does not see.
#[verifier::external_body]
#[derive(Debug, PartialEq, Eq)]
pub struct PackedWord(std::num::NonZeroU64);

impl Copy for PackedWord {

}

impl Clone for PackedWord {
    fn clone(&self) -> (copy: Self)
        ensures
            copy == *self,
    {
        *self
    }
}

/// The number that a `PackedWord` holds.
pub uninterp spec fn unpacked(p: PackedWord) -> u64;

/// `NonZeroU64::new`: the word that holds `w`, and `None` exactly when `w`
/// is zero.
#[verifier::external_body]
fn pack(w: u64) -> (p: Option<PackedWord>)
    ensures
        w == 0 ==> p is None,
        w != 0 ==> p is Some && unpacked(p->0) == w,
{
    match std::num::NonZeroU64::new(w) {
        Some(n) => Some(PackedWord(n)),
        None => None,
    }
}

/// `NonZeroU64::get`: the number held, which is not zero.
#[verifier::external_body]
fn unpack(p: PackedWord) -> (w: u64)
    ensures
        w == unpacked(p),
        w != 0,
{
    p.0.get()
}

/// Eight to the power `n`: the value of the sentinel of a path of `n`
/// octants.
pub open spec fn pow8(n: nat) -> nat
    decreases n,
{
    if n == 0 {
        1
    } else {
        8 * pow8((n - 1) as nat)
    }
}

/// Whether `w` is a path's word: its highest set bit stands at a multiple of
/// three.
pub open spec fn valid_word(w: u64) -> bool
    decreases w,
{
    if w < 8 {
        w == 1
    } else {
        valid_word(w / 8)
    }
}

/// The number of octants in the word `w`.
pub open spec fn word_len(w: u64) -> nat
    decreases w,
{
    if w < 8 {
        0
    } else {
        1 + word_len(w / 8)
    }
}

/// The octants in the word `w`, from the root downwards.
pub open spec fn word_seq(w: u64) -> Seq<Direction>
    decreases w,
{
    if w < 8 {
        Seq::empty()
    } else {
        seq![Direction::of((w % 8) as nat)] + word_seq(w / 8)
    }
}

/// The word of the path `w` with `d` added at the root end.
pub open spec fn push_word(w: u64, d: Direction) -> int {
    w * 8 + d.ordinal()
}

/// The word of the path `w` without its octant at the root end.
pub open spec fn pop_word(w: u64) -> int {
    w as int / 8
}

/// The octant at the root end of the path `w`.
pub open spec fn peek_word(w: u64) -> Direction {
    Direction::of((w % 8) as nat)
}

/// The word of the path `w` with `d` added at the deep end: `d` takes the
/// sentinel's place and the sentinel moves three bits up.
pub open spec fn put_word(w: u64, d: Direction) -> int {
    w + (d.ordinal() + 7) * pow8(word_len(w))
}

/// The octant at the deep end of the path `w`, the one next to the sentinel.
pub open spec fn get_word(w: u64) -> Direction {
    Direction::of((w as nat / pow8((word_len(w) - 1) as nat)) % 8)
}

/// The word of the path `w` without its octant at the deep end: the sentinel
/// takes that octant's place.
pub open spec fn del_word(w: u64) -> int {
    let below = pow8((word_len(w) - 1) as nat);
    ((w as nat % below) + below) as int
}

/// The word of the path `w` with the octant at its root end replaced by `d`.
pub open spec fn replace_word(w: u64, d: Direction) -> int {
    w - w % 8 + d.ordinal()
}

/// `pow8(n)` is two to the power `3 * n`.
pub proof fn lemma_pow8_is_pow2(n: nat)
    ensures
        pow8(n) == pow2(3 * n),
        pow8(n) > 0,
    decreases n,
{
    vstd::arithmetic::power2::lemma2_to64();
    if n > 0 {
        lemma_pow8_is_pow2((n - 1) as nat);
        vstd::arithmetic::power2::lemma_pow2_adds((3 * (n - 1)) as nat, 3);
    }
}

/// A path's word lies between its sentinel and twice its sentinel, and holds
/// at most 21 octants.
pub proof fn lemma_word_bounds(w: u64)
    requires
        valid_word(w),
    ensures
        pow8(word_len(w)) <= w < 2 * pow8(word_len(w)),
        word_len(w) <= 21,
        word_seq(w).len() == word_len(w),
    decreases w,
{
    if w >= 8 {
        lemma_word_bounds(w / 8);
    }
    let n = word_len(w);
    lemma_pow8_is_pow2(n);
    if n > 21 {
        vstd::arithmetic::power2::lemma2_to64_rest();
        vstd::arithmetic::power2::lemma_pow2_strictly_increases(64, 3 * n);
    }
}

/// The sequence of a word is as long as the word says, valid or not.
pub proof fn lemma_word_seq_len(w: u64)
    ensures
        word_seq(w).len() == word_len(w),
    decreases w,
{
    if w >= 8 {
        lemma_word_seq_len(w / 8);
    }
}

/// The leading zeros of a path's word tell its length.
pub proof fn lemma_leading_zeros(w: u64)
    requires
        valid_word(w),
    ensures
        u64_leading_zeros(w) == 63 - 3 * word_len(w),
{
    let n = word_len(w);
    let lz = u64_leading_zeros(w);
    lemma_word_bounds(w);
    lemma_pow8_is_pow2(n);
    vstd::std_specs::bits::axiom_u64_leading_zeros(w);
    vstd::arithmetic::power2::lemma2_to64_rest();
    assert(lz < 64);
    let top: u64 = (63 - lz) as u64;
    // the highest set bit stands at `top`
    assert((w >> top) & 1 != 0 ==> w >> top >= 1) by (bit_vector);
    vstd::bits::lemma_u64_shr_is_div(w, top);
    vstd::arithmetic::power2::lemma_pow2_pos(top as nat);
    assert(w >= pow2(top as nat)) by {
        vstd::arithmetic::div_mod::lemma_fundamental_div_mod(w as int, pow2(top as nat) as int);
        vstd::arithmetic::mul::lemma_mul_inequality(
            1,
            w as int / pow2(top as nat) as int,
            pow2(top as nat) as int,
        );
        vstd::arithmetic::mul::lemma_mul_is_commutative(
            w as int / pow2(top as nat) as int,
            pow2(top as nat) as int,
        );
    }
    assert(w < pow2((top + 1) as nat)) by {
        if lz > 0 {
            let above: u64 = (64 - lz) as u64;
            assert(w >> above == 0);
            vstd::bits::lemma_u64_shr_is_div(w, above);
            vstd::arithmetic::power2::lemma_pow2_pos(above as nat);
            if w >= pow2(above as nat) {
                vstd::arithmetic::div_mod::lemma_div_is_ordered(
                    pow2(above as nat) as int,
                    w as int,
                    pow2(above as nat) as int,
                );
                vstd::arithmetic::div_mod::lemma_div_by_self(pow2(above as nat) as int);
            }
        }
    }
    if top < 3 * n {
        vstd::arithmetic::power2::lemma_pow2_strictly_increases(top as nat, 3 * n);
        if top + 1 < 3 * n {
            vstd::arithmetic::power2::lemma_pow2_strictly_increases((top + 1) as nat, 3 * n);
        }
    }
    if top > 3 * n {
        vstd::arithmetic::power2::lemma_pow2_adds(3 * n, 1);
        vstd::arithmetic::power2::lemma2_to64();
        if top > 3 * n + 1 {
            vstd::arithmetic::power2::lemma_pow2_strictly_increases(3 * n + 1, top as nat);
        }
    }
}

/// What `put_word` does to the word's sequence: it appends the octant.
pub proof fn lemma_put_word(w: u64, d: Direction)
    requires
        valid_word(w),
        word_len(w) < 21,
    ensures
        put_word(w, d) <= u64::MAX,
        valid_word(put_word(w, d) as u64),
        word_len(put_word(w, d) as u64) == word_len(w) + 1,
        word_seq(put_word(w, d) as u64) == word_seq(w).push(d),
    decreases w,
{
    let n = word_len(w);
    lemma_word_bounds(w);
    lemma_pow8_is_pow2(n);
    d.lemma_ordinal();
    assert(pow8(n + 1) <= pow8(21)) by {
        lemma_pow8_is_pow2(n + 1);
        lemma_pow8_is_pow2(21);
        if n + 1 < 21 {
            vstd::arithmetic::power2::lemma_pow2_strictly_increases(3 * (n + 1), 63);
        }
    }
    assert(pow8(21) == 0x8000_0000_0000_0000) by {
        lemma_pow8_is_pow2(21);
        vstd::arithmetic::power2::lemma2_to64_rest();
    }
    let s = pow8(n);
    assert((d.ordinal() + 7) * s <= 14 * s) by (nonlinear_arith)
        requires
            d.ordinal() <= 7,
            s > 0,
    ;
    let r = put_word(w, d) as u64;
    if w < 8 {
        assert(s == 1);
        assert((d.ordinal() + 7) * s == d.ordinal() + 7) by (nonlinear_arith)
            requires
                s == 1,
        ;
        assert(r == 8 + d.ordinal());
        assert(r / 8 == 1);
        assert(word_seq(r) =~= word_seq(w).push(d));
    } else {
        lemma_put_word(w / 8, d);
        let lower = pow8((n - 1) as nat);
        assert((d.ordinal() + 7) * s == 8 * ((d.ordinal() + 7) * lower)) by (nonlinear_arith)
            requires
                s == 8 * lower,
        ;
        let inner = put_word(w / 8, d) as u64;
        assert(r == 8 * inner + w % 8);
        assert(r / 8 == inner);
        assert(r % 8 == w % 8);
        assert(word_seq(r) =~= word_seq(w).push(d));
    }
}

/// What `get_word` and `del_word` do to the word's sequence: they take the
/// last octant.
pub proof fn lemma_del_word(w: u64)
    requires
        valid_word(w),
        word_len(w) > 0,
    ensures
        0 < del_word(w) <= w,
        valid_word(del_word(w) as u64),
        word_len(del_word(w) as u64) == word_len(w) - 1,
        word_seq(del_word(w) as u64) == word_seq(w).drop_last(),
        get_word(w) == word_seq(w).last(),
        w as nat / pow8((word_len(w) - 1) as nat) == 8 + get_word(w).ordinal(),
    decreases w,
{
    let n = word_len(w);
    lemma_word_bounds(w);
    lemma_word_bounds(w / 8);
    let below = pow8((n - 1) as nat);
    lemma_pow8_is_pow2((n - 1) as nat);
    let r = del_word(w) as u64;
    Direction::lemma_of((w as nat / below) % 8);
    if w / 8 < 8 {
        assert(w / 8 == 1);
        assert(below == 1);
        assert(w as nat % below == 0);
        assert(w as nat / below == w);
        assert(r == 1);
        assert(word_seq(w / 8) =~= Seq::<Direction>::empty());
        assert(word_seq(w).drop_last() =~= word_seq(r));
    } else {
        lemma_del_word(w / 8);
        let below1 = pow8((n - 2) as nat);
        assert(below == 8 * below1);
        // dividing and reducing by `8 * below1` goes through the division by 8
        assert(w as nat / below == (w as nat / 8) / below1) by {
            vstd::arithmetic::div_mod::lemma_div_denominator(w as int, 8, below1 as int);
        }
        assert(w as nat % below == 8 * ((w as nat / 8) % below1) + w as nat % 8) by {
            vstd::arithmetic::div_mod::lemma_mod_breakdown(w as int, 8, below1 as int);
        }
        let inner = del_word(w / 8) as u64;
        assert(r == 8 * inner + w % 8);
        assert(r / 8 == inner);
        assert(r % 8 == w % 8);
        assert(inner >= 1);
        lemma_word_seq_len(w / 8);
        assert(word_seq(w).drop_last() =~= word_seq(r));
        assert(word_seq(w).last() == word_seq(w / 8).last());
    }
}

/// Bit operations at the root end of a word, each said as arithmetic.
proof fn lemma_low_bits(w: u64, d: u64)
    by (bit_vector)
    requires
        d < 8,
    ensures
        (w as u8) & 0b111 == w % 8,
        w >> 3 == w / 8,
        w <= 0x1fff_ffff_ffff_ffff ==> (w << 3) | d == w * 8 + d,
        w >= 8 ==> (w & !0b111) | d == w - w % 8 + d,
        w >> 63 == (if w >= 0x8000_0000_0000_0000 { 1u64 } else { 0u64 }),
        d | 0b1000 == d + 8,
        8 <= w < 16 ==> (w as u8) & 0b111 == w % 8,
{
}

/// Writing an octant over the sentinel at bit `nb` and the sentinel above it
/// adds to the word what the two are worth, less the old sentinel.
proof fn lemma_put_bits(w: u64, e: u64, nb: u64)
    by (bit_vector)
    requires
        nb <= 60,
        8 <= e < 16,
        w >> nb == 1,
    ensures
        ((w & !(0b111u64 << nb)) | (e << nb)) == w - (1u64 << nb) + (e << nb),
        w >= (1u64 << nb),
        (e << nb) <= 0xf000_0000_0000_0000,
{
}

/// Keeping the bits below bit `nb` and setting bit `nb`.
proof fn lemma_del_bits(w: u64, nb: u64)
    by (bit_vector)
    requires
        nb <= 60,
    ensures
        !(0xffff_ffff_ffff_ffffu64 << nb) == (1u64 << nb) - 1,
        (w & ((1u64 << nb) - 1) as u64) | (1u64 << nb) == (w & ((1u64 << nb) - 1) as u64) + (1u64
            << nb),
        (w & ((1u64 << nb) - 1) as u64) < (1u64 << nb),
        (1u64 << nb) <= 0x1000_0000_0000_0000,
{
}

/// The sentinel of a path that is not full is worth at most `2^60`.
proof fn lemma_sentinel_small(n: nat)
    requires
        n <= 20,
    ensures
        pow8(n) <= 0x1000_0000_0000_0000,
        pow8(n) == pow2(3 * n),
{
    lemma_pow8_is_pow2(n);
    vstd::arithmetic::power2::lemma2_to64_rest();
    if n < 20 {
        vstd::arithmetic::power2::lemma_pow2_strictly_increases(3 * n, 60);
    }
}

/// A path from the root of a chunk down to an octant, at most 21 octants
/// long. Its view lists the octants from the root downwards.
#[derive(Copy, Clone, Debug, PartialEq, Eq)]
pub struct IndexPath(PackedWord);

impl View for IndexPath {
    type V = Seq<Direction>;

    open spec fn view(&self) -> Seq<Direction> {
        word_seq(self.word())
    }
}

impl IndexPath {
    /// The greatest number of octants in a path.
    pub const MAX_SIZE: u8 = 21;

    /// The 64-bit word that packs the path.
    pub closed spec fn word(self) -> u64 {
        unpacked(self.0)
    }

    /// Every path's word is valid.
    #[verifier::type_invariant]
    pub open spec fn wf(self) -> bool {
        valid_word(self.word())
    }

    /// The path that holds the word `w`.
    fn from_word(w: u64) -> (path: Self)
        requires
            valid_word(w),
        ensures
            path.word() == w,
            path.wf(),
    {
        match pack(w) {
            Some(p) => IndexPath(p),
            None => vstd::pervasive::unreached(),
        }
    }

    /// The path's word.
    pub fn to_word(&self) -> (w: u64)
        ensures
            w == self.word(),
            valid_word(w),
            word_len(w) <= 21,
            self@.len() == word_len(w),
    {
        proof {
            use_type_invariant(self);
            lemma_word_bounds(self.word());
        }
        unpack(self.0)
    }

    /// The empty path.
    pub fn new() -> (path: Self)
        ensures
            path.word() == 1,
            path@ == Seq::<Direction>::empty(),
            path.wf(),
    {
        Self::from_word(1)
    }

    /// Whether the path holds no octant: its word is the sentinel alone.
    pub fn is_empty(&self) -> (b: bool)
        ensures
            b == (self.word() == 1),
            b == (self@.len() == 0),
    {
        self.to_word() == 1
    }

    /// Whether the path holds 21 octants, so that its sentinel is the
    /// word's top bit.
    pub fn is_full(&self) -> (b: bool)
        ensures
            b == (self.word() >= 0x8000_0000_0000_0000),
            b == (self@.len() == 21),
    {
        let w = self.to_word();
        proof {
            lemma_low_bits(w, 0);
            lemma_word_bounds(w);
            lemma_pow8_is_pow2(word_len(w));
            lemma_pow8_is_pow2(21);
            vstd::arithmetic::power2::lemma2_to64_rest();
            if word_len(w) < 21 {
                vstd::arithmetic::power2::lemma_pow2_adds(3 * word_len(w), 1);
                vstd::arithmetic::power2::lemma2_to64();
                if 3 * word_len(w) + 1 < 63 {
                    vstd::arithmetic::power2::lemma_pow2_strictly_increases(
                        3 * word_len(w) + 1,
                        63,
                    );
                }
            }
        }
        (w >> 63) == 1
    }

    /// The octant at the root end.
    pub fn peek(&self) -> (d: Direction)
        requires
            self@.len() > 0,
        ensures
            d == peek_word(self.word()),
            d == self@.first(),
    {
        let w = self.to_word();
        proof {
            lemma_low_bits(w, 0);
        }
        Direction::from(w as u8 & 0b111)
    }

    /// The path without its octant at the root end.
    pub fn pop(&self) -> (path: Self)
        requires
            self@.len() > 0,
        ensures
            path.word() == pop_word(self.word()),
            path@ == self@.drop_first(),
            path.wf(),
    {
        let w = self.to_word();
        proof {
            lemma_low_bits(w, 0);
            assert(word_seq(w).drop_first() =~= word_seq(w / 8));
        }
        Self::from_word(w >> 3)
    }

    /// The path with `octant` added at the root end.
    pub fn push(&self, octant: Direction) -> (path: Self)
        requires
            self@.len() < 21,
        ensures
            path.word() == push_word(self.word(), octant),
            path@ == seq![octant] + self@,
            path.wf(),
    {
        let w = self.to_word();
        let d = octant.index() as u64;
        proof {
            lemma_low_bits(w, d);
            lemma_word_bounds(w);
            lemma_sentinel_small(word_len(w));
            octant.lemma_ordinal();
            assert((w * 8 + d) / 8 == w);
            assert((w * 8 + d) % 8 == d);
        }
        Self::from_word((w << 3) | d)
    }

    /// The number of octants.
    pub fn count(&self) -> (n: u8)
        ensures
            n == 21 - u64_leading_zeros(self.word()) / 3,
            n == self@.len(),
    {
        let w = self.to_word();
        proof {
            lemma_leading_zeros(w);
        }
        Self::MAX_SIZE - (w.leading_zeros() / 3) as u8
    }

    /// The path with `octant` added at the deep end.
    pub fn put(&self, octant: Direction) -> (path: Self)
        requires
            self@.len() < 21,
        ensures
            path.word() == put_word(self.word(), octant),
            path@ == self@.push(octant),
            path.wf(),
    {
        let mut val = self.to_word();
        let d = octant.index() as u64;
        proof {
            lemma_leading_zeros(val);
        }
        let num_bits = 64 - val.leading_zeros() - 1;
        proof {
            let w = val;
            let n = word_len(w);
            let e: u64 = d | 0b1000;
            lemma_word_bounds(w);
            lemma_sentinel_small(n);
            lemma_put_word(w, octant);
            lemma_sentinel_shift(w);
            lemma_low_bits(w, d);
            lemma_put_bits(w, e, num_bits as u64);
            assert(e * pow8(n) <= u64::MAX) by (nonlinear_arith)
                requires
                    e < 16,
                    pow8(n) <= 0x1000_0000_0000_0000,
            ;
            vstd::bits::lemma_u64_shl_is_mul(e, num_bits as u64);
            assert(e * pow8(n) == pow8(n) + (d + 7) * pow8(n)) by (nonlinear_arith)
                requires
                    e == d + 8,
            ;
        }
        val &= !(0b111 << num_bits);
        val |= (d | 0b1000) << num_bits;
        Self::from_word(val)
    }

    /// The octant at the deep end.
    pub fn get(&self) -> (d: Direction)
        requires
            self@.len() > 0,
        ensures
            d == get_word(self.word()),
            d == self@.last(),
    {
        let val = self.to_word();
        proof {
            lemma_leading_zeros(val);
        }
        let num_bits = 64 - val.leading_zeros() - 4;
        proof {
            lemma_del_word(val);
            lemma_pow8_is_pow2((word_len(val) - 1) as nat);
            vstd::bits::lemma_u64_shr_is_div(val, num_bits as u64);
            lemma_low_bits(val >> num_bits, 0);
            get_word(val).lemma_ordinal();
        }
        let dir_bin: u8 = (val >> num_bits) as u8 & 0b111_u8;
        Direction::from(dir_bin)
    }

    /// The path without its octant at the deep end.
    pub fn del(&self) -> (path: Self)
        requires
            self@.len() > 0,
        ensures
            path.word() == del_word(self.word()),
            path@ == self@.drop_last(),
            path.wf(),
    {
        let val = self.to_word();
        proof {
            lemma_leading_zeros(val);
        }
        let num_bits = 64 - val.leading_zeros() - 4;
        proof {
            let below = pow8((word_len(val) - 1) as nat);
            lemma_del_word(val);
            lemma_sentinel_small((word_len(val) - 1) as nat);
            lemma_del_bits(val, num_bits as u64);
            vstd::bits::lemma_u64_shl_is_mul(1, num_bits as u64);
            vstd::bits::lemma_u64_low_bits_mask_is_mod(val, num_bits as nat);
            assert(vstd::bits::low_bits_mask(num_bits as nat) == below - 1);
        }
        let dir_bin: u64 = val & !(u64::MAX << num_bits);
        let dir_bin = dir_bin | (1 << num_bits);
        Self::from_word(dir_bin)
    }

    /// The path with the octant at its root end replaced by `octant`.
    pub fn replace(&self, octant: Direction) -> (path: Self)
        requires
            self@.len() > 0,
        ensures
            path.word() == replace_word(self.word(), octant),
            path@ == self@.update(0, octant),
            path.wf(),
    {
        let w = self.to_word();
        let d = octant.index() as u64;
        proof {
            lemma_low_bits(w, d);
            octant.lemma_ordinal();
            let r = (w - w % 8 + d) as u64;
            assert(r / 8 == w / 8);
            assert(r % 8 == d);
            assert(word_seq(r) =~= word_seq(w).update(0, octant));
        }
        Self::from_word((w & !0b111) | d)
    }

    /// The number of octants.
    pub fn len(&self) -> (n: u8)
        ensures
            n == 21 - u64_leading_zeros(self.word()) / 3,
            n == self@.len(),
    {
        let w = self.to_word();
        proof {
            lemma_leading_zeros(w);
        }
        let num_empty_slots = (w.leading_zeros() / 3) as u8;
        Self::MAX_SIZE - num_empty_slots
    }

    /// The path as text, such as `(Root)/7/0`.
    pub fn to_string(&self) -> (text: String)
        ensures
            text@ == path_text(self@),
    {
        let mut text = String::from_str("(Root)");
        let mut current = *self;
        let ghost mut done: int = 0;
        proof {
            lemma_word_seq_len(self.word());
            assert(self@.take(0) =~= Seq::<Direction>::empty());
            assert(self@.skip(0) =~= self@);
        }
        while !current.is_empty()
            invariant
                0 <= done <= self@.len(),
                current@ == self@.skip(done),
                text@ == path_text(self@.take(done)),
            decreases self@.len() - done,
        {
            let octant = current.peek();
            proof {
                reveal_strlit("/");
                octant.lemma_ordinal();
                assert(self@.take(done + 1).drop_last() =~= self@.take(done));
                assert(self@.skip(done).drop_first() =~= self@.skip(done + 1));
            }
            let ghost before = text@;
            text.append("/");
            text.append(digit_str(octant.index()));
            proof {
                assert(text@ =~= before + seq!['/', digit(octant.ordinal())]);
                done = done + 1;
            }
            current = current.pop();
        }
        proof {
            assert(self@.take(done) =~= self@);
        }
        text
    }

    /// Takes the octant at the root end off the path and returns it, or
    /// returns `None` and leaves the path as it is when it is empty.
    pub fn next(&mut self) -> (d: Option<Direction>)
        ensures
            old(self)@.len() == 0 ==> d is None && *final(self) == *old(self),
            old(self)@.len() > 0 ==> d == Some(old(self)@.first())
                && final(self)@ == old(self)@.drop_first()
                && final(self).word() == pop_word(old(self).word()),
    {
        if self.is_empty() {
            None
        } else {
            let dir = self.peek();
            *self = self.pop();
            Some(dir)
        }
    }
}

/// The text of a path: `(Root)`, then a slash and the octant's number for
/// each octant from the root downwards.
pub open spec fn path_text(path: Seq<Direction>) -> Seq<char>
    decreases path.len(),
{
    if path.len() == 0 {
        "(Root)"@
    } else {
        path_text(path.drop_last()) + seq!['/', digit(path.last().ordinal())]
    }
}

/// The sentinel of a path's word is its only bit at or above the sentinel's
/// place.
proof fn lemma_sentinel_shift(w: u64)
    requires
        valid_word(w),
    ensures
        w >> ((3 * word_len(w)) as u64) == 1,
        (1u64 << ((3 * word_len(w)) as u64)) == pow8(word_len(w)),
{
    let n = word_len(w);
    let nb = (3 * n) as u64;
    lemma_word_bounds(w);
    lemma_pow8_is_pow2(n);
    vstd::bits::lemma_u64_shr_is_div(w, nb);
    vstd::bits::lemma_u64_shl_is_mul(1, nb);
    let s = pow8(n) as int;
    assert(w as int / s == 1) by {
        vstd::arithmetic::div_mod::lemma_fundamental_div_mod_converse_div(
            w as int,
            s,
            1,
            w as int - s,
        );
    }
}

impl From<IndexPath> for u64 {
    /// The path's word.
    fn from(index_path: IndexPath) -> (w: u64)
        ensures
            w == index_path.word(),
    {
        index_path.to_word()
    }
}

impl FromSpecImpl<IndexPath> for u64 {
    open spec fn obeys_from_spec() -> bool {
        true
    }

    open spec fn from_spec(index_path: IndexPath) -> u64 {
        index_path.word()
    }
}

/// Pushing and then popping gives the path back, and the octant pushed is
/// the one that `peek` shows.
pub proof fn lemma_push_then_pop(w: u64, d: Direction)
    requires
        valid_word(w),
        word_len(w) < 21,
    ensures
        push_word(w, d) <= u64::MAX,
        valid_word(push_word(w, d) as u64),
        pop_word(push_word(w, d) as u64) == w,
        peek_word(push_word(w, d) as u64) == d,
{
    lemma_word_bounds(w);
    lemma_sentinel_small(word_len(w));
    d.lemma_ordinal();
}

/// Putting and then deleting gives the path back, and the octant put is the
/// one that `get` shows.
pub proof fn lemma_put_then_del(w: u64, d: Direction)
    requires
        valid_word(w),
        word_len(w) < 21,
    ensures
        put_word(w, d) <= u64::MAX,
        valid_word(put_word(w, d) as u64),
        del_word(put_word(w, d) as u64) == w,
        get_word(put_word(w, d) as u64) == d,
{
    lemma_put_word(w, d);
    let r = put_word(w, d) as u64;
    lemma_del_word(r);
    lemma_word_bounds(w);
    let n = word_len(w);
    let s = pow8(n);
    d.lemma_ordinal();
    // r = (8 + d) * s + (w - s), with 0 <= w - s < s
    assert(r == (8 + d.ordinal()) * s + (w - s)) by (nonlinear_arith)
        requires
            r == w + (d.ordinal() + 7) * s,
    ;
    vstd::arithmetic::div_mod::lemma_fundamental_div_mod_converse(
        r as int,
        s as int,
        (8 + d.ordinal()) as int,
        w - s,
    );
    assert(word_seq(r).last() == d);
}

} // verus!
