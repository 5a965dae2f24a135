//! Powers of two, and the bit-level helpers of `std` and `bit_field` that the
//! rest of the crate relies on.

use vstd::prelude::*;
use bit_field::BitArray;
use bit_field::BitField;
use vstd::arithmetic::power2::{pow2, lemma_pow2_unfold, lemma_pow2_strictly_increases, lemma_pow2_pos, lemma2_to64};

verus! {

/// Smallest exponent `k` with `2^k >= n` (`0` for `n <= 1`).
pub open spec fn ceil_log2(n: nat) -> nat
    decreases n,
{
    if n <= 1 {
        0
    } else {
        ceil_log2(((n + 1) / 2) as nat) + 1
    }
}

/// `x` is `2^k` for some `k`.
pub open spec fn is_power_of_two(x: int) -> bool {
    exists|k: nat| pow2(k) == x
}

/// A multiple of `2^f` is a multiple of every power of two `2^k` up to it,
/// and so is the start of the `2^k` items right above it.
pub proof fn lemma_pow2_aligned_below(a: int, f: nat, k: nat)
    requires
        a >= 0,
        k <= f,
        a % (pow2(f) as int) == 0,
    ensures
        a % (pow2(k) as int) == 0,
        (a + pow2(k)) % (pow2(k) as int) == 0,
{
    vstd::arithmetic::power2::lemma_pow2_adds(k, (f - k) as nat);
    lemma_pow2_pos(k);
    lemma_pow2_pos((f - k) as nat);
    let x = pow2(k) as int;
    let y = pow2((f - k) as nat) as int;
    assert(pow2(f) == x * y);
    let q = a / (x * y);
    assert(a == (y * q) * x) by (nonlinear_arith)
        requires a % (x * y) == 0, x > 0, y > 0, q == a / (x * y);
    vstd::arithmetic::div_mod::lemma_mod_multiples_basic(y * q, x);
    assert(a + x == (y * q + 1) * x) by (nonlinear_arith)
        requires a == (y * q) * x;
    vstd::arithmetic::div_mod::lemma_mod_multiples_basic(y * q + 1, x);
}

/// Taking `z` items off a multiple of `z` leaves a multiple of `z`.
pub proof fn lemma_aligned_sub(a: int, z: int)
    requires
        z > 0,
        a >= z,
        a % z == 0,
    ensures
        (a - z) % z == 0,
{
    let q = a / z;
    assert(a == q * z) by (nonlinear_arith)
        requires a % z == 0, z > 0, q == a / z;
    assert(a - z == (q - 1) * z) by (nonlinear_arith)
        requires a == q * z;
    vstd::arithmetic::div_mod::lemma_mod_multiples_basic(q - 1, z);
}

/// A multiple of `z` that is no multiple of `2 * z` is the upper half of a
/// block of `2 * z` items aligned to its size.
pub proof fn lemma_upper_half(s: int, z: int)
    requires
        z > 0,
        s >= 0,
        s % z == 0,
        s % (2 * z) != 0,
    ensures
        s >= z,
        (s - z) % (2 * z) == 0,
{
    let q = s / z;
    assert(s == z * q) by (nonlinear_arith)
        requires s % z == 0, z > 0, q == s / z;
    let r = q / 2;
    assert(q == 2 * r + q % 2) by (nonlinear_arith)
        requires r == q / 2;
    if q % 2 == 0 {
        assert(s == 2 * z * r) by (nonlinear_arith)
            requires s == z * q, q == 2 * r + q % 2, q % 2 == 0;
        vstd::arithmetic::div_mod::lemma_mod_multiples_basic(r, 2 * z);
        assert(s == r * (2 * z)) by (nonlinear_arith)
            requires s == 2 * z * r;
    } else {
        assert(s == 2 * z * r + z) by (nonlinear_arith)
            requires s == z * q, q == 2 * r + q % 2, q % 2 == 1;
        assert(s - z == r * (2 * z)) by (nonlinear_arith)
            requires s == 2 * z * r + z;
        vstd::arithmetic::div_mod::lemma_mod_multiples_basic(r, 2 * z);
        assert(s >= z) by (nonlinear_arith)
            requires s == 2 * z * r + z, z > 0, s >= 0;
    }
}

/// `2^ceil_log2(n)` is the smallest power of two that is at least `n`.
pub proof fn lemma_ceil_log2(n: nat)
    ensures
        pow2(ceil_log2(n)) >= n,
        ceil_log2(n) > 0 ==> pow2((ceil_log2(n) - 1) as nat) < n,
    decreases n,
{
    reveal_with_fuel(vstd::arithmetic::power::pow, 2);
    if n <= 1 {
        lemma2_to64();
    } else {
        let m = ((n + 1) / 2) as nat;
        lemma_ceil_log2(m);
        lemma_pow2_unfold(ceil_log2(n));
        if ceil_log2(m) > 0 {
            lemma_pow2_unfold(ceil_log2(m));
        } else {
            lemma2_to64();
        }
    }
}

/// `2^a == 2^b` only when `a == b`.
pub proof fn lemma_pow2_injective(a: nat, b: nat)
    requires
        pow2(a) == pow2(b),
    ensures
        a == b,
{
    if a < b {
        lemma_pow2_strictly_increases(a, b);
    } else if b < a {
        lemma_pow2_strictly_increases(b, a);
    }
}

/// `ceil_log2` gives back the exponent of a power of two.
pub proof fn lemma_ceil_log2_of_pow2(k: nat)
    ensures
        ceil_log2(pow2(k)) == k,
{
    let c = ceil_log2(pow2(k));
    lemma_ceil_log2(pow2(k));
    if c < k {
        lemma_pow2_strictly_increases(c, k);
    } else if c > k {
        if (c - 1) as nat > k {
            lemma_pow2_strictly_increases(k, (c - 1) as nat);
        }
    }
}

/// `2^k` grows faster than `k`.
pub proof fn lemma_pow2_gt(k: nat)
    ensures
        pow2(k) > k,
    decreases k,
{
    if k == 0 {
        lemma2_to64();
    } else {
        lemma_pow2_gt((k - 1) as nat);
        lemma_pow2_unfold(k);
        lemma_pow2_pos((k - 1) as nat);
    }
}

/// A power of two that fits in a `usize` has an exponent below `64`.
pub proof fn lemma2_pow_bound(k: nat, x: nat)
    requires
        pow2(k) == x,
        x <= usize::MAX,
    ensures
        k < 64,
{
    if k >= 64 {
        lemma2_to64();
        if k > 64 {
            lemma_pow2_strictly_increases(64, k);
        }
    }
}

/// `usize::next_power_of_two`: the standard library documents it as the
/// smallest power of two greater than or equal to `n`; when that power does
/// not fit in a `usize` it overflows (panics in debug builds), which
/// `requires` leaves out.
#[verifier::external_body]
pub(crate) fn next_power_of_two(n: usize) -> (r: usize)
    requires
        pow2(ceil_log2(n as nat)) <= usize::MAX,
    ensures
        r == pow2(ceil_log2(n as nat)),
{
    n.next_power_of_two()
}

/// `usize::pow` on the base `2`; the result must fit (an overflowing `pow`
/// panics in debug builds).
#[verifier::external_body]
pub(crate) fn usize_pow(base: usize, exp: u32) -> (r: usize)
    requires
        vstd::arithmetic::power::pow(base as int, exp as nat) <= usize::MAX,
    ensures
        r == vstd::arithmetic::power::pow(base as int, exp as nat),
{
    base.pow(exp)
}

/// Bit `bit` of a byte array, least significant bit of byte `0` first.
pub open spec fn byte_bit(bytes: Seq<u8>, bit: int) -> bool {
    bytes[bit / 8] & (1u8 << ((bit % 8) as u8)) != 0
}

/// Byte `x` with its bit `b` set to `value`.
pub open spec fn with_bit(x: u8, b: int, value: bool) -> u8 {
    if value {
        x | (1u8 << (b as u8))
    } else {
        x & !(1u8 << (b as u8))
    }
}

/// Bit `bit` of `bytes`, through `bit_field`'s `BitArray::get_bit` on a
/// byte slice: it reads bit `bit % 8` of byte `bit / 8` and panics when that
/// byte is out of bounds.
#[verifier::external_body]
pub(crate) fn bytes_get_bit(bytes: &Vec<u8>, bit: usize) -> (r: bool)
    requires
        bit / 8 < bytes@.len(),
    ensures
        r == byte_bit(bytes@, bit as int),
{
    bytes.get_bit(bit)
}

/// `bit_field`'s `BitArray::set_bit` on a byte slice: byte `bit / 8` gets its
/// bit `bit % 8` set to `value` (`|=` / `&= !`), every other byte is kept; it
/// panics when that byte is out of bounds.
#[verifier::external_body]
pub(crate) fn bytes_set_bit(bytes: &mut Vec<u8>, bit: usize, value: bool)
    requires
        bit / 8 < old(bytes)@.len(),
    ensures
        final(bytes)@ == old(bytes)@.update(
            (bit / 8) as int,
            with_bit(old(bytes)@[(bit / 8) as int], (bit % 8) as int, value),
        ),
{
    bytes.set_bit(bit, value)
}

/// Setting one bit of a byte array changes that bit only.
pub proof fn lemma_bytes_set_bit(bytes: Seq<u8>, bit: int, value: bool, j: int)
    requires
        0 <= bit,
        0 <= j,
        bit / 8 < bytes.len(),
        j / 8 < bytes.len(),
    ensures
        byte_bit(bytes.update(bit / 8, with_bit(bytes[bit / 8], bit % 8, value)), j)
            == if j == bit { value } else { byte_bit(bytes, j) },
{
    let nb = bytes.update(bit / 8, with_bit(bytes[bit / 8], bit % 8, value));
    if j / 8 == bit / 8 {
        let x = bytes[bit / 8];
        let p = (bit % 8) as u8;
        let q = (j % 8) as u8;
        assert(j == bit <==> p == q);
        if value {
            assert((x | (1u8 << p)) & (1u8 << q) != 0 <==> (p == q || x & (1u8 << q) != 0))
                by (bit_vector)
                requires p < 8, q < 8;
        } else {
            assert((x & !(1u8 << p)) & (1u8 << q) != 0 <==> (p != q && x & (1u8 << q) != 0))
                by (bit_vector)
                requires p < 8, q < 8;
        }
    }
}

/// Every bit of `0xff` is set and no bit of `0` is.
pub proof fn lemma_full_and_empty_bytes(b: int)
    requires
        0 <= b < 8,
    ensures
        0xffu8 & (1u8 << (b as u8)) != 0,
        0u8 & (1u8 << (b as u8)) == 0,
{
    let p = b as u8;
    assert(0xffu8 & (1u8 << p) != 0 && 0u8 & (1u8 << p) == 0) by (bit_vector)
        requires p < 8;
}

/// `bit_field`'s `BitField::set_bit` on a `usize`: `x |= 1 << bit` or
/// `x &= !(1 << bit)`, asserting that `bit` is below `usize::BITS`.
#[verifier::external_body]
pub(crate) fn usize_set_bit(x: &mut usize, bit: usize, value: bool)
    requires
        bit < usize::BITS,
    ensures
        *final(x) == if value {
            *old(x) | (1usize << bit)
        } else {
            *old(x) & !(1usize << bit)
        },
{
    x.set_bit(bit, value);
}

/// Bits `start .. end` of `x` as `bit_field`'s `BitField::get_bits` computes
/// them: `0` for an empty range, otherwise the high bits shifted away and the
/// rest shifted down by `start`.
pub open spec fn usize_bits_of(x: usize, start: usize, end: usize) -> usize {
    if start == end {
        0
    } else {
        ((x << ((usize::BITS - end) as usize)) >> ((usize::BITS - end) as usize)) >> start
    }
}

/// `bit_field`'s `BitField::get_bits(start..end)` on a `usize`; it asserts
/// `start < usize::BITS`, `end <= usize::BITS` and `start <= end`.
#[verifier::external_body]
pub(crate) fn usize_get_bits(x: usize, start: usize, end: usize) -> (r: usize)
    requires
        start < usize::BITS,
        end <= usize::BITS,
        start <= end,
    ensures
        r == usize_bits_of(x, start, end),
{
    x.get_bits(start..end)
}

/// `x` with bits `start .. end` replaced by `value`, as `bit_field`'s
/// `BitField::set_bits` computes it.
pub open spec fn usize_with_bits(x: usize, start: usize, end: usize, value: usize) -> usize {
    if start == end {
        x
    } else {
        let mask: usize = !((((!0usize) << ((usize::BITS - end) as usize)) >> ((usize::BITS - end) as usize)) >> start << start);
        (x & mask) | (value << start)
    }
}

/// `bit_field`'s `BitField::set_bits(start..end, value)` on a `usize`, for a
/// non-empty range; it asserts the bounds of the range and that `value` fits
/// in `end - start` bits.
#[verifier::external_body]
pub(crate) fn usize_set_bits(x: &mut usize, start: usize, end: usize, value: usize)
    requires
        start < end,
        end <= usize::BITS,
        (value << ((usize::BITS - (end - start)) as usize)) >> ((usize::BITS - (end - start)) as usize) == value,
    ensures
        *final(x) == usize_with_bits(*old(x), start, end, value),
{
    x.set_bits(start..end, value);
}

} // verus!
