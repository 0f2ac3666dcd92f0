//! A codec for bit fields inside a 64-bit word.
//!
//! A field is a run of `width` bits whose least significant bit sits at
//! position `lsb`, with `lsb + width <= 64`. The functions here test whether a
//! value fits a width, read a field as an unsigned or a two's-complement
//! number, and write a value into a field. Every contract is stated over
//! powers of two, quotients and remainders of mathematical integers.

use vstd::prelude::*;
use vstd::arithmetic::div_mod::{
    lemma_basic_div, lemma_div_non_zero, lemma_div_nonincreasing, lemma_div_pos_is_pos,
    lemma_fundamental_div_mod_converse, lemma_mod_bound, lemma_mod_decreases,
    lemma_mod_multiples_basic, lemma_mod_multiples_vanish, lemma_small_mod,
};
use vstd::arithmetic::power2::{
    lemma2_to64, lemma_pow2_adds, lemma_pow2_pos, lemma_pow2_strictly_increases,
    lemma_pow2_unfold, pow2,
};
use vstd::bits::lemma_u64_shr_is_div;
use crate::arith::{
    lemma_field_by_shifts, lemma_insert_parts, lemma_low_bits_of_signed, lemma_or_is_add,
    lemma_pow2_64, lemma_shl_is_mul_mod, lemma_shls_is_mul_wrap, lemma_sign_quotient,
    lemma_signed_field_by_shifts, lemma_signed_fit_by_shifts, lemma_sra_is_div, to_signed,
};

verus! {

/// Whether `n` can be written with `width` bits as an unsigned number.
pub open spec fn fits_unsigned(n: int, width: nat) -> bool {
    0 <= n < pow2(width)
}

/// Whether `n` can be written with `width` bits in two's complement. A field
/// of no bits holds only 0.
pub open spec fn fits_signed(n: int, width: nat) -> bool {
    if width == 0 {
        n == 0
    } else {
        -pow2((width - 1) as nat) <= n < pow2((width - 1) as nat)
    }
}

/// The unsigned number held by the `width` bits of `word` that start at bit
/// `lsb`.
pub open spec fn field_unsigned(word: nat, width: nat, lsb: nat) -> nat {
    (word / pow2(lsb)) % pow2(width)
}

/// The two's-complement number held by the `width` bits of `word` that start
/// at bit `lsb`: the unsigned reading, less 2^width where the field's top bit
/// is set.
pub open spec fn field_signed(word: nat, width: nat, lsb: nat) -> int {
    let u = field_unsigned(word, width, lsb);
    if width > 0 && u >= pow2((width - 1) as nat) {
        u - pow2(width)
    } else {
        u as int
    }
}

/// `word` with the `width` bits that start at bit `lsb` replaced by `value`:
/// the bits above the field, `value` moved to the field's place, and the bits
/// below the field.
pub open spec fn with_field(word: nat, width: nat, lsb: nat, value: nat) -> nat {
    (word / pow2(lsb + width)) * pow2(lsb + width) + value * pow2(lsb) + word % pow2(lsb)
}

/// The `width`-bit two's-complement pattern of `value`, read as an unsigned
/// number.
pub open spec fn twos_complement(value: int, width: nat) -> nat {
    (value % (pow2(width) as int)) as nat
}

/// Whether a field of `width` bits at `lsb` lies inside a 64-bit word.
pub open spec fn in_word(width: nat, lsb: nat) -> bool {
    lsb + width <= 64
}

/// What a logical left shift of a 64-bit word leaves: the product with
/// 2^bits, reduced modulo 2^64.
pub open spec fn shl_value(word: nat, bits: nat) -> nat {
    (word * pow2(bits)) % pow2(64)
}

/// What a logical right shift leaves: the quotient by 2^bits.
pub open spec fn shr_value(word: nat, bits: nat) -> nat {
    word / pow2(bits)
}

/// What a left shift of a signed 64-bit word leaves: the product with
/// 2^bits, wrapped to 64 bits in two's complement.
pub open spec fn shls_value(word: int, bits: nat) -> int {
    to_signed(word * pow2(bits))
}

/// What an arithmetic right shift leaves: the quotient by 2^bits, rounded
/// towards minus infinity.
pub open spec fn sra_value(word: int, bits: nat) -> int {
    word / (pow2(bits) as int)
}

/// Shifts `word` left by `bits` places, for any count up to 64; a shift by
/// exactly 64 leaves 0. Counts above 64 are refused.
pub fn shl(word: u64, bits: u64) -> (r: Option<u64>)
    ensures
        r is Some <==> bits <= 64,
        r matches Some(v) ==> v == shl_value(word as nat, bits as nat),
        bits == 64 ==> r == Some(0u64),
{
    if bits <= 64 {
        if bits == 64 {
            proof {
                lemma_pow2_pos(64);
                lemma_mod_multiples_basic(word as int, pow2(64) as int);
            }
            Some(0)
        } else {
            proof {
                lemma_shl_is_mul_mod(word, bits);
            }
            Some(word << bits)
        }
    } else {
        None
    }
}

/// Shifts the signed `word` left by `bits` places, for any count up to 64; a
/// shift by exactly 64 leaves 0. Counts above 64 are refused.
pub fn shls(word: i64, bits: u64) -> (r: Option<i64>)
    ensures
        r is Some <==> bits <= 64,
        r matches Some(v) ==> v == shls_value(word as int, bits as nat),
        bits == 64 ==> r == Some(0i64),
{
    if bits <= 64 {
        if bits == 64 {
            proof {
                lemma_pow2_64();
                lemma_mod_multiples_basic(word as int, pow2(64) as int);
            }
            Some(0)
        } else {
            proof {
                lemma_shls_is_mul_wrap(word, bits);
            }
            Some(word << bits)
        }
    } else {
        None
    }
}

/// Shifts `word` right by `bits` places, filling with zeros, for any count up
/// to 64; a shift by exactly 64 leaves 0. Counts above 64 are refused.
pub fn shr(word: u64, bits: u64) -> (r: Option<u64>)
    ensures
        r is Some <==> bits <= 64,
        r matches Some(v) ==> v == shr_value(word as nat, bits as nat),
        bits == 64 ==> r == Some(0u64),
{
    if bits <= 64 {
        if bits == 64 {
            proof {
                lemma_pow2_64();
                lemma_basic_div(word as int, pow2(64) as int);
            }
            Some(0)
        } else {
            proof {
                lemma_u64_shr_is_div(word, bits);
            }
            Some(word >> bits)
        }
    } else {
        None
    }
}

/// Shifts the signed `word` right by `bits` places, filling with copies of the
/// sign bit, for any count up to 64; a shift by exactly 64 leaves 0 for a
/// word that is not negative and -1 for a negative one. Counts above 64 are
/// refused.
pub fn sra(word: i64, bits: u64) -> (r: Option<i64>)
    ensures
        r is Some <==> bits <= 64,
        r matches Some(v) ==> v == sra_value(word as int, bits as nat),
        bits == 64 ==> r == Some(if word < 0 { -1i64 } else { 0i64 }),
{
    let mut bits = bits;
    if bits <= 64 {
        if bits == 64 {
            bits = 63
        }
        proof {
            lemma_sra_is_div(word, bits);
            lemma_sign_quotient(word as int);
        }
        Some(word >> bits)
    } else {
        None
    }
}

/// Tells whether the unsigned `n` fits in a field of `width` bits. Every
/// value fits 64 bits or more.
pub fn fitsu(n: u64, width: u64) -> (r: bool)
    ensures
        r == fits_unsigned(n as int, width as nat),
        width >= 64 ==> r,
{
    proof {
        lemma_pow2_64();
        lemma_pow2_pos(width as nat);
        if width > 64 {
            lemma_pow2_strictly_increases(64, width as nat);
        }
        if width < 64 {
            if n < pow2(width as nat) {
                lemma_basic_div(n as int, pow2(width as nat) as int);
            } else {
                lemma_div_non_zero(n as int, pow2(width as nat) as int);
            }
        }
    }
    width >= 64 || match shr(n, width) {
        Some(rest) => rest == 0,
        None => false,
    }
}

/// Reads the field of `width` bits at `lsb` of `word` as an unsigned number.
/// A field that does not lie inside the word is refused.
pub fn getu(word: u64, width: u64, lsb: u64) -> (r: Option<u64>)
    ensures
        r is Some <==> in_word(width as nat, lsb as nat),
        r matches Some(v) ==> v == field_unsigned(word as nat, width as nat, lsb as nat),
{
    if lsb > 64 || width > 64 - lsb {
        return None;
    }
    let hi = lsb + width;
    proof {
        lemma_field_by_shifts(word as nat, width as nat, lsb as nat);
    }
    Some(shr(shl(word, 64 - hi)?, 64 - width)?)
}

/// Tells whether the signed `n` fits in a field of `width` bits in two's
/// complement. Every value fits 64 bits or more.
pub fn fitss(n: i64, width: u64) -> (r: bool)
    ensures
        r == fits_signed(n as int, width as nat),
        width >= 64 ==> r,
{
    if width >= 64 {
        proof {
            lemma_pow2_64();
            if width > 64 {
                lemma_pow2_strictly_increases(63, (width - 1) as nat);
            }
        }
        true
    } else {
        proof {
            lemma_pow2_64();
            if width == 0 {
                lemma_basic_div(0, pow2(64) as int);
            } else {
                lemma_signed_fit_by_shifts(n as int, width as nat);
            }
        }
        sra(shls(n, 64 - width).unwrap(), 64 - width) == Some(n)
    }
}

/// Reads the field of `width` bits at `lsb` of `word` as a two's-complement
/// number. A field that does not lie inside the word is refused.
pub fn gets(word: u64, width: u64, lsb: u64) -> (r: Option<i64>)
    ensures
        r is Some <==> in_word(width as nat, lsb as nat),
        r matches Some(v) ==> v == field_signed(word as nat, width as nat, lsb as nat),
{
    if lsb > 64 || width > 64 - lsb {
        None
    } else if width == 0 {
        proof {
            lemma2_to64();
        }
        Some(0)
    } else {
        let hi = lsb + width;
        proof {
            lemma_pow2_64();
            lemma_signed_field_by_shifts(word as nat, width as nat, lsb as nat);
            assert(word as i64 == to_signed(word as int)) by {
                assert(word as i64 == if word >= 0x8000_0000_0000_0000u64 {
                    word - 0x1_0000_0000_0000_0000
                } else {
                    word as int
                }) by (bit_vector);
                lemma_small_mod(word as nat, pow2(64));
            }
        }
        Some(sra(shls(#[verifier::truncate] (word as i64), 64 - hi)?, 64 - width)?)
    }
}

/// Writes the unsigned `value` into the field of `width` bits at `lsb` of
/// `word` and returns the new word; the bits outside the field stay as they
/// are. A field that does not lie inside the word, and a value that does not
/// fit the field, are refused.
pub fn newu(word: u64, width: u64, lsb: u64, value: u64) -> (r: Option<u64>)
    ensures
        r is Some <==> in_word(width as nat, lsb as nat) && fits_unsigned(
            value as int,
            width as nat,
        ),
        r matches Some(v) ==> v == with_field(word as nat, width as nat, lsb as nat, value as nat),
{
    if lsb > 64 || width > 64 - lsb {
        return None;
    }
    let hi = lsb + width;
    if !fitsu(value, width) {
        None
    } else {
        let high = shl(shr(word, hi)?, hi)?;
        let low = shr(shl(word, 64 - lsb)?, 64 - lsb)?;
        let field = shl(value, lsb)?;
        proof {
            lemma_pow2_64();
            lemma_insert_parts(word as nat, width as nat, lsb as nat, value as nat);
            lemma_or_is_add(field, low, lsb as nat);
            lemma_or_is_add(high, (field | low), hi as nat);
            assert(high | low | field == high | (field | low)) by (bit_vector);
        }
        Some(high | low | field)
    }
}

/// Writes the signed `value` into the field of `width` bits at `lsb` of
/// `word`, as its two's-complement pattern, and returns the new word; the bits
/// outside the field stay as they are. A field that does not lie inside the
/// word, and a value that does not fit the field, are refused.
pub fn news(word: u64, width: u64, lsb: u64, value: i64) -> (r: Option<u64>)
    ensures
        r is Some <==> in_word(width as nat, lsb as nat) && fits_signed(value as int, width as nat),
        r matches Some(v) ==> v == with_field(
            word as nat,
            width as nat,
            lsb as nat,
            twos_complement(value as int, width as nat),
        ),
{
    if !fitss(value, width) {
        None
    } else {
        proof {
            if width <= 64 {
                lemma_low_bits_of_signed(value, width as nat);
            }
        }
        let pattern = getu(#[verifier::truncate] (value as u64), width, 0)?;
        Some(newu(word, width, lsb, pattern)?)
    }
}

/// A field holds a number below 2^width that is no larger than the whole
/// word.
pub proof fn lemma_field_bound(word: nat, width: nat, lsb: nat)
    ensures
        field_unsigned(word, width, lsb) < pow2(width),
        field_unsigned(word, width, lsb) <= word,
{
    lemma_pow2_pos(width);
    lemma_pow2_pos(lsb);
    let q = word as int / pow2(lsb) as int;
    lemma_mod_bound(q, pow2(width) as int);
    lemma_div_pos_is_pos(word as int, pow2(lsb) as int);
    lemma_div_nonincreasing(word as int, pow2(lsb) as int);
    lemma_mod_decreases(q as nat, pow2(width));
}

/// Reading back a field that was just written gives the value written:
/// for every word, every field and every value that fits the field's width,
/// the unsigned reading of the field of `with_field(word, width, lsb, value)`
/// is `value`.
pub proof fn lemma_insert_then_extract_unsigned(word: nat, width: nat, lsb: nat, value: nat)
    requires
        fits_unsigned(value as int, width),
    ensures
        field_unsigned(with_field(word, width, lsb, value), width, lsb) == value,
{
    let ph = pow2(lsb + width) as int;
    let pl = pow2(lsb) as int;
    let pw = pow2(width) as int;
    let high = (word / pow2(lsb + width)) as int;
    let low = (word % pow2(lsb)) as int;
    let v = value as int;
    let x = with_field(word, width, lsb, value) as int;
    lemma_pow2_pos(lsb);
    lemma_pow2_pos(width);
    lemma_pow2_adds(lsb, width);
    lemma_mod_bound(word as int, pl);
    assert(x == (pw * high + v) * pl + low) by (nonlinear_arith)
        requires
            x == high * ph + v * pl + low,
            ph == pl * pw,
    ;
    lemma_fundamental_div_mod_converse(x, pl, pw * high + v, low);
    lemma_mod_multiples_vanish(high, v, pw);
    lemma_small_mod(value, pow2(width));
}

/// Reading back, as a two's-complement number, a field into which a signed
/// value was just written gives the value written: for every word, every
/// field and every value that fits the field's width in two's complement,
/// the signed reading of the field of `with_field(word, width, lsb,
/// twos_complement(value, width))` is `value`.
pub proof fn lemma_insert_then_extract_signed(word: nat, width: nat, lsb: nat, value: int)
    requires
        fits_signed(value, width),
    ensures
        field_signed(
            with_field(word, width, lsb, twos_complement(value, width)),
            width,
            lsb,
        ) == value,
{
    let pw = pow2(width) as int;
    let pattern = twos_complement(value, width);
    lemma_pow2_pos(width);
    lemma_mod_bound(value, pw);
    lemma_insert_then_extract_unsigned(word, width, lsb, pattern);
    if width == 0 {
        lemma2_to64();
    } else {
        lemma_pow2_unfold(width);
        if value < 0 {
            lemma_fundamental_div_mod_converse(value, pw, -1, value + pw);
        } else {
            lemma_small_mod(value as nat, pow2(width));
        }
    }
}

/// Writing a field leaves the bits below it and the bits above it as they
/// were.
pub proof fn lemma_insert_keeps_rest(word: nat, width: nat, lsb: nat, value: nat)
    requires
        fits_unsigned(value as int, width),
    ensures
        with_field(word, width, lsb, value) % pow2(lsb) == word % pow2(lsb),
        with_field(word, width, lsb, value) / pow2(lsb + width) == word / pow2(lsb + width),
{
    let ph = pow2(lsb + width) as int;
    let pl = pow2(lsb) as int;
    let pw = pow2(width) as int;
    let high = (word / pow2(lsb + width)) as int;
    let low = (word % pow2(lsb)) as int;
    let v = value as int;
    let x = with_field(word, width, lsb, value) as int;
    lemma_pow2_pos(lsb);
    lemma_pow2_pos(width);
    lemma_pow2_pos(lsb + width);
    lemma_pow2_adds(lsb, width);
    lemma_mod_bound(word as int, pl);
    assert(x == (pw * high + v) * pl + low) by (nonlinear_arith)
        requires
            x == high * ph + v * pl + low,
            ph == pl * pw,
    ;
    lemma_fundamental_div_mod_converse(x, pl, pw * high + v, low);
    assert(0 <= v * pl + low < ph) by (nonlinear_arith)
        requires
            0 <= v < pw,
            0 <= low < pl,
            ph == pl * pw,
    ;
    lemma_fundamental_div_mod_converse(x, ph, high, v * pl + low);
}

/// The bounds of each width: the largest unsigned value of `width` bits,
/// 2^width - 1, fits and 2^width does not; from one bit on, the smallest
/// two's-complement value, -(2^(width-1)), fits and 2^(width-1) does not.
pub proof fn lemma_fit_boundary(width: nat)
    ensures
        fits_unsigned(pow2(width) - 1, width),
        !fits_unsigned(pow2(width) as int, width),
        width >= 1 ==> fits_signed(-pow2((width - 1) as nat), width),
        width >= 1 ==> !fits_signed(pow2((width - 1) as nat) as int, width),
{
    lemma_pow2_pos(width);
    if width >= 1 {
        lemma_pow2_pos((width - 1) as nat);
    }
}

/// Every 64-bit word fits 64 bits as an unsigned number, and every signed
/// 64-bit integer fits 64 bits in two's complement.
pub proof fn lemma_width_64_fits_all(n: u64, m: i64)
    ensures
        fits_unsigned(n as int, 64),
        fits_signed(m as int, 64),
{
    lemma_pow2_64();
}

} // verus!
