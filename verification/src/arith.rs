//! Arithmetic behind the bit-field codec: the proofs that tie the shift
//! operators of 64-bit words to multiplication and division by powers of two,
//! and the facts about quotients and remainders that the codec rests on.

use vstd::prelude::*;
use vstd::arithmetic::div_mod::{
    lemma_basic_div, lemma_breakdown, lemma_div_denominator, lemma_div_multiples_vanish,
    lemma_fundamental_div_mod, lemma_fundamental_div_mod_converse, lemma_mod_bound, lemma_mod_mod,
    lemma_mod_multiples_basic, lemma_mod_multiples_vanish, lemma_mul_mod_noop_left, lemma_small_mod,
    lemma_truncate_middle,
};
use vstd::arithmetic::mul::{lemma_mul_is_associative, lemma_mul_is_distributive_add_other_way};
use vstd::arithmetic::power2::{
    lemma2_to64, lemma2_to64_rest, lemma_pow2_adds, lemma_pow2_pos, lemma_pow2_unfold, pow2,
};
use vstd::bits::lemma_u64_shr_is_div;

verus! {

/// The two's-complement reading of the low 64 bits of `x`.
pub open spec fn to_signed(x: int) -> int {
    let m = x % (pow2(64) as int);
    if m >= pow2(63) {
        m - pow2(64)
    } else {
        m
    }
}

/// The values of 2^63 and 2^64.
pub proof fn lemma_pow2_64()
    ensures
        pow2(63) == 0x8000_0000_0000_0000,
        pow2(64) == 0x1_0000_0000_0000_0000,
{
    lemma2_to64();
    lemma2_to64_rest();
}

/// A left shift by fewer than 64 places multiplies by 2^s modulo 2^64.
pub proof fn lemma_shl_is_mul_mod(x: u64, s: u64)
    requires
        s < 64,
    ensures
        (x << s) == (x as nat * pow2(s as nat)) % pow2(64),
    decreases s,
{
    lemma_pow2_64();
    let m = pow2(64) as int;
    if s == 0 {
        assert(x << 0 == x) by (bit_vector);
        assert(pow2(0) == 1) by {
            lemma2_to64();
        }
        assert(x as nat * 1 == x as nat);
        lemma_small_mod(x as nat, pow2(64));
    } else {
        let t = (s - 1) as u64;
        let y = x << t;
        assert(x << s == ((x << t) * 2) % 0x1_0000_0000_0000_0000) by (bit_vector)
            requires
                0 < s < 64,
                t == s - 1,
        ;
        lemma_shl_is_mul_mod(x, t);
        let p = pow2(t as nat) as int;
        assert(y == (x * p) % m);
        lemma_mul_mod_noop_left(x * p, 2, m);
        assert((y * 2) % m == (x * p * 2) % m);
        lemma_pow2_unfold(s as nat);
        lemma_mul_is_associative(x as int, p, 2);
        assert(x * p * 2 == x * pow2(s as nat));
    }
}

/// A left shift of a signed word multiplies by 2^s and wraps to 64 bits.
pub proof fn lemma_shls_is_mul_wrap(x: i64, s: u64)
    requires
        s < 64,
    ensures
        (x << s) == to_signed(x * pow2(s as nat)),
{
    lemma_pow2_64();
    let m = pow2(64) as int;
    let p = pow2(s as nat) as int;
    let xu = x as u64;
    let y = xu << s;
    assert((x << s) == (((x as u64) << s) as i64)) by (bit_vector);
    assert(x as u64 == if x < 0 {
        x + 0x1_0000_0000_0000_0000
    } else {
        x as int
    }) by (bit_vector);
    lemma_shl_is_mul_mod(xu, s);
    assert(y == (xu * p) % m);
    assert((xu * p) % m == (x * p) % m) by {
        if x < 0 {
            lemma_mul_is_distributive_add_other_way(p, x as int, m);
            assert(xu * p == x * p + m * p);
            lemma_mod_multiples_vanish(p, x * p, m);
        }
    }
    assert(y as i64 == if y >= 0x8000_0000_0000_0000u64 {
        y - 0x1_0000_0000_0000_0000
    } else {
        y as int
    }) by (bit_vector);
}

/// An arithmetic right shift divides by 2^s, rounding towards minus infinity.
pub proof fn lemma_sra_is_div(x: i64, s: u64)
    requires
        s < 64,
    ensures
        (x >> s) == (x as int) / (pow2(s as nat) as int),
{
    let d = pow2(s as nat) as int;
    lemma_pow2_pos(s as nat);
    if x >= 0 {
        // on a word that is not negative the two right shifts agree
        assert(x >= 0 ==> (x >> s) == (((x as u64) >> s) as i64) && (x as u64) == x && ((x as u64)
            >> s) < 0x8000_0000_0000_0000u64) by (bit_vector);
        lemma_u64_shr_is_div(x as u64, s);
    } else {
        let n: i64 = !x;
        let nu = n as u64;
        let q = nu >> s;
        // on a negative word the shift is the complement of the shifted
        // complement, and the complement of x is -1 - x
        assert(x < 0 ==> (!x) >= 0 && (!x) == -1 - x) by (bit_vector);
        assert(x < 0 && s < 64 ==> (x >> s) == !((((!x) as u64) >> s) as i64) && ((!x) as u64)
            == !x) by (bit_vector);
        assert(q < 0x8000_0000_0000_0000u64 ==> !(q as i64) == -1 - q) by (bit_vector);
        assert(nu < 0x8000_0000_0000_0000u64 ==> (nu >> s) < 0x8000_0000_0000_0000u64)
            by (bit_vector);
        lemma_u64_shr_is_div(nu, s);
        // nu == d * q + r with 0 <= r < d, so x == d * (-1 - q) + (d - 1 - r)
        lemma_fundamental_div_mod(nu as int, d);
        lemma_mod_bound(nu as int, d);
        let r = (nu as int) % d;
        assert(q == (nu as int) / d);
        assert(x == (-1 - q) * d + (d - 1 - r)) by (nonlinear_arith)
            requires
                x == -1 - nu,
                nu == d * q + r,
        ;
        lemma_fundamental_div_mod_converse(x as int, d, -1 - q, d - 1 - r);
    }
}

/// Dividing a 64-bit signed integer by 2^63 or by 2^64 leaves its sign: -1
/// below zero, 0 otherwise.
pub proof fn lemma_sign_quotient(x: int)
    requires
        -0x8000_0000_0000_0000 <= x < 0x8000_0000_0000_0000,
    ensures
        x / (pow2(63) as int) == (if x < 0 { -1int } else { 0 }),
        x / (pow2(64) as int) == (if x < 0 { -1int } else { 0 }),
{
    lemma_pow2_64();
    let a = pow2(63) as int;
    let b = pow2(64) as int;
    if x < 0 {
        lemma_fundamental_div_mod_converse(x, a, -1, x + a);
        lemma_fundamental_div_mod_converse(x, b, -1, x + b);
    } else {
        lemma_basic_div(x, a);
        lemma_basic_div(x, b);
    }
}

/// Shifting a 64-bit word left until the field's top bit is bit 63, then right
/// until its bottom bit is bit 0, leaves the field: the quotient by 2^lsb,
/// reduced modulo 2^width.
pub proof fn lemma_field_by_shifts(word: nat, width: nat, lsb: nat)
    requires
        lsb + width <= 64,
    ensures
        ((word * pow2((64 - lsb - width) as nat)) % pow2(64)) / pow2((64 - width) as nat) == (word
            / pow2(lsb)) % pow2(width),
{
    let hi = lsb + width;
    let a = (64 - hi) as nat;
    let pa = pow2(a) as int;
    let pl = pow2(lsb) as int;
    let pw = pow2(width) as int;
    let ph = pow2(hi) as int;
    let w = word as int;
    lemma_pow2_pos(a);
    lemma_pow2_pos(lsb);
    lemma_pow2_pos(width);
    lemma_pow2_pos(hi);
    lemma_pow2_adds(a, hi);
    lemma_pow2_adds(a, lsb);
    lemma_pow2_adds(lsb, width);
    assert(pow2(64) == pa * ph);
    assert(pow2((64 - width) as nat) == pa * pl);
    assert(ph == pl * pw);
    let y = w % ph;
    lemma_truncate_middle(w, pa, ph);
    assert(w * pa == pa * w) by (nonlinear_arith);
    assert((w * pa) % (pa * ph) == pa * y);
    lemma_mod_bound(w, ph);
    lemma_div_denominator(pa * y, pa, pl);
    lemma_div_multiples_vanish(y, pa);
    assert((pa * y) / (pa * pl) == y / pl);
    lemma_breakdown(w, pl, pw);
    let q = (w / pl) % pw;
    let r = w % pl;
    lemma_mod_bound(w, pl);
    assert(y == q * pl + r) by (nonlinear_arith)
        requires
            y == pl * q + r,
    ;
    lemma_fundamental_div_mod_converse(y, pl, q, r);
}

/// The two's-complement reading of 64 bits lies in the range of a signed
/// 64-bit integer, and differs from the number read by a multiple of 2^64.
pub proof fn lemma_to_signed_range(x: int)
    ensures
        -0x8000_0000_0000_0000 <= to_signed(x) < 0x8000_0000_0000_0000,
        to_signed(x) == x % (pow2(64) as int) || to_signed(x) == x % (pow2(64) as int) - pow2(64),
        0 <= x % (pow2(64) as int) < pow2(64),
{
    lemma_pow2_64();
    lemma_mod_bound(x, pow2(64) as int);
}

/// A number in the range of a signed 64-bit integer is its own
/// two's-complement reading.
pub proof fn lemma_to_signed_id(x: int)
    requires
        -0x8000_0000_0000_0000 <= x < 0x8000_0000_0000_0000,
    ensures
        to_signed(x) == x,
{
    lemma_pow2_64();
    let m = pow2(64) as int;
    if x < 0 {
        lemma_fundamental_div_mod_converse(x, m, -1, x + m);
    } else {
        lemma_fundamental_div_mod_converse(x, m, 0, x);
    }
}

/// Numbers that differ by a multiple of 2^64 have the same two's-complement
/// reading, also after both are multiplied by `p`.
pub proof fn lemma_to_signed_congruent(x: int, p: int)
    ensures
        to_signed(to_signed(x) * p) == to_signed(x * p),
{
    lemma_pow2_64();
    let m = pow2(64) as int;
    let r = x % m;
    lemma_mul_mod_noop_left(x, p, m);
    assert((r * p) % m == (x * p) % m);
    if to_signed(x) != r {
        assert(to_signed(x) == r - m);
        assert((r - m) * p == m * (-p) + r * p) by (nonlinear_arith);
        lemma_mod_multiples_vanish(-p, r * p, m);
    }
}

/// A signed `n` survives a left shift by `64 - width` places followed by an
/// arithmetic right shift by as many exactly when it lies in the
/// two's-complement range of `width` bits.
pub proof fn lemma_signed_fit_by_shifts(n: int, width: nat)
    requires
        1 <= width <= 63,
        -0x8000_0000_0000_0000 <= n < 0x8000_0000_0000_0000,
    ensures
        (to_signed(n * pow2((64 - width) as nat)) / (pow2((64 - width) as nat) as int) == n) <==> (
        -pow2((width - 1) as nat) <= n < pow2((width - 1) as nat)),
{
    lemma_pow2_64();
    let k = (64 - width) as nat;
    let d = pow2(k) as int;
    let h = pow2((width - 1) as nat) as int;
    lemma_pow2_pos(k);
    lemma_pow2_pos((width - 1) as nat);
    lemma_pow2_adds((width - 1) as nat, k);
    assert(h * d == 0x8000_0000_0000_0000);
    let s = to_signed(n * d);
    lemma_to_signed_range(n * d);
    if -h <= n < h {
        assert(-0x8000_0000_0000_0000 <= n * d < 0x8000_0000_0000_0000) by (nonlinear_arith)
            requires
                -h <= n < h,
                d > 0,
                h * d == 0x8000_0000_0000_0000,
        ;
        lemma_to_signed_id(n * d);
        lemma_div_multiples_vanish(n, d);
        assert(d * n == n * d) by (nonlinear_arith);
    }
    if s / d == n {
        lemma_fundamental_div_mod(s, d);
        lemma_mod_bound(s, d);
        let r = s % d;
        assert(-h <= n < h) by (nonlinear_arith)
            requires
                s == d * n + r,
                0 <= r < d,
                -0x8000_0000_0000_0000 <= s < 0x8000_0000_0000_0000,
                h * d == 0x8000_0000_0000_0000,
                h > 0,
        ;
    }
}

/// Shifting a 64-bit word, read as signed, left until the field's top bit is
/// bit 63 and then arithmetically right until its bottom bit is bit 0 leaves
/// the field's two's-complement reading.
pub proof fn lemma_signed_field_by_shifts(word: nat, width: nat, lsb: nat)
    requires
        word < pow2(64),
        1 <= width,
        lsb + width <= 64,
    ensures
        ({
            let u = (word / pow2(lsb)) % pow2(width);
            to_signed(to_signed(word as int) * pow2((64 - lsb - width) as nat)) / (pow2(
                (64 - width) as nat,
            ) as int) == (if u >= pow2((width - 1) as nat) {
                u - pow2(width)
            } else {
                u as int
            })
        }),
{
    lemma_pow2_64();
    let a = (64 - lsb - width) as nat;
    let b = (64 - width) as nat;
    let pa = pow2(a) as int;
    let d = pow2(b) as int;
    let pw = pow2(width) as int;
    let h = pow2((width - 1) as nat) as int;
    let m = pow2(64) as int;
    let u = ((word / pow2(lsb)) % pow2(width)) as int;
    lemma_pow2_pos(a);
    lemma_pow2_pos(b);
    lemma_pow2_pos(width);
    lemma_pow2_pos((width - 1) as nat);
    lemma_pow2_adds(b, width);
    lemma_pow2_adds(b, (width - 1) as nat);
    assert(d * pw == m);
    assert(d * h == 0x8000_0000_0000_0000);
    lemma_to_signed_congruent(word as int, pa);
    let t = (word * pa) % m;
    let s = to_signed(word * pa);
    lemma_to_signed_range(word * pa);
    lemma_field_by_shifts(word, width, lsb);
    assert(t / d == u);
    lemma_fundamental_div_mod(t, d);
    lemma_mod_bound(t, d);
    let r = t % d;
    assert(t == d * u + r);
    if t >= 0x8000_0000_0000_0000 {
        assert(s == t - m);
        assert(u >= h) by (nonlinear_arith)
            requires
                t == d * u + r,
                0 <= r < d,
                t >= d * h,
        ;
        assert(s == (u - pw) * d + r) by (nonlinear_arith)
            requires
                s == t - m,
                t == d * u + r,
                d * pw == m,
        ;
        lemma_fundamental_div_mod_converse(s, d, u - pw, r);
    } else {
        assert(s == t);
        assert(u < h) by (nonlinear_arith)
            requires
                t == d * u + r,
                0 <= r < d,
                t < d * h,
                d > 0,
        ;
    }
}

/// Two 64-bit words of which one is a multiple of 2^k and the other lies below
/// 2^k share no set bit: their bitwise OR is their sum.
pub proof fn lemma_or_is_add(a: u64, b: u64, k: nat)
    requires
        k <= 64,
        a as nat % pow2(k) == 0,
        b < pow2(k),
    ensures
        a | b == a + b,
{
    lemma_pow2_64();
    lemma_pow2_pos(k);
    if k == 64 {
        lemma_small_mod(a as nat, pow2(64));
        assert(a == 0);
        assert(0u64 | b == b) by (bit_vector);
    } else {
        let s = k as u64;
        let d = pow2(k) as int;
        let q = a >> s;
        lemma_u64_shr_is_div(a, s);
        lemma_u64_shr_is_div(b, s);
        lemma_basic_div(b as int, d);
        lemma_fundamental_div_mod(a as int, d);
        assert(a == q * d) by (nonlinear_arith)
            requires
                a == d * q + 0,
        ;
        lemma_shl_is_mul_mod(q, s);
        lemma_small_mod(a as nat, pow2(64));
        assert(q << s == a);
        assert(a | b == a + b) by (bit_vector)
            requires
                s < 64,
                (a >> s) << s == a,
                b >> s == 0,
        ;
    }
}

/// The three parts that an insertion puts together: the word with its low
/// `lsb + width` bits cleared, the value moved up by `lsb` places, and the
/// word's low `lsb` bits. None of the three shifts loses a bit, and the parts
/// lie in separate bit ranges.
pub proof fn lemma_insert_parts(word: nat, width: nat, lsb: nat, value: nat)
    requires
        word < pow2(64),
        value < pow2(width),
        lsb + width <= 64,
    ensures
        ((word / pow2(lsb + width)) * pow2(lsb + width)) % pow2(64) == (word / pow2(lsb + width))
            * pow2(lsb + width),
        ((word / pow2(lsb + width)) * pow2(lsb + width)) % pow2(lsb + width) == 0,
        ((word * pow2((64 - lsb) as nat)) % pow2(64)) / pow2((64 - lsb) as nat) == word % pow2(lsb),
        (value * pow2(lsb)) % pow2(64) == value * pow2(lsb),
        (value * pow2(lsb)) % pow2(lsb) == 0,
        value * pow2(lsb) + word % pow2(lsb) < pow2(lsb + width),
        word % pow2(lsb) < pow2(lsb),
        (word / pow2(lsb + width)) * pow2(lsb + width) + value * pow2(lsb) + word % pow2(lsb)
            < pow2(64),
{
    lemma_pow2_64();
    let hi = lsb + width;
    let ph = pow2(hi) as int;
    let pl = pow2(lsb) as int;
    let pw = pow2(width) as int;
    let m = pow2(64) as int;
    let w = word as int;
    let v = value as int;
    lemma_pow2_pos(hi);
    lemma_pow2_pos(lsb);
    lemma_pow2_pos(width);
    lemma_pow2_adds(lsb, width);
    lemma_pow2_adds(hi, (64 - hi) as nat);
    lemma_pow2_pos((64 - hi) as nat);
    assert(ph <= m) by (nonlinear_arith)
        requires
            m == ph * pow2((64 - hi) as nat),
            pow2((64 - hi) as nat) >= 1,
            ph > 0,
    ;
    // the high part
    let q = w / ph;
    lemma_fundamental_div_mod(w, ph);
    lemma_mod_bound(w, ph);
    assert(q * ph == ph * q) by (nonlinear_arith);
    assert(0 <= q * ph <= w);
    lemma_small_mod((q * ph) as nat, pow2(64));
    lemma_mod_multiples_basic(q, ph);
    // the low part
    lemma_field_by_shifts(word, lsb, 0);
    assert(pow2(0) == 1) by {
        lemma2_to64();
    }
    assert(word / pow2(0) == word);
    lemma_mod_bound(w, pl);
    // the value, moved into place
    assert(v * pl + w % pl < ph) by (nonlinear_arith)
        requires
            0 <= v < pw,
            0 <= w % pl < pl,
            ph == pl * pw,
    ;
    assert(0 <= v * pl) by (nonlinear_arith)
        requires
            0 <= v,
            0 < pl,
    ;
    lemma_small_mod((v * pl) as nat, pow2(64));
    lemma_mod_multiples_basic(v, pl);
    assert(q * ph + ph <= m) by (nonlinear_arith)
        requires
            q * ph <= w,
            w < m,
            m == ph * pow2((64 - hi) as nat),
            w == ph * q + w % ph,
            0 <= w % ph < ph,
            q >= 0,
    ;
}

/// Reducing a 64-bit pattern of a signed number modulo 2^width, for a width up
/// to 64, gives the number's `width`-bit two's-complement pattern.
pub proof fn lemma_mod_of_pattern(value: int, width: nat)
    requires
        width <= 64,
    ensures
        (value % (pow2(64) as int)) % (pow2(width) as int) == value % (pow2(width) as int),
{
    lemma_pow2_pos(width);
    lemma_pow2_pos((64 - width) as nat);
    lemma_pow2_adds(width, (64 - width) as nat);
    lemma_mod_mod(value, pow2(width) as int, pow2((64 - width) as nat) as int);
}

/// The low `width` bits of the 64-bit pattern of a signed integer are its
/// `width`-bit two's-complement pattern.
pub proof fn lemma_low_bits_of_signed(value: i64, width: nat)
    requires
        width <= 64,
    ensures
        ((value as u64) as nat / pow2(0)) % pow2(width) == (value as int) % (pow2(width) as int),
        0 <= (value as int) % (pow2(width) as int) < pow2(width),
{
    lemma_pow2_64();
    lemma_pow2_pos(width);
    assert(pow2(0) == 1) by {
        lemma2_to64();
    }
    assert(value as u64 == if value < 0 {
        value + 0x1_0000_0000_0000_0000
    } else {
        value as int
    }) by (bit_vector);
    if value < 0 {
        lemma_fundamental_div_mod_converse(value as int, pow2(64) as int, -1, value + pow2(64));
    } else {
        lemma_small_mod(value as nat, pow2(64));
    }
    assert(value as u64 == (value as int) % (pow2(64) as int));
    lemma_mod_of_pattern(value as int, width);
    lemma_mod_bound(value as int, pow2(width) as int);
}

} // verus!
