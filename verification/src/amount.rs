//! Swap amounts: signed 256-bit integers in sign-magnitude form, with
//! conversion from the chain's two's-complement words and rendering as
//! fixed-point decimal strings.

use vstd::prelude::*;
use vstd::arithmetic::div_mod::lemma_fundamental_div_mod;
use vstd::arithmetic::div_mod::lemma_fundamental_div_mod_converse;
use vstd::string::StringExecFns;

verus! {

/// Numeric value of a little-endian sequence of 64-bit limbs.
pub open spec fn limbs_value(s: Seq<u64>) -> nat
    decreases s.len(),
{
    if s.len() == 0 {
        0
    } else {
        (s[0] as nat) + (0x1_0000_0000_0000_0000 as nat) * limbs_value(s.skip(1))
    }
}

/// Numeric value of a big-endian sequence of bytes.
pub open spec fn be_bytes_value(s: Seq<u8>) -> nat
    decreases s.len(),
{
    if s.len() == 0 {
        0
    } else {
        (256 as nat) * be_bytes_value(s.drop_last()) + (s.last() as nat)
    }
}

/// Two's-complement reading of a 32-byte big-endian word: values at or above
/// 2^255 wrap around to negative.
pub open spec fn word_signed_value(s: Seq<u8>) -> int {
    let u = be_bytes_value(s);
    if u >= 0x8000_0000_0000_0000_0000_0000_0000_0000_0000_0000_0000_0000_0000_0000_0000_0000 {
        u - 0x1_0000_0000_0000_0000_0000_0000_0000_0000_0000_0000_0000_0000_0000_0000_0000_0000
    } else {
        u as int
    }
}

/// A four-limb value written out with explicit coefficients.
proof fn lemma_limbs_value4(s: Seq<u64>)
    requires
        s.len() == 4,
    ensures
        limbs_value(s) == (s[0] as nat) + (0x1_0000_0000_0000_0000 as nat) * (s[1] as nat)
            + (0x1_0000_0000_0000_0000_0000_0000_0000_0000 as nat) * (s[2] as nat)
            + (0x1_0000_0000_0000_0000_0000_0000_0000_0000_0000_0000_0000_0000 as nat) * (
        s[3] as nat),
{
    let s1 = s.skip(1);
    let s2 = s1.skip(1);
    let s3 = s2.skip(1);
    let s4 = s3.skip(1);
    assert(s4.len() == 0);
    assert(limbs_value(s4) == 0);
    assert(s3 =~= s.skip(3));
    assert(limbs_value(s3) == s[3] as nat);
    assert(limbs_value(s2) == (s[2] as nat) + (0x1_0000_0000_0000_0000 as nat) * (s[3] as nat));
    assert(limbs_value(s1) == (s[1] as nat) + (0x1_0000_0000_0000_0000 as nat) * limbs_value(s2));
    assert(limbs_value(s) == (s[0] as nat) + (0x1_0000_0000_0000_0000 as nat) * limbs_value(s1));
}

/// Every four-limb value is below 2^256.
proof fn lemma_limbs_value4_bound(s: Seq<u64>)
    requires
        s.len() == 4,
    ensures
        limbs_value(s)
            < 0x1_0000_0000_0000_0000_0000_0000_0000_0000_0000_0000_0000_0000_0000_0000_0000_0000,
{
    lemma_limbs_value4(s);
}

/// Powers of 256.
pub open spec fn pow256(n: nat) -> nat
    decreases n,
{
    if n == 0 {
        1
    } else {
        (256 as nat) * pow256((n - 1) as nat)
    }
}

/// Powers of ten, the scaling factors of fixed-point amounts.
pub open spec fn pow10(n: nat) -> nat
    decreases n,
{
    if n == 0 {
        1
    } else {
        (10 as nat) * pow10((n - 1) as nat)
    }
}

proof fn lemma_pow256_le(a: nat, b: nat)
    requires
        a <= b,
    ensures
        pow256(a) <= pow256(b),
    decreases b,
{
    if a < b {
        lemma_pow256_le(a, (b - 1) as nat);
    }
}

/// The two's-complement reading round-trips the unsigned word value: a word
/// below 2^255 reads as itself, and any other word as its value less 2^256.
pub proof fn lemma_word_signed_round_trip(s: Seq<u8>)
    ensures
        be_bytes_value(s)
            < 0x8000_0000_0000_0000_0000_0000_0000_0000_0000_0000_0000_0000_0000_0000_0000_0000
            ==> word_signed_value(s) == be_bytes_value(s),
        be_bytes_value(s)
            >= 0x8000_0000_0000_0000_0000_0000_0000_0000_0000_0000_0000_0000_0000_0000_0000_0000
            ==> word_signed_value(s) == be_bytes_value(s)
            - 0x1_0000_0000_0000_0000_0000_0000_0000_0000_0000_0000_0000_0000_0000_0000_0000_0000,
{
}

/// Concatenation shifts the left part by 256^(length of the right part).
proof fn lemma_be_bytes_concat(s: Seq<u8>, t: Seq<u8>)
    ensures
        be_bytes_value(s + t) == be_bytes_value(s) * pow256(t.len()) + be_bytes_value(t),
    decreases t.len(),
{
    if t.len() == 0 {
        assert(s + t =~= s);
        assert(pow256(t.len()) == 1);
        assert(be_bytes_value(t) == 0);
        assert(be_bytes_value(s) * pow256(t.len()) == be_bytes_value(s) * 1);
        assert(be_bytes_value(s) * 1 == be_bytes_value(s)) by (nonlinear_arith);
    } else {
        let t0 = t.drop_last();
        lemma_be_bytes_concat(s, t0);
        assert((s + t).drop_last() =~= s + t0);
        let a = be_bytes_value(s);
        let p = pow256(t0.len());
        let b = be_bytes_value(t0);
        assert((256 as nat) * (a * p + b) == a * ((256 as nat) * p) + (256 as nat) * b)
            by (nonlinear_arith);
        assert(be_bytes_value(s + t) == (256 as nat) * (a * p + b) + t.last());
        assert(pow256(t.len()) == (256 as nat) * p);
        assert(a * pow256(t.len()) == a * ((256 as nat) * p)) by (nonlinear_arith)
            requires
                pow256(t.len()) == (256 as nat) * p,
        ;
        assert(be_bytes_value(t) == (256 as nat) * b + t.last());
        assert(be_bytes_value(s + t) == a * pow256(t.len()) + be_bytes_value(t));
    }
}

/// One big-endian limb out of a byte string.
fn limb_from_be(bytes: &Vec<u8>, start: usize) -> (r: u64)
    requires
        start + 8 <= bytes@.len(),
    ensures
        r == be_bytes_value(bytes@.subrange(start as int, start as int + 8)),
{
    proof {
        reveal_with_fuel(pow256, 9);
    }
    let n = bytes.len();
    let mut acc: u64 = 0;
    let mut i: usize = 0;
    while i < 8
        invariant
            n == bytes@.len(),
            start + 8 <= n,
            i <= 8,
            acc == be_bytes_value(bytes@.subrange(start as int, start as int + i as int)),
            acc < pow256(i as nat),
        decreases 8 - i,
    {
        proof {
            reveal_with_fuel(pow256, 9);
            lemma_pow256_le(i as nat, 7);
            assert(bytes@.subrange(start as int, start as int + i as int + 1).drop_last()
                =~= bytes@.subrange(start as int, start as int + i as int));
        }
        acc = acc * 256 + (bytes[start + i] as u64);
        i = i + 1;
    }
    acc
}

/// Truncating division of a four-limb magnitude by ten.
fn mag_divmod10(limbs: &Vec<u64>) -> (r: (Vec<u64>, u64))
    requires
        limbs@.len() == 4,
    ensures
        r.0@.len() == 4,
        limbs_value(limbs@) == 10 * limbs_value(r.0@) + r.1,
        r.1 < 10,
{
    let l0 = limbs[0];
    let l1 = limbs[1];
    let l2 = limbs[2];
    let l3 = limbs[3];
    let c3: u128 = l3 as u128;
    let q3: u64 = (c3 / 10) as u64;
    let r3: u128 = c3 % 10;
    let c2: u128 = r3 * 0x1_0000_0000_0000_0000u128 + (l2 as u128);
    let q2: u64 = (c2 / 10) as u64;
    let r2: u128 = c2 % 10;
    let c1: u128 = r2 * 0x1_0000_0000_0000_0000u128 + (l1 as u128);
    let q1: u64 = (c1 / 10) as u64;
    let r1: u128 = c1 % 10;
    let c0: u128 = r1 * 0x1_0000_0000_0000_0000u128 + (l0 as u128);
    let q0: u64 = (c0 / 10) as u64;
    let r0: u128 = c0 % 10;
    let mut out: Vec<u64> = Vec::new();
    out.push(q0);
    out.push(q1);
    out.push(q2);
    out.push(q3);
    proof {
        lemma_limbs_value4(limbs@);
        lemma_limbs_value4(out@);
        lemma_fundamental_div_mod(c3 as int, 10);
        lemma_fundamental_div_mod(c2 as int, 10);
        lemma_fundamental_div_mod(c1 as int, 10);
        lemma_fundamental_div_mod(c0 as int, 10);
    }
    (out, r0 as u64)
}

/// Ten times a four-limb magnitude, plus one digit; the result must still fit.
fn mag_mul10_add(limbs: &Vec<u64>, digit: u64) -> (r: Vec<u64>)
    requires
        limbs@.len() == 4,
        digit < 10,
        10 * limbs_value(limbs@) + digit
            < 0x1_0000_0000_0000_0000_0000_0000_0000_0000_0000_0000_0000_0000_0000_0000_0000_0000,
    ensures
        r@.len() == 4,
        limbs_value(r@) == 10 * limbs_value(limbs@) + digit,
{
    let c0: u128 = (limbs[0] as u128) * 10 + (digit as u128);
    let m0: u64 = (c0 % 0x1_0000_0000_0000_0000u128) as u64;
    let k0: u128 = c0 / 0x1_0000_0000_0000_0000u128;
    let c1: u128 = (limbs[1] as u128) * 10 + k0;
    let m1: u64 = (c1 % 0x1_0000_0000_0000_0000u128) as u64;
    let k1: u128 = c1 / 0x1_0000_0000_0000_0000u128;
    let c2: u128 = (limbs[2] as u128) * 10 + k1;
    let m2: u64 = (c2 % 0x1_0000_0000_0000_0000u128) as u64;
    let k2: u128 = c2 / 0x1_0000_0000_0000_0000u128;
    let c3: u128 = (limbs[3] as u128) * 10 + k2;
    let m3: u64 = (c3 % 0x1_0000_0000_0000_0000u128) as u64;
    let k3: u128 = c3 / 0x1_0000_0000_0000_0000u128;
    let mut out: Vec<u64> = Vec::new();
    out.push(m0);
    out.push(m1);
    out.push(m2);
    out.push(m3);
    proof {
        lemma_limbs_value4(limbs@);
        lemma_limbs_value4(out@);
        lemma_fundamental_div_mod(c0 as int, 0x1_0000_0000_0000_0000);
        lemma_fundamental_div_mod(c1 as int, 0x1_0000_0000_0000_0000);
        lemma_fundamental_div_mod(c2 as int, 0x1_0000_0000_0000_0000);
        lemma_fundamental_div_mod(c3 as int, 0x1_0000_0000_0000_0000);
    }
    out
}

/// 2^256 minus a nonzero four-limb magnitude, as four limbs.
fn mag_negate256(limbs: &Vec<u64>) -> (r: Vec<u64>)
    requires
        limbs@.len() == 4,
        limbs_value(limbs@) != 0,
    ensures
        r@.len() == 4,
        limbs_value(r@)
            == 0x1_0000_0000_0000_0000_0000_0000_0000_0000_0000_0000_0000_0000_0000_0000_0000_0000
            - limbs_value(limbs@),
{
    let n0: u64 = 0xFFFF_FFFF_FFFF_FFFFu64 - limbs[0];
    let n1: u64 = 0xFFFF_FFFF_FFFF_FFFFu64 - limbs[1];
    let n2: u64 = 0xFFFF_FFFF_FFFF_FFFFu64 - limbs[2];
    let n3: u64 = 0xFFFF_FFFF_FFFF_FFFFu64 - limbs[3];
    let (m0, b0): (u64, u64) = if n0 == 0xFFFF_FFFF_FFFF_FFFFu64 {
        (0u64, 1u64)
    } else {
        (n0 + 1, 0u64)
    };
    let (m1, b1): (u64, u64) = if b0 == 1 {
        if n1 == 0xFFFF_FFFF_FFFF_FFFFu64 {
            (0u64, 1u64)
        } else {
            (n1 + 1, 0u64)
        }
    } else {
        (n1, 0u64)
    };
    let (m2, b2): (u64, u64) = if b1 == 1 {
        if n2 == 0xFFFF_FFFF_FFFF_FFFFu64 {
            (0u64, 1u64)
        } else {
            (n2 + 1, 0u64)
        }
    } else {
        (n2, 0u64)
    };
    let (m3, b3): (u64, u64) = if b2 == 1 {
        if n3 == 0xFFFF_FFFF_FFFF_FFFFu64 {
            (0u64, 1u64)
        } else {
            (n3 + 1, 0u64)
        }
    } else {
        (n3, 0u64)
    };
    let mut out: Vec<u64> = Vec::new();
    out.push(m0);
    out.push(m1);
    out.push(m2);
    out.push(m3);
    proof {
        lemma_limbs_value4(limbs@);
        lemma_limbs_value4(out@);
        assert(b3 == 0) by {
            lemma_limbs_value4(limbs@);
            lemma_limbs_value4(out@);
        }
    }
    out
}

/// The character of one decimal digit.
pub open spec fn digit_char(d: int) -> char {
    if d == 0 {
        '0'
    } else if d == 1 {
        '1'
    } else if d == 2 {
        '2'
    } else if d == 3 {
        '3'
    } else if d == 4 {
        '4'
    } else if d == 5 {
        '5'
    } else if d == 6 {
        '6'
    } else if d == 7 {
        '7'
    } else if d == 8 {
        '8'
    } else {
        '9'
    }
}

/// Decimal digits of n as characters, least significant first; empty for zero.
pub open spec fn dec_digits_rev(n: nat) -> Seq<char>
    decreases n,
{
    if n == 0 {
        Seq::empty()
    } else {
        seq![digit_char((n % 10) as int)] + dec_digits_rev(n / 10)
    }
}

/// The usual decimal string of an integer: a minus sign for negative values,
/// digits without leading zeros, and "0" for zero.
pub open spec fn dec_str(i: int) -> Seq<char> {
    if i == 0 {
        seq!['0']
    } else if i < 0 {
        seq!['-'] + dec_digits_rev((-i) as nat).reverse()
    } else {
        dec_digits_rev(i as nat).reverse()
    }
}

/// Numeric value of a sequence of decimal digits, least significant first.
pub open spec fn digits_value(s: Seq<u64>) -> nat
    decreases s.len(),
{
    if s.len() == 0 {
        0
    } else {
        (s[0] as nat) + (10 as nat) * digits_value(s.skip(1))
    }
}

/// Digit values turned into their characters.
pub open spec fn digit_chars(s: Seq<u64>) -> Seq<char> {
    s.map_values(|d: u64| digit_char(d as int))
}

/// Trailing '0' characters removed.
pub open spec fn trim_trailing_zeros(s: Seq<char>) -> Seq<char>
    decreases s.len(),
{
    if s.len() > 0 && s.last() == '0' {
        trim_trailing_zeros(s.drop_last())
    } else {
        s
    }
}

/// Division truncating toward zero, for a positive divisor.
pub open spec fn trunc_div(a: int, b: int) -> int {
    if a >= 0 {
        a / b
    } else {
        -((-a) / b)
    }
}

/// The remainder of division truncating toward zero: it carries the sign of
/// the dividend.
pub open spec fn trunc_rem(a: int, b: int) -> int {
    if a >= 0 {
        a % b
    } else {
        -((-a) % b)
    }
}

/// What rendering an amount at a decimal count gives: the truncating quotient
/// by 10^decimals; if the remainder is not zero, also a dot and the decimal
/// digits of the remainder's absolute value, trailing zeros stripped.
pub open spec fn render_spec(a: int, d: nat) -> Seq<char> {
    let p = pow10(d) as int;
    let q = trunc_div(a, p);
    let r = trunc_rem(a, p);
    if r == 0 {
        dec_str(q)
    } else {
        dec_str(q) + seq!['.'] + trim_trailing_zeros(dec_str(if r < 0 {
            -r
        } else {
            r
        }))
    }
}

/// A fresh copy of a limb vector.
fn mag_clone(limbs: &Vec<u64>) -> (r: Vec<u64>)
    ensures
        r@ == limbs@,
{
    let mut out: Vec<u64> = Vec::new();
    let mut i: usize = 0;
    while i < limbs.len()
        invariant
            i <= limbs@.len(),
            out@ == limbs@.subrange(0, i as int),
        decreases limbs@.len() - i,
    {
        out.push(limbs[i]);
        proof {
            assert(out@ =~= limbs@.subrange(0, i + 1));
        }
        i = i + 1;
    }
    proof {
        assert(out@ =~= limbs@);
    }
    out
}

/// Whether a four-limb magnitude is zero.
fn mag_is_zero(limbs: &Vec<u64>) -> (r: bool)
    requires
        limbs@.len() == 4,
    ensures
        r == (limbs_value(limbs@) == 0),
{
    proof {
        lemma_limbs_value4(limbs@);
    }
    limbs[0] == 0 && limbs[1] == 0 && limbs[2] == 0 && limbs[3] == 0
}

/// The decimal digits of a four-limb magnitude, least significant first,
/// without leading zeros; empty exactly for zero.
fn mag_decimal_digits(limbs: &Vec<u64>) -> (r: Vec<u64>)
    requires
        limbs@.len() == 4,
    ensures
        digit_chars(r@) == dec_digits_rev(limbs_value(limbs@)),
        forall|j: int| 0 <= j < r@.len() ==> r@[j] < 10,
{
    let ghost orig: nat = limbs_value(limbs@);
    let mut cur = mag_clone(limbs);
    let mut digits: Vec<u64> = Vec::new();
    while !mag_is_zero(&cur)
        invariant
            cur@.len() == 4,
            digit_chars(digits@) + dec_digits_rev(limbs_value(cur@)) == dec_digits_rev(orig),
            forall|j: int| 0 <= j < digits@.len() ==> digits@[j] < 10,
        decreases limbs_value(cur@),
    {
        let ghost vcur = limbs_value(cur@);
        let (q, rem) = mag_divmod10(&cur);
        proof {
            lemma_fundamental_div_mod_converse(
                vcur as int,
                10,
                limbs_value(q@) as int,
                rem as int,
            );
            assert(digit_chars(digits@.push(rem)) =~= digit_chars(digits@) + seq![
                digit_char(rem as int),
            ]);
            assert(digit_chars(digits@.push(rem)) + dec_digits_rev(limbs_value(q@))
                =~= digit_chars(digits@) + dec_digits_rev(vcur));
        }
        cur = q;
        digits.push(rem);
    }
    proof {
        assert(digit_chars(digits@) =~= digit_chars(digits@) + dec_digits_rev(
            limbs_value(cur@),
        ));
    }
    digits
}

/// The one-character string of a decimal digit.
pub(crate) fn digit_str(d: u64) -> (r: &'static str)
    requires
        d < 10,
    ensures
        r@ == seq![digit_char(d as int)],
{
    proof {
        reveal_strlit("0");
        reveal_strlit("1");
        reveal_strlit("2");
        reveal_strlit("3");
        reveal_strlit("4");
        reveal_strlit("5");
        reveal_strlit("6");
        reveal_strlit("7");
        reveal_strlit("8");
        reveal_strlit("9");
    }
    if d == 0 {
        "0"
    } else if d == 1 {
        "1"
    } else if d == 2 {
        "2"
    } else if d == 3 {
        "3"
    } else if d == 4 {
        "4"
    } else if d == 5 {
        "5"
    } else if d == 6 {
        "6"
    } else if d == 7 {
        "7"
    } else if d == 8 {
        "8"
    } else {
        "9"
    }
}

/// Appends the digits at positions k and above, most significant first.
fn append_digits_rev(s: &mut String, digits: &Vec<u64>, k: usize)
    requires
        k <= digits@.len(),
        forall|j: int| 0 <= j < digits@.len() ==> digits@[j] < 10,
    ensures
        final(s)@ == old(s)@ + digit_chars(digits@.skip(k as int)).reverse(),
{
    let ghost base = old(s)@;
    let ghost tail = digit_chars(digits@.skip(k as int)).reverse();
    let mut i: usize = digits.len();
    while i > k
        invariant
            k <= i <= digits@.len(),
            forall|j: int| 0 <= j < digits@.len() ==> digits@[j] < 10,
            tail == digit_chars(digits@.skip(k as int)).reverse(),
            s@ == base + tail.take(digits@.len() - i),
        decreases i,
    {
        i = i - 1;
        let piece = digit_str(digits[i]);
        s.append(piece);
        proof {
            let n = digits@.skip(k as int).len();
            let t = n - (i - k) - 1;
            assert(tail[t] == digit_chars(digits@.skip(k as int))[i - k]);
            assert(digit_chars(digits@.skip(k as int))[i - k] == digit_char(digits@[i as int] as int));
            assert(tail.take(t + 1) =~= tail.take(t) + seq![tail[t]]);
        }
    }
    proof {
        assert(tail.take(digits@.len() - k) =~= tail);
    }
}

proof fn lemma_pow10_pos(n: nat)
    ensures
        pow10(n) >= 1,
    decreases n,
{
    if n > 0 {
        lemma_pow10_pos((n - 1) as nat);
    }
}

/// Appending a digit at the most significant end scales it by the length.
proof fn lemma_digits_value_push(s: Seq<u64>, x: u64)
    ensures
        digits_value(s.push(x)) == digits_value(s) + (x as nat) * pow10(s.len()),
    decreases s.len(),
{
    reveal_with_fuel(digits_value, 3);
    reveal_with_fuel(pow10, 2);
    if s.len() == 0 {
        assert(s.push(x)[0] == x);
        assert(s.push(x).skip(1) =~= Seq::<u64>::empty());
        assert((x as nat) * 1 == x) by (nonlinear_arith);
    } else {
        assert(s.push(x)[0] == s[0]);
        assert(s.push(x).skip(1) =~= s.skip(1).push(x));
        lemma_digits_value_push(s.skip(1), x);
        let p = pow10((s.len() - 1) as nat);
        assert(pow10(s.len()) == (10 as nat) * p);
        assert((10 as nat) * (digits_value(s.skip(1)) + (x as nat) * p) == (10 as nat)
            * digits_value(s.skip(1)) + (x as nat) * ((10 as nat) * p)) by (nonlinear_arith);
        assert(digits_value(s.push(x)) == (s[0] as nat) + (10 as nat) * digits_value(
            s.skip(1).push(x),
        ));
    }
}

/// A digit sequence splits at any point into a low and a scaled high part.
proof fn lemma_digits_value_skip(s: Seq<u64>, k: int)
    requires
        0 <= k <= s.len(),
    ensures
        digits_value(s) == digits_value(s.take(k)) + digits_value(s.skip(k)) * pow10(k as nat),
    decreases k,
{
    if k == 0 {
        assert(s.take(0) =~= Seq::<u64>::empty());
        assert(s.skip(0) =~= s);
        assert(digits_value(s) * 1 == digits_value(s)) by (nonlinear_arith);
    } else {
        lemma_digits_value_skip(s.skip(1), k - 1);
        assert(s.take(k).skip(1) =~= s.skip(1).take(k - 1));
        assert(s.skip(k) =~= s.skip(1).skip(k - 1));
        let a = digits_value(s.skip(1).take(k - 1));
        let b = digits_value(s.skip(1).skip(k - 1));
        let p = pow10((k - 1) as nat);
        assert((10 as nat) * (a + b * p) == (10 as nat) * a + b * ((10 as nat) * p))
            by (nonlinear_arith);
    }
}

/// The leading decimal digit of a positive number is not zero.
proof fn lemma_dec_digits_rev_last(n: nat)
    requires
        n > 0,
    ensures
        dec_digits_rev(n).len() >= 1,
        dec_digits_rev(n).last() != '0',
    decreases n,
{
    lemma_fundamental_div_mod(n as int, 10);
    if n < 10 {
        assert(dec_digits_rev(n / 10) =~= Seq::<char>::empty());
    } else {
        lemma_dec_digits_rev_last(n / 10);
    }
}

/// The characters of a decimal digit string are digits alone.
proof fn lemma_dec_digits_rev_no_dot(n: nat)
    ensures
        forall|j: int| 0 <= j < dec_digits_rev(n).len() ==> dec_digits_rev(n)[j] != '.',
    decreases n,
{
    if n > 0 {
        lemma_dec_digits_rev_no_dot(n / 10);
        let s = dec_digits_rev(n);
        let rest = dec_digits_rev(n / 10);
        assert forall|j: int| 0 <= j < s.len() implies s[j] != '.' by {
            if j == 0 {
                assert(s[0] == digit_char((n % 10) as int));
            } else {
                assert(s[j] == rest[j - 1]);
            }
        }
    }
}

/// Rendering an exact multiple of the scaling factor yields the plain decimal
/// string of the scaled-down integer, and that string holds no fractional
/// separator.
pub proof fn lemma_render_whole(k: int, d: nat)
    ensures
        render_spec(k * (pow10(d) as int), d) == dec_str(k),
        forall|j: int| 0 <= j < dec_str(k).len() ==> dec_str(k)[j] != '.',
{
    let p = pow10(d) as int;
    lemma_pow10_pos(d);
    if k >= 0 {
        vstd::arithmetic::div_mod::lemma_div_by_multiple(k, p);
        vstd::arithmetic::div_mod::lemma_mod_multiples_basic(k, p);
        assert(trunc_div(k * p, p) == k);
        assert(trunc_rem(k * p, p) == 0);
    } else {
        assert(k * p < 0) by (nonlinear_arith)
            requires
                k < 0,
                p > 0,
        ;
        assert(-(k * p) == (-k) * p) by (nonlinear_arith);
        vstd::arithmetic::div_mod::lemma_div_by_multiple(-k, p);
        vstd::arithmetic::div_mod::lemma_mod_multiples_basic(-k, p);
        assert(trunc_div(k * p, p) == k);
        assert(trunc_rem(k * p, p) == 0);
    }
    if k == 0 {
    } else if k < 0 {
        lemma_dec_digits_rev_no_dot((-k) as nat);
        assert(forall|j: int| 0 <= j < dec_str(k).len() ==> dec_str(k)[j] != '.');
    } else {
        lemma_dec_digits_rev_no_dot(k as nat);
        assert(forall|j: int| 0 <= j < dec_str(k).len() ==> dec_str(k)[j] != '.');
    }
}

/// Reversing a digit string and trimming its trailing zeros drops exactly the
/// digits below the least significant nonzero one.
proof fn lemma_trim_of_reverse(cs: Seq<char>, k: int)
    requires
        0 <= k < cs.len(),
        forall|j: int| 0 <= j < k ==> cs[j] == '0',
        cs[k] != '0',
    ensures
        trim_trailing_zeros(cs.reverse()) == cs.skip(k).reverse(),
    decreases k,
{
    if k == 0 {
        assert(cs.reverse().last() == cs[0]);
        assert(cs.skip(0) =~= cs);
    } else {
        assert(cs.reverse().last() == cs[0]);
        assert(cs.reverse().drop_last() =~= cs.skip(1).reverse());
        lemma_trim_of_reverse(cs.skip(1), k - 1);
        assert(cs.skip(1).skip(k - 1) =~= cs.skip(k));
    }
}

/// A signed integer whose magnitude fits in 256 bits, in sign-magnitude form.
/// The magnitude is four 64-bit limbs, least significant first.
#[derive(Debug)]
pub struct Int256 {
    neg: bool,
    limbs: Vec<u64>,
}

impl Int256 {
    /// Well-formed: exactly four limbs, and no negative zero.
    pub closed spec fn wf(self) -> bool {
        &&& self.limbs@.len() == 4
        &&& (self.neg ==> limbs_value(self.limbs@) != 0)
    }

    /// The mathematical value represented.
    pub closed spec fn value(self) -> int {
        if self.neg {
            -(limbs_value(self.limbs@) as int)
        } else {
            limbs_value(self.limbs@) as int
        }
    }

    pub fn from_u64(x: u64) -> (r: Int256)
        ensures
            r.wf(),
            r.value() == x,
    {
        let mut limbs: Vec<u64> = Vec::new();
        limbs.push(x);
        limbs.push(0);
        limbs.push(0);
        limbs.push(0);
        proof {
            lemma_limbs_value4(limbs@);
        }
        Int256 { neg: false, limbs }
    }

    /// Reads a 32-byte big-endian word as a two's-complement signed 256-bit
    /// integer: a word at or above 2^255 denotes its value minus 2^256.
    pub fn from_be_bytes(bytes: &Vec<u8>) -> (r: Int256)
        requires
            bytes@.len() == 32,
        ensures
            r.wf(),
            r.value() == word_signed_value(bytes@),
    {
        let limb0 = limb_from_be(bytes, 24);
        let limb1 = limb_from_be(bytes, 16);
        let limb2 = limb_from_be(bytes, 8);
        let limb3 = limb_from_be(bytes, 0);
        let mut limbs: Vec<u64> = Vec::new();
        limbs.push(limb0);
        limbs.push(limb1);
        limbs.push(limb2);
        limbs.push(limb3);
        proof {
            let c3 = bytes@.subrange(0, 8);
            let c2 = bytes@.subrange(8, 16);
            let c1 = bytes@.subrange(16, 24);
            let c0 = bytes@.subrange(24, 32);
            assert(bytes@ =~= c3 + c2 + c1 + c0);
            lemma_be_bytes_concat(c3, c2);
            lemma_be_bytes_concat(c3 + c2, c1);
            lemma_be_bytes_concat(c3 + c2 + c1, c0);
            reveal_with_fuel(pow256, 9);
            lemma_limbs_value4(limbs@);
            let e3 = be_bytes_value(c3);
            let e2 = be_bytes_value(c2);
            let e1 = be_bytes_value(c1);
            let e0 = be_bytes_value(c0);
            let k: nat = 0x1_0000_0000_0000_0000;
            assert(pow256(8) == k);
            assert(be_bytes_value(bytes@) == ((e3 * k + e2) * k + e1) * k + e0);
            assert(((e3 * k + e2) * k + e1) * k + e0 == e0 + k * e1 + (
            0x1_0000_0000_0000_0000_0000_0000_0000_0000 as nat) * e2 + (
            0x1_0000_0000_0000_0000_0000_0000_0000_0000_0000_0000_0000_0000 as nat) * e3)
                by (nonlinear_arith)
                requires
                    k == 0x1_0000_0000_0000_0000,
            ;
            assert(limbs_value(limbs@) == be_bytes_value(bytes@));
        }
        if limb3 >= 0x8000_0000_0000_0000u64 {
            proof {
                lemma_limbs_value4(limbs@);
                lemma_limbs_value4_bound(limbs@);
            }
            let mag = mag_negate256(&limbs);
            Int256 { neg: true, limbs: mag }
        } else {
            proof {
                lemma_limbs_value4(limbs@);
            }
            Int256 { neg: false, limbs }
        }
    }

    /// The plain decimal string of the value, sign included.
    pub fn to_decimal_string(&self) -> (r: String)
        requires
            self.wf(),
        ensures
            r@ == dec_str(self.value()),
    {
        if self.is_zero() {
            proof {
                reveal_strlit("0");
            }
            String::from_str("0")
        } else {
            let mut s = String::new();
            if self.neg {
                proof {
                    reveal_strlit("-");
                }
                s.append("-");
            }
            let ds = mag_decimal_digits(&self.limbs);
            append_digits_rev(&mut s, &ds, 0);
            proof {
                assert(ds@.skip(0) =~= ds@);
                if self.neg {
                    assert(s@ =~= seq!['-'] + dec_digits_rev(limbs_value(self.limbs@)).reverse());
                } else {
                    assert(s@ =~= dec_digits_rev(limbs_value(self.limbs@)).reverse());
                }
            }
            s
        }
    }

    /// Truncating division by 10^decimals: the quotient truncates toward
    /// zero, and the remainder carries the sign of the dividend.
    pub fn div_rem_pow10(&self, decimals: u32) -> (r: (Int256, Int256))
        requires
            self.wf(),
        ensures
            r.0.wf(),
            r.1.wf(),
            r.0.value() == trunc_div(self.value(), pow10(decimals as nat) as int),
            r.1.value() == trunc_rem(self.value(), pow10(decimals as nat) as int),
    {
        let ghost m = limbs_value(self.limbs@);
        proof {
            lemma_limbs_value4_bound(self.limbs@);
        }
        let mut q = mag_clone(&self.limbs);
        let mut digits: Vec<u64> = Vec::new();
        let mut i: u32 = 0;
        proof {
            reveal_with_fuel(digits_value, 2);
            reveal_with_fuel(pow10, 2);
            assert(digits@ =~= Seq::<u64>::empty());
            assert(limbs_value(q@) * 1 == limbs_value(q@)) by (nonlinear_arith);
        }
        while i < decimals
            invariant
                i <= decimals,
                q@.len() == 4,
                digits@.len() == i,
                forall|j: int| 0 <= j < digits@.len() ==> digits@[j] < 10,
                m == limbs_value(q@) * pow10(i as nat) + digits_value(digits@),
                digits_value(digits@) < pow10(i as nat),
            decreases decimals - i,
        {
            let (q2, rem) = mag_divmod10(&q);
            proof {
                let a = limbs_value(q2@);
                let p = pow10(i as nat);
                lemma_digits_value_push(digits@, rem);
                assert(((10 as nat) * a + rem) * p == a * ((10 as nat) * p) + (rem as nat) * p)
                    by (nonlinear_arith);
                assert((rem as nat) * p <= 9 * p) by (nonlinear_arith)
                    requires
                        rem < 10,
                        p >= 0,
                ;
                assert(pow10((i + 1) as nat) == (10 as nat) * p);
            }
            q = q2;
            digits.push(rem);
            i = i + 1;
        }
        let ghost qv = limbs_value(q@);
        let ghost dv = digits_value(digits@);
        let mut racc: Vec<u64> = Vec::new();
        racc.push(0);
        racc.push(0);
        racc.push(0);
        racc.push(0);
        proof {
            lemma_limbs_value4(racc@);
            assert(digits@.skip(digits@.len() as int) =~= Seq::<u64>::empty());
            assert(qv * pow10(decimals as nat) >= 0);
        }
        let mut j: usize = digits.len();
        while j > 0
            invariant
                racc@.len() == 4,
                j <= digits@.len(),
                forall|t: int| 0 <= t < digits@.len() ==> digits@[t] < 10,
                limbs_value(racc@) == digits_value(digits@.skip(j as int)),
                dv == digits_value(digits@),
                dv <= m,
                m
                    < 0x1_0000_0000_0000_0000_0000_0000_0000_0000_0000_0000_0000_0000_0000_0000_0000_0000,
            decreases j,
        {
            j = j - 1;
            proof {
                lemma_digits_value_skip(digits@, j as int);
                lemma_pow10_pos(j as nat);
                let x = digits_value(digits@.skip(j as int));
                assert(x <= x * pow10(j as nat)) by (nonlinear_arith)
                    requires
                        pow10(j as nat) >= 1,
                        x >= 0,
                ;
                assert(digits@.skip(j as int).skip(1) =~= digits@.skip(j + 1));
                assert(digits_value(digits@.skip(j as int)) == (digits@[j as int] as nat) + (
                10 as nat) * digits_value(digits@.skip(j + 1)));
            }
            racc = mag_mul10_add(&racc, digits[j]);
        }
        proof {
            assert(digits@.skip(0) =~= digits@);
            lemma_pow10_pos(decimals as nat);
            lemma_fundamental_div_mod_converse(
                m as int,
                pow10(decimals as nat) as int,
                qv as int,
                dv as int,
            );
        }
        let q_zero = mag_is_zero(&q);
        let r_zero = mag_is_zero(&racc);
        let qi = Int256 { neg: self.neg && !q_zero, limbs: q };
        let ri = Int256 { neg: self.neg && !r_zero, limbs: racc };
        (qi, ri)
    }

    /// The fixed-point rendering of the value at the given decimal count.
    pub fn render(&self, decimals: u32) -> (r: String)
        requires
            self.wf(),
        ensures
            r@ == render_spec(self.value(), decimals as nat),
    {
        let (q, rem) = self.div_rem_pow10(decimals);
        if rem.is_zero() {
            q.to_decimal_string()
        } else {
            let ghost rv = limbs_value(rem.limbs@);
            let mut s = q.to_decimal_string();
            proof {
                reveal_strlit(".");
            }
            s.append(".");
            let ds = mag_decimal_digits(&rem.limbs);
            proof {
                lemma_dec_digits_rev_last(rv);
                assert(digit_chars(ds@).last() == digit_char(ds@.last() as int));
                assert(ds@.last() != 0);
            }
            let n = ds.len();
            let mut k: usize = 0;
            while ds[k] == 0
                invariant
                    n == ds@.len(),
                    n >= 1,
                    0 <= k < n,
                    ds@.last() != 0,
                    forall|j: int| 0 <= j < k ==> ds@[j] == 0,
                decreases n - k,
            {
                proof {
                    assert(ds@[n - 1] != 0);
                }
                k = k + 1;
            }
            let ghost pre = s@;
            append_digits_rev(&mut s, &ds, k);
            proof {
                let cs = digit_chars(ds@);
                assert(forall|j: int| 0 <= j < cs.len() ==> cs[j] == digit_char(ds@[j] as int));
                assert(forall|j: int| 0 <= j < k ==> cs[j] == '0');
                assert(cs[k as int] != '0');
                lemma_trim_of_reverse(cs, k as int);
                assert(cs.skip(k as int) =~= digit_chars(ds@.skip(k as int)));
                assert(s@ =~= render_spec(self.value(), decimals as nat));
            }
            s
        }
    }

    pub fn is_zero(&self) -> (r: bool)
        requires
            self.wf(),
        ensures
            r == (self.value() == 0),
    {
        proof {
            lemma_limbs_value4(self.limbs@);
        }
        self.limbs[0] == 0 && self.limbs[1] == 0 && self.limbs[2] == 0 && self.limbs[3] == 0
    }

    pub fn is_negative(&self) -> (r: bool)
        requires
            self.wf(),
        ensures
            r == (self.value() < 0),
    {
        self.neg
    }

    pub fn is_positive(&self) -> (r: bool)
        requires
            self.wf(),
        ensures
            r == (self.value() > 0),
    {
        !self.neg && !self.is_zero()
    }
}

} // verus!
