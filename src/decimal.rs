//! Fixed-point decimal numbers with six fractional digits, and their text form.
//!
//! A value `v: i64` stands for the real number `v / 1_000_000`. Its text is an
//! optional minus sign, the integer part without leading zeros, a point, and
//! exactly six fractional digits (`-12.500000`, `0.000001`).
use vstd::prelude::*;

verus! {

/// Number of fractional digits of the decimal text form.
pub const FRAC_DIGITS: usize = 6;

/// Fixed-point units per whole number.
pub const UNIT: i64 = 1_000_000;

/// ASCII codes of the characters of the text form.
pub const MINUS: u8 = 45;
pub const POINT: u8 = 46;
pub const ZERO: u8 = 48;
pub const NINE: u8 = 57;

pub open spec fn pow10(k: nat) -> nat
    decreases k,
{
    if k == 0 {
        1
    } else {
        10 * pow10((k - 1) as nat)
    }
}

pub open spec fn is_digit(c: u8) -> bool {
    48 <= c <= 57
}

pub open spec fn digit_char(d: nat) -> u8
    recommends
        d < 10,
{
    (48 + d) as u8
}

/// The decimal digits of `n`, without leading zeros.
pub open spec fn dec_digits(n: nat) -> Seq<u8>
    decreases n,
{
    if n < 10 {
        seq![digit_char(n)]
    } else {
        dec_digits(n / 10).push(digit_char(n % 10))
    }
}

/// The last `k` decimal digits of `n`, padded with leading zeros.
pub open spec fn padded_digits(n: nat, k: nat) -> Seq<u8>
    decreases k,
{
    if k == 0 {
        seq![]
    } else {
        padded_digits(n / 10, (k - 1) as nat).push(digit_char(n % 10))
    }
}

/// The number that a run of digits spells.
pub open spec fn digits_value(d: Seq<u8>) -> int
    decreases d.len(),
{
    if d.len() == 0 {
        0
    } else {
        digits_value(d.drop_last()) * 10 + (d.last() - 48)
    }
}

pub open spec fn abs(v: int) -> nat {
    if v < 0 {
        (-v) as nat
    } else {
        v as nat
    }
}

/// The text of the fixed-point value `v`.
pub open spec fn decimal_text(v: int) -> Seq<u8> {
    let sign: Seq<u8> = if v < 0 {
        seq![MINUS]
    } else {
        seq![]
    };
    sign + dec_digits(abs(v) / 1_000_000) + seq![POINT] + padded_digits(
        abs(v) % 1_000_000,
        6,
    )
}

/// The first index at or after `i` that does not hold a digit.
pub open spec fn digits_end(s: Seq<u8>, i: int) -> int
    recommends
        0 <= i <= s.len(),
    decreases s.len() - i,
{
    if 0 <= i < s.len() && is_digit(s[i]) {
        digits_end(s, i + 1)
    } else {
        i
    }
}

/// Reads a decimal number at `pos`: an optional minus sign, one to thirteen
/// integer digits, a point and six digits. Gives the fixed-point value and the
/// index just after it, or `None` where the text does not hold such a number
/// or its value does not fit in an `i64`.
pub open spec fn parse_decimal(s: Seq<u8>, pos: int) -> Option<(i64, int)> {
    let neg = pos < s.len() && s[pos] == MINUS;
    let start = if neg {
        pos + 1
    } else {
        pos
    };
    let point = digits_end(s, start);
    let q = point + 7;
    let fraction_digits = forall|j: int| point < j < q ==> is_digit(#[trigger] s[j]);
    if 0 <= pos && start < point && point - start <= 13 && q <= s.len() && s[point] == POINT
        && fraction_digits {
        let mag = digits_value(s.subrange(start, point)) * 1_000_000 + digits_value(
            s.subrange(point + 1, q),
        );
        if neg && mag <= 0x8000_0000_0000_0000 {
            Some(((-mag) as i64, q))
        } else if !neg && mag <= 0x7fff_ffff_ffff_ffff {
            Some((mag as i64, q))
        } else {
            None
        }
    } else {
        None
    }
}

// Lemmas on digit strings.
pub proof fn lemma_dec_digits(n: nat)
    ensures
        digits_value(dec_digits(n)) == n,
        dec_digits(n).len() >= 1,
        forall|j: int| 0 <= j < dec_digits(n).len() ==> is_digit(#[trigger] dec_digits(n)[j]),
    decreases n,
{
    if n < 10 {
        assert(dec_digits(n).drop_last() =~= seq![]);
        assert(dec_digits(n).last() == 48 + n);
        assert(digits_value(dec_digits(n).drop_last()) == 0);
    } else {
        lemma_dec_digits(n / 10);
        assert(dec_digits(n).drop_last() =~= dec_digits(n / 10));
        assert(dec_digits(n).last() == 48 + n % 10);
    }
}

pub proof fn lemma_dec_digits_len(n: nat, k: nat)
    requires
        n < pow10(k),
        k >= 1,
    ensures
        dec_digits(n).len() <= k,
    decreases n,
{
    reveal_with_fuel(pow10, 2);
    if n >= 10 {
        assert(k >= 2) by {
            if k == 1 {
                assert(pow10(1) == 10);
            }
        }
        assert(n / 10 < pow10((k - 1) as nat)) by (nonlinear_arith)
            requires
                n < pow10(k),
                pow10(k) == 10 * pow10((k - 1) as nat),
        ;
        lemma_dec_digits_len(n / 10, (k - 1) as nat);
    }
}

pub proof fn lemma_padded_digits(n: nat, k: nat)
    requires
        n < pow10(k),
    ensures
        digits_value(padded_digits(n, k)) == n,
        padded_digits(n, k).len() == k,
        forall|j: int|
            0 <= j < padded_digits(n, k).len() ==> is_digit(#[trigger] padded_digits(n, k)[j]),
    decreases k,
{
    if k == 0 {
    } else {
        assert(n / 10 < pow10((k - 1) as nat)) by (nonlinear_arith)
            requires
                n < pow10(k),
                pow10(k) == 10 * pow10((k - 1) as nat),
        ;
        lemma_padded_digits(n / 10, (k - 1) as nat);
        assert(padded_digits(n, k).drop_last() =~= padded_digits(n / 10, (k - 1) as nat));
        assert(padded_digits(n, k).last() == 48 + n % 10);
    }
}

pub proof fn lemma_digits_end(s: Seq<u8>, i: int, q: int)
    requires
        0 <= i <= q <= s.len(),
        forall|j: int| i <= j < q ==> is_digit(#[trigger] s[j]),
        q == s.len() || !is_digit(s[q]),
    ensures
        digits_end(s, i) == q,
    decreases q - i,
{
    if i < q {
        lemma_digits_end(s, i + 1, q);
    }
}

/// Reading the text of a value gives the value back, and the index after it.
pub proof fn lemma_parse_decimal_text(s: Seq<u8>, pos: int, v: i64)
    requires
        0 <= pos,
        pos + decimal_text(v as int).len() <= s.len(),
        s.subrange(pos, pos + decimal_text(v as int).len()) == decimal_text(v as int),
    ensures
        parse_decimal(s, pos) == Some((v, pos + decimal_text(v as int).len())),
{
    let t = decimal_text(v as int);
    let m = abs(v as int);
    let ip = m / 1_000_000;
    let fp = m % 1_000_000;
    let sign: Seq<u8> = if v < 0 {
        seq![MINUS]
    } else {
        seq![]
    };
    let d = dec_digits(ip);
    let f = padded_digits(fp, 6);
    lemma_dec_digits(ip);
    assert(pow10(6) == 1_000_000) by {
        reveal_with_fuel(pow10, 7);
    }
    assert(pow10(13) == 10_000_000_000_000) by {
        reveal_with_fuel(pow10, 14);
    }
    lemma_padded_digits(fp, 6);
    lemma_dec_digits_len(ip, 13);
    assert(t =~= sign + d + seq![POINT] + f);
    let start = pos + sign.len();
    let point = start + d.len();
    assert forall|j: int| start <= j < point implies is_digit(#[trigger] s[j]) by {
        assert(s[j] == t[j - pos]);
        assert(t[j - pos] == d[j - start]);
    }
    assert(s[point] == t[point - pos]);
    lemma_digits_end(s, start, point);
    assert forall|j: int| 0 <= j < d.len() implies #[trigger] s.subrange(start, point)[j] == d[j] by {
        assert(s[start + j] == t[start + j - pos]);
    }
    assert(s.subrange(start, point) =~= d);
    assert forall|j: int| 0 <= j < 6 implies #[trigger] s.subrange(point + 1, point + 7)[j] == f[j] by {
        assert(s[point + 1 + j] == t[point + 1 + j - pos]);
    }
    assert(s.subrange(point + 1, point + 7) =~= f);
    assert forall|j: int| point < j < point + 7 implies is_digit(#[trigger] s[j]) by {
        assert(s[j] == t[j - pos]);
        assert(t[j - pos] == f[j - point - 1]);
    }
    if v < 0 {
        assert(s[pos] == t[0]);
    } else {
        assert(d[0] == t[0]);
        assert(s[pos] == t[0]);
    }
}

fn push_dec_digits(out: &mut Vec<u8>, n: u64)
    ensures
        final(out)@ == old(out)@ + dec_digits(n as nat),
    decreases n,
{
    if n >= 10 {
        push_dec_digits(out, n / 10);
    }
    out.push(ZERO + (n % 10) as u8);
    proof {
        if n >= 10 {
            assert(final(out)@ =~= old(out)@ + dec_digits(n as nat));
        } else {
            assert(final(out)@ =~= old(out)@ + dec_digits(n as nat));
        }
    }
}

fn push_padded_digits(out: &mut Vec<u8>, n: u64, k: usize)
    ensures
        final(out)@ == old(out)@ + padded_digits(n as nat, k as nat),
    decreases k,
{
    if k > 0 {
        push_padded_digits(out, n / 10, k - 1);
        out.push(ZERO + (n % 10) as u8);
        assert(final(out)@ =~= old(out)@ + padded_digits(n as nat, k as nat));
    } else {
        assert(final(out)@ =~= old(out)@ + padded_digits(n as nat, k as nat));
    }
}

/// Appends the text of the fixed-point value `v`.
pub fn push_decimal(out: &mut Vec<u8>, v: i64)
    ensures
        final(out)@ == old(out)@ + decimal_text(v as int),
{
    let m: u64 = if v < 0 {
        (-(v + 1)) as u64 + 1
    } else {
        v as u64
    };
    assert(m == abs(v as int));
    if v < 0 {
        out.push(MINUS);
    }
    push_dec_digits(out, m / 1_000_000);
    out.push(POINT);
    push_padded_digits(out, m % 1_000_000, FRAC_DIGITS);
    assert(final(out)@ =~= old(out)@ + decimal_text(v as int));
}

/// The text of the fixed-point value `v`.
pub fn format_decimal(v: i64) -> (r: Vec<u8>)
    ensures
        r@ == decimal_text(v as int),
{
    let mut out: Vec<u8> = Vec::new();
    push_decimal(&mut out, v);
    assert(out@ =~= decimal_text(v as int));
    out
}

fn is_digit_byte(c: u8) -> (r: bool)
    ensures
        r == is_digit(c),
{
    ZERO <= c && c <= NINE
}

/// Reads a decimal number at `pos`, as `parse_decimal` says.
pub fn parse_decimal_at(s: &[u8], pos: usize) -> (r: Option<(i64, usize)>)
    requires
        pos <= s@.len(),
    ensures
        match r {
            Some((v, e)) => parse_decimal(s@, pos as int) == Some((v, e as int)),
            None => parse_decimal(s@, pos as int) is None,
        },
{
    let len = s.len();
    let neg = pos < len && s[pos] == MINUS;
    let start = if neg {
        pos + 1
    } else {
        pos
    };
    let mut point = start;
    while point < len && is_digit_byte(s[point])
        invariant
            start <= point <= len,
            len == s@.len(),
            digits_end(s@, start as int) == digits_end(s@, point as int),
        decreases len - point,
    {
        point = point + 1;
    }
    proof {
        lemma_digits_end_digits(s@, start as int);
    }
    assert(digits_end(s@, start as int) == point);
    if point == start || point - start > 13 || len < 7 || point > len - 7 || s[point] != POINT {
        return None;
    }
    assert(pow10(13) == 10_000_000_000_000) by {
        reveal_with_fuel(pow10, 14);
    }
    let mut ip: u64 = 0;
    let mut i = start;
    while i < point
        invariant
            start <= i <= point,
            point - start <= 13,
            point < len == s@.len(),
            pow10(13) == 10_000_000_000_000,
            forall|j: int| start <= j < point ==> is_digit(#[trigger] s@[j]),
            ip == digits_value(s@.subrange(start as int, i as int)),
            ip < pow10((i - start) as nat),
        decreases point - i,
    {
        let d = (s[i] - ZERO) as u64;
        assert(s@.subrange(start as int, i + 1).drop_last() =~= s@.subrange(start as int, i as int));
        proof {
            let k = (i - start) as nat;
            assert(ip * 10 + d < pow10(k + 1)) by (nonlinear_arith)
                requires
                    ip < pow10(k),
                    d < 10,
                    pow10(k + 1) == 10 * pow10(k),
            ;
            lemma_pow10_mono(k + 1, 13);
        }
        ip = ip * 10 + d;
        i = i + 1;
    }
    proof {
        lemma_pow10_mono((point - start) as nat, 13);
    }
    assert(pow10(6) == 1_000_000) by {
        reveal_with_fuel(pow10, 7);
    }
    let mut fp: u64 = 0;
    let mut i = point + 1;
    while i < point + 7
        invariant
            point + 1 <= i <= point + 7,
            point + 7 <= len == s@.len(),
            forall|j: int| point < j < i ==> is_digit(#[trigger] s@[j]),
            fp == digits_value(s@.subrange(point + 1, i as int)),
            fp < pow10((i - point - 1) as nat),
            pow10(6) == 1_000_000,
            pos <= start < point,
            point - start <= 13,
            start == if neg {
                pos + 1
            } else {
                pos as int
            },
            neg == (pos < len && s@[pos as int] == MINUS),
            digits_end(s@, start as int) == point,
            s@[point as int] == POINT,
            ip == digits_value(s@.subrange(start as int, point as int)),
            ip < pow10(13),
            pow10(13) == 10_000_000_000_000,
        decreases point + 7 - i,
    {
        if !is_digit_byte(s[i]) {
            assert(!is_digit(s@[i as int]));
            return None;
        }
        let d = (s[i] - ZERO) as u64;
        assert(s@.subrange(point + 1, i + 1).drop_last() =~= s@.subrange(point + 1, i as int));
        proof {
            let k = (i - point - 1) as nat;
            assert(fp * 10 + d < pow10(k + 1)) by (nonlinear_arith)
                requires
                    fp < pow10(k),
                    d < 10,
                    pow10(k + 1) == 10 * pow10(k),
            ;
            lemma_pow10_mono(k + 1, 6);
        }
        fp = fp * 10 + d;
        i = i + 1;
    }
    let mag = ip * 1_000_000 + fp;
    if neg {
        if mag <= 0x8000_0000_0000_0000 {
            let v: i64 = if mag == 0x8000_0000_0000_0000 {
                i64::MIN
            } else {
                -(mag as i64)
            };
            Some((v, point + 7))
        } else {
            None
        }
    } else {
        if mag <= 0x7fff_ffff_ffff_ffff {
            Some((mag as i64, point + 7))
        } else {
            None
        }
    }
}

pub proof fn lemma_digits_end_digits(s: Seq<u8>, i: int)
    requires
        0 <= i <= s.len(),
    ensures
        i <= digits_end(s, i) <= s.len(),
        forall|j: int| i <= j < digits_end(s, i) ==> is_digit(#[trigger] s[j]),
        digits_end(s, i) == s.len() || !is_digit(s[digits_end(s, i)]),
    decreases s.len() - i,
{
    if i < s.len() && is_digit(s[i]) {
        lemma_digits_end_digits(s, i + 1);
    }
}

pub proof fn lemma_pow10_mono(a: nat, b: nat)
    requires
        a <= b,
    ensures
        pow10(a) <= pow10(b),
    decreases b,
{
    if a < b {
        lemma_pow10_mono(a, (b - 1) as nat);
    }
}

} // verus!
