//! Numeric text: decimal integer formatting and parsing, and the textual
//! normal form for floating-point literals.
//!
//! Integer columns hold `i64` values; the decoder parses decimal text and
//! the encoder prints it, and the two are proved inverse.  Floating-point
//! columns hold a literal in canonical form (sign, integer part without
//! leading zeros, fraction without trailing zeros, optional exponent), so a
//! value is re-encoded exactly as it was normalized on decode.

use vstd::prelude::*;
use vstd::arithmetic::div_mod::lemma_fundamental_div_mod;

verus! {

pub open spec fn is_digit(b: u8) -> bool {
    '0' as u8 <= b && b <= '9' as u8
}

pub open spec fn all_digits(s: Seq<u8>) -> bool {
    forall|i: int| 0 <= i < s.len() ==> is_digit(#[trigger] s[i])
}

/// The number denoted by a sequence of decimal digits.
pub open spec fn digits_val(s: Seq<u8>) -> int
    decreases s.len(),
{
    if s.len() == 0 {
        0
    } else {
        digits_val(s.drop_last()) * 10 + (s.last() - '0' as u8)
    }
}

/// Decimal digits of a non-negative number, most significant first.
pub open spec fn fmt_nat(n: nat) -> Seq<u8>
    decreases n,
{
    if n < 10 {
        seq![('0' as u8 + n) as u8]
    } else {
        fmt_nat(n / 10).push(('0' as u8 + n % 10) as u8)
    }
}

/// Decimal text of an integer: a minus sign for negative values, then the
/// digits of the magnitude.
pub open spec fn fmt_int(n: int) -> Seq<u8> {
    if n < 0 {
        seq!['-' as u8] + fmt_nat((-n) as nat)
    } else {
        fmt_nat(n as nat)
    }
}

pub proof fn lemma_digits_val_nonneg(s: Seq<u8>)
    requires
        all_digits(s),
    ensures
        digits_val(s) >= 0,
    decreases s.len(),
{
    if s.len() > 0 {
        lemma_digits_val_nonneg(s.drop_last());
    }
}

pub proof fn lemma_fmt_nat_val(n: nat)
    ensures
        fmt_nat(n).len() >= 1,
        all_digits(fmt_nat(n)),
        digits_val(fmt_nat(n)) == n,
        n >= 1 ==> fmt_nat(n)[0] != '0' as u8,
        n >= 10 ==> fmt_nat(n).len() >= 2,
    decreases n,
{
    if n < 10 {
        let s = fmt_nat(n);
        assert(s =~= seq![('0' as u8 + n) as u8]);
        assert(s.drop_last() =~= Seq::<u8>::empty());
        assert(digits_val(s.drop_last()) == 0);
        assert(s.last() == ('0' as u8 + n) as u8);
        assert(digits_val(s) == 0 * 10 + (('0' as u8 + n) as u8 - '0' as u8));
        assert(digits_val(s) == n);
        assert(is_digit(s[0]));
    } else {
        lemma_fmt_nat_val(n / 10);
        lemma_fundamental_div_mod(n as int, 10);
        let d = ('0' as u8 + n % 10) as u8;
        let pre = fmt_nat(n / 10);
        assert(fmt_nat(n) == pre.push(d));
        assert(pre.push(d).drop_last() =~= pre);
        assert(pre.push(d).last() == d);
        assert(digits_val(fmt_nat(n)) == digits_val(pre) * 10 + (d - '0' as u8));
        assert(fmt_nat(n)[0] == pre[0]);
        assert(forall|i: int|
            0 <= i < fmt_nat(n).len() ==> is_digit(#[trigger] fmt_nat(n)[i]));
    }
}

/// Extending a digit string on the right can only increase its value.
pub proof fn lemma_digits_val_prefix(s: Seq<u8>, j: int)
    requires
        all_digits(s),
        0 <= j <= s.len(),
    ensures
        digits_val(s) >= digits_val(s.take(j)),
        j < s.len() ==> digits_val(s) >= 10 * digits_val(s.take(j)),
    decreases s.len() - j,
{
    lemma_digits_val_nonneg(s.take(j));
    if j < s.len() {
        lemma_digits_val_prefix(s, j + 1);
        assert(s.take(j + 1).drop_last() =~= s.take(j));
        assert(digits_val(s.take(j + 1)) == digits_val(s.take(j)) * 10 + (s[j] - '0' as u8));
        lemma_digits_val_nonneg(s.take(j + 1));
    } else {
        assert(s.take(j) =~= s);
    }
}

/// Digits of `n`, most significant first.
pub fn format_u64(n: u64) -> (r: Vec<u8>)
    ensures
        r@ == fmt_nat(n as nat),
    decreases n,
{
    if n < 10 {
        let v: Vec<u8> = vec!['0' as u8 + (n as u8)];
        assert(v@ =~= fmt_nat(n as nat));
        v
    } else {
        let mut v = format_u64(n / 10);
        v.push('0' as u8 + ((n % 10) as u8));
        assert(v@ =~= fmt_nat(n as nat));
        v
    }
}

/// Decimal text of `n`.
pub fn format_i64(n: i64) -> (r: Vec<u8>)
    ensures
        r@ == fmt_int(n as int),
{
    if n >= 0 {
        format_u64(n as u64)
    } else {
        let m: u64 = (-(n + 1)) as u64 + 1;
        assert(m as int == -(n as int));
        let d = format_u64(m);
        let mut v: Vec<u8> = vec!['-' as u8];
        let mut i: usize = 0;
        while i < d.len()
            invariant
                0 <= i <= d.len(),
                v@ =~= seq!['-' as u8] + d@.take(i as int),
            decreases d.len() - i,
        {
            v.push(d[i]);
            assert(v@ =~= seq!['-' as u8] + d@.take(i as int + 1));
            i += 1;
        }
        assert(d@.take(d@.len() as int) =~= d@);
        assert(v@ =~= fmt_int(n as int));
        v
    }
}

/// Integer literal text: an optional minus sign, then one or more digits.
pub open spec fn is_int_lit(s: Seq<u8>) -> bool {
    if s.len() >= 1 && s[0] == '-' as u8 {
        s.len() >= 2 && all_digits(s.skip(1))
    } else {
        s.len() >= 1 && all_digits(s)
    }
}

/// The value denoted by an integer literal, when it denotes one in `i64`
/// range.
pub open spec fn parse_int_val(s: Seq<u8>) -> int {
    if s.len() >= 1 && s[0] == '-' as u8 {
        -digits_val(s.skip(1))
    } else {
        digits_val(s)
    }
}

/// The `i64` an integer literal parses to: `None` when the text is not an
/// integer literal or its value does not fit.
pub open spec fn parse_i64_spec(s: Seq<u8>) -> Option<int> {
    if is_int_lit(s) && i64::MIN <= parse_int_val(s) <= i64::MAX {
        Some(parse_int_val(s))
    } else {
        None
    }
}

/// Parses decimal integer text into an `i64`.
#[verifier::loop_isolation(false)]
pub fn parse_i64(s: &[u8]) -> (r: Option<i64>)
    ensures
        match parse_i64_spec(s@) {
            Some(v) => r matches Some(x) && x as int == v,
            None => r is None,
        },
{
    let n = s.len();
    let neg = n >= 1 && s[0] == '-' as u8;
    let start: usize = if neg { 1 } else { 0 };
    if n == start {
        return None;
    }
    let ghost ds = if neg { s@.skip(1) } else { s@ };
    assert(ds.len() == n - start);
    assert(forall|j: int| 0 <= j < ds.len() ==> ds[j] == s@[j + start]);
    let mut acc: u64 = 0;
    let mut i: usize = start;
    while i < n
        invariant
            start <= i <= n,
            n == s@.len(),
            ds.len() == n - start,
            forall|j: int| 0 <= j < ds.len() ==> ds[j] == s@[j + start],
            all_digits(ds.take(i - start)),
            acc as int == digits_val(ds.take(i - start)),
            acc <= 9223372036854775809u64,
        decreases n - i,
    {
        let b = s[i];
        if !('0' as u8 <= b && b <= '9' as u8) {
            assert(!is_digit(ds[i - start]));
            assert(!all_digits(ds));
            assert(!is_int_lit(s@));
            assert(parse_i64_spec(s@) is None);
            return None;
        }
        let d: u64 = (b - '0' as u8) as u64;
        assert(ds.take(i - start + 1).drop_last() =~= ds.take(i - start));
        assert(ds.take(i - start + 1).last() == b);
        if acc > 922337203685477580u64 {
            // Any further digit pushes the magnitude beyond i64 range.
            assert(digits_val(ds.take(i - start + 1)) == acc as int * 10 + d);
            proof {
                if all_digits(ds) {
                    lemma_digits_val_prefix(ds, i - start + 1);
                    assert(digits_val(ds) >= digits_val(ds.take(i - start + 1)));
                    assert(digits_val(ds) > i64::MAX && -digits_val(ds) < i64::MIN);
                    if neg {
                        assert(s@[0] == '-' as u8);
                        assert(ds == s@.skip(1));
                        assert(parse_int_val(s@) == -digits_val(ds));
                    } else {
                        assert(s@.len() >= 1 && s@[0] != '-' as u8);
                        assert(parse_int_val(s@) == digits_val(ds));
                    }
                    assert(!(i64::MIN <= parse_int_val(s@) <= i64::MAX));
                } else {
                    assert(!is_int_lit(s@));
                }
                assert(parse_i64_spec(s@) is None);
            }
            return None;
        }
        acc = acc * 10 + d;
        i += 1;
    }
    assert(ds.take(ds.len() as int) =~= ds);
    assert(acc as int == digits_val(ds));
    assert(is_int_lit(s@));
    assert(neg ==> parse_int_val(s@) == -(acc as int));
    assert(!neg ==> parse_int_val(s@) == acc as int);
    if neg {
        if acc > 9223372036854775808u64 {
            assert(parse_int_val(s@) < i64::MIN);
            return None;
        }
        if acc == 9223372036854775808u64 {
            Some(i64::MIN)
        } else {
            Some(-(acc as i64))
        }
    } else {
        if acc > 9223372036854775807u64 {
            return None;
        }
        Some(acc as i64)
    }
}

/// First index at or after `i` that does not hold a digit.
pub open spec fn digit_run_end(s: Seq<u8>, i: int) -> int
    decreases s.len() - i,
{
    if i < 0 || i >= s.len() {
        i
    } else if is_digit(s[i]) {
        digit_run_end(s, i + 1)
    } else {
        i
    }
}

pub proof fn lemma_digit_run_end(s: Seq<u8>, i: int)
    requires
        0 <= i <= s.len(),
    ensures
        i <= digit_run_end(s, i) <= s.len(),
        forall|j: int| i <= j < digit_run_end(s, i) ==> is_digit(#[trigger] s[j]),
        digit_run_end(s, i) < s.len() ==> !is_digit(s[digit_run_end(s, i)]),
    decreases s.len() - i,
{
    if i < s.len() && is_digit(s[i]) {
        lemma_digit_run_end(s, i + 1);
    }
}

/// A digit run covering exactly `[a, b)` ends at `b`.
pub proof fn lemma_digit_run_exact(s: Seq<u8>, a: int, b: int)
    requires
        0 <= a <= b <= s.len(),
        forall|j: int| a <= j < b ==> is_digit(#[trigger] s[j]),
        b < s.len() ==> !is_digit(s[b]),
    ensures
        digit_run_end(s, a) == b,
    decreases b - a,
{
    if a < b {
        lemma_digit_run_exact(s, a + 1, b);
    }
}

/// The parts of a floating-point literal.
#[verifier::ext_equal]
pub struct FloatParts {
    pub neg: bool,
    pub ip: Seq<u8>,
    pub has_dot: bool,
    pub fp: Seq<u8>,
    pub has_exp: bool,
    pub eneg: bool,
    pub ed: Seq<u8>,
}

/// The exponent tail of a floating-point literal starting at `i`.
pub open spec fn split_exp(s: Seq<u8>, i: int, neg: bool, ip: Seq<u8>, has_dot: bool, fp: Seq<u8>) -> Option<FloatParts> {
    if i == s.len() {
        Some(FloatParts { neg, ip, has_dot, fp, has_exp: false, eneg: false, ed: Seq::empty() })
    } else if s[i] == 'e' as u8 || s[i] == 'E' as u8 {
        let eneg = i + 1 < s.len() && s[i + 1] == '-' as u8;
        let epos = i + 1 < s.len() && s[i + 1] == '+' as u8;
        let j0 = if eneg || epos {
            i + 2
        } else {
            i + 1
        };
        let j1 = digit_run_end(s, j0);
        if j0 <= s.len() && j1 == s.len() && j1 > j0 {
            Some(FloatParts { neg, ip, has_dot, fp, has_exp: true, eneg, ed: s.subrange(j0, j1) })
        } else {
            None
        }
    } else {
        None
    }
}

/// Splits a floating-point literal into sign, integer part, fraction and
/// exponent; `None` when the text is not such a literal.  At least one
/// digit must be present in the mantissa; the fraction and the dot are
/// optional, as is the exponent.
pub open spec fn split_float(s: Seq<u8>) -> Option<FloatParts> {
    let neg = s.len() > 0 && s[0] == '-' as u8;
    let i0: int = if neg {
        1
    } else {
        0
    };
    let i1 = digit_run_end(s, i0);
    let ip = s.subrange(i0, i1);
    if i1 < s.len() && s[i1] == '.' as u8 {
        let i2 = digit_run_end(s, i1 + 1);
        let fp = s.subrange(i1 + 1, i2);
        if ip.len() == 0 && fp.len() == 0 {
            None
        } else {
            split_exp(s, i2, neg, ip, true, fp)
        }
    } else {
        if ip.len() == 0 {
            None
        } else {
            split_exp(s, i1, neg, ip, false, Seq::empty())
        }
    }
}

/// Text accepted where a floating-point value is expected.
pub open spec fn is_float_text(s: Seq<u8>) -> bool {
    split_float(s) is Some
}

/// Text that names a floating-point (not integer) value during inference:
/// it carries a dot or an exponent.
pub open spec fn is_decimal_lit(s: Seq<u8>) -> bool {
    match split_float(s) {
        Some(p) => p.has_dot || p.has_exp,
        None => false,
    }
}

pub open spec fn strip_leading_zeros(s: Seq<u8>) -> Seq<u8>
    decreases s.len(),
{
    if s.len() > 0 && s[0] == '0' as u8 {
        strip_leading_zeros(s.drop_first())
    } else {
        s
    }
}

pub open spec fn strip_trailing_zeros(s: Seq<u8>) -> Seq<u8>
    decreases s.len(),
{
    if s.len() > 0 && s.last() == '0' as u8 {
        strip_trailing_zeros(s.drop_last())
    } else {
        s
    }
}

/// The canonical text of a floating-point literal with the given parts:
/// leading zeros of the integer part and trailing zeros of the fraction are
/// dropped (keeping one digit each), the dot is always present, and an
/// exponent is kept only when non-zero, in lower case without a plus sign.
pub open spec fn canon_from_parts(p: FloatParts) -> Seq<u8> {
    let ips = if strip_leading_zeros(p.ip).len() == 0 {
        seq!['0' as u8]
    } else {
        strip_leading_zeros(p.ip)
    };
    let fps = if strip_trailing_zeros(p.fp).len() == 0 {
        seq!['0' as u8]
    } else {
        strip_trailing_zeros(p.fp)
    };
    let eds = strip_leading_zeros(p.ed);
    let sign: Seq<u8> = if p.neg {
        seq!['-' as u8]
    } else {
        Seq::empty()
    };
    let exp: Seq<u8> = if p.has_exp && eds.len() > 0 {
        seq!['e' as u8] + (if p.eneg {
            seq!['-' as u8]
        } else {
            Seq::empty()
        }) + eds
    } else {
        Seq::empty()
    };
    sign + ips + seq!['.' as u8] + fps + exp
}

/// The canonical form of a floating-point literal.
pub open spec fn canon_float(s: Seq<u8>) -> Seq<u8> {
    canon_from_parts(split_float(s)->Some_0)
}

/// Text already in canonical floating-point form.
pub open spec fn is_canon_float(s: Seq<u8>) -> bool {
    is_float_text(s) && canon_float(s) == s
}

/// Printing an `i64` and parsing the text back returns the same value.
pub proof fn lemma_parse_fmt_i64(n: int)
    requires
        i64::MIN <= n <= i64::MAX,
    ensures
        parse_i64_spec(fmt_int(n)) == Some(n),
        is_int_lit(fmt_int(n)),
{
    if n < 0 {
        lemma_fmt_nat_val((-n) as nat);
        let s = fmt_int(n);
        assert(s == seq!['-' as u8] + fmt_nat((-n) as nat));
        assert(s[0] == '-' as u8);
        assert(s.skip(1) =~= fmt_nat((-n) as nat));
        assert(parse_int_val(s) == n);
    } else {
        lemma_fmt_nat_val(n as nat);
        let s = fmt_int(n);
        assert(s[0] != '-' as u8 || n == 0);
        if n == 0 {
            assert(s == seq![('0' as u8 + 0) as u8]);
            assert(s[0] == '0' as u8);
        }
        assert(parse_int_val(s) == n);
    }
}

pub proof fn lemma_strip_leading(s: Seq<u8>)
    ensures
        strip_leading_zeros(s).len() <= s.len(),
        strip_leading_zeros(s).len() > 0 ==> strip_leading_zeros(s)[0] != '0' as u8,
        strip_leading_zeros(strip_leading_zeros(s)) == strip_leading_zeros(s),
        all_digits(s) ==> all_digits(strip_leading_zeros(s)),
        strip_leading_zeros(s) == s.skip(s.len() - strip_leading_zeros(s).len()),
    decreases s.len(),
{
    if s.len() > 0 && s[0] == '0' as u8 {
        lemma_strip_leading(s.drop_first());
        assert(s.drop_first() =~= s.skip(1));
        if all_digits(s) {
            assert(forall|i: int|
                0 <= i < s.skip(1).len() ==> is_digit(#[trigger] s.skip(1)[i]));
        }
        let r = strip_leading_zeros(s);
        assert(s.skip(1).skip(s.skip(1).len() - r.len()) =~= s.skip(s.len() - r.len()));
    } else {
        assert(s.skip(0) =~= s);
    }
}

pub proof fn lemma_strip_trailing(s: Seq<u8>)
    ensures
        strip_trailing_zeros(s).len() <= s.len(),
        strip_trailing_zeros(s).len() > 0 ==> strip_trailing_zeros(s).last() != '0' as u8,
        strip_trailing_zeros(strip_trailing_zeros(s)) == strip_trailing_zeros(s),
        all_digits(s) ==> all_digits(strip_trailing_zeros(s)),
        strip_trailing_zeros(s) == s.take(strip_trailing_zeros(s).len() as int),
    decreases s.len(),
{
    if s.len() > 0 && s.last() == '0' as u8 {
        lemma_strip_trailing(s.drop_last());
        assert(s.drop_last() =~= s.take(s.len() - 1));
        if all_digits(s) {
            assert(forall|i: int|
                0 <= i < s.drop_last().len() ==> is_digit(#[trigger] s.drop_last()[i]));
        }
        let r = strip_trailing_zeros(s);
        assert(s.take(s.len() - 1).take(r.len() as int) =~= s.take(r.len() as int));
    } else {
        assert(s.take(s.len() as int) =~= s);
    }
}

/// The parts a floating-point literal splits into are digit runs.
pub proof fn lemma_split_float_digits(s: Seq<u8>)
    requires
        split_float(s) is Some,
    ensures
        all_digits(split_float(s)->Some_0.ip),
        all_digits(split_float(s)->Some_0.fp),
        all_digits(split_float(s)->Some_0.ed),
{
    let neg = s.len() > 0 && s[0] == '-' as u8;
    let i0: int = if neg {
        1
    } else {
        0
    };
    lemma_digit_run_end(s, i0);
    let i1 = digit_run_end(s, i0);
    let i2: int = if i1 < s.len() && s[i1] == '.' as u8 {
        lemma_digit_run_end(s, i1 + 1);
        digit_run_end(s, i1 + 1)
    } else {
        i1
    };
    if i2 < s.len() && (s[i2] == 'e' as u8 || s[i2] == 'E' as u8) {
        let eneg = i2 + 1 < s.len() && s[i2 + 1] == '-' as u8;
        let epos = i2 + 1 < s.len() && s[i2 + 1] == '+' as u8;
        let j0: int = if eneg || epos {
            i2 + 2
        } else {
            i2 + 1
        };
        if j0 <= s.len() {
            lemma_digit_run_end(s, j0);
        }
    }
    let p = split_float(s)->Some_0;
    assert(all_digits(p.ip));
    assert(all_digits(p.fp));
    if p.has_exp {
        assert(all_digits(p.ed));
    } else {
        assert(p.ed =~= Seq::<u8>::empty());
    }
}

/// The normalized parts that canonical text splits back into.
pub open spec fn canon_parts(p: FloatParts) -> FloatParts {
    let ips = if strip_leading_zeros(p.ip).len() == 0 {
        seq!['0' as u8]
    } else {
        strip_leading_zeros(p.ip)
    };
    let fps = if strip_trailing_zeros(p.fp).len() == 0 {
        seq!['0' as u8]
    } else {
        strip_trailing_zeros(p.fp)
    };
    let eds = strip_leading_zeros(p.ed);
    let hasexp = p.has_exp && eds.len() > 0;
    FloatParts {
        neg: p.neg,
        ip: ips,
        has_dot: true,
        fp: fps,
        has_exp: hasexp,
        eneg: p.eneg && hasexp,
        ed: if hasexp {
            eds
        } else {
            Seq::empty()
        },
    }
}

/// Canonical floating-point text splits into its normalized parts and
/// re-canonicalizes to itself: normalization is idempotent.
#[verifier::rlimit(100)]
pub proof fn lemma_canon_stable(p: FloatParts)
    requires
        all_digits(p.ip),
        all_digits(p.fp),
        all_digits(p.ed),
    ensures
        split_float(canon_from_parts(p)) == Some(canon_parts(p)),
        canon_from_parts(canon_parts(p)) == canon_from_parts(p),
        is_canon_float(canon_from_parts(p)),
{
    lemma_strip_leading(p.ip);
    lemma_strip_trailing(p.fp);
    lemma_strip_leading(p.ed);
    let q = canon_parts(p);
    let c = canon_from_parts(p);
    let sign: Seq<u8> = if p.neg {
        seq!['-' as u8]
    } else {
        Seq::empty()
    };
    let exp: Seq<u8> = if q.has_exp {
        seq!['e' as u8] + (if p.eneg {
            seq!['-' as u8]
        } else {
            Seq::empty()
        }) + q.ed
    } else {
        Seq::empty()
    };
    assert(c =~= sign + q.ip + seq!['.' as u8] + q.fp + exp);
    let i0: int = sign.len() as int;
    let i1 = i0 + q.ip.len();
    // The integer-part digit run ends exactly at the dot.
    assert(all_digits(q.ip));
    assert(forall|j: int| i0 <= j < i1 ==> is_digit(#[trigger] c[j]));
    assert(c[i1] == '.' as u8);
    assert(!is_digit(c[i1]));
    lemma_digit_run_exact(c, i0, i1);
    assert(c.len() > 0 && (c[0] == '-' as u8 <==> p.neg)) by {
        if !p.neg {
            assert(c[0] == q.ip[0]);
            assert(is_digit(c[0]));
        }
    }
    assert(c.subrange(i0, i1) =~= q.ip);
    // The fraction digit run ends at the exponent marker or the end.
    let i2 = i1 + 1 + q.fp.len();
    assert(all_digits(q.fp));
    assert(forall|j: int| i1 + 1 <= j < i2 ==> is_digit(#[trigger] c[j]));
    if q.has_exp {
        assert(c[i2] == 'e' as u8);
        assert(!is_digit(c[i2]));
    }
    lemma_digit_run_exact(c, i1 + 1, i2);
    assert(c.subrange(i1 + 1, i2) =~= q.fp);
    if q.has_exp {
        let j0: int = if p.eneg {
            i2 + 2
        } else {
            i2 + 1
        };
        assert(forall|j: int| j0 <= j < c.len() ==> is_digit(#[trigger] c[j]));
        lemma_digit_run_exact(c, j0, c.len() as int);
        assert(c[i2 + 1] == '-' as u8 <==> p.eneg) by {
            if !p.eneg {
                assert(c[i2 + 1] == q.ed[0]);
                assert(is_digit(c[i2 + 1]));
            }
        }
        assert(c.subrange(j0, c.len() as int) =~= q.ed);
        assert(split_float(c) == Some(q)) by {
            assert(split_float(c)->Some_0 =~= q);
        }
    } else {
        assert(i2 == c.len());
        assert(split_float(c) == Some(q)) by {
            assert(split_float(c)->Some_0 =~= q);
        }
    }
    // Re-canonicalizing the normalized parts changes nothing.
    assert(canon_from_parts(q) =~= c) by {
        lemma_strip_leading(q.ip);
        lemma_strip_trailing(q.fp);
        lemma_strip_leading(q.ed);
        assert(strip_leading_zeros(q.ip).len() == 0 ==> q.ip =~= seq!['0' as u8]) by {
            if strip_leading_zeros(q.ip).len() == 0 {
                if strip_leading_zeros(p.ip).len() == 0 {
                } else {
                    assert(q.ip[0] != '0' as u8);
                    assert(strip_leading_zeros(q.ip) == q.ip);
                }
            }
        }
        if strip_leading_zeros(p.ip).len() == 0 {
            assert(q.ip =~= seq!['0' as u8]);
            assert(strip_leading_zeros(q.ip) =~= Seq::<u8>::empty());
        } else {
            assert(q.ip[0] != '0' as u8);
            assert(strip_leading_zeros(q.ip) == q.ip);
        }
        if strip_trailing_zeros(p.fp).len() == 0 {
            assert(q.fp =~= seq!['0' as u8]);
            assert(strip_trailing_zeros(q.fp) =~= Seq::<u8>::empty());
        } else {
            assert(q.fp.last() != '0' as u8);
            assert(strip_trailing_zeros(q.fp) == q.fp);
        }
        if q.has_exp {
            assert(q.ed[0] != '0' as u8);
            assert(strip_leading_zeros(q.ed) == q.ed);
        } else {
            assert(strip_leading_zeros(q.ed) =~= Seq::<u8>::empty());
        }
    }
}

/// A canonical floating-point literal re-normalizes to itself.
pub proof fn lemma_canon_of_split(s: Seq<u8>)
    requires
        split_float(s) is Some,
    ensures
        is_canon_float(canon_float(s)),
        canon_float(canon_float(s)) == canon_float(s),
{
    lemma_split_float_digits(s);
    lemma_canon_stable(split_float(s)->Some_0);
}

/// Index positions of the parts of a floating-point literal inside a byte
/// slice.
pub struct FloatInfo {
    pub neg: bool,
    pub ip_start: usize,
    pub ip_end: usize,
    pub has_dot: bool,
    pub fp_start: usize,
    pub fp_end: usize,
    pub has_exp: bool,
    pub eneg: bool,
    pub ed_start: usize,
    pub ed_end: usize,
}

impl FloatInfo {
    /// The spec-level parts this index information denotes in `s`.
    pub open spec fn parts(&self, s: Seq<u8>) -> FloatParts {
        FloatParts {
            neg: self.neg,
            ip: s.subrange(self.ip_start as int, self.ip_end as int),
            has_dot: self.has_dot,
            fp: s.subrange(self.fp_start as int, self.fp_end as int),
            has_exp: self.has_exp,
            eneg: self.eneg,
            ed: s.subrange(self.ed_start as int, self.ed_end as int),
        }
    }

    pub open spec fn wf(&self, s: Seq<u8>) -> bool {
        self.ip_start <= self.ip_end <= s.len() && self.fp_start <= self.fp_end <= s.len()
            && self.ed_start <= self.ed_end <= s.len()
    }
}

/// First index at or after `i` holding no digit.
pub fn scan_digits(s: &[u8], i: usize) -> (r: usize)
    requires
        i <= s@.len(),
    ensures
        r == digit_run_end(s@, i as int),
        i <= r <= s@.len(),
    decreases s@.len() - i,
{
    proof {
        lemma_digit_run_end(s@, i as int);
    }
    if i < s.len() {
        let b = s[i];
        if '0' as u8 <= b && b <= '9' as u8 {
            return scan_digits(s, i + 1);
        }
    }
    i
}

/// Splits a floating-point literal into part positions.
pub fn float_info(s: &[u8]) -> (r: Option<FloatInfo>)
    ensures
        match split_float(s@) {
            Some(p) => r matches Some(x) && x.wf(s@) && x.parts(s@) == p,
            None => r is None,
        },
{
    let n = s.len();
    let neg = n > 0 && s[0] == '-' as u8;
    let i0: usize = if neg {
        1
    } else {
        0
    };
    let i1 = scan_digits(s, i0);
    let mut info = FloatInfo {
        neg,
        ip_start: i0,
        ip_end: i1,
        has_dot: false,
        fp_start: i1,
        fp_end: i1,
        has_exp: false,
        eneg: false,
        ed_start: i1,
        ed_end: i1,
    };
    let mut i: usize = i1;
    if i1 < n && s[i1] == '.' as u8 {
        let i2 = scan_digits(s, i1 + 1);
        info.has_dot = true;
        info.fp_start = i1 + 1;
        info.fp_end = i2;
        i = i2;
        if i1 == i0 && i2 == i1 + 1 {
            assert(split_float(s@) is None);
            return None;
        }
    } else {
        if i1 == i0 {
            assert(split_float(s@) is None);
            return None;
        }
    }
    info.ed_start = i;
    info.ed_end = i;
    if i == n {
        assert(info.parts(s@) =~= split_float(s@)->Some_0);
        return Some(info);
    }
    let c = s[i];
    if !(c == 'e' as u8 || c == 'E' as u8) {
        assert(split_float(s@) is None);
        return None;
    }
    let eneg = i + 1 < n && s[i + 1] == '-' as u8;
    let epos = i + 1 < n && s[i + 1] == '+' as u8;
    let j0: usize = if eneg || epos {
        i + 2
    } else {
        i + 1
    };
    if j0 > n {
        assert(split_float(s@) is None);
        return None;
    }
    let j1 = scan_digits(s, j0);
    if j1 == n && j1 > j0 {
        info.has_exp = true;
        info.eneg = eneg;
        info.ed_start = j0;
        info.ed_end = j1;
        assert(info.parts(s@) =~= split_float(s@)->Some_0);
        Some(info)
    } else {
        assert(split_float(s@) is None);
        None
    }
}

/// First index in `[i, end)` past the run of leading zeros.
fn skip_zeros(s: &[u8], i: usize, end: usize) -> (r: usize)
    requires
        i <= end <= s@.len(),
    ensures
        i <= r <= end,
        s@.subrange(r as int, end as int) == strip_leading_zeros(s@.subrange(i as int, end as int)),
    decreases end - i,
{
    if i < end && s[i] == '0' as u8 {
        assert(s@.subrange(i as int, end as int).drop_first() =~= s@.subrange(
            i as int + 1,
            end as int,
        ));
        skip_zeros(s, i + 1, end)
    } else {
        assert(s@.subrange(i as int, end as int).len() == 0 || s@.subrange(i as int, end as int)[0]
            != '0' as u8);
        i
    }
}

/// Last index in `[start, j)` before the run of trailing zeros.
fn trim_zeros(s: &[u8], start: usize, j: usize) -> (r: usize)
    requires
        start <= j <= s@.len(),
    ensures
        start <= r <= j,
        s@.subrange(start as int, r as int) == strip_trailing_zeros(
            s@.subrange(start as int, j as int),
        ),
    decreases j - start,
{
    if j > start && s[j - 1] == '0' as u8 {
        assert(s@.subrange(start as int, j as int).drop_last() =~= s@.subrange(
            start as int,
            j as int - 1,
        ));
        trim_zeros(s, start, j - 1)
    } else {
        assert(s@.subrange(start as int, j as int).len() == 0 || s@.subrange(
            start as int,
            j as int,
        ).last() != '0' as u8);
        j
    }
}

/// Appends `s[a..b]` to `out`.
pub fn push_range(out: &mut Vec<u8>, s: &[u8], a: usize, b: usize)
    requires
        a <= b <= s@.len(),
    ensures
        final(out)@ == old(out)@ + s@.subrange(a as int, b as int),
{
    let mut k: usize = a;
    while k < b
        invariant
            a <= k <= b <= s@.len(),
            out@ == old(out)@ + s@.subrange(a as int, k as int),
        decreases b - k,
    {
        out.push(s[k]);
        assert(s@.subrange(a as int, k as int).push(s@[k as int]) =~= s@.subrange(
            a as int,
            k as int + 1,
        ));
        k += 1;
    }
}

/// Normalizes a floating-point literal into its canonical text; `None` when
/// the text is not a floating-point literal.
#[verifier::rlimit(50)]
pub fn normalize_float(s: &[u8]) -> (r: Option<Vec<u8>>)
    ensures
        match split_float(s@) {
            Some(p) => r matches Some(v) && v@ == canon_from_parts(p),
            None => r is None,
        },
{
    let info = match float_info(s) {
        Some(x) => x,
        None => {
            return None;
        },
    };
    let ghost p = split_float(s@)->Some_0;
    let mut out: Vec<u8> = Vec::new();
    if info.neg {
        out.push('-' as u8);
    }
    let ik = skip_zeros(s, info.ip_start, info.ip_end);
    if ik == info.ip_end {
        out.push('0' as u8);
    } else {
        push_range(&mut out, s, ik, info.ip_end);
    }
    out.push('.' as u8);
    let fk = trim_zeros(s, info.fp_start, info.fp_end);
    if fk == info.fp_start {
        out.push('0' as u8);
    } else {
        push_range(&mut out, s, info.fp_start, fk);
    }
    let ghost ips = if strip_leading_zeros(p.ip).len() == 0 {
        seq!['0' as u8]
    } else {
        strip_leading_zeros(p.ip)
    };
    let ghost fps = if strip_trailing_zeros(p.fp).len() == 0 {
        seq!['0' as u8]
    } else {
        strip_trailing_zeros(p.fp)
    };
    let ghost sign: Seq<u8> = if p.neg {
        seq!['-' as u8]
    } else {
        Seq::empty()
    };
    assert(out@ =~= sign + ips + seq!['.' as u8] + fps);
    if info.has_exp {
        let ek = skip_zeros(s, info.ed_start, info.ed_end);
        if ek < info.ed_end {
            out.push('e' as u8);
            if info.eneg {
                out.push('-' as u8);
            }
            push_range(&mut out, s, ek, info.ed_end);
            let ghost eds = strip_leading_zeros(p.ed);
            let ghost exp: Seq<u8> = seq!['e' as u8] + (if p.eneg {
                seq!['-' as u8]
            } else {
                Seq::<u8>::empty()
            }) + eds;
            assert(out@ =~= sign + ips + seq!['.' as u8] + fps + exp);
        }
    }
    assert(out@ =~= canon_from_parts(p));
    Some(out)
}

} // verus!
