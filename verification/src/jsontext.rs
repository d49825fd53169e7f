//! Lexing and printing of line-delimited structured records.
//!
//! Each line is one record: an object of key/scalar pairs.  The scanner
//! handles strings with escapes (including `\uXXXX` for non-surrogate code
//! points), numbers, booleans and null; a nested object or array makes the
//! line malformed, since columns hold primitives only.  The printer escapes
//! strings the same way, so decoding what was encoded restores the bytes.

use vstd::prelude::*;

use crate::num::digit_run_end;
use crate::num::lemma_digit_run_end;

verus! {

/// A scalar read from a record line.
pub enum Jsv {
    Null,
    Bool(bool),
    Num(Vec<u8>),
    Str(Vec<u8>),
}

/// Mathematical mirror of [`Jsv`].
pub enum JsvV {
    Null,
    Bool(bool),
    Num(Seq<u8>),
    Str(Seq<u8>),
}

impl View for Jsv {
    type V = JsvV;

    open spec fn view(&self) -> JsvV {
        match self {
            Jsv::Null => JsvV::Null,
            Jsv::Bool(b) => JsvV::Bool(*b),
            Jsv::Num(t) => JsvV::Num(t@),
            Jsv::Str(t) => JsvV::Str(t@),
        }
    }
}

/// One key/value member of a record.
pub struct Pair {
    pub key: Vec<u8>,
    pub val: Jsv,
}

/// Mathematical mirror of [`Pair`].
#[verifier::ext_equal]
pub struct PairV {
    pub key: Seq<u8>,
    pub val: JsvV,
}

impl View for Pair {
    type V = PairV;

    open spec fn view(&self) -> PairV {
        PairV { key: self.key@, val: self.val@ }
    }
}

impl DeepView for Pair {
    type V = PairV;

    open spec fn deep_view(&self) -> PairV {
        self.view()
    }
}

pub open spec fn is_ws(b: u8) -> bool {
    b == ' ' as u8 || b == 9u8 || b == 10u8 || b == 13u8
}

/// First index at or after `i` holding no whitespace.
pub open spec fn skip_ws(s: Seq<u8>, i: int) -> int
    decreases s.len() - i,
{
    if i < 0 || i >= s.len() {
        i
    } else if is_ws(s[i]) {
        skip_ws(s, i + 1)
    } else {
        i
    }
}

pub proof fn lemma_skip_ws(s: Seq<u8>, i: int)
    requires
        0 <= i <= s.len(),
    ensures
        i <= skip_ws(s, i) <= s.len(),
        skip_ws(s, i) < s.len() ==> !is_ws(s[skip_ws(s, i)]),
    decreases s.len() - i,
{
    if i < s.len() && is_ws(s[i]) {
        lemma_skip_ws(s, i + 1);
    }
}

fn skip_ws_exec(s: &[u8], i: usize) -> (r: usize)
    requires
        i <= s@.len(),
    ensures
        r == skip_ws(s@, i as int),
        i <= r <= s@.len(),
    decreases s@.len() - i,
{
    proof {
        lemma_skip_ws(s@, i as int);
    }
    if i < s.len() {
        let b = s[i];
        if b == ' ' as u8 || b == 9u8 || b == 10u8 || b == 13u8 {
            return skip_ws_exec(s, i + 1);
        }
    }
    i
}

/// Value of a hexadecimal digit, `-1` for any other byte.
pub open spec fn hexv(b: u8) -> int {
    if '0' as u8 <= b && b <= '9' as u8 {
        b - '0' as u8
    } else if 'a' as u8 <= b && b <= 'f' as u8 {
        b - 'a' as u8 + 10
    } else if 'A' as u8 <= b && b <= 'F' as u8 {
        b - 'A' as u8 + 10
    } else {
        -1
    }
}

fn hexv_exec(b: u8) -> (r: i32)
    ensures
        r as int == hexv(b),
{
    if '0' as u8 <= b && b <= '9' as u8 {
        (b - '0' as u8) as i32
    } else if 'a' as u8 <= b && b <= 'f' as u8 {
        (b - 'a' as u8) as i32 + 10
    } else if 'A' as u8 <= b && b <= 'F' as u8 {
        (b - 'A' as u8) as i32 + 10
    } else {
        -1
    }
}

/// UTF-8 encoding of a code point below `0x10000`.
pub open spec fn utf8_enc(cp: int) -> Seq<u8> {
    if cp < 0x80 {
        seq![cp as u8]
    } else if cp < 0x800 {
        seq![(0xC0 + cp / 0x40) as u8, (0x80 + cp % 0x40) as u8]
    } else {
        seq![(0xE0 + cp / 0x1000) as u8, (0x80 + (cp / 0x40) % 0x40) as u8, (0x80 + cp % 0x40) as u8]
    }
}

/// Contents of a string literal from `i` (just after the opening quote) to
/// its closing quote: the unescaped bytes and the index after the quote.
pub open spec fn scan_string(s: Seq<u8>, i: int) -> Option<(Seq<u8>, int)>
    decreases s.len() - i,
{
    if i < 0 || i >= s.len() {
        None
    } else if s[i] == '"' as u8 {
        Some((Seq::empty(), i + 1))
    } else if s[i] == '\\' as u8 {
        if i + 1 >= s.len() {
            None
        } else {
            let e = s[i + 1];
            if e == 'u' as u8 {
                if i + 6 > s.len() {
                    None
                } else {
                    let h1 = hexv(s[i + 2]);
                    let h2 = hexv(s[i + 3]);
                    let h3 = hexv(s[i + 4]);
                    let h4 = hexv(s[i + 5]);
                    if h1 < 0 || h2 < 0 || h3 < 0 || h4 < 0 {
                        None
                    } else {
                        let cp = h1 * 0x1000 + h2 * 0x100 + h3 * 0x10 + h4;
                        if 0xD800 <= cp < 0xE000 {
                            None
                        } else {
                            match scan_string(s, i + 6) {
                                Some((c, j)) => Some((utf8_enc(cp) + c, j)),
                                None => None,
                            }
                        }
                    }
                }
            } else {
                let u: Seq<u8> = if e == '"' as u8 {
                    seq!['"' as u8]
                } else if e == '\\' as u8 {
                    seq!['\\' as u8]
                } else if e == '/' as u8 {
                    seq!['/' as u8]
                } else if e == 'b' as u8 {
                    seq![8u8]
                } else if e == 'f' as u8 {
                    seq![12u8]
                } else if e == 'n' as u8 {
                    seq![10u8]
                } else if e == 'r' as u8 {
                    seq![13u8]
                } else if e == 't' as u8 {
                    seq![9u8]
                } else {
                    Seq::empty()
                };
                if u.len() == 0 {
                    None
                } else {
                    match scan_string(s, i + 2) {
                        Some((c, j)) => Some((u + c, j)),
                        None => None,
                    }
                }
            }
        }
    } else if s[i] < 0x20 {
        None
    } else {
        match scan_string(s, i + 1) {
            Some((c, j)) => Some((seq![s[i]] + c, j)),
            None => None,
        }
    }
}

pub proof fn lemma_scan_string(s: Seq<u8>, i: int)
    requires
        0 <= i <= s.len(),
    ensures
        match scan_string(s, i) {
            Some((c, j)) => i + 1 <= j <= s.len(),
            None => true,
        },
    decreases s.len() - i,
{
    if 0 <= i < s.len() {
        if s[i] == '"' as u8 {
        } else if s[i] == '\\' as u8 {
            if i + 2 <= s.len() {
                lemma_scan_string(s, i + 2);
            }
            if i + 6 <= s.len() {
                lemma_scan_string(s, i + 6);
            }
        } else {
            lemma_scan_string(s, i + 1);
        }
    }
}

/// Scans a string literal, appending its unescaped contents to `out`.
#[verifier::rlimit(80)]
fn scan_string_exec(s: &[u8], i: usize, out: &mut Vec<u8>) -> (r: Option<usize>)
    requires
        i <= s@.len(),
    ensures
        match scan_string(s@, i as int) {
            Some((c, j)) => r matches Some(x) && x as int == j && final(out)@ == old(out)@ + c,
            None => r is None,
        },
    decreases s@.len() - i,
{
    proof {
        lemma_scan_string(s@, i as int);
    }
    if i >= s.len() {
        return None;
    }
    let b = s[i];
    if b == '"' as u8 {
        assert(out@ =~= out@ + Seq::<u8>::empty());
        return Some(i + 1);
    }
    if b == '\\' as u8 {
        if i + 1 >= s.len() {
            return None;
        }
        let e = s[i + 1];
        if e == 'u' as u8 {
            if s.len() - i < 6 {
                return None;
            }
            let h1 = hexv_exec(s[i + 2]);
            let h2 = hexv_exec(s[i + 3]);
            let h3 = hexv_exec(s[i + 4]);
            let h4 = hexv_exec(s[i + 5]);
            if h1 < 0 || h2 < 0 || h3 < 0 || h4 < 0 {
                return None;
            }
            let cp: u32 = (h1 as u32) * 0x1000 + (h2 as u32) * 0x100 + (h3 as u32) * 0x10 + (
            h4 as u32);
            if 0xD800 <= cp && cp < 0xE000 {
                return None;
            }
            let ghost out0 = out@;
            if cp < 0x80 {
                out.push(cp as u8);
            } else if cp < 0x800 {
                out.push(0xC0u8 + (cp / 0x40) as u8);
                out.push(0x80u8 + (cp % 0x40) as u8);
            } else {
                out.push(0xE0u8 + (cp / 0x1000) as u8);
                out.push(0x80u8 + ((cp / 0x40) % 0x40) as u8);
                out.push(0x80u8 + (cp % 0x40) as u8);
            }
            assert(out@ =~= out0 + utf8_enc(cp as int));
            let r = scan_string_exec(s, i + 6, out);
            proof {
                if let Some((c, j)) = scan_string(s@, i as int + 6) {
                    assert(out0 + utf8_enc(cp as int) + c =~= out0 + (utf8_enc(cp as int) + c));
                }
            }
            return r;
        }
        let u: u8 = if e == '"' as u8 {
            '"' as u8
        } else if e == '\\' as u8 {
            '\\' as u8
        } else if e == '/' as u8 {
            '/' as u8
        } else if e == 'b' as u8 {
            8u8
        } else if e == 'f' as u8 {
            12u8
        } else if e == 'n' as u8 {
            10u8
        } else if e == 'r' as u8 {
            13u8
        } else if e == 't' as u8 {
            9u8
        } else {
            0u8
        };
        if u == 0u8 {
            return None;
        }
        let ghost out0 = out@;
        out.push(u);
        let r = scan_string_exec(s, i + 2, out);
        proof {
            if let Some((c, j)) = scan_string(s@, i as int + 2) {
                assert(out0.push(u) + c =~= out0 + (seq![u] + c));
            }
        }
        return r;
    }
    if b < 0x20 {
        return None;
    }
    let ghost out0 = out@;
    out.push(b);
    let r = scan_string_exec(s, i + 1, out);
    proof {
        if let Some((c, j)) = scan_string(s@, i as int + 1) {
            assert(out0.push(b) + c =~= out0 + (seq![b] + c));
        }
    }
    r
}

/// End of the number literal starting at `i`, following the usual grammar
/// for numbers in structured records; `None` when no number starts there.
pub open spec fn num_end(s: Seq<u8>, i: int) -> Option<int> {
    if i < 0 || i >= s.len() {
        None
    } else {
        let j0: int = if s[i] == '-' as u8 {
            i + 1
        } else {
            i
        };
        if j0 >= s.len() || !crate::num::is_digit(s[j0]) {
            None
        } else {
            let j1: int = if s[j0] == '0' as u8 {
                j0 + 1
            } else {
                digit_run_end(s, j0)
            };
            let j2: int = if j1 < s.len() && s[j1] == '.' as u8 && digit_run_end(s, j1 + 1) > j1
                + 1 {
                digit_run_end(s, j1 + 1)
            } else {
                j1
            };
            if j2 < s.len() && (s[j2] == 'e' as u8 || s[j2] == 'E' as u8) {
                let j3: int = if j2 + 1 < s.len() && (s[j2 + 1] == '-' as u8 || s[j2 + 1]
                    == '+' as u8) {
                    j2 + 2
                } else {
                    j2 + 1
                };
                if j3 <= s.len() && digit_run_end(s, j3) > j3 {
                    Some(digit_run_end(s, j3))
                } else {
                    // The number ends before the marker; the stray marker
                    // then makes the line malformed.
                    Some(j2)
                }
            } else {
                Some(j2)
            }
        }
    }
}

pub proof fn lemma_num_end(s: Seq<u8>, i: int)
    requires
        0 <= i <= s.len(),
    ensures
        match num_end(s, i) {
            Some(j) => i + 1 <= j <= s.len(),
            None => true,
        },
{
    if i < s.len() {
        let j0: int = if s[i] == '-' as u8 {
            i + 1
        } else {
            i
        };
        if j0 < s.len() && crate::num::is_digit(s[j0]) {
            lemma_digit_run_end(s, j0);
            lemma_digit_run_end(s, j0 + 1);
            let j1: int = if s[j0] == '0' as u8 {
                j0 + 1
            } else {
                digit_run_end(s, j0)
            };
            if j1 < s.len() {
                lemma_digit_run_end(s, j1 + 1);
            }
            let j2: int = if j1 < s.len() && s[j1] == '.' as u8 && digit_run_end(s, j1 + 1) > j1
                + 1 {
                digit_run_end(s, j1 + 1)
            } else {
                j1
            };
            if j2 < s.len() && (s[j2] == 'e' as u8 || s[j2] == 'E' as u8) {
                let j3: int = if j2 + 1 < s.len() && (s[j2 + 1] == '-' as u8 || s[j2 + 1]
                    == '+' as u8) {
                    j2 + 2
                } else {
                    j2 + 1
                };
                if j3 <= s.len() {
                    lemma_digit_run_end(s, j3);
                }
            }
        }
    }
}

fn num_end_exec(s: &[u8], i: usize) -> (r: Option<usize>)
    requires
        i <= s@.len(),
    ensures
        match num_end(s@, i as int) {
            Some(j) => r matches Some(x) && x as int == j,
            None => r is None,
        },
        r matches Some(x) ==> i < x <= s@.len(),
{
    proof {
        lemma_num_end(s@, i as int);
    }
    if i >= s.len() {
        return None;
    }
    let j0: usize = if s[i] == '-' as u8 {
        i + 1
    } else {
        i
    };
    if j0 >= s.len() {
        return None;
    }
    let b0 = s[j0];
    if !('0' as u8 <= b0 && b0 <= '9' as u8) {
        return None;
    }
    let j1: usize = if b0 == '0' as u8 {
        j0 + 1
    } else {
        crate::num::scan_digits(s, j0)
    };
    let mut j2: usize = j1;
    if j1 < s.len() && s[j1] == '.' as u8 {
        let e = crate::num::scan_digits(s, j1 + 1);
        if e > j1 + 1 {
            j2 = e;
        }
    }
    if j2 < s.len() && (s[j2] == 'e' as u8 || s[j2] == 'E' as u8) {
        let j3: usize = if j2 + 1 < s.len() && (s[j2 + 1] == '-' as u8 || s[j2 + 1] == '+' as u8) {
            j2 + 2
        } else {
            j2 + 1
        };
        if j3 <= s.len() {
            let e = crate::num::scan_digits(s, j3);
            if e > j3 {
                return Some(e);
            }
        }
        return Some(j2);
    }
    Some(j2)
}

/// Scans one scalar value starting at `i`: a string, number, boolean or
/// null.  An object or array here makes the line malformed: columns hold
/// primitives only.
pub open spec fn scan_scalar(s: Seq<u8>, i: int) -> Option<(JsvV, int)> {
    if i < 0 || i >= s.len() {
        None
    } else if s[i] == '"' as u8 {
        match scan_string(s, i + 1) {
            Some((c, j)) => Some((JsvV::Str(c), j)),
            None => None,
        }
    } else if s[i] == 't' as u8 {
        if i + 4 <= s.len() && s.subrange(i, i + 4) == lit_true() {
            Some((JsvV::Bool(true), i + 4))
        } else {
            None
        }
    } else if s[i] == 'f' as u8 {
        if i + 5 <= s.len() && s.subrange(i, i + 5) == lit_false() {
            Some((JsvV::Bool(false), i + 5))
        } else {
            None
        }
    } else if s[i] == 'n' as u8 {
        if i + 4 <= s.len() && s.subrange(i, i + 4) == lit_null() {
            Some((JsvV::Null, i + 4))
        } else {
            None
        }
    } else {
        match num_end(s, i) {
            Some(j) => Some((JsvV::Num(s.subrange(i, j)), j)),
            None => None,
        }
    }
}

pub open spec fn lit_true() -> Seq<u8> {
    seq!['t' as u8, 'r' as u8, 'u' as u8, 'e' as u8]
}

pub open spec fn lit_false() -> Seq<u8> {
    seq!['f' as u8, 'a' as u8, 'l' as u8, 's' as u8, 'e' as u8]
}

pub open spec fn lit_null() -> Seq<u8> {
    seq!['n' as u8, 'u' as u8, 'l' as u8, 'l' as u8]
}

pub proof fn lemma_scan_scalar(s: Seq<u8>, i: int)
    requires
        0 <= i <= s.len(),
    ensures
        match scan_scalar(s, i) {
            Some((v, j)) => i + 1 <= j <= s.len(),
            None => true,
        },
{
    if i < s.len() {
        if s[i] == '"' as u8 {
            lemma_scan_string(s, i + 1);
        } else if s[i] == 't' as u8 || s[i] == 'f' as u8 || s[i] == 'n' as u8 {
        } else {
            lemma_num_end(s, i);
        }
    }
}

fn scan_scalar_exec(s: &[u8], i: usize) -> (r: Option<(Jsv, usize)>)
    requires
        i <= s@.len(),
    ensures
        match scan_scalar(s@, i as int) {
            Some((v, j)) => r matches Some(x) && x.0@ == v && x.1 as int == j && i < x.1
                <= s@.len(),
            None => r is None,
        },
{
    proof {
        lemma_scan_scalar(s@, i as int);
    }
    if i >= s.len() {
        return None;
    }
    let b = s[i];
    if b == '"' as u8 {
        let mut out: Vec<u8> = Vec::new();
        match scan_string_exec(s, i + 1, &mut out) {
            Some(j) => Some((Jsv::Str(out), j)),
            None => None,
        }
    } else if b == 't' as u8 {
        if s.len() - i >= 4 && s[i + 1] == 'r' as u8 && s[i + 2] == 'u' as u8 && s[i + 3]
            == 'e' as u8 {
            assert(s@.subrange(i as int, i as int + 4) =~= lit_true());
            Some((Jsv::Bool(true), i + 4))
        } else {
            assert(i + 4 <= s@.len() ==> s@.subrange(i as int, i as int + 4) != lit_true()) by {
                if i + 4 <= s@.len() {
                    let sub = s@.subrange(i as int, i as int + 4);
                    if sub == lit_true() {
                        assert(sub[1] == 'r' as u8 && sub[2] == 'u' as u8 && sub[3] == 'e' as u8);
                    }
                }
            }
            None
        }
    } else if b == 'f' as u8 {
        if s.len() - i >= 5 && s[i + 1] == 'a' as u8 && s[i + 2] == 'l' as u8 && s[i + 3]
            == 's' as u8 && s[i + 4] == 'e' as u8 {
            assert(s@.subrange(i as int, i as int + 5) =~= lit_false());
            Some((Jsv::Bool(false), i + 5))
        } else {
            assert(i + 5 <= s@.len() ==> s@.subrange(i as int, i as int + 5) != lit_false()) by {
                if i + 5 <= s@.len() {
                    let sub = s@.subrange(i as int, i as int + 5);
                    if sub == lit_false() {
                        assert(sub[1] == 'a' as u8 && sub[2] == 'l' as u8 && sub[3] == 's' as u8
                            && sub[4] == 'e' as u8);
                    }
                }
            }
            None
        }
    } else if b == 'n' as u8 {
        if s.len() - i >= 4 && s[i + 1] == 'u' as u8 && s[i + 2] == 'l' as u8 && s[i + 3]
            == 'l' as u8 {
            assert(s@.subrange(i as int, i as int + 4) =~= lit_null());
            Some((Jsv::Null, i + 4))
        } else {
            assert(i + 4 <= s@.len() ==> s@.subrange(i as int, i as int + 4) != lit_null()) by {
                if i + 4 <= s@.len() {
                    let sub = s@.subrange(i as int, i as int + 4);
                    if sub == lit_null() {
                        assert(sub[1] == 'u' as u8 && sub[2] == 'l' as u8 && sub[3] == 'l' as u8);
                    }
                }
            }
            None
        }
    } else {
        match num_end_exec(s, i) {
            Some(j) => {
                let mut raw: Vec<u8> = Vec::new();
                crate::num::push_range(&mut raw, s, i, j);
                assert(raw@ =~= s@.subrange(i as int, j as int));
                Some((Jsv::Num(raw), j))
            },
            None => None,
        }
    }
}

/// Members of an object from `i` (just after `{` or a comma) up to and
/// including the closing brace.
pub open spec fn parse_members(s: Seq<u8>, i: int) -> Option<(Seq<PairV>, int)>
    decreases s.len() - i,
{
    if i < 0 || i > s.len() {
        None
    } else {
        let i1 = skip_ws(s, i);
        if i1 >= s.len() || s[i1] != '"' as u8 {
            None
        } else {
            match scan_string(s, i1 + 1) {
                None => None,
                Some((k, i2)) => {
                    let i3 = skip_ws(s, i2);
                    if i3 >= s.len() || s[i3] != ':' as u8 {
                        None
                    } else {
                        let i4 = skip_ws(s, i3 + 1);
                        match scan_scalar(s, i4) {
                            None => None,
                            Some((v, i5)) => {
                                let i6 = skip_ws(s, i5);
                                if i6 >= s.len() {
                                    None
                                } else if s[i6] == '}' as u8 {
                                    Some((seq![PairV { key: k, val: v }], i6 + 1))
                                } else if s[i6] == ',' as u8 && i6 >= i {
                                    match parse_members(s, i6 + 1) {
                                        None => None,
                                        Some((rest, j)) => Some(
                                            (seq![PairV { key: k, val: v }] + rest, j),
                                        ),
                                    }
                                } else {
                                    None
                                }
                            },
                        }
                    }
                }
            }
        }
    }
}

pub proof fn lemma_parse_members(s: Seq<u8>, i: int)
    requires
        0 <= i <= s.len(),
    ensures
        match parse_members(s, i) {
            Some((ps, j)) => i <= j <= s.len(),
            None => true,
        },
    decreases s.len() - i,
{
    lemma_skip_ws(s, i);
    let i1 = skip_ws(s, i);
    if i1 < s.len() && s[i1] == '"' as u8 {
        lemma_scan_string(s, i1 + 1);
        if let Some((k, i2)) = scan_string(s, i1 + 1) {
            lemma_skip_ws(s, i2);
            let i3 = skip_ws(s, i2);
            if i3 < s.len() && s[i3] == ':' as u8 {
                lemma_skip_ws(s, i3 + 1);
                let i4 = skip_ws(s, i3 + 1);
                lemma_scan_scalar(s, i4);
                if let Some((v, i5)) = scan_scalar(s, i4) {
                    lemma_skip_ws(s, i5);
                    let i6 = skip_ws(s, i5);
                    if i6 < s.len() && s[i6] == ',' as u8 && i6 >= i {
                        lemma_parse_members(s, i6 + 1);
                    }
                }
            }
        }
    }
}

fn parse_members_exec(s: &[u8], i: usize, out: &mut Vec<Pair>) -> (r: Option<usize>)
    requires
        i <= s@.len(),
    ensures
        match parse_members(s@, i as int) {
            Some((ps, j)) => r matches Some(x) && x as int == j && final(out).deep_view()
                == old(out).deep_view() + ps,
            None => r is None,
        },
    decreases s@.len() - i,
{
    proof {
        lemma_parse_members(s@, i as int);
        lemma_skip_ws(s@, i as int);
    }
    let i1 = skip_ws_exec(s, i);
    if i1 >= s.len() || s[i1] != '"' as u8 {
        return None;
    }
    let mut key: Vec<u8> = Vec::new();
    let i2 = match scan_string_exec(s, i1 + 1, &mut key) {
        Some(j) => j,
        None => {
            return None;
        },
    };
    proof {
        lemma_scan_string(s@, i1 as int + 1);
    }
    let i3 = skip_ws_exec(s, i2);
    if i3 >= s.len() || s[i3] != ':' as u8 {
        return None;
    }
    let i4 = skip_ws_exec(s, i3 + 1);
    let (v, i5) = match scan_scalar_exec(s, i4) {
        Some(x) => x,
        None => {
            return None;
        },
    };
    let i6 = skip_ws_exec(s, i5);
    if i6 >= s.len() {
        return None;
    }
    let b = s[i6];
    if b == '}' as u8 {
        let ghost ps = parse_members(s@, i as int)->Some_0.0;
        out.push(Pair { key, val: v });
        assert(out.deep_view() =~~= old(out).deep_view() + ps);
        Some(i6 + 1)
    } else if b == ',' as u8 {
        let ghost out0 = out.deep_view();
        let ghost pv = PairV { key: key@, val: v@ };
        out.push(Pair { key, val: v });
        assert(out.deep_view() =~~= out0 + seq![pv]);
        let r = parse_members_exec(s, i6 + 1, out);
        proof {
            if let Some((rest, j)) = parse_members(s@, i6 as int + 1) {
                assert(out0 + seq![pv] + rest =~= out0 + (seq![pv] + rest));
            }
        }
        r
    } else {
        None
    }
}

/// Parses one record line: an object of key/scalar pairs with nothing but
/// whitespace around it.
pub open spec fn parse_record_line(s: Seq<u8>) -> Option<Seq<PairV>> {
    let i0 = skip_ws(s, 0);
    if s.len() == 0 || i0 >= s.len() || s[i0] != '{' as u8 {
        None
    } else {
        let i1 = skip_ws(s, i0 + 1);
        if i1 < s.len() && s[i1] == '}' as u8 {
            if skip_ws(s, i1 + 1) == s.len() {
                Some(Seq::empty())
            } else {
                None
            }
        } else {
            match parse_members(s, i0 + 1) {
                None => None,
                Some((ps, j)) => {
                    if skip_ws(s, j) == s.len() {
                        Some(ps)
                    } else {
                        None
                    }
                },
            }
        }
    }
}

/// Parses one record line into its key/scalar pairs.
pub fn parse_record_line_exec(s: &[u8]) -> (r: Option<Vec<Pair>>)
    ensures
        match parse_record_line(s@) {
            Some(ps) => r matches Some(x) && x.deep_view() == ps,
            None => r is None,
        },
{
    proof {
        lemma_skip_ws(s@, 0);
    }
    let i0 = skip_ws_exec(s, 0);
    if s.len() == 0 || i0 >= s.len() || s[i0] != '{' as u8 {
        return None;
    }
    let i1 = skip_ws_exec(s, i0 + 1);
    if i1 < s.len() && s[i1] == '}' as u8 {
        if skip_ws_exec(s, i1 + 1) == s.len() {
            let empty: Vec<Pair> = Vec::new();
            assert(empty.deep_view() =~~= Seq::<PairV>::empty());
            return Some(empty);
        } else {
            return None;
        }
    }
    let mut out: Vec<Pair> = Vec::new();
    match parse_members_exec(s, i0 + 1, &mut out) {
        None => None,
        Some(j) => {
            proof {
                lemma_parse_members(s@, i0 as int + 1);
            }
            if skip_ws_exec(s, j) == s.len() {
                assert(out.deep_view() =~~= parse_record_line(s@)->Some_0);
                Some(out)
            } else {
                None
            }
        },
    }
}

/// The lines of the input, separated by newline bytes; a final newline
/// terminates the last line rather than opening an empty one.
pub open spec fn split_rec(s: Seq<u8>, i: int, cur: Seq<u8>) -> Seq<Seq<u8>>
    decreases s.len() - i,
{
    if i < 0 || i >= s.len() {
        seq![cur]
    } else if s[i] == '\n' as u8 {
        seq![cur] + split_rec(s, i + 1, Seq::empty())
    } else {
        split_rec(s, i + 1, cur.push(s[i]))
    }
}

pub open spec fn lines_of(s: Seq<u8>) -> Seq<Seq<u8>> {
    let l = split_rec(s, 0, Seq::empty());
    if l.last().len() == 0 {
        l.drop_last()
    } else {
        l
    }
}

pub proof fn lemma_split_rec_len(s: Seq<u8>, i: int, cur: Seq<u8>)
    requires
        0 <= i <= s.len(),
    ensures
        split_rec(s, i, cur).len() >= 1,
    decreases s.len() - i,
{
    if i < s.len() {
        if s[i] == '\n' as u8 {
            lemma_split_rec_len(s, i + 1, Seq::empty());
        } else {
            lemma_split_rec_len(s, i + 1, cur.push(s[i]));
        }
    }
}

fn split_lines_rec(s: &[u8], i: usize, cur: Vec<u8>, out: &mut Vec<Vec<u8>>)
    requires
        i <= s@.len(),
    ensures
        final(out).deep_view() == old(out).deep_view() + split_rec(s@, i as int, cur@),
    decreases s@.len() - i,
{
    if i >= s.len() {
        let ghost c = cur@;
        out.push(cur);
        assert(out.deep_view() =~~= old(out).deep_view() + seq![c]);
    } else {
        let b = s[i];
        if b == '\n' as u8 {
            let ghost c = cur@;
            let ghost pre = out.deep_view();
            out.push(cur);
            assert(out.deep_view() =~~= pre + seq![c]);
            let empty: Vec<u8> = Vec::new();
            split_lines_rec(s, i + 1, empty, out);
            assert(pre + seq![c] + split_rec(s@, i as int + 1, Seq::empty()) =~= pre + (seq![c]
                + split_rec(s@, i as int + 1, Seq::empty())));
        } else {
            let mut cur = cur;
            cur.push(b);
            split_lines_rec(s, i + 1, cur, out);
        }
    }
}

/// Splits the input into lines.
pub fn split_lines(s: &[u8]) -> (r: Vec<Vec<u8>>)
    ensures
        r.deep_view() == lines_of(s@),
{
    let mut out: Vec<Vec<u8>> = Vec::new();
    assert(out.deep_view() =~~= Seq::<Seq<u8>>::empty());
    let empty: Vec<u8> = Vec::new();
    split_lines_rec(s, 0, empty, &mut out);
    proof {
        lemma_split_rec_len(s@, 0, Seq::empty());
    }
    assert(out.deep_view() =~~= split_rec(s@, 0, Seq::empty()));
    if out.len() > 0 {
        let lastlen = out[out.len() - 1].len();
        if lastlen == 0 {
            out.pop();
            assert(out.deep_view() =~~= split_rec(s@, 0, Seq::empty()).drop_last());
        }
    }
    out
}

/// Hexadecimal digit character for a value below 16.
pub open spec fn hexdig(d: int) -> u8 {
    if d < 10 {
        ('0' as u8 + d) as u8
    } else {
        ('a' as u8 + (d - 10)) as u8
    }
}

/// The escaped form of one string byte: quotes and backslashes get a
/// backslash escape, the named control characters their short form, other
/// control bytes a `\u00..` escape, and everything else stands as itself.
pub open spec fn esc_byte(b: u8) -> Seq<u8> {
    if b == '"' as u8 {
        seq!['\\' as u8, '"' as u8]
    } else if b == '\\' as u8 {
        seq!['\\' as u8, '\\' as u8]
    } else if b == 8u8 {
        seq!['\\' as u8, 'b' as u8]
    } else if b == 9u8 {
        seq!['\\' as u8, 't' as u8]
    } else if b == 10u8 {
        seq!['\\' as u8, 'n' as u8]
    } else if b == 12u8 {
        seq!['\\' as u8, 'f' as u8]
    } else if b == 13u8 {
        seq!['\\' as u8, 'r' as u8]
    } else if b < 0x20 {
        seq!['\\' as u8, 'u' as u8, '0' as u8, '0' as u8, hexdig(b as int / 16), hexdig(b as int % 16)]
    } else {
        seq![b]
    }
}

/// The escaped form of a whole string.
pub open spec fn esc_json(s: Seq<u8>) -> Seq<u8>
    decreases s.len(),
{
    if s.len() == 0 {
        Seq::empty()
    } else {
        esc_byte(s[0]) + esc_json(s.drop_first())
    }
}

pub proof fn lemma_esc_append(a: Seq<u8>, b: Seq<u8>)
    ensures
        esc_json(a + b) == esc_json(a) + esc_json(b),
    decreases a.len(),
{
    if a.len() == 0 {
        assert(a + b =~= b);
        assert(esc_json(a) + esc_json(b) =~= esc_json(b));
    } else {
        lemma_esc_append(a.drop_first(), b);
        assert((a + b).drop_first() =~= a.drop_first() + b);
        assert((a + b).len() > 0);
        assert((a + b)[0] == a[0]);
        assert(esc_json(a + b) == esc_byte(a[0]) + (esc_json(a.drop_first()) + esc_json(b)));
        assert(esc_byte(a[0]) + (esc_json(a.drop_first()) + esc_json(b)) =~= (esc_byte(a[0])
            + esc_json(a.drop_first())) + esc_json(b));
    }
}

/// Appends the escaped form of `s` to `out`.
pub fn push_escaped(out: &mut Vec<u8>, s: &[u8])
    ensures
        final(out)@ == old(out)@ + esc_json(s@),
{
    let mut i: usize = 0;
    while i < s.len()
        invariant
            i <= s@.len(),
            out@ == old(out)@ + esc_json(s@.take(i as int)),
        decreases s@.len() - i,
    {
        let b = s[i];
        let ghost pre = out@;
        if b == '"' as u8 {
            out.push('\\' as u8);
            out.push('"' as u8);
        } else if b == '\\' as u8 {
            out.push('\\' as u8);
            out.push('\\' as u8);
        } else if b == 8u8 {
            out.push('\\' as u8);
            out.push('b' as u8);
        } else if b == 9u8 {
            out.push('\\' as u8);
            out.push('t' as u8);
        } else if b == 10u8 {
            out.push('\\' as u8);
            out.push('n' as u8);
        } else if b == 12u8 {
            out.push('\\' as u8);
            out.push('f' as u8);
        } else if b == 13u8 {
            out.push('\\' as u8);
            out.push('r' as u8);
        } else if b < 0x20 {
            out.push('\\' as u8);
            out.push('u' as u8);
            out.push('0' as u8);
            out.push('0' as u8);
            let hi = b / 16;
            let lo = b % 16;
            out.push(if hi < 10 { '0' as u8 + hi } else { 'a' as u8 + (hi - 10) });
            out.push(if lo < 10 { '0' as u8 + lo } else { 'a' as u8 + (lo - 10) });
        } else {
            out.push(b);
        }
        assert(out@ =~= pre + esc_byte(s@[i as int]));
        proof {
            lemma_esc_append(s@.take(i as int), seq![s@[i as int]]);
            assert(s@.take(i as int) + seq![s@[i as int]] =~= s@.take(i as int + 1));
            assert(seq![s@[i as int]].drop_first() =~= Seq::<u8>::empty());
            assert(esc_json(Seq::<u8>::empty()) == Seq::<u8>::empty());
            assert(esc_json(seq![s@[i as int]]) == esc_byte(s@[i as int]) + esc_json(
                seq![s@[i as int]].drop_first(),
            ));
            assert(esc_json(seq![s@[i as int]]) =~= esc_byte(s@[i as int]));
            assert(pre + esc_byte(s@[i as int]) =~= old(out)@ + esc_json(s@.take(i as int + 1)));
        }
        i += 1;
    }
    assert(s@.take(s@.len() as int) =~= s@);
}

} // verus!
