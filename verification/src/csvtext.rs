//! Lexing and printing of delimited-text records.
//!
//! Records are split on line boundaries and fields on commas; a field that
//! starts with a quote runs to its closing quote, with doubled quotes
//! standing for a literal quote, so delimiters and newlines may appear
//! inside quoted fields.  The printer quotes exactly the fields that need
//! it, so decoding what was encoded restores the fields.

use vstd::prelude::*;

verus! {

/// Bytes that force a field into quotes: the delimiter, the quote itself
/// and line terminators.
pub open spec fn is_special(b: u8) -> bool {
    b == ',' as u8 || b == '"' as u8 || b == '\n' as u8 || b == 13u8
}

/// Content of a quoted field from `i` (just after the opening quote) to its
/// closing quote: the unescaped bytes and the index after the quote.
pub open spec fn scan_quoted(s: Seq<u8>, i: int) -> Option<(Seq<u8>, int)>
    decreases s.len() - i,
{
    if i < 0 || i >= s.len() {
        None
    } else if s[i] == '"' as u8 {
        if i + 1 < s.len() && s[i + 1] == '"' as u8 {
            match scan_quoted(s, i + 2) {
                Some((c, j)) => Some((seq!['"' as u8] + c, j)),
                None => None,
            }
        } else {
            Some((Seq::empty(), i + 1))
        }
    } else {
        match scan_quoted(s, i + 1) {
            Some((c, j)) => Some((seq![s[i]] + c, j)),
            None => None,
        }
    }
}

pub proof fn lemma_scan_quoted(s: Seq<u8>, i: int)
    requires
        0 <= i <= s.len(),
    ensures
        match scan_quoted(s, i) {
            Some((c, j)) => i + 1 <= j <= s.len(),
            None => true,
        },
    decreases s.len() - i,
{
    if 0 <= i < s.len() {
        if s[i] == '"' as u8 {
            if i + 1 < s.len() && s[i + 1] == '"' as u8 {
                lemma_scan_quoted(s, i + 2);
            }
        } else {
            lemma_scan_quoted(s, i + 1);
        }
    }
}

fn scan_quoted_exec(s: &[u8], i: usize, out: &mut Vec<u8>) -> (r: Option<usize>)
    requires
        i <= s@.len(),
    ensures
        match scan_quoted(s@, i as int) {
            Some((c, j)) => r matches Some(x) && x as int == j && final(out)@ == old(out)@ + c,
            None => r is None,
        },
    decreases s@.len() - i,
{
    proof {
        lemma_scan_quoted(s@, i as int);
    }
    if i >= s.len() {
        return None;
    }
    let b = s[i];
    if b == '"' as u8 {
        if i + 1 < s.len() && s[i + 1] == '"' as u8 {
            let ghost out0 = out@;
            out.push('"' as u8);
            let r = scan_quoted_exec(s, i + 2, out);
            proof {
                if let Some((c, j)) = scan_quoted(s@, i as int + 2) {
                    assert(out0.push('"' as u8) + c =~= out0 + (seq!['"' as u8] + c));
                }
            }
            r
        } else {
            assert(out@ =~= out@ + Seq::<u8>::empty());
            Some(i + 1)
        }
    } else {
        let ghost out0 = out@;
        out.push(b);
        let r = scan_quoted_exec(s, i + 1, out);
        proof {
            if let Some((c, j)) = scan_quoted(s@, i as int + 1) {
                assert(out0.push(b) + c =~= out0 + (seq![b] + c));
            }
        }
        r
    }
}

/// First index at or after `i` holding a special byte.
pub open spec fn raw_end(s: Seq<u8>, i: int) -> int
    decreases s.len() - i,
{
    if i < 0 || i >= s.len() {
        i
    } else if !is_special(s[i]) {
        raw_end(s, i + 1)
    } else {
        i
    }
}

pub proof fn lemma_raw_end(s: Seq<u8>, i: int)
    requires
        0 <= i <= s.len(),
    ensures
        i <= raw_end(s, i) <= s.len(),
        raw_end(s, i) < s.len() ==> is_special(s[raw_end(s, i)]),
    decreases s.len() - i,
{
    if i < s.len() && !is_special(s[i]) {
        lemma_raw_end(s, i + 1);
    }
}

fn raw_end_exec(s: &[u8], i: usize) -> (r: usize)
    requires
        i <= s@.len(),
    ensures
        r == raw_end(s@, i as int),
        i <= r <= s@.len(),
    decreases s@.len() - i,
{
    proof {
        lemma_raw_end(s@, i as int);
    }
    if i < s.len() {
        let b = s[i];
        if !(b == ',' as u8 || b == '"' as u8 || b == '\n' as u8 || b == 13u8) {
            return raw_end_exec(s, i + 1);
        }
    }
    i
}

/// One field starting at `i`: its text and the index of the byte that ended
/// it (a special byte or the end of input).  A quoted field must be
/// followed by a delimiter or line end.
pub open spec fn scan_field(s: Seq<u8>, i: int) -> Option<(Seq<u8>, int)> {
    if 0 <= i < s.len() && s[i] == '"' as u8 {
        match scan_quoted(s, i + 1) {
            Some((c, j)) => {
                if j == s.len() || s[j] == ',' as u8 || s[j] == '\n' as u8 || s[j] == 13u8 {
                    Some((c, j))
                } else {
                    None
                }
            },
            None => None,
        }
    } else {
        Some((s.subrange(i, raw_end(s, i)), raw_end(s, i)))
    }
}

pub proof fn lemma_scan_field(s: Seq<u8>, i: int)
    requires
        0 <= i <= s.len(),
    ensures
        match scan_field(s, i) {
            Some((c, j)) => i <= j <= s.len() && (j < s.len() ==> is_special(s[j])),
            None => true,
        },
{
    if 0 <= i < s.len() && s[i] == '"' as u8 {
        lemma_scan_quoted(s, i + 1);
    } else {
        lemma_raw_end(s, i);
    }
}

fn scan_field_exec(s: &[u8], i: usize, out: &mut Vec<u8>) -> (r: Option<usize>)
    requires
        i <= s@.len(),
    ensures
        match scan_field(s@, i as int) {
            Some((c, j)) => r matches Some(x) && x as int == j && final(out)@ == old(out)@ + c && i
                <= j <= s@.len(),
            None => r is None,
        },
{
    proof {
        lemma_scan_field(s@, i as int);
    }
    if i < s.len() && s[i] == '"' as u8 {
        match scan_quoted_exec(s, i + 1, out) {
            Some(j) => {
                proof {
                    lemma_scan_quoted(s@, i as int + 1);
                }
                if j == s.len() || s[j] == ',' as u8 || s[j] == '\n' as u8 || s[j] == 13u8 {
                    Some(j)
                } else {
                    None
                }
            },
            None => None,
        }
    } else {
        let e = raw_end_exec(s, i);
        crate::num::push_range(out, s, i, e);
        Some(e)
    }
}

/// One record starting at `i`: its fields and the index after its line
/// terminator (or the end of input).
pub open spec fn scan_record(s: Seq<u8>, i: int) -> Option<(Seq<Seq<u8>>, int)>
    decreases s.len() - i,
{
    if i < 0 {
        None
    } else {
        match scan_field(s, i) {
            None => None,
            Some((f, j)) => {
                if j >= s.len() {
                    Some((seq![f], s.len() as int))
                } else if s[j] == ',' as u8 && j >= i {
                    match scan_record(s, j + 1) {
                        Some((fs, k)) => Some((seq![f] + fs, k)),
                        None => None,
                    }
                } else if s[j] == '\n' as u8 {
                    Some((seq![f], j + 1))
                } else if s[j] == 13u8 {
                    if j + 1 < s.len() && s[j + 1] == '\n' as u8 {
                        Some((seq![f], j + 2))
                    } else {
                        None
                    }
                } else {
                    None
                }
            },
        }
    }
}

pub proof fn lemma_scan_record(s: Seq<u8>, i: int)
    requires
        0 <= i <= s.len(),
    ensures
        match scan_record(s, i) {
            Some((fs, k)) => i <= k <= s.len() && fs.len() >= 1,
            None => true,
        },
    decreases s.len() - i,
{
    lemma_scan_field(s, i);
    if let Some((f, j)) = scan_field(s, i) {
        if j < s.len() && s[j] == ',' as u8 && j >= i {
            lemma_scan_record(s, j + 1);
        }
    }
}

fn scan_record_exec(s: &[u8], i: usize, fields: &mut Vec<Vec<u8>>) -> (r: Option<usize>)
    requires
        i <= s@.len(),
    ensures
        match scan_record(s@, i as int) {
            Some((fs, k)) => r matches Some(x) && x as int == k && final(fields).deep_view() == old(
                fields,
            ).deep_view() + fs && i <= k <= s@.len(),
            None => r is None,
        },
    decreases s@.len() - i,
{
    proof {
        lemma_scan_record(s@, i as int);
    }
    let mut f: Vec<u8> = Vec::new();
    let j = match scan_field_exec(s, i, &mut f) {
        Some(j) => j,
        None => {
            return None;
        },
    };
    let ghost fv = f@;
    let ghost pre = fields.deep_view();
    if j >= s.len() {
        fields.push(f);
        assert(fields.deep_view() =~~= pre + seq![fv]);
        Some(s.len())
    } else if s[j] == ',' as u8 {
        fields.push(f);
        assert(fields.deep_view() =~~= pre + seq![fv]);
        let r = scan_record_exec(s, j + 1, fields);
        proof {
            if let Some((fs, k)) = scan_record(s@, j as int + 1) {
                assert(pre + seq![fv] + fs =~= pre + (seq![fv] + fs));
            }
        }
        r
    } else if s[j] == '\n' as u8 {
        fields.push(f);
        assert(fields.deep_view() =~~= pre + seq![fv]);
        Some(j + 1)
    } else if s[j] == 13u8 {
        if j + 1 < s.len() && s[j + 1] == '\n' as u8 {
            fields.push(f);
            assert(fields.deep_view() =~~= pre + seq![fv]);
            Some(j + 2)
        } else {
            None
        }
    } else {
        None
    }
}

/// All records of the input, with blank lines skipped; `None` when some
/// record is malformed.
pub open spec fn scan_records(s: Seq<u8>, i: int) -> Option<Seq<Seq<Seq<u8>>>>
    decreases s.len() - i,
{
    if i < 0 || i >= s.len() {
        Some(Seq::empty())
    } else if s[i] == '\n' as u8 {
        scan_records(s, i + 1)
    } else if s[i] == 13u8 && i + 1 < s.len() && s[i + 1] == '\n' as u8 {
        scan_records(s, i + 2)
    } else {
        match scan_record(s, i) {
            None => None,
            Some((fs, k)) => {
                if i + 1 <= k <= s.len() {
                    match scan_records(s, k) {
                        None => None,
                        Some(rest) => Some(seq![fs] + rest),
                    }
                } else {
                    None
                }
            },
        }
    }
}

fn scan_records_rec(s: &[u8], i: usize, out: &mut Vec<Vec<Vec<u8>>>) -> (r: bool)
    requires
        i <= s@.len(),
    ensures
        match scan_records(s@, i as int) {
            Some(rs) => r && final(out).deep_view() == old(out).deep_view() + rs,
            None => !r,
        },
    decreases s@.len() - i,
{
    if i >= s.len() {
        assert(out.deep_view() =~~= out.deep_view() + Seq::<Seq<Seq<u8>>>::empty());
        return true;
    }
    let b = s[i];
    if b == '\n' as u8 {
        return scan_records_rec(s, i + 1, out);
    }
    if b == 13u8 && i + 1 < s.len() && s[i + 1] == '\n' as u8 {
        return scan_records_rec(s, i + 2, out);
    }
    let mut fields: Vec<Vec<u8>> = Vec::new();
    let k = match scan_record_exec(s, i, &mut fields) {
        Some(k) => k,
        None => {
            return false;
        },
    };
    if k < i + 1 {
        return false;
    }
    let ghost fsv = fields.deep_view();
    let ghost pre = out.deep_view();
    out.push(fields);
    assert(out.deep_view() =~~= pre + seq![fsv]);
    let r = scan_records_rec(s, k, out);
    proof {
        if let Some(rest) = scan_records(s@, k as int) {
            assert(pre + seq![fsv] + rest =~= pre + (seq![fsv] + rest));
        }
    }
    r
}

/// Parses the whole input into records of fields; `None` when some record
/// is malformed.
pub fn parse_csv(s: &[u8]) -> (r: Option<Vec<Vec<Vec<u8>>>>)
    ensures
        match scan_records(s@, 0) {
            Some(rs) => r matches Some(x) && x.deep_view() == rs,
            None => r is None,
        },
{
    let mut out: Vec<Vec<Vec<u8>>> = Vec::new();
    assert(out.deep_view() =~~= Seq::<Seq<Seq<u8>>>::empty());
    if scan_records_rec(s, 0, &mut out) {
        Some(out)
    } else {
        None
    }
}

/// True when the field text must be quoted to survive the trip.
pub open spec fn needs_quote(t: Seq<u8>) -> bool {
    exists|k: int| 0 <= k < t.len() && is_special(#[trigger] t[k])
}

/// Field text with every quote doubled.
pub open spec fn dq(t: Seq<u8>) -> Seq<u8>
    decreases t.len(),
{
    if t.len() == 0 {
        Seq::empty()
    } else if t[0] == '"' as u8 {
        seq!['"' as u8, '"' as u8] + dq(t.drop_first())
    } else {
        seq![t[0]] + dq(t.drop_first())
    }
}

/// The encoded form of one field: quoted with doubled quotes when the text
/// holds a special byte, the bare text otherwise.
pub open spec fn enc_field_text(t: Seq<u8>) -> Seq<u8> {
    if needs_quote(t) {
        seq!['"' as u8] + dq(t) + seq!['"' as u8]
    } else {
        t
    }
}

pub proof fn lemma_dq_append(a: Seq<u8>, b: Seq<u8>)
    ensures
        dq(a + b) == dq(a) + dq(b),
    decreases a.len(),
{
    if a.len() == 0 {
        assert(a + b =~= b);
        assert(dq(a) + dq(b) =~= dq(b));
    } else {
        lemma_dq_append(a.drop_first(), b);
        assert((a + b).drop_first() =~= a.drop_first() + b);
        assert((a + b)[0] == a[0]);
        if a[0] == '"' as u8 {
            assert(seq!['"' as u8, '"' as u8] + (dq(a.drop_first()) + dq(b)) =~= (seq![
                '"' as u8,
                '"' as u8,
            ] + dq(a.drop_first())) + dq(b));
        } else {
            assert(seq![a[0]] + (dq(a.drop_first()) + dq(b)) =~= (seq![a[0]] + dq(a.drop_first()))
                + dq(b));
        }
    }
}

/// Whether the field text holds a byte that forces quoting.
fn field_needs_quote(t: &[u8]) -> (r: bool)
    ensures
        r == needs_quote(t@),
{
    let mut k: usize = 0;
    while k < t.len()
        invariant
            k <= t@.len(),
            forall|j: int| 0 <= j < k ==> !is_special(#[trigger] t@[j]),
        decreases t@.len() - k,
    {
        let b = t[k];
        if b == ',' as u8 || b == '"' as u8 || b == '\n' as u8 || b == 13u8 {
            assert(is_special(t@[k as int]));
            return true;
        }
        k += 1;
    }
    false
}

/// Appends the encoded form of one field to `out`.
pub fn push_csv_field(out: &mut Vec<u8>, t: &[u8])
    ensures
        final(out)@ == old(out)@ + enc_field_text(t@),
{
    if !field_needs_quote(t) {
        crate::num::push_range(out, t, 0, t.len());
        assert(t@.subrange(0, t@.len() as int) =~= t@);
        return ;
    }
    out.push('"' as u8);
    let ghost base = out@;
    let mut k: usize = 0;
    while k < t.len()
        invariant
            k <= t@.len(),
            out@ == base + dq(t@.take(k as int)),
        decreases t@.len() - k,
    {
        let b = t[k];
        let ghost pre = out@;
        if b == '"' as u8 {
            out.push('"' as u8);
            out.push('"' as u8);
            assert(out@ =~= pre + seq!['"' as u8, '"' as u8]);
        } else {
            out.push(b);
            assert(out@ =~= pre + seq![b]);
        }
        proof {
            lemma_dq_append(t@.take(k as int), seq![t@[k as int]]);
            assert(t@.take(k as int) + seq![t@[k as int]] =~= t@.take(k as int + 1));
            assert(seq![t@[k as int]].drop_first() =~= Seq::<u8>::empty());
            assert(dq(Seq::<u8>::empty()) == Seq::<u8>::empty());
            if t@[k as int] == '"' as u8 {
                assert(dq(seq![t@[k as int]]) =~= seq!['"' as u8, '"' as u8]);
            } else {
                assert(dq(seq![t@[k as int]]) =~= seq![t@[k as int]]);
            }
            assert(out@ =~= base + dq(t@.take(k as int + 1)));
        }
        k += 1;
    }
    assert(t@.take(t@.len() as int) =~= t@);
    out.push('"' as u8);
    assert(out@ =~= old(out)@ + (seq!['"' as u8] + dq(t@) + seq!['"' as u8]));
}

} // verus!
