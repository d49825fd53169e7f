//! The laws the pipeline obeys, stated and proved over the same spec
//! functions that the decoders' and encoders' contracts use.

use vstd::prelude::*;

use crate::batch::{DataType, FieldV, ValueV, value_wf, row_wf, rows_wf};
use crate::error::ErrKind;
use crate::jsontext::{lit_true, lit_false, esc_json, esc_byte, scan_string, scan_scalar, num_end,
    skip_ws, is_ws, hexv, hexdig, utf8_enc, JsvV, PairV, parse_members, parse_record_line,
    lines_of, split_rec};
use crate::num::{fmt_int, fmt_nat, is_canon_float, lemma_parse_fmt_i64, lemma_canon_of_split,
    canon_float, is_digit, all_digits, lemma_fmt_nat_val, digit_run_end, lemma_digit_run_exact,
    split_float, canon_from_parts, strip_leading_zeros, lemma_split_float_digits,
    lemma_canon_stable, lemma_strip_leading, lemma_strip_trailing, canon_parts};
use crate::reader::csv::{coerce_csv, sp_csv_decode, sp_csv_rows, csv_names, csv_inferred_fields};
use crate::reader::json::{coerce_jsv, coerce_json, sp_json_decode, sp_json_row, sp_json_rows,
    lookup_pair, parse_all, fields_of_cands};
use crate::types::Type;
use crate::writer::csv::{csv_value_text, csv_begin_bytes, enc_csv_rows, enc_csv_header};
use crate::writer::json::{json_value_text, enc_json_rows, enc_json_row, enc_members, json_line};
use crate::{sp_convert, sp_create_reader, sp_writer_cfg, sp_stream_bytes};

verus! {

/// Override precedence: when an explicit schema is supplied, every column
/// of the decoded delimited-text stream comes from that schema, whatever
/// the sampled data would have suggested.
pub proof fn lemma_schema_override_csv(
    input: Seq<u8>,
    has_header: bool,
    schema: Seq<FieldV>,
    sample: int,
)
    ensures
        sp_csv_decode(input, has_header, Some(schema), sample) matches Ok(d) ==> d.0 == schema,
{
}

/// Override precedence for line-delimited structured streams.
pub proof fn lemma_schema_override_json(input: Seq<u8>, schema: Seq<FieldV>, sample: int)
    ensures
        sp_json_decode(input, Some(schema), sample) matches Ok(d) ==> d.0 == schema,
{
}

/// Boundary: an empty input converts, between any two supported
/// encodings with default options, to zero batches and empty output.
pub proof fn lemma_empty_input(itype: Type, otype: Type)
    requires
        itype == Type::Csv || itype == Type::Json,
        otype == Type::Csv || otype == Type::Json,
    ensures
        sp_convert(itype, otype, None, None, Seq::empty()) == Ok::<Option<Seq<u8>>, ErrKind>(
            Some(Seq::<u8>::empty()),
        ),
{
    let empty = Seq::<u8>::empty();
    let decoded = sp_create_reader(itype, empty, None);
    assert(decoded == Ok::<Option<(Seq<FieldV>, Seq<Seq<ValueV>>)>, ErrKind>(
        Some((Seq::<FieldV>::empty(), Seq::<Seq<ValueV>>::empty())),
    )) by {
        if itype == Type::Csv {
            assert(crate::csvtext::scan_records(empty, 0) == Some(Seq::<Seq<Seq<u8>>>::empty()));
            assert(csv_names(Seq::empty(), false) =~= Seq::<Seq<u8>>::empty());
            assert(csv_inferred_fields(Seq::empty(), Seq::empty(), 1) =~= Seq::<FieldV>::empty());
        } else {
            assert(crate::jsontext::split_rec(empty, 0, Seq::empty()) =~= seq![Seq::<u8>::empty()]);
            assert(crate::jsontext::lines_of(empty) =~= Seq::<Seq<u8>>::empty());
            assert(crate::infer::infer_sample_upto(Seq::empty(), 0) =~= Seq::<
                crate::infer::KeyCandV,
            >::empty());
            assert(crate::reader::json::fields_of_cands(Seq::empty()) =~= Seq::<FieldV>::empty());
        }
    }
    let cfg = sp_writer_cfg(otype, None);
    assert(cfg is Ok);
    let c = cfg->Ok_0->Some_0;
    assert(sp_stream_bytes(c, Seq::empty(), Seq::empty()) =~= Seq::<u8>::empty()) by {
        if otype == Type::Csv {
            assert(csv_begin_bytes(false, Seq::empty()) =~= Seq::<u8>::empty());
            assert(enc_csv_rows(Seq::empty(), 0) == Seq::<u8>::empty());
        } else {
            assert(enc_json_rows(Seq::empty(), Seq::empty(), 0) == Seq::<u8>::empty());
        }
    }
}

/// Boundary: a delimited-text stream holding only a header record decodes
/// to zero rows under the header's column names, and with headers enabled
/// on the destination side the whole output is that header record alone.
pub proof fn lemma_header_only(input: Seq<u8>, names: Seq<Seq<u8>>, sample: int)
    requires
        crate::csvtext::scan_records(input, 0) == Some(seq![names]),
    ensures
        sp_csv_decode(input, true, None, sample) matches Ok(d) && d.1 == Seq::<Seq<ValueV>>::empty()
            && d.0.len() == names.len() && (forall|c: int|
            0 <= c < d.0.len() ==> d.0[c].name == names[c]),
        sp_csv_decode(input, true, None, sample) matches Ok(d) ==> sp_stream_bytes(
            (true, true),
            d.0,
            d.1,
        ) == enc_csv_header(d.0),
{
    let recs = seq![names];
    assert(recs.len() == 1);
    let data = recs.drop_first();
    assert(data =~= Seq::<Seq<Seq<u8>>>::empty());
    assert(sp_csv_rows(csv_inferred_fields(names, data, sample), data, 0) == Some(Seq::<
        Seq<ValueV>,
    >::empty()));
    let d = sp_csv_decode(input, true, None, sample)->Ok_0;
    assert(d.0 == csv_inferred_fields(names, data, sample));
    assert(enc_csv_rows(d.1, 0) == Seq::<u8>::empty());
    assert(csv_begin_bytes(true, d.0) + enc_csv_rows(d.1, 0) =~= enc_csv_header(d.0));
}

/// The scalar a non-null cell renders as in a structured record.
pub open spec fn jsv_of(v: ValueV) -> crate::jsontext::JsvV {
    match v {
        ValueV::Null => crate::jsontext::JsvV::Null,
        ValueV::Int(n) => crate::jsontext::JsvV::Num(fmt_int(n)),
        ValueV::Float(t) => crate::jsontext::JsvV::Num(t),
        ValueV::Bool(b) => crate::jsontext::JsvV::Bool(b),
        ValueV::Str(s) => crate::jsontext::JsvV::Str(s),
    }
}

/// Round trip, cell level, structured records: the scalar a well-formed
/// cell renders as coerces back to exactly that cell under the cell's own
/// field.
pub proof fn lemma_json_value_round_trip(v: ValueV, f: FieldV)
    requires
        value_wf(v, f),
    ensures
        coerce_jsv(f, jsv_of(v)) == Some(v),
{
    match v {
        ValueV::Null => {
        },
        ValueV::Int(n) => {
            lemma_parse_fmt_i64(n);
        },
        ValueV::Float(t) => {
            assert(is_canon_float(t));
            assert(canon_float(t) == t);
        },
        ValueV::Bool(_) => {
        },
        ValueV::Str(_) => {
        },
    }
}

/// Round trip, cell level, delimited text: the field text a well-formed
/// cell renders as coerces back to that cell; the one exception is null in
/// a string column, which returns as the empty string — the delimited-text
/// face of the null-omission rule.
pub proof fn lemma_csv_value_round_trip(v: ValueV, f: FieldV)
    requires
        value_wf(v, f),
    ensures
        coerce_csv(f, csv_value_text(v)) == Some(
            if v is Null && f.data_type == DataType::Utf8 {
                ValueV::Str(Seq::empty())
            } else {
                v
            },
        ),
{
    match v {
        ValueV::Null => {
        },
        ValueV::Int(n) => {
            lemma_parse_fmt_i64(n);
            assert(fmt_int(n).len() > 0) by {
                crate::num::lemma_fmt_nat_val((if n < 0 {
                    -n
                } else {
                    n
                }) as nat);
            }
        },
        ValueV::Float(t) => {
            assert(t.len() > 0) by {
                crate::num::lemma_split_float_digits(t);
                let p = crate::num::split_float(t)->Some_0;
                crate::num::lemma_canon_stable(p);
            }
            assert(canon_float(t) == t);
        },
        ValueV::Bool(b) => {
            if b {
                assert(csv_value_text(v) == lit_true());
                assert(lit_true().len() > 0);
            } else {
                assert(csv_value_text(v) == lit_false());
                assert(lit_false() != lit_true()) by {
                    assert(lit_false().len() != lit_true().len());
                }
            }
        },
        ValueV::Str(s) => {
            if s.len() == 0 {
                assert(coerce_csv(f, s) == Some(ValueV::Str(s)));
            }
        },
    }
}

/// The scanner undoes the escaper: scanning from just inside the opening
/// quote of an escaped string returns the original bytes and stops just
/// past the closing quote.
#[verifier::rlimit(100)]
pub proof fn lemma_scan_esc(pre: Seq<u8>, s: Seq<u8>, rest: Seq<u8>)
    ensures
        scan_string(pre + esc_json(s) + seq!['"' as u8] + rest, pre.len() as int) == Some(
            (s, pre.len() + esc_json(s).len() + 1 as int),
        ),
    decreases s.len(),
{
    let u = pre + esc_json(s) + seq!['"' as u8] + rest;
    let i = pre.len() as int;
    if s.len() == 0 {
        assert(esc_json(s) == Seq::<u8>::empty());
        assert(u[i] == '"' as u8);
    } else {
        let b = s[0];
        let s1 = s.drop_first();
        assert(esc_json(s) == esc_byte(b) + esc_json(s1));
        let pre2 = pre + esc_byte(b);
        lemma_scan_esc(pre2, s1, rest);
        assert(pre2 + esc_json(s1) + seq!['"' as u8] + rest =~= u);
        let j = pre2.len() as int;
        assert(scan_string(u, j) == Some((s1, j + esc_json(s1).len() + 1)));
        assert(seq![b] + s1 =~= s);
        if b == '"' as u8 || b == '\\' as u8 {
            assert(u[i] == '\\' as u8 && i + 1 < u.len());
            assert(u[i + 1] == b);
            assert(j == i + 2);
        } else if b == 8u8 {
            assert(u[i] == '\\' as u8 && u[i + 1] == 'b' as u8 && j == i + 2);
        } else if b == 9u8 {
            assert(u[i] == '\\' as u8 && u[i + 1] == 't' as u8 && j == i + 2);
        } else if b == 10u8 {
            assert(u[i] == '\\' as u8 && u[i + 1] == 'n' as u8 && j == i + 2);
        } else if b == 12u8 {
            assert(u[i] == '\\' as u8 && u[i + 1] == 'f' as u8 && j == i + 2);
        } else if b == 13u8 {
            assert(u[i] == '\\' as u8 && u[i + 1] == 'r' as u8 && j == i + 2);
        } else if b < 0x20 {
            assert(esc_byte(b) =~= seq![
                '\\' as u8,
                'u' as u8,
                '0' as u8,
                '0' as u8,
                hexdig(b as int / 16),
                hexdig(b as int % 16),
            ]);
            assert(u[i] == '\\' as u8 && u[i + 1] == 'u' as u8 && j == i + 6);
            assert(u[i + 2] == '0' as u8 && u[i + 3] == '0' as u8);
            assert(u[i + 4] == hexdig(b as int / 16) && u[i + 5] == hexdig(b as int % 16));
            assert(hexv('0' as u8) == 0);
            assert(hexv(hexdig(b as int / 16)) == b as int / 16);
            assert(hexv(hexdig(b as int % 16)) == b as int % 16);
            let cp = 0 * 0x1000 + 0 * 0x100 + (b as int / 16) * 0x10 + (b as int % 16);
            assert(cp == b) by {
                vstd::arithmetic::div_mod::lemma_fundamental_div_mod(b as int, 16);
            }
            assert(!(0xD800 <= cp < 0xE000));
            assert(utf8_enc(cp) =~= seq![b]);
            assert(scan_string(u, i) == Some((utf8_enc(cp) + s1, j + esc_json(s1).len() + 1)));
            assert(utf8_enc(cp) + s1 =~= s);
        } else {
            assert(esc_byte(b) =~= seq![b]);
            assert(u[i] == b);
            assert(b != '"' as u8 && b != '\\' as u8 && !(b < 0x20));
            assert(j == i + 1);
        }
    }
}

/// A byte that ends a scalar inside a record: the member separator or the
/// closing brace.
pub open spec fn scalar_stop(b: u8) -> bool {
    b == ',' as u8 || b == '}' as u8
}

/// The number lexer consumes exactly the printed decimal text of an
/// integer when a stop byte follows.
pub proof fn lemma_num_end_int(pre: Seq<u8>, n: int, rest: Seq<u8>)
    requires
        i64::MIN <= n <= i64::MAX,
        rest.len() > 0,
        scalar_stop(rest[0]),
    ensures
        num_end(pre + fmt_int(n) + rest, pre.len() as int) == Some((pre.len() + fmt_int(n).len()) as int),
{
    let u = pre + fmt_int(n) + rest;
    let i = pre.len() as int;
    let mag: nat = if n < 0 {
        (-n) as nat
    } else {
        n as nat
    };
    lemma_fmt_nat_val(mag);
    let ds = fmt_nat(mag);
    let j0: int = if n < 0 {
        i + 1
    } else {
        i
    };
    assert(fmt_int(n).len() == (if n < 0 {
        1int
    } else {
        0
    }) + ds.len());
    assert(forall|k: int| 0 <= k < ds.len() ==> u[j0 + k] == ds[k]);
    let e = j0 + ds.len();
    assert(u[e] == rest[0]);
    assert(!is_digit(u[e]) && u[e] != '.' as u8 && u[e] != 'e' as u8 && u[e] != 'E' as u8);
    assert(n < 0 ==> u[i] == '-' as u8);
    assert(n >= 0 ==> u[i] == ds[0] && is_digit(u[i]));
    assert(is_digit(u[j0]));
    if mag == 0 {
        assert(ds =~= seq![('0' as u8 + 0) as u8]);
        assert(u[j0] == '0' as u8);
        assert(e == j0 + 1);
    } else {
        assert(ds[0] != '0' as u8);
        assert(u[j0] != '0' as u8);
        assert(forall|k: int| j0 <= k < e ==> is_digit(#[trigger] u[k]));
        lemma_digit_run_exact(u, j0, e);
    }
    assert(num_end(u, i) == Some(e));
}

/// The number lexer consumes exactly a canonical floating-point literal
/// when a stop byte follows.
#[verifier::rlimit(100)]
pub proof fn lemma_num_end_canon(pre: Seq<u8>, t: Seq<u8>, rest: Seq<u8>)
    requires
        is_canon_float(t),
        rest.len() > 0,
        scalar_stop(rest[0]),
    ensures
        num_end(pre + t + rest, pre.len() as int) == Some((pre.len() + t.len()) as int),
{
    let u = pre + t + rest;
    let i = pre.len() as int;
    lemma_split_float_digits(t);
    let p = split_float(t)->Some_0;
    lemma_canon_stable(p);
    let q = canon_parts(p);
    assert(canon_from_parts(p) == t);
    lemma_strip_leading(p.ip);
    lemma_strip_trailing(p.fp);
    lemma_strip_leading(p.ed);
    let sign: Seq<u8> = if q.neg {
        seq!['-' as u8]
    } else {
        Seq::empty()
    };
    let exp: Seq<u8> = if q.has_exp {
        seq!['e' as u8] + (if q.eneg {
            seq!['-' as u8]
        } else {
            Seq::empty()
        }) + q.ed
    } else {
        Seq::empty()
    };
    assert(t =~= sign + q.ip + seq!['.' as u8] + q.fp + exp);
    assert(q.ip.len() >= 1 && q.fp.len() >= 1);
    assert(all_digits(q.ip) && all_digits(q.fp) && all_digits(q.ed));
    assert(q.ip.len() > 1 ==> q.ip[0] != '0' as u8) by {
        if strip_leading_zeros(p.ip).len() == 0 {
        }
    }
    let i0: int = i + sign.len();
    let i1 = i0 + q.ip.len();
    assert(forall|k: int| 0 <= k < q.ip.len() ==> u[i0 + k] == q.ip[k]);
    assert(u[i1] == '.' as u8);
    assert(q.neg ==> u[i] == '-' as u8);
    assert(!q.neg ==> u[i] == q.ip[0] && is_digit(u[i]));
    assert(is_digit(u[i0]));
    let j1: int = if u[i0] == '0' as u8 {
        i0 + 1
    } else {
        assert(forall|k: int| i0 <= k < i1 ==> is_digit(#[trigger] u[k]));
        lemma_digit_run_exact(u, i0, i1);
        i1
    };
    assert(j1 == i1) by {
        if u[i0] == '0' as u8 {
            assert(q.ip[0] == '0' as u8);
            assert(q.ip.len() == 1);
        }
    }
    let i2 = i1 + 1 + q.fp.len();
    assert(forall|k: int| 0 <= k < q.fp.len() ==> u[i1 + 1 + k] == q.fp[k]);
    assert(forall|k: int| i1 + 1 <= k < i2 ==> is_digit(#[trigger] u[k]));
    if q.has_exp {
        assert(u[i2] == 'e' as u8);
        assert(!is_digit(u[i2]));
        lemma_digit_run_exact(u, i1 + 1, i2);
        assert(digit_run_end(u, i1 + 1) == i2);
        assert(i2 > i1 + 1);
        let j0: int = if q.eneg {
            i2 + 2
        } else {
            i2 + 1
        };
        let e = i + t.len();
        assert(q.ed.len() >= 1);
        assert(forall|k: int| 0 <= k < q.ed.len() ==> u[j0 + k] == q.ed[k]);
        assert(j0 + q.ed.len() == e);
        assert(u[e] == rest[0]);
        assert(forall|k: int| j0 <= k < e ==> is_digit(#[trigger] u[k]));
        lemma_digit_run_exact(u, j0, e);
        assert(q.eneg ==> u[i2 + 1] == '-' as u8);
        assert(!q.eneg ==> u[i2 + 1] == q.ed[0] && is_digit(u[i2 + 1]));
        assert(num_end(u, i) == Some(e));
    } else {
        let e = i + t.len();
        assert(i2 == e);
        assert(u[e] == rest[0]);
        assert(!is_digit(u[e]));
        lemma_digit_run_exact(u, i1 + 1, i2);
        assert(digit_run_end(u, i1 + 1) == i2);
        assert(i2 > i1 + 1);
        assert(u[e] != 'e' as u8 && u[e] != 'E' as u8);
        assert(num_end(u, i) == Some(e));
    }
}

/// The scalar scanner undoes the value printer: scanning at the start of
/// a non-null cell's value text yields that cell's scalar and stops at
/// the following stop byte.
#[verifier::rlimit(100)]
pub proof fn lemma_scan_scalar_of(pre: Seq<u8>, v: ValueV, f: FieldV, rest: Seq<u8>)
    requires
        value_wf(v, f),
        !(v is Null),
        rest.len() > 0,
        scalar_stop(rest[0]),
    ensures
        scan_scalar(pre + json_value_text(v) + rest, pre.len() as int) == Some(
            (jsv_of(v), (pre.len() + json_value_text(v).len()) as int),
        ),
{
    let u = pre + json_value_text(v) + rest;
    let i = pre.len() as int;
    match v {
        ValueV::Null => {
        },
        ValueV::Int(n) => {
            lemma_num_end_int(pre, n, rest);
            let mag: nat = if n < 0 {
                (-n) as nat
            } else {
                n as nat
            };
            lemma_fmt_nat_val(mag);
            assert(u[i] == '-' as u8 || is_digit(u[i]));
            assert(u[i] != '"' as u8 && u[i] != 't' as u8 && u[i] != 'f' as u8 && u[i]
                != 'n' as u8);
            assert(u.subrange(i, i + fmt_int(n).len()) =~= fmt_int(n));
        },
        ValueV::Float(t) => {
            lemma_num_end_canon(pre, t, rest);
            lemma_split_float_digits(t);
            let p = split_float(t)->Some_0;
            lemma_canon_stable(p);
            lemma_strip_leading(p.ip);
            assert(t[0] == '-' as u8 || is_digit(t[0])) by {
                let q = canon_parts(p);
                assert(canon_from_parts(p) == t);
                if !q.neg {
                    assert(t[0] == q.ip[0]);
                }
            }
            assert(u[i] == t[0]);
            assert(u[i] != '"' as u8 && u[i] != 't' as u8 && u[i] != 'f' as u8 && u[i]
                != 'n' as u8);
            assert(u.subrange(i, i + t.len()) =~= t);
        },
        ValueV::Bool(b) => {
            if b {
                assert(json_value_text(v) == lit_true());
                assert(u[i] == 't' as u8);
                assert(i + 4 <= u.len());
                assert(u.subrange(i, i + 4) =~= lit_true());
            } else {
                assert(json_value_text(v) == lit_false());
                assert(u[i] == 'f' as u8);
                assert(i + 5 <= u.len());
                assert(u.subrange(i, i + 5) =~= lit_false());
            }
        },
        ValueV::Str(s) => {
            assert(json_value_text(v) =~= seq!['"' as u8] + (esc_json(s) + seq!['"' as u8]));
            assert(u[i] == '"' as u8);
            lemma_scan_esc(pre + seq!['"' as u8], s, rest);
            assert(pre + seq!['"' as u8] + esc_json(s) + seq!['"' as u8] + rest =~= u);
            assert(scan_string(u, i + 1) == Some((s, i + 1 + esc_json(s).len() + 1 as int)));
        },
    }
}

/// Some cell at or after `c` is non-null.
pub open spec fn any_present(row: Seq<ValueV>, c: int) -> bool {
    exists|k: int| c <= k < row.len() && !(#[trigger] row[k] is Null)
}

/// The key/scalar pairs the non-null cells from `c` on render as.
pub open spec fn pairs_from(schema: Seq<FieldV>, row: Seq<ValueV>, c: int) -> Seq<PairV>
    decreases row.len() - c,
{
    if c < 0 || c >= row.len() {
        Seq::empty()
    } else if row[c] is Null {
        pairs_from(schema, row, c + 1)
    } else {
        seq![PairV { key: schema[c].name, val: jsv_of(row[c]) }] + pairs_from(schema, row, c + 1)
    }
}

/// A record's members with the leading-separator flag cleared carry one
/// separator before the remaining members, when any remain.
pub proof fn lemma_members_sep(schema: Seq<FieldV>, row: Seq<ValueV>, c: int)
    requires
        0 <= c,
    ensures
        any_present(row, c) ==> enc_members(schema, row, c, false) == seq![',' as u8]
            + enc_members(schema, row, c, true),
        !any_present(row, c) ==> enc_members(schema, row, c, false) == seq!['}' as u8]
            && enc_members(schema, row, c, true) == seq!['}' as u8] && pairs_from(schema, row, c)
            == Seq::<PairV>::empty(),
    decreases row.len() - c,
{
    if c < row.len() {
        lemma_members_sep(schema, row, c + 1);
        if row[c] is Null {
            assert(any_present(row, c) ==> any_present(row, c + 1)) by {
                if any_present(row, c) {
                    let k = choose|k: int| c <= k < row.len() && !(row[k] is Null);
                    assert(c + 1 <= k < row.len() && !(row[k] is Null));
                }
            }
        } else {
            assert(any_present(row, c));
        }
    }
}

/// A record with a present member starts that member with a quote.
pub proof fn lemma_members_head(schema: Seq<FieldV>, row: Seq<ValueV>, c: int)
    requires
        0 <= c,
        any_present(row, c),
        forall|k: int| 0 <= k < row.len() ==> value_wf(#[trigger] row[k], schema[k]),
    ensures
        enc_members(schema, row, c, true).len() > 0,
        enc_members(schema, row, c, true)[0] == '"' as u8,
    decreases row.len() - c,
{
    if c < row.len() {
        if row[c] is Null {
            assert(any_present(row, c + 1)) by {
                let k = choose|k: int| c <= k < row.len() && !(row[k] is Null);
                assert(c + 1 <= k < row.len() && !(row[k] is Null));
            }
            lemma_members_head(schema, row, c + 1);
        }
    }
}

/// One member's text scans as its key and scalar, with no whitespace in
/// between.
#[verifier::rlimit(100)]
pub proof fn lemma_scan_member(pre: Seq<u8>, name: Seq<u8>, v: ValueV, f: FieldV, stop: Seq<u8>)
    requires
        value_wf(v, f),
        !(v is Null),
        stop.len() > 0,
        scalar_stop(stop[0]),
    ensures
        ({
            let m = seq!['"' as u8] + esc_json(name) + seq!['"' as u8, ':' as u8]
                + json_value_text(v);
            let u = pre + m + stop;
            let i = pre.len() as int;
            let i2 = i + 2 + esc_json(name).len();
            let i5 = (pre + m).len() as int;
            &&& u[i] == '"' as u8
            &&& skip_ws(u, i) == i
            &&& scan_string(u, i + 1) == Some((name, i2))
            &&& u[i2] == ':' as u8
            &&& skip_ws(u, i2) == i2
            &&& skip_ws(u, i2 + 1) == i2 + 1
            &&& scan_scalar(u, i2 + 1) == Some((jsv_of(v), i5))
            &&& u[i5] == stop[0]
            &&& skip_ws(u, i5) == i5
        }),
{
    let m = seq!['"' as u8] + esc_json(name) + seq!['"' as u8, ':' as u8] + json_value_text(v);
    let u = pre + m + stop;
    let i = pre.len() as int;
    let i2 = i + 2 + esc_json(name).len();
    let vt = json_value_text(v);
    let i5 = (pre + m).len() as int;
    assert(u[i] == '"' as u8);
    assert(!is_ws('"' as u8));
    lemma_scan_esc(pre + seq!['"' as u8], name, seq![':' as u8] + vt + stop);
    assert(pre + seq!['"' as u8] + esc_json(name) + seq!['"' as u8] + (seq![':' as u8] + vt + stop)
        =~= u);
    assert(scan_string(u, i + 1) == Some((name, i2)));
    assert(u[i2] == ':' as u8);
    assert(!is_ws(':' as u8));
    lemma_scan_scalar_of(pre + m.take(m.len() - vt.len()), v, f, stop);
    assert(pre + m.take(m.len() - vt.len()) + vt + stop =~= u);
    assert((pre + m.take(m.len() - vt.len())).len() == i2 + 1);
    assert(scan_scalar(u, i2 + 1) == Some((jsv_of(v), i5)));
    assert(u[i5] == stop[0]);
    assert(!is_ws(stop[0]));
    // The value text never opens with whitespace.
    assert(vt.len() > 0 && !is_ws(vt[0])) by {
        match v {
            ValueV::Null => {
            },
            ValueV::Int(n) => {
                lemma_fmt_nat_val((if n < 0 {
                    -n
                } else {
                    n
                }) as nat);
                assert(vt[0] == '-' as u8 || is_digit(vt[0]));
            },
            ValueV::Float(t) => {
                lemma_split_float_digits(t);
                let p = split_float(t)->Some_0;
                lemma_canon_stable(p);
                lemma_strip_leading(p.ip);
                let q = canon_parts(p);
                assert(canon_from_parts(p) == t);
                if !q.neg {
                    assert(t[0] == q.ip[0]);
                    assert(is_digit(t[0]));
                }
                assert(vt[0] == '-' as u8 || is_digit(vt[0]));
            },
            ValueV::Bool(b) => {
                assert(vt[0] == 't' as u8 || vt[0] == 'f' as u8);
            },
            ValueV::Str(_) => {
                assert(vt[0] == '"' as u8);
            },
        }
    }
    assert(u[i2 + 1] == vt[0]);
}

/// The member parser undoes the member printer: parsing at the first
/// member of the encoded tail returns exactly the pairs of the remaining
/// non-null cells and stops just past the closing brace.
#[verifier::rlimit(100)]
pub proof fn lemma_parse_members_enc(
    schema: Seq<FieldV>,
    row: Seq<ValueV>,
    c: int,
    pre: Seq<u8>,
    rest: Seq<u8>,
)
    requires
        0 <= c,
        row.len() == schema.len(),
        any_present(row, c),
        forall|k: int| 0 <= k < row.len() ==> value_wf(#[trigger] row[k], schema[k]),
    ensures
        parse_members(pre + enc_members(schema, row, c, true) + rest, pre.len() as int) == Some(
            (pairs_from(schema, row, c), (pre.len() + enc_members(schema, row, c, true).len()) as int),
        ),
    decreases row.len() - c,
{
    let enc = enc_members(schema, row, c, true);
    let u = pre + enc + rest;
    let i = pre.len() as int;
    if row[c] is Null {
        assert(any_present(row, c + 1)) by {
            let k = choose|k: int| c <= k < row.len() && !(row[k] is Null);
            assert(c + 1 <= k < row.len() && !(row[k] is Null));
        }
        lemma_parse_members_enc(schema, row, c + 1, pre, rest);
    } else {
        let name = schema[c].name;
        let vt = json_value_text(row[c]);
        let m = seq!['"' as u8] + esc_json(name) + seq!['"' as u8, ':' as u8] + vt;
        let tail = enc_members(schema, row, c + 1, false);
        assert(enc == m + tail);
        assert(u =~= pre + m + (tail + rest));
        lemma_members_sep(schema, row, c + 1);
        let stop: Seq<u8> = tail + rest;
        assert(stop.len() > 0 && scalar_stop(stop[0])) by {
            if any_present(row, c + 1) {
                assert(tail[0] == ',' as u8);
            } else {
                assert(tail[0] == '}' as u8);
            }
        }
        lemma_scan_member(pre, name, row[c], schema[c], stop);
        let i2 = i + 2 + esc_json(name).len();
        let i5 = (pre + m).len() as int;
        assert(skip_ws(u, i) == i && u[i] == '"' as u8);
        assert(scan_string(u, i + 1) == Some((name, i2)));
        assert(u[i2] == ':' as u8 && skip_ws(u, i2) == i2 && skip_ws(u, i2 + 1) == i2 + 1);
        assert(scan_scalar(u, i2 + 1) == Some((jsv_of(row[c]), i5)));
        assert(u[i5] == stop[0] && skip_ws(u, i5) == i5);
        let p = PairV { key: name, val: jsv_of(row[c]) };
        if any_present(row, c + 1) {
            assert(u[i5] == ',' as u8);
            assert(tail == seq![',' as u8] + enc_members(schema, row, c + 1, true));
            lemma_parse_members_enc(schema, row, c + 1, pre + m + seq![',' as u8], rest);
            assert(pre + m + seq![',' as u8] + enc_members(schema, row, c + 1, true) + rest =~= u);
            let end = (pre + m + seq![',' as u8]).len() + enc_members(schema, row, c + 1, true).len();
            assert(parse_members(u, i5 + 1) == Some((pairs_from(schema, row, c + 1), end as int)));
            assert(i5 >= i);
            assert(parse_members(u, i) == Some(
                (seq![p] + pairs_from(schema, row, c + 1), end as int),
            ));
            assert(seq![p] + pairs_from(schema, row, c + 1) == pairs_from(schema, row, c));
            assert(end == pre.len() + enc.len());
        } else {
            assert(u[i5] == '}' as u8);
            assert(tail == seq!['}' as u8]);
            assert(pairs_from(schema, row, c + 1) == Seq::<PairV>::empty());
            assert(parse_members(u, i) == Some((seq![p], i5 + 1)));
            assert(seq![p] + Seq::<PairV>::empty() =~= seq![p]);
            assert(pairs_from(schema, row, c) =~= seq![p]);
            assert(i5 + 1 == pre.len() + enc.len());
        }
    }
}

/// The line parser undoes the record printer: one encoded record line
/// parses to exactly the pairs of its non-null cells.
pub proof fn lemma_parse_line(schema: Seq<FieldV>, row: Seq<ValueV>)
    requires
        row.len() == schema.len(),
        forall|k: int| 0 <= k < row.len() ==> value_wf(#[trigger] row[k], schema[k]),
    ensures
        parse_record_line(json_line(schema, row)) == Some(pairs_from(schema, row, 0)),
{
    let l = json_line(schema, row);
    assert(l[0] == '{' as u8);
    assert(!is_ws('{' as u8));
    assert(skip_ws(l, 0) == 0);
    lemma_members_sep(schema, row, 0);
    if any_present(row, 0) {
        lemma_members_head(schema, row, 0);
        assert(l[1] == '"' as u8);
        assert(skip_ws(l, 1) == 1);
        lemma_parse_members_enc(schema, row, 0, seq!['{' as u8], Seq::empty());
        assert(seq!['{' as u8] + enc_members(schema, row, 0, true) + Seq::<u8>::empty() =~= l);
        assert(parse_members(l, 1) == Some(
            (pairs_from(schema, row, 0), (1 + enc_members(schema, row, 0, true).len()) as int),
        ));
        assert(1 + enc_members(schema, row, 0, true).len() == l.len());
        assert(skip_ws(l, l.len() as int) == l.len());
    } else {
        assert(enc_members(schema, row, 0, true) == seq!['}' as u8]);
        assert(l =~= seq!['{' as u8, '}' as u8]);
        assert(l[1] == '}' as u8);
        assert(skip_ws(l, 1) == 1);
        assert(skip_ws(l, 2) == 2 == l.len());
        assert(parse_record_line(l) == Some(Seq::<PairV>::empty()));
    }
}

/// Looking a key up in concatenated pairs prefers the later part.
pub proof fn lemma_lookup_concat(a: Seq<PairV>, b: Seq<PairV>, key: Seq<u8>)
    ensures
        lookup_pair(a + b, key) == (if lookup_pair(b, key) is Some {
            lookup_pair(b, key)
        } else {
            lookup_pair(a, key)
        }),
    decreases b.len(),
{
    if b.len() == 0 {
        assert(a + b =~= a);
    } else {
        assert((a + b).last() == b.last());
        assert((a + b).drop_last() =~= a + b.drop_last());
        lemma_lookup_concat(a, b.drop_last(), key);
    }
}

/// No two schema fields share a name.
pub open spec fn distinct_names(schema: Seq<FieldV>) -> bool {
    forall|j: int, k: int|
        0 <= j < k < schema.len() ==> (#[trigger] schema[j]).name != (#[trigger] schema[k]).name
}

/// A key named by no remaining field is absent from the rendered pairs.
pub proof fn lemma_lookup_absent(schema: Seq<FieldV>, row: Seq<ValueV>, c: int, key: Seq<u8>)
    requires
        row.len() == schema.len(),
        0 <= c,
        forall|k: int| c <= k < row.len() ==> (#[trigger] schema[k]).name != key,
    ensures
        lookup_pair(pairs_from(schema, row, c), key) is None,
    decreases row.len() - c,
{
    if c < row.len() {
        lemma_lookup_absent(schema, row, c + 1, key);
        if !(row[c] is Null) {
            let p = PairV { key: schema[c].name, val: jsv_of(row[c]) };
            lemma_lookup_concat(seq![p], pairs_from(schema, row, c + 1), key);
            assert(seq![p].drop_last() =~= Seq::<PairV>::empty());
            assert(lookup_pair(Seq::<PairV>::empty(), key) is None);
            assert(seq![p].last() == p);
            assert(p.key != key);
            assert(lookup_pair(seq![p], key) is None);
            assert(pairs_from(schema, row, c) == seq![p] + pairs_from(schema, row, c + 1));
        } else {
            assert(pairs_from(schema, row, c) == pairs_from(schema, row, c + 1));
        }
    } else {
        assert(pairs_from(schema, row, c) =~= Seq::<PairV>::empty());
        assert(lookup_pair(Seq::<PairV>::empty(), key) is None);
    }
}

/// Looking a field's name up in the rendered pairs finds exactly that
/// field's scalar, or nothing when the cell was null.
pub proof fn lemma_lookup_pairs_from(schema: Seq<FieldV>, row: Seq<ValueV>, c: int, k: int)
    requires
        row.len() == schema.len(),
        distinct_names(schema),
        0 <= c <= k < row.len(),
    ensures
        lookup_pair(pairs_from(schema, row, c), schema[k].name) == (if row[k] is Null {
            None
        } else {
            Some(jsv_of(row[k]))
        }),
    decreases row.len() - c,
{
    let key = schema[k].name;
    if c == k {
        lemma_lookup_absent(schema, row, c + 1, key);
        if !(row[c] is Null) {
            let p = PairV { key, val: jsv_of(row[c]) };
            lemma_lookup_concat(seq![p], pairs_from(schema, row, c + 1), key);
            assert(seq![p].last() == p);
            assert(lookup_pair(seq![p], key) == Some(p.val));
            assert(pairs_from(schema, row, c) == seq![p] + pairs_from(schema, row, c + 1));
        } else {
            assert(pairs_from(schema, row, c) == pairs_from(schema, row, c + 1));
        }
    } else {
        lemma_lookup_pairs_from(schema, row, c + 1, k);
        if !(row[c] is Null) {
            let p = PairV { key: schema[c].name, val: jsv_of(row[c]) };
            lemma_lookup_concat(seq![p], pairs_from(schema, row, c + 1), key);
            assert(pairs_from(schema, row, c) == seq![p] + pairs_from(schema, row, c + 1));
            if row[k] is Null {
                assert(seq![p].last() == p);
                assert(p.key != key);
                assert(seq![p].drop_last() =~= Seq::<PairV>::empty());
                assert(lookup_pair(Seq::<PairV>::empty(), key) is None);
                assert(lookup_pair(seq![p], key) is None);
            }
        } else {
            assert(pairs_from(schema, row, c) == pairs_from(schema, row, c + 1));
        }
    }
}

/// Decoding the rendered pairs of a well-formed row against its own
/// schema restores the row, nulls included.
pub proof fn lemma_row_from_pairs(schema: Seq<FieldV>, row: Seq<ValueV>, c: int)
    requires
        row_wf(row, schema),
        distinct_names(schema),
        0 <= c <= row.len(),
    ensures
        sp_json_row(schema, pairs_from(schema, row, 0), c) == Some(row.skip(c)),
    decreases row.len() - c,
{
    if c == row.len() {
        assert(row.skip(c) =~= Seq::<ValueV>::empty());
    } else {
        lemma_row_from_pairs(schema, row, c + 1);
        lemma_lookup_pairs_from(schema, row, 0, c);
        assert(value_wf(row[c], schema[c]));
        if row[c] is Null {
            assert(coerce_json(schema[c], pairs_from(schema, row, 0)) == Some(ValueV::Null));
        } else {
            lemma_json_value_round_trip(row[c], schema[c]);
        }
        assert(seq![row[c]] + row.skip(c + 1) =~= row.skip(c));
    }
}

/// Free of line terminators.
pub open spec fn nl_free(s: Seq<u8>) -> bool {
    forall|k: int| 0 <= k < s.len() ==> (#[trigger] s[k]) != 10u8
}

pub proof fn lemma_esc_nl_free(s: Seq<u8>)
    ensures
        nl_free(esc_json(s)),
    decreases s.len(),
{
    if s.len() > 0 {
        lemma_esc_nl_free(s.drop_first());
        let b = s[0];
        assert(nl_free(esc_byte(b))) by {
            if !(b == '"' as u8 || b == '\\' as u8 || b == 8u8 || b == 9u8 || b == 10u8 || b
                == 12u8 || b == 13u8) && b < 0x20 {
                assert(esc_byte(b)[4] == hexdig(b as int / 16) && esc_byte(b)[5] == hexdig(
                    b as int % 16,
                ));
                assert(hexdig(b as int / 16) != 10u8);
                assert(hexdig(b as int % 16) != 10u8);
            }
        }
        assert(forall|k: int|
            0 <= k < esc_json(s).len() ==> (#[trigger] esc_json(s)[k]) != 10u8);
    }
}

/// Canonical floating-point text holds no line terminator.
#[verifier::rlimit(100)]
pub proof fn lemma_canon_nl_free(t: Seq<u8>)
    requires
        is_canon_float(t),
    ensures
        nl_free(t),
{
    lemma_split_float_digits(t);
    let p = split_float(t)->Some_0;
    lemma_canon_stable(p);
    let q = canon_parts(p);
    assert(canon_from_parts(p) == t);
    lemma_strip_leading(p.ip);
    lemma_strip_trailing(p.fp);
    lemma_strip_leading(p.ed);
    let sign: Seq<u8> = if q.neg {
        seq!['-' as u8]
    } else {
        Seq::empty()
    };
    let exp: Seq<u8> = if q.has_exp {
        seq!['e' as u8] + (if q.eneg {
            seq!['-' as u8]
        } else {
            Seq::empty()
        }) + q.ed
    } else {
        Seq::empty()
    };
    assert(t =~= sign + q.ip + seq!['.' as u8] + q.fp + exp);
    assert(all_digits(q.ip) && all_digits(q.fp) && all_digits(q.ed));
    assert(forall|k: int| 0 <= k < t.len() ==> (#[trigger] t[k]) != 10u8);
}

/// A non-null cell's value text holds no line terminator.
pub proof fn lemma_vt_nl_free(v: ValueV, f: FieldV)
    requires
        value_wf(v, f),
        !(v is Null),
    ensures
        nl_free(json_value_text(v)),
{
    match v {
        ValueV::Null => {
        },
        ValueV::Int(n) => {
            lemma_fmt_nat_val((if n < 0 {
                -n
            } else {
                n
            }) as nat);
            assert(forall|k: int|
                0 <= k < fmt_int(n).len() ==> (#[trigger] fmt_int(n)[k]) != 10u8);
        },
        ValueV::Float(t) => {
            lemma_canon_nl_free(t);
        },
        ValueV::Bool(b) => {
        },
        ValueV::Str(s) => {
            lemma_esc_nl_free(s);
            assert(forall|k: int|
                0 <= k < json_value_text(v).len() ==> (#[trigger] json_value_text(v)[k]) != 10u8);
        },
    }
}

/// An encoded record line holds no line terminator.
pub proof fn lemma_members_nl_free(schema: Seq<FieldV>, row: Seq<ValueV>, c: int, first: bool)
    requires
        0 <= c,
        row.len() == schema.len(),
        forall|k: int| 0 <= k < row.len() ==> value_wf(#[trigger] row[k], schema[k]),
    ensures
        nl_free(enc_members(schema, row, c, first)),
    decreases row.len() - c,
{
    if c < row.len() {
        if row[c] is Null {
            lemma_members_nl_free(schema, row, c + 1, first);
        } else {
            lemma_members_nl_free(schema, row, c + 1, false);
            lemma_esc_nl_free(schema[c].name);
            lemma_vt_nl_free(row[c], schema[c]);
            assert(forall|k: int|
                0 <= k < enc_members(schema, row, c, first).len() ==> (#[trigger] enc_members(
                    schema,
                    row,
                    c,
                    first,
                )[k]) != 10u8);
        }
    }
}

pub proof fn lemma_line_nl_free(schema: Seq<FieldV>, row: Seq<ValueV>)
    requires
        row.len() == schema.len(),
        forall|k: int| 0 <= k < row.len() ==> value_wf(#[trigger] row[k], schema[k]),
    ensures
        nl_free(json_line(schema, row)),
{
    lemma_members_nl_free(schema, row, 0, true);
    assert(forall|k: int|
        0 <= k < json_line(schema, row).len() ==> (#[trigger] json_line(schema, row)[k]) != 10u8);
}

pub proof fn lemma_split_shift(a: Seq<u8>, b: Seq<u8>, j: int, cur: Seq<u8>)
    requires
        0 <= j <= b.len(),
    ensures
        split_rec(a + b, a.len() + j, cur) == split_rec(b, j, cur),
    decreases b.len() - j,
{
    if j < b.len() {
        assert((a + b)[a.len() + j] == b[j]);
        if b[j] == '\n' as u8 {
            lemma_split_shift(a, b, j + 1, Seq::empty());
        } else {
            lemma_split_shift(a, b, j + 1, cur.push(b[j]));
        }
    }
}

/// Splitting a terminated chunk followed by more text splits each part.
pub proof fn lemma_split_concat(a: Seq<u8>, b: Seq<u8>, i: int, cur: Seq<u8>)
    requires
        0 <= i < a.len(),
        a.last() == 10u8,
    ensures
        split_rec(a + b, i, cur) == split_rec(a, i, cur).drop_last() + split_rec(
            b,
            0,
            Seq::empty(),
        ),
    decreases a.len() - i,
{
    let u = a + b;
    assert(u[i] == a[i]);
    if a[i] == 10u8 {
        if i + 1 == a.len() {
            lemma_split_shift(a, b, 0, Seq::empty());
            assert(split_rec(a, i + 1, Seq::<u8>::empty()) =~= seq![Seq::<u8>::empty()]);
            assert(split_rec(a, i, cur) =~= seq![cur, Seq::<u8>::empty()]);
            assert(split_rec(a, i, cur).drop_last() =~= seq![cur]);
            assert(split_rec(u, i, cur) == seq![cur] + split_rec(b, 0, Seq::empty()));
        } else {
            lemma_split_concat(a, b, i + 1, Seq::empty());
            crate::jsontext::lemma_split_rec_len(a, i + 1, Seq::empty());
            assert((seq![cur] + split_rec(a, i + 1, Seq::empty())).drop_last() =~= seq![cur]
                + split_rec(a, i + 1, Seq::empty()).drop_last());
            assert(seq![cur] + (split_rec(a, i + 1, Seq::empty()).drop_last() + split_rec(
                b,
                0,
                Seq::empty(),
            )) =~= (seq![cur] + split_rec(a, i + 1, Seq::empty()).drop_last()) + split_rec(
                b,
                0,
                Seq::empty(),
            ));
        }
    } else {
        assert(i != a.len() - 1);
        lemma_split_concat(a, b, i + 1, cur.push(a[i]));
    }
}

/// Lines of a terminated chunk followed by more text are the two parts'
/// lines.
pub proof fn lemma_lines_concat(a: Seq<u8>, b: Seq<u8>)
    requires
        a.len() > 0,
        a.last() == 10u8,
    ensures
        lines_of(a + b) == lines_of(a) + lines_of(b),
{
    lemma_split_concat(a, b, 0, Seq::empty());
    let sa = split_rec(a, 0, Seq::<u8>::empty());
    let sb = split_rec(b, 0, Seq::<u8>::empty());
    crate::jsontext::lemma_split_rec_len(a, 0, Seq::empty());
    crate::jsontext::lemma_split_rec_len(b, 0, Seq::empty());
    assert(sa.last().len() == 0) by {
        lemma_split_last_empty(a, 0, Seq::empty());
    }
    assert(lines_of(a) == sa.drop_last());
    let su = split_rec(a + b, 0, Seq::<u8>::empty());
    assert(su == sa.drop_last() + sb);
    assert(su.len() >= 1);
    assert(su.last() == sb.last());
    if sb.last().len() == 0 {
        assert(lines_of(a + b) == su.drop_last());
        assert(su.drop_last() =~= sa.drop_last() + sb.drop_last());
    } else {
        assert(lines_of(a + b) == su);
    }
}

/// A terminated chunk's final split piece is empty.
pub proof fn lemma_split_last_empty(a: Seq<u8>, i: int, cur: Seq<u8>)
    requires
        0 <= i < a.len(),
        a.last() == 10u8,
    ensures
        split_rec(a, i, cur).last().len() == 0,
    decreases a.len() - i,
{
    if a[i] == 10u8 {
        if i + 1 == a.len() {
            assert(split_rec(a, i + 1, Seq::empty()) =~= seq![Seq::<u8>::empty()]);
        } else {
            lemma_split_last_empty(a, i + 1, Seq::empty());
            crate::jsontext::lemma_split_rec_len(a, i + 1, Seq::empty());
        }
    } else {
        assert(i != a.len() - 1);
        lemma_split_last_empty(a, i + 1, cur.push(a[i]));
    }
}

/// One terminated line splits as itself.
pub proof fn lemma_lines_single(l: Seq<u8>)
    requires
        nl_free(l),
    ensures
        lines_of(l + seq![10u8]) == seq![l],
{
    lemma_lines_single_rec(l, 0, Seq::empty());
    assert(Seq::<u8>::empty() + l.skip(0) =~= l);
    let s = split_rec(l + seq![10u8], 0, Seq::<u8>::empty());
    assert(s =~= seq![l, Seq::<u8>::empty()]);
    assert(s.last().len() == 0);
    assert(s.drop_last() =~= seq![l]);
}

proof fn lemma_lines_single_rec(l: Seq<u8>, i: int, cur: Seq<u8>)
    requires
        nl_free(l),
        0 <= i <= l.len(),
    ensures
        split_rec(l + seq![10u8], i, cur) == seq![cur + l.skip(i), Seq::<u8>::empty()],
    decreases l.len() - i,
{
    let u = l + seq![10u8];
    if i == l.len() {
        assert(u[i] == 10u8);
        assert(split_rec(u, i + 1, Seq::empty()) =~= seq![Seq::<u8>::empty()]);
        assert(cur + l.skip(i) =~= cur);
        assert(split_rec(u, i, cur) =~= seq![cur + l.skip(i), Seq::<u8>::empty()]);
    } else {
        assert(u[i] == l[i]);
        assert(l[i] != 10u8);
        lemma_lines_single_rec(l, i + 1, cur.push(l[i]));
        assert(cur.push(l[i]) + l.skip(i + 1) =~= cur + l.skip(i));
    }
}

/// The lines of an encoded stream are the encoded record lines, in order.
pub proof fn lemma_json_stream_lines(schema: Seq<FieldV>, rows: Seq<Seq<ValueV>>, r: int)
    requires
        rows_wf(rows, schema),
        0 <= r <= rows.len(),
    ensures
        lines_of(enc_json_rows(schema, rows, r)) =~= Seq::new(
            (rows.len() - r) as nat,
            |k: int| json_line(schema, rows[r + k]),
        ),
    decreases rows.len() - r,
{
    if r == rows.len() {
        assert(split_rec(Seq::<u8>::empty(), 0, Seq::empty()) =~= seq![Seq::<u8>::empty()]);
        assert(lines_of(Seq::<u8>::empty()) =~= Seq::<Seq<u8>>::empty());
    } else {
        lemma_json_stream_lines(schema, rows, r + 1);
        assert(row_wf(rows[r], schema));
        lemma_line_nl_free(schema, rows[r]);
        let a = enc_json_row(schema, rows[r]);
        assert(a =~= json_line(schema, rows[r]) + seq![10u8]);
        assert(a.len() > 0 && a.last() == 10u8);
        lemma_lines_concat(a, enc_json_rows(schema, rows, r + 1));
        lemma_lines_single(json_line(schema, rows[r]));
        assert(lines_of(a) == seq![json_line(schema, rows[r])]);
    }
}

/// Round trip, stream level, structured records: decoding the encoding of
/// well-formed rows against the stream's own schema restores the schema
/// and every row exactly — nulls were omitted on the way out and return
/// as nulls.
pub proof fn lemma_json_round_trip(schema: Seq<FieldV>, rows: Seq<Seq<ValueV>>, sample: int)
    requires
        rows_wf(rows, schema),
        distinct_names(schema),
    ensures
        sp_json_decode(enc_json_rows(schema, rows, 0), Some(schema), sample) == Ok::<
            (Seq<FieldV>, Seq<Seq<ValueV>>),
            ErrKind,
        >((schema, rows)),
{
    lemma_json_stream_lines(schema, rows, 0);
    let lines = lines_of(enc_json_rows(schema, rows, 0));
    let recs = Seq::new(rows.len() as nat, |k: int| pairs_from(schema, rows[k], 0));
    lemma_parse_all_of(schema, rows, lines, recs, 0);
    lemma_rows_from_recs(schema, rows, recs, 0);
    assert(parse_all(lines, 0) == Some(recs.skip(0)));
    assert(recs.skip(0) =~= recs);
    assert(sp_json_rows(schema, recs, 0) == Some(rows.skip(0)));
    assert(rows.skip(0) =~= rows);
}

proof fn lemma_parse_all_of(
    schema: Seq<FieldV>,
    rows: Seq<Seq<ValueV>>,
    lines: Seq<Seq<u8>>,
    recs: Seq<Seq<PairV>>,
    i: int,
)
    requires
        rows_wf(rows, schema),
        lines =~= Seq::new(rows.len() as nat, |k: int| json_line(schema, rows[k])),
        recs == Seq::new(rows.len() as nat, |k: int| pairs_from(schema, rows[k], 0)),
        0 <= i <= rows.len(),
    ensures
        parse_all(lines, i) == Some(recs.skip(i)),
    decreases rows.len() - i,
{
    if i == rows.len() {
        assert(recs.skip(i) =~= Seq::<Seq<PairV>>::empty());
    } else {
        lemma_parse_all_of(schema, rows, lines, recs, i + 1);
        assert(row_wf(rows[i], schema));
        lemma_parse_line(schema, rows[i]);
        assert(lines[i] == json_line(schema, rows[i]));
        assert(seq![recs[i]] + recs.skip(i + 1) =~= recs.skip(i));
    }
}

proof fn lemma_rows_from_recs(
    schema: Seq<FieldV>,
    rows: Seq<Seq<ValueV>>,
    recs: Seq<Seq<PairV>>,
    r: int,
)
    requires
        rows_wf(rows, schema),
        distinct_names(schema),
        recs == Seq::new(rows.len() as nat, |k: int| pairs_from(schema, rows[k], 0)),
        0 <= r <= rows.len(),
    ensures
        sp_json_rows(schema, recs, r) == Some(rows.skip(r)),
    decreases rows.len() - r,
{
    if r == rows.len() {
        assert(rows.skip(r) =~= Seq::<Seq<ValueV>>::empty());
    } else {
        lemma_rows_from_recs(schema, rows, recs, r + 1);
        assert(row_wf(rows[r], schema));
        lemma_row_from_pairs(schema, rows[r], 0);
        assert(rows[r].skip(0) =~= rows[r]);
        assert(seq![rows[r]] + rows.skip(r + 1) =~= rows.skip(r));
    }
}

/// The classification of a non-null cell's rendered scalar is the cell's
/// own column type.
pub proof fn lemma_classify_of(v: ValueV, f: FieldV)
    requires
        value_wf(v, f),
        !(v is Null),
    ensures
        crate::infer::classify_jsv(jsv_of(v)) == Some(f.data_type),
{
    match v {
        ValueV::Null => {
        },
        ValueV::Int(n) => {
            lemma_fmt_nat_val((if n < 0 {
                -n
            } else {
                n
            }) as nat);
            assert(!crate::infer::num_is_float(fmt_int(n))) by {
                assert(forall|k: int|
                    0 <= k < fmt_int(n).len() ==> !(#[trigger] fmt_int(n)[k] == '.' as u8
                        || fmt_int(n)[k] == 'e' as u8 || fmt_int(n)[k] == 'E' as u8));
            }
        },
        ValueV::Float(t) => {
            lemma_split_float_digits(t);
            let p = split_float(t)->Some_0;
            lemma_canon_stable(p);
            let q = canon_parts(p);
            assert(canon_from_parts(p) == t);
            let sign: Seq<u8> = if q.neg {
                seq!['-' as u8]
            } else {
                Seq::empty()
            };
            let di = sign.len() + q.ip.len();
            assert(t[di as int] == '.' as u8);
            assert(crate::infer::num_is_float(t));
        },
        ValueV::Bool(_) => {
        },
        ValueV::Str(_) => {
        },
    }
}

/// With every cell present, the rendered pairs list one member per column
/// in schema order.
proof fn lemma_pairs_full(schema: Seq<FieldV>, row: Seq<ValueV>, c: int)
    requires
        row.len() == schema.len(),
        forall|k: int| 0 <= k < row.len() ==> !(#[trigger] row[k] is Null),
        0 <= c <= row.len(),
    ensures
        pairs_from(schema, row, c) =~= Seq::new(
            (row.len() - c) as nat,
            |k: int| PairV { key: schema[c + k].name, val: jsv_of(row[c + k]) },
        ),
    decreases row.len() - c,
{
    if c < row.len() {
        lemma_pairs_full(schema, row, c + 1);
    }
}

/// Folding a fully present, well-formed row into empty candidates
/// recovers each column's name and type in order.
proof fn lemma_infer_row_rec(schema: Seq<FieldV>, row: Seq<ValueV>, pairs: Seq<PairV>, c: int)
    requires
        row_wf(row, schema),
        distinct_names(schema),
        forall|k: int| 0 <= k < row.len() ==> !(#[trigger] row[k] is Null),
        pairs == Seq::new(
            row.len() as nat,
            |k: int| PairV { key: schema[k].name, val: jsv_of(row[k]) },
        ),
        0 <= c <= row.len(),
    ensures
        crate::infer::infer_pairs(
            Seq::new(
                c as nat,
                |j: int| crate::infer::KeyCandV {
                    key: schema[j].name,
                    cand: Some(schema[j].data_type),
                },
            ),
            pairs,
            c,
        ) == Seq::new(
            schema.len() as nat,
            |j: int| crate::infer::KeyCandV {
                key: schema[j].name,
                cand: Some(schema[j].data_type),
            },
        ),
    decreases row.len() - c,
{
    let target = Seq::new(
        schema.len() as nat,
        |j: int| crate::infer::KeyCandV { key: schema[j].name, cand: Some(schema[j].data_type) },
    );
    let acc = Seq::new(
        c as nat,
        |j: int| crate::infer::KeyCandV { key: schema[j].name, cand: Some(schema[j].data_type) },
    );
    if c == row.len() {
        assert(acc =~= target);
    } else {
        let key = schema[c].name;
        assert(pairs[c].key == key && pairs[c].val == jsv_of(row[c]));
        crate::infer::lemma_find_key(acc, key);
        assert(crate::infer::find_key(acc, key) == -1) by {
            let i = crate::infer::find_key(acc, key);
            if i >= 0 {
                assert(acc[i].key == schema[i].name);
                assert(schema[i].name != schema[c].name);
            }
        }
        lemma_classify_of(row[c], schema[c]);
        let acc2 = acc.push(
            crate::infer::KeyCandV { key, cand: Some(schema[c].data_type) },
        );
        assert(acc2 =~= Seq::new(
            (c + 1) as nat,
            |j: int| crate::infer::KeyCandV {
                key: schema[j].name,
                cand: Some(schema[j].data_type),
            },
        ));
        lemma_infer_row_rec(schema, row, pairs, c + 1);
    }
}

/// Idempotence: converting the encoder's own output again reproduces it.
/// Decoding an encoded stream with default options (schema inferred from
/// the first record) restores the schema and rows exactly, provided the
/// first record has every field present and every column is nullable; so
/// a second structured-to-structured conversion emits the same bytes.
#[verifier::rlimit(100)]
pub proof fn lemma_json_idempotent(schema: Seq<FieldV>, rows: Seq<Seq<ValueV>>)
    requires
        rows_wf(rows, schema),
        distinct_names(schema),
        rows.len() > 0,
        forall|c: int| 0 <= c < schema.len() ==> !(#[trigger] rows[0][c] is Null),
        forall|j: int| 0 <= j < schema.len() ==> (#[trigger] schema[j]).nullable,
    ensures
        sp_json_decode(enc_json_rows(schema, rows, 0), None, 1) == Ok::<
            (Seq<FieldV>, Seq<Seq<ValueV>>),
            ErrKind,
        >((schema, rows)),
        sp_convert(Type::Json, Type::Json, None, None, enc_json_rows(schema, rows, 0)) == Ok::<
            Option<Seq<u8>>,
            ErrKind,
        >(Some(enc_json_rows(schema, rows, 0))),
{
    lemma_json_stream_lines(schema, rows, 0);
    let lines = lines_of(enc_json_rows(schema, rows, 0));
    let recs = Seq::new(rows.len() as nat, |k: int| pairs_from(schema, rows[k], 0));
    lemma_parse_all_of(schema, rows, lines, recs, 0);
    assert(parse_all(lines, 0) == Some(recs.skip(0)));
    assert(recs.skip(0) =~= recs);
    // The one-record sample recovers the schema.
    assert(row_wf(rows[0], schema));
    lemma_pairs_full(schema, rows[0], 0);
    let pairs0 = Seq::new(
        rows[0].len() as nat,
        |k: int| PairV { key: schema[k].name, val: jsv_of(rows[0][k]) },
    );
    assert(recs[0] == pairs_from(schema, rows[0], 0));
    assert(pairs_from(schema, rows[0], 0) =~= pairs0);
    lemma_infer_row_rec(schema, rows[0], pairs0, 0);
    let target = Seq::new(
        schema.len() as nat,
        |j: int| crate::infer::KeyCandV { key: schema[j].name, cand: Some(schema[j].data_type) },
    );
    assert(Seq::new(
        0nat,
        |j: int| crate::infer::KeyCandV {
            key: schema[j].name,
            cand: Some(schema[j].data_type),
        },
    ) =~= Seq::<crate::infer::KeyCandV>::empty());
    assert(crate::infer::infer_sample_partial(recs, 0) == Seq::<crate::infer::KeyCandV>::empty());
    assert(crate::infer::infer_sample_upto(recs, 1) == crate::infer::infer_pairs(
        Seq::empty(),
        recs[0],
        0,
    ));
    assert(crate::infer::infer_pairs(Seq::empty(), recs[0], 0) == target);
    assert(fields_of_cands(target) =~= schema);
    // The rows decode back as in the explicit-schema round trip.
    lemma_rows_from_recs(schema, rows, recs, 0);
    assert(sp_json_rows(schema, recs, 0) == Some(rows.skip(0)));
    assert(rows.skip(0) =~= rows);
}

/// The quoted-field scanner undoes quote-doubling: scanning from just
/// inside the opening quote returns the original field text and stops
/// just past the closing quote.
pub proof fn lemma_scan_dq(pre: Seq<u8>, f: Seq<u8>, rest: Seq<u8>)
    requires
        rest.len() == 0 || rest[0] != '"' as u8,
    ensures
        crate::csvtext::scan_quoted(pre + crate::csvtext::dq(f) + seq!['"' as u8] + rest, pre.len() as int)
            == Some((f, (pre.len() + crate::csvtext::dq(f).len() + 1) as int)),
    decreases f.len(),
{
    let dq = crate::csvtext::dq(f);
    let u = pre + dq + seq!['"' as u8] + rest;
    let i = pre.len() as int;
    if f.len() == 0 {
        assert(dq == Seq::<u8>::empty());
        assert(u[i] == '"' as u8);
        // The byte after the closing quote, if any, is the first byte of
        // `rest`, which is no quote: the scanner closes the field here.
        assert(i + 1 < u.len() ==> u[i + 1] == rest[0]);
    } else {
        let b = f[0];
        let f1 = f.drop_first();
        assert(dq == (if b == '"' as u8 {
            seq!['"' as u8, '"' as u8]
        } else {
            seq![b]
        }) + crate::csvtext::dq(f1));
        let pre2 = pre + (if b == '"' as u8 {
            seq!['"' as u8, '"' as u8]
        } else {
            seq![b]
        });
        lemma_scan_dq(pre2, f1, rest);
        assert(pre2 + crate::csvtext::dq(f1) + seq!['"' as u8] + rest =~= u);
        if b == '"' as u8 {
            assert(u[i] == '"' as u8 && u[i + 1] == '"' as u8);
            assert(seq!['"' as u8] + f1 =~= f);
        } else {
            assert(u[i] == b);
            assert(seq![b] + f1 =~= f);
        }
    }
}

/// A non-special run covering exactly `[a, b)` ends at `b`.
proof fn lemma_raw_exact(s: Seq<u8>, a: int, b: int)
    requires
        0 <= a <= b <= s.len(),
        forall|j: int| a <= j < b ==> !crate::csvtext::is_special(#[trigger] s[j]),
        b < s.len() ==> crate::csvtext::is_special(s[b]),
    ensures
        crate::csvtext::raw_end(s, a) == b,
    decreases b - a,
{
    if a < b {
        lemma_raw_exact(s, a + 1, b);
    }
}

/// The field scanner undoes the field printer: scanning at the start of
/// an encoded field returns the original text and stops at the special
/// byte that follows.
#[verifier::rlimit(100)]
pub proof fn lemma_scan_field_enc(pre: Seq<u8>, text: Seq<u8>, rest: Seq<u8>)
    requires
        rest.len() > 0,
        rest[0] == ',' as u8 || rest[0] == '\n' as u8 || rest[0] == 13u8,
    ensures
        crate::csvtext::scan_field(pre + crate::csvtext::enc_field_text(text) + rest, pre.len() as int)
            == Some((text, (pre.len() + crate::csvtext::enc_field_text(text).len()) as int)),
{
    let enc = crate::csvtext::enc_field_text(text);
    let u = pre + enc + rest;
    let i = pre.len() as int;
    if crate::csvtext::needs_quote(text) {
        let dq = crate::csvtext::dq(text);
        assert(enc == seq!['"' as u8] + dq + seq!['"' as u8]);
        assert(u[i] == '"' as u8);
        lemma_scan_dq(pre + seq!['"' as u8], text, rest);
        assert(pre + seq!['"' as u8] + dq + seq!['"' as u8] + rest =~= u);
        let j = i + 1 + dq.len() + 1;
        assert(crate::csvtext::scan_quoted(u, i + 1) == Some((text, j)));
        assert(u[j] == rest[0]);
    } else {
        assert(forall|k: int|
            0 <= k < text.len() ==> !crate::csvtext::is_special(#[trigger] text[k]));
        assert(i < u.len());
        assert(u[i] != '"' as u8) by {
            if text.len() > 0 {
                assert(u[i] == text[0]);
                assert(!crate::csvtext::is_special(text[0]));
            } else {
                assert(u[i] == rest[0]);
            }
        }
        let b = i + text.len();
        assert(forall|j: int| i <= j < b ==> !crate::csvtext::is_special(#[trigger] u[j]));
        assert(u[b] == rest[0]);
        assert(crate::csvtext::is_special(u[b]));
        lemma_raw_exact(u, i, b);
        assert(u.subrange(i, b) =~= text);
    }
}

/// The field texts of a row's cells, in column order.
pub open spec fn csv_texts(row: Seq<ValueV>) -> Seq<Seq<u8>> {
    Seq::new(row.len(), |c: int| csv_value_text(row[c]))
}

/// The record scanner undoes the row printer from column `c` on.
#[verifier::rlimit(100)]
proof fn lemma_scan_record_enc(row: Seq<ValueV>, c: int, pre: Seq<u8>, rest: Seq<u8>)
    requires
        0 <= c < row.len(),
    ensures
        ({
            let s = crate::csvtext::enc_field_text(csv_value_text(row[c])) + crate::writer::csv::enc_csv_row(
                row,
                c + 1,
            );
            crate::csvtext::scan_record(pre + s + rest, pre.len() as int) == Some(
                (csv_texts(row).skip(c), (pre.len() + s.len()) as int),
            )
        }),
    decreases row.len() - c,
{
    let ef = crate::csvtext::enc_field_text(csv_value_text(row[c]));
    let tail = crate::writer::csv::enc_csv_row(row, c + 1);
    let s = ef + tail;
    let u = pre + s + rest;
    let i = pre.len() as int;
    if c + 1 < row.len() {
        assert(tail == seq![',' as u8] + crate::csvtext::enc_field_text(csv_value_text(row[c + 1]))
            + crate::writer::csv::enc_csv_row(row, c + 2));
        assert(tail[0] == ',' as u8);
        lemma_scan_field_enc(pre, csv_value_text(row[c]), tail + rest);
        assert(pre + ef + (tail + rest) =~= u);
        let j = i + ef.len();
        assert(crate::csvtext::scan_field(u, i) == Some((csv_value_text(row[c]), j)));
        assert(u[j] == ',' as u8);
        lemma_scan_record_enc(row, c + 1, pre + ef + seq![',' as u8], rest);
        let s2 = crate::csvtext::enc_field_text(csv_value_text(row[c + 1]))
            + crate::writer::csv::enc_csv_row(row, c + 2);
        assert(pre + ef + seq![',' as u8] + s2 + rest =~= u);
        assert(crate::csvtext::scan_record(u, j + 1) == Some(
            (csv_texts(row).skip(c + 1), ((pre + ef + seq![',' as u8]).len() + s2.len()) as int),
        ));
        assert(seq![csv_value_text(row[c])] + csv_texts(row).skip(c + 1) =~= csv_texts(row).skip(
            c,
        ));
        assert((pre + ef + seq![',' as u8]).len() + s2.len() == pre.len() + s.len());
    } else {
        assert(crate::writer::csv::enc_csv_row(row, c + 1) == seq!['\n' as u8]);
        lemma_scan_field_enc(pre, csv_value_text(row[c]), seq!['\n' as u8] + rest);
        assert(pre + ef + (seq!['\n' as u8] + rest) =~= u);
        let j = i + ef.len();
        assert(crate::csvtext::scan_field(u, i) == Some((csv_value_text(row[c]), j)));
        assert(u[j] == '\n' as u8);
        assert(crate::csvtext::scan_record(u, i) == Some((seq![csv_value_text(row[c])], j + 1)));
        assert(csv_texts(row).skip(c) =~= seq![csv_value_text(row[c])]);
        assert(j + 1 == pre.len() + s.len());
    }
}

/// A row encodes as a non-blank record line when it has several columns
/// or its single cell's text is non-empty.
pub open spec fn csv_row_visible(row: Seq<ValueV>) -> bool {
    row.len() >= 1 && (row.len() == 1 ==> csv_value_text(row[0]).len() > 0)
}

/// The record scanner undoes the stream printer: every encoded record
/// comes back as its row's field texts, in order.
#[verifier::rlimit(100)]
proof fn lemma_scan_records_enc(rows: Seq<Seq<ValueV>>, r: int, pre: Seq<u8>)
    requires
        0 <= r <= rows.len(),
        forall|k: int| 0 <= k < rows.len() ==> csv_row_visible(#[trigger] rows[k]),
    ensures
        crate::csvtext::scan_records(pre + enc_csv_rows(rows, r), pre.len() as int) == Some(
            Seq::new((rows.len() - r) as nat, |k: int| csv_texts(rows[r + k])),
        ),
    decreases rows.len() - r,
{
    let u = pre + enc_csv_rows(rows, r);
    let i = pre.len() as int;
    if r == rows.len() {
        assert(enc_csv_rows(rows, r) == Seq::<u8>::empty());
        assert(i >= u.len());
        assert(Seq::new(0nat, |k: int| csv_texts(rows[r + k])) =~= Seq::<Seq<Seq<u8>>>::empty());
    } else {
        let row = rows[r];
        assert(csv_row_visible(row));
        let er = crate::writer::csv::enc_csv_row(row, 0);
        assert(enc_csv_rows(rows, r) == er + enc_csv_rows(rows, r + 1));
        let ef = crate::csvtext::enc_field_text(csv_value_text(row[0]));
        assert(er == ef + crate::writer::csv::enc_csv_row(row, 1));
        lemma_scan_record_enc(row, 0, pre, enc_csv_rows(rows, r + 1));
        assert(pre + (ef + crate::writer::csv::enc_csv_row(row, 1)) + enc_csv_rows(rows, r + 1)
            =~= u);
        let k = i + er.len();
        assert(crate::csvtext::scan_record(u, i) == Some((csv_texts(row).skip(0), k as int)));
        assert(csv_texts(row).skip(0) =~= csv_texts(row));
        // The record opens with a quote, an ordinary byte or a delimiter:
        // never with a line end, so no blank-line skip fires.
        assert(u[i] != '\n' as u8 && u[i] != 13u8) by {
            if ef.len() > 0 {
                assert(u[i] == ef[0]);
                if crate::csvtext::needs_quote(csv_value_text(row[0])) {
                    assert(ef[0] == '"' as u8);
                } else {
                    assert(ef[0] == csv_value_text(row[0])[0]);
                    assert(!crate::csvtext::is_special(ef[0]));
                }
            } else {
                assert(!crate::csvtext::needs_quote(csv_value_text(row[0])));
                assert(csv_value_text(row[0]).len() == 0);
                assert(row.len() >= 2);
                assert(crate::writer::csv::enc_csv_row(row, 1)[0] == ',' as u8);
                assert(u[i] == ',' as u8);
            }
        }
        assert(er.len() >= 1);
        assert(i + 1 <= k <= u.len());
        lemma_scan_records_enc(rows, r + 1, pre + er);
        assert(pre + er + enc_csv_rows(rows, r + 1) =~= u);
        assert(crate::csvtext::scan_records(u, k as int) == Some(
            Seq::new((rows.len() - r - 1) as nat, |j: int| csv_texts(rows[r + 1 + j])),
        ));
        assert(seq![csv_texts(row)] + Seq::new(
            (rows.len() - r - 1) as nat,
            |j: int| csv_texts(rows[r + 1 + j]),
        ) =~= Seq::new((rows.len() - r) as nat, |j: int| csv_texts(rows[r + j])));
    }
}

/// A row as it returns from a delimited-text round trip: null cells in
/// string columns come back as empty strings, everything else exactly.
pub open spec fn csv_norm(row: Seq<ValueV>, schema: Seq<FieldV>) -> Seq<ValueV> {
    Seq::new(
        row.len(),
        |c: int|
            if row[c] is Null && schema[c].data_type == DataType::Utf8 {
                ValueV::Str(Seq::empty())
            } else {
                row[c]
            },
    )
}

proof fn lemma_csv_row_back(schema: Seq<FieldV>, row: Seq<ValueV>, c: int)
    requires
        row_wf(row, schema),
        0 <= c <= row.len(),
    ensures
        crate::reader::csv::sp_csv_row(schema, csv_texts(row), c) == Some(
            csv_norm(row, schema).skip(c),
        ),
    decreases row.len() - c,
{
    if c == row.len() {
        assert(csv_norm(row, schema).skip(c) =~= Seq::<ValueV>::empty());
    } else {
        lemma_csv_row_back(schema, row, c + 1);
        lemma_csv_value_round_trip(row[c], schema[c]);
        assert(seq![csv_norm(row, schema)[c]] + csv_norm(row, schema).skip(c + 1) =~= csv_norm(
            row,
            schema,
        ).skip(c));
    }
}

proof fn lemma_csv_rows_back(schema: Seq<FieldV>, rows: Seq<Seq<ValueV>>, recs: Seq<Seq<Seq<u8>>>, r: int)
    requires
        rows_wf(rows, schema),
        recs == Seq::new(rows.len() as nat, |k: int| csv_texts(rows[k])),
        0 <= r <= rows.len(),
    ensures
        sp_csv_rows(schema, recs, r) == Some(
            Seq::new(rows.len() as nat, |k: int| csv_norm(rows[k], schema)).skip(r),
        ),
    decreases rows.len() - r,
{
    let target = Seq::new(rows.len() as nat, |k: int| csv_norm(rows[k], schema));
    if r == rows.len() {
        assert(target.skip(r) =~= Seq::<Seq<ValueV>>::empty());
    } else {
        lemma_csv_rows_back(schema, rows, recs, r + 1);
        assert(row_wf(rows[r], schema));
        lemma_csv_row_back(schema, rows[r], 0);
        assert(csv_norm(rows[r], schema).skip(0) =~= csv_norm(rows[r], schema));
        assert(recs[r].len() == schema.len());
        assert(seq![target[r]] + target.skip(r + 1) =~= target.skip(r));
    }
}

/// Round trip, stream level, delimited text: decoding the encoding of
/// well-formed rows against the stream's own schema restores the schema
/// and rows, with null cells of string columns returning as empty
/// strings.  Every row must encode as a visible record: a single string
/// column holding null or the empty string would encode as a blank line,
/// which the scanner skips.
pub proof fn lemma_csv_round_trip(schema: Seq<FieldV>, rows: Seq<Seq<ValueV>>, sample: int)
    requires
        rows_wf(rows, schema),
        schema.len() > 0,
        forall|k: int| 0 <= k < rows.len() ==> csv_row_visible(#[trigger] rows[k]),
    ensures
        sp_csv_decode(enc_csv_rows(rows, 0), false, Some(schema), sample) == Ok::<
            (Seq<FieldV>, Seq<Seq<ValueV>>),
            ErrKind,
        >((schema, Seq::new(rows.len() as nat, |k: int| csv_norm(rows[k], schema)))),
{
    lemma_scan_records_enc(rows, 0, Seq::empty());
    assert(Seq::<u8>::empty() + enc_csv_rows(rows, 0) =~= enc_csv_rows(rows, 0));
    let recs = Seq::new(rows.len() as nat, |k: int| csv_texts(rows[k]));
    assert(crate::csvtext::scan_records(enc_csv_rows(rows, 0), 0) == Some(recs));
    lemma_csv_rows_back(schema, rows, recs, 0);
    let target = Seq::new(rows.len() as nat, |k: int| csv_norm(rows[k], schema));
    assert(target.skip(0) =~= target);
    assert(!(false && recs.len() == 0));
}

/// Every cell the delimited-text coercion accepts is well-formed for its
/// field.
pub proof fn lemma_coerce_csv_wf(f: FieldV, t: Seq<u8>)
    ensures
        coerce_csv(f, t) matches Some(v) ==> value_wf(v, f),
{
    if t.len() > 0 && f.data_type == DataType::Float64 && split_float(t) is Some {
        lemma_canon_of_split(t);
    }
}

/// Every cell the structured-record coercion accepts is well-formed for
/// its field.
pub proof fn lemma_coerce_jsv_wf(f: FieldV, jv: JsvV)
    ensures
        coerce_jsv(f, jv) matches Some(v) ==> value_wf(v, f),
{
    if let JsvV::Num(raw) = jv {
        if f.data_type == DataType::Float64 && split_float(raw) is Some {
            lemma_canon_of_split(raw);
        }
    }
}

proof fn lemma_csv_row_wf(schema: Seq<FieldV>, rec: Seq<Seq<u8>>, c: int)
    requires
        0 <= c <= schema.len(),
    ensures
        crate::reader::csv::sp_csv_row(schema, rec, c) matches Some(vs) ==> vs.len()
            == schema.len() - c && (forall|j: int|
            0 <= j < vs.len() ==> value_wf(#[trigger] vs[j], schema[c + j])),
    decreases schema.len() - c,
{
    if c < schema.len() {
        lemma_csv_row_wf(schema, rec, c + 1);
        lemma_coerce_csv_wf(schema[c], rec[c]);
    }
}

proof fn lemma_json_row_wf(schema: Seq<FieldV>, pairs: Seq<PairV>, c: int)
    requires
        0 <= c <= schema.len(),
    ensures
        sp_json_row(schema, pairs, c) matches Some(vs) ==> vs.len() == schema.len() - c && (
        forall|j: int| 0 <= j < vs.len() ==> value_wf(#[trigger] vs[j], schema[c + j])),
    decreases schema.len() - c,
{
    if c < schema.len() {
        lemma_json_row_wf(schema, pairs, c + 1);
        match lookup_pair(pairs, schema[c].name) {
            None => {
            },
            Some(jv) => {
                lemma_coerce_jsv_wf(schema[c], jv);
            },
        }
    }
}

proof fn lemma_csv_rows_wf_rec(schema: Seq<FieldV>, data: Seq<Seq<Seq<u8>>>, r: int)
    requires
        0 <= r <= data.len(),
    ensures
        sp_csv_rows(schema, data, r) matches Some(rows) ==> rows_wf(rows, schema),
    decreases data.len() - r,
{
    if r < data.len() {
        lemma_csv_rows_wf_rec(schema, data, r + 1);
        if data[r].len() == schema.len() {
            lemma_csv_row_wf(schema, data[r], 0);
        }
    }
}

proof fn lemma_json_rows_wf_rec(schema: Seq<FieldV>, recs: Seq<Seq<PairV>>, r: int)
    requires
        0 <= r <= recs.len(),
    ensures
        sp_json_rows(schema, recs, r) matches Some(rows) ==> rows_wf(rows, schema),
    decreases recs.len() - r,
{
    if r < recs.len() {
        lemma_json_rows_wf_rec(schema, recs, r + 1);
        lemma_json_row_wf(schema, recs[r], 0);
    }
}

/// Whatever a decoder yields is well-formed: every row as wide as the
/// schema, every cell well-formed for its column.  So the round-trip laws
/// apply to any decoded stream.
pub proof fn lemma_csv_decode_wf(input: Seq<u8>, hh: bool, exp: Option<Seq<FieldV>>, sample: int)
    ensures
        sp_csv_decode(input, hh, exp, sample) matches Ok(d) ==> rows_wf(d.1, d.0),
{
    if let Some(recs) = crate::csvtext::scan_records(input, 0) {
        if !(hh && recs.len() == 0 && exp is None) {
            let data = if hh && recs.len() > 0 {
                recs.drop_first()
            } else {
                recs
            };
            let schema = match exp {
                Some(s) => s,
                None => csv_inferred_fields(csv_names(recs, hh), data, sample),
            };
            lemma_csv_rows_wf_rec(schema, data, 0);
        }
    }
}

/// Whatever the structured-record decoder yields is well-formed.
pub proof fn lemma_json_decode_wf(input: Seq<u8>, exp: Option<Seq<FieldV>>, sample: int)
    ensures
        sp_json_decode(input, exp, sample) matches Ok(d) ==> rows_wf(d.1, d.0),
{
    if let Some(recs) = parse_all(lines_of(input), 0) {
        let schema = match exp {
            Some(s) => s,
            None => fields_of_cands(
                crate::infer::infer_sample_upto(
                    recs,
                    if sample <= recs.len() {
                        sample
                    } else {
                        recs.len() as int
                    },
                ),
            ),
        };
        lemma_json_rows_wf_rec(schema, recs, 0);
    }
}

/// Round trip from any input: encoding the batches decoded from an input
/// and decoding them again, under the stream's schema, yields the same
/// schema and the same rows.
pub proof fn lemma_json_decode_encode_decode(
    input: Seq<u8>,
    exp: Option<Seq<FieldV>>,
    sample: int,
    sample2: int,
)
    ensures
        sp_json_decode(input, exp, sample) matches Ok(d) ==> (distinct_names(d.0)
            ==> sp_json_decode(enc_json_rows(d.0, d.1, 0), Some(d.0), sample2) == Ok::<
            (Seq<FieldV>, Seq<Seq<ValueV>>),
            ErrKind,
        >(d)),
{
    if let Ok(d) = sp_json_decode(input, exp, sample) {
        if distinct_names(d.0) {
            lemma_json_decode_wf(input, exp, sample);
            lemma_json_round_trip(d.0, d.1, sample2);
        }
    }
}

/// Round trip from any input, delimited text: re-decoding the encoding of
/// a decoded stream restores it, null cells of string columns returning
/// as empty strings, provided every row encodes as a visible record.
pub proof fn lemma_csv_decode_encode_decode(
    input: Seq<u8>,
    hh: bool,
    exp: Option<Seq<FieldV>>,
    sample: int,
    sample2: int,
)
    ensures
        sp_csv_decode(input, hh, exp, sample) matches Ok(d) ==> ((d.0.len() > 0 && (forall|
            k: int,
        |
            0 <= k < d.1.len() ==> csv_row_visible(#[trigger] d.1[k]))) ==> sp_csv_decode(
            enc_csv_rows(d.1, 0),
            false,
            Some(d.0),
            sample2,
        ) == Ok::<(Seq<FieldV>, Seq<Seq<ValueV>>), ErrKind>(
            (d.0, Seq::new(d.1.len() as nat, |k: int| csv_norm(d.1[k], d.0))),
        )),
{
    if let Ok(d) = sp_csv_decode(input, hh, exp, sample) {
        if d.0.len() > 0 && (forall|k: int|
            0 <= k < d.1.len() ==> csv_row_visible(#[trigger] d.1[k])) {
            lemma_csv_decode_wf(input, hh, exp, sample);
            lemma_csv_round_trip(d.0, d.1, sample2);
        }
    }
}

/// Null omission: a null cell contributes nothing to its encoded record
/// line, and the members that are encoded are exactly those of the
/// non-null cells.
pub proof fn lemma_null_omitted(schema: Seq<FieldV>, row: Seq<ValueV>, c: int, first: bool)
    requires
        0 <= c < row.len(),
        row[c] is Null,
    ensures
        crate::writer::json::enc_members(schema, row, c, first) == crate::writer::json::enc_members(
            schema,
            row,
            c + 1,
            first,
        ),
{
}

} // verus!
