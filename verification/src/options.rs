//! Parsing of per-encoding option text.
//!
//! Options are supplied as one structured record, e.g.
//! `{"has_header":true,"schema":"a:Int64,b:Utf8?","sample_size":2}`.  The
//! `schema` value lists columns as `name:Type` pairs separated by commas,
//! with `Int64`, `Float64`, `Boolean` and `Utf8` as types and a trailing
//! `?` marking a nullable column.  A key an encoding does not recognize is
//! a configuration error.

use vstd::prelude::*;

use crate::batch::{DataType, Field, FieldV, Schema};
use crate::error::ConvError;
use crate::infer::bytes_eq;
use crate::jsontext::{Jsv, JsvV, PairV, parse_record_line, parse_record_line_exec};
use crate::num::{parse_i64, parse_i64_spec};

verus! {

/// First index at or after `i` holding `b`, or the length.
pub open spec fn scan_to(s: Seq<u8>, i: int, b: u8) -> int
    decreases s.len() - i,
{
    if i < 0 || i >= s.len() {
        i
    } else if s[i] == b {
        i
    } else {
        scan_to(s, i + 1, b)
    }
}

pub proof fn lemma_scan_to(s: Seq<u8>, i: int, b: u8)
    requires
        0 <= i <= s.len(),
    ensures
        i <= scan_to(s, i, b) <= s.len(),
        scan_to(s, i, b) < s.len() ==> s[scan_to(s, i, b)] == b,
    decreases s.len() - i,
{
    if i < s.len() && s[i] != b {
        lemma_scan_to(s, i + 1, b);
    }
}

fn scan_to_exec(s: &[u8], i: usize, b: u8) -> (r: usize)
    requires
        i <= s@.len(),
    ensures
        r == scan_to(s@, i as int, b),
        i <= r <= s@.len(),
    decreases s@.len() - i,
{
    proof {
        lemma_scan_to(s@, i as int, b);
    }
    if i < s.len() && s[i] != b {
        scan_to_exec(s, i + 1, b)
    } else {
        i
    }
}

pub open spec fn int64_name() -> Seq<u8> {
    seq!['I' as u8, 'n' as u8, 't' as u8, '6' as u8, '4' as u8]
}

pub open spec fn float64_name() -> Seq<u8> {
    seq!['F' as u8, 'l' as u8, 'o' as u8, 'a' as u8, 't' as u8, '6' as u8, '4' as u8]
}

pub open spec fn boolean_name() -> Seq<u8> {
    seq!['B' as u8, 'o' as u8, 'o' as u8, 'l' as u8, 'e' as u8, 'a' as u8, 'n' as u8]
}

pub open spec fn utf8_name() -> Seq<u8> {
    seq!['U' as u8, 't' as u8, 'f' as u8, '8' as u8]
}

/// The column type a type name denotes.
pub open spec fn dtype_of_name(t: Seq<u8>) -> Option<DataType> {
    if t == int64_name() {
        Some(DataType::Int64)
    } else if t == float64_name() {
        Some(DataType::Float64)
    } else if t == boolean_name() {
        Some(DataType::Boolean)
    } else if t == utf8_name() {
        Some(DataType::Utf8)
    } else {
        None
    }
}

fn dtype_of_name_exec(t: &[u8]) -> (r: Option<DataType>)
    ensures
        r == dtype_of_name(t@),
{
    let int64: Vec<u8> = vec!['I' as u8, 'n' as u8, 't' as u8, '6' as u8, '4' as u8];
    let float64: Vec<u8> = vec![
        'F' as u8,
        'l' as u8,
        'o' as u8,
        'a' as u8,
        't' as u8,
        '6' as u8,
        '4' as u8,
    ];
    let boolean: Vec<u8> = vec![
        'B' as u8,
        'o' as u8,
        'o' as u8,
        'l' as u8,
        'e' as u8,
        'a' as u8,
        'n' as u8,
    ];
    let utf8: Vec<u8> = vec!['U' as u8, 't' as u8, 'f' as u8, '8' as u8];
    assert(int64@ =~= int64_name());
    assert(float64@ =~= float64_name());
    assert(boolean@ =~= boolean_name());
    assert(utf8@ =~= utf8_name());
    if bytes_eq(t, int64.as_slice()) {
        Some(DataType::Int64)
    } else if bytes_eq(t, float64.as_slice()) {
        Some(DataType::Float64)
    } else if bytes_eq(t, boolean.as_slice()) {
        Some(DataType::Boolean)
    } else if bytes_eq(t, utf8.as_slice()) {
        Some(DataType::Utf8)
    } else {
        None
    }
}

/// One `name:Type` column description within `[i, e)`.
pub open spec fn sp_schema_field(s: Seq<u8>, i: int, e: int) -> Option<FieldV> {
    let colon = scan_to(s, i, ':' as u8);
    if colon >= e {
        None
    } else {
        let name = s.subrange(i, colon);
        let tend = e;
        let nullable = tend > colon + 1 && s[tend - 1] == '?' as u8;
        let tt = s.subrange(colon + 1, if nullable {
            tend - 1
        } else {
            tend
        });
        match dtype_of_name(tt) {
            Some(dt) => Some(FieldV { name, data_type: dt, nullable }),
            None => None,
        }
    }
}

/// The columns of a schema description from `i` on.
pub open spec fn sp_schema_fields(s: Seq<u8>, i: int) -> Option<Seq<FieldV>>
    decreases s.len() - i,
{
    if i < 0 || i >= s.len() {
        Some(Seq::empty())
    } else {
        let e = scan_to(s, i, ',' as u8);
        match sp_schema_field(s, i, e) {
            None => None,
            Some(f) => {
                if e >= s.len() {
                    Some(seq![f])
                } else if e + 1 > i && e + 1 <= s.len() {
                    match sp_schema_fields(s, e + 1) {
                        None => None,
                        Some(rest) => Some(seq![f] + rest),
                    }
                } else {
                    None
                }
            },
        }
    }
}

/// The schema a description denotes: empty text denotes no columns.
pub open spec fn sp_schema_text(s: Seq<u8>) -> Option<Seq<FieldV>> {
    sp_schema_fields(s, 0)
}

/// Parses a schema description.
fn parse_schema_text(s: &[u8]) -> (r: Option<Schema>)
    ensures
        match sp_schema_text(s@) {
            Some(fs) => r matches Some(x) && x@ == fs,
            None => r is None,
        },
{
    let mut fields: Vec<Field> = Vec::new();
    let mut i: usize = 0;
    while i < s.len()
        invariant
            i <= s@.len(),
            match sp_schema_fields(s@, i as int) {
                Some(rest) => sp_schema_fields(s@, 0) == Some(fields.deep_view() + rest),
                None => sp_schema_fields(s@, 0) is None,
            },
        decreases s@.len() - i,
    {
        proof {
            lemma_scan_to(s@, i as int, ',' as u8);
            lemma_scan_to(s@, i as int, ':' as u8);
        }
        let e = scan_to_exec(s, i, ',' as u8);
        let colon = scan_to_exec(s, i, ':' as u8);
        if colon >= e {
            assert(sp_schema_field(s@, i as int, e as int) is None);
            return None;
        }
        let nullable = e > colon + 1 && s[e - 1] == '?' as u8;
        let tend: usize = if nullable {
            e - 1
        } else {
            e
        };
        let tt = vstd::slice::slice_subrange(s, colon + 1, tend);
        let dt = match dtype_of_name_exec(tt) {
            Some(dt) => dt,
            None => {
                assert(sp_schema_field(s@, i as int, e as int) is None);
                return None;
            },
        };
        let mut name: Vec<u8> = Vec::new();
        crate::num::push_range(&mut name, s, i, colon);
        let ghost fv = sp_schema_field(s@, i as int, e as int)->Some_0;
        let ghost fieldsv = fields.deep_view();
        fields.push(Field { name, data_type: dt, nullable });
        assert(fields.deep_view() =~~= fieldsv + seq![fv]);
        if e >= s.len() {
            assert(sp_schema_fields(s@, i as int) == Some(seq![fv]));
            assert(fieldsv + seq![fv] + Seq::<FieldV>::empty() =~= fieldsv + seq![fv]);
            assert(sp_schema_fields(s@, 0) == Some(fields.deep_view()));
            let sch = Schema { fields };
            return Some(sch);
        }
        proof {
            if let Some(rest) = sp_schema_fields(s@, e as int + 1) {
                assert(fieldsv + seq![fv] + rest =~= fieldsv + (seq![fv] + rest));
            }
        }
        i = e + 1;
    }
    assert(sp_schema_fields(s@, i as int) == Some(Seq::<FieldV>::empty()));
    assert(fields.deep_view() + Seq::<FieldV>::empty() =~= fields.deep_view());
    let sch = Schema { fields };
    Some(sch)
}

/// The option values one record can carry, with their defaults.
pub struct OptVals {
    pub schema: Option<Schema>,
    pub has_header: bool,
    pub has_headers: bool,
    pub sample_size: usize,
}

/// Mathematical mirror of [`OptVals`].
#[verifier::ext_equal]
pub struct OptValsV {
    pub schema: Option<Seq<FieldV>>,
    pub has_header: bool,
    pub has_headers: bool,
    pub sample_size: int,
}

impl View for OptVals {
    type V = OptValsV;

    open spec fn view(&self) -> OptValsV {
        OptValsV {
            schema: match self.schema {
                Some(s) => Some(s@),
                None => None,
            },
            has_header: self.has_header,
            has_headers: self.has_headers,
            sample_size: self.sample_size as int,
        }
    }
}

pub open spec fn default_opt_vals() -> OptValsV {
    OptValsV { schema: None, has_header: false, has_headers: false, sample_size: 1 }
}

pub open spec fn key_schema() -> Seq<u8> {
    seq!['s' as u8, 'c' as u8, 'h' as u8, 'e' as u8, 'm' as u8, 'a' as u8]
}

pub open spec fn key_has_header() -> Seq<u8> {
    seq![
        'h' as u8,
        'a' as u8,
        's' as u8,
        '_' as u8,
        'h' as u8,
        'e' as u8,
        'a' as u8,
        'd' as u8,
        'e' as u8,
        'r' as u8,
    ]
}

pub open spec fn key_has_headers() -> Seq<u8> {
    key_has_header() + seq!['s' as u8]
}

pub open spec fn key_sample_size() -> Seq<u8> {
    seq![
        's' as u8,
        'a' as u8,
        'm' as u8,
        'p' as u8,
        'l' as u8,
        'e' as u8,
        '_' as u8,
        's' as u8,
        'i' as u8,
        'z' as u8,
        'e' as u8,
    ]
}

/// Folds the option record's pairs into the accumulated values; `None`
/// when a key is unrecognized, disallowed for this encoding, or carries a
/// value of the wrong shape.
pub open spec fn sp_fold_opts(
    pairs: Seq<PairV>,
    idx: int,
    acc: OptValsV,
    allow_schema: bool,
    allow_header: bool,
    allow_headers: bool,
    allow_sample: bool,
) -> Option<OptValsV>
    decreases pairs.len() - idx,
{
    if idx < 0 || idx >= pairs.len() {
        Some(acc)
    } else {
        let k = pairs[idx].key;
        let v = pairs[idx].val;
        let acc2: Option<OptValsV> = if allow_schema && k == key_schema() {
            match v {
                JsvV::Str(t) => match sp_schema_text(t) {
                    Some(fs) => Some(OptValsV { schema: Some(fs), ..acc }),
                    None => None,
                },
                _ => None,
            }
        } else if allow_header && k == key_has_header() {
            match v {
                JsvV::Bool(b) => Some(OptValsV { has_header: b, ..acc }),
                _ => None,
            }
        } else if allow_headers && k == key_has_headers() {
            match v {
                JsvV::Bool(b) => Some(OptValsV { has_headers: b, ..acc }),
                _ => None,
            }
        } else if allow_sample && k == key_sample_size() {
            match v {
                JsvV::Num(raw) => match parse_i64_spec(raw) {
                    Some(n) => if 0 <= n <= usize::MAX {
                        Some(OptValsV { sample_size: n, ..acc })
                    } else {
                        None
                    },
                    None => None,
                },
                _ => None,
            }
        } else {
            None
        };
        match acc2 {
            None => None,
            Some(a) => sp_fold_opts(pairs, idx + 1, a, allow_schema, allow_header, allow_headers, allow_sample),
        }
    }
}

/// What an option text denotes: the folded values, or `None` when the
/// record is malformed or holds an unrecognized key or ill-shaped value.
pub open spec fn sp_options(
    s: Seq<u8>,
    allow_schema: bool,
    allow_header: bool,
    allow_headers: bool,
    allow_sample: bool,
) -> Option<OptValsV> {
    match parse_record_line(s) {
        None => None,
        Some(pairs) => sp_fold_opts(
            pairs,
            0,
            default_opt_vals(),
            allow_schema,
            allow_header,
            allow_headers,
            allow_sample,
        ),
    }
}

/// Parses one encoding's option text.
#[verifier::loop_isolation(false)]
pub fn parse_options(
    s: &[u8],
    allow_schema: bool,
    allow_header: bool,
    allow_headers: bool,
    allow_sample: bool,
) -> (r: Result<OptVals, ConvError>)
    ensures
        match sp_options(s@, allow_schema, allow_header, allow_headers, allow_sample) {
            Some(o) => r matches Ok(x) && x@ == o,
            None => r matches Err(e) && e.kind() == crate::error::ErrKind::Config,
        },
{
    let pairs = match parse_record_line_exec(s) {
        Some(ps) => ps,
        None => {
            return Err(ConvError::Config("malformed options record".to_owned()));
        },
    };
    let ghost pairsv = pairs.deep_view();
    let sch_key: Vec<u8> = vec!['s' as u8, 'c' as u8, 'h' as u8, 'e' as u8, 'm' as u8, 'a' as u8];
    let hh_key: Vec<u8> = vec![
        'h' as u8,
        'a' as u8,
        's' as u8,
        '_' as u8,
        'h' as u8,
        'e' as u8,
        'a' as u8,
        'd' as u8,
        'e' as u8,
        'r' as u8,
    ];
    let hhs_key: Vec<u8> = vec![
        'h' as u8,
        'a' as u8,
        's' as u8,
        '_' as u8,
        'h' as u8,
        'e' as u8,
        'a' as u8,
        'd' as u8,
        'e' as u8,
        'r' as u8,
        's' as u8,
    ];
    let ss_key: Vec<u8> = vec![
        's' as u8,
        'a' as u8,
        'm' as u8,
        'p' as u8,
        'l' as u8,
        'e' as u8,
        '_' as u8,
        's' as u8,
        'i' as u8,
        'z' as u8,
        'e' as u8,
    ];
    assert(sch_key@ =~= key_schema());
    assert(hh_key@ =~= key_has_header());
    assert(hhs_key@ =~= key_has_headers());
    assert(ss_key@ =~= key_sample_size());
    let mut acc = OptVals { schema: None, has_header: false, has_headers: false, sample_size: 1 };
    assert(acc@ =~= default_opt_vals());
    let mut idx: usize = 0;
    while idx < pairs.len()
        invariant
            idx <= pairs@.len(),
            sp_fold_opts(
                pairsv,
                idx as int,
                acc@,
                allow_schema,
                allow_header,
                allow_headers,
                allow_sample,
            ) == sp_fold_opts(
                pairsv,
                0,
                default_opt_vals(),
                allow_schema,
                allow_header,
                allow_headers,
                allow_sample,
            ),
        decreases pairs@.len() - idx,
    {
        assert(pairsv[idx as int] == pairs@[idx as int].deep_view());
        let p = &pairs[idx];
        let ghost prev = acc@;
        if allow_schema && bytes_eq(p.key.as_slice(), sch_key.as_slice()) {
            match &p.val {
                Jsv::Str(t) => match parse_schema_text(t.as_slice()) {
                    Some(sch) => {
                        let ghost fs = sp_schema_text(t@)->Some_0;
                        acc = OptVals { schema: Some(sch), ..acc };
                        assert(acc@ =~= OptValsV { schema: Some(fs), ..prev });
                    },
                    None => {
                        assert(sp_fold_opts(
                            pairsv,
                            idx as int,
                            prev,
                            allow_schema,
                            allow_header,
                            allow_headers,
                            allow_sample,
                        ) is None);
                        return Err(ConvError::Config("malformed schema description".to_owned()));
                    },
                },
                _ => {
                    return Err(ConvError::Config("schema must be text".to_owned()));
                },
            }
        } else if allow_header && bytes_eq(p.key.as_slice(), hh_key.as_slice()) {
            match &p.val {
                Jsv::Bool(b) => {
                    acc = OptVals { has_header: *b, ..acc };
                    assert(acc@ =~= OptValsV { has_header: p.val@->Bool_0, ..prev });
                },
                _ => {
                    return Err(ConvError::Config("header flag must be a boolean".to_owned()));
                },
            }
        } else if allow_headers && bytes_eq(p.key.as_slice(), hhs_key.as_slice()) {
            match &p.val {
                Jsv::Bool(b) => {
                    acc = OptVals { has_headers: *b, ..acc };
                    assert(acc@ =~= OptValsV { has_headers: p.val@->Bool_0, ..prev });
                },
                _ => {
                    return Err(ConvError::Config("header flag must be a boolean".to_owned()));
                },
            }
        } else if allow_sample && bytes_eq(p.key.as_slice(), ss_key.as_slice()) {
            match &p.val {
                Jsv::Num(raw) => match parse_i64(raw.as_slice()) {
                    Some(n) => {
                        if n >= 0 && (n as u64) <= (usize::MAX as u64) {
                            acc = OptVals { sample_size: n as usize, ..acc };
                            assert(acc@ =~= OptValsV {
                                sample_size: parse_i64_spec(raw@)->Some_0,
                                ..prev
                            });
                        } else {
                            return Err(ConvError::Config("sample size out of range".to_owned()));
                        }
                    },
                    None => {
                        return Err(ConvError::Config("sample size must be an integer".to_owned()));
                    },
                },
                _ => {
                    return Err(ConvError::Config("sample size must be an integer".to_owned()));
                },
            }
        } else {
            assert(sp_fold_opts(
                pairsv,
                idx as int,
                prev,
                allow_schema,
                allow_header,
                allow_headers,
                allow_sample,
            ) is None);
            return Err(ConvError::Config("unrecognized option key".to_owned()));
        }
        idx += 1;
    }
    assert(sp_fold_opts(
        pairsv,
        pairsv.len() as int,
        acc@,
        allow_schema,
        allow_header,
        allow_headers,
        allow_sample,
    ) == Some(acc@));
    Ok(acc)
}

} // verus!
