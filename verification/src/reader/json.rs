//! The line-delimited structured-record decoder.
//!
//! Each line is an independently parsed record of key/value pairs.  An
//! explicitly supplied schema wins unconditionally over inference; without
//! one, the keys observed across a bounded sample of leading records are
//! unioned in order of first appearance and a type is assigned per key.
//! Fields absent from a record (and explicit nulls) decode as null; keys
//! outside the schema are ignored; a malformed line is a decode error.

use vstd::prelude::*;

use crate::batch::{DataType, Field, FieldV, Schema, Value, ValueV};
use crate::error::{ConvError, ErrKind};
use crate::infer::{KeyCandV, infer_sample_upto, infer_sample_exec};
use crate::jsontext::{Pair, PairV, Jsv, JsvV, parse_record_line, parse_record_line_exec, lines_of,
    split_lines};
use crate::num::{parse_i64, parse_i64_spec, split_float, canon_from_parts, normalize_float};
use crate::reader::{BatchReader, Readers};

verus! {

/// Decoder options for line-delimited structured records.
pub struct Options {
    pub schema: Option<Schema>,
    pub sample_size: usize,
}

impl Default for Options {
    /// No explicit schema, a one-record sample.
    fn default() -> (r: Options)
        ensures
            r.schema is None,
            r.sample_size == 1,
    {
        Options { schema: None, sample_size: 1 }
    }
}

/// The value a key names in a record; with a repeated key the last
/// occurrence wins.
pub open spec fn lookup_pair(pairs: Seq<PairV>, k: Seq<u8>) -> Option<JsvV>
    decreases pairs.len(),
{
    if pairs.len() == 0 {
        None
    } else if pairs.last().key == k {
        Some(pairs.last().val)
    } else {
        lookup_pair(pairs.drop_last(), k)
    }
}

#[verifier::loop_isolation(false)]
fn lookup_pair_exec<'a>(pairs: &'a Vec<Pair>, k: &[u8]) -> (r: Option<&'a Jsv>)
    ensures
        match lookup_pair(pairs.deep_view(), k@) {
            Some(v) => r matches Some(x) && x@ == v,
            None => r is None,
        },
{
    let ghost pv = pairs.deep_view();
    assert(pv.take(pv.len() as int) =~= pv);
    let mut i: usize = pairs.len();
    while i > 0
        invariant
            i <= pairs@.len(),
            pv == pairs.deep_view(),
            pv.len() == pairs@.len(),
            lookup_pair(pv, k@) == lookup_pair(pv.take(i as int), k@),
        decreases i,
    {
        assert(pv.take(i as int).last() == pv[i - 1]);
        assert(pv.take(i as int).drop_last() =~= pv.take(i as int - 1));
        assert(pv[i - 1] == pairs@[i - 1].deep_view());
        if crate::infer::bytes_eq(pairs[i - 1].key.as_slice(), k) {
            return Some(&pairs[i - 1].val);
        }
        i -= 1;
    }
    assert(pv.take(0) =~= Seq::<PairV>::empty());
    None
}

/// Coerces one present scalar to a field's declared type.
pub open spec fn coerce_jsv(f: FieldV, jv: JsvV) -> Option<ValueV> {
    match jv {
        JsvV::Null => if f.nullable {
            Some(ValueV::Null)
        } else {
            None
        },
        JsvV::Bool(b) => if f.data_type == DataType::Boolean {
            Some(ValueV::Bool(b))
        } else {
            None
        },
        JsvV::Num(raw) => match f.data_type {
            DataType::Int64 => match parse_i64_spec(raw) {
                Some(v) => Some(ValueV::Int(v)),
                None => None,
            },
            DataType::Float64 => match split_float(raw) {
                Some(p) => Some(ValueV::Float(canon_from_parts(p))),
                None => None,
            },
            _ => None,
        },
        JsvV::Str(t) => if f.data_type == DataType::Utf8 {
            Some(ValueV::Str(t))
        } else {
            None
        },
    }
}

/// Coerces the value a schema field names in a record (or its absence) to
/// the field's declared type.
pub open spec fn coerce_json(f: FieldV, pairs: Seq<PairV>) -> Option<ValueV> {
    match lookup_pair(pairs, f.name) {
        None => if f.nullable {
            Some(ValueV::Null)
        } else {
            None
        },
        Some(jv) => coerce_jsv(f, jv),
    }
}

pub fn coerce_json_exec(f: &Field, pairs: &Vec<Pair>) -> (r: Option<Value>)
    ensures
        match coerce_json(f@, pairs.deep_view()) {
            Some(v) => r matches Some(x) && x@ == v,
            None => r is None,
        },
{
    match lookup_pair_exec(pairs, f.name.as_slice()) {
        None => if f.nullable {
            Some(Value::Null)
        } else {
            None
        },
        Some(jv) => match jv {
            Jsv::Null => if f.nullable {
                Some(Value::Null)
            } else {
                None
            },
            Jsv::Bool(b) => if matches!(f.data_type, DataType::Boolean) {
                Some(Value::Bool(*b))
            } else {
                None
            },
            Jsv::Num(raw) => match f.data_type {
                DataType::Int64 => match parse_i64(raw.as_slice()) {
                    Some(v) => Some(Value::Int(v)),
                    None => None,
                },
                DataType::Float64 => match normalize_float(raw.as_slice()) {
                    Some(v) => Some(Value::Float(v)),
                    None => None,
                },
                _ => None,
            },
            Jsv::Str(t) => if matches!(f.data_type, DataType::Utf8) {
                Some(Value::Str(crate::batch::dup_bytes(t)))
            } else {
                None
            },
        },
    }
}

/// One decoded row: each schema field resolved against the record.
pub open spec fn sp_json_row(schema: Seq<FieldV>, pairs: Seq<PairV>, c: int) -> Option<Seq<ValueV>>
    decreases schema.len() - c,
{
    if c < 0 || c >= schema.len() {
        Some(Seq::empty())
    } else {
        match coerce_json(schema[c], pairs) {
            None => None,
            Some(v) => match sp_json_row(schema, pairs, c + 1) {
                None => None,
                Some(rest) => Some(seq![v] + rest),
            },
        }
    }
}

/// All decoded rows; an uncoercible value is a decode error.
pub open spec fn sp_json_rows(schema: Seq<FieldV>, recs: Seq<Seq<PairV>>, r: int) -> Option<
    Seq<Seq<ValueV>>,
>
    decreases recs.len() - r,
{
    if r < 0 || r >= recs.len() {
        Some(Seq::empty())
    } else {
        match sp_json_row(schema, recs[r], 0) {
            None => None,
            Some(row) => match sp_json_rows(schema, recs, r + 1) {
                None => None,
                Some(rest) => Some(seq![row] + rest),
            },
        }
    }
}

/// Every line parsed as a record; a malformed line is a decode error.
pub open spec fn parse_all(lines: Seq<Seq<u8>>, i: int) -> Option<Seq<Seq<PairV>>>
    decreases lines.len() - i,
{
    if i < 0 || i >= lines.len() {
        Some(Seq::empty())
    } else {
        match parse_record_line(lines[i]) {
            None => None,
            Some(ps) => match parse_all(lines, i + 1) {
                None => None,
                Some(rest) => Some(seq![ps] + rest),
            },
        }
    }
}

/// The schema the inferred candidates denote: each key a nullable column,
/// string when the sample gave no information.
pub open spec fn fields_of_cands(cands: Seq<KeyCandV>) -> Seq<FieldV> {
    Seq::new(
        cands.len(),
        |i: int|
            FieldV {
                name: cands[i].key,
                data_type: match cands[i].cand {
                    Some(t) => t,
                    None => DataType::Utf8,
                },
                nullable: true,
            },
    )
}

/// What decoding a line-delimited structured stream yields: the stream's
/// schema and every decoded row, or the kind of error that stops it.
pub open spec fn sp_json_decode(input: Seq<u8>, exp: Option<Seq<FieldV>>, sample: int) -> Result<
    (Seq<FieldV>, Seq<Seq<ValueV>>),
    ErrKind,
> {
    match parse_all(lines_of(input), 0) {
        None => Err(ErrKind::Decode),
        Some(recs) => {
            let schema = match exp {
                Some(s) => s,
                None => fields_of_cands(
                    infer_sample_upto(
                        recs,
                        if sample <= recs.len() {
                            sample
                        } else {
                            recs.len() as int
                        },
                    ),
                ),
            };
            match sp_json_rows(schema, recs, 0) {
                None => Err(ErrKind::Decode),
                Some(rows) => Ok((schema, rows)),
            }
        },
    }
}

/// Builds the line-delimited structured-record decoder for this input:
/// parses every line, resolves the schema (explicit schema first, else
/// inference from the sample), decodes every record against it, and
/// returns the batch source.
#[verifier::loop_isolation(false)]
pub fn create_reader(input: Vec<u8>, options: &Options) -> (r: Result<Readers, ConvError>)
    ensures
        match sp_json_decode(
            input@,
            crate::reader::csv::spec_opt_schema(&options.schema),
            options.sample_size as int,
        ) {
            Ok((sch, rows)) => r matches Ok(Readers::Json(b)) && b.schema@ == sch && b.spec_rows()
                == rows && b.pos == 0 && b.wf(),
            Err(k) => r matches Err(e) && e.kind() == k,
        },
{
    let lines = split_lines(input.as_slice());
    let ghost linesv = lines.deep_view();
    let mut recs: Vec<Vec<Pair>> = Vec::new();
    let mut i: usize = 0;
    while i < lines.len()
        invariant
            i <= lines@.len(),
            linesv == lines.deep_view(),
            linesv.len() == lines@.len(),
            match parse_all(linesv, i as int) {
                Some(rest) => parse_all(linesv, 0) == Some(recs.deep_view() + rest),
                None => parse_all(linesv, 0) is None,
            },
        decreases lines@.len() - i,
    {
        assert(lines.deep_view()[i as int] =~= lines@[i as int].deep_view());
        assert(lines@[i as int].deep_view() =~= lines@[i as int]@);
        match parse_record_line_exec(lines[i].as_slice()) {
            None => {
                assert(parse_all(linesv, i as int) is None);
                return Err(ConvError::Decode("malformed record line".to_owned()));
            },
            Some(ps) => {
                let ghost recsv0 = recs.deep_view();
                let ghost psv = ps.deep_view();
                recs.push(ps);
                assert(recs.deep_view() =~~= recsv0 + seq![psv]);
                proof {
                    if let Some(rest) = parse_all(linesv, i as int + 1) {
                        assert(recsv0 + seq![psv] + rest =~= recsv0 + (seq![psv] + rest));
                    }
                }
            },
        }
        i += 1;
    }
    assert(parse_all(linesv, linesv.len() as int) == Some(Seq::<Seq<PairV>>::empty()));
    assert(recs.deep_view() + Seq::<Seq<PairV>>::empty() =~= recs.deep_view());
    let ghost recsv = recs.deep_view();
    let schema: Schema = match &options.schema {
        Some(s) => s.dup(),
        None => {
            let upto: usize = if options.sample_size <= recs.len() {
                options.sample_size
            } else {
                recs.len()
            };
            let cands = infer_sample_exec(&recs, upto);
            let ghost candsv = cands.deep_view();
            let ghost specfields = fields_of_cands(candsv);
            let mut fields: Vec<Field> = Vec::new();
            let mut c: usize = 0;
            while c < cands.len()
                invariant
                    c <= cands@.len(),
                    candsv == cands.deep_view(),
                    candsv.len() == cands@.len(),
                    specfields == fields_of_cands(candsv),
                    fields@.len() == c,
                    forall|j: int| 0 <= j < c ==> (#[trigger] fields@[j])@ == specfields[j],
                decreases cands@.len() - c,
            {
                assert(cands.deep_view()[c as int] == cands@[c as int]@);
                let name = crate::batch::dup_bytes(&cands[c].key);
                let dt: DataType = match cands[c].cand {
                    Some(t) => t,
                    None => DataType::Utf8,
                };
                fields.push(Field { name, data_type: dt, nullable: true });
                assert(fields@[c as int]@ =~= specfields[c as int]);
                c += 1;
            }
            let s = Schema { fields };
            assert(s@ =~= specfields);
            s
        },
    };
    let ghost schemav = schema@;
    let mut rows: Vec<Vec<Value>> = Vec::new();
    let mut r: usize = 0;
    while r < recs.len()
        invariant
            r <= recs@.len(),
            recsv == recs.deep_view(),
            recsv.len() == recs@.len(),
            schemav == schema@,
            schema@.len() == schema.fields@.len(),
            forall|k: int| 0 <= k < rows@.len() ==> (#[trigger] rows@[k])@.len() == schemav.len(),
            match sp_json_rows(schemav, recsv, r as int) {
                Some(rest) => sp_json_rows(schemav, recsv, 0) == Some(rows.deep_view() + rest),
                None => sp_json_rows(schemav, recsv, 0) is None,
            },
        decreases recs@.len() - r,
    {
        assert(recs.deep_view()[r as int] == recs@[r as int].deep_view());
        let rec = &recs[r];
        let ghost recv = recs@[r as int].deep_view();
        let mut row: Vec<Value> = Vec::new();
        let mut c: usize = 0;
        while c < schema.fields.len()
            invariant
                c <= schema.fields@.len(),
                recv == rec.deep_view(),
                schemav == schema@,
                schema@.len() == schema.fields@.len(),
                row@.len() == c,
                match sp_json_row(schemav, recv, c as int) {
                    Some(rest) => sp_json_row(schemav, recv, 0) == Some(row.deep_view() + rest),
                    None => sp_json_row(schemav, recv, 0) is None,
                },
            decreases schema.fields@.len() - c,
        {
            assert(schema@[c as int] == schema.fields@[c as int]@);
            match coerce_json_exec(&schema.fields[c], rec) {
                Some(v) => {
                    let ghost rowv = row.deep_view();
                    let ghost vv = v@;
                    row.push(v);
                    assert(row.deep_view() =~= rowv + seq![vv]);
                    proof {
                        if let Some(rest) = sp_json_row(schemav, recv, c as int + 1) {
                            assert(rowv + seq![vv] + rest =~= rowv + (seq![vv] + rest));
                        }
                    }
                },
                None => {
                    assert(sp_json_row(schemav, recv, 0) is None);
                    assert(sp_json_rows(schemav, recsv, r as int) is None);
                    return Err(ConvError::Decode(
                        "record value cannot be coerced to its column type".to_owned(),
                    ));
                },
            }
            c += 1;
        }
        assert(sp_json_row(schemav, recv, schemav.len() as int) == Some(Seq::<ValueV>::empty()));
        let ghost rowsv = rows.deep_view();
        let ghost rv = row.deep_view();
        rows.push(row);
        assert(rows.deep_view() =~~= rowsv + seq![rv]);
        proof {
            assert(sp_json_row(schemav, recv, 0) == Some(rv)) by {
                if let Some(rest) = sp_json_row(schemav, recv, schemav.len() as int) {
                    assert(rv + rest =~= rv);
                }
            }
            if let Some(rest) = sp_json_rows(schemav, recsv, r as int + 1) {
                assert(rowsv + seq![rv] + rest =~= rowsv + (seq![rv] + rest));
            }
        }
        r += 1;
    }
    assert(sp_json_rows(schemav, recsv, recsv.len() as int) == Some(Seq::<Seq<ValueV>>::empty()));
    assert(rows.deep_view() + Seq::<Seq<ValueV>>::empty() =~= rows.deep_view());
    let b = BatchReader { schema, rows, pos: 0 };
    assert(b.wf());
    Ok(Readers::Json(b))
}

} // verus!
