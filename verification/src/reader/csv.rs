//! The delimited-text decoder.
//!
//! Input is split into records on line boundaries and fields on the
//! delimiter, honoring quoting.  With the header flag set the first record
//! supplies column names; otherwise columns are named positionally.  An
//! explicitly supplied schema wins unconditionally over inference; without
//! one, each column's type is inferred from a bounded sample of leading
//! data records.  Field text is coerced to the column's declared type;
//! empty text is null for nullable non-string columns and the empty string
//! for string columns.

use vstd::prelude::*;

use crate::batch::{DataType, Field, FieldV, Schema, Value, ValueV};
use crate::csvtext::{scan_records, parse_csv};
use crate::error::{ConvError, ErrKind};
use crate::infer::{classify_text, classify_text_exec, unify, unify_exec, eq_true, eq_false};
use crate::jsontext::{lit_true, lit_false};
use crate::num::{fmt_nat, format_u64, parse_i64, parse_i64_spec, split_float, canon_from_parts,
    normalize_float};
use crate::reader::{BatchReader, Readers};

verus! {

/// Decoder options for delimited text.
pub struct Options {
    pub schema: Option<Schema>,
    pub has_header: bool,
    pub sample_size: usize,
}

impl Default for Options {
    /// No explicit schema, no header row, a one-record sample.
    fn default() -> (r: Options)
        ensures
            r.schema is None,
            r.has_header == false,
            r.sample_size == 1,
    {
        Options { schema: None, has_header: false, sample_size: 1 }
    }
}

/// The schema an options value supplies, if any.
pub open spec fn spec_opt_schema(schema: &Option<Schema>) -> Option<Seq<FieldV>> {
    match schema {
        Some(s) => Some(s@),
        None => None,
    }
}

pub open spec fn col_prefix() -> Seq<u8> {
    seq![
        'c' as u8,
        'o' as u8,
        'l' as u8,
        'u' as u8,
        'm' as u8,
        'n' as u8,
        '_' as u8,
    ]
}

/// The name given to column `n` (counted from one) when no header names
/// it.
pub open spec fn positional_name(n: int) -> Seq<u8> {
    col_prefix() + fmt_nat(n as nat)
}

/// Coerces one field text to its column's declared type.
pub open spec fn coerce_csv(f: FieldV, t: Seq<u8>) -> Option<ValueV> {
    if t.len() == 0 {
        if f.data_type == DataType::Utf8 {
            Some(ValueV::Str(t))
        } else if f.nullable {
            Some(ValueV::Null)
        } else {
            None
        }
    } else {
        match f.data_type {
            DataType::Int64 => match parse_i64_spec(t) {
                Some(v) => Some(ValueV::Int(v)),
                None => None,
            },
            DataType::Float64 => match split_float(t) {
                Some(p) => Some(ValueV::Float(canon_from_parts(p))),
                None => None,
            },
            DataType::Boolean => if t == lit_true() {
                Some(ValueV::Bool(true))
            } else if t == lit_false() {
                Some(ValueV::Bool(false))
            } else {
                None
            },
            DataType::Utf8 => Some(ValueV::Str(t)),
        }
    }
}

pub fn coerce_csv_exec(f: &Field, t: &[u8]) -> (r: Option<Value>)
    ensures
        match coerce_csv(f@, t@) {
            Some(v) => r matches Some(x) && x@ == v,
            None => r is None,
        },
{
    if t.len() == 0 {
        if matches!(f.data_type, DataType::Utf8) {
            let v: Vec<u8> = Vec::new();
            assert(v@ =~= t@);
            Some(Value::Str(v))
        } else if f.nullable {
            Some(Value::Null)
        } else {
            None
        }
    } else {
        match f.data_type {
            DataType::Int64 => match parse_i64(t) {
                Some(v) => Some(Value::Int(v)),
                None => None,
            },
            DataType::Float64 => match normalize_float(t) {
                Some(v) => Some(Value::Float(v)),
                None => None,
            },
            DataType::Boolean => if eq_true(t) {
                Some(Value::Bool(true))
            } else if eq_false(t) {
                Some(Value::Bool(false))
            } else {
                None
            },
            DataType::Utf8 => {
                let mut v: Vec<u8> = Vec::new();
                crate::num::push_range(&mut v, t, 0, t.len());
                assert(v@ =~= t@);
                Some(Value::Str(v))
            },
        }
    }
}

/// One decoded row: each field text coerced against its schema slot.
pub open spec fn sp_csv_row(schema: Seq<FieldV>, rec: Seq<Seq<u8>>, c: int) -> Option<Seq<ValueV>>
    decreases schema.len() - c,
{
    if c < 0 || c >= schema.len() {
        Some(Seq::empty())
    } else {
        match coerce_csv(schema[c], rec[c]) {
            None => None,
            Some(v) => match sp_csv_row(schema, rec, c + 1) {
                None => None,
                Some(rest) => Some(seq![v] + rest),
            },
        }
    }
}

/// All decoded rows; a record of the wrong width or an uncoercible field
/// is a decode error.
pub open spec fn sp_csv_rows(schema: Seq<FieldV>, data: Seq<Seq<Seq<u8>>>, r: int) -> Option<
    Seq<Seq<ValueV>>,
>
    decreases data.len() - r,
{
    if r < 0 || r >= data.len() {
        Some(Seq::empty())
    } else if data[r].len() != schema.len() {
        None
    } else {
        match sp_csv_row(schema, data[r], 0) {
            None => None,
            Some(row) => match sp_csv_rows(schema, data, r + 1) {
                None => None,
                Some(rest) => Some(seq![row] + rest),
            },
        }
    }
}

/// The type candidate for column `c` after sampling the first `upto` data
/// records.
pub open spec fn csv_infer_col(data: Seq<Seq<Seq<u8>>>, c: int, upto: int) -> Option<DataType>
    decreases upto,
{
    if upto <= 0 {
        None
    } else {
        let prev = csv_infer_col(data, c, upto - 1);
        let cur: Option<DataType> = if upto <= data.len() && 0 <= c < data[upto - 1].len() {
            Some(classify_text(data[upto - 1][c]))
        } else {
            None
        };
        unify(prev, cur)
    }
}

/// The inferred schema: sampled column types under the given names; a
/// column with no informative sample becomes a string column.
pub open spec fn csv_inferred_fields(names: Seq<Seq<u8>>, data: Seq<Seq<Seq<u8>>>, sample: int) -> Seq<
    FieldV,
> {
    Seq::new(
        names.len(),
        |c: int|
            FieldV {
                name: names[c],
                data_type: match csv_infer_col(
                    data,
                    c,
                    if sample <= data.len() {
                        sample
                    } else {
                        data.len() as int
                    },
                ) {
                    Some(t) => t,
                    None => DataType::Utf8,
                },
                nullable: true,
            },
    )
}

/// Column names: the header record's fields, or positional names as wide
/// as the first record.
pub open spec fn csv_names(recs: Seq<Seq<Seq<u8>>>, has_header: bool) -> Seq<Seq<u8>> {
    if recs.len() == 0 {
        Seq::empty()
    } else if has_header {
        recs[0]
    } else {
        Seq::new(recs[0].len(), |c: int| positional_name(c + 1))
    }
}

/// What decoding a delimited-text stream yields: the stream's schema and
/// every decoded row, or the kind of error that stops it.
pub open spec fn sp_csv_decode(
    input: Seq<u8>,
    has_header: bool,
    exp: Option<Seq<FieldV>>,
    sample: int,
) -> Result<(Seq<FieldV>, Seq<Seq<ValueV>>), ErrKind> {
    match scan_records(input, 0) {
        None => Err(ErrKind::Decode),
        Some(recs) => {
            if has_header && recs.len() == 0 && exp is None {
                Err(ErrKind::Decode)
            } else {
                let data = if has_header && recs.len() > 0 {
                    recs.drop_first()
                } else {
                    recs
                };
                let schema = match exp {
                    Some(s) => s,
                    None => csv_inferred_fields(csv_names(recs, has_header), data, sample),
                };
                match sp_csv_rows(schema, data, 0) {
                    None => Err(ErrKind::Decode),
                    Some(rows) => Ok((schema, rows)),
                }
            }
        },
    }
}

/// Builds the delimited-text decoder for this input: resolves the schema
/// (explicit schema first, else inference from the sample), decodes every
/// record against it, and returns the batch source.
#[verifier::loop_isolation(false)]
#[verifier::rlimit(100)]
pub fn create_reader(input: Vec<u8>, options: &Options) -> (r: Result<Readers, ConvError>)
    ensures
        match sp_csv_decode(
            input@,
            options.has_header,
            spec_opt_schema(&options.schema),
            options.sample_size as int,
        ) {
            Ok((sch, rows)) => r matches Ok(Readers::Csv(b)) && b.schema@ == sch && b.spec_rows()
                == rows && b.pos == 0 && b.wf(),
            Err(k) => r matches Err(e) && e.kind() == k,
        },
{
    let recs = match parse_csv(input.as_slice()) {
        Some(x) => x,
        None => {
            return Err(ConvError::Decode("malformed delimited-text record".to_owned()));
        },
    };
    let ghost recsv = recs.deep_view();
    let has_header = options.has_header;
    if has_header && recs.len() == 0 && options.schema.is_none() {
        return Err(ConvError::Decode("header record expected but input is empty".to_owned()));
    }
    let dstart: usize = if has_header && recs.len() > 0 {
        1
    } else {
        0
    };
    let ghost datav = if has_header && recsv.len() > 0 {
        recsv.drop_first()
    } else {
        recsv
    };
    assert(datav =~= recsv.skip(dstart as int));
    let data_len = recs.len() - dstart;
    let schema: Schema = match &options.schema {
        Some(s) => s.dup(),
        None => {
            let width: usize = if recs.len() > 0 {
                recs[0].len()
            } else {
                0
            };
            let ghost namesv = csv_names(recsv, has_header);
            assert(namesv.len() == width);
            let upto: usize = if options.sample_size <= data_len {
                options.sample_size
            } else {
                data_len
            };
            let ghost specfields = csv_inferred_fields(
                namesv,
                datav,
                options.sample_size as int,
            );
            let mut fields: Vec<Field> = Vec::new();
            let mut c: usize = 0;
            while c < width
                invariant
                    c <= width,
                    width == namesv.len(),
                    upto == (if options.sample_size as int <= datav.len() as int {
                        options.sample_size as int
                    } else {
                        datav.len() as int
                    }),
                    dstart + datav.len() == recsv.len(),
                    dstart == (if has_header && recsv.len() > 0 {
                        1int
                    } else {
                        0
                    }),
                    datav =~= recsv.skip(dstart as int),
                    recsv == recs.deep_view(),
                    recs@.len() == recsv.len(),
                    has_header ==> recsv.len() > 0,
                    width == (if recsv.len() > 0 {
                        recsv[0].len() as int
                    } else {
                        0int
                    }),
                    namesv == csv_names(recsv, has_header),
                    specfields == csv_inferred_fields(namesv, datav, options.sample_size as int),
                    fields@.len() == c,
                    forall|j: int| 0 <= j < c ==> (#[trigger] fields@[j])@ == specfields[j],
                decreases width - c,
            {
                let name: Vec<u8> = if has_header {
                    assert(recs.deep_view()[0] == recs@[0].deep_view());
                    assert(recs@[0].deep_view()[c as int] == recs@[0]@[c as int]@);
                    crate::batch::dup_bytes(&recs[0][c])
                } else {
                    let mut n: Vec<u8> = vec![
                        'c' as u8,
                        'o' as u8,
                        'l' as u8,
                        'u' as u8,
                        'm' as u8,
                        'n' as u8,
                        '_' as u8,
                    ];
                    let mut digits = format_u64((c as u64) + 1);
                    let mut k: usize = 0;
                    while k < digits.len()
                        invariant
                            k <= digits@.len(),
                            n@ == col_prefix() + digits@.take(k as int),
                            digits@ == fmt_nat((c + 1) as nat),
                        decreases digits@.len() - k,
                    {
                        n.push(digits[k]);
                        assert(n@ =~= col_prefix() + digits@.take(k as int + 1));
                        k += 1;
                    }
                    assert(digits@.take(digits@.len() as int) =~= digits@);
                    assert(n@ == positional_name(c as int + 1));
                    n
                };
                assert(name@ == namesv[c as int]);
                let mut acc: Option<DataType> = None;
                let mut r: usize = 0;
                while r < upto
                    invariant
                        r <= upto,
                        upto <= datav.len(),
                        dstart + datav.len() == recsv.len(),
                        datav =~= recsv.skip(dstart as int),
                        recsv == recs.deep_view(),
                        recs@.len() == recsv.len(),
                        c < width,
                        acc == csv_infer_col(datav, c as int, r as int),
                    decreases upto - r,
                {
                    assert(dstart + r < recs@.len());
                    assert(recs.deep_view()[dstart + r] == recs@[dstart + r].deep_view());
                    let rec = &recs[dstart + r];
                    let cur: Option<DataType> = if c < rec.len() {
                        assert(rec.deep_view()[c as int] == rec@[c as int]@);
                        assert(datav[r as int] == recsv[dstart + r]);
                        Some(classify_text_exec(rec[c].as_slice()))
                    } else {
                        assert(datav[r as int] == recsv[dstart + r]);
                        None
                    };
                    acc = unify_exec(acc, cur);
                    r += 1;
                }
                let dt: DataType = match acc {
                    Some(t) => t,
                    None => DataType::Utf8,
                };
                fields.push(Field { name, data_type: dt, nullable: true });
                assert(fields@[c as int]@ =~= specfields[c as int]);
                c += 1;
            }
            let s = Schema { fields };
            assert(s@ =~= specfields);
            s
        },
    };
    let ghost schemav = schema@;
    let mut rows: Vec<Vec<Value>> = Vec::new();
    let mut r: usize = dstart;
    while r < recs.len()
        invariant
            dstart <= r <= recs@.len(),
            recsv == recs.deep_view(),
            recs@.len() == recsv.len(),
            datav =~= recsv.skip(dstart as int),
            dstart + datav.len() == recsv.len(),
            schemav == schema@,
            schema@.len() == schema.fields@.len(),
            forall|k: int| 0 <= k < rows@.len() ==> (#[trigger] rows@[k])@.len() == schemav.len(),
            match sp_csv_rows(schemav, datav, r - dstart) {
                Some(rest) => sp_csv_rows(schemav, datav, 0) == Some(rows.deep_view() + rest),
                None => sp_csv_rows(schemav, datav, 0) is None,
            },
        decreases recs@.len() - r,
    {
        assert(recs.deep_view()[r as int] == recs@[r as int].deep_view());
        assert(datav[r - dstart] == recsv[r as int]);
        let rec = &recs[r];
        if rec.len() != schema.fields.len() {
            assert(sp_csv_rows(schemav, datav, r - dstart) is None);
            return Err(ConvError::Decode("record width does not match the schema".to_owned()));
        }
        let ghost recv = recs@[r as int].deep_view();
        assert(datav[r - dstart] == recv);
        let mut row: Vec<Value> = Vec::new();
        let mut c: usize = 0;
        while c < rec.len()
            invariant
                c <= rec@.len(),
                row@.len() == c,
                datav[r - dstart] == recv,
                recv == rec.deep_view(),
                rec@.len() == recv.len(),
                recv.len() == schemav.len(),
                schemav == schema@,
                schema@.len() == schema.fields@.len(),
                match sp_csv_row(schemav, recv, c as int) {
                    Some(rest) => sp_csv_row(schemav, recv, 0) == Some(row.deep_view() + rest),
                    None => sp_csv_row(schemav, recv, 0) is None,
                },
            decreases rec@.len() - c,
        {
            assert(rec.deep_view()[c as int] == rec@[c as int]@);
            assert(schema@[c as int] == schema.fields@[c as int]@);
            match coerce_csv_exec(&schema.fields[c], rec[c].as_slice()) {
                Some(v) => {
                    let ghost rowv = row.deep_view();
                    let ghost vv = v@;
                    row.push(v);
                    assert(row.deep_view() =~= rowv + seq![vv]);
                    proof {
                        if let Some(rest) = sp_csv_row(schemav, recv, c as int + 1) {
                            assert(rowv + seq![vv] + rest =~= rowv + (seq![vv] + rest));
                        }
                    }
                },
                None => {
                    assert(sp_csv_row(schemav, recv, 0) is None);
                    assert(sp_csv_rows(schemav, datav, r - dstart) is None);
                    return Err(ConvError::Decode(
                        "field text cannot be coerced to its column type".to_owned(),
                    ));
                },
            }
            c += 1;
        }
        assert(sp_csv_row(schemav, recv, recv.len() as int) == Some(Seq::<ValueV>::empty()));
        let ghost rowsv = rows.deep_view();
        let ghost rv = row.deep_view();
        assert(row@.len() == schemav.len());
        rows.push(row);
        assert(rows.deep_view() =~~= rowsv + seq![rv]);
        proof {
            assert(sp_csv_row(schemav, recv, 0) == Some(rv)) by {
                if let Some(rest) = sp_csv_row(schemav, recv, recv.len() as int) {
                    assert(rv + rest =~= rv);
                }
            }
            if let Some(rest) = sp_csv_rows(schemav, datav, r - dstart + 1) {
                assert(rowsv + seq![rv] + rest =~= rowsv + (seq![rv] + rest));
            }
        }
        r += 1;
    }
    assert(sp_csv_rows(schemav, datav, datav.len() as int) == Some(Seq::<Seq<ValueV>>::empty()));
    assert(rows.deep_view() + Seq::<Seq<ValueV>>::empty() =~= rows.deep_view());
    let b = BatchReader { schema, rows, pos: 0 };
    assert(b.wf());
    Ok(Readers::Csv(b))
}

} // verus!
