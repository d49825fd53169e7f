//! The delimited-text encoder.
//!
//! On `begin`, with headers enabled and a non-empty schema, the column
//! names are written as a header record.  Each row is serialized as
//! delimiter-joined fields in column order; null serializes as an empty
//! field; text holding the delimiter, quote or a line break is quoted with
//! quote-doubling.

use vstd::prelude::*;

use crate::batch::{FieldV, RecordBatch, Schema, ValueV};
use crate::csvtext::{enc_field_text, push_csv_field};
use crate::error::ConvError;
use crate::jsontext::{lit_true, lit_false};
use crate::num::{fmt_int, format_i64};

verus! {

/// Encoder options for delimited text.
pub struct Options {
    pub has_headers: bool,
}

impl Default for Options {
    /// No header record.
    fn default() -> (r: Options)
        ensures
            r.has_headers == false,
    {
        Options { has_headers: false }
    }
}

/// The field text of one cell: empty for null, the literal text of the
/// typed value otherwise.
pub open spec fn csv_value_text(v: ValueV) -> Seq<u8> {
    match v {
        ValueV::Null => Seq::empty(),
        ValueV::Int(n) => fmt_int(n),
        ValueV::Float(t) => t,
        ValueV::Bool(b) => if b {
            lit_true()
        } else {
            lit_false()
        },
        ValueV::Str(s) => s,
    }
}

/// The encoded tail of a row from column `c` on, ending with the line
/// terminator.
pub open spec fn enc_csv_row(row: Seq<ValueV>, c: int) -> Seq<u8>
    decreases row.len() - c,
{
    if c < 0 || c >= row.len() {
        seq!['\n' as u8]
    } else {
        (if c > 0 {
            seq![',' as u8]
        } else {
            Seq::empty()
        }) + enc_field_text(csv_value_text(row[c])) + enc_csv_row(row, c + 1)
    }
}

/// The encoded rows from `r` on.
pub open spec fn enc_csv_rows(rows: Seq<Seq<ValueV>>, r: int) -> Seq<u8>
    decreases rows.len() - r,
{
    if r < 0 || r >= rows.len() {
        Seq::empty()
    } else {
        enc_csv_row(rows[r], 0) + enc_csv_rows(rows, r + 1)
    }
}

/// The encoded tail of the header record from column `c` on.
pub open spec fn enc_name_row(schema: Seq<FieldV>, c: int) -> Seq<u8>
    decreases schema.len() - c,
{
    if c < 0 || c >= schema.len() {
        seq!['\n' as u8]
    } else {
        (if c > 0 {
            seq![',' as u8]
        } else {
            Seq::empty()
        }) + enc_field_text(schema[c].name) + enc_name_row(schema, c + 1)
    }
}

/// The header record: the column names as one row, nothing for an empty
/// schema.
pub open spec fn enc_csv_header(schema: Seq<FieldV>) -> Seq<u8> {
    if schema.len() == 0 {
        Seq::empty()
    } else {
        enc_name_row(schema, 0)
    }
}

/// What `begin` writes.
pub open spec fn csv_begin_bytes(has_headers: bool, schema: Seq<FieldV>) -> Seq<u8> {
    if has_headers {
        enc_csv_header(schema)
    } else {
        Seq::empty()
    }
}

/// Encoding rows of a concatenation is concatenating the encodings.
pub proof fn lemma_enc_csv_rows_shift(xs: Seq<Seq<ValueV>>, ys: Seq<Seq<ValueV>>, j: int)
    requires
        0 <= j <= ys.len(),
    ensures
        enc_csv_rows(xs + ys, xs.len() + j) == enc_csv_rows(ys, j),
    decreases ys.len() - j,
{
    if j < ys.len() {
        assert((xs + ys)[xs.len() + j] == ys[j]);
        lemma_enc_csv_rows_shift(xs, ys, j + 1);
    }
}

pub proof fn lemma_enc_csv_rows_append(xs: Seq<Seq<ValueV>>, ys: Seq<Seq<ValueV>>, r: int)
    requires
        0 <= r <= xs.len(),
    ensures
        enc_csv_rows(xs + ys, r) == enc_csv_rows(xs, r) + enc_csv_rows(ys, 0),
    decreases xs.len() - r,
{
    if r == xs.len() {
        lemma_enc_csv_rows_shift(xs, ys, 0);
        assert(enc_csv_rows(xs, r) == Seq::<u8>::empty());
        assert(Seq::<u8>::empty() + enc_csv_rows(ys, 0) =~= enc_csv_rows(ys, 0));
    } else {
        assert((xs + ys)[r] == xs[r]);
        lemma_enc_csv_rows_append(xs, ys, r + 1);
        assert(enc_csv_row(xs[r], 0) + (enc_csv_rows(xs, r + 1) + enc_csv_rows(ys, 0)) =~= (
        enc_csv_row(xs[r], 0) + enc_csv_rows(xs, r + 1)) + enc_csv_rows(ys, 0));
    }
}

/// Serializes columnar batches as delimited text appended to `out`.
pub struct CsvWriter {
    pub out: Vec<u8>,
    pub has_headers: bool,
}

impl CsvWriter {
    /// Writes the header record if headers are enabled.
    #[verifier::loop_isolation(false)]
    pub fn begin(&mut self, schema: &Schema)
        ensures
            final(self).has_headers == old(self).has_headers,
            final(self).out@ == old(self).out@ + csv_begin_bytes(old(self).has_headers, schema@),
    {
        if !self.has_headers {
            assert(self.out@ =~= self.out@ + csv_begin_bytes(self.has_headers, schema@));
            return ;
        }
        let n = schema.fields.len();
        if n == 0 {
            assert(self.out@ =~= self.out@ + csv_begin_bytes(self.has_headers, schema@));
            return ;
        }
        let ghost base = self.out@;
        let mut c: usize = 0;
        while c < n
            invariant
                c <= n,
                n == schema@.len(),
                enc_name_row(schema@, 0) == self.out@.subrange(
                    base.len() as int,
                    self.out@.len() as int,
                ) + enc_name_row(schema@, c as int),
                self.out@.len() >= base.len(),
                self.out@.subrange(0, base.len() as int) == base,
                self.has_headers == old(self).has_headers,
            decreases n - c,
        {
            let ghost pre = self.out@;
            if c > 0 {
                self.out.push(',' as u8);
            }
            assert(schema@[c as int] == schema.fields@[c as int]@);
            push_csv_field(&mut self.out, schema.fields[c].name.as_slice());
            proof {
                let sep: Seq<u8> = if c > 0 {
                    seq![',' as u8]
                } else {
                    Seq::<u8>::empty()
                };
                assert(self.out@ =~= pre + (sep + enc_field_text(schema@[c as int].name)));
                assert(self.out@.subrange(base.len() as int, self.out@.len() as int) =~= pre
                    .subrange(base.len() as int, pre.len() as int) + (sep + enc_field_text(
                    schema@[c as int].name,
                )));
                assert(self.out@.subrange(0, base.len() as int) =~= base);
                assert(enc_name_row(schema@, c as int) == sep + enc_field_text(
                    schema@[c as int].name,
                ) + enc_name_row(schema@, c as int + 1));
                assert(self.out@.subrange(base.len() as int, self.out@.len() as int)
                    + enc_name_row(schema@, c as int + 1) =~= pre.subrange(
                    base.len() as int,
                    pre.len() as int,
                ) + enc_name_row(schema@, c as int));
            }
            c += 1;
        }
        let ghost pre = self.out@;
        self.out.push('\n' as u8);
        proof {
            assert(enc_name_row(schema@, n as int) == seq!['\n' as u8]);
            assert(self.out@ =~= pre + seq!['\n' as u8]);
            assert(self.out@.subrange(base.len() as int, self.out@.len() as int) =~= pre.subrange(
                base.len() as int,
                pre.len() as int,
            ) + seq!['\n' as u8]);
            assert(self.out@ =~= base + self.out@.subrange(base.len() as int, self.out@.len() as int));
            assert(self.out@ =~= base + enc_name_row(schema@, 0));
        }
    }

    /// Appends one cell's encoded field text.
    fn push_value(&mut self, v: &crate::batch::Value)
        ensures
            final(self).out@ == old(self).out@ + enc_field_text(csv_value_text(v@)),
            final(self).has_headers == old(self).has_headers,
    {
        match v {
            crate::batch::Value::Null => {
                let t: Vec<u8> = Vec::new();
                push_csv_field(&mut self.out, t.as_slice());
                assert(t@ =~= csv_value_text(v@));
            },
            crate::batch::Value::Int(n) => {
                let t = format_i64(*n);
                push_csv_field(&mut self.out, t.as_slice());
            },
            crate::batch::Value::Float(t) => {
                push_csv_field(&mut self.out, t.as_slice());
            },
            crate::batch::Value::Bool(b) => {
                let t: Vec<u8> = if *b {
                    vec!['t' as u8, 'r' as u8, 'u' as u8, 'e' as u8]
                } else {
                    vec!['f' as u8, 'a' as u8, 'l' as u8, 's' as u8, 'e' as u8]
                };
                assert(t@ =~= csv_value_text(v@));
                push_csv_field(&mut self.out, t.as_slice());
            },
            crate::batch::Value::Str(t) => {
                push_csv_field(&mut self.out, t.as_slice());
            },
        }
    }

    /// Serializes each of the batch's rows as one delimited-text record.
    #[verifier::loop_isolation(false)]
    #[verifier::rlimit(50)]
    pub fn write(&mut self, b: &RecordBatch) -> (res: Result<(), ConvError>)
        requires
            b.shape_wf(),
        ensures
            res is Ok,
            final(self).has_headers == old(self).has_headers,
            final(self).out@ == old(self).out@ + enc_csv_rows(b.rows(), 0),
    {
        let ghost rowsv = b.rows();
        let ghost base = self.out@;
        let nrows = b.nrows();
        let ncols = b.columns.len();
        let mut r: usize = 0;
        while r < nrows
            invariant
                r <= nrows,
                nrows == b.spec_nrows(),
                ncols == b.columns@.len(),
                b.shape_wf(),
                rowsv == b.rows(),
                enc_csv_rows(rowsv, 0) == self.out@.subrange(
                    base.len() as int,
                    self.out@.len() as int,
                ) + enc_csv_rows(rowsv, r as int),
                self.out@.len() >= base.len(),
                self.out@.subrange(0, base.len() as int) == base,
                self.has_headers == old(self).has_headers,
            decreases nrows - r,
        {
            let ghost rowv = rowsv[r as int];
            assert(rowv.len() == ncols);
            let ghost rowbase = self.out@;
            let mut c: usize = 0;
            while c < ncols
                invariant
                    c <= ncols,
                    r < nrows,
                    nrows == b.spec_nrows(),
                    ncols == b.columns@.len(),
                    b.shape_wf(),
                    rowv == b.rows()[r as int],
                    rowv.len() == ncols,
                    enc_csv_row(rowv, 0) == self.out@.subrange(
                        rowbase.len() as int,
                        self.out@.len() as int,
                    ) + enc_csv_row(rowv, c as int),
                    self.out@.len() >= rowbase.len(),
                    self.out@.subrange(0, rowbase.len() as int) == rowbase,
                    self.has_headers == old(self).has_headers,
                decreases ncols - c,
            {
                let ghost pre = self.out@;
                if c > 0 {
                    self.out.push(',' as u8);
                }
                assert(b.columns@[c as int]@[r as int]@ == rowv[c as int]);
                self.push_value(&b.columns[c][r]);
                proof {
                    let sep: Seq<u8> = if c > 0 {
                        seq![',' as u8]
                    } else {
                        Seq::<u8>::empty()
                    };
                    assert(self.out@ =~= pre + (sep + enc_field_text(csv_value_text(
                        rowv[c as int],
                    ))));
                    assert(self.out@.subrange(rowbase.len() as int, self.out@.len() as int) =~= pre
                        .subrange(rowbase.len() as int, pre.len() as int) + (sep + enc_field_text(
                        csv_value_text(rowv[c as int]),
                    )));
                    assert(self.out@.subrange(0, rowbase.len() as int) =~= rowbase);
                    assert(self.out@.subrange(rowbase.len() as int, self.out@.len() as int)
                        + enc_csv_row(rowv, c as int + 1) =~= pre.subrange(
                        rowbase.len() as int,
                        pre.len() as int,
                    ) + enc_csv_row(rowv, c as int));
                }
                c += 1;
            }
            let ghost pre = self.out@;
            self.out.push('\n' as u8);
            proof {
                assert(enc_csv_row(rowv, ncols as int) == seq!['\n' as u8]);
                assert(self.out@ =~= pre + seq!['\n' as u8]);
                assert(self.out@.subrange(rowbase.len() as int, self.out@.len() as int) =~= pre
                    .subrange(rowbase.len() as int, pre.len() as int) + seq!['\n' as u8]);
                assert(self.out@.subrange(rowbase.len() as int, self.out@.len() as int)
                    =~= enc_csv_row(rowv, 0));
                assert(self.out@.subrange(0, rowbase.len() as int) =~= rowbase);
                assert(self.out@.subrange(base.len() as int, self.out@.len() as int) =~= rowbase
                    .subrange(base.len() as int, rowbase.len() as int) + enc_csv_row(rowv, 0));
                assert(self.out@.subrange(0, base.len() as int) =~= base);
                assert(enc_csv_rows(rowsv, r as int) == enc_csv_row(rowv, 0) + enc_csv_rows(
                    rowsv,
                    r as int + 1,
                ));
                assert(self.out@.subrange(base.len() as int, self.out@.len() as int) + enc_csv_rows(
                    rowsv,
                    r as int + 1,
                ) =~= rowbase.subrange(base.len() as int, rowbase.len() as int) + enc_csv_rows(
                    rowsv,
                    r as int,
                ));
            }
            r += 1;
        }
        assert(enc_csv_rows(rowsv, nrows as int) == Seq::<u8>::empty());
        assert(self.out@ =~= base + self.out@.subrange(base.len() as int, self.out@.len() as int));
        assert(self.out@ =~= base + enc_csv_rows(rowsv, 0));
        Ok(())
    }
}

/// Builds the delimited-text encoder around the given byte sink.
pub fn create_writer(sink: Vec<u8>, options: &Options) -> (r: crate::writer::Writers)
    ensures
        r matches crate::writer::Writers::Csv(w) && w.out@ == sink@ && w.has_headers
            == options.has_headers,
{
    crate::writer::Writers::Csv(CsvWriter { out: sink, has_headers: options.has_headers })
}

} // verus!
