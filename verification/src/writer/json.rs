//! The line-delimited structured-record encoder.
//!
//! Each row becomes one record line holding only the columns whose value
//! is non-null for that row: null fields are omitted, not written as an
//! explicit null.  String contents and column names are escaped as the
//! decoder unescapes them.

use vstd::prelude::*;

use crate::batch::{FieldV, RecordBatch, ValueV};
use crate::error::ConvError;
use crate::jsontext::{esc_json, push_escaped, lit_true, lit_false};
use crate::num::{fmt_int, format_i64};

verus! {

/// The value text of one non-null cell.
pub open spec fn json_value_text(v: ValueV) -> Seq<u8> {
    match v {
        ValueV::Null => Seq::empty(),
        ValueV::Int(n) => fmt_int(n),
        ValueV::Float(t) => t,
        ValueV::Bool(b) => if b {
            lit_true()
        } else {
            lit_false()
        },
        ValueV::Str(s) => seq!['"' as u8] + esc_json(s) + seq!['"' as u8],
    }
}

/// The encoded tail of a record from column `c` on: the remaining
/// non-null members, the closing brace and the line terminator.
pub open spec fn enc_members(schema: Seq<FieldV>, row: Seq<ValueV>, c: int, first: bool) -> Seq<u8>
    decreases row.len() - c,
{
    if c < 0 || c >= row.len() {
        seq!['}' as u8]
    } else if row[c] is Null {
        enc_members(schema, row, c + 1, first)
    } else {
        (if first {
            Seq::empty()
        } else {
            seq![',' as u8]
        }) + seq!['"' as u8] + esc_json(schema[c].name) + seq!['"' as u8, ':' as u8]
            + json_value_text(row[c]) + enc_members(schema, row, c + 1, false)
    }
}

/// One encoded record line, without its terminator.
pub open spec fn json_line(schema: Seq<FieldV>, row: Seq<ValueV>) -> Seq<u8> {
    seq!['{' as u8] + enc_members(schema, row, 0, true)
}

/// One encoded record line.
pub open spec fn enc_json_row(schema: Seq<FieldV>, row: Seq<ValueV>) -> Seq<u8> {
    json_line(schema, row) + seq!['\n' as u8]
}

/// The encoded rows from `r` on.
pub open spec fn enc_json_rows(schema: Seq<FieldV>, rows: Seq<Seq<ValueV>>, r: int) -> Seq<u8>
    decreases rows.len() - r,
{
    if r < 0 || r >= rows.len() {
        Seq::empty()
    } else {
        enc_json_row(schema, rows[r]) + enc_json_rows(schema, rows, r + 1)
    }
}

pub proof fn lemma_enc_json_rows_shift(
    schema: Seq<FieldV>,
    xs: Seq<Seq<ValueV>>,
    ys: Seq<Seq<ValueV>>,
    j: int,
)
    requires
        0 <= j <= ys.len(),
    ensures
        enc_json_rows(schema, xs + ys, xs.len() + j) == enc_json_rows(schema, ys, j),
    decreases ys.len() - j,
{
    if j < ys.len() {
        assert((xs + ys)[xs.len() + j] == ys[j]);
        lemma_enc_json_rows_shift(schema, xs, ys, j + 1);
    }
}

/// Encoding rows of a concatenation is concatenating the encodings.
pub proof fn lemma_enc_json_rows_append(
    schema: Seq<FieldV>,
    xs: Seq<Seq<ValueV>>,
    ys: Seq<Seq<ValueV>>,
    r: int,
)
    requires
        0 <= r <= xs.len(),
    ensures
        enc_json_rows(schema, xs + ys, r) == enc_json_rows(schema, xs, r) + enc_json_rows(
            schema,
            ys,
            0,
        ),
    decreases xs.len() - r,
{
    if r == xs.len() {
        lemma_enc_json_rows_shift(schema, xs, ys, 0);
        assert(enc_json_rows(schema, xs, r) == Seq::<u8>::empty());
        assert(Seq::<u8>::empty() + enc_json_rows(schema, ys, 0) =~= enc_json_rows(schema, ys, 0));
    } else {
        assert((xs + ys)[r] == xs[r]);
        lemma_enc_json_rows_append(schema, xs, ys, r + 1);
        assert(enc_json_row(schema, xs[r]) + (enc_json_rows(schema, xs, r + 1) + enc_json_rows(
            schema,
            ys,
            0,
        )) =~= (enc_json_row(schema, xs[r]) + enc_json_rows(schema, xs, r + 1)) + enc_json_rows(
            schema,
            ys,
            0,
        ));
    }
}

/// Serializes columnar batches as line-delimited records appended to
/// `out`.
pub struct JsonWriter {
    pub out: Vec<u8>,
}

impl JsonWriter {
    /// Appends one non-null cell's value text.
    fn push_value(&mut self, v: &crate::batch::Value)
        requires
            !(v@ is Null),
        ensures
            final(self).out@ == old(self).out@ + json_value_text(v@),
    {
        match v {
            crate::batch::Value::Null => {
                assert(false);
            },
            crate::batch::Value::Int(n) => {
                let t = format_i64(*n);
                crate::num::push_range(&mut self.out, t.as_slice(), 0, t.len());
                assert(t@.subrange(0, t@.len() as int) =~= t@);
            },
            crate::batch::Value::Float(t) => {
                crate::num::push_range(&mut self.out, t.as_slice(), 0, t.len());
                assert(t@.subrange(0, t@.len() as int) =~= t@);
            },
            crate::batch::Value::Bool(b) => {
                if *b {
                    self.out.push('t' as u8);
                    self.out.push('r' as u8);
                    self.out.push('u' as u8);
                    self.out.push('e' as u8);
                    assert(self.out@ =~= old(self).out@ + lit_true());
                } else {
                    self.out.push('f' as u8);
                    self.out.push('a' as u8);
                    self.out.push('l' as u8);
                    self.out.push('s' as u8);
                    self.out.push('e' as u8);
                    assert(self.out@ =~= old(self).out@ + lit_false());
                }
            },
            crate::batch::Value::Str(t) => {
                self.out.push('"' as u8);
                push_escaped(&mut self.out, t.as_slice());
                self.out.push('"' as u8);
                assert(self.out@ =~= old(self).out@ + (seq!['"' as u8] + esc_json(t@) + seq![
                    '"' as u8,
                ]));
            },
        }
    }

    /// Serializes each of the batch's rows as one record line.
    #[verifier::loop_isolation(false)]
    #[verifier::rlimit(80)]
    pub fn write(&mut self, b: &RecordBatch) -> (res: Result<(), ConvError>)
        requires
            b.shape_wf(),
        ensures
            res is Ok,
            final(self).out@ == old(self).out@ + enc_json_rows(b.schema@, b.rows(), 0),
    {
        let ghost schemav = b.schema@;
        let ghost rowsv = b.rows();
        let ghost base = self.out@;
        let nrows = b.nrows();
        let ncols = b.columns.len();
        let mut r: usize = 0;
        while r < nrows
            invariant
                r <= nrows,
                nrows == b.spec_nrows(),
                ncols == b.columns@.len(),
                b.shape_wf(),
                schemav == b.schema@,
                rowsv == b.rows(),
                enc_json_rows(schemav, rowsv, 0) == self.out@.subrange(
                    base.len() as int,
                    self.out@.len() as int,
                ) + enc_json_rows(schemav, rowsv, r as int),
                self.out@.len() >= base.len(),
                self.out@.subrange(0, base.len() as int) == base,
            decreases nrows - r,
        {
            let ghost rowv = rowsv[r as int];
            assert(rowv.len() == ncols);
            let ghost rowbase = self.out@;
            self.out.push('{' as u8);
            assert(self.out@ =~= rowbase + seq!['{' as u8]);
            let mut c: usize = 0;
            let mut first: bool = true;
            while c < ncols
                invariant
                    c <= ncols,
                    r < nrows,
                    nrows == b.spec_nrows(),
                    ncols == b.columns@.len(),
                    b.shape_wf(),
                    schemav == b.schema@,
                    rowv == b.rows()[r as int],
                    rowv.len() == ncols,
                    enc_members(schemav, rowv, 0, true) == self.out@.subrange(
                        rowbase.len() as int + 1,
                        self.out@.len() as int,
                    ) + enc_members(schemav, rowv, c as int, first),
                    self.out@.len() >= rowbase.len() + 1,
                    self.out@.subrange(0, rowbase.len() as int + 1) == rowbase + seq!['{' as u8],
                decreases ncols - c,
            {
                assert(b.columns@[c as int]@[r as int]@ == rowv[c as int]);
                let is_null = matches!(&b.columns[c][r], crate::batch::Value::Null);
                if !is_null {
                    let ghost pre = self.out@;
                    if !first {
                        self.out.push(',' as u8);
                    }
                    self.out.push('"' as u8);
                    assert(schemav[c as int] == b.schema.fields@[c as int]@);
                    push_escaped(&mut self.out, b.schema.fields[c].name.as_slice());
                    self.out.push('"' as u8);
                    self.out.push(':' as u8);
                    self.push_value(&b.columns[c][r]);
                    proof {
                        let sep: Seq<u8> = if first {
                            Seq::<u8>::empty()
                        } else {
                            seq![',' as u8]
                        };
                        assert(self.out@ =~= pre + (sep + seq!['"' as u8] + esc_json(
                            schemav[c as int].name,
                        ) + seq!['"' as u8, ':' as u8] + json_value_text(rowv[c as int])));
                        assert(enc_members(schemav, rowv, c as int, first) == sep + seq!['"' as u8]
                            + esc_json(schemav[c as int].name) + seq!['"' as u8, ':' as u8]
                            + json_value_text(rowv[c as int]) + enc_members(
                            schemav,
                            rowv,
                            c as int + 1,
                            false,
                        ));
                        assert(self.out@.subrange(rowbase.len() as int + 1, self.out@.len() as int)
                            =~= pre.subrange(rowbase.len() as int + 1, pre.len() as int) + (sep
                            + seq!['"' as u8] + esc_json(schemav[c as int].name) + seq![
                            '"' as u8,
                            ':' as u8,
                        ] + json_value_text(rowv[c as int])));
                        assert(self.out@.subrange(0, rowbase.len() as int + 1) =~= rowbase + seq![
                            '{' as u8,
                        ]);
                        assert(self.out@.subrange(rowbase.len() as int + 1, self.out@.len() as int)
                            + enc_members(schemav, rowv, c as int + 1, false) =~= pre.subrange(
                            rowbase.len() as int + 1,
                            pre.len() as int,
                        ) + enc_members(schemav, rowv, c as int, first));
                    }
                    first = false;
                } else {
                    assert(rowv[c as int] is Null);
                    assert(enc_members(schemav, rowv, c as int, first) == enc_members(
                        schemav,
                        rowv,
                        c as int + 1,
                        first,
                    ));
                }
                c += 1;
            }
            let ghost pre = self.out@;
            self.out.push('}' as u8);
            self.out.push('\n' as u8);
            proof {
                assert(enc_members(schemav, rowv, ncols as int, first) == seq!['}' as u8]);
                assert(self.out@ =~= pre + seq!['}' as u8, '\n' as u8]);
                assert(self.out@.subrange(rowbase.len() as int + 1, self.out@.len() as int) =~= pre
                    .subrange(rowbase.len() as int + 1, pre.len() as int) + seq![
                    '}' as u8,
                    '\n' as u8,
                ]);
                assert(self.out@.subrange(rowbase.len() as int + 1, self.out@.len() as int)
                    =~= enc_members(schemav, rowv, 0, true) + seq!['\n' as u8]);
                assert(self.out@.subrange(0, rowbase.len() as int + 1) =~= rowbase + seq![
                    '{' as u8,
                ]);
                assert(self.out@.subrange(rowbase.len() as int, self.out@.len() as int)
                    =~= self.out@.subrange(rowbase.len() as int, rowbase.len() as int + 1)
                    + self.out@.subrange(rowbase.len() as int + 1, self.out@.len() as int));
                assert(self.out@.subrange(0, rowbase.len() as int + 1)[rowbase.len() as int]
                    == '{' as u8);
                assert(self.out@[rowbase.len() as int] == '{' as u8);
                assert(self.out@.subrange(rowbase.len() as int, rowbase.len() as int + 1) =~= seq![
                    '{' as u8,
                ]);
                assert(self.out@.subrange(rowbase.len() as int, self.out@.len() as int) =~= seq![
                    '{' as u8,
                ] + enc_members(schemav, rowv, 0, true) + seq!['\n' as u8]);
                assert(self.out@.subrange(rowbase.len() as int, self.out@.len() as int)
                    =~= enc_json_row(schemav, rowv));
                assert(self.out@.subrange(0, rowbase.len() as int) =~= rowbase);
                assert(self.out@.subrange(base.len() as int, self.out@.len() as int) =~= rowbase
                    .subrange(base.len() as int, rowbase.len() as int) + enc_json_row(
                    schemav,
                    rowv,
                ));
                assert(self.out@.subrange(0, base.len() as int) =~= base);
                assert(enc_json_rows(schemav, rowsv, r as int) == enc_json_row(schemav, rowv)
                    + enc_json_rows(schemav, rowsv, r as int + 1));
                assert(self.out@.subrange(base.len() as int, self.out@.len() as int)
                    + enc_json_rows(schemav, rowsv, r as int + 1) =~= rowbase.subrange(
                    base.len() as int,
                    rowbase.len() as int,
                ) + enc_json_rows(schemav, rowsv, r as int));
            }
            r += 1;
        }
        assert(enc_json_rows(schemav, rowsv, nrows as int) == Seq::<u8>::empty());
        assert(self.out@ =~= base + self.out@.subrange(base.len() as int, self.out@.len() as int));
        assert(self.out@ =~= base + enc_json_rows(schemav, rowsv, 0));
        Ok(())
    }

    /// Flushes any trailing state; line-delimited output needs none.
    pub fn finish(&mut self) -> (res: Result<(), ConvError>)
        ensures
            res is Ok,
            final(self).out@ == old(self).out@,
    {
        Ok(())
    }
}

/// Builds the line-delimited structured-record encoder around the given
/// byte sink.
pub fn create_writer(sink: Vec<u8>) -> (r: crate::writer::Writers)
    ensures
        r matches crate::writer::Writers::Json(w) && w.out@ == sink@,
{
    crate::writer::Writers::Json(JsonWriter { out: sink })
}

} // verus!
