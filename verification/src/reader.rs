//! Decoders: from raw bytes to a lazy sequence of columnar batches.
//!
//! A decoder resolves its schema once — supplied explicitly or inferred
//! from a bounded sample — decodes every record against it, and then hands
//! the rows out as batches of at most [`BATCH_ROWS`] rows, pulled one at a
//! time.  Batching is an internal chunking decision: it does not change
//! what the encoders produce.

pub mod csv;
pub mod json;

use vstd::prelude::*;

use crate::batch::{RecordBatch, Schema, Value, ValueV, FieldV};
use crate::error::ConvError;

verus! {

/// Rows per emitted batch.
pub const BATCH_ROWS: usize = 1024;

/// A decoder's state after its input has been decoded: the stream's
/// schema, the decoded rows, and how many rows have been handed out.
pub struct BatchReader {
    pub schema: Schema,
    pub rows: Vec<Vec<Value>>,
    pub pos: usize,
}

impl BatchReader {
    /// Every row as wide as the schema, and the cursor within bounds.
    pub open spec fn wf(&self) -> bool {
        &&& self.pos <= self.rows@.len()
        &&& forall|r: int|
            0 <= r < self.rows@.len() ==> (#[trigger] self.rows@[r])@.len() == self.schema@.len()
    }

    pub open spec fn spec_rows(&self) -> Seq<Seq<ValueV>> {
        self.rows.deep_view()
    }

    /// Hands out the next batch of up to [`BATCH_ROWS`] rows; `None` once
    /// every row has been handed out.
    #[verifier::loop_isolation(false)]
    pub fn next_batch(&mut self) -> (r: Option<Result<RecordBatch, ConvError>>)
        requires
            old(self).wf(),
        ensures
            final(self).wf(),
            final(self).schema@ == old(self).schema@,
            final(self).spec_rows() == old(self).spec_rows(),
            old(self).pos == old(self).rows@.len() ==> r is None && final(self).pos == old(
                self,
            ).pos,
            old(self).pos < old(self).rows@.len() ==> {
                &&& r matches Some(Ok(b))
                &&& final(self).pos == if old(self).pos + BATCH_ROWS <= old(self).rows@.len() {
                    old(self).pos + BATCH_ROWS
                } else {
                    old(self).rows@.len() as int
                }
                &&& (r matches Some(Ok(b)) ==> b.schema@ == old(self).schema@ && b.shape_wf()
                    && b.rows()
                    =~= old(self).spec_rows().subrange(
                    old(self).pos as int,
                    final(self).pos as int,
                ))
            },
    {
        let n = self.rows.len();
        if self.pos >= n {
            return None;
        }
        let start = self.pos;
        let end: usize = if n - start > BATCH_ROWS {
            start + BATCH_ROWS
        } else {
            n
        };
        let ncols = self.schema.len();
        let mut columns: Vec<Vec<Value>> = Vec::new();
        let mut c: usize = 0;
        while c < ncols
            invariant
                c <= ncols,
                ncols == self.schema@.len(),
                start < end <= self.rows@.len(),
                self.wf(),
                columns@.len() == c,
                forall|j: int| 0 <= j < c ==> (#[trigger] columns@[j])@.len() == end - start,
                forall|j: int, i: int|
                    0 <= j < c && 0 <= i < end - start ==> #[trigger] columns@[j]@[i]@
                        == self.rows@[start + i]@[j]@,
            decreases ncols - c,
        {
            let mut col: Vec<Value> = Vec::new();
            let mut i: usize = start;
            while i < end
                invariant
                    start <= i <= end <= self.rows@.len(),
                    c < ncols,
                    ncols == self.schema@.len(),
                    self.wf(),
                    col@.len() == i - start,
                    forall|k: int|
                        0 <= k < i - start ==> (#[trigger] col@[k])@ == self.rows@[start + k]@[c as int]@,
                decreases end - i,
            {
                col.push(self.rows[i][c].dup());
                i += 1;
            }
            columns.push(col);
            c += 1;
        }
        let batch = RecordBatch { schema: self.schema.dup(), columns, row_count: end - start };
        assert(batch.spec_nrows() == end - start);
        assert(batch.shape_wf());
        assert(batch.rows() =~~= self.spec_rows().subrange(start as int, end as int));
        self.pos = end;
        Some(Ok(batch))
    }
}

/// The closed set of decoders, one per supported source encoding.
pub enum Readers {
    Csv(BatchReader),
    Json(BatchReader),
}

/// The uniform decoder interface: pull the next batch or the first error.
pub trait Reader {
    /// The decoder's internal invariant.
    spec fn reader_wf(&self) -> bool;

    /// Pulls the next batch; `None` once the stream is exhausted.
    fn pull(&mut self) -> (r: Option<Result<RecordBatch, ConvError>>)
        requires
            old(self).reader_wf(),
        ensures
            final(self).reader_wf(),
    ;
}

impl Readers {
    pub open spec fn inner(&self) -> BatchReader {
        match self {
            Readers::Csv(r) => *r,
            Readers::Json(r) => *r,
        }
    }

    pub open spec fn wf(&self) -> bool {
        self.inner().wf()
    }

    pub open spec fn spec_schema(&self) -> Seq<FieldV> {
        self.inner().schema@
    }

    pub open spec fn spec_rows(&self) -> Seq<Seq<ValueV>> {
        self.inner().spec_rows()
    }

    pub open spec fn spec_pos(&self) -> int {
        self.inner().pos as int
    }

    /// The stream's schema.
    pub fn schema(&self) -> (s: &Schema)
        ensures
            s@ == self.spec_schema(),
    {
        match self {
            Readers::Csv(r) => &r.schema,
            Readers::Json(r) => &r.schema,
        }
    }

    /// Pulls the next batch; `None` once the stream is exhausted.
    pub fn next_batch(&mut self) -> (r: Option<Result<RecordBatch, ConvError>>)
        requires
            old(self).wf(),
        ensures
            final(self).wf(),
            final(self).spec_schema() == old(self).spec_schema(),
            final(self).spec_rows() == old(self).spec_rows(),
            old(self).spec_pos() == old(self).spec_rows().len() ==> r is None
                && final(self).spec_pos() == old(self).spec_pos(),
            old(self).spec_pos() < old(self).spec_rows().len() ==> {
                &&& final(self).spec_pos() == (if old(self).spec_pos() + BATCH_ROWS
                    <= old(self).spec_rows().len() {
                    old(self).spec_pos() + BATCH_ROWS
                } else {
                    old(self).spec_rows().len() as int
                })
                &&& (r matches Some(Ok(b)) && b.schema@ == old(self).spec_schema()
                    && b.shape_wf() && b.rows()
                    =~= old(self).spec_rows().subrange(old(self).spec_pos(), final(self).spec_pos()))
            },
    {
        match self {
            Readers::Csv(r) => r.next_batch(),
            Readers::Json(r) => r.next_batch(),
        }
    }
}

impl Reader for Readers {
    open spec fn reader_wf(&self) -> bool {
        self.wf()
    }

    fn pull(&mut self) -> (r: Option<Result<RecordBatch, ConvError>>) {
        self.next_batch()
    }
}

} // verus!
