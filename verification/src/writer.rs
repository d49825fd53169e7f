//! Encoders: from columnar batches to raw bytes.
//!
//! An encoder owns its byte sink and appends to it: a begin step writes
//! whatever precedes the data (the header record, when enabled), each
//! write serializes one batch, and finalize flushes any trailing state.

pub mod csv;
pub mod json;

use vstd::prelude::*;

use crate::batch::{FieldV, RecordBatch, Schema, ValueV};
use crate::error::ConvError;
use crate::writer::csv::{CsvWriter, csv_begin_bytes, enc_csv_rows};
use crate::writer::json::{JsonWriter, enc_json_rows};

verus! {

/// The uniform encoder interface: write one batch, then finalize.
pub trait Writer {
    /// Serializes one batch into the sink.
    fn write(&mut self, batches: RecordBatch) -> Result<(), ConvError>;

    /// Flushes whatever the encoding needs after the last batch.
    fn finish(&mut self) -> Result<(), ConvError>;
}

/// The closed set of encoders, one per supported destination encoding.
pub enum Writers {
    Csv(CsvWriter),
    Json(JsonWriter),
}

impl Writers {
    /// The bytes accumulated in the sink.
    pub open spec fn spec_out(&self) -> Seq<u8> {
        match self {
            Writers::Csv(w) => w.out@,
            Writers::Json(w) => w.out@,
        }
    }

    /// Same encoding and options as another encoder state.
    pub open spec fn same_config(&self, other: &Writers) -> bool {
        match (self, other) {
            (Writers::Csv(a), Writers::Csv(b)) => a.has_headers == b.has_headers,
            (Writers::Json(_), Writers::Json(_)) => true,
            _ => false,
        }
    }

    /// What `begin` appends for a stream with this schema.
    pub open spec fn begin_bytes(&self, schema: Seq<FieldV>) -> Seq<u8> {
        match self {
            Writers::Csv(w) => csv_begin_bytes(w.has_headers, schema),
            Writers::Json(_) => Seq::empty(),
        }
    }

    /// What the data rows of a stream encode to.
    pub open spec fn rows_bytes(&self, schema: Seq<FieldV>, rows: Seq<Seq<ValueV>>) -> Seq<u8> {
        match self {
            Writers::Csv(_) => enc_csv_rows(rows, 0),
            Writers::Json(_) => enc_json_rows(schema, rows, 0),
        }
    }

    /// Everything a whole stream encodes to.
    pub open spec fn stream_bytes(&self, schema: Seq<FieldV>, rows: Seq<Seq<ValueV>>) -> Seq<u8> {
        self.begin_bytes(schema) + self.rows_bytes(schema, rows)
    }

    /// Writes whatever precedes the data: the header record, when this
    /// encoder writes one.
    pub fn begin(&mut self, schema: &Schema) -> (res: Result<(), ConvError>)
        ensures
            res is Ok,
            final(self).same_config(old(self)),
            final(self).spec_out() == old(self).spec_out() + old(self).begin_bytes(schema@),
    {
        match self {
            Writers::Csv(w) => {
                w.begin(schema);
            },
            Writers::Json(_) => {
                assert(old(self).spec_out() =~= old(self).spec_out() + Seq::<u8>::empty());
            },
        }
        Ok(())
    }

    /// Serializes one batch into the sink.
    pub fn write(&mut self, batches: RecordBatch) -> (res: Result<(), ConvError>)
        requires
            batches.shape_wf(),
        ensures
            res is Ok,
            final(self).same_config(old(self)),
            final(self).spec_out() == old(self).spec_out() + old(self).rows_bytes(
                batches.schema@,
                batches.rows(),
            ),
    {
        match self {
            Writers::Csv(w) => w.write(&batches),
            Writers::Json(w) => w.write(&batches),
        }
    }

    /// Flushes whatever the encoding needs after the last batch; neither
    /// supported encoding has trailing state.
    pub fn finish(&mut self) -> (res: Result<(), ConvError>)
        ensures
            res is Ok,
            final(self).same_config(old(self)),
            final(self).spec_out() == old(self).spec_out(),
    {
        match self {
            Writers::Csv(_) => Ok(()),
            Writers::Json(w) => w.finish(),
        }
    }

    /// Hands the sink back.
    pub fn into_bytes(self) -> (r: Vec<u8>)
        ensures
            r@ == self.spec_out(),
    {
        match self {
            Writers::Csv(w) => w.out,
            Writers::Json(w) => w.out,
        }
    }
}

impl Writer for Writers {
    fn write(&mut self, batches: RecordBatch) -> Result<(), ConvError> {
        if !crate::batch::batch_shape_ok(&batches) {
            return Err(ConvError::Encode("batch shape does not match its schema".to_owned()));
        }
        self.write(batches)
    }

    fn finish(&mut self) -> Result<(), ConvError> {
        self.finish()
    }
}

} // verus!
