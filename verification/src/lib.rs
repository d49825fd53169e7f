//! Streaming conversion of tabular data between row-oriented text encodings.
//!
//! The crate decodes delimited text (CSV) and line-delimited structured
//! records (JSON lines) into typed columnar batches, optionally inferring a
//! schema from a bounded sample of leading records, and re-encodes those
//! batches into either target encoding.  A single [`pipe`] stage moves data
//! from any supported source encoding to any supported destination
//! encoding.  Spreadsheet and columnar-binary tags are recognized but
//! resolve to "unsupported", signalled by an explicit absent value rather
//! than an error.

pub mod batch;
pub mod csvtext;
pub mod error;
pub mod infer;
pub mod jsontext;
pub mod laws;
pub mod num;
pub mod options;
pub mod reader;
pub mod types;
pub mod writer;

use vstd::prelude::*;

use crate::batch::{FieldV, ValueV};
use crate::error::{ConvError, ErrKind};
use crate::options::{sp_options, parse_options, OptVals};
use crate::reader::Readers;
use crate::reader::csv::sp_csv_decode;
use crate::reader::json::sp_json_decode;
use crate::types::{Type, infer_type, extension_of, type_of_name};
use crate::writer::Writers;
use crate::writer::csv::{csv_begin_bytes, enc_csv_rows, lemma_enc_csv_rows_append};
use crate::writer::json::{enc_json_rows, lemma_enc_json_rows_append};

verus! {

/// The bytes of an optional option text.
pub open spec fn opt_bytes(o: &Option<String>) -> Option<Seq<u8>> {
    match o {
        Some(s) => Some(vstd::utf8::encode_utf8(s@)),
        None => None,
    }
}

/// The decoder configuration an option text denotes for a source
/// encoding: the explicit schema, the header flag, and the sample size.
pub open spec fn sp_reader_cfg(t: Type, o: Option<Seq<u8>>) -> Option<
    (Option<Seq<FieldV>>, bool, int),
> {
    match o {
        None => Some((None, false, 1)),
        Some(s) => {
            let allow_header = t == Type::Csv;
            match sp_options(s, true, allow_header, false, true) {
                Some(v) => Some((v.schema, v.has_header, v.sample_size)),
                None => None,
            }
        },
    }
}

/// What building a decoder yields: the decoded stream, `None` for a
/// recognized but unsupported source encoding, or the kind of error.
pub open spec fn sp_create_reader(t: Type, input: Seq<u8>, o: Option<Seq<u8>>) -> Result<
    Option<(Seq<FieldV>, Seq<Seq<ValueV>>)>,
    ErrKind,
> {
    match t {
        Type::Csv => match sp_reader_cfg(t, o) {
            None => Err(ErrKind::Config),
            Some((sch, hh, sample)) => match sp_csv_decode(input, hh, sch, sample) {
                Ok(x) => Ok(Some(x)),
                Err(k) => Err(k),
            },
        },
        Type::Json => match sp_reader_cfg(t, o) {
            None => Err(ErrKind::Config),
            Some((sch, _, sample)) => match sp_json_decode(input, sch, sample) {
                Ok(x) => Ok(Some(x)),
                Err(k) => Err(k),
            },
        },
        Type::Xlsx => Ok(None),
        Type::Parquet => Ok(None),
    }
}

/// The encoder configuration a destination encoding and option text
/// denote: `None` in the outer result for unsupported encodings; the
/// first boolean marks a delimited-text encoder, the second its header
/// flag.
pub open spec fn sp_writer_cfg(t: Type, o: Option<Seq<u8>>) -> Result<
    Option<(bool, bool)>,
    ErrKind,
> {
    match t {
        Type::Csv => match o {
            None => Ok(Some((true, false))),
            Some(s) => match sp_options(s, false, false, true, false) {
                Some(v) => Ok(Some((true, v.has_headers))),
                None => Err(ErrKind::Config),
            },
        },
        Type::Json => Ok(Some((false, false))),
        Type::Xlsx => Ok(None),
        Type::Parquet => Ok(None),
    }
}

/// What a whole stream encodes to under an encoder configuration.
pub open spec fn sp_stream_bytes(
    cfg: (bool, bool),
    schema: Seq<FieldV>,
    rows: Seq<Seq<ValueV>>,
) -> Seq<u8> {
    if cfg.0 {
        csv_begin_bytes(cfg.1, schema) + enc_csv_rows(rows, 0)
    } else {
        enc_json_rows(schema, rows, 0)
    }
}

/// What one whole conversion yields: the output bytes, `None` when either
/// side is recognized but unsupported, or the kind of the first error.
pub open spec fn sp_convert(
    itype: Type,
    otype: Type,
    iopt: Option<Seq<u8>>,
    oopt: Option<Seq<u8>>,
    input: Seq<u8>,
) -> Result<Option<Seq<u8>>, ErrKind> {
    match sp_create_reader(itype, input, iopt) {
        Err(k) => Err(k),
        Ok(decoded) => match sp_writer_cfg(otype, oopt) {
            Err(k) => Err(k),
            Ok(cfg) => match (decoded, cfg) {
                (Some((schema, rows)), Some(c)) => Ok(Some(sp_stream_bytes(c, schema, rows))),
                _ => Ok(None),
            },
        },
    }
}

/// Builds the decoder for a source encoding: `Ok(None)` for a recognized
/// but unsupported encoding, so callers can tell "not implemented" from a
/// failure.
pub fn create_reader(t: Type, input: Vec<u8>, option: Option<String>) -> (r: Result<
    Option<Readers>,
    ConvError,
>)
    ensures
        match sp_create_reader(t, input@, opt_bytes(&option)) {
            Ok(Some((sch, rows))) => r matches Ok(Some(rd)) && rd.wf() && rd.spec_schema() == sch
                && rd.spec_rows() == rows && rd.spec_pos() == 0,
            Ok(None) => r matches Ok(None),
            Err(k) => r matches Err(e) && e.kind() == k,
        },
{
    match t {
        Type::Csv => {
            let opts: OptVals = match &option {
                None => OptVals {
                    schema: None,
                    has_header: false,
                    has_headers: false,
                    sample_size: 1,
                },
                Some(o) => match parse_options(o.as_str().as_bytes(), true, true, false, true) {
                    Ok(v) => v,
                    Err(e) => {
                        return Err(e);
                    },
                },
            };
            let copts = crate::reader::csv::Options {
                schema: opts.schema,
                has_header: opts.has_header,
                sample_size: opts.sample_size,
            };
            match crate::reader::csv::create_reader(input, &copts) {
                Ok(rd) => Ok(Some(rd)),
                Err(e) => Err(e),
            }
        },
        Type::Json => {
            let opts: OptVals = match &option {
                None => OptVals {
                    schema: None,
                    has_header: false,
                    has_headers: false,
                    sample_size: 1,
                },
                Some(o) => match parse_options(o.as_str().as_bytes(), true, false, false, true) {
                    Ok(v) => v,
                    Err(e) => {
                        return Err(e);
                    },
                },
            };
            let jopts = crate::reader::json::Options {
                schema: opts.schema,
                sample_size: opts.sample_size,
            };
            match crate::reader::json::create_reader(input, &jopts) {
                Ok(rd) => Ok(Some(rd)),
                Err(e) => Err(e),
            }
        },
        Type::Xlsx => Ok(None),
        Type::Parquet => Ok(None),
    }
}

/// Builds the encoder for a destination encoding around the given byte
/// sink: `Ok(None)` for a recognized but unsupported encoding.
pub fn create_writer(t: Type, sink: Vec<u8>, option: Option<String>) -> (r: Result<
    Option<Writers>,
    ConvError,
>)
    ensures
        match sp_writer_cfg(t, opt_bytes(&option)) {
            Ok(Some(cfg)) => r matches Ok(Some(w)) && w.spec_out() == sink@ && (cfg.0 ==> (
            w matches Writers::Csv(cw) && cw.has_headers == cfg.1)) && (!cfg.0 ==> w is Json),
            Ok(None) => r matches Ok(None),
            Err(k) => r matches Err(e) && e.kind() == k,
        },
{
    match t {
        Type::Csv => {
            let opts: OptVals = match &option {
                None => OptVals {
                    schema: None,
                    has_header: false,
                    has_headers: false,
                    sample_size: 1,
                },
                Some(o) => match parse_options(o.as_str().as_bytes(), false, false, true, false) {
                    Ok(v) => v,
                    Err(e) => {
                        return Err(e);
                    },
                },
            };
            let copts = crate::writer::csv::Options { has_headers: opts.has_headers };
            Ok(Some(crate::writer::csv::create_writer(sink, &copts)))
        },
        Type::Json => Ok(Some(crate::writer::json::create_writer(sink))),
        Type::Xlsx => Ok(None),
        Type::Parquet => Ok(None),
    }
}

/// Drives the conversion: announces the stream's schema to the encoder,
/// pulls batches one at a time and pushes each into the encoder, stopping
/// at the first error, then finalizes the encoder.  On success the sink
/// holds exactly the encoding of the decoder's schema and rows.
pub fn pipe(r: &mut Readers, w: &mut Writers) -> (res: Result<(), ConvError>)
    requires
        old(r).wf(),
        old(r).spec_pos() == 0,
    ensures
        res is Ok,
        final(w).spec_out() == old(w).spec_out() + old(w).begin_bytes(old(r).spec_schema())
            + old(w).rows_bytes(old(r).spec_schema(), old(r).spec_rows()),
{
    let ghost schemav = old(r).spec_schema();
    let ghost rowsv = old(r).spec_rows();
    match w.begin(r.schema()) {
        Ok(()) => (),
        Err(e) => {
            proof {
                assert(false);
            }
            return Err(e);
        },
    }
    let ghost started = w.spec_out();
    assert(rowsv.subrange(0, 0) =~= Seq::<Seq<ValueV>>::empty());
    loop
        invariant_except_break
            r.wf(),
            r.spec_schema() == schemav,
            r.spec_rows() == rowsv,
            0 <= r.spec_pos() <= rowsv.len(),
            w.same_config(old(w)),
            started == old(w).spec_out() + old(w).begin_bytes(schemav),
            w.spec_out() == started + old(w).rows_bytes(schemav, rowsv.subrange(0, r.spec_pos())),
        ensures
            w.same_config(old(w)),
            started == old(w).spec_out() + old(w).begin_bytes(schemav),
            w.spec_out() == started + old(w).rows_bytes(schemav, rowsv),
        decreases rowsv.len() - r.spec_pos(),
    {
        let ghost pos0 = r.spec_pos();
        match r.next_batch() {
            None => {
                assert(rowsv.subrange(0, rowsv.len() as int) =~= rowsv);
                break ;
            },
            Some(Ok(b)) => {
                proof {
                    if pos0 == rowsv.len() {
                        assert(false);
                    }
                }
                match w.write(b) {
                    Ok(()) => (),
                    Err(e) => {
                        proof {
                            assert(false);
                        }
                        return Err(e);
                    },
                }
                proof {
                    let a = rowsv.subrange(0, pos0);
                    let bseg = rowsv.subrange(pos0, r.spec_pos());
                    assert(a + bseg =~= rowsv.subrange(0, r.spec_pos()));
                    match old(w) {
                        Writers::Csv(_) => {
                            lemma_enc_csv_rows_append(a, bseg, 0);
                        },
                        Writers::Json(_) => {
                            lemma_enc_json_rows_append(schemav, a, bseg, 0);
                        },
                    }
                }
            },
            Some(Err(e)) => {
                proof {
                    assert(false);
                }
                return Err(e);
            },
        }
    }
    match w.finish() {
        Ok(()) => (),
        Err(e) => {
            proof {
                assert(false);
            }
            return Err(e);
        },
    }
    Ok(())
}

/// The encoding resolution [`infer_type`] performs, over error kinds.
pub open spec fn infer_type_spec(f: &Option<String>, t: &Option<Type>) -> Result<Type, ErrKind> {
    match (t, f) {
        (Some(ty), _) => Ok(*ty),
        (None, Some(name)) => match extension_of(vstd::utf8::encode_utf8(name@)) {
            Some(e) => match type_of_name(e) {
                Some(ty) => Ok(ty),
                None => Err(ErrKind::UnknownType),
            },
            None => Err(ErrKind::UnknownType),
        },
        (None, None) => Err(ErrKind::NoInput),
    }
}

/// One conversion invocation: the resolved (or to-be-inferred) source and
/// destination encodings and their option texts.
pub struct Cli {
    pub input: Option<String>,
    pub input_type: Option<Type>,
    pub input_options: Option<String>,
    pub output: Option<String>,
    pub output_type: Option<Type>,
    pub output_options: Option<String>,
}

impl Cli {
    /// Runs the conversion this invocation describes on the given input
    /// bytes: resolves both encodings, builds the decoder and encoder,
    /// pipes every batch across, and returns the output bytes.  A
    /// recognized but unsupported encoding on either side yields
    /// `Ok(None)`.
    pub fn execute(&self, input: Vec<u8>) -> (r: Result<Option<Vec<u8>>, ConvError>)
        ensures
            match (
                infer_type_spec(&self.input, &self.input_type),
                infer_type_spec(&self.output, &self.output_type),
            ) {
                (Err(k), _) => r matches Err(e) && e.kind() == k,
                (Ok(_), Err(k)) => r matches Err(e) && e.kind() == k,
                (Ok(it), Ok(ot)) => match sp_convert(
                    it,
                    ot,
                    opt_bytes(&self.input_options),
                    opt_bytes(&self.output_options),
                    input@,
                ) {
                    Ok(Some(out)) => r matches Ok(Some(v)) && v@ == out,
                    Ok(None) => r matches Ok(None),
                    Err(k) => r matches Err(e) && e.kind() == k,
                },
            },
    {
        let itype = match infer_type(&self.input, &self.input_type) {
            Ok(t) => t,
            Err(e) => {
                return Err(e);
            },
        };
        let otype = match infer_type(&self.output, &self.output_type) {
            Ok(t) => t,
            Err(e) => {
                return Err(e);
            },
        };
        let iopt: Option<String> = match &self.input_options {
            Some(s) => Some(s.clone()),
            None => None,
        };
        let oopt: Option<String> = match &self.output_options {
            Some(s) => Some(s.clone()),
            None => None,
        };
        let reader = match create_reader(itype, input, iopt) {
            Ok(x) => x,
            Err(e) => {
                return Err(e);
            },
        };
        let writer = match create_writer(otype, Vec::new(), oopt) {
            Ok(x) => x,
            Err(e) => {
                return Err(e);
            },
        };
        match (reader, writer) {
            (Some(mut rd), Some(mut wr)) => {
                match pipe(&mut rd, &mut wr) {
                    Ok(()) => (),
                    Err(e) => {
                        proof {
                            assert(false);
                        }
                        return Err(e);
                    },
                }
                Ok(Some(wr.into_bytes()))
            },
            _ => Ok(None),
        }
    }
}

} // verus!
