//! The columnar data model: cell values, fields, schemas and record
//! batches.
//!
//! A batch is an ordered sequence of named, typed columns; every column in
//! a batch has the same row count, and every cell is well-formed for its
//! column's declared type.  A schema is produced once per stream and every
//! batch of that stream carries it.

use vstd::prelude::*;

use crate::num::is_canon_float;

verus! {

/// The primitive type of a column.
#[derive(Clone, Copy, PartialEq, Eq, Structural, Debug)]
pub enum DataType {
    Int64,
    Float64,
    Boolean,
    Utf8,
}

/// One cell of a column: a typed primitive or null.  Floating-point cells
/// hold their value as canonical literal text (see [`crate::num`]).
pub enum Value {
    Null,
    Int(i64),
    Float(Vec<u8>),
    Bool(bool),
    Str(Vec<u8>),
}

/// Mathematical mirror of [`Value`].
pub enum ValueV {
    Null,
    Int(int),
    Float(Seq<u8>),
    Bool(bool),
    Str(Seq<u8>),
}

impl View for Value {
    type V = ValueV;

    open spec fn view(&self) -> ValueV {
        match self {
            Value::Null => ValueV::Null,
            Value::Int(n) => ValueV::Int(*n as int),
            Value::Float(t) => ValueV::Float(t@),
            Value::Bool(b) => ValueV::Bool(*b),
            Value::Str(t) => ValueV::Str(t@),
        }
    }
}

impl DeepView for Value {
    type V = ValueV;

    open spec fn deep_view(&self) -> ValueV {
        self.view()
    }
}

/// A named, typed column slot of a schema.
pub struct Field {
    pub name: Vec<u8>,
    pub data_type: DataType,
    pub nullable: bool,
}

/// Mathematical mirror of [`Field`].
#[verifier::ext_equal]
pub struct FieldV {
    pub name: Seq<u8>,
    pub data_type: DataType,
    pub nullable: bool,
}

impl View for Field {
    type V = FieldV;

    open spec fn view(&self) -> FieldV {
        FieldV { name: self.name@, data_type: self.data_type, nullable: self.nullable }
    }
}

impl DeepView for Field {
    type V = FieldV;

    open spec fn deep_view(&self) -> FieldV {
        self.view()
    }
}

/// An ordered mapping from column name to column type, fixed per stream.
pub struct Schema {
    pub fields: Vec<Field>,
}

impl View for Schema {
    type V = Seq<FieldV>;

    open spec fn view(&self) -> Seq<FieldV> {
        self.fields.deep_view()
    }
}

/// A cell is well-formed for a field when its variant matches the field's
/// declared type, null appears only in nullable fields, integers fit `i64`,
/// and floating-point text is canonical.
pub open spec fn value_wf(v: ValueV, f: FieldV) -> bool {
    match v {
        ValueV::Null => f.nullable,
        ValueV::Int(n) => f.data_type == DataType::Int64 && i64::MIN <= n <= i64::MAX,
        ValueV::Float(t) => f.data_type == DataType::Float64 && is_canon_float(t),
        ValueV::Bool(_) => f.data_type == DataType::Boolean,
        ValueV::Str(_) => f.data_type == DataType::Utf8,
    }
}

/// A row is well-formed for a schema when it has one well-formed cell per
/// field, in schema order.
pub open spec fn row_wf(row: Seq<ValueV>, schema: Seq<FieldV>) -> bool {
    row.len() == schema.len() && forall|c: int|
        0 <= c < row.len() ==> value_wf(#[trigger] row[c], schema[c])
}

pub open spec fn rows_wf(rows: Seq<Seq<ValueV>>, schema: Seq<FieldV>) -> bool {
    forall|r: int| 0 <= r < rows.len() ==> row_wf(#[trigger] rows[r], schema)
}

/// A fixed-row-count, multi-column chunk of typed data: the unit moved
/// through the pipeline.
pub struct RecordBatch {
    pub schema: Schema,
    pub columns: Vec<Vec<Value>>,
    pub row_count: usize,
}

impl RecordBatch {
    /// Number of rows; every column holds this many cells.
    pub open spec fn spec_nrows(&self) -> int {
        self.row_count as int
    }

    /// The batch's contents read row by row.
    pub open spec fn rows(&self) -> Seq<Seq<ValueV>> {
        Seq::new(
            self.spec_nrows() as nat,
            |r: int| Seq::new(self.columns@.len(), |c: int| self.columns@[c]@[r]@),
        )
    }

    /// One column per schema field, every column with the batch's row
    /// count.
    pub open spec fn shape_wf(&self) -> bool {
        &&& self.columns@.len() == self.schema@.len()
        &&& forall|c: int|
            0 <= c < self.columns@.len() ==> (#[trigger] self.columns@[c])@.len()
                == self.spec_nrows()
    }

    /// A batch of the right shape whose every cell is well-formed for its
    /// column's field.
    pub open spec fn wf(&self) -> bool {
        &&& self.shape_wf()
        &&& forall|c: int, r: int|
            0 <= c < self.columns@.len() && 0 <= r < self.spec_nrows() ==> value_wf(
                #[trigger] self.columns@[c]@[r]@,
                self.schema@[c],
            )
    }

    pub proof fn lemma_rows_wf(&self)
        requires
            self.wf(),
        ensures
            rows_wf(self.rows(), self.schema@),
            self.rows().len() == self.spec_nrows(),
    {
        assert forall|r: int| 0 <= r < self.rows().len() implies row_wf(
            #[trigger] self.rows()[r],
            self.schema@,
        ) by {
            assert(self.rows()[r].len() == self.columns@.len());
        }
    }

    /// Number of rows.
    pub fn nrows(&self) -> (n: usize)
        ensures
            n == self.spec_nrows(),
    {
        self.row_count
    }
}

/// Whether a batch has one column per schema field, each with the batch's
/// row count.
pub fn batch_shape_ok(b: &RecordBatch) -> (r: bool)
    ensures
        r == b.shape_wf(),
{
    if b.columns.len() != b.schema.fields.len() {
        return false;
    }
    let mut c: usize = 0;
    while c < b.columns.len()
        invariant
            c <= b.columns@.len(),
            b.columns@.len() == b.schema@.len(),
            forall|j: int|
                0 <= j < c ==> (#[trigger] b.columns@[j])@.len() == b.spec_nrows(),
        decreases b.columns@.len() - c,
    {
        if b.columns[c].len() != b.row_count {
            return false;
        }
        c += 1;
    }
    true
}

/// Copies a byte vector.
pub fn dup_bytes(b: &Vec<u8>) -> (r: Vec<u8>)
    ensures
        r@ == b@,
{
    let r = b.clone();
    assert(r@ =~= b@);
    r
}

impl Value {
    /// A copy of this cell with the same contents.
    pub fn dup(&self) -> (r: Value)
        ensures
            r@ == self@,
    {
        match self {
            Value::Null => Value::Null,
            Value::Int(n) => Value::Int(*n),
            Value::Float(t) => Value::Float(dup_bytes(t)),
            Value::Bool(b) => Value::Bool(*b),
            Value::Str(t) => Value::Str(dup_bytes(t)),
        }
    }
}

impl Field {
    /// A copy of this field with the same contents.
    pub fn dup(&self) -> (r: Field)
        ensures
            r@ == self@,
    {
        Field { name: dup_bytes(&self.name), data_type: self.data_type, nullable: self.nullable }
    }
}

impl Schema {
    /// Number of fields.
    pub fn len(&self) -> (n: usize)
        ensures
            n == self@.len(),
    {
        self.fields.len()
    }

    /// A copy of this schema with the same contents.
    pub fn dup(&self) -> (r: Schema)
        ensures
            r@ == self@,
    {
        let mut fields: Vec<Field> = Vec::new();
        let mut i: usize = 0;
        while i < self.fields.len()
            invariant
                0 <= i <= self.fields@.len(),
                fields@.len() == i,
                forall|j: int| 0 <= j < i ==> (#[trigger] fields@[j])@ == self.fields@[j]@,
            decreases self.fields@.len() - i,
        {
            fields.push(self.fields[i].dup());
            i += 1;
        }
        let r = Schema { fields };
        assert(r@ =~= self@);
        r
    }
}

} // verus!
