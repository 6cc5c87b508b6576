use vstd::prelude::*;

use crate::error::StreamError;

verus! {

/// The data type of a column, restricted to the scalar kinds this library
/// models.
#[derive(Clone, Copy, Debug, PartialEq, Eq, Structural)]
pub enum DataType {
    Int32,
    Int64,
    Boolean,
}

/// One value of a column: null, or a scalar of the column's type.
#[derive(Clone, Copy, Debug, PartialEq, Eq, Structural)]
pub enum Cell {
    Null,
    Int32(i32),
    Int64(i64),
    Boolean(bool),
}

/// The description of one column: its name, data type and nullability.
#[derive(Debug, PartialEq, Eq)]
pub struct Field {
    pub name: String,
    pub data_type: DataType,
    pub nullable: bool,
}

/// The ordered description of a batch's columns.
#[derive(Debug, PartialEq, Eq)]
pub struct Schema {
    pub fields: Vec<Field>,
}

/// The mathematical value of a field: name, data type, nullability.
pub type FieldView = (Seq<char>, DataType, bool);

/// The mathematical value of a schema: its fields in order.
pub type SchemaView = Seq<FieldView>;

impl View for Field {
    type V = FieldView;

    open spec fn view(&self) -> FieldView {
        (self.name@, self.data_type, self.nullable)
    }
}

impl View for Schema {
    type V = SchemaView;

    open spec fn view(&self) -> SchemaView {
        Seq::new(self.fields@.len(), |j: int| self.fields@[j]@)
    }
}

impl Field {
    /// Build a field description.
    pub fn new(name: String, data_type: DataType, nullable: bool) -> (f: Field)
        ensures
            f@ == (name@, data_type, nullable),
    {
        Field { name, data_type, nullable }
    }
}

impl Schema {
    /// Build a schema from its fields.
    pub fn new(fields: Vec<Field>) -> (s: Schema)
        ensures
            s@ == Seq::new(fields@.len(), |j: int| fields@[j]@),
    {
        Schema { fields }
    }

    /// The number of fields.
    pub fn num_fields(&self) -> (n: usize)
        ensures
            n == self@.len(),
    {
        self.fields.len()
    }

    /// A value-equal copy of this schema.
    pub fn duplicate(&self) -> (s: Schema)
        ensures
            s@ == self@,
    {
        let n = self.fields.len();
        let mut fields: Vec<Field> = Vec::new();
        let mut i: usize = 0;
        while i < n
            invariant
                i <= n,
                n == self.fields@.len(),
                fields@.len() == i,
                forall|j: int| 0 <= j < i ==> #[trigger] fields@[j]@ == self.fields@[j]@,
            decreases n - i,
        {
            let f = &self.fields[i];
            fields.push(Field { name: f.name.clone(), data_type: f.data_type, nullable: f.nullable });
            i += 1;
        }
        let s = Schema { fields };
        proof {
            assert(s@ =~= self@);
        }
        s
    }
}

/// Decide whether two schemas agree field for field: the same names, in the
/// same order, with the same data types and nullability.
pub fn schema_eq(a: &Schema, b: &Schema) -> (r: bool)
    ensures
        r == (a@ == b@),
{
    let n = a.fields.len();
    if n != b.fields.len() {
        return false;
    }
    let mut i: usize = 0;
    while i < n
        invariant
            i <= n,
            n == a.fields@.len(),
            n == b.fields@.len(),
            forall|j: int| 0 <= j < i ==> a@[j] == b@[j],
        decreases n - i,
    {
        let fa = &a.fields[i];
        let fb = &b.fields[i];
        if !(fa.name == fb.name) || fa.data_type != fb.data_type || fa.nullable != fb.nullable {
            proof {
                assert(a@[i as int] != b@[i as int]);
            }
            return false;
        }
        i += 1;
    }
    proof {
        assert(a@ =~= b@);
    }
    true
}

/// The columns a vector of cell vectors holds, as a sequence of sequences.
pub open spec fn cols_view(v: Seq<Vec<Cell>>) -> Seq<Seq<Cell>> {
    Seq::new(v.len(), |j: int| v[j]@)
}

/// The number of rows of a column set: the length of its first column, or
/// zero when there are no columns.
pub open spec fn rows_of(c: Seq<Seq<Cell>>) -> nat {
    if c.len() == 0 {
        0
    } else {
        c[0].len()
    }
}

/// Whether a column set fits a schema: one column per field, all columns of
/// one length.
pub open spec fn shape_ok(schema: SchemaView, cols: Seq<Seq<Cell>>) -> bool {
    &&& cols.len() == schema.len()
    &&& forall|j: int| 0 <= j < cols.len() ==> #[trigger] cols[j].len() == rows_of(cols)
}

/// A fixed number of rows stored column by column: one column per schema
/// field, all columns of equal length.
#[derive(Debug, PartialEq, Eq)]
pub struct RowBatch {
    schema: Schema,
    columns: Vec<Vec<Cell>>,
}

impl RowBatch {
    /// The schema of this batch, as a mathematical value.
    pub closed spec fn schema_spec(&self) -> SchemaView {
        self.schema@
    }

    /// The columns of this batch, as a sequence of cell sequences.
    pub closed spec fn cols(&self) -> Seq<Seq<Cell>> {
        cols_view(self.columns@)
    }

    /// The number of rows of this batch.
    pub open spec fn nrows(&self) -> nat {
        rows_of(self.cols())
    }

    /// A batch is well formed when its columns fit its schema.
    pub open spec fn wf(&self) -> bool {
        shape_ok(self.schema_spec(), self.cols())
    }

    /// Build a batch from a schema and its columns, after checking that the
    /// columns fit the schema: one column per field, all of one length.
    pub fn try_new(schema: Schema, columns: Vec<Vec<Cell>>) -> (r: Result<RowBatch, StreamError>)
        ensures
            shape_ok(schema@, cols_view(columns@)) <==> r is Ok,
            match r {
                Ok(b) => {
                    &&& b.wf()
                    &&& b.schema_spec() == schema@
                    &&& b.cols() == cols_view(columns@)
                },
                Err(e) => e == StreamError::SchemaMismatch,
            },
    {
        let k = columns.len();
        if k != schema.fields.len() {
            proof {
                assert(schema@.len() == schema.fields@.len());
                assert(cols_view(columns@).len() == columns@.len());
            }
            return Err(StreamError::SchemaMismatch);
        }
        let nrows: usize = if k == 0 {
            0
        } else {
            columns[0].len()
        };
        let mut j: usize = 0;
        while j < k
            invariant
                j <= k,
                k == columns@.len(),
                nrows == rows_of(cols_view(columns@)),
                forall|i: int| 0 <= i < j ==> #[trigger] columns@[i]@.len() == nrows,
            decreases k - j,
        {
            if columns[j].len() != nrows {
                proof {
                    assert(cols_view(columns@)[j as int].len() != rows_of(cols_view(columns@)));
                }
                return Err(StreamError::SchemaMismatch);
            }
            j += 1;
        }
        Ok(RowBatch { schema, columns })
    }

    /// The number of rows.
    pub fn num_rows(&self) -> (n: usize)
        ensures
            n == self.nrows(),
    {
        if self.columns.len() == 0 {
            0
        } else {
            self.columns[0].len()
        }
    }

    /// The number of columns.
    pub fn num_columns(&self) -> (n: usize)
        ensures
            n == self.cols().len(),
    {
        self.columns.len()
    }

    /// Borrow the schema.
    pub fn schema(&self) -> (s: &Schema)
        ensures
            s@ == self.schema_spec(),
    {
        &self.schema
    }

    /// Borrow column `j`.
    pub fn column(&self, j: usize) -> (c: &Vec<Cell>)
        requires
            j < self.cols().len(),
        ensures
            c@ == self.cols()[j as int],
    {
        &self.columns[j]
    }

    /// The cell of column `j` at row `i`.
    pub fn cell(&self, j: usize, i: usize) -> (c: Cell)
        requires
            j < self.cols().len(),
            i < self.cols()[j as int].len(),
        ensures
            c == self.cols()[j as int][i as int],
    {
        self.columns[j][i]
    }

    /// A value-equal copy of this batch.
    pub fn duplicate(&self) -> (r: RowBatch)
        ensures
            r.schema_spec() == self.schema_spec(),
            r.cols() == self.cols(),
    {
        let k = self.columns.len();
        let mut columns: Vec<Vec<Cell>> = Vec::new();
        let mut j: usize = 0;
        while j < k
            invariant
                j <= k,
                k == self.columns@.len(),
                columns@.len() == j,
                forall|i: int| 0 <= i < j ==> #[trigger] columns@[i]@ == self.columns@[i]@,
            decreases k - j,
        {
            let src = &self.columns[j];
            let n = src.len();
            let mut col: Vec<Cell> = Vec::new();
            let mut i: usize = 0;
            while i < n
                invariant
                    i <= n,
                    n == src@.len(),
                    col@ == src@.subrange(0, i as int),
                decreases n - i,
            {
                col.push(src[i]);
                proof {
                    assert(col@ =~= src@.subrange(0, i + 1));
                }
                i += 1;
            }
            proof {
                assert(col@ =~= src@);
            }
            columns.push(col);
            j += 1;
        }
        let r = RowBatch { schema: self.schema.duplicate(), columns };
        proof {
            assert(r.cols() =~= self.cols());
        }
        r
    }

    /// Decide whether two batches hold the same values: equal schemas and,
    /// column for column, equal cells.
    pub fn value_eq(&self, other: &RowBatch) -> (r: bool)
        requires
            self.wf(),
            other.wf(),
        ensures
            r == (self.schema_spec() == other.schema_spec() && self.cols() == other.cols()),
    {
        if !schema_eq(&self.schema, &other.schema) {
            return false;
        }
        let k = self.num_columns();
        let n = self.num_rows();
        if other.num_rows() != n {
            proof {
                if self.cols() == other.cols() {
                    assert(self.nrows() == other.nrows());
                }
            }
            return false;
        }
        let mut j: usize = 0;
        while j < k
            invariant
                j <= k,
                k == self.cols().len(),
                k == other.cols().len(),
                n == self.nrows(),
                n == other.nrows(),
                self.wf(),
                other.wf(),
                forall|j2: int| 0 <= j2 < j ==> self.cols()[j2] == other.cols()[j2],
            decreases k - j,
        {
            let mut i: usize = 0;
            while i < n
                invariant
                    i <= n,
                    j < k,
                    k == self.cols().len(),
                    k == other.cols().len(),
                    n == self.nrows(),
                    n == other.nrows(),
                    self.wf(),
                    other.wf(),
                    forall|i2: int| 0 <= i2 < i ==> self.cols()[j as int][i2] == other.cols()[j as int][i2],
                decreases n - i,
            {
                if self.cell(j, i) != other.cell(j, i) {
                    proof {
                        assert(self.cols()[j as int] != other.cols()[j as int]);
                    }
                    return false;
                }
                i += 1;
            }
            proof {
                assert(self.cols()[j as int] =~= other.cols()[j as int]);
            }
            j += 1;
        }
        proof {
            assert(self.cols() =~= other.cols());
        }
        true
    }
}

} // verus!
