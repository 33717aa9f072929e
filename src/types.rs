use vstd::prelude::*;

verus! {

/// The scalar types that a column can declare.
#[derive(Clone, Copy, Debug, PartialEq, Eq, Structural)]
pub enum DataType {
    Int32,
    Varchar,
}

/// Direction in which a primary-key column is ordered.
#[derive(Clone, Copy, Debug, PartialEq, Eq, Structural)]
pub enum OrderType {
    Ascending,
    Descending,
}

/// A non-null scalar value.
#[derive(Clone, Debug, PartialEq, Eq)]
pub enum ScalarImpl {
    Int32(i32),
    Utf8(String),
}

/// The mathematical value of a scalar.
pub ghost enum ScalarValue {
    Int(i32),
    Str(Seq<char>),
}

impl View for ScalarImpl {
    type V = ScalarValue;

    open spec fn view(&self) -> ScalarValue {
        match self {
            ScalarImpl::Int32(v) => ScalarValue::Int(*v),
            ScalarImpl::Utf8(s) => ScalarValue::Str(s@),
        }
    }
}

impl ScalarImpl {
    pub fn as_int32(&self) -> (r: &i32)
        requires
            self is Int32,
        ensures
            self@ == ScalarValue::Int(*r),
    {
        match self {
            ScalarImpl::Int32(v) => v,
            ScalarImpl::Utf8(_) => {
                proof {
                    assert(false);
                }
                &0
            },
        }
    }

    pub fn as_utf8(&self) -> (r: &str)
        requires
            self is Utf8,
        ensures
            self@ == ScalarValue::Str(r@),
    {
        match self {
            ScalarImpl::Utf8(s) => s.as_str(),
            ScalarImpl::Int32(_) => {
                proof {
                    assert(false);
                }
                ""
            },
        }
    }
}

/// A nullable scalar value.
pub type Datum = Option<ScalarImpl>;

/// The mathematical value of a datum.
pub type DatumValue = Option<ScalarValue>;

pub open spec fn datum_view(d: Datum) -> DatumValue {
    match d {
        Some(s) => Some(s@),
        None => None,
    }
}

/// Whether a datum may stand in a column of type `t`.
pub open spec fn datum_has_type(d: DatumValue, t: DataType) -> bool {
    match d {
        None => true,
        Some(ScalarValue::Int(_)) => t == DataType::Int32,
        Some(ScalarValue::Str(_)) => t == DataType::Varchar,
    }
}

/// An ordered sequence of datums.
#[derive(Clone, Debug, PartialEq, Eq)]
pub struct Row(pub Vec<Datum>);

impl View for Row {
    type V = Seq<DatumValue>;

    open spec fn view(&self) -> Seq<DatumValue> {
        self.0@.map_values(|d: Datum| datum_view(d))
    }
}

/// A column of a schema.
#[derive(Clone, Copy, Debug, PartialEq, Eq, Structural)]
pub struct Field {
    pub data_type: DataType,
}

impl Field {
    pub fn new(data_type: DataType) -> (r: Field)
        ensures
            r.data_type == data_type,
    {
        Field { data_type }
    }
}

/// The ordered columns of a table.
#[derive(Clone, Debug)]
pub struct Schema {
    pub fields: Vec<Field>,
}

impl View for Schema {
    type V = Seq<DataType>;

    open spec fn view(&self) -> Seq<DataType> {
        self.fields@.map_values(|f: Field| f.data_type)
    }
}

impl Schema {
    pub fn new(fields: Vec<Field>) -> (r: Schema)
        ensures
            r.fields@ == fields@,
    {
        Schema { fields }
    }

    /// A copy with the same columns.
    pub fn copied(&self) -> (r: Schema)
        ensures
            r@ == self@,
    {
        let mut fields: Vec<Field> = Vec::new();
        let mut i: usize = 0;
        while i < self.fields.len()
            invariant
                i <= self.fields@.len(),
                fields@ == self.fields@.take(i as int),
            decreases self.fields.len() - i,
        {
            fields.push(self.fields[i]);
            assert(self.fields@.take(i + 1) =~= self.fields@.take(i as int).push(self.fields@[i as int]));
            i = i + 1;
        }
        assert(fields@ =~= self.fields@);
        Schema { fields }
    }

    pub fn len(&self) -> (r: usize)
        ensures
            r == self@.len(),
    {
        self.fields.len()
    }

    pub fn data_type_at(&self, i: usize) -> (r: DataType)
        requires
            i < self@.len(),
        ensures
            r == self@[i as int],
    {
        self.fields[i].data_type
    }
}

/// Whether every datum of `row` may stand in its column of `types`.
pub open spec fn row_has_types(row: Seq<DatumValue>, types: Seq<DataType>) -> bool {
    &&& row.len() == types.len()
    &&& forall|i: int| 0 <= i < row.len() ==> datum_has_type(#[trigger] row[i], types[i])
}

/// Errors of the table layer.
#[derive(Clone, Copy, Debug, PartialEq, Eq, Structural)]
pub enum TableError {
    /// A column index outside the schema, or a primary key of the wrong width.
    InvalidArgument,
    /// A scanned key too short to hold the column suffix.
    MalformedKey,
    /// A primary key whose cells stop before the last column.
    IncompleteItem,
    /// A value that the cell codec could not read or write.
    Codec,
}

} // verus!
