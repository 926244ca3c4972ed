//! Rows, datums and the value carried by an upsert command.
use vstd::prelude::*;

verus! {

/// A single column value.
pub enum Datum {
    Null,
    False,
    True,
    Int64(i64),
    Bytes(Vec<u8>),
}

/// The mathematical content of a [`Datum`].
pub enum DatumModel {
    Null,
    False,
    True,
    Int64(i64),
    Bytes(Seq<u8>),
}

impl View for Datum {
    type V = DatumModel;

    open spec fn view(&self) -> DatumModel {
        match self {
            Datum::Null => DatumModel::Null,
            Datum::False => DatumModel::False,
            Datum::True => DatumModel::True,
            Datum::Int64(i) => DatumModel::Int64(*i),
            Datum::Bytes(b) => DatumModel::Bytes(b@),
        }
    }
}

/// A sequence of datums.
pub struct Row {
    pub datums: Vec<Datum>,
}

impl View for Row {
    type V = Seq<DatumModel>;

    open spec fn view(&self) -> Seq<DatumModel> {
        self.datums@.map_values(|d: Datum| d@)
    }
}

/// An error in the upsert envelope, carried in-band as a value.
pub enum UpsertError {
    /// The value could not be decoded; the key was.
    Value { for_key: Row },
    /// The key could not be decoded; `raw` holds its bytes.
    KeyDecode { raw: Vec<u8> },
    /// The key was null.
    NullKey,
}

/// The mathematical content of an [`UpsertError`].
pub enum ErrorModel {
    Value(Seq<DatumModel>),
    KeyDecode(Seq<u8>),
    NullKey,
}

impl View for UpsertError {
    type V = ErrorModel;

    open spec fn view(&self) -> ErrorModel {
        match self {
            UpsertError::Value { for_key } => ErrorModel::Value(for_key@),
            UpsertError::KeyDecode { raw } => ErrorModel::KeyDecode(raw@),
            UpsertError::NullKey => ErrorModel::NullKey,
        }
    }
}

/// The value of an upsert command: a row, or an envelope error.
pub type UpsertValue = Result<Row, UpsertError>;

/// The mathematical content of an [`UpsertValue`].
pub type ValueModel = Result<Seq<DatumModel>, ErrorModel>;

pub open spec fn value_model(v: UpsertValue) -> ValueModel {
    match v {
        Ok(row) => Ok(row@),
        Err(e) => Err(e@),
    }
}

pub open spec fn opt_value_model(v: Option<UpsertValue>) -> Option<ValueModel> {
    match v {
        Some(v) => Some(value_model(v)),
        None => None,
    }
}

fn copy_bytes(b: &Vec<u8>) -> (r: Vec<u8>)
    ensures
        r@ == b@,
{
    let mut r: Vec<u8> = Vec::new();
    let mut i: usize = 0;
    while i < b.len()
        invariant
            i <= b.len(),
            r@ == b@.subrange(0, i as int),
        decreases b.len() - i,
    {
        r.push(b[i]);
        i += 1;
        assert(r@ =~= b@.subrange(0, i as int));
    }
    assert(r@ =~= b@);
    r
}

impl Datum {
    pub fn copy(&self) -> (r: Datum)
        ensures
            r@ == self@,
    {
        match self {
            Datum::Null => Datum::Null,
            Datum::False => Datum::False,
            Datum::True => Datum::True,
            Datum::Int64(i) => Datum::Int64(*i),
            Datum::Bytes(b) => Datum::Bytes(copy_bytes(b)),
        }
    }
}

impl Row {
    pub fn copy(&self) -> (r: Row)
        ensures
            r@ == self@,
    {
        let mut datums: Vec<Datum> = Vec::new();
        let mut i: usize = 0;
        while i < self.datums.len()
            invariant
                i <= self.datums.len(),
                datums.len() == i,
                forall|j: int| 0 <= j < i ==> #[trigger] datums@[j]@ == self.datums@[j]@,
            decreases self.datums.len() - i,
        {
            let d = self.datums[i].copy();
            datums.push(d);
            i += 1;
        }
        let r = Row { datums };
        assert(r@ =~= self@);
        r
    }
}

impl UpsertError {
    pub fn copy(&self) -> (r: UpsertError)
        ensures
            r@ == self@,
    {
        match self {
            UpsertError::Value { for_key } => UpsertError::Value { for_key: for_key.copy() },
            UpsertError::KeyDecode { raw } => UpsertError::KeyDecode { raw: copy_bytes(raw) },
            UpsertError::NullKey => UpsertError::NullKey,
        }
    }
}

/// A copy of `v` with the same content.
pub fn copy_value(v: &UpsertValue) -> (r: UpsertValue)
    ensures
        value_model(r) == value_model(*v),
{
    match v {
        Ok(row) => Ok(row.copy()),
        Err(e) => Err(e.copy()),
    }
}

} // verus!
