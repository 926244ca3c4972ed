//! The stable byte encoding of a stored value, from which its persisted size is taken.
use vstd::prelude::*;
use crate::datum::{ErrorModel, UpsertError, UpsertValue, ValueModel, value_model};
use crate::datum::DatumModel;
use crate::key::{datums_bytes, datums_fit, lemma_datums_injective, write_datums};

verus! {

/// The encoding of a value: a tag byte, then the datums of the row or error, or the raw
/// bytes of an undecodable key.
pub open spec fn value_bytes(v: ValueModel) -> Seq<u8> {
    match v {
        Ok(ds) => seq![0u8] + datums_bytes(ds),
        Err(ErrorModel::Value(ds)) => seq![1u8] + datums_bytes(ds),
        Err(ErrorModel::KeyDecode(raw)) => seq![2u8] + raw,
        Err(ErrorModel::NullKey) => seq![3u8],
    }
}

/// Every byte string in `v` has a length that fits in 64 bits.
pub open spec fn value_fits(v: ValueModel) -> bool {
    match v {
        Ok(ds) => datums_fit(ds),
        Err(ErrorModel::Value(ds)) => datums_fit(ds),
        _ => true,
    }
}

/// The encoding loses nothing: two values with the same encoding are the same value, so
/// decoding what was encoded gives the value back.
pub proof fn lemma_value_bytes_injective(a: ValueModel, b: ValueModel)
    requires
        value_fits(a),
        value_fits(b),
        value_bytes(a) == value_bytes(b),
    ensures
        a == b,
{
    let s = value_bytes(a);
    assert(s[0] == value_bytes(b)[0]);
    match a {
        Ok(da) => {
            let db = match b { Ok(db) => db, _ => Seq::<DatumModel>::empty() };
            assert(b is Ok);
            assert(datums_bytes(da) =~= s.drop_first());
            assert(datums_bytes(db) =~= s.drop_first());
            lemma_datums_injective(da, db);
        },
        Err(ErrorModel::Value(da)) => {
            let db = match b { Err(ErrorModel::Value(db)) => db, _ => Seq::<DatumModel>::empty() };
            assert(b matches Err(ErrorModel::Value(_)));
            assert(datums_bytes(da) =~= s.drop_first());
            assert(datums_bytes(db) =~= s.drop_first());
            lemma_datums_injective(da, db);
        },
        Err(ErrorModel::KeyDecode(ra)) => {
            let rb = match b { Err(ErrorModel::KeyDecode(rb)) => rb, _ => Seq::<u8>::empty() };
            assert(b matches Err(ErrorModel::KeyDecode(_)));
            assert(ra =~= s.drop_first());
            assert(rb =~= s.drop_first());
        },
        Err(ErrorModel::NullKey) => {
            assert(b matches Err(ErrorModel::NullKey));
        },
    }
}

/// The encoding of `v`.
pub fn encode_value(v: &UpsertValue) -> (r: Vec<u8>)
    ensures
        r@ == value_bytes(value_model(*v)),
{
    let mut out: Vec<u8> = Vec::new();
    match v {
        Ok(row) => {
            out.push(0u8);
            write_datums(&mut out, &row.datums);
        },
        Err(UpsertError::Value { for_key }) => {
            out.push(1u8);
            write_datums(&mut out, &for_key.datums);
        },
        Err(UpsertError::KeyDecode { raw }) => {
            out.push(2u8);
            let mut i: usize = 0;
            while i < raw.len()
                invariant
                    i <= raw.len(),
                    out@ == seq![2u8] + raw@.subrange(0, i as int),
                decreases raw.len() - i,
            {
                out.push(raw[i]);
                i += 1;
                assert(out@ =~= seq![2u8] + raw@.subrange(0, i as int));
            }
            assert(raw@.subrange(0, i as int) =~= raw@);
        },
        Err(UpsertError::NullKey) => {
            out.push(3u8);
        },
    }
    assert(out@ =~= value_bytes(value_model(*v)));
    out
}

/// The number of bytes `v` takes once encoded.
pub fn encoded_size(v: &UpsertValue) -> (r: u64)
    ensures
        r as int == value_bytes(value_model(*v)).len(),
{
    let bytes = encode_value(v);
    bytes.len() as u64
}

} // verus!
