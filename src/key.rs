//! Key fingerprints: a SHA-256 digest over a canonical byte encoding of the key's datums.
use vstd::prelude::*;
use sha2::Digest;
use differential_dataflow::hashable::Hashable;
use crate::datum::{Datum, DatumModel, ErrorModel, Row, UpsertError, ValueModel};

verus! {

/// The eight little-endian bytes of `x`.
pub open spec fn u64_le(x: u64) -> Seq<u8> {
    seq![
        x as u8,
        (x >> 8u64) as u8,
        (x >> 16u64) as u8,
        (x >> 24u64) as u8,
        (x >> 32u64) as u8,
        (x >> 40u64) as u8,
        (x >> 48u64) as u8,
        (x >> 56u64) as u8,
    ]
}

/// The canonical encoding of one datum: a tag byte, then its payload. A byte string
/// carries its length first, so no encoding is a proper prefix of another.
pub open spec fn datum_bytes(d: DatumModel) -> Seq<u8> {
    match d {
        DatumModel::Null => seq![0u8],
        DatumModel::False => seq![1u8],
        DatumModel::True => seq![2u8],
        DatumModel::Int64(i) => seq![3u8] + u64_le(i as u64),
        DatumModel::Bytes(b) => seq![4u8] + u64_le(b.len() as u64) + b,
    }
}

/// The encodings of the datums of `s`, one after another.
pub open spec fn datums_bytes(s: Seq<DatumModel>) -> Seq<u8>
    decreases s.len(),
{
    if s.len() == 0 {
        Seq::empty()
    } else {
        datum_bytes(s[0]) + datums_bytes(s.drop_first())
    }
}

/// What a fingerprint is computed over: the key's datums, or for a key that could not
/// be read, a single datum that stands for it.
pub enum KeyModel {
    Datums(Seq<DatumModel>),
    Undecodable(DatumModel),
}

pub open spec fn key_bytes(k: KeyModel) -> Seq<u8> {
    match k {
        KeyModel::Datums(ds) => seq![0u8] + datums_bytes(ds),
        KeyModel::Undecodable(d) => seq![1u8] + datum_bytes(d),
    }
}

pub open spec fn datum_fits(d: DatumModel) -> bool {
    match d {
        DatumModel::Bytes(b) => b.len() <= u64::MAX,
        _ => true,
    }
}

pub open spec fn datums_fit(s: Seq<DatumModel>) -> bool {
    forall|i: int| 0 <= i < s.len() ==> datum_fits(#[trigger] s[i])
}

pub open spec fn key_fits(k: KeyModel) -> bool {
    match k {
        KeyModel::Datums(ds) => datums_fit(ds),
        KeyModel::Undecodable(d) => datum_fits(d),
    }
}

/// The key a fingerprint is taken of, for a decoded key or an envelope error.
/// An error that holds the decoded key is fingerprinted as that key.
pub open spec fn key_model_of(key: Result<&Row, &UpsertError>) -> KeyModel {
    match key {
        Ok(row) => KeyModel::Datums(row@),
        Err(UpsertError::Value { for_key }) => KeyModel::Datums(for_key@),
        Err(UpsertError::KeyDecode { raw }) => KeyModel::Undecodable(DatumModel::Bytes(raw@)),
        Err(UpsertError::NullKey) => KeyModel::Undecodable(DatumModel::Null),
    }
}

/// The datums of `ds` from position `start` on at the positions that `idx` lists, taken
/// while walking `ds` once: a position is taken when it equals the next entry of `idx`.
pub open spec fn select_from(ds: Seq<DatumModel>, start: int, idx: Seq<usize>) -> Seq<DatumModel>
    decreases ds.len() - start,
{
    if start < 0 || start >= ds.len() || idx.len() == 0 {
        Seq::empty()
    } else if idx[0] == start {
        seq![ds[start]] + select_from(ds, start + 1, idx.drop_first())
    } else {
        select_from(ds, start + 1, idx)
    }
}

/// The content of a borrowed value.
pub open spec fn ref_value_model(v: Result<&Row, &UpsertError>) -> ValueModel {
    match v {
        Ok(row) => Ok(row@),
        Err(e) => Err(e@),
    }
}

/// The key that a value holds: the datums at the positions `idx` lists, or for an
/// envelope error, the key it carries.
pub open spec fn value_key_model(v: ValueModel, idx: Seq<usize>) -> KeyModel {
    match v {
        Ok(ds) => KeyModel::Datums(select_from(ds, 0, idx)),
        Err(ErrorModel::Value(ds)) => KeyModel::Datums(ds),
        Err(ErrorModel::KeyDecode(raw)) => KeyModel::Undecodable(DatumModel::Bytes(raw)),
        Err(ErrorModel::NullKey) => KeyModel::Undecodable(DatumModel::Null),
    }
}

/// The SHA-256 digest of a byte string.
pub uninterp spec fn sha256_of(data: Seq<u8>) -> Seq<u8>;

/// The routing hash that differential dataflow derives from a fingerprint's bytes.
pub uninterp spec fn route_hash_of(bytes: Seq<u8>) -> u64;

/// Relies on sha2's `Sha256::digest`: the 32-byte digest of `data`, which depends on
/// `data` alone.
#[verifier::external_body]
fn sha256(data: &Vec<u8>) -> (r: [u8; 32])
    ensures
        r@ == sha256_of(data@),
{
    sha2::Sha256::digest(data.as_slice()).into()
}

/// Relies on differential dataflow's `Hashable::hashed`, an FNV hash of the bytes,
/// which depends on them alone.
#[verifier::external_body]
fn route_hash(bytes: &[u8; 32]) -> (r: u64)
    ensures
        r == route_hash_of(bytes@),
{
    bytes.hashed()
}

/// A 32-byte fingerprint of a key. Equality and order are those of the bytes.
#[derive(Copy, Clone, Debug, Hash, PartialEq, Eq, PartialOrd, Ord)]
pub struct UpsertKey(pub [u8; 32]);

impl View for UpsertKey {
    type V = Seq<u8>;

    open spec fn view(&self) -> Seq<u8> {
        self.0@
    }
}

fn write_u64(out: &mut Vec<u8>, x: u64)
    ensures
        final(out)@ == old(out)@ + u64_le(x),
{
    out.push(x as u8);
    out.push((x >> 8u64) as u8);
    out.push((x >> 16u64) as u8);
    out.push((x >> 24u64) as u8);
    out.push((x >> 32u64) as u8);
    out.push((x >> 40u64) as u8);
    out.push((x >> 48u64) as u8);
    out.push((x >> 56u64) as u8);
    assert(out@ =~= old(out)@ + u64_le(x));
}

pub(crate) fn write_datum(out: &mut Vec<u8>, d: &Datum)
    ensures
        final(out)@ == old(out)@ + datum_bytes(d@),
{
    match d {
        Datum::Null => {
            out.push(0u8);
            assert(out@ =~= old(out)@ + datum_bytes(d@));
        },
        Datum::False => {
            out.push(1u8);
            assert(out@ =~= old(out)@ + datum_bytes(d@));
        },
        Datum::True => {
            out.push(2u8);
            assert(out@ =~= old(out)@ + datum_bytes(d@));
        },
        Datum::Int64(i) => {
            out.push(3u8);
            write_u64(out, *i as u64);
            assert(out@ =~= old(out)@ + datum_bytes(d@));
        },
        Datum::Bytes(b) => {
            out.push(4u8);
            write_u64(out, b.len() as u64);
            let ghost before = out@;
            let mut i: usize = 0;
            while i < b.len()
                invariant
                    i <= b.len(),
                    out@ == before + b@.subrange(0, i as int),
                decreases b.len() - i,
            {
                out.push(b[i]);
                i += 1;
                assert(out@ =~= before + b@.subrange(0, i as int));
            }
            assert(b@.subrange(0, i as int) =~= b@);
            assert(out@ =~= old(out)@ + datum_bytes(d@));
        },
    }
}

proof fn lemma_datums_bytes_push(s: Seq<DatumModel>, d: DatumModel)
    ensures
        datums_bytes(s.push(d)) == datums_bytes(s) + datum_bytes(d),
    decreases s.len(),
{
    if s.len() == 0 {
        assert(s.push(d).drop_first() =~= Seq::<DatumModel>::empty());
        assert(s.push(d)[0] == d);
        assert(datums_bytes(s.push(d).drop_first()) =~= Seq::<u8>::empty());
        assert(datums_bytes(s) =~= Seq::<u8>::empty());
        assert(datums_bytes(s.push(d)) =~= datums_bytes(s) + datum_bytes(d));
    } else {
        lemma_datums_bytes_push(s.drop_first(), d);
        assert(s.push(d).drop_first() =~= s.drop_first().push(d));
        assert(s.push(d)[0] == s[0]);
        assert(datums_bytes(s.push(d)) =~= datums_bytes(s) + datum_bytes(d));
    }
}

pub(crate) fn write_datums(out: &mut Vec<u8>, ds: &Vec<Datum>)
    ensures
        final(out)@ == old(out)@ + datums_bytes(ds@.map_values(|d: Datum| d@)),
{
    let ghost model = ds@.map_values(|d: Datum| d@);
    let mut i: usize = 0;
    while i < ds.len()
        invariant
            i <= ds.len(),
            model == ds@.map_values(|d: Datum| d@),
            out@ == old(out)@ + datums_bytes(model.subrange(0, i as int)),
        decreases ds.len() - i,
    {
        write_datum(out, &ds[i]);
        proof {
            lemma_datums_bytes_push(model.subrange(0, i as int), model[i as int]);
            assert(model.subrange(0, i as int).push(model[i as int]) =~= model.subrange(
                0,
                i + 1,
            ));
        }
        i += 1;
    }
    assert(model.subrange(0, i as int) =~= model);
}

fn write_key(out: &mut Vec<u8>, key: Result<&Vec<Datum>, &Datum>)
    ensures
        final(out)@ == old(out)@ + match key {
            Ok(ds) => key_bytes(KeyModel::Datums(ds@.map_values(|d: Datum| d@))),
            Err(d) => key_bytes(KeyModel::Undecodable(d@)),
        },
{
    match key {
        Ok(ds) => {
            out.push(0u8);
            write_datums(out, ds);
            assert(out@ =~= old(out)@ + key_bytes(KeyModel::Datums(ds@.map_values(|d: Datum| d@))));
        },
        Err(d) => {
            out.push(1u8);
            write_datum(out, d);
            assert(out@ =~= old(out)@ + key_bytes(KeyModel::Undecodable(d@)));
        },
    }
}

impl UpsertKey {
    /// The fingerprint of a decoded key, or of the key part of an envelope error.
    pub fn from_key(key: Result<&Row, &UpsertError>) -> (r: UpsertKey)
        ensures
            r@ == sha256_of(key_bytes(key_model_of(key))),
    {
        UpsertKey::from_iter(key)
    }

    /// The fingerprint of the key that a value holds: the datums of the value at the
    /// positions `key_indices` lists, which are meant to be sorted.
    pub fn from_value(value: Result<&Row, &UpsertError>, key_indices: &[usize]) -> (r: UpsertKey)
        ensures
            r@ == sha256_of(key_bytes(value_key_model(ref_value_model(value), key_indices@))),
    {
        match value {
            Ok(row) => {
                let selected = select_datums(row, key_indices);
                let key_row = Row { datums: selected };
                UpsertKey::from_iter(Ok(&key_row))
            },
            Err(e) => UpsertKey::from_iter(Err(e)),
        }
    }

    /// The fingerprint of a key given as its datums, or as an envelope error.
    pub fn from_iter(key: Result<&Row, &UpsertError>) -> (r: UpsertKey)
        ensures
            r@ == sha256_of(key_bytes(key_model_of(key))),
    {
        let mut buf: Vec<u8> = Vec::new();
        match key {
            Ok(row) => write_key(&mut buf, Ok(&row.datums)),
            Err(UpsertError::Value { for_key }) => write_key(&mut buf, Ok(&for_key.datums)),
            Err(UpsertError::KeyDecode { raw }) => {
                let d = Datum::Bytes(copy_raw(raw));
                write_key(&mut buf, Err(&d));
            },
            Err(UpsertError::NullKey) => write_key(&mut buf, Err(&Datum::Null)),
        }
        assert(buf@ =~= key_bytes(key_model_of(key)));
        UpsertKey(sha256(&buf))
    }

    /// A hash of the fingerprint that spreads keys over workers.
    pub fn hashed(&self) -> (r: u64)
        ensures
            r == route_hash_of(self@),
    {
        route_hash(&self.0)
    }
}

pub(crate) fn copy_raw(b: &Vec<u8>) -> (r: Vec<u8>)
    ensures
        r@ == b@,
{
    let mut r: Vec<u8> = Vec::new();
    let mut i: usize = 0;
    while i < b.len()
        invariant
            i <= b.len(),
            r@ == b@.subrange(0, i as int),
        decreases b.len() - i,
    {
        r.push(b[i]);
        i += 1;
        assert(r@ =~= b@.subrange(0, i as int));
    }
    assert(r@ =~= b@);
    r
}

proof fn lemma_select_skip(ds: Seq<DatumModel>, start: int, idx: Seq<usize>)
    requires
        0 <= start < ds.len(),
        idx.len() > 0,
        idx[0] != start,
    ensures
        select_from(ds, start, idx) == select_from(ds, start + 1, idx),
{
}

fn select_datums(row: &Row, key_indices: &[usize]) -> (r: Vec<Datum>)
    ensures
        r@.map_values(|d: Datum| d@) == select_from(row@, 0, key_indices@),
{
    let ghost ds = row@;
    let mut out: Vec<Datum> = Vec::new();
    let mut i: usize = 0;
    let mut j: usize = 0;
    assert(key_indices@.subrange(0, key_indices@.len() as int) =~= key_indices@);
    assert(out@.map_values(|d: Datum| d@) =~= Seq::<DatumModel>::empty());
    while i < row.datums.len()
        invariant
            ds == row@,
            i <= row.datums.len(),
            j <= key_indices.len(),
            out@.map_values(|d: Datum| d@) + select_from(ds, i as int, key_indices@.subrange(
                j as int,
                key_indices@.len() as int,
            )) == select_from(ds, 0, key_indices@),
        decreases row.datums.len() - i,
    {
        let ghost rest = key_indices@.subrange(j as int, key_indices@.len() as int);
        let ghost before = out@.map_values(|d: Datum| d@);
        if j < key_indices.len() && key_indices[j] == i {
            let d = row.datums[i].copy();
            out.push(d);
            proof {
                let rest2 = key_indices@.subrange(j + 1, key_indices@.len() as int);
                assert(rest.drop_first() =~= rest2);
                assert(select_from(ds, i as int, rest) == seq![ds[i as int]] + select_from(
                    ds,
                    i + 1,
                    rest2,
                ));
                assert(out@.map_values(|d: Datum| d@) =~= before + seq![ds[i as int]]);
                assert(out@.map_values(|d: Datum| d@) + select_from(ds, i + 1, rest2) =~= before
                    + select_from(ds, i as int, rest));
            }
            j += 1;
        } else {
            proof {
                if j < key_indices.len() {
                    lemma_select_skip(ds, i as int, rest);
                } else {
                    assert(rest.len() == 0);
                }
                assert(out@.map_values(|d: Datum| d@) =~= before);
            }
        }
        i += 1;
    }
    proof {
        let rest = key_indices@.subrange(j as int, key_indices@.len() as int);
        assert(select_from(ds, i as int, rest) =~= Seq::<DatumModel>::empty());
    }
    assert(out@.map_values(|d: Datum| d@) =~= select_from(ds, 0, key_indices@));
    out
}

proof fn lemma_u64_le_injective(x: u64, y: u64)
    requires
        u64_le(x) == u64_le(y),
    ensures
        x == y,
{
    assert(u64_le(x)[0] == u64_le(y)[0]);
    assert(u64_le(x)[1] == u64_le(y)[1]);
    assert(u64_le(x)[2] == u64_le(y)[2]);
    assert(u64_le(x)[3] == u64_le(y)[3]);
    assert(u64_le(x)[4] == u64_le(y)[4]);
    assert(u64_le(x)[5] == u64_le(y)[5]);
    assert(u64_le(x)[6] == u64_le(y)[6]);
    assert(u64_le(x)[7] == u64_le(y)[7]);
    assert(x == y) by (bit_vector)
        requires
            x as u8 == y as u8,
            (x >> 8u64) as u8 == (y >> 8u64) as u8,
            (x >> 16u64) as u8 == (y >> 16u64) as u8,
            (x >> 24u64) as u8 == (y >> 24u64) as u8,
            (x >> 32u64) as u8 == (y >> 32u64) as u8,
            (x >> 40u64) as u8 == (y >> 40u64) as u8,
            (x >> 48u64) as u8 == (y >> 48u64) as u8,
            (x >> 56u64) as u8 == (y >> 56u64) as u8,
    ;
}

/// No datum's encoding is a proper prefix of another's: an encoded datum followed by
/// anything can be read back.
proof fn lemma_datum_prefix(a: DatumModel, b: DatumModel, ra: Seq<u8>, rb: Seq<u8>)
    requires
        datum_fits(a),
        datum_fits(b),
        datum_bytes(a) + ra == datum_bytes(b) + rb,
    ensures
        a == b,
        ra == rb,
{
    let s = datum_bytes(a) + ra;
    let ea = datum_bytes(a);
    let eb = datum_bytes(b);
    assert(s[0] == ea[0]);
    assert(s[0] == eb[0]);
    match a {
        DatumModel::Int64(ia) => {
            let ib = match b { DatumModel::Int64(ib) => ib, _ => 0i64 };
            assert(b is Int64);
            assert(s.subrange(1, 9) =~= u64_le(ia as u64));
            assert(s.subrange(1, 9) =~= u64_le(ib as u64));
            lemma_u64_le_injective(ia as u64, ib as u64);
            assert(ia == ib) by (bit_vector)
                requires
                    ia as u64 == ib as u64,
            ;
        },
        DatumModel::Bytes(ba) => {
            let bb = match b { DatumModel::Bytes(bb) => bb, _ => Seq::empty() };
            assert(b is Bytes);
            assert(s.subrange(1, 9) =~= u64_le(ba.len() as u64));
            assert(s.subrange(1, 9) =~= u64_le(bb.len() as u64));
            lemma_u64_le_injective(ba.len() as u64, bb.len() as u64);
            assert(ba.len() == bb.len());
            assert(s.subrange(9, 9 + ba.len() as int) =~= ba);
            assert(s.subrange(9, 9 + bb.len() as int) =~= bb);
        },
        _ => {},
    }
    assert(ea == eb);
    assert(ra =~= s.subrange(ea.len() as int, s.len() as int));
    assert(rb =~= s.subrange(eb.len() as int, s.len() as int));
}

pub(crate) proof fn lemma_datums_injective(a: Seq<DatumModel>, b: Seq<DatumModel>)
    requires
        datums_fit(a),
        datums_fit(b),
        datums_bytes(a) == datums_bytes(b),
    ensures
        a == b,
    decreases a.len(),
{
    if a.len() == 0 {
        if b.len() != 0 {
            assert(datums_bytes(b).len() > 0);
            assert(datums_bytes(a) =~= Seq::<u8>::empty());
        }
        assert(a =~= b);
    } else {
        if b.len() == 0 {
            assert(datums_bytes(a).len() > 0);
            assert(datums_bytes(b) =~= Seq::<u8>::empty());
        } else {
            assert(datum_fits(a[0]));
            assert(datum_fits(b[0]));
            lemma_datum_prefix(a[0], b[0], datums_bytes(a.drop_first()), datums_bytes(b.drop_first()));
            assert(datums_fit(a.drop_first())) by {
                assert forall|i: int| 0 <= i < a.drop_first().len() implies datum_fits(
                    #[trigger] a.drop_first()[i],
                ) by {
                    assert(datum_fits(a[i + 1]));
                }
            }
            assert(datums_fit(b.drop_first())) by {
                assert forall|i: int| 0 <= i < b.drop_first().len() implies datum_fits(
                    #[trigger] b.drop_first()[i],
                ) by {
                    assert(datum_fits(b[i + 1]));
                }
            }
            lemma_datums_injective(a.drop_first(), b.drop_first());
            assert forall|i: int| 0 <= i < a.len() implies a[i] == b[i] by {
                if i > 0 {
                    assert(a[i] == a.drop_first()[i - 1]);
                    assert(b[i] == b.drop_first()[i - 1]);
                }
            }
            assert(a =~= b);
        }
    }
}

/// Two keys with the same fingerprint input are the same key, so `from_key` tells keys
/// apart wherever SHA-256 has no collision.
pub proof fn lemma_key_bytes_injective(a: KeyModel, b: KeyModel)
    requires
        key_fits(a),
        key_fits(b),
        key_bytes(a) == key_bytes(b),
    ensures
        a == b,
{
    let s = key_bytes(a);
    assert(s[0] == key_bytes(b)[0]);
    match a {
        KeyModel::Datums(da) => {
            let db = match b { KeyModel::Datums(db) => db, _ => Seq::empty() };
            assert(b is Datums);
            assert(datums_bytes(da) =~= s.drop_first());
            assert(datums_bytes(db) =~= s.drop_first());
            lemma_datums_injective(da, db);
        },
        KeyModel::Undecodable(da) => {
            let db = match b { KeyModel::Undecodable(db) => db, _ => DatumModel::Null };
            assert(b is Undecodable);
            assert(datum_bytes(da) + Seq::<u8>::empty() =~= s.drop_first());
            assert(datum_bytes(db) + Seq::<u8>::empty() =~= s.drop_first());
            lemma_datum_prefix(da, db, Seq::<u8>::empty(), Seq::<u8>::empty());
        },
    }
}

} // verus!
