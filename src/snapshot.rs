//! Rehydration: consolidating the replay of the operator's earlier output into its state.
use vstd::prelude::*;
use crate::codec::{encode_value, value_bytes};
use crate::datum::{Row, UpsertError, UpsertValue, copy_value, opt_value_model, value_model};
use crate::index::{KeyIndex, index_get, index_insert, index_new, index_of};
use crate::key::{UpsertKey, key_bytes, sha256_of, value_key_model};
use crate::stage::{Frontier, frontier_holds, holds_back, reverse_into};
use crate::state::{InMemoryHashMap, PutEntry, put_all};
use crate::upsert::{lemma_put_all_distinct, map_get};

verus! {

/// An error that the operator's earlier output may hold. Only upsert envelope errors can
/// be retracted later; the others are left out of rehydration.
pub enum DataflowError {
    Upsert(UpsertError),
    Other,
}

/// A record of the operator's earlier output as it is replayed.
pub struct PreviousRecord {
    pub value: Result<Row, DataflowError>,
    pub time: u64,
    pub diff: i64,
}

/// What rehydration keeps of a replayed value.
pub open spec fn retained(v: Result<Row, DataflowError>) -> Option<UpsertValue> {
    match v {
        Ok(row) => Some(Ok(row)),
        Err(DataflowError::Upsert(e)) => Some(Err(e)),
        Err(DataflowError::Other) => None,
    }
}

/// The (key, value, diff) records that rehydration takes from `data`: those with a
/// retained value at a time before `resume`, keyed by the key columns `idx` of the value.
pub open spec fn replay_events(data: Seq<PreviousRecord>, idx: Seq<usize>, resume: Frontier) -> Seq<
    (Seq<u8>, UpsertValue, i64),
>
    decreases data.len(),
{
    if data.len() == 0 {
        Seq::empty()
    } else {
        let prev = replay_events(data.drop_last(), idx, resume);
        let r = data.last();
        match retained(r.value) {
            Some(v) => if !frontier_holds(resume, r.time) {
                prev.push(
                    (sha256_of(key_bytes(value_key_model(value_model(v), idx))), v, r.diff),
                )
            } else {
                prev
            },
            None => prev,
        }
    }
}

pub open spec fn event_model(e: SnapshotEvent) -> (Seq<u8>, UpsertValue, i64) {
    (e.key@, e.value, e.diff)
}

/// The snapshot events of the replayed records `data`: values that can be retracted, at
/// times before `resume_upper`, keyed by the key columns `key_indices` of the value.
pub fn previous_events(data: Vec<PreviousRecord>, key_indices: &[usize], resume_upper: Frontier) -> (r:
    Vec<SnapshotEvent>)
    ensures
        r@.map_values(|e: SnapshotEvent| event_model(e)) == replay_events(
            data@,
            key_indices@,
            resume_upper,
        ),
{
    let ghost all = data@;
    let mut data = data;
    let mut rev = reverse_into(&mut data);
    let n = rev.len();
    let mut out: Vec<SnapshotEvent> = Vec::new();
    while rev.len() > 0
        invariant
            rev.len() <= n,
            n == all.len(),
            forall|j: int| 0 <= j < rev.len() ==> #[trigger] rev@[j] == all[n - 1 - j],
            out@.map_values(|e: SnapshotEvent| event_model(e)) == replay_events(
                all.subrange(0, n - rev.len()),
                key_indices@,
                resume_upper,
            ),
        decreases rev.len(),
    {
        let ghost done = n - rev.len();
        let ghost before = out@;
        let rec = rev.pop().unwrap();
        proof {
            assert(rec == all[done]);
            let pre = all.subrange(0, done + 1);
            assert(pre.drop_last() =~= all.subrange(0, done));
            assert(pre.last() == rec);
        }
        if !holds_back(resume_upper, rec.time) {
            let time = rec.time;
            let diff = rec.diff;
            let value: Option<UpsertValue> = match rec.value {
                Ok(row) => Some(Ok(row)),
                Err(DataflowError::Upsert(e)) => Some(Err(e)),
                Err(DataflowError::Other) => None,
            };
            match value {
                Some(v) => {
                    let key = match &v {
                        Ok(row) => UpsertKey::from_value(Ok(row), key_indices),
                        Err(e) => UpsertKey::from_value(Err(e), key_indices),
                    };
                    out.push(SnapshotEvent { key, value: v, diff });
                    proof {
                        assert(out@.map_values(|e: SnapshotEvent| event_model(e)) =~= before.map_values(
                            |e: SnapshotEvent| event_model(e),
                        ).push(event_model(out@.last())));
                    }
                },
                None => {},
            }
        }
    }
    assert(all.subrange(0, n as int) =~= all);
    out
}

/// A record of the replay: `value` under `key` with multiplicity `diff`.
pub struct SnapshotEvent {
    pub key: UpsertKey,
    pub value: UpsertValue,
    pub diff: i64,
}

#[derive(Debug, Clone, Copy, PartialEq, Eq)]
pub enum SnapshotError {
    /// A running sum of diffs for one key and value left the `i64` range.
    DiffOverflow,
}

/// The net multiplicity of each (key, encoded value) pair, where it is not zero.
pub type NetModel = Map<(Seq<u8>, Seq<u8>), int>;

pub open spec fn net_of(m: NetModel, k: Seq<u8>, b: Seq<u8>) -> int {
    if m.contains_key((k, b)) {
        m[(k, b)]
    } else {
        0
    }
}

pub open spec fn event_bytes(e: SnapshotEvent) -> Seq<u8> {
    value_bytes(value_model(e.value))
}

/// `m` after adding `d` to the multiplicity of `(k, b)`.
pub open spec fn add_event(m: NetModel, k: Seq<u8>, b: Seq<u8>, d: int) -> NetModel {
    let n = net_of(m, k, b) + d;
    if n == 0 {
        m.remove((k, b))
    } else {
        m.insert((k, b), n)
    }
}

/// `m` after the events of `es`, in order.
pub open spec fn add_events(m: NetModel, es: Seq<SnapshotEvent>) -> NetModel
    decreases es.len(),
{
    if es.len() == 0 {
        m
    } else {
        let e = es.last();
        add_event(add_events(m, es.drop_last()), e.key@, event_bytes(e), e.diff as int)
    }
}

pub open spec fn fits_i64(x: int) -> bool {
    i64::MIN <= x <= i64::MAX
}

/// Every running multiplicity stays in the `i64` range while the events of `es` are added.
pub open spec fn events_fit(m: NetModel, es: Seq<SnapshotEvent>) -> bool
    decreases es.len(),
{
    if es.len() == 0 {
        true
    } else {
        let e = es.last();
        events_fit(m, es.drop_last()) && fits_i64(
            net_of(add_events(m, es.drop_last()), e.key@, event_bytes(e)) + e.diff,
        )
    }
}

/// Each key has at most one value, and that value has multiplicity one.
pub open spec fn consistent(m: NetModel) -> bool {
    &&& forall|p: (Seq<u8>, Seq<u8>)| #[trigger] m.contains_key(p) ==> m[p] == 1
    &&& forall|p: (Seq<u8>, Seq<u8>), q: (Seq<u8>, Seq<u8>)|
        #[trigger] m.contains_key(p) && #[trigger] m.contains_key(q) && p.0 == q.0 ==> p.1 == q.1
}

struct Pending {
    bytes: Vec<u8>,
    value: UpsertValue,
    diff: i64,
}

struct KeyAccum {
    key: UpsertKey,
    entries: Vec<Pending>,
}

spec fn sum_for(es: Seq<Pending>, b: Seq<u8>) -> int
    decreases es.len(),
{
    if es.len() == 0 {
        0
    } else {
        sum_for(es.drop_last(), b) + if es.last().bytes@ == b {
            es.last().diff as int
        } else {
            0
        }
    }
}

spec fn distinct_bytes(es: Seq<Pending>) -> bool {
    forall|a: int, c: int|
        0 <= a < es.len() && 0 <= c < es.len() && a != c ==> #[trigger] es[a].bytes@
            != #[trigger] es[c].bytes@
}

proof fn lemma_sum_absent(es: Seq<Pending>, b: Seq<u8>)
    requires
        forall|j: int| 0 <= j < es.len() ==> #[trigger] es[j].bytes@ != b,
    ensures
        sum_for(es, b) == 0,
    decreases es.len(),
{
    if es.len() > 0 {
        lemma_sum_absent(es.drop_last(), b);
    }
}

proof fn lemma_sum_present(es: Seq<Pending>, j: int)
    requires
        0 <= j < es.len(),
        distinct_bytes(es),
    ensures
        sum_for(es, es[j].bytes@) == es[j].diff,
    decreases es.len(),
{
    let b = es[j].bytes@;
    let d = es.drop_last();
    if j == es.len() - 1 {
        lemma_sum_absent(d, b);
    } else {
        assert(d[j] == es[j]);
        lemma_sum_present(d, j);
        assert(es.last().bytes@ != b);
    }
}

proof fn lemma_sum_update(es: Seq<Pending>, j: int, p: Pending, b: Seq<u8>)
    requires
        0 <= j < es.len(),
        p.bytes@ == es[j].bytes@,
    ensures
        sum_for(es.update(j, p), b) == sum_for(es, b) + if es[j].bytes@ == b {
            p.diff - es[j].diff
        } else {
            0
        },
    decreases es.len(),
{
    let u = es.update(j, p);
    if j == es.len() - 1 {
        assert(u.drop_last() =~= es.drop_last());
    } else {
        assert(u.drop_last() =~= es.drop_last().update(j, p));
        lemma_sum_update(es.drop_last(), j, p, b);
    }
}

proof fn lemma_sum_remove(es: Seq<Pending>, j: int, b: Seq<u8>)
    requires
        0 <= j < es.len(),
    ensures
        sum_for(es.remove(j), b) == sum_for(es, b) - if es[j].bytes@ == b {
            es[j].diff as int
        } else {
            0
        },
    decreases es.len(),
{
    let r = es.remove(j);
    if j == es.len() - 1 {
        assert(r =~= es.drop_last());
    } else {
        assert(r.drop_last() =~= es.drop_last().remove(j));
        assert(r.last() == es.last());
        lemma_sum_remove(es.drop_last(), j, b);
    }
}

proof fn lemma_sum_nonzero(es: Seq<Pending>, b: Seq<u8>) -> (j: int)
    requires
        sum_for(es, b) != 0,
    ensures
        0 <= j < es.len(),
        es[j].bytes@ == b,
{
    if forall|j: int| 0 <= j < es.len() ==> #[trigger] es[j].bytes@ != b {
        lemma_sum_absent(es, b);
        0
    } else {
        choose|j: int| 0 <= j < es.len() && #[trigger] es[j].bytes@ == b
    }
}

/// The replay consolidated so far: for each key, the encoded values whose multiplicity
/// is not zero.
pub struct SnapshotMerge {
    index: KeyIndex,
    accs: Vec<KeyAccum>,
}

impl View for SnapshotMerge {
    type V = NetModel;

    closed spec fn view(&self) -> NetModel {
        Map::new(
            |p: (Seq<u8>, Seq<u8>)|
                index_of(self.index).contains_key(p.0) && sum_for(
                    self.accs@[index_of(self.index)[p.0] as int].entries@,
                    p.1,
                ) != 0,
            |p: (Seq<u8>, Seq<u8>)|
                sum_for(self.accs@[index_of(self.index)[p.0] as int].entries@, p.1),
        )
    }
}

fn bytes_eq(a: &Vec<u8>, b: &Vec<u8>) -> (r: bool)
    ensures
        r == (a@ == b@),
{
    if a.len() != b.len() {
        return false;
    }
    let mut i: usize = 0;
    while i < a.len()
        invariant
            a.len() == b.len(),
            i <= a.len(),
            forall|j: int| 0 <= j < i ==> a@[j] == b@[j],
        decreases a.len() - i,
    {
        if a[i] != b[i] {
            return false;
        }
        i += 1;
    }
    assert(a@ =~= b@);
    true
}

fn find_bytes(es: &Vec<Pending>, b: &Vec<u8>) -> (r: Option<usize>)
    ensures
        r matches Some(j) ==> j < es.len() && es@[j as int].bytes@ == b@,
        r is None ==> forall|j: int| 0 <= j < es.len() ==> #[trigger] es@[j].bytes@ != b@,
{
    let mut i: usize = 0;
    while i < es.len()
        invariant
            i <= es.len(),
            forall|j: int| 0 <= j < i ==> #[trigger] es@[j].bytes@ != b@,
        decreases es.len() - i,
    {
        if bytes_eq(&es[i].bytes, b) {
            return Some(i);
        }
        i += 1;
    }
    None
}

impl SnapshotMerge {
    pub closed spec fn wf(&self) -> bool {
        &&& forall|k: Seq<u8>| #[trigger]
            index_of(self.index).contains_key(k) ==> {
                &&& index_of(self.index)[k] < self.accs.len()
                &&& self.accs@[index_of(self.index)[k] as int].key@ == k
            }
        &&& forall|i: int|
            0 <= i < self.accs.len() ==> {
                &&& index_of(self.index).contains_key(#[trigger] self.accs@[i].key@)
                &&& index_of(self.index)[self.accs@[i].key@] == i
                &&& distinct_bytes(self.accs@[i].entries@)
                &&& forall|j: int|
                    0 <= j < self.accs@[i].entries.len() ==> {
                        &&& (#[trigger] self.accs@[i].entries@[j]).diff != 0
                        &&& self.accs@[i].entries@[j].bytes@ == value_bytes(
                            value_model(self.accs@[i].entries@[j].value),
                        )
                    }
            }
    }

    /// Nothing merged yet.
    pub fn new() -> (r: SnapshotMerge)
        ensures
            r.wf(),
            r@.is_empty(),
    {
        let r = SnapshotMerge { index: index_new(), accs: Vec::new() };
        assert(r@ =~= Map::<(Seq<u8>, Seq<u8>), int>::empty());
        r
    }

    /// Adds one record of the replay. Fails, changing nothing, where the multiplicity of
    /// its key and value would leave the `i64` range.
    pub fn merge_event(&mut self, ev: SnapshotEvent) -> (r: Result<(), SnapshotError>)
        requires
            old(self).wf(),
        ensures
            final(self).wf(),
            r is Ok <==> fits_i64(net_of(old(self)@, ev.key@, event_bytes(ev)) + ev.diff),
            r is Ok ==> final(self)@ == add_event(old(self)@, ev.key@, event_bytes(ev), ev.diff as int),
            r is Err ==> r == Err::<(), SnapshotError>(SnapshotError::DiffOverflow) && final(self)@ == old(self)@,
    {
        let b = encode_value(&ev.value);
        let ghost k = ev.key@;
        let ghost bs = b@;
        let ghost m0 = self@;
        let ghost idx0 = index_of(self.index);
        let ghost accs0 = self.accs@;
        let d = ev.diff;
        match index_get(&self.index, &ev.key.0) {
            None => {
                if d != 0 {
                    let n = self.accs.len();
                    let mut entries: Vec<Pending> = Vec::new();
                    entries.push(Pending { bytes: b, value: ev.value, diff: d });
                    self.accs.push(KeyAccum { key: ev.key, entries });
                    index_insert(&mut self.index, ev.key.0, n);
                    proof {
                        let es = self.accs@[n as int].entries@;
                        assert(es.drop_last() =~= Seq::<Pending>::empty());
                        assert(sum_for(es.drop_last(), bs) == 0);
                        assert forall|k2: Seq<u8>| #[trigger]
                            index_of(self.index).contains_key(k2) implies {
                            &&& index_of(self.index)[k2] < self.accs.len()
                            &&& self.accs@[index_of(self.index)[k2] as int].key@ == k2
                        } by {
                            if k2 != k {
                                assert(idx0.contains_key(k2));
                            }
                        }
                        assert forall|i: int| 0 <= i < self.accs.len() implies {
                            &&& index_of(self.index).contains_key(#[trigger] self.accs@[i].key@)
                            &&& index_of(self.index)[self.accs@[i].key@] == i
                            &&& distinct_bytes(self.accs@[i].entries@)
                            &&& forall|j: int|
                                0 <= j < self.accs@[i].entries.len() ==> {
                                    &&& (#[trigger] self.accs@[i].entries@[j]).diff != 0
                                    &&& self.accs@[i].entries@[j].bytes@ == value_bytes(
                                        value_model(self.accs@[i].entries@[j].value),
                                    )
                                }
                        } by {
                            if i < n {
                                assert(self.accs@[i] == accs0[i]);
                                assert(idx0.contains_key(accs0[i].key@));
                            }
                        }
                        assert forall|p: (Seq<u8>, Seq<u8>)| #[trigger]
                            self@.contains_key(p) == add_event(m0, k, bs, d as int).contains_key(p)
                                && (self@.contains_key(p) ==> self@[p] == add_event(
                                m0,
                                k,
                                bs,
                                d as int,
                            )[p]) by {
                            if p.0 != k && idx0.contains_key(p.0) {
                                assert(self.accs@[idx0[p.0] as int] == accs0[idx0[p.0] as int]);
                            }
                            if p.0 == k && p.1 != bs {
                                assert(es.len() == 1);
                                assert(es.last().bytes@ == bs);
                                assert(sum_for(es.drop_last(), p.1) == 0);
                                assert(sum_for(es, p.1) == 0);
                            }
                        }
                        assert(self@ =~= add_event(m0, k, bs, d as int));
                        assert(self.wf());
                    }
                } else {
                    assert(self@ =~= add_event(m0, k, bs, d as int));
                }
                Ok(())
            },
            Some(e) => {
                proof {
                    assert(idx0.contains_key(k));
                }
                let ghost es0 = self.accs@[e as int].entries@;
                match find_bytes(&self.accs[e].entries, &b) {
                    None => {
                        proof {
                            lemma_sum_absent(es0, bs);
                        }
                        if d != 0 {
                            self.accs[e].entries.push(Pending { bytes: b, value: ev.value, diff: d });
                            proof {
                                let es = self.accs@[e as int].entries@;
                                assert(es.drop_last() == es0);
                                assert forall|i: int| 0 <= i < self.accs.len() implies {
                                    &&& index_of(self.index).contains_key(#[trigger] self.accs@[i].key@)
                                    &&& index_of(self.index)[self.accs@[i].key@] == i
                                    &&& distinct_bytes(self.accs@[i].entries@)
                                    &&& forall|j: int|
                                        0 <= j < self.accs@[i].entries.len() ==> {
                                            &&& (#[trigger] self.accs@[i].entries@[j]).diff != 0
                                            &&& self.accs@[i].entries@[j].bytes@ == value_bytes(
                                                value_model(self.accs@[i].entries@[j].value),
                                            )
                                        }
                                } by {
                                    if i == e {
                                        assert forall|a: int, c: int|
                                            0 <= a < es.len() && 0 <= c < es.len() && a != c implies #[trigger] es[a].bytes@
                                            != #[trigger] es[c].bytes@ by {
                                            if a < es0.len() && c < es0.len() {
                                                assert(es[a] == es0[a] && es[c] == es0[c]);
                                            } else if a < es0.len() {
                                                assert(es[a] == es0[a]);
                                            } else {
                                                assert(es[c] == es0[c]);
                                            }
                                        }
                                        assert forall|j: int| 0 <= j < es.len() implies {
                                            &&& (#[trigger] es[j]).diff != 0
                                            &&& es[j].bytes@ == value_bytes(value_model(es[j].value))
                                        } by {
                                            if j < es0.len() {
                                                assert(es[j] == es0[j]);
                                            }
                                        }
                                    } else {
                                        assert(self.accs@[i] == accs0[i]);
                                    }
                                }
                                self.lemma_view_change(m0, idx0, accs0, e as int, k, bs, d as int);
                                    assert forall|k2: Seq<u8>| #[trigger]
                                        index_of(self.index).contains_key(k2) implies {
                                        &&& index_of(self.index)[k2] < self.accs.len()
                                        &&& self.accs@[index_of(self.index)[k2] as int].key@ == k2
                                    } by {
                                        assert(idx0.contains_key(k2));
                                        if idx0[k2] != e {
                                            assert(self.accs@[idx0[k2] as int] == accs0[idx0[k2] as int]);
                                        }
                                    }
                                    assert(self.wf());
                            }
                        } else {
                            assert(self@ =~= add_event(m0, k, bs, d as int));
                        }
                        Ok(())
                    },
                    Some(j) => {
                        proof {
                            lemma_sum_present(es0, j as int);
                        }
                        let cur = self.accs[e].entries[j].diff;
                        match cur.checked_add(d) {
                            None => Err(SnapshotError::DiffOverflow),
                            Some(nd) => {
                                if nd == 0 {
                                    self.accs[e].entries.remove(j);
                                    proof {
                                        let es = self.accs@[e as int].entries@;
                                        assert(es == es0.remove(j as int));
                                        assert forall|b2: Seq<u8>| #[trigger] sum_for(es, b2) == sum_for(es0, b2)
                                            - if b2 == bs { es0[j as int].diff as int } else { 0 } by {
                                            lemma_sum_remove(es0, j as int, b2);
                                        }
                                    }
                                } else {
                                    self.accs[e].entries[j].diff = nd;
                                    proof {
                                        let es = self.accs@[e as int].entries@;
                                        assert(es == es0.update(j as int, es[j as int]));
                                        assert forall|b2: Seq<u8>| #[trigger] sum_for(es, b2) == sum_for(es0, b2)
                                            + if b2 == bs { nd - es0[j as int].diff } else { 0 } by {
                                            lemma_sum_update(es0, j as int, es[j as int], b2);
                                        }
                                    }
                                }
                                proof {
                                    let es = self.accs@[e as int].entries@;
                                    assert forall|i: int| 0 <= i < self.accs.len() implies {
                                        &&& index_of(self.index).contains_key(#[trigger] self.accs@[i].key@)
                                        &&& index_of(self.index)[self.accs@[i].key@] == i
                                        &&& distinct_bytes(self.accs@[i].entries@)
                                        &&& forall|j: int|
                                            0 <= j < self.accs@[i].entries.len() ==> {
                                                &&& (#[trigger] self.accs@[i].entries@[j]).diff != 0
                                                &&& self.accs@[i].entries@[j].bytes@ == value_bytes(
                                                    value_model(self.accs@[i].entries@[j].value),
                                                )
                                            }
                                    } by {
                                        if i != e {
                                            assert(self.accs@[i] == accs0[i]);
                                        } else if nd == 0 {
                                            assert forall|a: int, c: int|
                                                0 <= a < es.len() && 0 <= c < es.len() && a != c implies #[trigger] es[a].bytes@
                                                != #[trigger] es[c].bytes@ by {
                                                let a0 = if a < j { a } else { a + 1 };
                                                let c0 = if c < j { c } else { c + 1 };
                                                assert(es[a] == es0[a0] && es[c] == es0[c0]);
                                            }
                                            assert forall|jj: int| 0 <= jj < es.len() implies {
                                                &&& (#[trigger] es[jj]).diff != 0
                                                &&& es[jj].bytes@ == value_bytes(value_model(es[jj].value))
                                            } by {
                                                let j0 = if jj < j { jj } else { jj + 1 };
                                                assert(es[jj] == es0[j0]);
                                            }
                                        } else {
                                            assert forall|a: int, c: int|
                                                0 <= a < es.len() && 0 <= c < es.len() && a != c implies #[trigger] es[a].bytes@
                                                != #[trigger] es[c].bytes@ by {
                                                assert(es[a].bytes@ == es0[a].bytes@);
                                                assert(es[c].bytes@ == es0[c].bytes@);
                                            }
                                            assert forall|jj: int| 0 <= jj < es.len() implies {
                                                &&& (#[trigger] es[jj]).diff != 0
                                                &&& es[jj].bytes@ == value_bytes(value_model(es[jj].value))
                                            } by {
                                                if jj != j {
                                                    assert(es[jj] == es0[jj]);
                                                }
                                            }
                                        }
                                    }
                                    self.lemma_view_change(m0, idx0, accs0, e as int, k, bs, d as int);
                                    assert forall|k2: Seq<u8>| #[trigger]
                                        index_of(self.index).contains_key(k2) implies {
                                        &&& index_of(self.index)[k2] < self.accs.len()
                                        &&& self.accs@[index_of(self.index)[k2] as int].key@ == k2
                                    } by {
                                        assert(idx0.contains_key(k2));
                                        if idx0[k2] != e {
                                            assert(self.accs@[idx0[k2] as int] == accs0[idx0[k2] as int]);
                                        }
                                    }
                                    assert(self.wf());
                                }
                                Ok(())
                            },
                        }
                    },
                }
            },
        }
    }

    /// After one key's entries changed so that their sums moved by `d` at `bs` alone, the
    /// view moved by the event.
    proof fn lemma_view_change(
        &self,
        m0: NetModel,
        idx0: Map<Seq<u8>, usize>,
        accs0: Seq<KeyAccum>,
        e: int,
        k: Seq<u8>,
        bs: Seq<u8>,
        d: int,
    )
        requires
            index_of(self.index) == idx0,
            idx0.contains_key(k),
            idx0[k] == e,
            0 <= e < accs0.len(),
            self.accs.len() == accs0.len(),
            forall|i: int| 0 <= i < accs0.len() && i != e ==> self.accs@[i] == accs0[i],
            forall|k2: Seq<u8>| #[trigger] idx0.contains_key(k2) ==> idx0[k2] < accs0.len() && accs0[idx0[k2] as int].key@ == k2,
            forall|b2: Seq<u8>| #[trigger] sum_for(self.accs@[e].entries@, b2) == sum_for(accs0[e].entries@, b2) + if b2 == bs { d } else { 0 },
            m0 == Map::new(
                |p: (Seq<u8>, Seq<u8>)| idx0.contains_key(p.0) && sum_for(accs0[idx0[p.0] as int].entries@, p.1) != 0,
                |p: (Seq<u8>, Seq<u8>)| sum_for(accs0[idx0[p.0] as int].entries@, p.1),
            ),
        ensures
            self@ == add_event(m0, k, bs, d),
    {
        let target = add_event(m0, k, bs, d);
        assert forall|p: (Seq<u8>, Seq<u8>)| #[trigger] self@.contains_key(p) == target.contains_key(p)
            && (self@.contains_key(p) ==> self@[p] == target[p]) by {
            if idx0.contains_key(p.0) && p.0 != k {
                assert(idx0[p.0] != e);
            }
            assert(sum_for(self.accs@[e].entries@, p.1) == sum_for(accs0[e].entries@, p.1) + if p.1 == bs { d } else { 0 });
        }
        assert(self@ =~= target);
    }

    /// Adds the records of `events`, in order. Fails where a running multiplicity of one
    /// key and value would leave the `i64` range.
    pub fn merge_chunk(&mut self, events: Vec<SnapshotEvent>) -> (r: Result<(), SnapshotError>)
        requires
            old(self).wf(),
        ensures
            final(self).wf(),
            r is Ok <==> events_fit(old(self)@, events@),
            r is Ok ==> final(self)@ == add_events(old(self)@, events@),
    {
        let ghost all = events@;
        let ghost m0 = self@;
        let mut evs = events;
        let mut rev = reverse_into(&mut evs);
        let n = rev.len();
        while rev.len() > 0
            invariant
                self.wf(),
                rev.len() <= n,
                n == all.len(),
                forall|j: int| 0 <= j < rev.len() ==> #[trigger] rev@[j] == all[n - 1 - j],
                events_fit(m0, all.subrange(0, n - rev.len())),
                all == events@,
                m0 == old(self)@,
                self@ == add_events(m0, all.subrange(0, n - rev.len())),
            decreases rev.len(),
        {
            let ghost done = n - rev.len();
            let ev = rev.pop().unwrap();
            proof {
                assert(ev == all[done]);
                let pre = all.subrange(0, done + 1);
                assert(pre.drop_last() =~= all.subrange(0, done));
                assert(pre.last() == ev);
            }
            match self.merge_event(ev) {
                Ok(()) => {},
                Err(err) => {
                    proof {
                        let pre = all.subrange(0, done);
                        assert(all[done + 1 - 1] == all[done]);
                        assert(all.subrange(0, done + 1 - 1) == pre);
                        assert(events_fit(m0, all.subrange(0, done)));
                        assert(self@ == add_events(m0, pre));
                        assert(!fits_i64(net_of(add_events(m0, pre), all[done].key@, event_bytes(all[done])) + all[done].diff));
                        lemma_fit_prefix(m0, all, done + 1);
                        assert(!events_fit(m0, all));
                        assert(all == events@);
                        assert(m0 == old(self)@);
                    }
                    return Err(err);
                },
            }
        }
        assert(all.subrange(0, n as int) =~= all);
        Ok(())
    }

    /// Whether the replay consolidated so far leaves each key at most one value, of
    /// multiplicity one.
    pub fn is_consistent(&self) -> (r: bool)
        requires
            self.wf(),
        ensures
            r == consistent(self@),
    {
        let mut i: usize = 0;
        while i < self.accs.len()
            invariant
                self.wf(),
                i <= self.accs.len(),
                forall|a: int|
                    0 <= a < i ==> (#[trigger] self.accs@[a]).entries.len() == 0 || (
                    self.accs@[a].entries.len() == 1 && self.accs@[a].entries@[0].diff == 1),
            decreases self.accs.len() - i,
        {
            let es = &self.accs[i].entries;
            let fine = es.len() == 0 || (es.len() == 1 && es[0].diff == 1);
            if !fine {
                proof {
                    let k = self.accs@[i as int].key@;
                    let es = self.accs@[i as int].entries@;
                    assert(index_of(self.index)[k] == i);
                    if es.len() >= 2 {
                        lemma_sum_present(es, 0);
                        lemma_sum_present(es, 1);
                        assert(self@.contains_key((k, es[0].bytes@)));
                        assert(self@.contains_key((k, es[1].bytes@)));
                    } else {
                        lemma_sum_present(es, 0);
                        assert(self@.contains_key((k, es[0].bytes@)));
                    }
                }
                return false;
            }
            i += 1;
        }
        proof {
            assert forall|p: (Seq<u8>, Seq<u8>)| #[trigger] self@.contains_key(p) implies self@[p] == 1
                && self.accs@[index_of(self.index)[p.0] as int].entries@[0].bytes@ == p.1 by {
                let es = self.accs@[index_of(self.index)[p.0] as int].entries@;
                let j = lemma_sum_nonzero(es, p.1);
                lemma_sum_present(es, j);
            }
        }
        true
    }

    /// Writes the consolidated replay into `state`: each key whose records net to one
    /// value of multiplicity one gets that value. A replay of the operator's own earlier
    /// output always consolidates that way; anything else is a broken caller.
    pub fn finish(&self, state: &mut InMemoryHashMap)
        requires
            self.wf(),
            old(state).wf(),
            consistent(self@),
        ensures
            final(state).wf(),
            forall|p: (Seq<u8>, Seq<u8>)| #[trigger]
                self@.contains_key(p) ==> final(state)@.contains_key(p.0) && value_bytes(
                    final(state)@[p.0],
                ) == p.1,
            forall|k: Seq<u8>|
                !self.has_key(k) ==> #[trigger] map_get(final(state)@, k) == map_get(
                    old(state)@,
                    k,
                ),
    {
        proof {
            assert forall|a: int| 0 <= a < self.accs.len() implies (#[trigger] self.accs@[a]).entries.len()
                == 0 || (self.accs@[a].entries.len() == 1 && self.accs@[a].entries@[0].diff == 1) by {
                let k = self.accs@[a].key@;
                let es = self.accs@[a].entries@;
                assert(index_of(self.index)[k] == a);
                if es.len() >= 2 {
                    lemma_sum_present(es, 0);
                    lemma_sum_present(es, 1);
                    assert(self@.contains_key((k, es[0].bytes@)));
                    assert(self@.contains_key((k, es[1].bytes@)));
                } else if es.len() == 1 {
                    lemma_sum_present(es, 0);
                    assert(self@.contains_key((k, es[0].bytes@)));
                }
            }
        }
        let (puts, Ghost(src), Ghost(dst)) = self.collect_puts();
        proof {
            assert forall|x: int, z: int|
                0 <= x < puts.len() && 0 <= z < puts.len() && x != z implies #[trigger] puts@[x].key@
                != #[trigger] puts@[z].key@ by {
                assert(index_of(self.index)[self.accs@[src[x]].key@] == src[x]);
                assert(index_of(self.index)[self.accs@[src[z]].key@] == src[z]);
                if x < z {
                    assert(src[x] < src[z]);
                } else {
                    assert(src[z] < src[x]);
                }
            }
        }
        let ghost m_old = state@;
        proof {
            lemma_put_all_distinct(m_old, puts@);
        }
        state.multi_put(&puts);
        proof {
            assert forall|p: (Seq<u8>, Seq<u8>)| #[trigger] self@.contains_key(p) implies state@.contains_key(p.0)
                && value_bytes(state@[p.0]) == p.1 by {
                let y = index_of(self.index)[p.0] as int;
                let es = self.accs@[y].entries@;
                let j = lemma_sum_nonzero(es, p.1);
                let x = dst[y];
                assert(src[x] == y);
                assert(map_get(state@, puts@[x].key@) == opt_value_model(puts@[x].value));
            }
            assert forall|k: Seq<u8>| !self.has_key(k) implies #[trigger] map_get(state@, k) == map_get(m_old, k) by {
                assert forall|x: int| 0 <= x < puts.len() implies #[trigger] puts@[x].key@ != k by {
                    let y = src[x];
                    if puts@[x].key@ == k {
                        let es = self.accs@[y].entries@;
                        lemma_sum_present(es, 0);
                        assert(index_of(self.index)[self.accs@[y].key@] == y);
                        assert(self@.contains_key((k, es[0].bytes@)));
                    }
                }
            }
        }
    }

    /// The writes that the consolidated replay makes: one for each key with one value left,
    /// with `src` giving the position of its key and `dst` the way back.
    fn collect_puts(&self) -> (r: (Vec<PutEntry>, Ghost<Seq<int>>, Ghost<Seq<int>>))
        requires
            self.wf(),
        ensures
            ({
                let (puts, src, dst) = r;
                &&& src@.len() == puts.len()
                &&& dst@.len() == self.accs.len()
                &&& forall|x: int|
                    0 <= x < puts.len() ==> {
                        &&& 0 <= #[trigger] src@[x] < self.accs.len()
                        &&& puts@[x].key == self.accs@[src@[x]].key
                        &&& self.accs@[src@[x]].entries.len() == 1
                        &&& opt_value_model(puts@[x].value) == Some(
                            value_model(self.accs@[src@[x]].entries@[0].value),
                        )
                    }
                &&& forall|x: int, z: int| 0 <= x < z < puts.len() ==> #[trigger] src@[x] < #[trigger] src@[z]
                &&& forall|y: int|
                    0 <= y < self.accs.len() && (#[trigger] self.accs@[y]).entries.len() == 1 ==> 0
                        <= dst@[y] < puts.len() && src@[dst@[y]] == y
            }),
    {
        let mut puts: Vec<PutEntry> = Vec::new();
        let ghost mut src: Seq<int> = Seq::empty();
        let ghost mut dst: Seq<int> = Seq::empty();
        let mut a: usize = 0;
        while a < self.accs.len()
            invariant
                self.wf(),
                a <= self.accs.len(),
                src.len() == puts.len(),
                dst.len() == a,
                forall|x: int|
                    0 <= x < puts.len() ==> {
                        &&& 0 <= #[trigger] src[x] < a
                        &&& puts@[x].key == self.accs@[src[x]].key
                        &&& self.accs@[src[x]].entries.len() == 1
                        &&& opt_value_model(puts@[x].value) == Some(
                            value_model(self.accs@[src[x]].entries@[0].value),
                        )
                    },
                forall|x: int, z: int| 0 <= x < z < puts.len() ==> #[trigger] src[x] < #[trigger] src[z],
                forall|y: int|
                    0 <= y < a && (#[trigger] self.accs@[y]).entries.len() == 1 ==> 0 <= dst[y]
                        < puts.len() && src[dst[y]] == y,
            decreases self.accs.len() - a,
        {
            if self.accs[a].entries.len() == 1 {
                let v = copy_value(&self.accs[a].entries[0].value);
                proof {
                    dst = dst.push(puts.len() as int);
                    src = src.push(a as int);
                }
                puts.push(PutEntry { key: self.accs[a].key, value: Some(v), previous_persisted_size: None });
            } else {
                proof {
                    dst = dst.push(0);
                }
            }
            a += 1;
        }
        (puts, Ghost(src), Ghost(dst))
    }

    /// Some value of key `k` has a multiplicity other than zero.
    pub open spec fn has_key(&self, k: Seq<u8>) -> bool {
        exists|b: Seq<u8>| #[trigger] self@.contains_key((k, b))
    }
}

proof fn lemma_fit_prefix(m: NetModel, es: Seq<SnapshotEvent>, n: int)
    requires
        0 < n <= es.len(),
        events_fit(m, es.subrange(0, n - 1)),
        !fits_i64(net_of(add_events(m, es.subrange(0, n - 1)), es[n - 1].key@, event_bytes(es[n - 1])) + es[n - 1].diff),
    ensures
        !events_fit(m, es),
    decreases es.len(),
{
    if n == es.len() {
        assert(es.drop_last() =~= es.subrange(0, n - 1));
    } else {
        assert(es.drop_last().subrange(0, n - 1) =~= es.subrange(0, n - 1));
        lemma_fit_prefix(m, es.drop_last(), n);
    }
}

} // verus!
