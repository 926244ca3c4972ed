//! The in-memory state backend: the current value of each key, read and written in bulk.
use vstd::prelude::*;
use crate::codec::{encoded_size, value_bytes};
use crate::datum::{UpsertValue, ValueModel, copy_value, opt_value_model, value_model};
use crate::index::{KeyIndex, index_get, index_insert, index_new, index_of, index_remove};
use crate::key::UpsertKey;
use crate::upsert::{lemma_put_all_distinct, map_get};

verus! {

/// What a bulk read finds for one key: its value and the persisted size of that value.
pub struct StateLookup {
    pub value: Option<UpsertValue>,
    pub size: Option<u64>,
}

/// One write of a bulk write: the new value of `key`, or its removal, with the persisted
/// size that `key` had when it was read (`None` where it had no value), so that a backend
/// that keeps a running size need not read it again.
pub struct PutEntry {
    pub key: UpsertKey,
    pub value: Option<UpsertValue>,
    pub previous_persisted_size: Option<u64>,
}

/// The persisted size of a value: the length of its encoding.
pub open spec fn persisted_size(v: ValueModel) -> int {
    value_bytes(v).len() as int
}

/// Whether `l` is what a read of `k` finds in `m`.
pub open spec fn lookup_matches(l: StateLookup, m: Map<Seq<u8>, ValueModel>, k: Seq<u8>) -> bool {
    if m.contains_key(k) {
        &&& opt_value_model(l.value) == Some(m[k])
        &&& l.size matches Some(s) && s as int == persisted_size(m[k])
    } else {
        l.value is None && l.size is None
    }
}

/// The contents after writing `k := v`, where `None` removes `k`.
pub open spec fn put_one(m: Map<Seq<u8>, ValueModel>, k: Seq<u8>, v: Option<ValueModel>) -> Map<
    Seq<u8>,
    ValueModel,
> {
    match v {
        Some(v) => m.insert(k, v),
        None => m.remove(k),
    }
}

/// The contents after the writes of `entries`, in order.
pub open spec fn put_all(m: Map<Seq<u8>, ValueModel>, entries: Seq<PutEntry>) -> Map<
    Seq<u8>,
    ValueModel,
>
    decreases entries.len(),
{
    if entries.len() == 0 {
        m
    } else {
        let last = entries.last();
        put_one(put_all(m, entries.drop_last()), last.key@, opt_value_model(last.value))
    }
}

/// The persisted size that key `k` takes in `m`: that of its value, or 0.
pub open spec fn stored_size(m: Map<Seq<u8>, ValueModel>, k: Seq<u8>) -> int {
    if m.contains_key(k) {
        persisted_size(m[k])
    } else {
        0
    }
}

/// The persisted size that writing `v` stores: that of the value, or 0 for a removal.
pub open spec fn written_size(v: Option<ValueModel>) -> int {
    match v {
        Some(v) => persisted_size(v),
        None => 0,
    }
}

/// The total persisted size after the writes of `entries`, starting from contents `m`
/// of total size `total`: each write takes off the size its key had and adds the new one.
pub open spec fn size_after(total: int, m: Map<Seq<u8>, ValueModel>, entries: Seq<PutEntry>) -> int
    decreases entries.len(),
{
    if entries.len() == 0 {
        total
    } else {
        let pre = entries.drop_last();
        let e = entries.last();
        size_after(total, m, pre) - stored_size(put_all(m, pre), e.key@) + written_size(
            opt_value_model(e.value),
        )
    }
}

spec fn slots_size(slots: Seq<Slot>) -> int
    decreases slots.len(),
{
    if slots.len() == 0 {
        0
    } else {
        slots_size(slots.drop_last()) + slots.last().size
    }
}

proof fn lemma_slots_size_update(s: Seq<Slot>, i: int, x: Slot)
    requires
        0 <= i < s.len(),
    ensures
        slots_size(s.update(i, x)) == slots_size(s) - s[i].size + x.size,
    decreases s.len(),
{
    let u = s.update(i, x);
    if i == s.len() - 1 {
        assert(u.drop_last() =~= s.drop_last());
    } else {
        assert(u.drop_last() =~= s.drop_last().update(i, x));
        lemma_slots_size_update(s.drop_last(), i, x);
    }
}

struct Slot {
    key: UpsertKey,
    value: UpsertValue,
    size: u64,
}

/// A map from key fingerprint to value, held in memory.
pub struct InMemoryHashMap {
    index: KeyIndex,
    slots: Vec<Slot>,
}

impl View for InMemoryHashMap {
    type V = Map<Seq<u8>, ValueModel>;

    closed spec fn view(&self) -> Map<Seq<u8>, ValueModel> {
        Map::new(
            |k: Seq<u8>| index_of(self.index).contains_key(k),
            |k: Seq<u8>| value_model(self.slots@[index_of(self.index)[k] as int].value),
        )
    }
}

impl InMemoryHashMap {
    /// The backend's internal consistency: the index and the slots agree.
    pub closed spec fn wf(&self) -> bool {
        &&& forall|k: Seq<u8>| #[trigger]
            index_of(self.index).contains_key(k) ==> {
                &&& index_of(self.index)[k] < self.slots.len()
                &&& self.slots@[index_of(self.index)[k] as int].key@ == k
            }
        &&& forall|i: int|
            0 <= i < self.slots.len() ==> {
                &&& index_of(self.index).contains_key(#[trigger] self.slots@[i].key@)
                &&& index_of(self.index)[self.slots@[i].key@] == i
                &&& self.slots@[i].size as int == persisted_size(value_model(self.slots@[i].value))
            }
    }

    /// An empty backend.
    pub fn new() -> (r: InMemoryHashMap)
        ensures
            r.wf(),
            r@ == Map::<Seq<u8>, ValueModel>::empty(),
            r.total_size() == 0,
    {
        let r = InMemoryHashMap { index: index_new(), slots: Vec::new() };
        assert(r@ =~= Map::<Seq<u8>, ValueModel>::empty());
        r
    }

    /// The number of keys that have a value.
    pub fn len(&self) -> (r: usize)
        requires
            self.wf(),
        ensures
            r as int == self@.dom().len(),
    {
        proof { self.lemma_dom_len(); }
        self.slots.len()
    }

    proof fn lemma_dom_len(&self)
        requires
            self.wf(),
        ensures
            self@.dom().len() == self.slots.len(),
            self@.dom().finite(),
    {
        let keys = Seq::new(self.slots.len() as nat, |i: int| self.slots@[i].key@);
        assert(keys.no_duplicates()) by {
            assert forall|i: int, j: int|
                0 <= i < keys.len() && 0 <= j < keys.len() && i != j implies keys[i] != keys[j] by {
                assert(index_of(self.index)[self.slots@[i].key@] == i);
                assert(index_of(self.index)[self.slots@[j].key@] == j);
            }
        }
        assert(keys.to_set() =~= self@.dom()) by {
            assert forall|k: Seq<u8>| self@.dom().contains(k) implies keys.to_set().contains(k) by {
                let i = index_of(self.index)[k] as int;
                assert(keys[i] == k);
            }
        }
        keys.unique_seq_to_set();
    }

    /// The sum of the persisted sizes of the values held. It is 0 for a new backend, and
    /// `multi_put` moves it as [`size_after`] says.
    pub closed spec fn total_size(&self) -> int {
        slots_size(self.slots@)
    }

    /// The sum of the persisted sizes of the values held, or `u64::MAX` where it is larger.
    pub fn bytes(&self) -> (r: u64)
        ensures
            r as int == if self.total_size() <= u64::MAX {
                self.total_size()
            } else {
                u64::MAX as int
            },
    {
        let mut total: u64 = 0;
        let mut i: usize = 0;
        while i < self.slots.len()
            invariant
                i <= self.slots.len(),
                total as int == if slots_size(self.slots@.subrange(0, i as int)) <= u64::MAX {
                    slots_size(self.slots@.subrange(0, i as int))
                } else {
                    u64::MAX as int
                },
                slots_size(self.slots@.subrange(0, i as int)) >= 0,
            decreases self.slots.len() - i,
        {
            proof {
                assert(self.slots@.subrange(0, i + 1).drop_last() =~= self.slots@.subrange(0, i as int));
            }
            total = total.saturating_add(self.slots[i].size);
            i += 1;
        }
        assert(self.slots@.subrange(0, i as int) =~= self.slots@);
        total
    }

    /// One write per key held, which writes these contents into an empty backend.
    pub fn entries(&self) -> (r: Vec<PutEntry>)
        requires
            self.wf(),
        ensures
            put_all(Map::empty(), r@) == self@,
            forall|a: int, b: int|
                0 <= a < r.len() && 0 <= b < r.len() && a != b ==> #[trigger] r@[a].key@
                    != #[trigger] r@[b].key@,
    {
        let mut out: Vec<PutEntry> = Vec::new();
        let mut i: usize = 0;
        while i < self.slots.len()
            invariant
                self.wf(),
                i <= self.slots.len(),
                out.len() == i,
                forall|a: int| 0 <= a < i ==> (#[trigger] out@[a]).key == self.slots@[a].key
                    && opt_value_model(out@[a].value) == Some(value_model(self.slots@[a].value)),
            decreases self.slots.len() - i,
        {
            let v = copy_value(&self.slots[i].value);
            out.push(PutEntry { key: self.slots[i].key, value: Some(v), previous_persisted_size: None });
            i += 1;
        }
        proof {
            assert forall|a: int, b: int|
                0 <= a < out.len() && 0 <= b < out.len() && a != b implies #[trigger] out@[a].key@
                != #[trigger] out@[b].key@ by {
                assert(index_of(self.index)[self.slots@[a].key@] == a);
                assert(index_of(self.index)[self.slots@[b].key@] == b);
            }
            let e = Map::<Seq<u8>, ValueModel>::empty();
            lemma_put_all_distinct(e, out@);
            let fin = put_all(e, out@);
            assert forall|k: Seq<u8>| map_get(fin, k) == map_get(self@, k) by {
                if self@.contains_key(k) {
                    let a = index_of(self.index)[k] as int;
                    assert(out@[a].key@ == k);
                    assert(map_get(fin, out@[a].key@) == opt_value_model(out@[a].value));
                    assert(self@[k] == value_model(self.slots@[a].value));
                } else {
                    assert forall|a: int| 0 <= a < out.len() implies #[trigger] out@[a].key@ != k by {
                        assert(index_of(self.index).contains_key(self.slots@[a].key@));
                    }
                    assert(map_get(fin, k) == map_get(e, k));
                    assert(!e.contains_key(k));
                }
            }
            assert forall|k: Seq<u8>| fin.contains_key(k) <==> self@.contains_key(k) by {
                assert(map_get(fin, k) == map_get(self@, k));
            }
            assert forall|k: Seq<u8>| fin.contains_key(k) implies fin[k] == self@[k] by {
                assert(map_get(fin, k) == map_get(self@, k));
            }
            assert(fin =~= self@);
        }
        out
    }

    fn lookup(&self, key: &UpsertKey) -> (r: StateLookup)
        requires
            self.wf(),
        ensures
            lookup_matches(r, self@, key@),
    {
        match index_get(&self.index, &key.0) {
            Some(i) => {
                let slot = &self.slots[i];
                StateLookup { value: Some(copy_value(&slot.value)), size: Some(slot.size) }
            },
            None => StateLookup { value: None, size: None },
        }
    }

    /// Reads every key of `keys`: the result's entry `i` is what key `i` has.
    pub fn multi_get(&self, keys: &Vec<UpsertKey>) -> (r: Vec<StateLookup>)
        requires
            self.wf(),
        ensures
            r.len() == keys.len(),
            forall|i: int| 0 <= i < keys.len() ==> lookup_matches(#[trigger] r@[i], self@, keys@[i]@),
    {
        let mut out: Vec<StateLookup> = Vec::new();
        let mut i: usize = 0;
        while i < keys.len()
            invariant
                self.wf(),
                i <= keys.len(),
                out.len() == i,
                forall|j: int| 0 <= j < i ==> lookup_matches(#[trigger] out@[j], self@, keys@[j]@),
            decreases keys.len() - i,
        {
            let l = self.lookup(&keys[i]);
            out.push(l);
            i += 1;
        }
        out
    }

    fn put(&mut self, key: UpsertKey, value: Option<UpsertValue>)
        requires
            old(self).wf(),
        ensures
            final(self).wf(),
            final(self)@ == put_one(old(self)@, key@, opt_value_model(value)),
            final(self).total_size() == old(self).total_size() - stored_size(old(self)@, key@)
                + written_size(opt_value_model(value)),
    {
        let ghost idx0 = index_of(self.index);
        let ghost slots0 = self.slots@;
        match value {
            Some(v) => {
                let size = encoded_size(&v);
                match index_get(&self.index, &key.0) {
                    Some(i) => {
                        proof {
                            assert(idx0.contains_key(key@));
                        }
                        let ghost old_slot = slots0[i as int];
                        self.slots.set(i, Slot { key, value: v, size });
                        proof {
                            lemma_slots_size_update(slots0, i as int, self.slots@[i as int]);
                            assert(self.slots@ == slots0.update(i as int, self.slots@[i as int]));
                            assert(old(self)@[key@] == value_model(old_slot.value));
                            assert(old_slot.size as int == persisted_size(value_model(old_slot.value)));
                            assert forall|k: Seq<u8>| #[trigger]
                                index_of(self.index).contains_key(k) implies {
                                &&& index_of(self.index)[k] < self.slots.len()
                                &&& self.slots@[index_of(self.index)[k] as int].key@ == k
                            } by {
                                assert(idx0.contains_key(k));
                            }
                        }
                    },
                    None => {
                        let n = self.slots.len();
                        self.slots.push(Slot { key, value: v, size });
                        index_insert(&mut self.index, key.0, n);
                        proof {
                            assert(self.slots@.drop_last() =~= slots0);
                            assert forall|k: Seq<u8>| #[trigger]
                                index_of(self.index).contains_key(k) implies {
                                &&& index_of(self.index)[k] < self.slots.len()
                                &&& self.slots@[index_of(self.index)[k] as int].key@ == k
                            } by {
                                if k != key@ {
                                    assert(idx0.contains_key(k));
                                }
                            }
                            assert forall|i: int| 0 <= i < self.slots.len() implies {
                                &&& index_of(self.index).contains_key(#[trigger] self.slots@[i].key@)
                                &&& index_of(self.index)[self.slots@[i].key@] == i
                                &&& self.slots@[i].size as int == persisted_size(
                                    value_model(self.slots@[i].value),
                                )
                            } by {
                                if i < n {
                                    assert(self.slots@[i] == slots0[i]);
                                    assert(idx0.contains_key(slots0[i].key@));
                                }
                            }
                        }
                    },
                }
            },
            None => {
                match index_get(&self.index, &key.0) {
                    Some(i) => {
                        proof {
                            assert(idx0.contains_key(key@));
                        }
                        let ghost last = slots0.last();
                        let ghost n = slots0.len() - 1;
                        let ghost old_slot = slots0[i as int];
                        proof {
                            lemma_slots_size_update(slots0, i as int, last);
                            let u = slots0.update(i as int, last);
                            assert(u.last() == last);
                            assert(slots_size(u) == slots_size(u.drop_last()) + u.last().size);
                            assert(old(self)@[key@] == value_model(old_slot.value));
                            assert(old_slot.size as int == persisted_size(value_model(old_slot.value)));
                        }
                        self.slots.swap_remove(i);
                        if i < self.slots.len() {
                            let moved = self.slots[i].key;
                            index_insert(&mut self.index, moved.0, i);
                        }
                        index_remove(&mut self.index, &key.0);
                        proof {
                            assert(idx0.contains_key(last.key@));
                            assert(idx0[last.key@] == n);
                            assert forall|k: Seq<u8>| #[trigger]
                                index_of(self.index).contains_key(k) implies {
                                &&& index_of(self.index)[k] < self.slots.len()
                                &&& self.slots@[index_of(self.index)[k] as int].key@ == k
                            } by {
                                assert(idx0.contains_key(k));
                                if k != last.key@ {
                                    assert(idx0[k] != n);
                                    assert(idx0[k] != i);
                                }
                            }
                            assert forall|j: int| 0 <= j < self.slots.len() implies {
                                &&& index_of(self.index).contains_key(#[trigger] self.slots@[j].key@)
                                &&& index_of(self.index)[self.slots@[j].key@] == j
                                &&& self.slots@[j].size as int == persisted_size(
                                    value_model(self.slots@[j].value),
                                )
                            } by {
                                if j == i {
                                    assert(self.slots@[j] == last);
                                    assert(last.key@ != key@);
                                } else {
                                    assert(self.slots@[j] == slots0[j]);
                                    assert(idx0.contains_key(slots0[j].key@));
                                    assert(slots0[j].key@ != key@);
                                    assert(slots0[j].key@ != last.key@);
                                }
                            }
                            assert forall|k: Seq<u8>| #[trigger]
                                self@.contains_key(k) implies old(self)@.contains_key(k) && self@[k]
                                == old(self)@[k] by {
                                assert(idx0.contains_key(k));
                                if k != last.key@ {
                                    assert(idx0[k] != n);
                                    assert(idx0[k] != i);
                                }
                            }
                        }
                    },
                    None => {},
                }
            },
        }
        assert(self@ =~= put_one(old(self)@, key@, opt_value_model(value)));
    }

    /// Writes every entry of `entries`, in order.
    pub fn multi_put(&mut self, entries: &Vec<PutEntry>)
        requires
            old(self).wf(),
        ensures
            final(self).wf(),
            final(self)@ == put_all(old(self)@, entries@),
            final(self).total_size() == size_after(old(self).total_size(), old(self)@, entries@),
    {
        let mut i: usize = 0;
        while i < entries.len()
            invariant
                self.wf(),
                i <= entries.len(),
                self@ == put_all(old(self)@, entries@.subrange(0, i as int)),
                self.total_size() == size_after(old(self).total_size(), old(self)@, entries@.subrange(0, i as int)),
            decreases entries.len() - i,
        {
            let e = &entries[i];
            let v = match &e.value {
                Some(v) => Some(copy_value(v)),
                None => None,
            };
            self.put(e.key, v);
            proof {
                assert(entries@.subrange(0, i + 1).drop_last() =~= entries@.subrange(0, i as int));
            }
            i += 1;
        }
        assert(entries@.subrange(0, i as int) =~= entries@);
    }
}

} // verus!
