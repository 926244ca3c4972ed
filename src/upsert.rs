//! The mini-upsert: applying the commands of closed times to the state, one bulk read and
//! one bulk write per frontier step, and the retractions and insertions this emits.
use vstd::prelude::*;
use crate::codec::{encode_value, value_bytes};
use crate::datum::{UpsertValue, ValueModel, copy_value, opt_value_model, value_model};
use crate::index::{KeyIndex, index_get, index_insert, index_new, index_of};
use crate::key::UpsertKey;
use crate::stage::{Cut, StagedUpdate, cut_holds, partition, select};
use crate::snapshot::{NetModel, SnapshotEvent, add_events, consistent, event_bytes, net_of};
use crate::state::{
    InMemoryHashMap, PutEntry, StateLookup, lookup_matches, persisted_size, put_all, put_one,
};

verus! {

/// The contents of a state backend: the current value of each key.
pub type StateModel = Map<Seq<u8>, ValueModel>;

/// An output record: `value` enters (`diff == 1`) or leaves (`diff == -1`) at `time`.
pub struct OutputUpdate {
    pub value: UpsertValue,
    pub time: u64,
    pub diff: i64,
}

pub type OutputModel = (ValueModel, u64, i64);

pub open spec fn outputs_model(s: Seq<OutputUpdate>) -> Seq<OutputModel> {
    s.map_values(|o: OutputUpdate| (value_model(o.value), o.time, o.diff))
}

pub open spec fn map_get(m: StateModel, k: Seq<u8>) -> Option<ValueModel> {
    if m.contains_key(k) {
        Some(m[k])
    } else {
        None
    }
}

/// Lexicographic order on byte strings; a proper prefix comes first.
pub open spec fn bytes_lt(a: Seq<u8>, b: Seq<u8>) -> bool
    decreases a.len(),
{
    if a.len() == 0 {
        b.len() > 0
    } else if b.len() == 0 {
        false
    } else if a[0] != b[0] {
        a[0] < b[0]
    } else {
        bytes_lt(a.drop_first(), b.drop_first())
    }
}

/// What ranks commands of equal order: nothing for a deletion, else the value's encoding.
pub open spec fn command_bytes(c: StagedUpdate) -> Seq<u8> {
    match c.value {
        Some(v) => value_bytes(value_model(v)),
        None => Seq::empty(),
    }
}

/// Command `w` of `s` comes after command `j` in the consolidation of one key: a higher
/// order; at equal order, the smaller encoded value (a deletion first); and only between
/// commands equal in both, the one staged later.
pub open spec fn beats(s: Seq<StagedUpdate>, w: int, j: int) -> bool {
    ||| s[j].order < s[w].order
    ||| (s[j].order == s[w].order && bytes_lt(command_bytes(s[w]), command_bytes(s[j])))
    ||| (s[j].order == s[w].order && command_bytes(s[w]) == command_bytes(s[j]) && j < w)
}

proof fn lemma_bytes_lt_irreflexive(a: Seq<u8>)
    ensures
        !bytes_lt(a, a),
    decreases a.len(),
{
    if a.len() > 0 {
        lemma_bytes_lt_irreflexive(a.drop_first());
    }
}

proof fn lemma_bytes_lt_trichotomy(a: Seq<u8>, b: Seq<u8>)
    ensures
        a == b || bytes_lt(a, b) || bytes_lt(b, a),
        !(bytes_lt(a, b) && bytes_lt(b, a)),
    decreases a.len(),
{
    if a.len() > 0 && b.len() > 0 && a[0] == b[0] {
        lemma_bytes_lt_trichotomy(a.drop_first(), b.drop_first());
        if a.drop_first() == b.drop_first() {
            assert(a =~= seq![a[0]] + a.drop_first());
            assert(b =~= seq![b[0]] + b.drop_first());
        }
    } else if a.len() == 0 && b.len() == 0 {
        assert(a =~= b);
    }
}

proof fn lemma_bytes_lt_transitive(a: Seq<u8>, b: Seq<u8>, c: Seq<u8>)
    requires
        bytes_lt(a, b),
        bytes_lt(b, c),
    ensures
        bytes_lt(a, c),
    decreases a.len(),
{
    if a.len() > 0 && b.len() > 0 && c.len() > 0 && a[0] == b[0] && b[0] == c[0] {
        lemma_bytes_lt_transitive(a.drop_first(), b.drop_first(), c.drop_first());
    }
}

proof fn lemma_beats_order(s: Seq<StagedUpdate>, a: int, b: int, c: int)
    requires
        0 <= a < s.len(),
        0 <= b < s.len(),
        0 <= c < s.len(),
        a != b,
    ensures
        beats(s, a, b) || beats(s, b, a),
        !(beats(s, a, b) && beats(s, b, a)),
        beats(s, a, b) && beats(s, b, c) ==> beats(s, a, c),
{
    let (ba, bb, bc) = (command_bytes(s[a]), command_bytes(s[b]), command_bytes(s[c]));
    lemma_bytes_lt_trichotomy(ba, bb);
    lemma_bytes_lt_trichotomy(bb, bc);
    lemma_bytes_lt_trichotomy(ba, bc);
    lemma_bytes_lt_irreflexive(ba);
    if bytes_lt(ba, bb) && bytes_lt(bb, bc) {
        lemma_bytes_lt_transitive(ba, bb, bc);
    }
    if bytes_lt(bc, bb) && bytes_lt(bb, ba) {
        lemma_bytes_lt_transitive(bc, bb, ba);
    }
}

/// Command `i` of `s`, a set of commands at one time, is the one that takes effect for
/// its key.
pub open spec fn wins(s: Seq<StagedUpdate>, i: int) -> bool {
    forall|j: int|
        0 <= j < s.len() && j != i && #[trigger] s[j].key@ == s[i].key@ ==> beats(s, i, j)
}

/// The output changes when a key's value goes from `prev` to `next` at time `t`.
pub open spec fn changes(prev: Option<ValueModel>, next: Option<ValueModel>, t: u64) -> Seq<
    OutputModel,
> {
    let retract = match prev {
        Some(p) => seq![(p, t, -1i64)],
        None => Seq::empty(),
    };
    let insert = match next {
        Some(v) => seq![(v, t, 1i64)],
        None => Seq::empty(),
    };
    retract + insert
}

/// State and output after the winning commands among the first `n` commands of `s`,
/// all at one time, starting from `m`.
pub open spec fn step(m: StateModel, s: Seq<StagedUpdate>, n: int) -> (StateModel, Seq<OutputModel>)
    decreases n,
{
    if n <= 0 || n > s.len() {
        (m, Seq::empty())
    } else {
        let r = step(m, s, n - 1);
        let c = s[n - 1];
        if wins(s, n - 1) {
            (
                put_one(r.0, c.key@, opt_value_model(c.value)),
                r.1 + changes(map_get(r.0, c.key@), opt_value_model(c.value), c.time),
            )
        } else {
            r
        }
    }
}

/// The earliest time among the commands of `s`.
pub open spec fn min_time(s: Seq<StagedUpdate>) -> u64
    decreases s.len(),
{
    if s.len() == 0 {
        0
    } else if s.len() == 1 {
        s[0].time
    } else {
        let m = min_time(s.drop_last());
        if s.last().time < m {
            s.last().time
        } else {
            m
        }
    }
}

/// State and output after the commands of `s`, taken time by time from the earliest.
pub open spec fn process(m: StateModel, s: Seq<StagedUpdate>) -> (StateModel, Seq<OutputModel>)
    decreases s.len(),
{
    if s.len() == 0 {
        (m, Seq::empty())
    } else {
        let t = min_time(s);
        let cur = select(s, Cut::At(t), true);
        let rest = select(s, Cut::At(t), false);
        if rest.len() < s.len() {
            let r1 = step(m, cur, cur.len() as int);
            let r2 = process(r1.0, rest);
            (r2.0, r1.1 + r2.1)
        } else {
            (m, Seq::empty())
        }
    }
}

proof fn lemma_min_time(s: Seq<StagedUpdate>) -> (w: int)
    requires
        s.len() > 0,
    ensures
        0 <= w < s.len(),
        s[w].time == min_time(s),
        forall|i: int| 0 <= i < s.len() ==> min_time(s) <= #[trigger] s[i].time,
    decreases s.len(),
{
    if s.len() == 1 {
        0
    } else {
        let w0 = lemma_min_time(s.drop_last());
        assert forall|i: int| 0 <= i < s.len() implies min_time(s) <= #[trigger] s[i].time by {
            if i < s.len() - 1 {
                assert(s[i] == s.drop_last()[i]);
            }
        }
        if s.last().time < min_time(s.drop_last()) {
            s.len() - 1
        } else {
            w0
        }
    }
}

proof fn lemma_select_len(s: Seq<StagedUpdate>, c: Cut)
    ensures
        select(s, c, true).len() + select(s, c, false).len() == s.len(),
        (exists|i: int| 0 <= i < s.len() && cut_holds(c, #[trigger] s[i])) ==> select(
            s,
            c,
            true,
        ).len() > 0,
    decreases s.len(),
{
    if s.len() > 0 {
        lemma_select_len(s.drop_last(), c);
        if exists|i: int| 0 <= i < s.len() && cut_holds(c, #[trigger] s[i]) {
            let i = choose|i: int| 0 <= i < s.len() && cut_holds(c, #[trigger] s[i]);
            if i < s.len() - 1 {
                assert(cut_holds(c, s.drop_last()[i]));
            }
        }
    }
}

proof fn lemma_process_unfold(s: Seq<StagedUpdate>)
    requires
        s.len() > 0,
    ensures
        select(s, Cut::At(min_time(s)), false).len() < s.len(),
{
    let w = lemma_min_time(s);
    assert(cut_holds(Cut::At(min_time(s)), s[w]));
    lemma_select_len(s, Cut::At(min_time(s)));
}

/// Commands on other keys leave a key's value alone.
proof fn lemma_step_frame(m: StateModel, s: Seq<StagedUpdate>, n: int, k: Seq<u8>)
    requires
        0 <= n <= s.len(),
        forall|j: int| 0 <= j < n ==> #[trigger] s[j].key@ != k,
    ensures
        map_get(step(m, s, n).0, k) == map_get(m, k),
    decreases n,
{
    if n > 0 {
        lemma_step_frame(m, s, n - 1, k);
        assert(s[n - 1].key@ != k);
    }
}

/// The entries of a mini-upsert hold the values of `m` for the keys that `idx` lists.
pub open spec fn reflects(entries: Seq<StateLookup>, idx: Map<Seq<u8>, usize>, m: StateModel) -> bool {
    forall|k: Seq<u8>| #[trigger]
        idx.contains_key(k) ==> idx[k] < entries.len() && opt_value_model(
            entries[idx[k] as int].value,
        ) == map_get(m, k)
}

/// `keys` lists each key of `idx` once, at the position that `idx` gives it.
pub open spec fn keys_match(keys: Seq<UpsertKey>, idx: Map<Seq<u8>, usize>) -> bool {
    &&& forall|k: Seq<u8>| #[trigger]
        idx.contains_key(k) ==> idx[k] < keys.len() && keys[idx[k] as int]@ == k
    &&& forall|j: int|
        0 <= j < keys.len() ==> idx.contains_key(#[trigger] keys[j]@) && idx[keys[j]@] == j
}

/// The distinct keys of `cmds` in order of first appearance, and their positions.
fn distinct_keys(cmds: &Vec<StagedUpdate>) -> (r: (Vec<UpsertKey>, KeyIndex))
    ensures
        keys_match(r.0@, index_of(r.1)),
        forall|i: int| 0 <= i < cmds.len() ==> index_of(r.1).contains_key(#[trigger] cmds@[i].key@),
        forall|j: int| 0 <= j < r.0.len() ==> mentions(cmds@, #[trigger] r.0@[j]@),
{
    let mut keys: Vec<UpsertKey> = Vec::new();
    let mut index = index_new();
    let mut i: usize = 0;
    while i < cmds.len()
        invariant
            i <= cmds.len(),
            keys_match(keys@, index_of(index)),
            forall|j: int| 0 <= j < i ==> index_of(index).contains_key(#[trigger] cmds@[j].key@),
            forall|j: int| 0 <= j < keys.len() ==> mentions(cmds@, #[trigger] keys@[j]@),
        decreases cmds.len() - i,
    {
        let key = cmds[i].key;
        match index_get(&index, &key.0) {
            Some(_) => {},
            None => {
                let ghost old_idx = index_of(index);
                let ghost old_keys = keys@;
                let n = keys.len();
                keys.push(key);
                index_insert(&mut index, key.0, n);
                proof {
                    assert forall|j: int| 0 <= j < keys.len() implies index_of(index).contains_key(
                        #[trigger] keys@[j]@,
                    ) && index_of(index)[keys@[j]@] == j by {
                        if j < n {
                            assert(keys@[j] == old_keys[j]);
                            assert(old_idx.contains_key(old_keys[j]@));
                        }
                    }
                    assert forall|j: int| 0 <= j < keys.len() implies mentions(cmds@, #[trigger] keys@[j]@) by {
                        if j < n {
                            assert(keys@[j] == old_keys[j]);
                        } else {
                            assert(cmds@[i as int].key@ == keys@[j]@);
                        }
                    }
                }
            },
        }
        i += 1;
    }
    (keys, index)
}

fn min_time_of(s: &Vec<StagedUpdate>) -> (r: u64)
    requires
        s.len() > 0,
    ensures
        r == min_time(s@),
{
    let mut m = s[0].time;
    let mut i: usize = 1;
    assert(s@.subrange(0, 1).len() == 1);
    while i < s.len()
        invariant
            1 <= i <= s.len(),
            m == min_time(s@.subrange(0, i as int)),
        decreases s.len() - i,
    {
        proof {
            let pre = s@.subrange(0, i + 1);
            assert(pre.drop_last() =~= s@.subrange(0, i as int));
        }
        if s[i].time < m {
            m = s[i].time;
        }
        i += 1;
    }
    assert(s@.subrange(0, i as int) =~= s@);
    m
}

/// For each key of `cmds`, the position of its winning command.
fn command_encoding(c: &StagedUpdate) -> (r: Vec<u8>)
    ensures
        r@ == command_bytes(*c),
{
    match &c.value {
        Some(v) => encode_value(v),
        None => Vec::new(),
    }
}

fn bytes_less(a: &Vec<u8>, b: &Vec<u8>) -> (r: bool)
    ensures
        r == bytes_lt(a@, b@),
{
    let mut i: usize = 0;
    assert(a@.skip(0) =~= a@);
    assert(b@.skip(0) =~= b@);
    while i < a.len() && i < b.len()
        invariant
            i <= a.len(),
            i <= b.len(),
            bytes_lt(a@, b@) == bytes_lt(a@.skip(i as int), b@.skip(i as int)),
        decreases a.len() - i,
    {
        if a[i] != b[i] {
            return a[i] < b[i];
        }
        proof {
            assert(a@.skip(i as int).drop_first() =~= a@.skip(i + 1));
            assert(b@.skip(i as int).drop_first() =~= b@.skip(i + 1));
        }
        i += 1;
    }
    i < b.len()
}

fn winners(cmds: &Vec<StagedUpdate>) -> (best: KeyIndex)
    ensures
        forall|i: int|
            0 <= i < cmds.len() ==> (wins(cmds@, i) <==> index_of(best).contains_key(
                #[trigger] cmds@[i].key@,
            ) && index_of(best)[cmds@[i].key@] == i),
{
    let ghost s = cmds@;
    let mut encs: Vec<Vec<u8>> = Vec::new();
    let mut q: usize = 0;
    while q < cmds.len()
        invariant
            q <= cmds.len(),
            encs.len() == q,
            forall|j: int| 0 <= j < q ==> (#[trigger] encs@[j])@ == command_bytes(cmds@[j]),
        decreases cmds.len() - q,
    {
        encs.push(command_encoding(&cmds[q]));
        q += 1;
    }
    let mut best = index_new();
    let mut p: usize = 0;
    while p < cmds.len()
        invariant
            s == cmds@,
            encs.len() == cmds.len(),
            forall|j: int| 0 <= j < cmds.len() ==> (#[trigger] encs@[j])@ == command_bytes(cmds@[j]),
            p <= cmds.len(),
            forall|k: Seq<u8>| #[trigger]
                index_of(best).contains_key(k) ==> {
                    &&& index_of(best)[k] < p
                    &&& s[index_of(best)[k] as int].key@ == k
                    &&& forall|j: int|
                        0 <= j < p && j != index_of(best)[k] && #[trigger] s[j].key@ == k ==> beats(
                            s,
                            index_of(best)[k] as int,
                            j,
                        )
                },
            forall|j: int| 0 <= j < p ==> index_of(best).contains_key(#[trigger] s[j].key@),
        decreases cmds.len() - p,
    {
        let key = cmds[p].key;
        let ghost k = key@;
        match index_get(&best, &key.0) {
            None => {
                index_insert(&mut best, key.0, p);
            },
            Some(w) => {
                let take = if cmds[p].order != cmds[w].order {
                    cmds[p].order > cmds[w].order
                } else {
                    !bytes_less(&encs[w], &encs[p])
                };
                proof {
                    lemma_beats_order(s, p as int, w as int, w as int);
                    lemma_bytes_lt_trichotomy(command_bytes(s[w as int]), command_bytes(s[p as int]));
                }
                if take {
                    assert(beats(s, p as int, w as int));
                    index_insert(&mut best, key.0, p);
                    proof {
                        assert forall|j: int|
                            0 <= j < p + 1 && j != p && #[trigger] s[j].key@ == k implies beats(
                            s,
                            p as int,
                            j,
                        ) by {
                            if j != w {
                                assert(beats(s, w as int, j));
                                lemma_beats_order(s, p as int, w as int, j);
                            }
                        }
                    }
                } else {
                    assert(beats(s, w as int, p as int));
                }
            },
        }
        p += 1;
    }
    proof {
        assert forall|i: int|
            0 <= i < cmds.len() implies (wins(cmds@, i) <==> index_of(best).contains_key(
            #[trigger] cmds@[i].key@,
        ) && index_of(best)[cmds@[i].key@] == i) by {
            let k = s[i].key@;
            assert(index_of(best).contains_key(k));
            let w = index_of(best)[k] as int;
            if wins(s, i) && w != i {
                assert(beats(s, w, i));
                assert(beats(s, i, w));
                lemma_beats_order(s, w, i, i);
            }
        }
    }
    best
}

fn some_copy(v: &Option<UpsertValue>) -> (r: Option<UpsertValue>)
    ensures
        opt_value_model(r) == opt_value_model(*v),
{
    match v {
        Some(v) => Some(copy_value(v)),
        None => None,
    }
}

/// Applies the commands of `cmds`, all at one time, to `entries`, and emits the changes.
fn apply_time(
    entries: &mut Vec<StateLookup>,
    index: &KeyIndex,
    keys: &Vec<UpsertKey>,
    cmds: &Vec<StagedUpdate>,
    out: &mut Vec<OutputUpdate>,
    Ghost(m): Ghost<StateModel>,
)
    requires
        keys_match(keys@, index_of(*index)),
        old(entries).len() == keys.len(),
        reflects(old(entries)@, index_of(*index), m),
        forall|i: int| 0 <= i < cmds.len() ==> index_of(*index).contains_key(#[trigger] cmds@[i].key@),
    ensures
        final(entries).len() == keys.len(),
        forall|j: int| 0 <= j < keys.len() ==> (#[trigger] final(entries)@[j]).size == old(entries)@[j].size,
        reflects(final(entries)@, index_of(*index), step(m, cmds@, cmds@.len() as int).0),
        outputs_model(final(out)@) == outputs_model(old(out)@) + step(m, cmds@, cmds@.len() as int).1,
{
    let best = winners(cmds);
    let ghost idx = index_of(*index);
    let mut i: usize = 0;
    while i < cmds.len()
        invariant
            i <= cmds.len(),
            idx == index_of(*index),
            keys_match(keys@, idx),
            entries.len() == keys.len(),
            forall|j: int| 0 <= j < keys.len() ==> (#[trigger] entries@[j]).size == old(entries)@[j].size,
            reflects(entries@, idx, step(m, cmds@, i as int).0),
            outputs_model(out@) == outputs_model(old(out)@) + step(m, cmds@, i as int).1,
            forall|i: int| 0 <= i < cmds.len() ==> idx.contains_key(#[trigger] cmds@[i].key@),
            forall|i: int|
                0 <= i < cmds.len() ==> (wins(cmds@, i) <==> index_of(best).contains_key(
                    #[trigger] cmds@[i].key@,
                ) && index_of(best)[cmds@[i].key@] == i),
        decreases cmds.len() - i,
    {
        let ghost before = step(m, cmds@, i as int);
        let ghost out0 = out@;
        let c = &cmds[i];
        let is_winner = match index_get(&best, &c.key.0) {
            Some(w) => w == i,
            None => false,
        };
        if is_winner {
            proof {
                assert(idx.contains_key(cmds@[i as int].key@));
            }
            let e = index_get(index, &c.key.0).unwrap();
            let ghost k = c.key@;
            proof {
                assert(idx.contains_key(k));
            }
            let prev = some_copy(&entries[e].value);
            match prev {
                Some(p) => {
                    out.push(OutputUpdate { value: p, time: c.time, diff: -1 });
                },
                None => {},
            }
            match &c.value {
                Some(v) => {
                    out.push(OutputUpdate { value: copy_value(v), time: c.time, diff: 1 });
                },
                None => {},
            }
            let size = entries[e].size;
            entries.set(e, StateLookup { value: some_copy(&c.value), size });
            proof {
                let after = step(m, cmds@, i + 1);
                assert(after.0 == put_one(before.0, k, opt_value_model(c.value)));
                assert(outputs_model(out@) =~= outputs_model(out0) + changes(
                    map_get(before.0, k),
                    opt_value_model(c.value),
                    c.time,
                ));
                assert forall|k2: Seq<u8>| #[trigger] idx.contains_key(k2) implies idx[k2]
                    < entries.len() && opt_value_model(entries@[idx[k2] as int].value) == map_get(
                    after.0,
                    k2,
                ) by {
                    if k2 != k {
                        assert(keys@[idx[k2] as int]@ == k2);
                        assert(keys@[idx[k] as int]@ == k);
                    }
                }
            }
        }
        i += 1;
    }
}

pub(crate) proof fn lemma_put_all_distinct(m: StateModel, puts: Seq<PutEntry>)
    requires
        forall|a: int, b: int|
            0 <= a < puts.len() && 0 <= b < puts.len() && a != b ==> #[trigger] puts[a].key@
                != #[trigger] puts[b].key@,
    ensures
        forall|j: int|
            0 <= j < puts.len() ==> map_get(put_all(m, puts), #[trigger] puts[j].key@)
                == opt_value_model(puts[j].value),
        forall|k: Seq<u8>|
            (forall|j: int| 0 <= j < puts.len() ==> #[trigger] puts[j].key@ != k) ==> map_get(
                put_all(m, puts),
                k,
            ) == map_get(m, k),
    decreases puts.len(),
{
    if puts.len() > 0 {
        let pre = puts.drop_last();
        assert forall|a: int, b: int|
            0 <= a < pre.len() && 0 <= b < pre.len() && a != b implies #[trigger] pre[a].key@
            != #[trigger] pre[b].key@ by {
            assert(pre[a] == puts[a]);
            assert(pre[b] == puts[b]);
        }
        lemma_put_all_distinct(m, pre);
        assert forall|j: int|
            0 <= j < puts.len() implies map_get(put_all(m, puts), #[trigger] puts[j].key@)
            == opt_value_model(puts[j].value) by {
            if j < puts.len() - 1 {
                assert(pre[j] == puts[j]);
                assert(puts[j].key@ != puts.last().key@);
            }
        }
        assert forall|k: Seq<u8>|
            (forall|j: int| 0 <= j < puts.len() ==> #[trigger] puts[j].key@ != k) implies map_get(
            put_all(m, puts),
            k,
        ) == map_get(m, k) by {
            assert(puts[puts.len() - 1].key@ != k);
            assert forall|j: int| 0 <= j < pre.len() implies #[trigger] pre[j].key@ != k by {
                assert(pre[j] == puts[j]);
            }
        }
    }
}

/// `keys` lists key `k`.
pub open spec fn lists_key(keys: Seq<UpsertKey>, k: Seq<u8>) -> bool {
    exists|j: int| 0 <= j < keys.len() && #[trigger] keys[j]@ == k
}

/// The state operations of one frontier step: one bulk read of `reads`, then one bulk
/// write of `writes`.
pub struct StateIo {
    pub reads: Vec<UpsertKey>,
    pub writes: Vec<PutEntry>,
}

/// Applies the commands of `ready`, whose times are all closed, to `state`, time by time
/// from the earliest: at each time and key the command of highest order takes effect (at
/// equal order, the smaller encoded value), and its key's previous value is retracted and
/// its new value inserted. The state is read once, for the distinct keys of `ready`
/// (`reads`), and written once, one entry per key carrying the size read (`writes`).
pub fn upsert_ready(state: &mut InMemoryHashMap, ready: Vec<StagedUpdate>) -> (r: (
    Vec<OutputUpdate>,
    StateIo,
))
    requires
        old(state).wf(),
    ensures
        final(state).wf(),
        final(state)@ == process(old(state)@, ready@).0,
        outputs_model(r.0@) == process(old(state)@, ready@).1,
        forall|a: int, b: int|
            0 <= a < r.1.reads.len() && 0 <= b < r.1.reads.len() && a != b ==> #[trigger] r.1.reads@[a]@
                != #[trigger] r.1.reads@[b]@,
        forall|j: int| 0 <= j < r.1.reads.len() ==> mentions(ready@, #[trigger] r.1.reads@[j]@),
        forall|i: int| 0 <= i < ready.len() ==> lists_key(r.1.reads@, #[trigger] ready@[i].key@),
        r.1.writes.len() == r.1.reads.len(),
        forall|j: int|
            0 <= j < r.1.writes.len() ==> {
                let k = r.1.reads@[j]@;
                &&& (#[trigger] r.1.writes@[j]).key == r.1.reads@[j]
                &&& opt_value_model(r.1.writes@[j].value) == map_get(final(state)@, k)
                &&& if old(state)@.contains_key(k) {
                    r.1.writes@[j].previous_persisted_size matches Some(n) && n as int
                        == persisted_size(old(state)@[k])
                } else {
                    r.1.writes@[j].previous_persisted_size is None
                }
            },
        final(state)@ == put_all(old(state)@, r.1.writes@),
{
    let ghost m0 = state@;
    let (keys, index) = distinct_keys(&ready);
    let mut entries = state.multi_get(&keys);
    let ghost entries0 = entries@;
    let ghost idx = index_of(index);
    proof {
        assert forall|k: Seq<u8>| #[trigger] idx.contains_key(k) implies idx[k] < entries.len()
            && opt_value_model(entries@[idx[k] as int].value) == map_get(m0, k) by {
            assert(keys@[idx[k] as int]@ == k);
        }
    }
    let mut out: Vec<OutputUpdate> = Vec::new();
    let mut remaining = ready;
    let ghost mut m = m0;
    while remaining.len() > 0
        invariant
            state.wf(),
            state@ == m0,
            idx == index_of(index),
            keys_match(keys@, idx),
            entries.len() == keys.len(),
            forall|j: int| 0 <= j < keys.len() ==> (#[trigger] entries@[j]).size == entries0[j].size,
            reflects(entries@, idx, m),
            forall|i: int| 0 <= i < remaining.len() ==> idx.contains_key(#[trigger] remaining@[i].key@),
            forall|k: Seq<u8>| !idx.contains_key(k) ==> #[trigger] map_get(m, k) == map_get(m0, k),
            process(m0, ready@).0 == process(m, remaining@).0,
            process(m0, ready@).1 == outputs_model(out@) + process(m, remaining@).1,
        decreases remaining.len(),
    {
        let ghost s = remaining@;
        let t = min_time_of(&remaining);
        let cur = partition(&mut remaining, Cut::At(t));
        proof {
            lemma_process_unfold(s);
            assert forall|i: int| 0 <= i < cur.len() implies idx.contains_key(#[trigger] cur@[i].key@) by {
                lemma_select_member(s, Cut::At(t), true, i);
            }
            assert forall|i: int| 0 <= i < remaining.len() implies idx.contains_key(
                #[trigger] remaining@[i].key@,
            ) by {
                lemma_select_member(s, Cut::At(t), false, i);
            }
        }
        let ghost out0 = out@;
        apply_time(&mut entries, &index, &keys, &cur, &mut out, Ghost(m));
        proof {
            let m1 = step(m, cur@, cur@.len() as int).0;
            assert forall|k: Seq<u8>| !idx.contains_key(k) implies #[trigger] map_get(m1, k)
                == map_get(m0, k) by {
                lemma_step_frame(m, cur@, cur@.len() as int, k);
            }
            assert(outputs_model(out@) + process(m1, remaining@).1 =~= outputs_model(out0)
                + process(m, s).1);
            m = m1;
        }
    }
    let mut puts: Vec<PutEntry> = Vec::new();
    let mut j: usize = 0;
    while j < keys.len()
        invariant
            j <= keys.len(),
            entries.len() == keys.len(),
            puts.len() == j,
            forall|a: int| 0 <= a < j ==> #[trigger] puts@[a].key == keys@[a],
            forall|a: int|
                0 <= a < j ==> opt_value_model(#[trigger] puts@[a].value) == opt_value_model(
                    entries@[a].value,
                ),
            forall|a: int| 0 <= a < j ==> (#[trigger] puts@[a]).previous_persisted_size == entries@[a].size,
        decreases keys.len() - j,
    {
        puts.push(
            PutEntry {
                key: keys[j],
                value: some_copy(&entries[j].value),
                previous_persisted_size: entries[j].size,
            },
        );
        j += 1;
    }
    proof {
        assert forall|a: int, b: int|
            0 <= a < puts.len() && 0 <= b < puts.len() && a != b implies #[trigger] puts@[a].key@
            != #[trigger] puts@[b].key@ by {
            assert(puts@[a].key == keys@[a]);
            assert(puts@[b].key == keys@[b]);
        }
        lemma_put_all_distinct(m0, puts@);
    }
    state.multi_put(&puts);
    proof {
        let fin = put_all(m0, puts@);
        assert forall|k: Seq<u8>| map_get(fin, k) == map_get(m, k) by {
            if idx.contains_key(k) {
                let a = idx[k] as int;
                assert(puts@[a].key == keys@[a]);
                assert(puts@[a].key@ == k);
            } else {
                assert forall|a: int| 0 <= a < puts.len() implies #[trigger] puts@[a].key@ != k by {
                    assert(puts@[a].key == keys@[a]);
                }
            }
        }
        assert(fin =~= m) by {
            assert forall|k: Seq<u8>| fin.contains_key(k) <==> m.contains_key(k) by {
                assert(map_get(fin, k) == map_get(m, k));
            }
            assert forall|k: Seq<u8>| fin.contains_key(k) implies fin[k] == m[k] by {
                assert(map_get(fin, k) == map_get(m, k));
            }
        }
        assert(outputs_model(out@) =~= outputs_model(out@) + Seq::<OutputModel>::empty());
        assert forall|i: int| 0 <= i < ready@.len() implies lists_key(keys@, #[trigger] ready@[i].key@) by {
            let k = ready@[i].key@;
            assert(keys@[idx[k] as int]@ == k);
        }
        assert forall|a: int| 0 <= a < puts.len() implies {
            let k = keys@[a]@;
            &&& (#[trigger] puts@[a]).key == keys@[a]
            &&& opt_value_model(puts@[a].value) == map_get(state@, k)
            &&& if m0.contains_key(k) {
                puts@[a].previous_persisted_size matches Some(n) && n as int == persisted_size(m0[k])
            } else {
                puts@[a].previous_persisted_size is None
            }
        } by {
            let k = keys@[a]@;
            assert(idx[k] == a);
            assert(lookup_matches(entries0[a], m0, k));
        }
    }
    (out, StateIo { reads: keys, writes: puts })
}

proof fn lemma_select_member(s: Seq<StagedUpdate>, c: Cut, keep: bool, i: int)
    requires
        0 <= i < select(s, c, keep).len(),
    ensures
        exists|j: int| 0 <= j < s.len() && s[j] == #[trigger] select(s, c, keep)[i],
        cut_holds(c, select(s, c, keep)[i]) == keep,
    decreases s.len(),
{
    if s.len() > 0 {
        let pre = select(s.drop_last(), c, keep);
        if cut_holds(c, s.last()) == keep && i == pre.len() {
            assert(s[s.len() - 1] == select(s, c, keep)[i]);
        } else {
            lemma_select_member(s.drop_last(), c, keep, i);
            let j = choose|j: int| 0 <= j < s.drop_last().len() && s.drop_last()[j] == #[trigger] pre[i];
            assert(s[j] == select(s, c, keep)[i]);
        }
    }
}

proof fn lemma_select_contains(s: Seq<StagedUpdate>, c: Cut, keep: bool, i: int)
    requires
        0 <= i < s.len(),
        cut_holds(c, s[i]) == keep,
    ensures
        exists|p: int| 0 <= p < select(s, c, keep).len() && #[trigger] select(s, c, keep)[p] == s[i],
    decreases s.len(),
{
    let pre = select(s.drop_last(), c, keep);
    if i == s.len() - 1 {
        assert(select(s, c, keep)[pre.len() as int] == s[i]);
    } else {
        assert(s.drop_last()[i] == s[i]);
        lemma_select_contains(s.drop_last(), c, keep, i);
        let p = choose|p: int| 0 <= p < pre.len() && #[trigger] pre[p] == s[i];
        assert(select(s, c, keep)[p] == s[i]);
    }
}

proof fn lemma_select_distinct(s: Seq<StagedUpdate>, c: Cut, keep: bool, a: int, b: int)
    requires
        0 <= a < select(s, c, keep).len(),
        0 <= b < select(s, c, keep).len(),
        a != b,
    ensures
        exists|ja: int, jb: int|
            0 <= ja < s.len() && 0 <= jb < s.len() && ja != jb && #[trigger] s[ja] == select(
                s,
                c,
                keep,
            )[a] && #[trigger] s[jb] == select(s, c, keep)[b],
    decreases s.len(),
{
    let sel = select(s, c, keep);
    let d = s.drop_last();
    let pre = select(d, c, keep);
    let last = s.len() - 1;
    if cut_holds(c, s.last()) == keep {
        if a == pre.len() {
            lemma_select_member(d, c, keep, b);
            let jb = choose|j: int| 0 <= j < d.len() && d[j] == #[trigger] pre[b];
            assert(s[last] == sel[a] && s[jb] == sel[b]);
        } else if b == pre.len() {
            lemma_select_member(d, c, keep, a);
            let ja = choose|j: int| 0 <= j < d.len() && d[j] == #[trigger] pre[a];
            assert(s[ja] == sel[a] && s[last] == sel[b]);
        } else {
            lemma_select_distinct(d, c, keep, a, b);
            let (ja, jb) = choose|ja: int, jb: int|
                0 <= ja < d.len() && 0 <= jb < d.len() && ja != jb && #[trigger] d[ja] == pre[a]
                    && #[trigger] d[jb] == pre[b];
            assert(s[ja] == sel[a] && s[jb] == sel[b]);
        }
    } else {
        lemma_select_distinct(d, c, keep, a, b);
        let (ja, jb) = choose|ja: int, jb: int|
            0 <= ja < d.len() && 0 <= jb < d.len() && ja != jb && #[trigger] d[ja] == pre[a]
                && #[trigger] d[jb] == pre[b];
        assert(s[ja] == sel[a] && s[jb] == sel[b]);
    }
}

/// `s` mentions key `k`.
pub open spec fn mentions(s: Seq<StagedUpdate>, k: Seq<u8>) -> bool {
    exists|j: int| 0 <= j < s.len() && #[trigger] s[j].key@ == k
}

/// No two commands on one key rank equally (same time, order and encoded value).
pub open spec fn commands_distinct(s: Seq<StagedUpdate>) -> bool {
    forall|a: int, b: int|
        0 <= a < s.len() && 0 <= b < s.len() && a != b && #[trigger] s[a].key@ == #[trigger] s[b].key@
            ==> !same_rank(s[a], s[b])
}

/// `a` and `b` rank equally: same time, same order, same encoded value.
pub open spec fn same_rank(a: StagedUpdate, b: StagedUpdate) -> bool {
    a.time == b.time && a.order == b.order && command_bytes(a) == command_bytes(b)
}

/// On one key, command `a` takes effect after command `b`: a later time; at the same time
/// a higher order; at the same order the smaller encoded value.
pub open spec fn later(a: StagedUpdate, b: StagedUpdate) -> bool {
    ||| b.time < a.time
    ||| (b.time == a.time && b.order < a.order)
    ||| (b.time == a.time && b.order == a.order && bytes_lt(command_bytes(a), command_bytes(b)))
}

proof fn lemma_later_order(a: StagedUpdate, b: StagedUpdate, c: StagedUpdate)
    ensures
        !same_rank(a, b) ==> later(a, b) || later(b, a),
        !(later(a, b) && later(b, a)),
        later(a, b) && later(b, c) ==> later(a, c),
{
    let (ba, bb, bc) = (command_bytes(a), command_bytes(b), command_bytes(c));
    lemma_bytes_lt_trichotomy(ba, bb);
    lemma_bytes_lt_trichotomy(bb, bc);
    lemma_bytes_lt_trichotomy(ba, bc);
    if bytes_lt(ba, bb) && bytes_lt(bb, bc) {
        lemma_bytes_lt_transitive(ba, bb, bc);
    }
    if bytes_lt(bc, bb) && bytes_lt(bb, ba) {
        lemma_bytes_lt_transitive(bc, bb, ba);
    }
}

/// Command `i` is the last one of `s` for its key: it takes effect after every other
/// command on that key.
pub open spec fn is_last(s: Seq<StagedUpdate>, i: int) -> bool {
    forall|j: int| 0 <= j < s.len() && j != i && #[trigger] s[j].key@ == s[i].key@ ==> later(s[i], s[j])
}

proof fn lemma_process_frame(m: StateModel, s: Seq<StagedUpdate>, k: Seq<u8>)
    requires
        !mentions(s, k),
    ensures
        map_get(process(m, s).0, k) == map_get(m, k),
    decreases s.len(),
{
    if s.len() > 0 {
        let t = min_time(s);
        let cur = select(s, Cut::At(t), true);
        let rest = select(s, Cut::At(t), false);
        lemma_process_unfold(s);
        assert forall|j: int| 0 <= j < cur.len() implies #[trigger] cur[j].key@ != k by {
            lemma_select_member(s, Cut::At(t), true, j);
        }
        lemma_step_frame(m, cur, cur.len() as int, k);
        assert(!mentions(rest, k)) by {
            assert forall|j: int| 0 <= j < rest.len() implies #[trigger] rest[j].key@ != k by {
                lemma_select_member(s, Cut::At(t), false, j);
            }
        }
        lemma_process_frame(step(m, cur, cur.len() as int).0, rest, k);
    }
}

proof fn lemma_step_winner(m: StateModel, s: Seq<StagedUpdate>, n: int, p: int)
    requires
        0 <= p < n <= s.len(),
        wins(s, p),
    ensures
        map_get(step(m, s, n).0, s[p].key@) == opt_value_model(s[p].value),
    decreases n,
{
    if n > p + 1 {
        lemma_step_winner(m, s, n - 1, p);
        if wins(s, n - 1) && s[n - 1].key@ == s[p].key@ {
            assert(beats(s, p, n - 1));
            assert(beats(s, n - 1, p));
            lemma_beats_order(s, p, n - 1, p);
        }
    }
}

/// After a batch, each key that the batch mentions holds the value of its last command
/// (none, for a deletion), and every other key keeps its value.
pub proof fn lemma_state_holds_last_command(m: StateModel, s: Seq<StagedUpdate>)
    requires
        commands_distinct(s),
    ensures
        forall|i: int|
            0 <= i < s.len() && is_last(s, i) ==> map_get(process(m, s).0, #[trigger] s[i].key@)
                == opt_value_model(s[i].value),
        forall|k: Seq<u8>| !mentions(s, k) ==> #[trigger] map_get(process(m, s).0, k) == map_get(m, k),
    decreases s.len(),
{
    assert forall|k: Seq<u8>| !mentions(s, k) implies #[trigger] map_get(process(m, s).0, k) == map_get(
        m,
        k,
    ) by {
        lemma_process_frame(m, s, k);
    }
    if s.len() > 0 {
        let t = min_time(s);
        let cur = select(s, Cut::At(t), true);
        let rest = select(s, Cut::At(t), false);
        let m1 = step(m, cur, cur.len() as int).0;
        lemma_process_unfold(s);
        lemma_min_time(s);
        assert(commands_distinct(rest)) by {
            assert forall|a: int, b: int|
                0 <= a < rest.len() && 0 <= b < rest.len() && a != b && #[trigger] rest[a].key@
                    == #[trigger] rest[b].key@ implies !same_rank(rest[a], rest[b]) by {
                lemma_select_distinct(s, Cut::At(t), false, a, b);
                let (ja, jb) = choose|ja: int, jb: int|
                    0 <= ja < s.len() && 0 <= jb < s.len() && ja != jb && #[trigger] s[ja]
                        == rest[a] && #[trigger] s[jb] == rest[b];
            }
        }
        lemma_state_holds_last_command(m1, rest);
        assert forall|i: int|
            0 <= i < s.len() && is_last(s, i) implies map_get(process(m, s).0, #[trigger] s[i].key@)
            == opt_value_model(s[i].value) by {
            let k = s[i].key@;
            if s[i].time == t {
                lemma_select_contains(s, Cut::At(t), true, i);
                let p = choose|p: int| 0 <= p < cur.len() && #[trigger] cur[p] == s[i];
                assert(wins(cur, p)) by {
                    assert forall|j: int|
                        0 <= j < cur.len() && j != p && #[trigger] cur[j].key@ == cur[p].key@ implies beats(
                        cur,
                        p,
                        j,
                    ) by {
                        lemma_select_distinct(s, Cut::At(t), true, p, j);
                        let (ja, jb) = choose|ja: int, jb: int|
                            0 <= ja < s.len() && 0 <= jb < s.len() && ja != jb && #[trigger] s[ja]
                                == cur[p] && #[trigger] s[jb] == cur[j];
                        lemma_select_member(s, Cut::At(t), true, j);
                        if ja != i {
                            assert(s[ja].key@ == s[i].key@);
                        }
                        assert(s[jb].time == t);
                    }
                }
                lemma_step_winner(m, cur, cur.len() as int, p);
                assert(!mentions(rest, k)) by {
                    assert forall|j: int| 0 <= j < rest.len() implies #[trigger] rest[j].key@ != k by {
                        lemma_select_member(s, Cut::At(t), false, j);
                        let jj = choose|jj: int| 0 <= jj < s.len() && s[jj] == #[trigger] rest[j];
                        if rest[j].key@ == k {
                            assert(s[jj].key@ == s[i].key@);
                        }
                    }
                }
                lemma_process_frame(m1, rest, k);
            } else {
                lemma_select_contains(s, Cut::At(t), false, i);
                let p = choose|p: int| 0 <= p < rest.len() && #[trigger] rest[p] == s[i];
                assert(is_last(rest, p)) by {
                    assert forall|j: int|
                        0 <= j < rest.len() && j != p && #[trigger] rest[j].key@ == rest[p].key@ implies later(rest[p], rest[j]) by {
                        lemma_select_distinct(s, Cut::At(t), false, p, j);
                        let (ja, jb) = choose|ja: int, jb: int|
                            0 <= ja < s.len() && 0 <= jb < s.len() && ja != jb && #[trigger] s[ja]
                                == rest[p] && #[trigger] s[jb] == rest[j];
                        if ja != i {
                            assert(s[ja].key@ == s[i].key@);
                        }
                    }
                }
            }
        }
    }
}

/// The changes of the winning commands among the first `n` of `s`, each measured
/// against the state `m` from before the time.
pub open spec fn changes_from(m: StateModel, s: Seq<StagedUpdate>, n: int) -> Seq<OutputModel>
    decreases n,
{
    if n <= 0 || n > s.len() {
        Seq::empty()
    } else {
        let prev = changes_from(m, s, n - 1);
        let c = s[n - 1];
        if wins(s, n - 1) {
            prev + changes(map_get(m, c.key@), opt_value_model(c.value), c.time)
        } else {
            prev
        }
    }
}

proof fn lemma_step_frame_losers(m: StateModel, s: Seq<StagedUpdate>, n: int, k: Seq<u8>)
    requires
        0 <= n <= s.len(),
        forall|j: int| 0 <= j < n && #[trigger] s[j].key@ == k ==> !wins(s, j),
    ensures
        map_get(step(m, s, n).0, k) == map_get(m, k),
    decreases n,
{
    if n > 0 {
        lemma_step_frame_losers(m, s, n - 1, k);
    }
}

/// Within one time, each key changes at most once: the value it loses is the one it held
/// before the time, and the value it gains is that of its winning command. So a key with
/// zero or one value before the time has zero or one after it.
pub proof fn lemma_retraction_is_prior_value(m: StateModel, s: Seq<StagedUpdate>, n: int)
    requires
        0 <= n <= s.len(),
    ensures
        step(m, s, n).1 == changes_from(m, s, n),
    decreases n,
{
    if n > 0 {
        lemma_retraction_is_prior_value(m, s, n - 1);
        let c = s[n - 1];
        if wins(s, n - 1) {
            assert forall|j: int| 0 <= j < n - 1 && #[trigger] s[j].key@ == c.key@ implies !wins(
                s,
                j,
            ) by {
                assert(beats(s, n - 1, j));
                if wins(s, j) {
                    assert(beats(s, j, n - 1));
                    lemma_beats_order(s, j, n - 1, j);
                }
            }
            lemma_step_frame_losers(m, s, n - 1, c.key@);
        }
    }
}

/// The diffs of the changes of one key at one time add up to the change in its number
/// of values: from `prev` present or not to `next` present or not.
pub proof fn lemma_changes_net(prev: Option<ValueModel>, next: Option<ValueModel>, t: u64)
    ensures
        ({
            let c = changes(prev, next, t);
            let before: int = if prev is Some { 1 } else { 0 };
            let after: int = if next is Some { 1 } else { 0 };
            &&& c.len() <= 2
            &&& forall|i: int| 0 <= i < c.len() ==> (#[trigger] c[i]).1 == t
            &&& before + (if c.len() == 0 { 0 } else { c[0].2 as int }) + (if c.len() == 2 {
                c[1].2 as int
            } else {
                0
            }) == after
        }),
{
}

proof fn lemma_last_exists(s: Seq<StagedUpdate>, k: Seq<u8>) -> (i: int)
    requires
        commands_distinct(s),
        mentions(s, k),
    ensures
        0 <= i < s.len(),
        s[i].key@ == k,
        is_last(s, i),
    decreases s.len(),
{
    let d = s.drop_last();
    let n = s.len() - 1;
    assert(commands_distinct(d)) by {
        assert forall|a: int, b: int|
            0 <= a < d.len() && 0 <= b < d.len() && a != b && #[trigger] d[a].key@ == #[trigger] d[b].key@
                implies !same_rank(d[a], d[b]) by {
            assert(d[a] == s[a] && d[b] == s[b]);
        }
    }
    if mentions(d, k) {
        let i0 = lemma_last_exists(d, k);
        assert(d[i0] == s[i0]);
        let l = s[n];
        lemma_later_order(l, s[i0], l);
        if l.key@ == k && later(l, s[i0]) {
            assert forall|j: int| 0 <= j < s.len() && j != n && #[trigger] s[j].key@ == s[n].key@ implies later(s[n], s[j]) by {
                assert(d[j] == s[j]);
                if j != i0 {
                    lemma_later_order(l, s[i0], s[j]);
                }
            }
            n
        } else {
            if l.key@ == k {
                assert(s[n].key@ == s[i0].key@);
            }
            assert forall|j: int| 0 <= j < s.len() && j != i0 && #[trigger] s[j].key@ == s[i0].key@ implies later(s[i0], s[j]) by {
                if j < n {
                    assert(d[j] == s[j]);
                }
            }
            i0
        }
    } else {
        let j0 = choose|j: int| 0 <= j < s.len() && #[trigger] s[j].key@ == k;
        if j0 < n {
            assert(d[j0] == s[j0]);
        }
        assert forall|j: int| 0 <= j < s.len() && j != n && #[trigger] s[j].key@ == s[n].key@ implies later(s[n], s[j]) by {
            assert(d[j] == s[j]);
        }
        n
    }
}

/// The state after a batch does not depend on the order in which its commands arrive:
/// `s2` holds the commands of `s1` rearranged by `perm` (command `i` of `s2` is command
/// `perm[i]` of `s1`, and `inv` leads back), and both end in the same state.
pub proof fn lemma_state_independent_of_order(
    m: StateModel,
    s1: Seq<StagedUpdate>,
    s2: Seq<StagedUpdate>,
    perm: Seq<int>,
    inv: Seq<int>,
)
    requires
        commands_distinct(s1),
        s1.len() == s2.len(),
        perm.len() == s2.len(),
        inv.len() == s1.len(),
        forall|i: int| 0 <= i < s2.len() ==> 0 <= #[trigger] perm[i] < s1.len() && s2[i] == s1[perm[i]],
        forall|j: int| 0 <= j < s1.len() ==> 0 <= #[trigger] inv[j] < s2.len() && s1[j] == s2[inv[j]],
        forall|a: int, b: int| 0 <= a < perm.len() && 0 <= b < perm.len() && a != b ==> #[trigger] perm[a] != #[trigger] perm[b],
    ensures
        process(m, s1).0 == process(m, s2).0,
{
    assert(commands_distinct(s2)) by {
        assert forall|a: int, b: int|
            0 <= a < s2.len() && 0 <= b < s2.len() && a != b && #[trigger] s2[a].key@ == #[trigger] s2[b].key@
                implies !same_rank(s2[a], s2[b]) by {
            assert(s1[perm[a]].key@ == s1[perm[b]].key@);
        }
    }
    lemma_state_holds_last_command(m, s1);
    lemma_state_holds_last_command(m, s2);
    let f1 = process(m, s1).0;
    let f2 = process(m, s2).0;
    assert forall|k: Seq<u8>| map_get(f1, k) == map_get(f2, k) by {
        if mentions(s1, k) {
            let i1 = lemma_last_exists(s1, k);
            let i2 = inv[i1];
            assert(s2[i2] == s1[i1]);
            assert(is_last(s2, i2)) by {
                assert forall|j: int| 0 <= j < s2.len() && j != i2 && #[trigger] s2[j].key@ == s2[i2].key@ implies later(s2[i2], s2[j]) by {
                    assert(s2[j] == s1[perm[j]]);
                    if perm[j] == i1 {
                        assert(s2[j] == s2[i2]);
                    }
                }
            }
        } else {
            assert(!mentions(s2, k)) by {
                if mentions(s2, k) {
                    let j = choose|j: int| 0 <= j < s2.len() && #[trigger] s2[j].key@ == k;
                    assert(s1[perm[j]].key@ == k);
                }
            }
        }
    }
    assert(f1 =~= f2) by {
        assert forall|k: Seq<u8>| f1.contains_key(k) <==> f2.contains_key(k) by {
            assert(map_get(f1, k) == map_get(f2, k));
        }
        assert forall|k: Seq<u8>| f1.contains_key(k) implies f1[k] == f2[k] by {
            assert(map_get(f1, k) == map_get(f2, k));
        }
    }
}

/// An output record together with the key it was emitted for.
pub type KeyedOutput = (Seq<u8>, OutputModel);

pub open spec fn keyed(k: Seq<u8>, c: Seq<OutputModel>) -> Seq<KeyedOutput> {
    c.map_values(|o: OutputModel| (k, o))
}

pub open spec fn unkey(s: Seq<KeyedOutput>) -> Seq<OutputModel> {
    s.map_values(|x: KeyedOutput| x.1)
}

/// The output of `step`, each record tagged with the key of the command that emitted it.
pub open spec fn kstep(m: StateModel, s: Seq<StagedUpdate>, n: int) -> Seq<KeyedOutput>
    decreases n,
{
    if n <= 0 || n > s.len() {
        Seq::empty()
    } else {
        let r = kstep(m, s, n - 1);
        let c = s[n - 1];
        if wins(s, n - 1) {
            r + keyed(
                c.key@,
                changes(map_get(step(m, s, n - 1).0, c.key@), opt_value_model(c.value), c.time),
            )
        } else {
            r
        }
    }
}

/// The output of `process`, each record tagged with the key it was emitted for.
pub open spec fn kprocess(m: StateModel, s: Seq<StagedUpdate>) -> Seq<KeyedOutput>
    decreases s.len(),
{
    if s.len() == 0 {
        Seq::empty()
    } else {
        let t = min_time(s);
        let cur = select(s, Cut::At(t), true);
        let rest = select(s, Cut::At(t), false);
        if rest.len() < s.len() {
            kstep(m, cur, cur.len() as int) + kprocess(step(m, cur, cur.len() as int).0, rest)
        } else {
            Seq::empty()
        }
    }
}

/// The sum of the diffs of the records of `out` emitted for key `k`.
pub open spec fn net_for(out: Seq<KeyedOutput>, k: Seq<u8>) -> int
    decreases out.len(),
{
    if out.len() == 0 {
        0
    } else {
        net_for(out.drop_last(), k) + if out.last().0 == k {
            out.last().1.2 as int
        } else {
            0
        }
    }
}

/// How many records key `k` has in the collection that state `m` stands for: 1 with a
/// value, 0 without.
pub open spec fn count(m: StateModel, k: Seq<u8>) -> int {
    if m.contains_key(k) {
        1
    } else {
        0
    }
}

proof fn lemma_net_for_add(a: Seq<KeyedOutput>, b: Seq<KeyedOutput>, k: Seq<u8>)
    ensures
        net_for(a + b, k) == net_for(a, k) + net_for(b, k),
    decreases b.len(),
{
    if b.len() > 0 {
        assert((a + b).drop_last() =~= a + b.drop_last());
        lemma_net_for_add(a, b.drop_last(), k);
    } else {
        assert(a + b =~= a);
    }
}

proof fn lemma_net_for_changes(k2: Seq<u8>, prev: Option<ValueModel>, next: Option<ValueModel>, t: u64, k: Seq<u8>)
    ensures
        net_for(keyed(k2, changes(prev, next, t)), k) == if k2 == k {
            (if next is Some { 1int } else { 0 }) - (if prev is Some { 1int } else { 0 })
        } else {
            0
        },
{
    reveal_with_fuel(net_for, 3);
    let ch = changes(prev, next, t);
    let c = keyed(k2, ch);
    assert(c.len() == ch.len());
    if c.len() == 2 {
        assert(c.last() == (k2, ch[1]));
        assert(c.drop_last().last() == (k2, ch[0]));
        assert(c.drop_last().drop_last().len() == 0);
        assert(ch[0].2 == -1 && ch[1].2 == 1);
    } else if c.len() == 1 {
        assert(c.last() == (k2, ch[0]));
        assert(c.drop_last().len() == 0);
        assert(ch[0].2 == if next is Some { 1i64 } else { -1i64 });
    }
}

proof fn lemma_kstep(m: StateModel, s: Seq<StagedUpdate>, n: int, k: Seq<u8>)
    requires
        0 <= n <= s.len(),
    ensures
        unkey(kstep(m, s, n)) == step(m, s, n).1,
        net_for(kstep(m, s, n), k) == count(step(m, s, n).0, k) - count(m, k),
    decreases n,
{
    if n > 0 {
        lemma_kstep(m, s, n - 1, k);
        let c = s[n - 1];
        if wins(s, n - 1) {
            let r = kstep(m, s, n - 1);
            let prev = map_get(step(m, s, n - 1).0, c.key@);
            let ch = changes(prev, opt_value_model(c.value), c.time);
            assert(unkey(r + keyed(c.key@, ch)) =~= unkey(r) + ch);
            lemma_net_for_add(r, keyed(c.key@, ch), k);
            lemma_net_for_changes(c.key@, prev, opt_value_model(c.value), c.time, k);
        }
    }
}

proof fn lemma_kprocess(m: StateModel, s: Seq<StagedUpdate>, k: Seq<u8>)
    ensures
        unkey(kprocess(m, s)) == process(m, s).1,
        net_for(kprocess(m, s), k) == count(process(m, s).0, k) - count(m, k),
    decreases s.len(),
{
    if s.len() > 0 {
        let t = min_time(s);
        let cur = select(s, Cut::At(t), true);
        let rest = select(s, Cut::At(t), false);
        lemma_process_unfold(s);
        lemma_select_len(s, Cut::At(t));
        let m1 = step(m, cur, cur.len() as int).0;
        lemma_kstep(m, cur, cur.len() as int, k);
        lemma_kprocess(m1, rest, k);
        let a = kstep(m, cur, cur.len() as int);
        let b = kprocess(m1, rest);
        assert(unkey(a + b) =~= unkey(a) + unkey(b));
        lemma_net_for_add(a, b, k);
    } else {
        assert(unkey(Seq::<KeyedOutput>::empty()) =~= Seq::<OutputModel>::empty());
    }
}

/// Summed per key, the output of a frontier step takes each key from its count of records
/// before the step (1 with a value, else 0) to its count after it: `kprocess` is that
/// output with each record tagged by its key. A collection with at most one record per key
/// keeps at most one, over all the times the step closes.
pub proof fn lemma_output_net_per_key(m: StateModel, s: Seq<StagedUpdate>, k: Seq<u8>)
    ensures
        unkey(kprocess(m, s)) == process(m, s).1,
        count(m, k) + net_for(kprocess(m, s), k) == count(process(m, s).0, k),
        0 <= count(m, k) + net_for(kprocess(m, s), k) <= 1,
{
    lemma_kprocess(m, s, k);
}

/// The sum of the diffs of the records of `out` emitted for key `k` with a value encoded
/// as `b`.
pub open spec fn net_for_value(out: Seq<KeyedOutput>, k: Seq<u8>, b: Seq<u8>) -> int
    decreases out.len(),
{
    if out.len() == 0 {
        0
    } else {
        net_for_value(out.drop_last(), k, b) + if out.last().0 == k && value_bytes(out.last().1.0)
            == b {
            out.last().1.2 as int
        } else {
            0
        }
    }
}

/// 1 where key `k` holds a value encoded as `b` in `m`, else 0.
pub open spec fn count_value(m: StateModel, k: Seq<u8>, b: Seq<u8>) -> int {
    if m.contains_key(k) && value_bytes(m[k]) == b {
        1
    } else {
        0
    }
}

proof fn lemma_net_for_value_add(a: Seq<KeyedOutput>, c: Seq<KeyedOutput>, k: Seq<u8>, b: Seq<u8>)
    ensures
        net_for_value(a + c, k, b) == net_for_value(a, k, b) + net_for_value(c, k, b),
    decreases c.len(),
{
    if c.len() > 0 {
        assert((a + c).drop_last() =~= a + c.drop_last());
        lemma_net_for_value_add(a, c.drop_last(), k, b);
    } else {
        assert(a + c =~= a);
    }
}

proof fn lemma_kstep_value(m: StateModel, s: Seq<StagedUpdate>, n: int, k: Seq<u8>, b: Seq<u8>)
    requires
        0 <= n <= s.len(),
    ensures
        net_for_value(kstep(m, s, n), k, b) == count_value(step(m, s, n).0, k, b) - count_value(
            m,
            k,
            b,
        ),
    decreases n,
{
    if n > 0 {
        lemma_kstep_value(m, s, n - 1, k, b);
        let c = s[n - 1];
        if wins(s, n - 1) {
            reveal_with_fuel(net_for_value, 3);
            let r = kstep(m, s, n - 1);
            let prev = map_get(step(m, s, n - 1).0, c.key@);
            let ch = changes(prev, opt_value_model(c.value), c.time);
            let kc = keyed(c.key@, ch);
            lemma_net_for_value_add(r, kc, k, b);
            assert(kc.len() == ch.len());
            if kc.len() == 2 {
                assert(kc.last() == (c.key@, ch[1]));
                assert(kc.drop_last().last() == (c.key@, ch[0]));
                assert(kc.drop_last().drop_last().len() == 0);
            } else if kc.len() == 1 {
                assert(kc.last() == (c.key@, ch[0]));
                assert(kc.drop_last().len() == 0);
            }
        }
    }
}

proof fn lemma_kprocess_value(m: StateModel, s: Seq<StagedUpdate>, k: Seq<u8>, b: Seq<u8>)
    ensures
        net_for_value(kprocess(m, s), k, b) == count_value(process(m, s).0, k, b) - count_value(
            m,
            k,
            b,
        ),
    decreases s.len(),
{
    if s.len() > 0 {
        let t = min_time(s);
        let cur = select(s, Cut::At(t), true);
        let rest = select(s, Cut::At(t), false);
        lemma_process_unfold(s);
        let m1 = step(m, cur, cur.len() as int).0;
        lemma_kstep_value(m, cur, cur.len() as int, k, b);
        lemma_kprocess_value(m1, rest, k, b);
        lemma_net_for_value_add(kstep(m, cur, cur.len() as int), kprocess(m1, rest), k, b);
    }
}

/// The sum of the diffs of the events of `evs` on key `k` with a value encoded as `b`.
pub open spec fn event_sum(evs: Seq<SnapshotEvent>, k: Seq<u8>, b: Seq<u8>) -> int
    decreases evs.len(),
{
    if evs.len() == 0 {
        0
    } else {
        event_sum(evs.drop_last(), k, b) + if evs.last().key@ == k && event_bytes(evs.last()) == b {
            evs.last().diff as int
        } else {
            0
        }
    }
}

proof fn lemma_add_events_sum(m: NetModel, evs: Seq<SnapshotEvent>, k: Seq<u8>, b: Seq<u8>)
    ensures
        net_of(add_events(m, evs), k, b) == net_of(m, k, b) + event_sum(evs, k, b),
    decreases evs.len(),
{
    if evs.len() > 0 {
        lemma_add_events_sum(m, evs.drop_last(), k, b);
    }
}

proof fn lemma_add_events_nonzero(m: NetModel, evs: Seq<SnapshotEvent>)
    requires
        forall|p: (Seq<u8>, Seq<u8>)| #[trigger] m.contains_key(p) ==> m[p] != 0,
    ensures
        forall|p: (Seq<u8>, Seq<u8>)| #[trigger] add_events(m, evs).contains_key(p) ==> add_events(m, evs)[p] != 0,
    decreases evs.len(),
{
    if evs.len() > 0 {
        lemma_add_events_nonzero(m, evs.drop_last());
        let m1 = add_events(m, evs.drop_last());
        let e = evs.last();
        let q = (e.key@, event_bytes(e));
        assert forall|p: (Seq<u8>, Seq<u8>)| #[trigger] add_events(m, evs).contains_key(p) implies add_events(m, evs)[p] != 0 by {
            if p != q {
                assert(m1.contains_key(p));
            }
        }
    }
}

/// `evs` are the records of `out`, each as a snapshot event under the key it was emitted
/// for.
pub open spec fn replays(evs: Seq<SnapshotEvent>, out: Seq<KeyedOutput>) -> bool {
    &&& evs.len() == out.len()
    &&& forall|i: int|
        0 <= i < evs.len() ==> {
            &&& (#[trigger] evs[i]).key@ == out[i].0
            &&& value_model(evs[i].value) == out[i].1.0
            &&& evs[i].diff == out[i].1.2
        }
}

proof fn lemma_event_sum_replays(evs: Seq<SnapshotEvent>, out: Seq<KeyedOutput>, k: Seq<u8>, b: Seq<u8>)
    requires
        replays(evs, out),
    ensures
        event_sum(evs, k, b) == net_for_value(out, k, b),
    decreases evs.len(),
{
    if evs.len() > 0 {
        assert(replays(evs.drop_last(), out.drop_last())) by {
            assert forall|i: int| 0 <= i < evs.drop_last().len() implies {
                &&& (#[trigger] evs.drop_last()[i]).key@ == out.drop_last()[i].0
                &&& value_model(evs.drop_last()[i].value) == out.drop_last()[i].1.0
                &&& evs.drop_last()[i].diff == out.drop_last()[i].1.2
            } by {
                assert(evs.drop_last()[i] == evs[i]);
            }
        }
        lemma_event_sum_replays(evs.drop_last(), out.drop_last(), k, b);
        assert(evs[evs.len() - 1] == evs.last());
    }
}

/// Rehydration reproduces a run from empty: merging, from nothing, the records that a run
/// from an empty state emits for the commands `s`, each under its key, leaves exactly one
/// record of multiplicity one per key that the run ends with, carrying that key's final
/// value; so the replay is consistent, and finishing it stores those values.
pub proof fn lemma_replay_of_run_rehydrates(s: Seq<StagedUpdate>, evs: Seq<SnapshotEvent>)
    requires
        replays(evs, kprocess(Map::empty(), s)),
    ensures
        ({
            let fin = process(Map::empty(), s).0;
            let merged = add_events(Map::empty(), evs);
            &&& forall|p: (Seq<u8>, Seq<u8>)| #[trigger]
                merged.contains_key(p) <==> fin.contains_key(p.0) && value_bytes(fin[p.0]) == p.1
            &&& consistent(merged)
        }),
{
    let fin = process(Map::<Seq<u8>, ValueModel>::empty(), s).0;
    let merged = add_events(Map::<(Seq<u8>, Seq<u8>), int>::empty(), evs);
    assert forall|p: (Seq<u8>, Seq<u8>)| #[trigger] merged.contains_key(p) == (fin.contains_key(p.0)
        && value_bytes(fin[p.0]) == p.1) && (merged.contains_key(p) ==> merged[p] == 1) by {
        lemma_add_events_sum(Map::empty(), evs, p.0, p.1);
        lemma_event_sum_replays(evs, kprocess(Map::empty(), s), p.0, p.1);
        lemma_kprocess_value(Map::empty(), s, p.0, p.1);
        lemma_add_events_nonzero(Map::empty(), evs);
        assert(net_of(Map::<(Seq<u8>, Seq<u8>), int>::empty(), p.0, p.1) == 0);
        assert(count_value(Map::<Seq<u8>, ValueModel>::empty(), p.0, p.1) == 0);
        assert(p == (p.0, p.1));
    }
}

} // verus!
