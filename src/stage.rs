//! Staging of upsert commands until the frontier closes their time.
use vstd::prelude::*;
use crate::datum::UpsertValue;
use crate::key::UpsertKey;

verus! {

/// A frontier over a totally ordered time: `Some(t)` holds back every time from `t` on,
/// `None` is the empty frontier, which holds back nothing.
pub type Frontier = Option<u64>;

/// `a` is at or before `b` (every time that `b` holds back, `a` holds back).
pub open spec fn frontier_le(a: Frontier, b: Frontier) -> bool {
    match (a, b) {
        (_, None) => true,
        (None, Some(_)) => false,
        (Some(x), Some(y)) => x <= y,
    }
}

/// The frontier `f` holds back time `t`.
pub open spec fn frontier_holds(f: Frontier, t: u64) -> bool {
    f matches Some(x) && x <= t
}

/// Whether frontier `a` is at or before frontier `b`.
pub fn less_equal(a: Frontier, b: Frontier) -> (r: bool)
    ensures
        r == frontier_le(a, b),
{
    match (a, b) {
        (_, None) => true,
        (None, Some(_)) => false,
        (Some(x), Some(y)) => x <= y,
    }
}

/// Whether frontier `f` holds back time `t`.
pub fn holds_back(f: Frontier, t: u64) -> (r: bool)
    ensures
        r == frontier_holds(f, t),
{
    match f {
        Some(x) => x <= t,
        None => false,
    }
}

/// An upsert command as it arrives: `((key, value, order), time, diff)`.
pub struct UpsertInput {
    pub key: UpsertKey,
    pub value: Option<UpsertValue>,
    pub order: u64,
    pub time: u64,
    pub diff: i64,
}

/// An upsert command waiting for its time to close. `value` absent is a deletion.
pub struct StagedUpdate {
    pub time: u64,
    pub key: UpsertKey,
    pub order: u64,
    pub value: Option<UpsertValue>,
}

pub open spec fn staged_of(u: UpsertInput) -> StagedUpdate {
    StagedUpdate { time: u.time, key: u.key, order: u.order, value: u.value }
}

/// The staged form of the commands of `data`; with `drop_early`, only of those at or
/// after `resume`.
pub open spec fn stage_all(data: Seq<UpsertInput>, drop_early: bool, resume: Frontier) -> Seq<
    StagedUpdate,
>
    decreases data.len(),
{
    if data.len() == 0 {
        Seq::empty()
    } else {
        let prev = stage_all(data.drop_last(), drop_early, resume);
        if !drop_early || frontier_holds(resume, data.last().time) {
            prev.push(staged_of(data.last()))
        } else {
            prev
        }
    }
}

/// How a sequence of staged commands is split.
pub enum Cut {
    /// Commands whose time the frontier no longer holds back.
    Before(Frontier),
    /// Commands at exactly this time.
    At(u64),
}

pub open spec fn cut_holds(c: Cut, u: StagedUpdate) -> bool {
    match c {
        Cut::Before(f) => !frontier_holds(f, u.time),
        Cut::At(t) => u.time == t,
    }
}

/// The commands of `s`, in order, for which `cut_holds(c, _) == keep`.
pub open spec fn select(s: Seq<StagedUpdate>, c: Cut, keep: bool) -> Seq<StagedUpdate>
    decreases s.len(),
{
    if s.len() == 0 {
        Seq::empty()
    } else if cut_holds(c, s.last()) == keep {
        select(s.drop_last(), c, keep).push(s.last())
    } else {
        select(s.drop_last(), c, keep)
    }
}

fn cut_test(c: &Cut, u: &StagedUpdate) -> (r: bool)
    ensures
        r == cut_holds(*c, *u),
{
    match c {
        Cut::Before(f) => !holds_back(*f, u.time),
        Cut::At(t) => u.time == *t,
    }
}

pub(crate) fn reverse_into<T>(v: &mut Vec<T>) -> (r: Vec<T>)
    ensures
        final(v)@.len() == 0,
        r.len() == old(v)@.len(),
        forall|j: int| 0 <= j < r.len() ==> #[trigger] r@[j] == old(v)@[r.len() - 1 - j],
{
    let mut r: Vec<T> = Vec::new();
    let ghost all = v@;
    while v.len() > 0
        invariant
            v.len() + r.len() == all.len(),
            forall|j: int| 0 <= j < v.len() ==> #[trigger] v@[j] == all[j],
            forall|j: int| 0 <= j < r.len() ==> #[trigger] r@[j] == all[all.len() - 1 - j],
        decreases v.len(),
    {
        let e = v.pop().unwrap();
        r.push(e);
    }
    r
}

/// Moves the commands of `v` for which `c` holds into the result, in order; the others
/// stay in `v`, in order.
pub fn partition(v: &mut Vec<StagedUpdate>, c: Cut) -> (taken: Vec<StagedUpdate>)
    ensures
        taken@ == select(old(v)@, c, true),
        final(v)@ == select(old(v)@, c, false),
{
    let ghost all = v@;
    let mut rev = reverse_into(v);
    let n = rev.len();
    let mut taken: Vec<StagedUpdate> = Vec::new();
    let mut left: Vec<StagedUpdate> = Vec::new();
    while rev.len() > 0
        invariant
            rev.len() <= n,
            n == all.len(),
            forall|j: int| 0 <= j < rev.len() ==> #[trigger] rev@[j] == all[n - 1 - j],
            taken@ == select(all.subrange(0, n - rev.len()), c, true),
            left@ == select(all.subrange(0, n - rev.len()), c, false),
        decreases rev.len(),
    {
        let ghost done = n - rev.len();
        let u = rev.pop().unwrap();
        proof {
            assert(u == all[done]);
            let pre = all.subrange(0, done + 1);
            assert(pre.drop_last() =~= all.subrange(0, done));
            assert(pre.last() == u);
        }
        if cut_test(&c, &u) {
            taken.push(u);
        } else {
            left.push(u);
        }
    }
    assert(all.subrange(0, n as int) =~= all);
    *v = left;
    taken
}

/// Relies on `Vec::capacity`; nothing is assumed of the number it gives.
#[verifier::external_body]
fn capacity_of(v: &Vec<StagedUpdate>) -> (r: usize) {
    v.capacity()
}

/// Relies on `Vec::shrink_to`, which leaves the contents as they are.
#[verifier::external_body]
fn shrink_to(v: &mut Vec<StagedUpdate>, cap: usize)
    ensures
        final(v)@ == old(v)@,
{
    v.shrink_to(cap)
}

/// Moves the commands of `data` into `stash`. While the input frontier is at or before
/// `resume_upper`, commands before `resume_upper` are dropped: the replay of the earlier
/// output already holds them. A nonzero `shrink_ratio` lets an underused `stash` give
/// memory back.
pub fn stage_input(
    stash: &mut Vec<StagedUpdate>,
    data: &mut Vec<UpsertInput>,
    input_upper: Frontier,
    resume_upper: Frontier,
    shrink_ratio: usize,
)
    requires
        forall|i: int| 0 <= i < old(data)@.len() ==> #[trigger] old(data)@[i].diff > 0,
    ensures
        final(data)@.len() == 0,
        final(stash)@ == old(stash)@ + stage_all(
            old(data)@,
            frontier_le(input_upper, resume_upper),
            resume_upper,
        ),
{
    let ghost all = data@;
    let drop_early = less_equal(input_upper, resume_upper);
    let mut rev = reverse_into(data);
    let n = rev.len();
    let ghost start = stash@;
    while rev.len() > 0
        invariant
            rev.len() <= n,
            n == all.len(),
            forall|j: int| 0 <= j < rev.len() ==> #[trigger] rev@[j] == all[n - 1 - j],
            stash@ == start + stage_all(all.subrange(0, n - rev.len()), drop_early, resume_upper),
            drop_early == frontier_le(input_upper, resume_upper),
        decreases rev.len(),
    {
        let ghost done = n - rev.len();
        let u = rev.pop().unwrap();
        proof {
            assert(u == all[done]);
            let pre = all.subrange(0, done + 1);
            assert(pre.drop_last() =~= all.subrange(0, done));
            assert(pre.last() == u);
        }
        if !drop_early || holds_back(resume_upper, u.time) {
            let s = StagedUpdate { time: u.time, key: u.key, order: u.order, value: u.value };
            stash.push(s);
            proof {
                let pre = all.subrange(0, done + 1);
                assert(stash@ =~= start + stage_all(pre, drop_early, resume_upper));
            }
        }
    }
    assert(all.subrange(0, n as int) =~= all);
    if shrink_ratio > 0 {
        let reduced = capacity_of(stash) / shrink_ratio;
        if reduced > stash.len() {
            shrink_to(stash, reduced);
        }
    }
}

/// Takes out of `stash` the commands whose time `upper` no longer holds back, in order.
pub fn split_ready(stash: &mut Vec<StagedUpdate>, upper: Frontier) -> (ready: Vec<StagedUpdate>)
    ensures
        ready@ == select(old(stash)@, Cut::Before(upper), true),
        final(stash)@ == select(old(stash)@, Cut::Before(upper), false),
{
    partition(stash, Cut::Before(upper))
}

} // verus!
