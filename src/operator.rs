//! The upsert operator's decisions: when it is rehydrating, what a frontier step does to
//! its state and output, and how far its output frontier moves.
use vstd::prelude::*;
use crate::stage::{
    Cut, Frontier, StagedUpdate, UpsertInput, frontier_holds, frontier_le, holds_back, less_equal,
    select, split_ready, stage_all, stage_input,
};
use crate::snapshot::{SnapshotError, SnapshotEvent, SnapshotMerge, add_events, consistent, events_fit};
use crate::codec::value_bytes;
use crate::state::InMemoryHashMap;
use crate::upsert::map_get;
use crate::upsert::{OutputUpdate, outputs_model, process, upsert_ready};

verus! {

/// `a` is strictly before `b`.
pub open spec fn frontier_lt(a: Frontier, b: Frontier) -> bool {
    frontier_le(a, b) && a != b
}

/// Whether frontier `a` is strictly before frontier `b`.
pub fn less_than(a: Frontier, b: Frontier) -> (r: bool)
    ensures
        r == frontier_lt(a, b),
{
    less_equal(a, b) && a != b
}

/// Settings of one upsert operator.
pub struct UpsertConfig {
    /// Stay in rehydration until the input too has reached the resume frontier.
    pub wait_for_input_resumption: bool,
    /// Shrink the staging buffer to a `1 / ratio` of its capacity when underused; 0 never.
    pub shrink_upsert_unused_buffers_by_ratio: usize,
}

/// One worker's upsert operator between events.
pub struct UpsertOperator {
    /// The frontier from which this operator produces output; earlier times come from
    /// the replay of its earlier output.
    pub resume_upper: Frontier,
    /// How far the input of new commands has come.
    pub input_upper: Frontier,
    /// How far the replay of earlier output has come.
    pub snapshot_upper: Frontier,
    /// The earliest time at which the operator may still emit output.
    pub output_frontier: Frontier,
    /// Commands whose time is not closed yet.
    pub stash: Vec<StagedUpdate>,
    /// The current value of each key.
    pub state: InMemoryHashMap,
    /// The replay consolidated so far, while rehydrating.
    pub snapshot: SnapshotMerge,
    pub config: UpsertConfig,
}

/// Whether the coordination handle is to be dropped on this event of the watched stream:
/// once its frontier has reached `resume_upper`, or when the stream has closed (`None`).
pub fn rehydration_finished(resume_upper: Frontier, event: Option<Frontier>) -> (r: bool)
    ensures
        r == match event {
            Some(f) => frontier_le(resume_upper, f),
            None => true,
        },
{
    match event {
        Some(f) => less_equal(resume_upper, f),
        None => true,
    }
}

impl UpsertOperator {
    pub open spec fn wf(&self) -> bool {
        self.state.wf() && self.snapshot.wf()
    }

    pub open spec fn rehydrating(&self) -> bool {
        !frontier_le(self.resume_upper, self.snapshot_upper) || (
        self.config.wait_for_input_resumption && !frontier_le(self.resume_upper, self.input_upper))
    }

    /// A fresh operator: both inputs and the output at the minimum time, nothing staged,
    /// an empty state.
    pub fn new(resume_upper: Frontier, config: UpsertConfig) -> (r: UpsertOperator)
        ensures
            r.wf(),
            r.resume_upper == resume_upper,
            r.input_upper == Some(0u64),
            r.snapshot_upper == Some(0u64),
            r.output_frontier == Some(0u64),
            r.stash@.len() == 0,
            r.state@.is_empty(),
            r.snapshot@.is_empty(),
            r.config == config,
    {
        UpsertOperator {
            resume_upper,
            input_upper: Some(0),
            snapshot_upper: Some(0),
            output_frontier: Some(0),
            stash: Vec::new(),
            state: InMemoryHashMap::new(),
            snapshot: SnapshotMerge::new(),
            config,
        }
    }

    /// Whether the operator is still rehydrating: the replay has not reached the resume
    /// frontier, or it waits for the input to reach it too.
    pub fn is_rehydrating(&self) -> (r: bool)
        ensures
            r == self.rehydrating(),
    {
        !less_equal(self.resume_upper, self.snapshot_upper) || (
        self.config.wait_for_input_resumption && !less_equal(self.resume_upper, self.input_upper))
    }

    /// Whether the replay of earlier output still has data for this operator.
    pub fn wants_previous(&self) -> (r: bool)
        ensures
            r == !frontier_le(self.resume_upper, self.snapshot_upper),
    {
        !less_equal(self.resume_upper, self.snapshot_upper)
    }

    /// Stages a batch of new commands.
    pub fn on_input_data(&mut self, data: &mut Vec<UpsertInput>)
        requires
            forall|i: int| 0 <= i < old(data)@.len() ==> #[trigger] old(data)@[i].diff > 0,
        ensures
            final(data)@.len() == 0,
            final(self).stash@ == old(self).stash@ + stage_all(
                old(data)@,
                frontier_le(old(self).input_upper, old(self).resume_upper),
                old(self).resume_upper,
            ),
            final(self).state == old(self).state,
            final(self).snapshot == old(self).snapshot,
            final(self).input_upper == old(self).input_upper,
            final(self).snapshot_upper == old(self).snapshot_upper,
            final(self).output_frontier == old(self).output_frontier,
            final(self).resume_upper == old(self).resume_upper,
            final(self).config == old(self).config,
    {
        stage_input(
            &mut self.stash,
            data,
            self.input_upper,
            self.resume_upper,
            self.config.shrink_upsert_unused_buffers_by_ratio,
        );
    }

    /// Notes, while rehydrating, that the input of new commands has reached `upper`;
    /// nothing is processed until rehydration ends.
    pub fn note_input_progress(&mut self, upper: Frontier)
        ensures
            final(self).input_upper == upper,
            final(self).stash == old(self).stash,
            final(self).state == old(self).state,
            final(self).snapshot == old(self).snapshot,
            final(self).snapshot_upper == old(self).snapshot_upper,
            final(self).output_frontier == old(self).output_frontier,
            final(self).resume_upper == old(self).resume_upper,
            final(self).config == old(self).config,
    {
        self.input_upper = upper;
    }

    /// Notes that the replay of earlier output has reached `upper`. The output frontier
    /// follows it, but never to or past the resume frontier.
    pub fn on_previous_progress(&mut self, upper: Frontier)
        ensures
            final(self).snapshot_upper == upper,
            final(self).output_frontier == (match upper {
                Some(t) => if frontier_holds(old(self).resume_upper, t) {
                    old(self).output_frontier
                } else {
                    Some(t)
                },
                None => old(self).output_frontier,
            }),
            final(self).stash == old(self).stash,
            final(self).state == old(self).state,
            final(self).snapshot == old(self).snapshot,
            final(self).input_upper == old(self).input_upper,
            final(self).resume_upper == old(self).resume_upper,
            final(self).config == old(self).config,
    {
        self.snapshot_upper = upper;
        match upper {
            Some(t) => {
                if !holds_back(self.resume_upper, t) {
                    self.output_frontier = Some(t);
                }
            },
            None => {},
        }
    }

    /// Merges a chunk of the replay of earlier output.
    pub fn on_previous_data(&mut self, events: Vec<SnapshotEvent>) -> (r: Result<(), SnapshotError>)
        requires
            old(self).wf(),
        ensures
            final(self).wf(),
            r is Ok <==> events_fit(old(self).snapshot@, events@),
            r is Ok ==> final(self).snapshot@ == add_events(old(self).snapshot@, events@),
            final(self).state == old(self).state,
            final(self).stash == old(self).stash,
            final(self).resume_upper == old(self).resume_upper,
            final(self).input_upper == old(self).input_upper,
            final(self).snapshot_upper == old(self).snapshot_upper,
            final(self).output_frontier == old(self).output_frontier,
    {
        self.snapshot.merge_chunk(events)
    }

    /// Writes the consolidated replay into the state: each key left with one value of
    /// multiplicity one gets it. The replay must consolidate that way (see
    /// [`SnapshotMerge::is_consistent`]); a replay of this operator's earlier output does.
    pub fn complete_snapshot(&mut self)
        requires
            old(self).wf(),
            consistent(old(self).snapshot@),
        ensures
            final(self).wf(),
            forall|p: (Seq<u8>, Seq<u8>)| #[trigger]
                old(self).snapshot@.contains_key(p) ==> final(self).state@.contains_key(p.0)
                    && value_bytes(final(self).state@[p.0]) == p.1,
            forall|k: Seq<u8>|
                !old(self).snapshot.has_key(k) ==> #[trigger] map_get(final(self).state@, k)
                    == map_get(old(self).state@, k),
            final(self).snapshot == old(self).snapshot,
            final(self).stash == old(self).stash,
            final(self).resume_upper == old(self).resume_upper,
            final(self).input_upper == old(self).input_upper,
            final(self).snapshot_upper == old(self).snapshot_upper,
            final(self).output_frontier == old(self).output_frontier,
    {
        self.snapshot.finish(&mut self.state)
    }

    /// Ends rehydration: the output frontier moves to the resume frontier, and the
    /// commands staged meanwhile are processed up to the input frontier.
    pub fn finish_rehydration(&mut self) -> (r: Vec<OutputUpdate>)
        requires
            old(self).wf(),
        ensures
            final(self).wf(),
            frontier_lt(old(self).input_upper, old(self).resume_upper) ==> {
                &&& final(self).output_frontier == old(self).resume_upper
                &&& final(self).stash == old(self).stash
                &&& final(self).state == old(self).state
                &&& r@.len() == 0
            },
            !frontier_lt(old(self).input_upper, old(self).resume_upper) ==> {
                let ready = select(old(self).stash@, Cut::Before(old(self).input_upper), true);
                &&& final(self).stash@ == select(
                    old(self).stash@,
                    Cut::Before(old(self).input_upper),
                    false,
                )
                &&& final(self).state@ == process(old(self).state@, ready).0
                &&& outputs_model(r@) == process(old(self).state@, ready).1
                &&& final(self).output_frontier == old(self).input_upper
            },
            final(self).input_upper == old(self).input_upper,
            final(self).resume_upper == old(self).resume_upper,
    {
        self.output_frontier = self.resume_upper;
        let upper = self.input_upper;
        self.on_input_progress(upper)
    }

    /// Processes a step of the input frontier to `upper`. A frontier before the resume
    /// frontier changes nothing. Otherwise the commands whose time `upper` closes are
    /// applied to the state, and the output and input frontiers move to `upper`.
    pub fn on_input_progress(&mut self, upper: Frontier) -> (r: Vec<OutputUpdate>)
        requires
            old(self).wf(),
        ensures
            final(self).wf(),
            frontier_lt(upper, old(self).resume_upper) ==> {
                &&& *final(self) == *old(self)
                &&& r@.len() == 0
            },
            !frontier_lt(upper, old(self).resume_upper) ==> {
                let ready = select(old(self).stash@, Cut::Before(upper), true);
                &&& final(self).stash@ == select(old(self).stash@, Cut::Before(upper), false)
                &&& final(self).state@ == process(old(self).state@, ready).0
                &&& outputs_model(r@) == process(old(self).state@, ready).1
                &&& final(self).output_frontier == upper
                &&& final(self).input_upper == upper
                &&& final(self).resume_upper == old(self).resume_upper
                &&& final(self).snapshot_upper == old(self).snapshot_upper
            },
    {
        if less_than(upper, self.resume_upper) {
            return Vec::new();
        }
        let ready = split_ready(&mut self.stash, upper);
        let (out, _io) = upsert_ready(&mut self.state, ready);
        self.output_frontier = upper;
        self.input_upper = upper;
        out
    }
}

} // verus!
