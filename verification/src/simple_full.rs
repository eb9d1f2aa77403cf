//! The full steward: it owns every event record, every timeline cell and
//! every open snapshot, keeps the set of events that still need attention
//! ordered by extended time, and drives the simulation one event at a time.
//!
//! Events and cells are referred to by their index in the steward's arenas;
//! an index plays the role of a shared handle. The steward journals, inside
//! each event's execution state, everything the execution changed, so that
//! undoing an event is a kernel matter rather than a client obligation.

use vstd::prelude::*;
use crate::api::ExtendedTime;
use crate::api::QueryOffset;
use crate::api::ValidSince;
use crate::api::FiatEventOperationError;
use crate::api::MAX_ITERATION;
use crate::api::et_lt;
use crate::api::lemma_et_order;
use crate::ids::DeterministicRandomId;
use crate::ids::id_lt;
use crate::common::extended_time_of_fiat_event;
use crate::common::extended_time_of_predicted_event;
use crate::common::PredictedTimeError;
use crate::simple_timeline::SimpleTimeline;
use crate::simple_timeline::history_sorted;
use crate::simple_timeline::entry_at;
use crate::simple_timeline::value_before;
use crate::simple_timeline::value_at;
use crate::simple_timeline::queried;
use crate::bouncy::Globals;
use crate::bouncy::Motion;
use crate::bouncy::Payload;

verus! {

/// One recorded effect of an event's execution, with what is needed to take
/// it back: the change slot a cell had at the event's time, the index of a
/// prediction the event created, or the destruction state a prediction had
/// before the event destroyed it.
#[derive(Copy, Clone, Debug)]
pub enum UndoOp {
    Modify { cell: usize, prev: Option<Motion> },
    Create { prediction: usize },
    Destroy { prediction: usize, prev_destroyed_by: Option<usize>, prev_should: bool },
}

/// What is kept of an event's most recent execution: whether it is still
/// valid, and the journal that can take it back.
#[derive(Clone, Debug)]
pub struct ExecutionState {
    pub valid: bool,
    pub journal: Vec<UndoOp>,
}

/// Everything the steward stores about one event.
#[derive(Clone, Debug)]
pub struct EventRecord {
    /// When the event executes; immutable.
    pub time: ExtendedTime,
    /// What the event does; immutable.
    pub payload: Payload,
    /// Cleared when the event is removed or its prediction is destroyed.
    pub should_be_executed: bool,
    /// The event that predicted this one; `None` for fiat events.
    pub created_by: Option<usize>,
    /// The event that destroyed this prediction, itself included.
    pub destroyed_by: Option<usize>,
    /// Present while an execution of this event stands.
    pub execution_state: Option<ExecutionState>,
}

/// A timeline cell: the versioned value, and the index of the first open
/// snapshot that does not hold its own copy of this cell yet.
#[derive(Clone, Debug)]
pub struct DataTimelineCell {
    pub first_snapshot_not_updated: usize,
    pub data: SimpleTimeline<Motion>,
}

/// One open snapshot: the moment it observes, a lazy per-cell copy map, and
/// (as ghost state) the per-cell values it answered for at its creation.
pub struct SnapshotInner {
    /// Cleared when the client releases the snapshot.
    pub live: bool,
    /// The observed moment: the beginning of the requested base time.
    pub time: ExtendedTime,
    /// A copy of each cell this snapshot has been guarded against, by cell
    /// index.
    pub clones: Vec<Option<SimpleTimeline<Motion>>>,
    /// For each cell, the value just before and the value at `time` when the
    /// snapshot was taken: what its queries answer, for all its life.
    pub at_creation: Ghost<Seq<(Option<Motion>, Option<Motion>)>>,
}

/// A shared handle to immutable data: the steward's cheap way to pass one
/// value to many readers.
#[derive(Clone, Debug)]
pub struct DataHandle<T> {
    pub data: T,
}

impl<T> DataHandle<T> {
    /// Wraps `data` in a handle.
    pub fn new(data: T) -> (r: DataHandle<T>)
        ensures
            r.data == data,
    {
        DataHandle { data }
    }

    /// The value the handle shares.
    pub fn get(&self) -> (r: &T)
        ensures
            *r == self.data,
    {
        &self.data
    }
}

/// Why the steward refused an operation or stopped a step.
#[derive(Copy, Clone, PartialEq, Eq, Structural, Debug)]
pub enum KernelError {
    /// A prediction chain at one base time reached `MAX_ITERATION`.
    TooManyIterations,
    /// A second event at an extended time already taken.
    DuplicateExtendedTime,
    /// A predicted event finished executing without destroying itself.
    PredictionNotDestroyed,
    /// The target of `destroy_prediction` is a fiat event.
    NotAPrediction,
    /// The target was already destroyed by this or an earlier event.
    AlreadyDestroyed,
    /// The target of `destroy_prediction` lies in the past of the destroyer.
    TargetInPast,
    /// Bytes handed to deserialization that no snapshot wrote.
    DeserializationMismatch,
}

/// The change slot that reversing `journal` puts back into cell `c`: the
/// remembered slot of the first modification of `c`, if the journal holds
/// one.
pub open spec fn first_modify_prev(journal: Seq<UndoOp>, c: int) -> Option<Option<Motion>>
    decreases journal.len(),
{
    if journal.len() == 0 {
        None
    } else {
        match journal[0] {
            UndoOp::Modify { cell, prev } => if cell == c {
                Some(prev)
            } else {
                first_modify_prev(journal.subrange(1, journal.len() as int), c)
            },
            _ => first_modify_prev(journal.subrange(1, journal.len() as int), c),
        }
    }
}

/// Whether reversing `journal` touches the record of event `i`.
pub open spec fn journal_mentions(journal: Seq<UndoOp>, i: int) -> bool {
    exists|j: int|
        0 <= j < journal.len() && match #[trigger] journal[j] {
            UndoOp::Modify { cell, prev } => false,
            UndoOp::Create { prediction } => prediction == i,
            UndoOp::Destroy { prediction, prev_destroyed_by, prev_should } => prediction == i,
        }
}

/// Whether `journal` faithfully remembers, against steward state `pre`, how
/// to take an execution of the event at `ev` back: the first remembered slot
/// of each modified cell is what the cell held at the event's moment, and a
/// cell without a remembered slot is untouched in `post`.
pub open spec fn journal_accurate(pre: Steward, post: Steward, ev: int, j: Seq<UndoOp>) -> bool {
    forall|c: int|
        #![trigger first_modify_prev(j, c)]
        0 <= c < pre.cells@.len() ==> match first_modify_prev(j, c) {
            Option::Some(prev) => prev == entry_at(
                pre.cells@[c].data.changes@,
                pre.events@[ev].time,
            ),
            Option::None => post.cells@[c].data == pre.cells@[c].data,
        }
}

/// Whether every entry of `j` is a well-formed journal entry of event `ev`
/// in steward state `s`.
pub open spec fn all_ops_wf(s: Steward, ev: int, j: Seq<UndoOp>) -> bool {
    forall|k: int| 0 <= k < j.len() ==> s.op_wf(ev, #[trigger] j[k])
}

/// Journal entries stay well-formed while the arena grows and the records'
/// immutable fields stand.
pub proof fn lemma_ops_wf_preserved(a: &Steward, b: &Steward, ev: int, j: Seq<UndoOp>)
    requires
        all_ops_wf(*a, ev, j),
        0 <= ev < a.events@.len(),
        b.events@.len() >= a.events@.len(),
        b.cells@.len() >= a.cells@.len(),
        forall|i: int| 0 <= i < a.events@.len() ==> {
            let rn = #[trigger] b.events@[i];
            let ro = a.events@[i];
            rn.time == ro.time && rn.created_by == ro.created_by
        },
    ensures
        all_ops_wf(*b, ev, j),
{
    assert forall|k: int| 0 <= k < j.len() implies b.op_wf(ev, #[trigger] j[k]) by {
        assert(a.op_wf(ev, j[k]));
        match j[k] {
            UndoOp::Modify { cell, prev } => {},
            UndoOp::Create { prediction } => {
                assert(b.events@[prediction as int].created_by == a.events@[prediction as int].created_by);
            },
            UndoOp::Destroy { prediction, prev_destroyed_by, prev_should } => {
                assert(b.events@[prediction as int].created_by == a.events@[prediction as int].created_by);
                assert(b.events@[prediction as int].time == a.events@[prediction as int].time);
                assert(b.events@[ev].time == a.events@[ev].time);
            },
        }
    }
}

/// Appending to a journal leaves every already-remembered first slot in
/// place; a cell first modified by the appended entry remembers that entry.
pub proof fn lemma_first_modify_push(s: Seq<UndoOp>, op: UndoOp, c: int)
    ensures
        first_modify_prev(s.push(op), c) == match first_modify_prev(s, c) {
            Option::Some(p) => Option::Some(p),
            Option::None => match op {
                UndoOp::Modify { cell, prev } => if cell == c {
                    Option::Some(prev)
                } else {
                    Option::<Option<Motion>>::None
                },
                _ => Option::<Option<Motion>>::None,
            },
        },
    decreases s.len(),
{
    if s.len() == 0 {
        assert(s.push(op)[0] == op);
        assert(s.push(op).subrange(1, 1) =~= Seq::<UndoOp>::empty());
        assert(first_modify_prev(Seq::<UndoOp>::empty(), c) is None);
    } else {
        assert(s.push(op)[0] == s[0]);
        assert(s.push(op).subrange(1, s.len() as int + 1) =~= s.subrange(1, s.len() as int).push(
            op,
        ));
        lemma_first_modify_push(s.subrange(1, s.len() as int), op, c);
        match s[0] {
            UndoOp::Modify { cell, prev } => {
                if cell == c {
                    assert(first_modify_prev(s.push(op), c) == Some(prev));
                    assert(first_modify_prev(s, c) == Some(prev));
                } else {
                    assert(first_modify_prev(s.push(op), c) == first_modify_prev(
                        s.subrange(1, s.len() as int).push(op),
                        c,
                    ));
                    assert(first_modify_prev(s, c) == first_modify_prev(
                        s.subrange(1, s.len() as int),
                        c,
                    ));
                }
            },
            UndoOp::Create { prediction } => {
                assert(first_modify_prev(s.push(op), c) == first_modify_prev(
                    s.subrange(1, s.len() as int).push(op),
                    c,
                ));
                assert(first_modify_prev(s, c) == first_modify_prev(
                    s.subrange(1, s.len() as int),
                    c,
                ));
            },
            UndoOp::Destroy { prediction, prev_destroyed_by, prev_should } => {
                assert(first_modify_prev(s.push(op), c) == first_modify_prev(
                    s.subrange(1, s.len() as int).push(op),
                    c,
                ));
                assert(first_modify_prev(s, c) == first_modify_prev(
                    s.subrange(1, s.len() as int),
                    c,
                ));
            },
        }
    }
}

/// The steward: arenas of events and cells, the attention queue, the fiat
/// list, the open snapshots, and the lower bound on still-permitted times.
pub struct Steward {
    pub globals: Globals,
    pub invalid_before: ValidSince,
    pub events: Vec<EventRecord>,
    pub cells: Vec<DataTimelineCell>,
    /// Indices of events needing attention, strictly ordered by time.
    pub queue: Vec<usize>,
    /// Indices of inserted and not yet removed fiat events, strictly ordered
    /// by time.
    pub fiat_events: Vec<usize>,
    pub snapshots: Vec<SnapshotInner>,
}

impl Steward {
    /// Whether event `i` is in the attention queue.
    pub open spec fn in_queue(self, i: int) -> bool {
        exists|k: int| 0 <= k < self.queue@.len() && self.queue@[k] == i
    }

    /// Whether event `i` still needs the steward's attention: it should run
    /// and has no valid execution, or it should not run but an execution of
    /// it still stands and must be undone.
    pub open spec fn needs_attention(self, i: int) -> bool {
        let r = self.events@[i];
        if r.should_be_executed {
            match r.execution_state {
                Option::None => true,
                Option::Some(es) => !es.valid,
            }
        } else {
            r.execution_state is Some
        }
    }

    /// Every cell's history is sorted and its snapshot counter in range.
    pub open spec fn cells_wf(self) -> bool {
        forall|c: int| 0 <= c < self.cells@.len() ==> history_sorted(
            (#[trigger] self.cells@[c]).data.changes@,
        ) && self.cells@[c].first_snapshot_not_updated <= self.snapshots@.len()
    }

    /// One journal entry is well-formed for the event `i` that owns it.
    pub open spec fn op_wf(self, i: int, op: UndoOp) -> bool {
        match op {
            UndoOp::Modify { cell, prev } => cell < self.cells@.len(),
            UndoOp::Create { prediction } => prediction < self.events@.len()
                && self.events@[prediction as int].created_by == Some(i as usize),
            UndoOp::Destroy { prediction, prev_destroyed_by, prev_should } => {
                &&& prediction < self.events@.len()
                &&& (prediction != i ==> et_lt(
                    self.events@[i].time,
                    self.events@[prediction as int].time,
                ))
                &&& (prev_destroyed_by is Some
                    ==> self.events@[prediction as int].created_by is Some)
                &&& (prev_destroyed_by matches Some(d) ==> d < self.events@.len() && (d
                    != prediction ==> et_lt(
                    self.events@[d as int].time,
                    self.events@[prediction as int].time,
                )))
            },
        }
    }

    /// Creators precede their predictions in time and in the arena,
    /// destroyers precede what they destroy in time, and stored journals
    /// refer to real events and cells.
    pub open spec fn events_wf(self) -> bool {
        forall|i: int| 0 <= i < self.events@.len() ==> {
            let r = #[trigger] self.events@[i];
            &&& (r.created_by matches Some(c) ==> c < i && et_lt(
                self.events@[c as int].time,
                r.time,
            ))
            &&& (r.destroyed_by matches Some(d) ==> d < self.events@.len() && (d != i ==> et_lt(
                self.events@[d as int].time,
                r.time,
            )))
            &&& (r.execution_state matches Some(es) ==> forall|j: int|
                0 <= j < es.journal@.len() ==> self.op_wf(i, #[trigger] es.journal@[j]))
        }
    }

    /// The order of the attention queue: by extended time, ties broken by
    /// arena index, so that any two distinct events are ordered.
    pub open spec fn queue_lt(self, i: int, j: int) -> bool {
        et_lt(self.events@[i].time, self.events@[j].time) || (self.events@[i].time
            == self.events@[j].time && i < j)
    }

    /// Queue entries are real events, in strictly increasing queue order.
    pub open spec fn queue_wf(self) -> bool {
        &&& forall|k: int| 0 <= k < self.queue@.len() ==> (#[trigger] self.queue@[k])
            < self.events@.len()
        &&& forall|k1: int, k2: int| 0 <= k1 < k2 < self.queue@.len() ==> self.queue_lt(
            (#[trigger] self.queue@[k1]) as int,
            (#[trigger] self.queue@[k2]) as int,
        )
    }

    /// Fiat-list entries are real fiat events, in strictly increasing time
    /// order, still meant to execute.
    pub open spec fn fiat_wf(self) -> bool {
        &&& forall|k: int| 0 <= k < self.fiat_events@.len() ==> (#[trigger] self.fiat_events@[k])
            < self.events@.len() && self.events@[self.fiat_events@[k] as int].created_by is None
            && self.events@[self.fiat_events@[k] as int].destroyed_by is None
        &&& forall|k1: int, k2: int| 0 <= k1 < k2 < self.fiat_events@.len() ==> et_lt(
            self.events@[(#[trigger] self.fiat_events@[k1]) as int].time,
            self.events@[(#[trigger] self.fiat_events@[k2]) as int].time,
        )
    }

    /// What snapshot `k` can answer about cell `c` agrees with what it
    /// answered at its creation: through its own copy if it holds one, else
    /// through the live cell.
    pub open spec fn clone_ok(self, k: int, c: int) -> bool {
        let s = self.snapshots@[k];
        s.live ==> match s.clones@[c] {
            Option::Some(cl) => history_sorted(cl.changes@) && value_before(cl.changes@, s.time)
                == s.at_creation@[c].0 && value_at(cl.changes@, s.time) == s.at_creation@[c].1,
            Option::None => value_before(self.cells@[c].data.changes@, s.time)
                == s.at_creation@[c].0 && value_at(self.cells@[c].data.changes@, s.time)
                == s.at_creation@[c].1,
        }
    }

    /// Every snapshot's tables cover every cell, and answer for creation
    /// time.
    pub open spec fn snapshots_wf(self) -> bool {
        &&& forall|k: int| 0 <= k < self.snapshots@.len() ==> ((#[trigger] self.snapshots@[k]).clones@.len()
            == self.cells@.len() && self.snapshots@[k].at_creation@.len() == self.cells@.len())
        &&& forall|k: int, c: int|
            0 <= k < self.snapshots@.len() && 0 <= c < self.cells@.len() ==> #[trigger] self.clone_ok(
                k,
                c,
            )
    }

    /// Below a cell's snapshot counter, every live snapshot already holds its
    /// own copy of the cell.
    pub open spec fn cow_ok(self) -> bool {
        forall|k: int, c: int|
            0 <= c < self.cells@.len() && 0 <= k < (#[trigger] self.cells@[c]).first_snapshot_not_updated
                && (#[trigger] self.snapshots@[k]).live ==> self.snapshots@[k].clones@[c] is Some
    }

    /// The queue holds exactly the events needing attention, except that no
    /// claim is made about event `ev` (the one being worked on); `ev` itself
    /// is not queued.
    pub open spec fn queue_complete_except(self, ev: int) -> bool {
        &&& forall|i: int| 0 <= i < self.events@.len() && i != ev ==> (#[trigger] self.needs_attention(
            i,
        ) <==> self.in_queue(i))
        &&& !self.in_queue(ev)
    }

    /// Well-formedness while event `ev` is being worked on.
    pub open spec fn wf_except(self, ev: int) -> bool {
        &&& self.cells_wf()
        &&& self.events_wf()
        &&& self.queue_wf()
        &&& self.fiat_wf()
        &&& self.snapshots_wf()
        &&& self.cow_ok()
        &&& self.queue_complete_except(ev)
        &&& self.cells@.len() == self.globals.cell_count
    }

    /// Well-formedness at rest: as during work, with no event exempted.
    pub open spec fn wf(self) -> bool {
        self.wf_except(-1)
    }

    /// A new, empty steward over the given configuration.
    pub fn from_globals(globals: Globals) -> (r: Steward)
        ensures
            r.wf(),
            r.globals == globals,
            r.invalid_before == ValidSince::TheBeginning,
            r.events@.len() == 0,
            r.queue@.len() == 0,
            r.fiat_events@.len() == 0,
            r.snapshots@.len() == 0,
            r.cells@.len() == globals.cell_count,
            forall|c: int| 0 <= c < r.cells@.len() ==> (#[trigger] r.cells@[c]).data.changes@.len()
                == 0,
    {
        let mut cells: Vec<DataTimelineCell> = Vec::new();
        let mut c: usize = 0;
        while c < globals.cell_count
            invariant
                c <= globals.cell_count,
                cells@.len() == c,
                forall|i: int| 0 <= i < c ==> (#[trigger] cells@[i]).data.changes@.len() == 0
                    && cells@[i].first_snapshot_not_updated == 0,
            decreases globals.cell_count - c,
        {
            cells.push(DataTimelineCell { first_snapshot_not_updated: 0, data: SimpleTimeline::new() });
            c = c + 1;
        }
        Steward {
            globals,
            invalid_before: ValidSince::TheBeginning,
            events: Vec::new(),
            cells,
            queue: Vec::new(),
            fiat_events: Vec::new(),
            snapshots: Vec::new(),
        }
    }

    /// The lower bound on the base times at which fiat events may still be
    /// inserted or removed.
    pub fn valid_since(&self) -> (r: ValidSince)
        ensures
            r == self.invalid_before,
    {
        self.invalid_before
    }

    /// Whether event `i` stands in the fiat list.
    pub open spec fn in_fiat(self, i: int) -> bool {
        exists|k: int| 0 <= k < self.fiat_events@.len() && self.fiat_events@[k] == i
    }

    /// Whether some fiat event in the fiat list has extended time `t`.
    pub open spec fn has_fiat_at(self, t: ExtendedTime) -> bool {
        exists|k: int| 0 <= k < self.fiat_events@.len() && self.events@[self.fiat_events@[k] as int].time
            == t
    }

    /// The queue order compares any two distinct events one way.
    proof fn lemma_queue_order(self, i: int, j: int, k: int)
        requires
            0 <= i < self.events@.len(),
            0 <= j < self.events@.len(),
            0 <= k < self.events@.len(),
        ensures
            i != j ==> (self.queue_lt(i, j) || self.queue_lt(j, i)),
            !(self.queue_lt(i, j) && self.queue_lt(j, i)),
            self.queue_lt(i, j) && self.queue_lt(j, k) ==> self.queue_lt(i, k),
    {
        lemma_et_order(self.events@[i].time, self.events@[j].time, self.events@[k].time);
        lemma_et_order(self.events@[j].time, self.events@[i].time, self.events@[k].time);
        lemma_et_order(self.events@[j].time, self.events@[k].time, self.events@[i].time);
    }

    /// Whether event `i` comes before event `j` in queue order.
    fn event_order_lt(&self, i: usize, j: usize) -> (r: bool)
        requires
            i < self.events@.len(),
            j < self.events@.len(),
        ensures
            r == self.queue_lt(i as int, j as int),
    {
        let ti = self.events[i].time;
        let tj = self.events[j].time;
        ti.lt(&tj) || (ti.eq_time(&tj) && i < j)
    }

    /// Puts event `i`, not yet queued, into the attention queue at its place.
    fn queue_insert(&mut self, i: usize)
        requires
            old(self).queue_wf(),
            i < old(self).events@.len(),
            !old(self).in_queue(i as int),
        ensures
            final(self).queue_wf(),
            forall|j: int| final(self).in_queue(j) <==> (old(self).in_queue(j) || j == i),
            final(self).events == old(self).events,
            final(self).cells == old(self).cells,
            final(self).fiat_events == old(self).fiat_events,
            final(self).snapshots == old(self).snapshots,
            final(self).invalid_before == old(self).invalid_before,
            final(self).globals == old(self).globals,
            final(self).queue@.len() == old(self).queue@.len() + 1,
    {
        let ghost orig = self.queue@;
        let mut pos: usize = 0;
        while pos < self.queue.len() && self.event_order_lt(self.queue[pos], i)
            invariant
                pos <= self.queue@.len(),
                self.queue_wf(),
                i < self.events@.len(),
                forall|k: int| 0 <= k < pos ==> self.queue_lt(
                    (#[trigger] self.queue@[k]) as int,
                    i as int,
                ),
            decreases self.queue@.len() - pos,
        {
            pos = pos + 1;
        }
        proof {
            assert forall|k: int| pos <= k < self.queue@.len() implies self.queue_lt(
                i as int,
                (#[trigger] self.queue@[k]) as int,
            ) by {
                self.lemma_queue_order(self.queue@[pos as int] as int, self.queue@[k] as int, i as int);
                self.lemma_queue_order(i as int, self.queue@[pos as int] as int, self.queue@[k] as int);
                assert(self.queue@[k] != i);
            }
        }
        self.queue.insert(pos, i);
        proof {
            let q = self.queue@;
            assert forall|k1: int, k2: int| 0 <= k1 < k2 < q.len() implies self.queue_lt(
                (#[trigger] q[k1]) as int,
                (#[trigger] q[k2]) as int,
            ) by {
                if k2 < pos {
                    assert(q[k1] == orig[k1] && q[k2] == orig[k2]);
                } else if k1 > pos {
                    assert(q[k1] == orig[k1 - 1] && q[k2] == orig[k2 - 1]);
                } else if k2 == pos {
                    assert(q[k1] == orig[k1]);
                } else if k1 == pos {
                    assert(q[k2] == orig[k2 - 1]);
                } else {
                    assert(q[k1] == orig[k1] && q[k2] == orig[k2 - 1]);
                    self.lemma_queue_order(orig[k1] as int, i as int, orig[k2 - 1] as int);
                }
            }
            assert forall|j: int| final(self).in_queue(j) implies (old(self).in_queue(j) || j
                == i) by {
                let k = choose|k: int| 0 <= k < q.len() && q[k] == j;
                if k < pos {
                    assert(orig[k] == j);
                } else if k > pos {
                    assert(orig[k - 1] == j);
                }
            }
            assert forall|j: int| old(self).in_queue(j) || j == i implies final(self).in_queue(
                j,
            ) by {
                if j == i {
                    assert(q[pos as int] == i);
                } else {
                    let k = choose|k: int| 0 <= k < orig.len() && orig[k] == j;
                    if k < pos {
                        assert(q[k] == j);
                    } else {
                        assert(q[k + 1] == j);
                    }
                }
            }
        }
    }

    /// Takes event `i` out of the attention queue, if it is there.
    fn queue_remove(&mut self, i: usize)
        requires
            old(self).queue_wf(),
        ensures
            final(self).queue_wf(),
            forall|j: int| final(self).in_queue(j) <==> (old(self).in_queue(j) && j != i),
            final(self).events == old(self).events,
            final(self).cells == old(self).cells,
            final(self).fiat_events == old(self).fiat_events,
            final(self).snapshots == old(self).snapshots,
            final(self).invalid_before == old(self).invalid_before,
            final(self).globals == old(self).globals,
    {
        let ghost orig = self.queue@;
        let mut pos: usize = 0;
        while pos < self.queue.len() && self.queue[pos] != i
            invariant
                pos <= self.queue@.len(),
                forall|k: int| 0 <= k < pos ==> (#[trigger] self.queue@[k]) != i,
                self.queue@ == orig,
            decreases self.queue@.len() - pos,
        {
            pos = pos + 1;
        }
        if pos < self.queue.len() {
            self.queue.remove(pos);
            proof {
                let q = self.queue@;
                assert forall|k1: int, k2: int| 0 <= k1 < k2 < q.len() implies self.queue_lt(
                    (#[trigger] q[k1]) as int,
                    (#[trigger] q[k2]) as int,
                ) by {
                    if k1 >= pos {
                        assert(q[k1] == orig[k1 + 1] && q[k2] == orig[k2 + 1]);
                    } else if k2 >= pos {
                        assert(q[k1] == orig[k1] && q[k2] == orig[k2 + 1]);
                    } else {
                        assert(q[k1] == orig[k1] && q[k2] == orig[k2]);
                    }
                }
                assert forall|j: int| final(self).in_queue(j) implies (old(self).in_queue(j) && j
                    != i) by {
                    let k = choose|k: int| 0 <= k < q.len() && q[k] == j;
                    if k < pos {
                        assert(orig[k] == j);
                        if j == i {
                            assert(orig[k] == i);
                        }
                    } else {
                        assert(orig[k + 1] == j);
                        if j == i {
                            lemma_queue_wf_distinct(old(self), pos as int, k + 1);
                        }
                    }
                }
                assert forall|j: int| old(self).in_queue(j) && j != i implies final(self).in_queue(
                    j,
                ) by {
                    let k = choose|k: int| 0 <= k < orig.len() && orig[k] == j;
                    if k < pos {
                        assert(q[k] == j);
                    } else if k > pos {
                        assert(q[k - 1] == j);
                    }
                }
            }
        } else {
            proof {
                assert forall|j: int| old(self).in_queue(j) && j != i implies final(self).in_queue(
                    j,
                ) by {
                }
            }
        }
    }

    /// Puts event `i` into the fiat list; its extended time must be fresh
    /// there.
    fn fiat_insert(&mut self, i: usize)
        requires
            old(self).fiat_wf(),
            i < old(self).events@.len(),
            old(self).events@[i as int].created_by is None,
            old(self).events@[i as int].destroyed_by is None,
            !old(self).has_fiat_at(old(self).events@[i as int].time),
        ensures
            final(self).fiat_wf(),
            final(self).fiat_events@.len() == old(self).fiat_events@.len() + 1,
            forall|k: int| 0 <= k < final(self).fiat_events@.len() ==> (old(self).fiat_events@.contains(#[trigger] final(self).fiat_events@[k]) || final(self).fiat_events@[k] == i),
            final(self).fiat_events@.contains(i),
            forall|j: usize| old(self).fiat_events@.contains(j) ==> final(self).fiat_events@.contains(j),
            final(self).events == old(self).events,
            final(self).cells == old(self).cells,
            final(self).queue == old(self).queue,
            final(self).snapshots == old(self).snapshots,
            final(self).invalid_before == old(self).invalid_before,
            final(self).globals == old(self).globals,
    {
        let ghost orig = self.fiat_events@;
        let t = self.events[i].time;
        let mut pos: usize = 0;
        while pos < self.fiat_events.len() && self.events[self.fiat_events[pos]].time.lt(&t)
            invariant
                pos <= self.fiat_events@.len(),
                self.fiat_wf(),
                i < self.events@.len(),
                t == self.events@[i as int].time,
                forall|k: int| 0 <= k < pos ==> et_lt(
                    self.events@[(#[trigger] self.fiat_events@[k]) as int].time,
                    t,
                ),
            decreases self.fiat_events@.len() - pos,
        {
            pos = pos + 1;
        }
        proof {
            assert forall|k: int| pos <= k < self.fiat_events@.len() implies et_lt(
                t,
                self.events@[(#[trigger] self.fiat_events@[k]) as int].time,
            ) by {
                let tp = self.events@[self.fiat_events@[pos as int] as int].time;
                let tk = self.events@[self.fiat_events@[k] as int].time;
                assert(tk != t);
                lemma_et_order(tp, tk, t);
                lemma_et_order(t, tp, tk);
                lemma_et_order(tp, t, tk);
            }
        }
        self.fiat_events.insert(pos, i);
        proof {
            let f = self.fiat_events@;
            assert forall|k1: int, k2: int| 0 <= k1 < k2 < f.len() implies et_lt(
                self.events@[(#[trigger] f[k1]) as int].time,
                self.events@[(#[trigger] f[k2]) as int].time,
            ) by {
                if k2 < pos {
                    assert(f[k1] == orig[k1] && f[k2] == orig[k2]);
                } else if k1 > pos {
                    assert(f[k1] == orig[k1 - 1] && f[k2] == orig[k2 - 1]);
                } else if k2 == pos {
                    assert(f[k1] == orig[k1]);
                } else if k1 == pos {
                    assert(f[k2] == orig[k2 - 1]);
                } else {
                    assert(f[k1] == orig[k1] && f[k2] == orig[k2 - 1]);
                    lemma_et_order(
                        self.events@[orig[k1] as int].time,
                        t,
                        self.events@[orig[k2 - 1] as int].time,
                    );
                }
            }
            assert(f[pos as int] == i);
            assert forall|k: int| 0 <= k < f.len() implies (orig.contains(#[trigger] f[k]) || f[k]
                == i) by {
                if k < pos {
                    assert(orig[k] == f[k]);
                } else if k > pos {
                    assert(orig[k - 1] == f[k]);
                }
            }
            assert forall|j: usize| orig.contains(j) implies f.contains(j) by {
                let k = choose|k: int| 0 <= k < orig.len() && orig[k] == j;
                if k < pos {
                    assert(f[k] == j);
                } else {
                    assert(f[k + 1] == j);
                }
            }
        }
    }

    /// Inserts a fiat event to execute at `time` under the client-chosen
    /// `id`. Refused with `InvalidTime` when `time` is no longer permitted,
    /// and with `InvalidInput` when a fiat event with the same extended time
    /// is already present.
    #[verifier::loop_isolation(false)]
    pub fn insert_fiat_event(&mut self, time: i64, id: DeterministicRandomId, payload: Payload) -> (r:
        Result<(), FiatEventOperationError>)
        requires
            old(self).wf(),
        ensures
            final(self).wf(),
            r == Err::<(), FiatEventOperationError>(FiatEventOperationError::InvalidTime) <==> !old(self).invalid_before.permits(time),
            r == Err::<(), FiatEventOperationError>(FiatEventOperationError::InvalidInput) <==> (old(self).invalid_before.permits(time) && old(self).has_fiat_at(
                crate::common::spec_fiat_time(time, id),
            )),
            r is Err ==> *final(self) == *old(self),
            r is Ok ==> {
                &&& final(self).events@.len() == old(self).events@.len() + 1
                &&& final(self).events@ == old(self).events@.push(
                    EventRecord {
                        time: crate::common::spec_fiat_time(time, id),
                        payload,
                        should_be_executed: true,
                        created_by: None,
                        destroyed_by: None,
                        execution_state: None,
                    },
                )
                &&& final(self).in_queue(old(self).events@.len() as int)
                &&& (forall|j: int| #[trigger] final(self).in_queue(j) <==> (old(self).in_queue(j)
                    || j == old(self).events@.len()))
                &&& (forall|j: int| #[trigger] final(self).in_fiat(j) <==> (old(self).in_fiat(j)
                    || j == old(self).events@.len()))
                &&& final(self).cells == old(self).cells
                &&& final(self).snapshots == old(self).snapshots
                &&& final(self).invalid_before == old(self).invalid_before
            },
    {
        if !self.invalid_before.permits_time(time) {
            return Err(FiatEventOperationError::InvalidTime);
        }
        let et = extended_time_of_fiat_event(time, id);
        let mut k: usize = 0;
        while k < self.fiat_events.len()
            invariant
                k <= self.fiat_events@.len(),
                self.wf(),
                forall|j: int| 0 <= j < k ==> self.events@[(#[trigger] self.fiat_events@[j]) as int].time
                    != et,
            decreases self.fiat_events@.len() - k,
        {
            if self.events[self.fiat_events[k]].time.eq_time(&et) {
                return Err(FiatEventOperationError::InvalidInput);
            }
            k = k + 1;
        }
        let idx = self.events.len();
        self.events.push(
            EventRecord {
                time: et,
                payload,
                should_be_executed: true,
                created_by: None,
                destroyed_by: None,
                execution_state: None,
            },
        );
        proof {
            lemma_arena_grown(old(self), self);
            assert(!self.in_queue(idx as int));
            assert(!self.has_fiat_at(et));
        }
        let ghost pushed = *self;
        self.fiat_insert(idx);
        let ghost listed = *self;
        self.queue_insert(idx);
        proof {
            lemma_queue_membership(&pushed, &listed);
            assert forall|j: int| #[trigger] final(self).in_queue(j) implies (old(self).in_queue(j)
                || j == idx) by {
                assert(listed.in_queue(j) || j == idx);
                assert(pushed.in_queue(j) || j == idx);
            }
            assert forall|j: int| old(self).in_queue(j) || j == idx implies #[trigger] final(self).in_queue(j) by {
                if j != idx {
                    assert(pushed.in_queue(j));
                    assert(listed.in_queue(j));
                }
            }
            assert forall|j: int| #[trigger] final(self).in_fiat(j) implies (old(self).in_fiat(j)
                || j == idx) by {
                let k = choose|k: int|
                    0 <= k < self.fiat_events@.len() && self.fiat_events@[k] == j;
                if j != idx {
                    assert(pushed.fiat_events@.contains(j as usize) || self.fiat_events@[k]
                        == idx);
                    let k0 = choose|k0: int|
                        0 <= k0 < pushed.fiat_events@.len() && pushed.fiat_events@[k0] == j;
                    assert(old(self).fiat_events@[k0] == j);
                }
            }
            assert forall|j: int| old(self).in_fiat(j) || j == idx implies #[trigger] final(self).in_fiat(j) by {
                if j == idx {
                    assert(self.fiat_events@.contains(idx));
                    let k = choose|k: int|
                        0 <= k < self.fiat_events@.len() && self.fiat_events@[k] == idx;
                } else {
                    let k0 = choose|k0: int|
                        0 <= k0 < old(self).fiat_events@.len() && old(self).fiat_events@[k0] == j;
                    assert(pushed.fiat_events@[k0] == j);
                    assert(pushed.fiat_events@.contains(j as usize));
                    assert(self.fiat_events@.contains(j as usize));
                    let k = choose|k: int|
                        0 <= k < self.fiat_events@.len() && self.fiat_events@[k] == j as usize;
                }
            }
        }
        proof {
            assert forall|i: int| 0 <= i < final(self).events@.len() && i != -1 implies (
            #[trigger] final(self).needs_attention(i) <==> final(self).in_queue(i)) by {
                if i < old(self).events@.len() {
                    assert(final(self).events@[i] == old(self).events@[i]);
                    assert(old(self).needs_attention(i) <==> old(self).in_queue(i));
                }
            }
        }
        proof {
            assert forall|k: int, c: int|
                0 <= k < self.snapshots@.len() && 0 <= c < self.cells@.len() implies #[trigger] self.clone_ok(
                k,
                c,
            ) by {
                assert(old(self).clone_ok(k, c));
            }
        }
        Ok(())
    }

    /// Whether event `i` currently stands in the attention queue.
    fn queue_contains(&self, i: usize) -> (r: bool)
        ensures
            r == self.in_queue(i as int),
    {
        let mut k: usize = 0;
        while k < self.queue.len()
            invariant
                k <= self.queue@.len(),
                forall|j: int| 0 <= j < k ==> (#[trigger] self.queue@[j]) != i,
            decreases self.queue@.len() - k,
        {
            if self.queue[k] == i {
                return true;
            }
            k = k + 1;
        }
        proof {
            if self.in_queue(i as int) {
                let j = choose|j: int| 0 <= j < self.queue@.len() && self.queue@[j] == i;
                assert(self.queue@[j] != i);
            }
        }
        false
    }

    /// Removes the fiat event inserted at `time` under `id`. Refused with
    /// `InvalidTime` when `time` is no longer permitted, and with
    /// `InvalidInput` when no such fiat event is present. The removed event
    /// stops being meant to execute; an execution of it that already stands
    /// is undone when the steward next reaches it.
    #[verifier::loop_isolation(false)]
    pub fn remove_fiat_event(&mut self, time: i64, id: DeterministicRandomId) -> (r: Result<
        (),
        FiatEventOperationError,
    >)
        requires
            old(self).wf(),
        ensures
            final(self).wf(),
            r == Err::<(), FiatEventOperationError>(FiatEventOperationError::InvalidTime) <==> !old(self).invalid_before.permits(time),
            r == Err::<(), FiatEventOperationError>(FiatEventOperationError::InvalidInput) <==> (old(self).invalid_before.permits(time) && !old(self).has_fiat_at(
                crate::common::spec_fiat_time(time, id),
            )),
            r is Err ==> *final(self) == *old(self),
            r is Ok ==> (exists|p: int|
                {
                    &&& 0 <= p < old(self).events@.len()
                    &&& old(self).fiat_events@.contains(p as usize)
                    &&& old(self).events@[p].time == crate::common::spec_fiat_time(time, id)
                    &&& final(self).events@ == old(self).events@.update(
                        p,
                        (EventRecord {
                            should_be_executed: false,
                            ..old(self).events@[p]
                        }),
                    )
                    &&& (forall|j: int| #[trigger] final(self).in_fiat(j) <==> (old(self).in_fiat(
                        j,
                    ) && j != p))
                    &&& (forall|j: int| j != p ==> (#[trigger] final(self).in_queue(j) <==> old(self).in_queue(j)))
                    &&& (final(self).in_queue(p) <==> old(self).events@[p].execution_state is Some)
                }),
            r is Ok ==> final(self).cells == old(self).cells && final(self).snapshots == old(self).snapshots && final(self).invalid_before == old(self).invalid_before,
    {
        if !self.invalid_before.permits_time(time) {
            return Err(FiatEventOperationError::InvalidTime);
        }
        let et = extended_time_of_fiat_event(time, id);
        let mut k: usize = 0;
        while k < self.fiat_events.len()
            invariant
                *self == *old(self),
                k <= self.fiat_events@.len(),
                forall|j: int| 0 <= j < k ==> self.events@[(#[trigger] self.fiat_events@[j]) as int].time
                    != et,
            decreases self.fiat_events@.len() - k,
        {
            if self.events[self.fiat_events[k]].time.eq_time(&et) {
                let p = self.fiat_events[k];
                let ghost mid0 = *self;
                self.fiat_events.remove(k);
                proof {
                    let f = self.fiat_events@;
                    let orig = mid0.fiat_events@;
                    assert forall|k1: int, k2: int| 0 <= k1 < k2 < f.len() implies et_lt(
                        self.events@[(#[trigger] f[k1]) as int].time,
                        self.events@[(#[trigger] f[k2]) as int].time,
                    ) by {
                        if k1 >= k {
                            assert(f[k1] == orig[k1 + 1] && f[k2] == orig[k2 + 1]);
                        } else if k2 >= k {
                            assert(f[k1] == orig[k1] && f[k2] == orig[k2 + 1]);
                        } else {
                            assert(f[k1] == orig[k1] && f[k2] == orig[k2]);
                        }
                    }
                }
                let rec = &mut self.events[p];
                rec.should_be_executed = false;
                let has_execution = self.events[p].execution_state.is_some();
                proof {
                    lemma_record_replaced(&mid0, self, p as int);
                }
                if has_execution {
                    if !self.queue_contains(p) {
                        self.queue_insert(p);
                    }
                } else {
                    self.queue_remove(p);
                }
                proof {
                    assert forall|i: int|
                        0 <= i < self.events@.len() && i != -1 implies (#[trigger] self.needs_attention(
                        i,
                    ) <==> self.in_queue(i)) by {
                        if i != p {
                            assert(self.events@[i] == old(self).events@[i]);
                            assert(old(self).needs_attention(i) <==> old(self).in_queue(i));
                        }
                    }
                    assert forall|k2: int, c: int|
                        0 <= k2 < self.snapshots@.len() && 0 <= c < self.cells@.len() implies #[trigger] self.clone_ok(
                        k2,
                        c,
                    ) by {
                        assert(old(self).clone_ok(k2, c));
                    }
                    assert(old(self).fiat_events@.contains(p as usize)) by {
                        assert(old(self).fiat_events@[k as int] == p);
                    }
                    let f = self.fiat_events@;
                    let orig = old(self).fiat_events@;
                    assert forall|j: int| #[trigger] self.in_fiat(j) implies (old(self).in_fiat(j)
                        && j != p) by {
                        let k2 = choose|k2: int| 0 <= k2 < f.len() && f[k2] == j;
                        if k2 < k {
                            assert(orig[k2] == j);
                            if j == p {
                                lemma_fiat_wf_distinct(old(self), k2, k as int);
                            }
                        } else {
                            assert(orig[k2 + 1] == j);
                            if j == p {
                                lemma_fiat_wf_distinct(old(self), k as int, k2 + 1);
                            }
                        }
                    }
                    assert forall|j: int| old(self).in_fiat(j) && j != p implies #[trigger] self.in_fiat(
                        j,
                    ) by {
                        let k2 = choose|k2: int| 0 <= k2 < orig.len() && orig[k2] == j;
                        if k2 < k {
                            assert(f[k2] == j);
                        } else if k2 > k {
                            assert(f[k2 - 1] == j);
                        }
                    }
                    assert forall|j: int| j != p implies (#[trigger] self.in_queue(j) <==> old(self).in_queue(j)) by {
                        assert(mid0.in_queue(j) == old(self).in_queue(j));
                    }
                    assert(self.in_queue(p as int) <==> old(self).events@[p as int].execution_state is Some) by {
                        if old(self).events@[p as int].execution_state is Some {
                        } else {
                            assert(!self.in_queue(p as int));
                        }
                    }
                }
                return Ok(());
            }
            k = k + 1;
        }
        proof {
            if self.has_fiat_at(et) {
                let j = choose|j: int|
                    0 <= j < self.fiat_events@.len() && self.events@[self.fiat_events@[j] as int].time
                        == et;
                assert(self.events@[self.fiat_events@[j] as int].time != et);
            }
        }
        Err(FiatEventOperationError::InvalidInput)
    }

    /// Before cell `c` changes, hands every live snapshot that does not yet
    /// hold its own copy of `c` one, and notes that all current snapshots
    /// are covered.
    fn cow_update(&mut self, c: usize)
        requires
            old(self).cells_wf(),
            old(self).snapshots_wf(),
            old(self).cow_ok(),
            c < old(self).cells@.len(),
        ensures
            final(self).cells_wf(),
            final(self).snapshots_wf(),
            final(self).cow_ok(),
            final(self).cells@ == old(self).cells@.update(
                c as int,
                (DataTimelineCell {
                    first_snapshot_not_updated: old(self).snapshots@.len() as usize,
                    data: old(self).cells@[c as int].data,
                }),
            ),
            final(self).snapshots@.len() == old(self).snapshots@.len(),
            forall|k: int| 0 <= k < final(self).snapshots@.len() ==> {
                let sn = #[trigger] final(self).snapshots@[k];
                let so = old(self).snapshots@[k];
                sn.live == so.live && sn.time == so.time && sn.at_creation == so.at_creation
                    && sn.clones@.len() == so.clones@.len()
            },
            forall|k: int, c2: int|
                0 <= k < final(self).snapshots@.len() && 0 <= c2 < old(self).cells@.len() && c2 != c
                    ==> (#[trigger] final(self).snapshots@[k].clones@[c2]) == old(self).snapshots@[k].clones@[c2],
            forall|k: int| 0 <= k < final(self).snapshots@.len() && (#[trigger] final(self).snapshots@[k]).live ==> final(self).snapshots@[k].clones@[c as int] is Some,
            forall|k: int| 0 <= k < final(self).snapshots@.len() && (#[trigger] old(self).snapshots@[k].clones@[c as int]) is Some ==> final(self).snapshots@[k].clones@[c as int] == old(self).snapshots@[k].clones@[c as int],
            final(self).events == old(self).events,
            final(self).queue == old(self).queue,
            final(self).fiat_events == old(self).fiat_events,
            final(self).invalid_before == old(self).invalid_before,
            final(self).globals == old(self).globals,
    {
        let total = self.snapshots.len();
        let mut k: usize = self.cells[c].first_snapshot_not_updated;
        while k < total
            invariant
                self.cells_wf(),
                self.snapshots_wf(),
                self.cow_ok(),
                c < self.cells@.len(),
                total == self.snapshots@.len(),
                old(self).cells@[c as int].first_snapshot_not_updated <= k <= total,
                self.cells@ == old(self).cells@,
                self.events == old(self).events,
                self.queue == old(self).queue,
                self.fiat_events == old(self).fiat_events,
                self.invalid_before == old(self).invalid_before,
                self.globals == old(self).globals,
                self.snapshots@.len() == old(self).snapshots@.len(),
                forall|k2: int| 0 <= k2 < self.snapshots@.len() ==> {
                    let sn = #[trigger] self.snapshots@[k2];
                    let so = old(self).snapshots@[k2];
                    sn.live == so.live && sn.time == so.time && sn.at_creation == so.at_creation
                        && sn.clones@.len() == so.clones@.len()
                },
                forall|k2: int, c2: int|
                    0 <= k2 < self.snapshots@.len() && 0 <= c2 < self.cells@.len() && c2 != c ==> (
                    #[trigger] self.snapshots@[k2].clones@[c2]) == old(self).snapshots@[k2].clones@[c2],
                forall|k2: int|
                    old(self).cells@[c as int].first_snapshot_not_updated <= k2 < k && (
                    #[trigger] self.snapshots@[k2]).live ==> self.snapshots@[k2].clones@[c as int] is Some,
                forall|k2: int|
                    0 <= k2 < self.snapshots@.len() && (#[trigger] old(self).snapshots@[k2].clones@[c as int]) is Some ==> self.snapshots@[k2].clones@[c as int] == old(self).snapshots@[k2].clones@[c as int],
            decreases total - k,
        {
            let live = self.snapshots[k].live;
            let missing = self.snapshots[k].clones[c].is_none();
            if live && missing {
                let time_k = self.snapshots[k].time;
                let ghost before = *self;
                let cl = self.cells[c].data.clone_for_snapshot(&time_k);
                let snap = &mut self.snapshots[k];
                snap.clones[c] = Some(cl);
                proof {
                    assert(before.clone_ok(k as int, c as int));
                    assert forall|k2: int, c2: int|
                        0 <= k2 < self.snapshots@.len() && 0 <= c2 < self.cells@.len() implies #[trigger] self.clone_ok(
                        k2,
                        c2,
                    ) by {
                        if k2 == k && c2 == c {
                            assert(history_sorted(cl.changes@));
                        } else {
                            assert(before.clone_ok(k2, c2));
                            assert(self.snapshots@[k2].clones@[c2] == before.snapshots@[k2].clones@[c2]);
                        }
                    }
                    assert forall|k2: int, c2: int|
                        0 <= c2 < self.cells@.len() && 0 <= k2 < (
                        #[trigger] self.cells@[c2]).first_snapshot_not_updated && (
                        #[trigger] self.snapshots@[k2]).live implies self.snapshots@[k2].clones@[c2] is Some by {
                        assert(before.snapshots@[k2].clones@[c2] is Some);
                    }
                }
            }
            k = k + 1;
        }
        let ghost loopend = *self;
        let cell = &mut self.cells[c];
        cell.first_snapshot_not_updated = total;
        proof {
            assert forall|k2: int, c2: int|
                0 <= k2 < self.snapshots@.len() && 0 <= c2 < self.cells@.len() implies #[trigger] self.clone_ok(
                k2,
                c2,
            ) by {
                assert(loopend.clone_ok(k2, c2));
                assert(self.cells@[c2].data == loopend.cells@[c2].data);
            }
            assert forall|k2: int, c2: int|
                0 <= c2 < self.cells@.len() && 0 <= k2 < (
                #[trigger] self.cells@[c2]).first_snapshot_not_updated && (
                #[trigger] self.snapshots@[k2]).live implies self.snapshots@[k2].clones@[c2] is Some by {
                if c2 != c {
                    assert(loopend.cells@[c2].first_snapshot_not_updated == self.cells@[c2].first_snapshot_not_updated);
                    assert(loopend.snapshots@[k2].clones@[c2] is Some);
                }
            }
            assert(final(self).cells@ =~= old(self).cells@.update(
                c as int,
                (DataTimelineCell {
                    first_snapshot_not_updated: old(self).snapshots@.len() as usize,
                    data: old(self).cells@[c as int].data,
                }),
            ));
        }
    }

    /// Whether the attention queue holds an event with extended time `t`.
    pub open spec fn has_queued_at(self, t: ExtendedTime) -> bool {
        exists|k: int| 0 <= k < self.queue@.len() && self.events@[self.queue@[k] as int].time == t
    }

    /// What the event at `ev` observes of cell `c` at its own moment, from
    /// immediately before or after it. Reads only; cannot disturb anything.
    pub fn query(&self, ev: usize, c: usize, offset: QueryOffset) -> (r: Option<Motion>)
        requires
            ev < self.events@.len(),
            c < self.cells@.len(),
        ensures
            r == queried(self.cells@[c as int].data.changes@, self.events@[ev as int].time, offset),
    {
        let time = self.events[ev].time;
        self.cells[c].data.query(&time, offset)
    }

    /// The event at `ev` changes cell `c` to `value`, at its own moment.
    /// Before the change, every open snapshot from the cell's
    /// first-not-updated counter on receives its own pre-change copy of the
    /// cell (copies already held are kept), and the counter moves to the end
    /// of the snapshot registry; the change slot the cell had at that moment
    /// is journalled so the change can be taken back.
    pub fn modify(&mut self, ev: usize, c: usize, value: Motion, journal: &mut Vec<UndoOp>) -> (
        r: ())
        requires
            old(self).wf_except(ev as int),
            ev < old(self).events@.len(),
            c < old(self).cells@.len(),
        ensures
            final(self).wf_except(ev as int),
            forall|k: int| 0 <= k < final(self).snapshots@.len() && (#[trigger] final(self).snapshots@[k]).live ==> final(self).snapshots@[k].clones@[c as int] is Some,
            forall|k: int| 0 <= k < final(self).snapshots@.len() && (#[trigger] old(self).snapshots@[k].clones@[c as int]) is Some ==> final(self).snapshots@[k].clones@[c as int]
                == old(self).snapshots@[k].clones@[c as int],
            final(self).cells@[c as int].first_snapshot_not_updated == final(self).snapshots@.len(),
            final(journal)@ == old(journal)@.push(
                UndoOp::Modify {
                    cell: c,
                    prev: entry_at(
                        old(self).cells@[c as int].data.changes@,
                        old(self).events@[ev as int].time,
                    ),
                },
            ),
            entry_at(final(self).cells@[c as int].data.changes@, old(self).events@[ev as int].time)
                == Some(value),
            forall|u: ExtendedTime| u != old(self).events@[ev as int].time ==> #[trigger] entry_at(
                final(self).cells@[c as int].data.changes@,
                u,
            ) == entry_at(old(self).cells@[c as int].data.changes@, u),
            forall|c2: int| 0 <= c2 < old(self).cells@.len() && c2 != c ==> (
            #[trigger] final(self).cells@[c2]).data == old(self).cells@[c2].data,
            final(self).events == old(self).events,
            final(self).queue == old(self).queue,
            final(self).fiat_events == old(self).fiat_events,
            final(self).invalid_before == old(self).invalid_before,
            final(self).globals == old(self).globals,
            final(self).snapshots@.len() == old(self).snapshots@.len(),
            forall|k: int| 0 <= k < final(self).snapshots@.len() ==> {
                let sn = #[trigger] final(self).snapshots@[k];
                let so = old(self).snapshots@[k];
                sn.live == so.live && sn.time == so.time && sn.at_creation == so.at_creation
            },
            final(self).cells@.len() == old(self).cells@.len(),
    {
        let registry_len = self.snapshots.len();
        self.cow_update(c);
        let ghost cowed = *self;
        let time = self.events[ev].time;
        let prev = self.cells[c].data.get_entry(&time);
        journal.push(UndoOp::Modify { cell: c, prev });
        let cell = &mut self.cells[c];
        cell.data.set_entry(&time, value);
        proof {
            assert(cowed.cells@[c as int] == old(self).cells@.update(
                c as int,
                (DataTimelineCell {
                    first_snapshot_not_updated: old(self).snapshots@.len() as usize,
                    data: old(self).cells@[c as int].data,
                }),
            )[c as int]);
            assert(registry_len == old(self).snapshots@.len());
            assert(cowed.cells@[c as int].first_snapshot_not_updated == registry_len);
            assert(self.cells@[c as int].first_snapshot_not_updated == cowed.cells@[c as int].first_snapshot_not_updated);
            assert(self.snapshots@.len() == cowed.snapshots@.len());
            assert forall|c2: int| 0 <= c2 < self.cells@.len() implies history_sorted(
                (#[trigger] self.cells@[c2]).data.changes@,
            ) && self.cells@[c2].first_snapshot_not_updated <= self.snapshots@.len() by {
                if c2 != c {
                    assert(self.cells@[c2] == cowed.cells@[c2]);
                }
            }
            lemma_frame(old(self), self);
            assert forall|k2: int, c2: int|
                0 <= k2 < self.snapshots@.len() && 0 <= c2 < self.cells@.len() implies #[trigger] self.clone_ok(
                k2,
                c2,
            ) by {
                assert(cowed.clone_ok(k2, c2));
                if c2 != c {
                    assert(self.snapshots@[k2].clones@[c2] == cowed.snapshots@[k2].clones@[c2]);
                    assert(self.cells@[c2].data == cowed.cells@[c2].data);
                } else {
                    if self.snapshots@[k2].live {
                        assert(cowed.snapshots@[k2].clones@[c2] is Some);
                    }
                }
            }
            assert forall|k2: int, c2: int|
                0 <= c2 < self.cells@.len() && 0 <= k2 < (
                #[trigger] self.cells@[c2]).first_snapshot_not_updated && (
                #[trigger] self.snapshots@[k2]).live implies self.snapshots@[k2].clones@[c2] is Some by {
                assert(self.cells@[c2].first_snapshot_not_updated == cowed.cells@[c2].first_snapshot_not_updated);
                assert(cowed.snapshots@[k2].clones@[c2] is Some);
            }
        }
    }

    /// While undoing the event at `ev`, puts the change slot cell `c` had at
    /// that event's moment back to `prev`. Live snapshots are guarded first,
    /// exactly as for a forward change.
    fn restore_cell(&mut self, ev: usize, c: usize, prev: Option<Motion>)
        requires
            old(self).wf_except(ev as int),
            ev < old(self).events@.len(),
            c < old(self).cells@.len(),
        ensures
            final(self).wf_except(ev as int),
            entry_at(final(self).cells@[c as int].data.changes@, old(self).events@[ev as int].time)
                == prev,
            forall|u: ExtendedTime| u != old(self).events@[ev as int].time ==> #[trigger] entry_at(
                final(self).cells@[c as int].data.changes@,
                u,
            ) == entry_at(old(self).cells@[c as int].data.changes@, u),
            forall|c2: int| 0 <= c2 < old(self).cells@.len() && c2 != c ==> (
            #[trigger] final(self).cells@[c2]).data == old(self).cells@[c2].data,
            final(self).events == old(self).events,
            final(self).queue == old(self).queue,
            final(self).fiat_events == old(self).fiat_events,
            final(self).invalid_before == old(self).invalid_before,
            final(self).globals == old(self).globals,
            final(self).snapshots@.len() == old(self).snapshots@.len(),
            forall|k: int| 0 <= k < final(self).snapshots@.len() ==> {
                let sn = #[trigger] final(self).snapshots@[k];
                let so = old(self).snapshots@[k];
                sn.live == so.live && sn.time == so.time && sn.at_creation == so.at_creation
            },
            final(self).cells@.len() == old(self).cells@.len(),
    {
        let registry_len = self.snapshots.len();
        self.cow_update(c);
        let ghost cowed = *self;
        let time = self.events[ev].time;
        let cell = &mut self.cells[c];
        cell.data.restore_entry(&time, prev);
        proof {
            assert forall|c2: int| 0 <= c2 < self.cells@.len() implies history_sorted(
                (#[trigger] self.cells@[c2]).data.changes@,
            ) && self.cells@[c2].first_snapshot_not_updated <= self.snapshots@.len() by {
                if c2 != c {
                    assert(self.cells@[c2] == cowed.cells@[c2]);
                }
            }
            lemma_frame(old(self), self);
            assert forall|k2: int, c2: int|
                0 <= k2 < self.snapshots@.len() && 0 <= c2 < self.cells@.len() implies #[trigger] self.clone_ok(
                k2,
                c2,
            ) by {
                assert(cowed.clone_ok(k2, c2));
                if c2 != c {
                    assert(self.snapshots@[k2].clones@[c2] == cowed.snapshots@[k2].clones@[c2]);
                    assert(self.cells@[c2].data == cowed.cells@[c2].data);
                } else {
                    if self.snapshots@[k2].live {
                        assert(cowed.snapshots@[k2].clones@[c2] is Some);
                    }
                }
            }
            assert forall|k2: int, c2: int|
                0 <= c2 < self.cells@.len() && 0 <= k2 < (
                #[trigger] self.cells@[c2]).first_snapshot_not_updated && (
                #[trigger] self.snapshots@[k2]).live implies self.snapshots@[k2].clones@[c2] is Some by {
                assert(self.cells@[c2].first_snapshot_not_updated == cowed.cells@[c2].first_snapshot_not_updated);
                assert(cowed.snapshots@[k2].clones@[c2] is Some);
            }
        }
    }

    /// Reverses everything a journalled execution of the event at `ev` did:
    /// cell changes are put back slot by slot in reverse order, created
    /// predictions are retired, and destroyed predictions get their old
    /// destruction state back. Whatever the reversal leaves needing
    /// attention is queued; everything it queues lies strictly after `ev`.
    fn apply_undo(&mut self, ev: usize, journal: &Vec<UndoOp>)
        requires
            old(self).wf_except(ev as int),
            ev < old(self).events@.len(),
            forall|j: int| 0 <= j < journal@.len() ==> old(self).op_wf(
                ev as int,
                #[trigger] journal@[j],
            ),
        ensures
            final(self).wf_except(ev as int),
            forall|c: int| 0 <= c < old(self).cells@.len() ==> match first_modify_prev(
                journal@,
                c,
            ) {
                Option::Some(prev) => entry_at(
                    (#[trigger] final(self).cells@[c]).data.changes@,
                    old(self).events@[ev as int].time,
                ) == prev,
                Option::None => final(self).cells@[c].data == old(self).cells@[c].data,
            },
            forall|c: int, u: ExtendedTime|
                0 <= c < old(self).cells@.len() && u != old(self).events@[ev as int].time
                    ==> #[trigger] entry_at((final(self).cells@[c]).data.changes@, u) == entry_at(
                    old(self).cells@[c].data.changes@,
                    u,
                ),
            forall|i: int| 0 <= i < old(self).events@.len() && !journal_mentions(journal@, i)
                ==> #[trigger] final(self).events@[i] == old(self).events@[i],
            final(self).events@.len() == old(self).events@.len(),
            forall|j: int| j != ev && !journal_mentions(journal@, j) ==> (#[trigger] final(self).in_queue(j) <==> old(self).in_queue(j)),
            forall|j: int| #[trigger] final(self).in_queue(j) && !old(self).in_queue(j) ==> 0 <= j
                < old(self).events@.len() && et_lt(
                old(self).events@[ev as int].time,
                final(self).events@[j].time,
            ),
            final(self).fiat_events == old(self).fiat_events,
            final(self).invalid_before == old(self).invalid_before,
            final(self).globals == old(self).globals,
            final(self).snapshots@.len() == old(self).snapshots@.len(),
            forall|k: int| 0 <= k < final(self).snapshots@.len() ==> {
                let sn = #[trigger] final(self).snapshots@[k];
                let so = old(self).snapshots@[k];
                sn.live == so.live && sn.time == so.time && sn.at_creation == so.at_creation
            },
            final(self).cells@.len() == old(self).cells@.len(),
            forall|i: int| 0 <= i < old(self).events@.len() ==> {
                let rn = #[trigger] final(self).events@[i];
                let ro = old(self).events@[i];
                rn.time == ro.time && rn.payload == ro.payload && rn.created_by == ro.created_by
                    && rn.execution_state == ro.execution_state
            },
            old(self).events@[ev as int].should_be_executed ==> final(self).events@[ev as int].should_be_executed,
    {
        let ghost tau = old(self).events@[ev as int].time;
        let mut i: usize = journal.len();
        while i > 0
            invariant
                self.wf_except(ev as int),
                ev < self.events@.len(),
                i <= journal@.len(),
                self.events@.len() == old(self).events@.len(),
                self.events@[ev as int].time == tau,
                forall|j: int| 0 <= j < journal@.len() ==> self.op_wf(
                    ev as int,
                    #[trigger] journal@[j],
                ),
                forall|c: int| 0 <= c < old(self).cells@.len() ==> match first_modify_prev(
                    journal@.subrange(i as int, journal@.len() as int),
                    c,
                ) {
                    Option::Some(prev) => entry_at(
                        (#[trigger] self.cells@[c]).data.changes@,
                        tau,
                    ) == prev,
                    Option::None => self.cells@[c].data == old(self).cells@[c].data,
                },
                forall|c: int, u: ExtendedTime|
                    0 <= c < old(self).cells@.len() && u != tau ==> #[trigger] entry_at(
                        (self.cells@[c]).data.changes@,
                        u,
                    ) == entry_at(old(self).cells@[c].data.changes@, u),
                forall|i2: int|
                    0 <= i2 < old(self).events@.len() && !journal_mentions(journal@, i2)
                        ==> #[trigger] self.events@[i2] == old(self).events@[i2],
                forall|j: int| j != ev && !journal_mentions(journal@, j) ==> (#[trigger] self.in_queue(
                    j,
                ) <==> old(self).in_queue(j)),
                forall|j: int| #[trigger] self.in_queue(j) && !old(self).in_queue(j) ==> 0 <= j
                    < old(self).events@.len() && et_lt(tau, self.events@[j].time),
                self.fiat_events == old(self).fiat_events,
                self.invalid_before == old(self).invalid_before,
                self.globals == old(self).globals,
                self.snapshots@.len() == old(self).snapshots@.len(),
                forall|k: int| 0 <= k < self.snapshots@.len() ==> {
                    let sn = #[trigger] self.snapshots@[k];
                    let so = old(self).snapshots@[k];
                    sn.live == so.live && sn.time == so.time && sn.at_creation == so.at_creation
                },
                self.cells@.len() == old(self).cells@.len(),
                forall|i2: int| 0 <= i2 < old(self).events@.len() ==> {
                    let rn = #[trigger] self.events@[i2];
                    let ro = old(self).events@[i2];
                    rn.time == ro.time && rn.payload == ro.payload && rn.created_by
                        == ro.created_by && rn.execution_state == ro.execution_state
                },
                old(self).events@[ev as int].should_be_executed ==> self.events@[ev as int].should_be_executed,
            decreases i,
        {
            let ghost before = *self;
            let op = journal[i - 1];
            match op {
                UndoOp::Modify { cell, prev } => {
                    self.restore_cell(ev, cell, prev);
                },
                UndoOp::Create { prediction } => {
                    self.restore_destroyed(ev, prediction, Some(ev), false);
                },
                UndoOp::Destroy { prediction, prev_destroyed_by, prev_should } => {
                    let ours = match self.events[prediction].destroyed_by {
                        Some(d) => d == ev,
                        None => false,
                    };
                    if ours {
                        if prediction == ev {
                            self.restore_destroyed(ev, prediction, prev_destroyed_by, true);
                        } else {
                            self.restore_destroyed(ev, prediction, prev_destroyed_by, prev_should);
                        }
                    }
                },
            }
            proof {
                assert(journal@.subrange(i - 1, journal@.len() as int).subrange(
                    1,
                    journal@.len() - (i - 1),
                ) =~= journal@.subrange(i as int, journal@.len() as int));
                assert(journal@.subrange(i - 1, journal@.len() as int)[0] == op);
                assert forall|j: int| 0 <= j < journal@.len() implies self.op_wf(
                    ev as int,
                    #[trigger] journal@[j],
                ) by {
                    assert(before.op_wf(ev as int, journal@[j]));
                    match journal@[j] {
                        UndoOp::Modify { cell, prev } => {},
                        UndoOp::Create { prediction } => {
                            assert(self.events@[prediction as int].created_by == before.events@[prediction as int].created_by);
                        },
                        UndoOp::Destroy { prediction, prev_destroyed_by, prev_should } => {
                            assert(self.events@[prediction as int].created_by == before.events@[prediction as int].created_by);
                            assert(self.events@[prediction as int].time == before.events@[prediction as int].time);
                        },
                    }
                }
                match op {
                    UndoOp::Modify { cell, prev } => {
                        assert forall|c: int|
                            0 <= c < old(self).cells@.len() implies match first_modify_prev(
                            journal@.subrange(i - 1, journal@.len() as int),
                            c,
                        ) {
                            Option::Some(p2) => entry_at(
                                (#[trigger] self.cells@[c]).data.changes@,
                                tau,
                            ) == p2,
                            Option::None => self.cells@[c].data == old(self).cells@[c].data,
                        } by {
                            if c != cell {
                                assert(self.cells@[c].data == before.cells@[c].data);
                            }
                        }
                    },
                    UndoOp::Create { prediction } => {
                        assert(self.events@[prediction as int].destroyed_by == Some(ev));
                    },
                    UndoOp::Destroy { prediction, prev_destroyed_by, prev_should } => {},
                }
                assert forall|j: int| j != ev && !journal_mentions(journal@, j) implies (
                #[trigger] self.in_queue(j) <==> old(self).in_queue(j)) by {
                    assert(journal@[i - 1] == op);
                    assert(before.in_queue(j) <==> old(self).in_queue(j));
                    match op {
                        UndoOp::Modify { cell, prev } => {
                            assert(self.queue@ == before.queue@);
                        },
                        UndoOp::Create { prediction } => {
                            assert(j != prediction);
                            assert(self.in_queue(j) <==> before.in_queue(j));
                        },
                        UndoOp::Destroy { prediction, prev_destroyed_by, prev_should } => {
                            assert(j != prediction);
                            assert(self.in_queue(j) <==> before.in_queue(j));
                        },
                    }
                }
                assert forall|j: int| #[trigger] self.in_queue(j) && !old(self).in_queue(j)
                    implies 0 <= j < old(self).events@.len() && et_lt(
                    tau,
                    self.events@[j].time,
                ) by {
                    if !before.in_queue(j) {
                        match op {
                            UndoOp::Modify { cell, prev } => {},
                            UndoOp::Create { prediction } => {
                                assert(j == prediction);
                            },
                            UndoOp::Destroy { prediction, prev_destroyed_by, prev_should } => {
                                assert(j == prediction);
                            },
                        }
                    }
                }
            }
            i = i - 1;
        }
        proof {
            assert(journal@.subrange(0, journal@.len() as int) =~= journal@);
        }
    }

    /// The event at `ev` predicts a new event: at base time `base` (not
    /// before its own), under identifier `id`, with the given payload. The
    /// new event is queued and journalled; its extended time follows the
    /// prediction rule, climbing the iteration counter at an unchanged base
    /// time until `MAX_ITERATION` stops the chain. An extended time already
    /// queued is refused.
    #[verifier::loop_isolation(false)]
    pub fn create_prediction(
        &mut self,
        ev: usize,
        base: i64,
        id: DeterministicRandomId,
        payload: Payload,
        journal: &mut Vec<UndoOp>,
    ) -> (r: Result<usize, KernelError>)
        requires
            old(self).wf_except(ev as int),
            ev < old(self).events@.len(),
            base >= old(self).events@[ev as int].time.base,
        ensures
            r == Err::<usize, KernelError>(KernelError::TooManyIterations) <==> (base == old(self).events@[ev as int].time.base && !id_lt(old(self).events@[ev as int].time.id, id)
                && old(self).events@[ev as int].time.iteration >= MAX_ITERATION),
            r == Err::<usize, KernelError>(KernelError::DuplicateExtendedTime) <==> (!(base == old(self).events@[ev as int].time.base && !id_lt(old(self).events@[ev as int].time.id, id)
                && old(self).events@[ev as int].time.iteration >= MAX_ITERATION) && old(self).has_queued_at(
                crate::common::spec_predicted_time(base, id, old(self).events@[ev as int].time),
            )),
            r is Err ==> *final(self) == *old(self) && *final(journal) == *old(journal),
            r is Ok <==> (!(base == old(self).events@[ev as int].time.base && !id_lt(
                old(self).events@[ev as int].time.id,
                id,
            ) && old(self).events@[ev as int].time.iteration >= MAX_ITERATION) && !old(self).has_queued_at(
                crate::common::spec_predicted_time(base, id, old(self).events@[ev as int].time),
            )),
            r matches Ok(p) ==> {
                &&& p == old(self).events@.len()
                &&& final(self).events@ == old(self).events@.push(
                    EventRecord {
                        time: crate::common::spec_predicted_time(
                            base,
                            id,
                            old(self).events@[ev as int].time,
                        ),
                        payload,
                        should_be_executed: true,
                        created_by: Some(ev),
                        destroyed_by: None,
                        execution_state: None,
                    },
                )
                &&& et_lt(old(self).events@[ev as int].time, final(self).events@[p as int].time)
                &&& final(journal)@ == old(journal)@.push(UndoOp::Create { prediction: p })
                &&& (forall|j: int| final(self).in_queue(j) <==> (old(self).in_queue(j) || j
                    == p))
                &&& final(self).cells == old(self).cells
                &&& final(self).snapshots == old(self).snapshots
                &&& final(self).fiat_events == old(self).fiat_events
                &&& final(self).invalid_before == old(self).invalid_before
            },
            final(self).wf_except(ev as int),
    {
        let now = self.events[ev].time;
        let et = match extended_time_of_predicted_event(base, id, &now) {
            Ok(t) => t,
            Err(e) => {
                return Err(KernelError::TooManyIterations);
            },
        };
        let mut k: usize = 0;
        while k < self.queue.len()
            invariant
                *self == *old(self),
                k <= self.queue@.len(),
                forall|j: int| 0 <= j < k ==> self.events@[(#[trigger] self.queue@[j]) as int].time
                    != et,
            decreases self.queue@.len() - k,
        {
            if self.events[self.queue[k]].time.eq_time(&et) {
                return Err(KernelError::DuplicateExtendedTime);
            }
            k = k + 1;
        }
        proof {
            if self.has_queued_at(et) {
                let j = choose|j: int|
                    0 <= j < self.queue@.len() && self.events@[self.queue@[j] as int].time == et;
                assert(self.events@[self.queue@[j] as int].time != et);
            }
        }
        let idx = self.events.len();
        self.events.push(
            EventRecord {
                time: et,
                payload,
                should_be_executed: true,
                created_by: Some(ev),
                destroyed_by: None,
                execution_state: None,
            },
        );
        proof {
            lemma_arena_grown(old(self), self);
        }
        self.queue_insert(idx);
        journal.push(UndoOp::Create { prediction: idx });
        proof {
            assert forall|i: int|
                0 <= i < self.events@.len() && i != ev implies (#[trigger] self.needs_attention(i)
                <==> self.in_queue(i)) by {
                if i < old(self).events@.len() {
                    assert(self.events@[i] == old(self).events@[i]);
                    assert(old(self).needs_attention(i) <==> old(self).in_queue(i));
                }
            }
            assert(!self.in_queue(ev as int)) by {
                assert(!old(self).in_queue(ev as int));
            }
            assert forall|k2: int, c2: int|
                0 <= k2 < self.snapshots@.len() && 0 <= c2 < self.cells@.len() implies #[trigger] self.clone_ok(
                k2,
                c2,
            ) by {
                assert(old(self).clone_ok(k2, c2));
            }
        }
        Ok(idx)
    }

    /// After changing event `target`'s record, makes its queue membership
    /// agree with whether it needs attention.
    fn queue_fix(&mut self, target: usize)
        requires
            old(self).queue_wf(),
            target < old(self).events@.len(),
        ensures
            final(self).queue_wf(),
            forall|j: int| j != target ==> (#[trigger] final(self).in_queue(j) <==> old(self).in_queue(j)),
            final(self).in_queue(target as int) <==> old(self).needs_attention(target as int),
            final(self).events == old(self).events,
            final(self).cells == old(self).cells,
            final(self).fiat_events == old(self).fiat_events,
            final(self).snapshots == old(self).snapshots,
            final(self).invalid_before == old(self).invalid_before,
            final(self).globals == old(self).globals,
    {
        let r = &self.events[target];
        let needs: bool = if r.should_be_executed {
            match &r.execution_state {
                Option::None => true,
                Option::Some(es) => !es.valid,
            }
        } else {
            r.execution_state.is_some()
        };
        if needs {
            if !self.queue_contains(target) {
                self.queue_insert(target);
            }
        } else {
            self.queue_remove(target);
        }
    }

    /// The event at `ev` destroys the prediction `target`: fiat events are
    /// refused; a prediction already destroyed is left alone when its
    /// destroyer is later than this event and refused otherwise; a live
    /// prediction elsewhere in the past is refused. The prior destruction
    /// state is journalled.
    pub fn destroy_prediction(&mut self, ev: usize, target: usize, journal: &mut Vec<UndoOp>) -> (
        r: Result<(), KernelError>)
        requires
            old(self).wf_except(ev as int),
            ev < old(self).events@.len(),
            target < old(self).events@.len(),
        ensures
            final(self).wf_except(ev as int),
            r == Err::<(), KernelError>(KernelError::NotAPrediction) <==> old(self).events@[target as int].created_by is None,
            r == Err::<(), KernelError>(KernelError::AlreadyDestroyed) <==> (old(self).events@[target as int].created_by is Some && (old(self).events@[target as int].destroyed_by matches Some(d) && !et_lt(
                old(self).events@[ev as int].time,
                old(self).events@[d as int].time,
            ))),
            r == Err::<(), KernelError>(KernelError::TargetInPast) <==> (old(self).events@[target as int].created_by is Some && old(self).events@[target as int].destroyed_by is None && target != ev && !et_lt(
                old(self).events@[ev as int].time,
                old(self).events@[target as int].time,
            )),
            r is Err ==> *final(self) == *old(self) && *final(journal) == *old(journal),
            r is Ok <==> (old(self).events@[target as int].created_by is Some && (match old(self).events@[target as int].destroyed_by {
                Option::Some(d) => et_lt(
                    old(self).events@[ev as int].time,
                    old(self).events@[d as int].time,
                ),
                Option::None => target == ev || et_lt(
                    old(self).events@[ev as int].time,
                    old(self).events@[target as int].time,
                ),
            })),
            (old(self).events@[target as int].created_by is Some && old(self).events@[target as int].destroyed_by is Some && r is Ok) ==> *final(self) == *old(self) && *final(journal) == *old(journal),
            (old(self).events@[target as int].created_by is Some && old(self).events@[target as int].destroyed_by is None && (target == ev || et_lt(
                old(self).events@[ev as int].time,
                old(self).events@[target as int].time,
            ))) ==> {
                &&& r is Ok
                &&& final(self).events@ == old(self).events@.update(
                    target as int,
                    (EventRecord {
                        destroyed_by: Some(ev),
                        should_be_executed: target == ev
                            && old(self).events@[target as int].should_be_executed,
                        ..old(self).events@[target as int]
                    }),
                )
                &&& final(journal)@ == old(journal)@.push(
                    UndoOp::Destroy {
                        prediction: target,
                        prev_destroyed_by: None,
                        prev_should: old(self).events@[target as int].should_be_executed,
                    },
                )
                &&& (forall|j: int| j != target ==> (#[trigger] final(self).in_queue(j) <==> old(self).in_queue(j)))
                &&& final(self).cells == old(self).cells
                &&& final(self).snapshots == old(self).snapshots
                &&& final(self).fiat_events == old(self).fiat_events
                &&& final(self).invalid_before == old(self).invalid_before
            },
    {
        if self.events[target].created_by.is_none() {
            return Err(KernelError::NotAPrediction);
        }
        let now = self.events[ev].time;
        match self.events[target].destroyed_by {
            Option::Some(d) => {
                if now.lt(&self.events[d].time) {
                    return Ok(());
                } else {
                    return Err(KernelError::AlreadyDestroyed);
                }
            },
            Option::None => {},
        }
        if target != ev && !now.lt(&self.events[target].time) {
            return Err(KernelError::TargetInPast);
        }
        let prev_should = self.events[target].should_be_executed;
        journal.push(
            UndoOp::Destroy { prediction: target, prev_destroyed_by: None, prev_should },
        );
        let rec = &mut self.events[target];
        rec.destroyed_by = Some(ev);
        if target != ev {
            rec.should_be_executed = false;
        }
        let ghost mid = *self;
        proof {
            lemma_record_replaced(old(self), &mid, target as int);
        }
        if target != ev {
            self.queue_fix(target);
        }
        proof {
            assert forall|i: int|
                0 <= i < self.events@.len() && i != ev implies (#[trigger] self.needs_attention(i)
                <==> self.in_queue(i)) by {
                if i != target {
                    assert(self.events@[i] == old(self).events@[i]);
                    assert(mid.needs_attention(i) == old(self).needs_attention(i));
                    assert(old(self).needs_attention(i) <==> old(self).in_queue(i));
                    assert(mid.in_queue(i) == old(self).in_queue(i));
                }
            }
            assert(!self.in_queue(ev as int)) by {
                assert(!old(self).in_queue(ev as int));
                assert(mid.in_queue(ev as int) == old(self).in_queue(ev as int));
            }
            assert forall|k2: int, c2: int|
                0 <= k2 < self.snapshots@.len() && 0 <= c2 < self.cells@.len() implies #[trigger] self.clone_ok(
                k2,
                c2,
            ) by {
                assert(old(self).clone_ok(k2, c2));
            }
        }
        Ok(())
    }

    /// The event at `ev` marks the standing execution of the strictly later
    /// event `target` as stale, so the steward re-runs `target` before
    /// anything later executes. An event with no standing execution is left
    /// alone.
    pub fn invalidate_event_execution(&mut self, ev: usize, target: usize)
        requires
            old(self).wf_except(ev as int),
            ev < old(self).events@.len(),
            target < old(self).events@.len(),
            et_lt(old(self).events@[ev as int].time, old(self).events@[target as int].time),
        ensures
            final(self).wf_except(ev as int),
            old(self).events@[target as int].execution_state is None ==> *final(self) == *old(self),
            old(self).events@[target as int].execution_state matches Some(es) ==> {
                &&& final(self).events@ == old(self).events@.update(
                    target as int,
                    (EventRecord {
                        execution_state: Some(
                            ExecutionState { valid: false, journal: es.journal },
                        ),
                        ..old(self).events@[target as int]
                    }),
                )
                &&& final(self).in_queue(target as int)
                &&& (forall|j: int| j != target ==> (#[trigger] final(self).in_queue(j) <==> old(self).in_queue(j)))
                &&& final(self).cells == old(self).cells
                &&& final(self).snapshots == old(self).snapshots
                &&& final(self).fiat_events == old(self).fiat_events
                &&& final(self).invalid_before == old(self).invalid_before
            },
    {
        if self.events[target].execution_state.is_none() {
            return ;
        }
        let rec = &mut self.events[target];
        match &mut rec.execution_state {
            Option::Some(es) => {
                es.valid = false;
            },
            Option::None => {},
        }
        let ghost mid = *self;
        proof {
            lemma_record_replaced(old(self), &mid, target as int);
        }
        self.queue_fix(target);
        proof {
            assert forall|i: int|
                0 <= i < self.events@.len() && i != ev implies (#[trigger] self.needs_attention(i)
                <==> self.in_queue(i)) by {
                if i != target {
                    assert(self.events@[i] == old(self).events@[i]);
                    assert(mid.needs_attention(i) == old(self).needs_attention(i));
                    assert(old(self).needs_attention(i) <==> old(self).in_queue(i));
                    assert(mid.in_queue(i) == old(self).in_queue(i));
                }
            }
            assert(!self.in_queue(ev as int)) by {
                assert(!old(self).in_queue(ev as int));
                assert(mid.in_queue(ev as int) == old(self).in_queue(ev as int));
            }
            assert forall|k2: int, c2: int|
                0 <= k2 < self.snapshots@.len() && 0 <= c2 < self.cells@.len() implies #[trigger] self.clone_ok(
                k2,
                c2,
            ) by {
                assert(old(self).clone_ok(k2, c2));
            }
        }
    }

    /// During an undo, the event at `ev` restores `target`'s destruction
    /// state to what it remembered: the old destroyer (or none) and whether
    /// the prediction was still meant to execute.
    fn restore_destroyed(&mut self, ev: usize, target: usize, until: Option<usize>, should: bool)
        requires
            old(self).wf_except(ev as int),
            ev < old(self).events@.len(),
            target < old(self).events@.len(),
            until is Some ==> old(self).events@[target as int].created_by is Some,
            until matches Some(d) ==> d < old(self).events@.len() && (d != target ==> et_lt(
                old(self).events@[d as int].time,
                old(self).events@[target as int].time,
            )),
        ensures
            final(self).wf_except(ev as int),
            final(self).events@ == old(self).events@.update(
                target as int,
                (EventRecord {
                    destroyed_by: until,
                    should_be_executed: should,
                    ..old(self).events@[target as int]
                }),
            ),
            forall|j: int| j != target && j != ev ==> (#[trigger] final(self).in_queue(j) <==> old(self).in_queue(j)),
            final(self).cells == old(self).cells,
            final(self).snapshots == old(self).snapshots,
            final(self).fiat_events == old(self).fiat_events,
            final(self).invalid_before == old(self).invalid_before,
            final(self).globals == old(self).globals,
            target != ev ==> (final(self).in_queue(target as int) <==> final(self).needs_attention(target as int)),
    {
        let rec = &mut self.events[target];
        rec.destroyed_by = until;
        rec.should_be_executed = should;
        let ghost mid = *self;
        proof {
            lemma_record_replaced(old(self), &mid, target as int);
        }
        if target != ev {
            self.queue_fix(target);
        }
        proof {
            assert forall|i: int|
                0 <= i < self.events@.len() && i != ev implies (#[trigger] self.needs_attention(i)
                <==> self.in_queue(i)) by {
                if i != target {
                    assert(self.events@[i] == old(self).events@[i]);
                    assert(mid.needs_attention(i) == old(self).needs_attention(i));
                    assert(old(self).needs_attention(i) <==> old(self).in_queue(i));
                    assert(mid.in_queue(i) == old(self).in_queue(i));
                }
            }
            assert(!self.in_queue(ev as int)) by {
                assert(!old(self).in_queue(ev as int));
                assert(mid.in_queue(ev as int) == old(self).in_queue(ev as int));
            }
            assert forall|k2: int, c2: int|
                0 <= k2 < self.snapshots@.len() && 0 <= c2 < self.cells@.len() implies #[trigger] self.clone_ok(
                k2,
                c2,
            ) by {
                assert(old(self).clone_ok(k2, c2));
            }
        }
    }

    /// The event at `ev` brings the prediction `target` back to life, or
    /// reduces its destroyer to the given earlier event; with no destroyer
    /// left the prediction is meant to execute again.
    pub fn undestroy_prediction(&mut self, ev: usize, target: usize, until: Option<usize>)
        requires
            old(self).wf_except(ev as int),
            ev < old(self).events@.len(),
            target < old(self).events@.len(),
            until is Some ==> old(self).events@[target as int].created_by is Some,
            until matches Some(d) ==> d < old(self).events@.len() && (d != target ==> et_lt(
                old(self).events@[d as int].time,
                old(self).events@[target as int].time,
            )),
        ensures
            final(self).wf_except(ev as int),
            final(self).events@ == old(self).events@.update(
                target as int,
                (EventRecord {
                    destroyed_by: until,
                    should_be_executed: until is None,
                    ..old(self).events@[target as int]
                }),
            ),
            forall|j: int| j != target && j != ev ==> (#[trigger] final(self).in_queue(j) <==> old(self).in_queue(j)),
            final(self).cells == old(self).cells,
            final(self).snapshots == old(self).snapshots,
            final(self).fiat_events == old(self).fiat_events,
            final(self).invalid_before == old(self).invalid_before,
    {
        let should = until.is_none();
        self.restore_destroyed(ev, target, until, should);
    }

    /// What every part of an execution of the event at `ev` preserves, from
    /// steward state `pre` to state `post`: well-formedness, the arenas'
    /// immutable fields, the snapshots' answers, the executing event's own
    /// standing, cell slots at other moments, and the rule that whatever
    /// enters the queue lies strictly after the executing event.
    pub open spec fn exec_frame(pre: Steward, post: Steward, ev: int) -> bool {
        &&& post.wf_except(ev)
        &&& post.events@.len() >= pre.events@.len()
        &&& post.cells@.len() == pre.cells@.len()
        &&& post.fiat_events == pre.fiat_events
        &&& post.invalid_before == pre.invalid_before
        &&& post.globals == pre.globals
        &&& post.snapshots@.len() == pre.snapshots@.len()
        &&& (forall|k: int| 0 <= k < post.snapshots@.len() ==> {
            let sn = #[trigger] post.snapshots@[k];
            let so = pre.snapshots@[k];
            sn.live == so.live && sn.time == so.time && sn.at_creation == so.at_creation
        })
        &&& (forall|i: int| 0 <= i < pre.events@.len() ==> {
            let rn = #[trigger] post.events@[i];
            let ro = pre.events@[i];
            &&& rn.time == ro.time
            &&& rn.payload == ro.payload
            &&& rn.created_by == ro.created_by
            &&& (i != ev ==> {
                &&& (rn.execution_state is Some <==> ro.execution_state is Some)
                &&& (ro.execution_state matches Some(e1) ==> (rn.execution_state matches Some(e2)
                    && e2.journal == e1.journal && (e2.valid ==> e1.valid)))
                &&& (rn.should_be_executed ==> ro.should_be_executed)
            })
        })
        &&& post.events@[ev].execution_state == pre.events@[ev].execution_state
        &&& post.events@[ev].should_be_executed == pre.events@[ev].should_be_executed
        &&& (forall|j: int| #[trigger] post.in_queue(j) && !pre.in_queue(j) ==> 0 <= j
            < post.events@.len() && et_lt(pre.events@[ev].time, post.events@[j].time))
        &&& (forall|c: int, u: ExtendedTime|
            0 <= c < pre.cells@.len() && u != pre.events@[ev].time ==> #[trigger] entry_at(
                post.cells@[c].data.changes@,
                u,
            ) == entry_at(pre.cells@[c].data.changes@, u))
        &&& (pre.events@[ev].destroyed_by is Some ==> post.events@[ev].destroyed_by
            == pre.events@[ev].destroyed_by)
    }

    /// The execution frame composes across successive steps.
    pub proof fn lemma_exec_frame_trans(a: Steward, b: Steward, c: Steward, ev: int)
        requires
            0 <= ev < a.events@.len(),
            Steward::exec_frame(a, b, ev),
            Steward::exec_frame(b, c, ev),
        ensures
            Steward::exec_frame(a, c, ev),
    {
        assert(b.events@[ev].time == a.events@[ev].time);
        assert forall|i: int| 0 <= i < a.events@.len() implies {
            let rn = #[trigger] c.events@[i];
            let ro = a.events@[i];
            &&& rn.time == ro.time
            &&& rn.payload == ro.payload
            &&& rn.created_by == ro.created_by
            &&& (i != ev ==> {
                &&& (rn.execution_state is Some <==> ro.execution_state is Some)
                &&& (ro.execution_state matches Some(e1) ==> (rn.execution_state matches Some(e2)
                    && e2.journal == e1.journal && (e2.valid ==> e1.valid)))
                &&& (rn.should_be_executed ==> ro.should_be_executed)
            })
        } by {
            assert(b.events@[i].time == a.events@[i].time);
        }
        assert forall|j: int| #[trigger] c.in_queue(j) && !a.in_queue(j) implies 0 <= j
            < c.events@.len() && et_lt(a.events@[ev].time, c.events@[j].time) by {
            if b.in_queue(j) {
                assert(et_lt(a.events@[ev].time, b.events@[j].time));
                assert(c.events@[j].time == b.events@[j].time);
            } else {
                assert(et_lt(b.events@[ev].time, c.events@[j].time));
            }
        }
        assert forall|c2: int, u: ExtendedTime|
            0 <= c2 < a.cells@.len() && u != a.events@[ev].time implies #[trigger] entry_at(
            c.cells@[c2].data.changes@,
            u,
        ) == entry_at(a.cells@[c2].data.changes@, u) by {
            assert(entry_at(b.cells@[c2].data.changes@, u) == entry_at(
                a.cells@[c2].data.changes@,
                u,
            ));
        }
    }

    /// Executes the event at `ev` for the first time since it last had no
    /// standing execution: runs its payload, stores the resulting journal as
    /// a valid execution, and checks that a predicted event destroyed
    /// itself.
    fn run_event(&mut self, ev: usize) -> (r: Result<(), KernelError>)
        requires
            old(self).wf_except(ev as int),
            ev < old(self).events@.len(),
            old(self).events@[ev as int].execution_state is None,
            old(self).events@[ev as int].should_be_executed,
        ensures
            final(self).wf(),
            final(self).events@.len() >= old(self).events@.len(),
            final(self).cells@.len() == old(self).cells@.len(),
            final(self).fiat_events == old(self).fiat_events,
            final(self).invalid_before == old(self).invalid_before,
            final(self).globals == old(self).globals,
            final(self).snapshots@.len() == old(self).snapshots@.len(),
            forall|k: int| 0 <= k < final(self).snapshots@.len() ==> {
                let sn = #[trigger] final(self).snapshots@[k];
                let so = old(self).snapshots@[k];
                sn.live == so.live && sn.time == so.time && sn.at_creation == so.at_creation
            },
            forall|i: int| 0 <= i < old(self).events@.len() ==> {
                let rn = #[trigger] final(self).events@[i];
                let ro = old(self).events@[i];
                &&& rn.time == ro.time
                &&& rn.payload == ro.payload
                &&& rn.created_by == ro.created_by
                &&& (i != ev ==> {
                    &&& (rn.execution_state is Some <==> ro.execution_state is Some)
                    &&& (ro.execution_state matches Some(e1) ==> (rn.execution_state matches Some(
                        e2,
                    ) && e2.journal == e1.journal && (e2.valid ==> e1.valid)))
                    &&& (rn.should_be_executed ==> ro.should_be_executed)
                })
            },
            forall|c: int, u: ExtendedTime|
                0 <= c < old(self).cells@.len() && u != old(self).events@[ev as int].time
                    ==> #[trigger] entry_at(final(self).cells@[c].data.changes@, u) == entry_at(
                    old(self).cells@[c].data.changes@,
                    u,
                ),
            forall|j: int| #[trigger] final(self).in_queue(j) && !old(self).in_queue(j) ==> et_lt(
                old(self).events@[ev as int].time,
                final(self).events@[j].time,
            ),
            final(self).events@[ev as int].execution_state matches Some(es) && es.valid
                && journal_accurate(*old(self), *final(self), ev as int, es.journal@),
            r == crate::bouncy::spec_execute_outcome(*old(self), ev as int),
            old(self).cells@.len() > 0 ==> {
                let tau = old(self).events@[ev as int].time;
                let slot = entry_at(final(self).cells@[0].data.changes@, tau);
                let held = value_before(old(self).cells@[0].data.changes@, tau);
                r is Ok ==> match old(self).events@[ev as int].payload {
                    Payload::Initialize(_i) => slot == Some(crate::bouncy::resting(tau.base)),
                    Payload::SetMotion { position, velocity } => slot == Some(
                        Motion { position, velocity, origin: tau.base },
                    ),
                    Payload::SetMotionAndPredict { position, velocity, when, id } => slot == Some(
                        Motion { position, velocity, origin: tau.base },
                    ),
                    Payload::ReverseVelocity => slot == Some(
                        crate::bouncy::reversed(
                            match held {
                                Option::Some(m) => m,
                                Option::None => crate::bouncy::resting(tau.base),
                            },
                            tau.base,
                        ),
                    ),
                    Payload::Disturb(d) => slot == Some(
                        crate::bouncy::kicked(
                            match held {
                                Option::Some(m) => m,
                                Option::None => crate::bouncy::resting(tau.base),
                            },
                            d.coordinates[0],
                            tau.base,
                        ),
                    ),
                    _ => true,
                }
            },
    {
        let mut journal: Vec<UndoOp> = Vec::new();
        let r = crate::bouncy::execute_payload(self, ev, &mut journal);
        let ghost ran = *self;
        let ghost jfin = journal@;
        let rec = &mut self.events[ev];
        rec.execution_state = Some(ExecutionState { valid: true, journal });
        proof {
            lemma_record_replaced(&ran, self, ev as int);
            assert forall|i: int|
                0 <= i < self.events@.len() && i != -1 implies (#[trigger] self.needs_attention(i)
                <==> self.in_queue(i)) by {
                if i != ev {
                    assert(self.events@[i] == ran.events@[i]);
                    assert(ran.needs_attention(i) <==> ran.in_queue(i));
                }
            }
            assert forall|k2: int, c2: int|
                0 <= k2 < self.snapshots@.len() && 0 <= c2 < self.cells@.len() implies #[trigger] self.clone_ok(
                k2,
                c2,
            ) by {
                assert(ran.clone_ok(k2, c2));
            }
            assert(journal_accurate(*old(self), *self, ev as int, jfin)) by {
                assert forall|c: int|
                    #![trigger first_modify_prev(jfin, c)]
                    0 <= c < old(self).cells@.len() implies match first_modify_prev(jfin, c) {
                    Option::Some(prev) => prev == entry_at(
                        old(self).cells@[c].data.changes@,
                        old(self).events@[ev as int].time,
                    ),
                    Option::None => self.cells@[c].data == old(self).cells@[c].data,
                } by {
                    if first_modify_prev(jfin, c) is None {
                        assert(ran.cells@[c].data == old(self).cells@[c].data);
                        assert(self.cells@[c].data == ran.cells@[c].data);
                    }
                }
            }
        }
        match r {
            Err(e) => Err(e),
            Ok(_u) => {
                if self.events[ev].created_by.is_some() && self.events[ev].destroyed_by.is_none() {
                    proof {
                        assert(self.events@[ev as int].destroyed_by == ran.events@[ev as int].destroyed_by);
                        assert(false);
                    }
                    return Err(KernelError::PredictionNotDestroyed);
                }
                Ok(())
            },
        }
    }

    /// One unit of progress: takes the earliest event needing attention and
    /// deals with it. A removed event whose execution still stands is
    /// undone; an event never executed is executed; an event with a stale
    /// execution is re-executed, by undoing it and executing it afresh.
    /// Returns whether anything was there to do. Afterwards nothing in the
    /// queue lies before the event just handled, and whatever entered the
    /// queue lies strictly after it.
    #[verifier::rlimit(100)]
    pub fn step(&mut self) -> (r: Result<bool, KernelError>)
        requires
            old(self).wf(),
        ensures
            final(self).wf(),
            r == Ok::<bool, KernelError>(false) <==> old(self).queue@.len() == 0,
            old(self).queue@.len() == 0 ==> *final(self) == *old(self),
            final(self).fiat_events == old(self).fiat_events,
            final(self).invalid_before == old(self).invalid_before,
            final(self).globals == old(self).globals,
            final(self).snapshots@.len() == old(self).snapshots@.len(),
            forall|k: int| 0 <= k < final(self).snapshots@.len() ==> {
                let sn = #[trigger] final(self).snapshots@[k];
                let so = old(self).snapshots@[k];
                sn.live == so.live && sn.time == so.time && sn.at_creation == so.at_creation
            },
            final(self).cells@.len() == old(self).cells@.len(),
            old(self).queue@.len() > 0 ==> {
                let ev = old(self).queue@[0] as int;
                &&& (forall|c: int, u: ExtendedTime|
                    0 <= c < old(self).cells@.len() && u != old(self).events@[ev].time
                        ==> #[trigger] entry_at(final(self).cells@[c].data.changes@, u)
                        == entry_at(old(self).cells@[c].data.changes@, u))
                &&& (forall|j: int| #[trigger] final(self).in_queue(j) ==> (et_lt(
                    old(self).events@[ev].time,
                    final(self).events@[j].time,
                ) || (final(self).events@[j].time == old(self).events@[ev].time && j > ev)))
                &&& (forall|j: int| #[trigger] final(self).in_queue(j) && !old(self).in_queue(j)
                    ==> et_lt(old(self).events@[ev].time, final(self).events@[j].time))
                &&& (forall|i: int| 0 <= i < old(self).events@.len() ==> {
                    let rn = #[trigger] final(self).events@[i];
                    let ro = old(self).events@[i];
                    rn.time == ro.time && rn.payload == ro.payload && rn.created_by
                        == ro.created_by
                })
                &&& (!old(self).events@[ev].should_be_executed ==> {
                    &&& r == Ok::<bool, KernelError>(true)
                    &&& final(self).events@[ev].execution_state is None
                    &&& !final(self).events@[ev].should_be_executed
                    &&& (forall|i: int|
                        0 <= i < old(self).events@.len() && i != ev
                            ==> (#[trigger] final(self).events@[i]).execution_state == old(self).events@[i].execution_state)
                    &&& (old(self).events@[ev].execution_state matches Some(es) ==> (forall|
                        c: int,
                    |
                        0 <= c < old(self).cells@.len() ==> match first_modify_prev(
                            es.journal@,
                            c,
                        ) {
                            Option::Some(prev) => entry_at(
                                (#[trigger] final(self).cells@[c]).data.changes@,
                                old(self).events@[ev].time,
                            ) == prev,
                            Option::None => final(self).cells@[c].data == old(self).cells@[c].data,
                        }))
                })
                &&& (old(self).events@[ev].should_be_executed ==> {
                    &&& (final(self).events@[ev].execution_state matches Some(es2) && es2.valid)
                    &&& (r is Ok ==> r == Ok::<bool, KernelError>(true))
                    &&& (r matches Err(e) ==> (e == KernelError::TooManyIterations || e
                        == KernelError::DuplicateExtendedTime || e == KernelError::TargetInPast))
                    &&& (old(self).events@[ev].execution_state is None ==> r == as_step_result(
                        crate::bouncy::spec_execute_outcome(*old(self), ev),
                    ))
                    &&& (forall|i: int| 0 <= i < old(self).events@.len() && i != ev ==> {
                        let rn = #[trigger] final(self).events@[i];
                        let ro = old(self).events@[i];
                        &&& (rn.execution_state is Some <==> ro.execution_state is Some)
                        &&& (ro.execution_state matches Some(e1) ==> (rn.execution_state
                            matches Some(e2) && e2.journal == e1.journal && (e2.valid
                            ==> e1.valid)))
                    })
                    &&& (r is Ok && old(self).cells@.len() > 0 ==> {
                        let tau = old(self).events@[ev].time;
                        let slot = entry_at(final(self).cells@[0].data.changes@, tau);
                        let held = value_before(old(self).cells@[0].data.changes@, tau);
                        match old(self).events@[ev].payload {
                            Payload::Initialize(_i) => slot == Some(
                                crate::bouncy::resting(tau.base),
                            ),
                            Payload::SetMotion { position, velocity } => slot == Some(
                                Motion { position, velocity, origin: tau.base },
                            ),
                            Payload::SetMotionAndPredict { position, velocity, when, id } => slot
                                == Some(Motion { position, velocity, origin: tau.base }),
                            Payload::ReverseVelocity => slot == Some(
                                crate::bouncy::reversed(
                                    match held {
                                        Option::Some(m) => m,
                                        Option::None => crate::bouncy::resting(tau.base),
                                    },
                                    tau.base,
                                ),
                            ),
                            Payload::Disturb(d) => slot == Some(
                                crate::bouncy::kicked(
                                    match held {
                                        Option::Some(m) => m,
                                        Option::None => crate::bouncy::resting(tau.base),
                                    },
                                    d.coordinates[0],
                                    tau.base,
                                ),
                            ),
                            _ => true,
                        }
                    })
                })
            },
    {
        if self.queue.len() == 0 {
            return Ok(false);
        }
        let ev = self.queue[0];
        proof {
            assert(self.in_queue(ev as int));
            assert(self.needs_attention(ev as int));
        }
        self.queue_remove(ev);
        let ghost dequeued = *self;
        proof {
            lemma_events_frame(old(self), self);
            assert forall|k2: int, c2: int|
                0 <= k2 < self.snapshots@.len() && 0 <= c2 < self.cells@.len() implies #[trigger] self.clone_ok(
                k2,
                c2,
            ) by {
                assert(old(self).clone_ok(k2, c2));
            }
            assert forall|i: int|
                0 <= i < self.events@.len() && i != ev implies (#[trigger] self.needs_attention(i)
                <==> self.in_queue(i)) by {
                assert(old(self).needs_attention(i) <==> old(self).in_queue(i));
            }
            assert(dequeued.wf_except(ev as int));
            assert forall|j: int| #[trigger] dequeued.in_queue(j) implies !et_lt(
                dequeued.events@[j].time,
                dequeued.events@[ev as int].time,
            ) by {
                assert(old(self).in_queue(j) && j != ev);
                let k0 = choose|k0: int|
                    0 <= k0 < old(self).queue@.len() && old(self).queue@[k0] == j;
                if k0 > 0 {
                    assert(old(self).queue_lt(ev as int, j));
                    lemma_et_order(
                        dequeued.events@[j].time,
                        dequeued.events@[ev as int].time,
                        dequeued.events@[ev as int].time,
                    );
                }
            }
        }
        let should = self.events[ev].should_be_executed;
        let has_execution = self.events[ev].execution_state.is_some();
        let ghost tau = old(self).events@[ev as int].time;
        if !should {
            let rec = &mut self.events[ev];
            let taken = rec.execution_state.take();
            proof {
                lemma_record_replaced(&dequeued, self, ev as int);
            }
            let ghost t0 = *self;
            match taken {
                Some(es) => {
                    proof {
                        assert forall|j: int| 0 <= j < es.journal@.len() implies self.op_wf(
                            ev as int,
                            #[trigger] es.journal@[j],
                        ) by {
                            assert(dequeued.op_wf(ev as int, es.journal@[j]));
                            match es.journal@[j] {
                                UndoOp::Modify { cell, prev } => {},
                                UndoOp::Create { prediction } => {
                                    assert(self.events@[prediction as int].created_by
                                        == dequeued.events@[prediction as int].created_by);
                                },
                                UndoOp::Destroy { prediction, prev_destroyed_by, prev_should } => {
                                    assert(self.events@[prediction as int].created_by
                                        == dequeued.events@[prediction as int].created_by);
                                    assert(self.events@[prediction as int].time
                                        == dequeued.events@[prediction as int].time);
                                },
                            }
                        }
                    }
                    self.apply_undo(ev, &es.journal);
                },
                None => {},
            }
            let ghost a1 = *self;
            let rec2 = &mut self.events[ev];
            rec2.should_be_executed = false;
            proof {
                lemma_record_replaced(&a1, self, ev as int);
                assert forall|i: int|
                    0 <= i < self.events@.len() && i != -1 implies (#[trigger] self.needs_attention(
                    i,
                ) <==> self.in_queue(i)) by {
                    if i != ev {
                        assert(self.events@[i] == a1.events@[i]);
                        assert(a1.needs_attention(i) <==> a1.in_queue(i));
                        assert(self.in_queue(i) == a1.in_queue(i));
                    } else {
                        assert(self.events@[ev as int].execution_state is None);
                        assert(!self.needs_attention(ev as int));
                        assert(!a1.in_queue(ev as int));
                        assert(self.in_queue(ev as int) == a1.in_queue(ev as int));
                    }
                }
                assert forall|k2: int, c2: int|
                    0 <= k2 < self.snapshots@.len() && 0 <= c2 < self.cells@.len() implies #[trigger] self.clone_ok(
                    k2,
                    c2,
                ) by {
                    assert(a1.clone_ok(k2, c2));
                }
                assert forall|j: int| #[trigger] self.in_queue(j) implies (et_lt(
                    tau,
                    self.events@[j].time,
                ) || (self.events@[j].time == tau && j > ev)) by {
                    assert(a1.in_queue(j));
                    assert(j != ev);
                    if dequeued.in_queue(j) {
                        assert(old(self).in_queue(j));
                        let k0 = choose|k0: int|
                            0 <= k0 < old(self).queue@.len() && old(self).queue@[k0] == j;
                        if k0 > 0 {
                            assert(old(self).queue@[0] == ev);
                            assert(old(self).queue_lt(ev as int, j));
                        }
                        assert(self.events@[j].time == dequeued.events@[j].time);
                    } else {
                        assert(et_lt(tau, a1.events@[j].time));
                    }
                }
                assert forall|j: int| #[trigger] self.in_queue(j) && !old(self).in_queue(j)
                    implies et_lt(tau, self.events@[j].time) by {
                    assert(j != ev);
                    assert(a1.in_queue(j));
                    if dequeued.in_queue(j) {
                        assert(old(self).in_queue(j));
                    } else {
                        assert(et_lt(tau, a1.events@[j].time));
                    }
                }
                assert(t0.cells@ == old(self).cells@);
                assert forall|i: int| 0 <= i < old(self).events@.len() implies {
                    let rn = #[trigger] self.events@[i];
                    let ro = old(self).events@[i];
                    rn.time == ro.time && rn.payload == ro.payload && rn.created_by
                        == ro.created_by
                } by {
                    assert(t0.events@[i].time == old(self).events@[i].time);
                    assert(a1.events@[i].time == t0.events@[i].time);
                }
                assert forall|i: int|
                    0 <= i < old(self).events@.len() && i != ev implies (
                #[trigger] self.events@[i]).execution_state == old(self).events@[i].execution_state by {
                    assert(t0.events@[i].execution_state == old(self).events@[i].execution_state);
                    assert(a1.events@[i].execution_state == t0.events@[i].execution_state);
                    assert(self.events@[i] == a1.events@[i]);
                }
                assert(self.events@[ev as int].execution_state is None) by {
                    assert(t0.events@[ev as int].execution_state is None);
                    assert(a1.events@[ev as int].execution_state == t0.events@[ev as int].execution_state);
                }
                if old(self).events@[ev as int].execution_state is Some {
                    let es = old(self).events@[ev as int].execution_state->0;
                    assert forall|c: int| 0 <= c < old(self).cells@.len() implies match first_modify_prev(
                        es.journal@,
                        c,
                    ) {
                        Option::Some(prev) => entry_at(
                            (#[trigger] self.cells@[c]).data.changes@,
                            old(self).events@[ev as int].time,
                        ) == prev,
                        Option::None => self.cells@[c].data == old(self).cells@[c].data,
                    } by {
                        assert(t0.cells@[c].data == old(self).cells@[c].data);
                        assert(self.cells@[c] == a1.cells@[c]);
                    }
                }
            }
            return Ok(true);
        } else if !has_execution {
            let rr = self.run_event(ev);
            proof {
                assert forall|j: int| #[trigger] dequeued.in_queue(j) implies (old(self).in_queue(
                    j,
                ) && j != ev) by {}
                assert forall|j: int| old(self).in_queue(j) && j != ev implies #[trigger] dequeued.in_queue(
                    j,
                ) by {}
                lemma_outcome_dequeued(old(self), &dequeued, ev as int);
                lemma_outcome_errors(&dequeued, ev as int);
                assert(rr == crate::bouncy::spec_execute_outcome(*old(self), ev as int));
                assert forall|j: int| #[trigger] self.in_queue(j) implies (et_lt(
                    tau,
                    self.events@[j].time,
                ) || (self.events@[j].time == tau && j > ev)) by {
                    if dequeued.in_queue(j) {
                        assert(old(self).in_queue(j) && j != ev);
                        let k0 = choose|k0: int|
                            0 <= k0 < old(self).queue@.len() && old(self).queue@[k0] == j;
                        if k0 > 0 {
                            assert(old(self).queue@[0] == ev);
                            assert(old(self).queue_lt(ev as int, j));
                        }
                        assert(j < dequeued.events@.len());
                        assert(self.events@[j].time == dequeued.events@[j].time);
                    } else {
                        assert(et_lt(tau, self.events@[j].time));
                    }
                }
                assert forall|j: int| #[trigger] self.in_queue(j) && !old(self).in_queue(j)
                    implies et_lt(tau, self.events@[j].time) by {
                    if dequeued.in_queue(j) {
                        assert(old(self).in_queue(j));
                    }
                }
            }
            match rr {
                Ok(_u) => {
                    return Ok(true);
                },
                Err(e) => {
                    return Err(e);
                },
            }
        } else {
            let rec = &mut self.events[ev];
            let taken = rec.execution_state.take();
            proof {
                lemma_record_replaced(&dequeued, self, ev as int);
            }
            let ghost t0 = *self;
            let es = match taken {
                Some(es) => es,
                None => {
                    proof {
                        assert(false);
                    }
                    ExecutionState { valid: false, journal: Vec::new() }
                },
            };
            proof {
                assert forall|j: int| 0 <= j < es.journal@.len() implies self.op_wf(
                    ev as int,
                    #[trigger] es.journal@[j],
                ) by {
                    assert(dequeued.op_wf(ev as int, es.journal@[j]));
                    match es.journal@[j] {
                        UndoOp::Modify { cell, prev } => {},
                        UndoOp::Create { prediction } => {
                            assert(self.events@[prediction as int].created_by
                                == dequeued.events@[prediction as int].created_by);
                        },
                        UndoOp::Destroy { prediction, prev_destroyed_by, prev_should } => {
                            assert(self.events@[prediction as int].created_by
                                == dequeued.events@[prediction as int].created_by);
                            assert(self.events@[prediction as int].time
                                == dequeued.events@[prediction as int].time);
                        },
                    }
                }
            }
            self.apply_undo(ev, &es.journal);
            let ghost a1 = *self;
            let rr = self.run_event(ev);
            proof {
                lemma_outcome_errors(&a1, ev as int);
                assert forall|i: int|
                    0 <= i < old(self).events@.len() && i != ev implies {
                    let rn = #[trigger] self.events@[i];
                    let ro = old(self).events@[i];
                    &&& (rn.execution_state is Some <==> ro.execution_state is Some)
                    &&& (ro.execution_state matches Some(e1) ==> (rn.execution_state matches Some(
                        e2,
                    ) && e2.journal == e1.journal && (e2.valid ==> e1.valid)))
                } by {
                    assert(t0.events@[i].execution_state == old(self).events@[i].execution_state);
                    assert(a1.events@[i].execution_state == t0.events@[i].execution_state);
                }
                if rr is Ok && old(self).cells@.len() > 0 {
                    assert(history_sorted(a1.cells@[0].data.changes@));
                    assert(history_sorted(old(self).cells@[0].data.changes@));
                    assert forall|u: ExtendedTime| et_lt(u, tau) implies #[trigger] entry_at(
                        a1.cells@[0].data.changes@,
                        u,
                    ) == entry_at(old(self).cells@[0].data.changes@, u) by {
                        lemma_et_order(u, tau, tau);
                        assert(entry_at(a1.cells@[0].data.changes@, u) == entry_at(
                            t0.cells@[0].data.changes@,
                            u,
                        ));
                        assert(t0.cells@[0].data == old(self).cells@[0].data);
                    }
                    crate::simple_timeline::lemma_settled_queries_agree(
                        a1.cells@[0].data.changes@,
                        old(self).cells@[0].data.changes@,
                        tau,
                    );
                    assert(value_before(a1.cells@[0].data.changes@, tau) == value_before(
                        old(self).cells@[0].data.changes@,
                        tau,
                    ));
                    assert(a1.events@[ev as int].payload == old(self).events@[ev as int].payload);
                    assert(a1.events@[ev as int].time == tau);
                }
                assert forall|j: int| #[trigger] self.in_queue(j) implies (et_lt(
                    tau,
                    self.events@[j].time,
                ) || (self.events@[j].time == tau && j > ev)) by {
                    if a1.in_queue(j) {
                        if dequeued.in_queue(j) {
                            assert(old(self).in_queue(j) && j != ev);
                            let k0 = choose|k0: int|
                                0 <= k0 < old(self).queue@.len() && old(self).queue@[k0] == j;
                            if k0 > 0 {
                                assert(old(self).queue@[0] == ev);
                                assert(old(self).queue_lt(ev as int, j));
                            }
                            assert(self.events@[j].time == dequeued.events@[j].time);
                        } else {
                            assert(et_lt(tau, a1.events@[j].time));
                            assert(self.events@[j].time == a1.events@[j].time);
                        }
                    } else {
                        assert(et_lt(tau, self.events@[j].time));
                    }
                }
                assert forall|j: int| #[trigger] self.in_queue(j) && !old(self).in_queue(j)
                    implies et_lt(tau, self.events@[j].time) by {
                    if a1.in_queue(j) {
                        if dequeued.in_queue(j) {
                            assert(old(self).in_queue(j));
                        } else {
                            assert(et_lt(tau, a1.events@[j].time));
                            assert(self.events@[j].time == a1.events@[j].time);
                        }
                    }
                }
            }
            match rr {
                Ok(_u) => {
                    return Ok(true);
                },
                Err(e) => {
                    return Err(e);
                },
            }
        }
    }

    /// The moment a snapshot taken before base time `time` observes.
    pub open spec fn spec_snapshot_time(time: i64) -> ExtendedTime {
        ExtendedTime {
            base: time,
            iteration: 0,
            id: DeterministicRandomId { data0: 0, data1: 0 },
        }
    }

    /// How far the steward still is from having settled everything before
    /// `time`: larger while earlier events wait.
    pub open spec fn settle_measure(self, time: i64) -> int {
        if self.queue@.len() == 0 {
            0
        } else {
            let h = self.queue@[0] as int;
            if !et_lt(self.events@[h].time, Steward::spec_snapshot_time(time)) {
                0
            } else {
                (crate::api::et_rank(Steward::spec_snapshot_time(time)) - crate::api::et_rank(
                    self.events@[h].time,
                )) * 0x1_0000_0000_0000_0000 + (0x1_0000_0000_0000_0000 - h)
            }
        }
    }

    /// Takes a stable snapshot of the world just before base time `time`:
    /// first settles every event strictly before `time`, then records, for
    /// every cell, what it answers just before and at that moment. Refused
    /// (with nothing taken) when `time` is no longer permitted. The returned
    /// index stays valid, and the snapshot's answers stay what they were at
    /// its creation, until the snapshot is released.
    #[verifier::loop_isolation(false)]
    pub fn snapshot_before(&mut self, time: i64) -> (r: Result<Option<usize>, KernelError>)
        requires
            old(self).wf(),
        ensures
            final(self).wf(),
            r == Ok::<Option<usize>, KernelError>(None) <==> !old(self).invalid_before.permits(
                time,
            ),
            final(self).invalid_before == old(self).invalid_before,
            final(self).fiat_events == old(self).fiat_events,
            final(self).globals == old(self).globals,
            final(self).cells@.len() == old(self).cells@.len(),
            final(self).snapshots@.len() >= old(self).snapshots@.len(),
            forall|k2: int| 0 <= k2 < old(self).snapshots@.len() ==> {
                let sn = #[trigger] final(self).snapshots@[k2];
                let so = old(self).snapshots@[k2];
                sn.live == so.live && sn.time == so.time && sn.at_creation == so.at_creation
            },
            r matches Err(e) ==> (old(self).invalid_before.permits(time) && (e
                == KernelError::TooManyIterations || e == KernelError::DuplicateExtendedTime || e
                == KernelError::TargetInPast)),
            (old(self).invalid_before.permits(time) && (old(self).queue@.len() == 0 || old(self).events@[old(self).queue@[0] as int].time.base >= time)) ==> r matches Ok(Some(k)),
            r matches Ok(Some(k)) ==> (final(self).queue@.len() == 0 || final(self).events@[final(self).queue@[0] as int].time.base >= time),
            r matches Ok(Some(k)) ==> {
                &&& k < final(self).snapshots@.len()
                &&& k as int == final(self).snapshots@.len() - 1
                &&& {
                    let sn = final(self).snapshots@[k as int];
                    &&& sn.live
                    &&& sn.time == Steward::spec_snapshot_time(time)
                    &&& sn.at_creation@.len() == final(self).cells@.len()
                    &&& (forall|c: int| 0 <= c < final(self).cells@.len()
                        ==> #[trigger] sn.at_creation@[c] == (
                        value_before(
                            final(self).cells@[c].data.changes@,
                            Steward::spec_snapshot_time(time),
                        ),
                        value_at(
                            final(self).cells@[c].data.changes@,
                            Steward::spec_snapshot_time(time),
                        ),
                    ))
                }
            },
    {
        if !self.invalid_before.permits_time(time) {
            return Ok(None);
        }
        while self.queue.len() > 0 && self.events[self.queue[0]].time.base < time
            invariant
                self.wf(),
                (old(self).queue@.len() > 0 && old(self).events@[old(self).queue@[0] as int].time.base
                    < time) || *self == *old(self),
                self.invalid_before == old(self).invalid_before,
                self.fiat_events == old(self).fiat_events,
                self.globals == old(self).globals,
                self.cells@.len() == old(self).cells@.len(),
                self.snapshots@.len() >= old(self).snapshots@.len(),
                forall|k2: int| 0 <= k2 < old(self).snapshots@.len() ==> {
                    let sn = #[trigger] self.snapshots@[k2];
                    let so = old(self).snapshots@[k2];
                    sn.live == so.live && sn.time == so.time && sn.at_creation == so.at_creation
                },
            decreases self.settle_measure(time),
        {
            let ghost before = *self;
            let ghost ev = self.queue@[0] as int;
            proof {
                assert(et_lt(before.events@[ev].time, Steward::spec_snapshot_time(time)));
                crate::api::lemma_et_rank(
                    before.events@[ev].time,
                    Steward::spec_snapshot_time(time),
                );
                assert(before.settle_measure(time) >= 0x1_0000_0000_0000_0000 + (
                0x1_0000_0000_0000_0000 - ev));
                assert(before.settle_measure(time) > 0);
            }
            let stepped = self.step();
            match stepped {
                Ok(_b) => {},
                Err(e) => {
                    return Err(e);
                },
            }
            proof {
                if self.queue@.len() > 0 {
                    let h2 = self.queue@[0] as int;
                    let cc: int = 0x1_0000_0000_0000_0000;
                    let rr = crate::api::et_rank(Steward::spec_snapshot_time(time));
                    let ra = crate::api::et_rank(before.events@[ev].time);
                    let rb = crate::api::et_rank(self.events@[h2].time);
                    assert(self.in_queue(h2));
                    assert(before.settle_measure(time) == (rr - ra) * cc + (cc - ev));
                    assert(0 <= ev < cc && 0 <= h2 < cc);
                    crate::api::lemma_et_rank(before.events@[ev].time, self.events@[h2].time);
                    if !et_lt(self.events@[h2].time, Steward::spec_snapshot_time(time)) {
                        assert(self.settle_measure(time) == 0);
                        assert(self.settle_measure(time) < before.settle_measure(time));
                    } else if et_lt(before.events@[ev].time, self.events@[h2].time) {
                        assert(self.settle_measure(time) == (rr - rb) * cc + (cc - h2));
                        assert(rb >= ra + 1);
                        assert((rr - rb) * cc <= (rr - ra) * cc - cc) by (nonlinear_arith)
                            requires
                                rb >= ra + 1,
                                cc > 0,
                        ;
                        assert(self.settle_measure(time) < before.settle_measure(time));
                    } else {
                        assert(self.settle_measure(time) == (rr - rb) * cc + (cc - h2));
                        assert(self.events@[h2].time == before.events@[ev].time && h2 > ev);
                        assert(rb == ra);
                        assert(self.settle_measure(time) < before.settle_measure(time));
                    }
                }
            }
        }
        let n = self.cells.len();
        let mut clones: Vec<Option<SimpleTimeline<Motion>>> = Vec::new();
        let mut c: usize = 0;
        while c < n
            invariant
                c <= n,
                clones@.len() == c,
                forall|c2: int| 0 <= c2 < c ==> (#[trigger] clones@[c2]) is None,
            decreases n - c,
        {
            clones.push(None);
            c = c + 1;
        }
        let stime = ExtendedTime::beginning_of(time);
        let ghost snap_at = Seq::new(
            self.cells@.len() as nat,
            |c2: int|
                (
                    value_before(self.cells@[c2].data.changes@, Steward::spec_snapshot_time(time)),
                    value_at(self.cells@[c2].data.changes@, Steward::spec_snapshot_time(time)),
                ),
        );
        let ghost before_push = *self;
        self.snapshots.push(
            SnapshotInner { live: true, time: stime, clones, at_creation: Ghost(snap_at) },
        );
        proof {
            assert forall|k2: int, c2: int|
                0 <= k2 < self.snapshots@.len() && 0 <= c2 < self.cells@.len() implies #[trigger] self.clone_ok(
                k2,
                c2,
            ) by {
                if k2 < before_push.snapshots@.len() {
                    assert(before_push.clone_ok(k2, c2));
                    assert(self.snapshots@[k2] == before_push.snapshots@[k2]);
                } else {
                    assert(self.snapshots@[k2].clones@[c2] is None);
                }
            }
            assert forall|k2: int, c2: int|
                0 <= c2 < self.cells@.len() && 0 <= k2 < (
                #[trigger] self.cells@[c2]).first_snapshot_not_updated && (
                #[trigger] self.snapshots@[k2]).live implies self.snapshots@[k2].clones@[c2] is Some by {
                assert(before_push.snapshots@[k2].clones@[c2] is Some);
            }
            lemma_events_frame(&before_push, self);
            lemma_queue_membership(&before_push, self);
            assert forall|i: int|
                0 <= i < self.events@.len() && i != -1 implies (#[trigger] self.needs_attention(i)
                <==> self.in_queue(i)) by {
                assert(before_push.needs_attention(i) <==> before_push.in_queue(i));
            }
        }
        Ok(Some(self.snapshots.len() - 1))
    }

    /// What snapshot `k` observes of cell `c`, from immediately before or
    /// after its moment: exactly what it observed when it was taken. The
    /// first query against a cell the snapshot has no copy of yet takes one.
    pub fn snapshot_query(&mut self, k: usize, c: usize, offset: QueryOffset) -> (r: Option<Motion>)
        requires
            old(self).wf(),
            k < old(self).snapshots@.len(),
            old(self).snapshots@[k as int].live,
            c < old(self).cells@.len(),
        ensures
            final(self).wf(),
            r == (match offset {
                QueryOffset::Before => old(self).snapshots@[k as int].at_creation@[c as int].0,
                QueryOffset::After => old(self).snapshots@[k as int].at_creation@[c as int].1,
            }),
            final(self).events == old(self).events,
            final(self).cells == old(self).cells,
            final(self).queue == old(self).queue,
            final(self).fiat_events == old(self).fiat_events,
            final(self).invalid_before == old(self).invalid_before,
            final(self).globals == old(self).globals,
            final(self).snapshots@.len() == old(self).snapshots@.len(),
            forall|k2: int| 0 <= k2 < final(self).snapshots@.len() ==> {
                let sn = #[trigger] final(self).snapshots@[k2];
                let so = old(self).snapshots@[k2];
                sn.live == so.live && sn.time == so.time && sn.at_creation == so.at_creation
            },
    {
        let missing = self.snapshots[k].clones[c].is_none();
        if missing {
            let time_k = self.snapshots[k].time;
            let ghost before = *self;
            let cl = self.cells[c].data.clone_for_snapshot(&time_k);
            let snap = &mut self.snapshots[k];
            snap.clones[c] = Some(cl);
            proof {
                assert(before.clone_ok(k as int, c as int));
                assert forall|k2: int, c2: int|
                    0 <= k2 < self.snapshots@.len() && 0 <= c2 < self.cells@.len() implies #[trigger] self.clone_ok(
                    k2,
                    c2,
                ) by {
                    if k2 == k && c2 == c {
                        assert(history_sorted(cl.changes@));
                    } else {
                        assert(before.clone_ok(k2, c2));
                        assert(self.snapshots@[k2].clones@[c2] == before.snapshots@[k2].clones@[c2]);
                    }
                }
                assert forall|k2: int, c2: int|
                    0 <= c2 < self.cells@.len() && 0 <= k2 < (
                    #[trigger] self.cells@[c2]).first_snapshot_not_updated && (
                    #[trigger] self.snapshots@[k2]).live implies self.snapshots@[k2].clones@[c2] is Some by {
                    assert(before.snapshots@[k2].clones@[c2] is Some);
                }
                lemma_events_frame(&before, self);
                lemma_queue_membership(&before, self);
                assert forall|i: int|
                    0 <= i < self.events@.len() && i != -1 implies (
                #[trigger] self.needs_attention(i) <==> self.in_queue(i)) by {
                    assert(before.needs_attention(i) <==> before.in_queue(i));
                }
            }
        }
        let snap_time = self.snapshots[k].time;
        match &self.snapshots[k].clones[c] {
            Some(cl) => {
                let r = cl.query(&snap_time, offset);
                proof {
                    assert(self.clone_ok(k as int, c as int));
                }
                r
            },
            None => {
                proof {
                    assert(false);
                }
                None
            },
        }
    }

    /// Releases snapshot `k`: its answers are no longer needed, and the
    /// steward stops preserving them.
    pub fn release_snapshot(&mut self, k: usize)
        requires
            old(self).wf(),
            k < old(self).snapshots@.len(),
        ensures
            final(self).wf(),
            final(self).snapshots@.len() == old(self).snapshots@.len(),
            !final(self).snapshots@[k as int].live,
            forall|k2: int| 0 <= k2 < final(self).snapshots@.len() && k2 != k ==> final(self).snapshots@[k2] == old(self).snapshots@[k2],
            final(self).events == old(self).events,
            final(self).cells == old(self).cells,
            final(self).queue == old(self).queue,
            final(self).fiat_events == old(self).fiat_events,
            final(self).invalid_before == old(self).invalid_before,
            final(self).globals == old(self).globals,
    {
        let ghost before = *self;
        let snap = &mut self.snapshots[k];
        snap.live = false;
        proof {
            assert forall|k2: int, c2: int|
                0 <= k2 < self.snapshots@.len() && 0 <= c2 < self.cells@.len() implies #[trigger] self.clone_ok(
                k2,
                c2,
            ) by {
                assert(before.clone_ok(k2, c2));
                if k2 != k {
                    assert(self.snapshots@[k2] == before.snapshots@[k2]);
                }
            }
            lemma_events_frame(&before, self);
            lemma_queue_membership(&before, self);
            assert forall|i: int|
                0 <= i < self.events@.len() && i != -1 implies (#[trigger] self.needs_attention(i)
                <==> self.in_queue(i)) by {
                assert(before.needs_attention(i) <==> before.in_queue(i));
            }
        }
    }

    /// The deterministic random stream granted to the event at `ev`: seeded
    /// from the event's own extended-time identifier, so the same history
    /// draws the same numbers on every run.
    pub fn event_rng(&self, ev: usize) -> (r: crate::ids::EventRng)
        requires
            ev < self.events@.len(),
        ensures
            r.seed == self.events@[ev as int].time.id,
            r.drawn == 0,
    {
        crate::ids::EventRng::new(self.events[ev].time.id)
    }

    /// The shared configuration this steward was built over.
    pub fn get_globals(&self) -> (r: Globals)
        ensures
            r == self.globals,
    {
        self.globals
    }

    /// The moment before which cells may shed their history, under the given
    /// bound: everything strictly before the beginning of a `Before` time,
    /// or the end of an `After` time.
    pub open spec fn forget_point(vs: ValidSince) -> Option<ExtendedTime> {
        match vs {
            ValidSince::TheBeginning => None,
            ValidSince::Before(f) => Some(
                ExtendedTime {
                    base: f,
                    iteration: 0,
                    id: DeterministicRandomId { data0: 0, data1: 0 },
                },
            ),
            ValidSince::After(f) => Some(
                ExtendedTime {
                    base: f,
                    iteration: u32::MAX,
                    id: DeterministicRandomId { data0: u64::MAX, data1: u64::MAX },
                },
            ),
        }
    }

    /// Gives up the right to operate before `time`: the bound only ever
    /// advances. Every live snapshot is handed its copies first, and then
    /// each cell sheds history no one can ask about any more; every query at
    /// or after the new bound still answers exactly as before.
    #[verifier::loop_isolation(false)]
    pub fn forget_before(&mut self, time: i64)
        requires
            old(self).wf(),
        ensures
            final(self).wf(),
            final(self).invalid_before == old(self).invalid_before.spec_max(ValidSince::Before(time)),
            !crate::api::vs_lt(final(self).invalid_before, old(self).invalid_before),
            final(self).events == old(self).events,
            final(self).fiat_events == old(self).fiat_events,
            final(self).queue == old(self).queue,
            final(self).globals == old(self).globals,
            final(self).cells@.len() == old(self).cells@.len(),
            final(self).snapshots@.len() == old(self).snapshots@.len(),
            forall|k2: int| 0 <= k2 < final(self).snapshots@.len() ==> {
                let sn = #[trigger] final(self).snapshots@[k2];
                let so = old(self).snapshots@[k2];
                sn.live == so.live && sn.time == so.time && sn.at_creation == so.at_creation
            },
            Steward::forget_point(final(self).invalid_before) matches Some(bound) ==> (forall|
                c: int,
                u: ExtendedTime,
            |
                0 <= c < old(self).cells@.len() && !et_lt(u, bound) ==> #[trigger] value_before(
                    final(self).cells@[c].data.changes@,
                    u,
                ) == value_before(old(self).cells@[c].data.changes@, u) && #[trigger] value_at(
                    final(self).cells@[c].data.changes@,
                    u,
                ) == value_at(old(self).cells@[c].data.changes@, u)),
            Steward::forget_point(final(self).invalid_before) is None ==> final(self).cells == old(self).cells,
    {
        self.invalid_before = self.invalid_before.max(ValidSince::Before(time));
        proof {
            lemma_events_frame(old(self), self);
            lemma_queue_membership(old(self), self);
            assert forall|i: int|
                0 <= i < self.events@.len() && i != -1 implies (#[trigger] self.needs_attention(i)
                <==> self.in_queue(i)) by {
                assert(old(self).needs_attention(i) <==> old(self).in_queue(i));
            }
            assert forall|k1: int, k2: int| 0 <= k1 < k2 < self.queue@.len() implies self.queue_lt(
                (#[trigger] self.queue@[k1]) as int,
                (#[trigger] self.queue@[k2]) as int,
            ) by {
                assert(old(self).queue_lt(old(self).queue@[k1] as int, old(self).queue@[k2] as int));
            }
            assert forall|k1: int, k2: int|
                0 <= k1 < k2 < self.fiat_events@.len() implies et_lt(
                self.events@[(#[trigger] self.fiat_events@[k1]) as int].time,
                self.events@[(#[trigger] self.fiat_events@[k2]) as int].time,
            ) by {
                assert(et_lt(
                    old(self).events@[old(self).fiat_events@[k1] as int].time,
                    old(self).events@[old(self).fiat_events@[k2] as int].time,
                ));
            }
            assert forall|k2: int, c2: int|
                0 <= k2 < self.snapshots@.len() && 0 <= c2 < self.cells@.len() implies #[trigger] self.clone_ok(
                k2,
                c2,
            ) by {
                assert(old(self).clone_ok(k2, c2));
            }
            assert(self.wf());
        }
        let bound_time: ExtendedTime = match self.invalid_before {
            ValidSince::TheBeginning => {
                return ;
            },
            ValidSince::Before(f) => ExtendedTime::beginning_of(f),
            ValidSince::After(f) => ExtendedTime::end_of(f),
        };
        let n = self.cells.len();
        let mut c: usize = 0;
        while c < n
            invariant
                self.wf(),
                n == old(self).cells@.len(),
                c <= n,
                self.invalid_before == old(self).invalid_before.spec_max(ValidSince::Before(time)),
                Steward::forget_point(self.invalid_before) == Some(bound_time),
                self.events == old(self).events,
                self.fiat_events == old(self).fiat_events,
                self.queue == old(self).queue,
                self.globals == old(self).globals,
                self.cells@.len() == n,
                self.snapshots@.len() == old(self).snapshots@.len(),
                forall|k2: int| 0 <= k2 < self.snapshots@.len() ==> {
                    let sn = #[trigger] self.snapshots@[k2];
                    let so = old(self).snapshots@[k2];
                    sn.live == so.live && sn.time == so.time && sn.at_creation == so.at_creation
                },
                forall|c2: int, u: ExtendedTime|
                    0 <= c2 < n && !et_lt(u, bound_time) ==> #[trigger] value_before(
                        self.cells@[c2].data.changes@,
                        u,
                    ) == value_before(old(self).cells@[c2].data.changes@, u)
                        && #[trigger] value_at(self.cells@[c2].data.changes@, u) == value_at(
                        old(self).cells@[c2].data.changes@,
                        u,
                    ),
            decreases n - c,
        {
            let ghost pre_iter = *self;
            self.cow_update(c);
            let ghost cowed = *self;
            proof {
                lemma_events_frame(&pre_iter, &cowed);
                lemma_queue_membership(&pre_iter, &cowed);
                assert forall|k1: int, k2: int|
                    0 <= k1 < k2 < cowed.queue@.len() implies cowed.queue_lt(
                    (#[trigger] cowed.queue@[k1]) as int,
                    (#[trigger] cowed.queue@[k2]) as int,
                ) by {
                    assert(pre_iter.queue_lt(
                        pre_iter.queue@[k1] as int,
                        pre_iter.queue@[k2] as int,
                    ));
                }
                assert forall|k1: int, k2: int|
                    0 <= k1 < k2 < cowed.fiat_events@.len() implies et_lt(
                    cowed.events@[(#[trigger] cowed.fiat_events@[k1]) as int].time,
                    cowed.events@[(#[trigger] cowed.fiat_events@[k2]) as int].time,
                ) by {
                    assert(et_lt(
                        pre_iter.events@[pre_iter.fiat_events@[k1] as int].time,
                        pre_iter.events@[pre_iter.fiat_events@[k2] as int].time,
                    ));
                }
                assert forall|i: int|
                    0 <= i < cowed.events@.len() && i != -1 implies (
                #[trigger] cowed.needs_attention(i) <==> cowed.in_queue(i)) by {
                    assert(pre_iter.needs_attention(i) <==> pre_iter.in_queue(i));
                }
                assert(cowed.wf());
            }
            let cell = &mut self.cells[c];
            cell.data.forget_before(&bound_time);
            proof {
                assert forall|c2: int| 0 <= c2 < self.cells@.len() implies history_sorted(
                    (#[trigger] self.cells@[c2]).data.changes@,
                ) && self.cells@[c2].first_snapshot_not_updated <= self.snapshots@.len() by {
                    if c2 != c {
                        assert(self.cells@[c2] == cowed.cells@[c2]);
                    }
                }
                lemma_events_frame(&cowed, self);
                lemma_queue_membership(&cowed, self);
                assert forall|i: int|
                    0 <= i < self.events@.len() && i != -1 implies (
                #[trigger] self.needs_attention(i) <==> self.in_queue(i)) by {
                    assert(cowed.needs_attention(i) <==> cowed.in_queue(i));
                    assert(cowed.in_queue(i) == self.in_queue(i));
                }
                assert forall|k1: int, k2: int| 0 <= k1 < k2 < self.queue@.len() implies self.queue_lt(
                    (#[trigger] self.queue@[k1]) as int,
                    (#[trigger] self.queue@[k2]) as int,
                ) by {
                    assert(cowed.queue_lt(cowed.queue@[k1] as int, cowed.queue@[k2] as int));
                }
                assert forall|k1: int, k2: int|
                    0 <= k1 < k2 < self.fiat_events@.len() implies et_lt(
                    self.events@[(#[trigger] self.fiat_events@[k1]) as int].time,
                    self.events@[(#[trigger] self.fiat_events@[k2]) as int].time,
                ) by {
                    assert(et_lt(
                        cowed.events@[cowed.fiat_events@[k1] as int].time,
                        cowed.events@[cowed.fiat_events@[k2] as int].time,
                    ));
                }
                assert forall|k2: int, c2: int|
                    0 <= k2 < self.snapshots@.len() && 0 <= c2 < self.cells@.len() implies #[trigger] self.clone_ok(
                    k2,
                    c2,
                ) by {
                    assert(cowed.clone_ok(k2, c2));
                    if c2 != c {
                        assert(self.cells@[c2].data == cowed.cells@[c2].data);
                    } else {
                        if self.snapshots@[k2].live {
                            assert(cowed.snapshots@[k2].clones@[c2] is Some);
                        }
                    }
                }
                assert forall|k2: int, c2: int|
                    0 <= c2 < self.cells@.len() && 0 <= k2 < (
                    #[trigger] self.cells@[c2]).first_snapshot_not_updated && (
                    #[trigger] self.snapshots@[k2]).live implies self.snapshots@[k2].clones@[c2] is Some by {
                    assert(self.cells@[c2].first_snapshot_not_updated == cowed.cells@[c2].first_snapshot_not_updated);
                    assert(cowed.snapshots@[k2].clones@[c2] is Some);
                }
            }
            c = c + 1;
        }
    }

    /// The base time of the earliest event still needing attention, if any.
    pub fn updated_until_before(&self) -> (r: Option<i64>)
        requires
            self.wf(),
        ensures
            r is Some <==> self.queue@.len() > 0,
            r matches Some(t) ==> t == self.events@[self.queue@[0] as int].time.base,
    {
        if self.queue.len() > 0 {
            Some(self.events[self.queue[0]].time.base)
        } else {
            None
        }
    }
}

/// Appending a fresh, untouched event record to the arena disturbs no part
/// of well-formedness: all existing indices mean what they meant.
proof fn lemma_arena_grown(a: &Steward, b: &Steward)
    requires
        a.cells_wf(),
        a.events_wf(),
        a.queue_wf(),
        a.fiat_wf(),
        a.snapshots_wf(),
        a.cow_ok(),
        b.events@.len() == a.events@.len() + 1,
        forall|i: int| 0 <= i < a.events@.len() ==> b.events@[i] == a.events@[i],
        b.events@[a.events@.len() as int].created_by matches Some(c) ==> 0 <= c
            < a.events@.len() && et_lt(
            a.events@[c as int].time,
            b.events@[a.events@.len() as int].time,
        ),
        b.events@[a.events@.len() as int].destroyed_by is None,
        b.events@[a.events@.len() as int].execution_state is None,
        b.events@[a.events@.len() as int].should_be_executed,
        b.queue == a.queue,
        b.cells == a.cells,
        b.fiat_events == a.fiat_events,
        b.snapshots == a.snapshots,
        b.globals == a.globals,
    ensures
        b.cells_wf(),
        b.events_wf(),
        b.queue_wf(),
        b.fiat_wf(),
        b.snapshots_wf(),
        b.cow_ok(),
        forall|i: int| #[trigger] b.in_queue(i) == a.in_queue(i),
        forall|i: int| 0 <= i < a.events@.len() ==> (#[trigger] b.needs_attention(i)
            <==> a.needs_attention(i)),
        b.needs_attention(a.events@.len() as int),
        !b.in_queue(a.events@.len() as int),
{
    let n = a.events@.len() as int;
    assert forall|i: int| 0 <= i < b.events@.len() implies {
        let r = #[trigger] b.events@[i];
        &&& (r.created_by matches Some(c) ==> c < i && et_lt(b.events@[c as int].time, r.time))
        &&& (r.destroyed_by matches Some(d) ==> d < b.events@.len() && (d != i ==> et_lt(
            b.events@[d as int].time,
            r.time,
        )))
        &&& (r.execution_state matches Some(es) ==> forall|j: int|
            0 <= j < es.journal@.len() ==> b.op_wf(i, #[trigger] es.journal@[j]))
    } by {
        if i < n {
            assert(a.events@[i] == b.events@[i]);
            assert(a.events_wf());
            let r = a.events@[i];
            if r.execution_state is Some {
                let es = r.execution_state->0;
                assert forall|j: int| 0 <= j < es.journal@.len() implies b.op_wf(
                    i,
                    #[trigger] es.journal@[j],
                ) by {
                    assert(a.op_wf(i, es.journal@[j]));
                }
            }
        }
    }
    assert forall|k1: int, k2: int| 0 <= k1 < k2 < b.queue@.len() implies b.queue_lt(
        (#[trigger] b.queue@[k1]) as int,
        (#[trigger] b.queue@[k2]) as int,
    ) by {
        assert(a.queue_lt(a.queue@[k1] as int, a.queue@[k2] as int));
    }
    assert forall|k: int, c: int|
        0 <= k < b.snapshots@.len() && 0 <= c < b.cells@.len() implies #[trigger] b.clone_ok(
        k,
        c,
    ) by {
        assert(a.clone_ok(k, c));
    }
    assert forall|i: int| #[trigger] b.in_queue(i) == a.in_queue(i) by {
        if a.in_queue(i) {
            let k = choose|k: int| 0 <= k < a.queue@.len() && a.queue@[k] == i;
            assert(b.queue@[k] == i);
        }
        if b.in_queue(i) {
            let k = choose|k: int| 0 <= k < b.queue@.len() && b.queue@[k] == i;
            assert(a.queue@[k] == i);
        }
    }
    assert(!a.in_queue(n)) by {
        if a.in_queue(n) {
            let k = choose|k: int| 0 <= k < a.queue@.len() && a.queue@[k] == n;
            assert(a.queue@[k] < a.events@.len());
        }
    }
}

/// The well-formedness pieces depend only on the views carried here: they
/// transfer between stewards whose arenas, queue and snapshots agree.
proof fn lemma_frame(a: &Steward, b: &Steward)
    requires
        b.events@ == a.events@,
        b.cells@.len() == a.cells@.len(),
        b.queue@ == a.queue@,
    ensures
        a.events_wf() ==> b.events_wf(),
        a.queue_wf() ==> b.queue_wf(),
        forall|i: int| #[trigger] b.needs_attention(i) == a.needs_attention(i),
        forall|i: int| #[trigger] b.in_queue(i) == a.in_queue(i),
{
    if a.events_wf() {
        assert forall|i: int| 0 <= i < b.events@.len() implies {
            let r = #[trigger] b.events@[i];
            &&& (r.created_by matches Some(c) ==> c < i && et_lt(b.events@[c as int].time, r.time))
            &&& (r.destroyed_by matches Some(d) ==> d < b.events@.len() && (d != i ==> et_lt(
                b.events@[d as int].time,
                r.time,
            )))
            &&& (r.execution_state matches Some(es) ==> forall|j: int|
                0 <= j < es.journal@.len() ==> b.op_wf(i, #[trigger] es.journal@[j]))
        } by {
            assert(a.events@[i] == b.events@[i]);
            let r = a.events@[i];
            if r.execution_state is Some {
                let es = r.execution_state->0;
                assert forall|j: int| 0 <= j < es.journal@.len() implies b.op_wf(
                    i,
                    #[trigger] es.journal@[j],
                ) by {
                    assert(a.op_wf(i, es.journal@[j]));
                }
            }
        }
    }
    if a.queue_wf() {
        assert forall|k1: int, k2: int| 0 <= k1 < k2 < b.queue@.len() implies b.queue_lt(
            (#[trigger] b.queue@[k1]) as int,
            (#[trigger] b.queue@[k2]) as int,
        ) by {
            assert(a.queue_lt(a.queue@[k1] as int, a.queue@[k2] as int));
        }
    }
    assert forall|i: int| #[trigger] b.in_queue(i) == a.in_queue(i) by {
        if a.in_queue(i) {
            let k = choose|k: int| 0 <= k < a.queue@.len() && a.queue@[k] == i;
            assert(b.queue@[k] == i);
        }
        if b.in_queue(i) {
            let k = choose|k: int| 0 <= k < b.queue@.len() && b.queue@[k] == i;
            assert(a.queue@[k] == i);
        }
    }
}

/// Having a queued event at a given time depends only on the queue and
/// event views.
pub proof fn lemma_has_queued_agrees(a: &Steward, b: &Steward, t: ExtendedTime)
    requires
        b.queue@ == a.queue@,
        b.events@ == a.events@,
    ensures
        b.has_queued_at(t) == a.has_queued_at(t),
{
    if a.has_queued_at(t) {
        let k = choose|k: int|
            0 <= k < a.queue@.len() && a.events@[a.queue@[k] as int].time == t;
        assert(b.events@[b.queue@[k] as int].time == t);
    }
    if b.has_queued_at(t) {
        let k = choose|k: int|
            0 <= k < b.queue@.len() && b.events@[b.queue@[k] as int].time == t;
        assert(a.events@[a.queue@[k] as int].time == t);
    }
}

/// Queue membership depends only on the queue view.
proof fn lemma_queue_membership(a: &Steward, b: &Steward)
    requires
        b.queue@ == a.queue@,
    ensures
        forall|i: int| #[trigger] b.in_queue(i) == a.in_queue(i),
{
    assert forall|i: int| #[trigger] b.in_queue(i) == a.in_queue(i) by {
        if a.in_queue(i) {
            let k = choose|k: int| 0 <= k < a.queue@.len() && a.queue@[k] == i;
            assert(b.queue@[k] == i);
        }
        if b.in_queue(i) {
            let k = choose|k: int| 0 <= k < b.queue@.len() && b.queue@[k] == i;
            assert(a.queue@[k] == i);
        }
    }
}

/// Event-arena well-formedness and attention-need depend only on the event
/// and cell views carried here.
proof fn lemma_events_frame(a: &Steward, b: &Steward)
    requires
        b.events@ == a.events@,
        b.cells@.len() == a.cells@.len(),
    ensures
        a.events_wf() ==> b.events_wf(),
        forall|i: int| #[trigger] b.needs_attention(i) == a.needs_attention(i),
{
    if a.events_wf() {
        assert forall|i: int| 0 <= i < b.events@.len() implies {
            let r = #[trigger] b.events@[i];
            &&& (r.created_by matches Some(c) ==> c < i && et_lt(b.events@[c as int].time, r.time))
            &&& (r.destroyed_by matches Some(d) ==> d < b.events@.len() && (d != i ==> et_lt(
                b.events@[d as int].time,
                r.time,
            )))
            &&& (r.execution_state matches Some(es) ==> forall|j: int|
                0 <= j < es.journal@.len() ==> b.op_wf(i, #[trigger] es.journal@[j]))
        } by {
            assert(a.events@[i] == b.events@[i]);
            let r = a.events@[i];
            if r.execution_state is Some {
                let es = r.execution_state->0;
                assert forall|j: int| 0 <= j < es.journal@.len() implies b.op_wf(
                    i,
                    #[trigger] es.journal@[j],
                ) by {
                    assert(a.op_wf(i, es.journal@[j]));
                }
            }
        }
    }
}

/// Replacing the mutable parts of one event record, with its time, payload
/// and creator untouched, preserves the arena's well-formedness, as long as
/// the new destruction state and journal are themselves well-formed.
proof fn lemma_record_replaced(a: &Steward, b: &Steward, p: int)
    requires
        a.cells_wf(),
        a.events_wf(),
        a.queue_wf(),
        a.snapshots_wf(),
        a.cow_ok(),
        0 <= p < a.events@.len(),
        b.events@ == a.events@.update(p, b.events@[p]),
        b.events@[p].time == a.events@[p].time,
        b.events@[p].created_by == a.events@[p].created_by,
        b.events@[p].destroyed_by matches Some(d) ==> d < a.events@.len() && (d != p ==> et_lt(
            a.events@[d as int].time,
            a.events@[p].time,
        )),
        b.events@[p].execution_state matches Some(es) ==> forall|j: int|
            0 <= j < es.journal@.len() ==> a.op_wf(p, #[trigger] es.journal@[j]),
        b.cells@ == a.cells@,
        b.queue@ == a.queue@,
        b.snapshots@ == a.snapshots@,
    ensures
        b.cells_wf(),
        b.events_wf(),
        b.queue_wf(),
        b.snapshots_wf(),
        b.cow_ok(),
        a.fiat_wf() && b.fiat_events@ == a.fiat_events@ && (b.events@[p].destroyed_by is None
            || a.events@[p].created_by is Some) ==> b.fiat_wf(),
        forall|i: int| 0 <= i < a.events@.len() && i != p ==> (#[trigger] b.needs_attention(i)
            == a.needs_attention(i)),
        forall|i: int| #[trigger] b.in_queue(i) == a.in_queue(i),
{
    if a.fiat_wf() && b.fiat_events@ == a.fiat_events@ && (b.events@[p].destroyed_by is None
        || a.events@[p].created_by is Some) {
        assert forall|k: int| 0 <= k < b.fiat_events@.len() implies (#[trigger] b.fiat_events@[k])
            < b.events@.len() && b.events@[b.fiat_events@[k] as int].created_by is None
            && b.events@[b.fiat_events@[k] as int].destroyed_by is None by {
            if b.fiat_events@[k] != p {
                assert(b.events@[b.fiat_events@[k] as int] == a.events@[a.fiat_events@[k] as int]);
            }
        }
        assert forall|k1: int, k2: int| 0 <= k1 < k2 < b.fiat_events@.len() implies et_lt(
            b.events@[(#[trigger] b.fiat_events@[k1]) as int].time,
            b.events@[(#[trigger] b.fiat_events@[k2]) as int].time,
        ) by {
            assert(et_lt(
                a.events@[a.fiat_events@[k1] as int].time,
                a.events@[a.fiat_events@[k2] as int].time,
            ));
            assert(b.events@[b.fiat_events@[k1] as int].time == a.events@[a.fiat_events@[k1] as int].time);
            assert(b.events@[b.fiat_events@[k2] as int].time == a.events@[a.fiat_events@[k2] as int].time);
        }
    }
    assert forall|i: int| 0 <= i < b.events@.len() implies {
        let r = #[trigger] b.events@[i];
        &&& (r.created_by matches Some(c) ==> c < i && et_lt(b.events@[c as int].time, r.time))
        &&& (r.destroyed_by matches Some(d) ==> d < b.events@.len() && (d != i ==> et_lt(
            b.events@[d as int].time,
            r.time,
        )))
        &&& (r.execution_state matches Some(es) ==> forall|j: int|
            0 <= j < es.journal@.len() ==> b.op_wf(i, #[trigger] es.journal@[j]))
    } by {
        if i != p {
            assert(b.events@[i] == a.events@[i]);
        }
        let r = b.events@[i];
        assert(r.time == a.events@[i].time);
        if r.created_by is Some {
            let c = r.created_by->0;
            assert(b.events@[c as int].time == a.events@[c as int].time);
        }
        if r.destroyed_by is Some {
            let d = r.destroyed_by->0;
            assert(b.events@[d as int].time == a.events@[d as int].time);
        }
        if r.execution_state is Some {
            let es = r.execution_state->0;
            assert forall|j: int| 0 <= j < es.journal@.len() implies b.op_wf(
                i,
                #[trigger] es.journal@[j],
            ) by {
                assert(a.op_wf(i, es.journal@[j]));
                match es.journal@[j] {
                    UndoOp::Modify { cell, prev } => {},
                    UndoOp::Create { prediction } => {
                        assert(b.events@[prediction as int].created_by == a.events@[prediction as int].created_by);
                    },
                    UndoOp::Destroy { prediction, prev_destroyed_by, prev_should } => {
                        assert(b.events@[prediction as int].created_by == a.events@[prediction as int].created_by);
                    },
                }
            }
        }
    }
    assert forall|k1: int, k2: int| 0 <= k1 < k2 < b.queue@.len() implies b.queue_lt(
        (#[trigger] b.queue@[k1]) as int,
        (#[trigger] b.queue@[k2]) as int,
    ) by {
        assert(a.queue_lt(a.queue@[k1] as int, a.queue@[k2] as int));
        assert(b.events@[b.queue@[k1] as int].time == a.events@[a.queue@[k1] as int].time);
        assert(b.events@[b.queue@[k2] as int].time == a.events@[a.queue@[k2] as int].time);
    }
    assert forall|k: int, c: int|
        0 <= k < b.snapshots@.len() && 0 <= c < b.cells@.len() implies #[trigger] b.clone_ok(
        k,
        c,
    ) by {
        assert(a.clone_ok(k, c));
    }
    assert forall|i: int| #[trigger] b.in_queue(i) == a.in_queue(i) by {
        if a.in_queue(i) {
            let k = choose|k: int| 0 <= k < a.queue@.len() && a.queue@[k] == i;
            assert(b.queue@[k] == i);
        }
        if b.in_queue(i) {
            let k = choose|k: int| 0 <= k < b.queue@.len() && b.queue@[k] == i;
            assert(a.queue@[k] == i);
        }
    }
}

/// A payload outcome, lifted to what `step` returns on that head.
pub open spec fn as_step_result(o: Result<(), KernelError>) -> Result<bool, KernelError> {
    match o {
        Result::Ok(u) => Ok(true),
        Result::Err(e) => Err(e),
    }
}

/// The first live match depends only on the event arena.
proof fn lemma_flmf_agrees(
    a: &Steward,
    b: &Steward,
    base: i64,
    idv: DeterministicRandomId,
    j: int,
)
    requires
        b.events@ == a.events@,
    ensures
        crate::bouncy::first_live_match_from(*b, base, idv, j) == crate::bouncy::first_live_match_from(
            *a,
            base,
            idv,
            j,
        ),
    decreases a.events@.len() - j,
{
    if 0 <= j < a.events@.len() {
        lemma_flmf_agrees(a, b, base, idv, j + 1);
    }
}

/// What executing a payload returns does not depend on the executing event's
/// own place in the queue: dequeuing it first changes nothing, because every
/// extended time the execution could collide with lies strictly after its
/// own.
proof fn lemma_outcome_dequeued(a: &Steward, b: &Steward, ev: int)
    requires
        b.events@ == a.events@,
        b.cells@.len() == a.cells@.len(),
        0 <= ev < a.events@.len(),
        forall|j: int| #[trigger] b.in_queue(j) <==> (a.in_queue(j) && j != ev),
    ensures
        crate::bouncy::spec_execute_outcome(*b, ev) == crate::bouncy::spec_execute_outcome(
            *a,
            ev,
        ),
{
    let now = a.events@[ev].time;
    match a.events@[ev].payload {
        Payload::SetMotionAndPredict { position, velocity, when, id } => {
            if b.cells@.len() > 0 && when >= now.base && !crate::bouncy::ceiling_hit(
                now,
                when,
                id,
            ) {
                lemma_queued_time_dequeued(
                    a,
                    b,
                    ev,
                    crate::common::spec_predicted_time(when, id, now),
                );
            }
        },
        Payload::ChainPredict { id } => {
            if !crate::bouncy::ceiling_hit(now, now.base, id) {
                lemma_queued_time_dequeued(
                    a,
                    b,
                    ev,
                    crate::common::spec_predicted_time(now.base, id, now),
                );
            }
        },
        Payload::DestroyPredictionAt { base, id } => {
            lemma_flmf_agrees(a, b, base, id, 0);
        },
        _ => {},
    }
}

/// A time strictly after the dequeued event's own is queued in the dequeued
/// state exactly when it was queued before.
proof fn lemma_queued_time_dequeued(a: &Steward, b: &Steward, ev: int, t: ExtendedTime)
    requires
        b.events@ == a.events@,
        0 <= ev < a.events@.len(),
        forall|j: int| #[trigger] b.in_queue(j) <==> (a.in_queue(j) && j != ev),
        et_lt(a.events@[ev].time, t),
    ensures
        b.has_queued_at(t) == a.has_queued_at(t),
{
    lemma_et_order(a.events@[ev].time, t, t);
    if a.has_queued_at(t) {
        let k = choose|k: int|
            0 <= k < a.queue@.len() && a.events@[a.queue@[k] as int].time == t;
        let j = a.queue@[k] as int;
        assert(a.in_queue(j));
        assert(j != ev);
        assert(b.in_queue(j));
        let k2 = choose|k2: int| 0 <= k2 < b.queue@.len() && b.queue@[k2] == j;
        assert(b.events@[b.queue@[k2] as int].time == t);
    }
    if b.has_queued_at(t) {
        let k = choose|k: int|
            0 <= k < b.queue@.len() && b.events@[b.queue@[k] as int].time == t;
        let j = b.queue@[k] as int;
        assert(b.in_queue(j));
        assert(a.in_queue(j));
        let k2 = choose|k2: int| 0 <= k2 < a.queue@.len() && a.queue@[k2] == j;
        assert(a.events@[a.queue@[k2] as int].time == t);
    }
}

/// A payload outcome is success or one of the three prediction-lifecycle
/// errors.
proof fn lemma_outcome_errors(s: &Steward, ev: int)
    ensures
        crate::bouncy::spec_execute_outcome(*s, ev) matches Err(e) ==> (e
            == KernelError::TooManyIterations || e == KernelError::DuplicateExtendedTime || e
            == KernelError::TargetInPast),
{
}

/// Two positions of a well-formed fiat list hold two different events.
proof fn lemma_fiat_wf_distinct(s: &Steward, k1: int, k2: int)
    requires
        s.fiat_wf(),
        0 <= k1 < k2 < s.fiat_events@.len(),
    ensures
        s.fiat_events@[k1] != s.fiat_events@[k2],
{
    assert(et_lt(
        s.events@[s.fiat_events@[k1] as int].time,
        s.events@[s.fiat_events@[k2] as int].time,
    ));
    if s.fiat_events@[k1] == s.fiat_events@[k2] {
        lemma_et_order(
            s.events@[s.fiat_events@[k1] as int].time,
            s.events@[s.fiat_events@[k1] as int].time,
            s.events@[s.fiat_events@[k1] as int].time,
        );
    }
}

/// Two positions of a well-formed queue hold two different events.
proof fn lemma_queue_wf_distinct(s: &Steward, k1: int, k2: int)
    requires
        s.queue_wf(),
        0 <= k1 < k2 < s.queue@.len(),
    ensures
        s.queue@[k1] != s.queue@[k2],
{
    assert(s.queue_lt(s.queue@[k1] as int, s.queue@[k2] as int));
}

} // verus!
