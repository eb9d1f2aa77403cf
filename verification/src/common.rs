//! Helpers shared by steward implementations: ordered-collection splitting,
//! the derivation of extended times for fiat and predicted events, and the
//! deterministic generator for ids of events created by other events.

use vstd::prelude::*;
use crate::ids::DeterministicRandomId;
use crate::ids::id_lt;
use crate::ids::sip_id_of_words;
use crate::api::ExtendedTime;
use crate::api::MAX_ITERATION;

verus! {

/// Whether a sequence of keyed entries is sorted strictly by key.
pub open spec fn entries_sorted<V>(s: Seq<(u64, V)>) -> bool {
    forall|i: int, j: int| 0 <= i < j < s.len() ==> #[trigger] s[i].0 < #[trigger] s[j].0
}

/// Whether a sequence of keys is sorted strictly.
pub open spec fn keys_sorted(s: Seq<u64>) -> bool {
    forall|i: int, j: int| 0 <= i < j < s.len() ==> #[trigger] s[i] < #[trigger] s[j]
}

/// Removes from `input` every entry whose key is greater than `split` and
/// returns those entries; entries with key equal to `split` stay in `input`.
pub fn split_off_greater<V>(input: &mut Vec<(u64, V)>, split: u64) -> (result: Vec<(u64, V)>)
    requires
        entries_sorted(old(input)@),
    ensures
        old(input)@ == final(input)@ + result@,
        forall|i: int| 0 <= i < final(input)@.len() ==> #[trigger] final(input)@[i].0 <= split,
        forall|i: int| 0 <= i < result@.len() ==> #[trigger] result@[i].0 > split,
        entries_sorted(final(input)@),
        entries_sorted(result@),
{
    let mut cut: usize = 0;
    while cut < input.len() && input[cut].0 <= split
        invariant
            cut <= input@.len(),
            entries_sorted(input@),
            forall|i: int| 0 <= i < cut ==> #[trigger] input@[i].0 <= split,
        decreases input@.len() - cut,
    {
        cut = cut + 1;
    }
    proof {
        assert forall|i: int| cut <= i < input@.len() implies #[trigger] input@[i].0 > split by {
            if i > cut {
                assert(input@[cut as int].0 < input@[i].0);
            }
        }
    }
    let result = input.split_off(cut);
    result
}

/// Removes from `input` every key greater than `split` and returns those
/// keys; a key equal to `split` stays in `input`.
pub fn split_off_greater_set(input: &mut Vec<u64>, split: u64) -> (result: Vec<u64>)
    requires
        keys_sorted(old(input)@),
    ensures
        old(input)@ == final(input)@ + result@,
        forall|i: int| 0 <= i < final(input)@.len() ==> #[trigger] final(input)@[i] <= split,
        forall|i: int| 0 <= i < result@.len() ==> #[trigger] result@[i] > split,
        keys_sorted(final(input)@),
        keys_sorted(result@),
{
    let mut cut: usize = 0;
    while cut < input.len() && input[cut] <= split
        invariant
            cut <= input@.len(),
            keys_sorted(input@),
            forall|i: int| 0 <= i < cut ==> #[trigger] input@[i] <= split,
        decreases input@.len() - cut,
    {
        cut = cut + 1;
    }
    proof {
        assert forall|i: int| cut <= i < input@.len() implies #[trigger] input@[i] > split by {
            if i > cut {
                assert(input@[cut as int] < input@[i]);
            }
        }
    }
    let result = input.split_off(cut);
    result
}

/// The extended time of a fiat event inserted at `time` with the
/// client-chosen `id`: iteration zero, and the id folded through the
/// fiat-event derivation.
pub open spec fn spec_fiat_time(time: i64, id: DeterministicRandomId) -> ExtendedTime {
    ExtendedTime {
        base: time,
        iteration: 0,
        id: DeterministicRandomId {
            data0: id.data0 ^ 0xc1638f5d58e94a72u64,
            data1: id.data1 ^ 0x8a70e7ad5c36d9f4u64,
        },
    }
}

/// The extended time at which a fiat event inserted at `time` with the
/// client-chosen `id` executes.
pub fn extended_time_of_fiat_event(time: i64, id: DeterministicRandomId) -> (r: ExtendedTime)
    ensures
        r == spec_fiat_time(time, id),
{
    ExtendedTime { base: time, iteration: 0, id: id.for_fiat_event_internal() }
}

/// The extended time a prediction for base time `base` with identifier `id`
/// receives from the creating event at `from`, whenever one is derivable.
pub open spec fn spec_predicted_time(base: i64, id: DeterministicRandomId, from: ExtendedTime) -> ExtendedTime {
    if base > from.base {
        ExtendedTime { base, iteration: 0, id }
    } else if id_lt(from.id, id) {
        ExtendedTime { base, iteration: from.iteration, id }
    } else {
        ExtendedTime { base, iteration: (from.iteration + 1) as u32, id }
    }
}

/// Why no extended time could be derived for a prediction.
#[derive(Copy, Clone, PartialEq, Eq, Structural, Debug)]
pub enum PredictedTimeError {
    /// The requested base time lies before the creating event's base time.
    InThePast,
    /// The chain of predictions at this base time has reached `MAX_ITERATION`.
    TooManyIterations,
}

/// The extended time at which an event predicted by the event at `from`, for
/// base time `base` and with identifier `id`, executes.
///
/// At a later base time the iteration restarts at zero. At the same base
/// time, an id greater than the creator's keeps the creator's iteration, and
/// any other id moves to the next iteration; `MAX_ITERATION` bounds that
/// climb. The derived time is always strictly after `from`.
pub fn extended_time_of_predicted_event(
    base: i64,
    id: DeterministicRandomId,
    from: &ExtendedTime,
) -> (r: Result<ExtendedTime, PredictedTimeError>)
    ensures
        r == Err::<ExtendedTime, PredictedTimeError>(PredictedTimeError::InThePast)
            <==> base < from.base,
        r == Err::<ExtendedTime, PredictedTimeError>(PredictedTimeError::TooManyIterations)
            <==> (base == from.base && !id_lt(from.id, id) && from.iteration >= MAX_ITERATION),
        base > from.base ==> r == Ok::<ExtendedTime, PredictedTimeError>(
            ExtendedTime { base, iteration: 0, id },
        ),
        base == from.base && id_lt(from.id, id) ==> r == Ok::<ExtendedTime, PredictedTimeError>(
            ExtendedTime { base, iteration: from.iteration, id },
        ),
        base == from.base && !id_lt(from.id, id) && from.iteration < MAX_ITERATION
            ==> r == Ok::<ExtendedTime, PredictedTimeError>(
            ExtendedTime { base, iteration: (from.iteration + 1) as u32, id },
        ),
        r matches Ok(t) ==> crate::api::et_lt(*from, t),
        r matches Ok(t) ==> t == spec_predicted_time(base, id, *from),
{
    if base < from.base {
        Err(PredictedTimeError::InThePast)
    } else if base > from.base {
        Ok(ExtendedTime { base, iteration: 0, id })
    } else if from.id.lt(&id) {
        Ok(ExtendedTime { base, iteration: from.iteration, id })
    } else if from.iteration >= MAX_ITERATION {
        Err(PredictedTimeError::TooManyIterations)
    } else {
        Ok(ExtendedTime { base, iteration: from.iteration + 1, id })
    }
}

/// What a steward implementation may attach to shared data for its own
/// bookkeeping; every type qualifies.
pub trait PrivateTimeStewardDataTrait {

}

impl<T> PrivateTimeStewardDataTrait for T {

}

/// Client-visible immutable data paired with a steward implementation's own
/// bookkeeping, handed around as one value.
#[derive(Clone, Debug)]
pub struct DataHandle<PublicImmutableData, PrivateTimeStewardData> {
    pub public_data: PublicImmutableData,
    pub private_data: PrivateTimeStewardData,
}

impl<P, Q> DataHandle<P, Q> {
    /// The client-visible part.
    pub fn public_part(&self) -> (r: &P)
        ensures
            *r == self.public_data,
    {
        &self.public_data
    }
}

/// Hands out deterministic identifiers for the events a given event creates:
/// the first is hashed from the creating event's own id, and each further one
/// increments the low word of its predecessor.
#[derive(Clone, Debug)]
pub struct EventChildrenIdGenerator {
    pub next: Option<DeterministicRandomId>,
}

/// The low word advanced by one, wrapping at the top of the range.
pub open spec fn wrapping_inc(x: u64) -> u64 {
    if x == u64::MAX {
        0
    } else {
        (x + 1) as u64
    }
}

impl EventChildrenIdGenerator {
    /// A generator that has handed out nothing yet.
    pub fn new() -> (r: EventChildrenIdGenerator)
        ensures
            r.next == Option::<DeterministicRandomId>::None,
    {
        EventChildrenIdGenerator { next: None }
    }

    /// The next child id for the event whose own id is `this_event_id`.
    pub fn next(&mut self, this_event_id: &DeterministicRandomId) -> (result: DeterministicRandomId)
        ensures
            old(self).next matches Some(n) ==> result == n,
            old(self).next is None ==> (result.data0, result.data1) == sip_id_of_words(
                this_event_id.data0,
                this_event_id.data1,
            ),
            final(self).next matches Some(n) && n.data0 == result.data0 && n.data1
                == wrapping_inc(result.data1),
    {
        let result = match self.next {
            None => DeterministicRandomId::new_from_words(
                this_event_id.data0,
                this_event_id.data1,
            ),
            Some(n) => n,
        };
        let low = result.data1;
        let bumped: u64 = if low == u64::MAX {
            0
        } else {
            low + 1
        };
        self.next = Some(DeterministicRandomId { data0: result.data0, data1: bumped });
        result
    }
}

} // verus!
