//! A one-dimensional bouncing-ball world: the concrete simulation the
//! steward runs. Each cell holds a [`Motion`], a linear trajectory from its
//! last change; events set or alter trajectories, schedule reversals as
//! predictions, destroy predictions, and invalidate the executions their
//! changes have undermined.

use vstd::prelude::*;
use crate::ids::DeterministicRandomId;
use crate::simple_full::Steward;
use crate::simple_full::UndoOp;
use crate::simple_full::KernelError;
use crate::simple_full::first_modify_prev;

verus! {

/// Shared configuration of a simulation: how many ball cells the world has.
#[derive(Copy, Clone, PartialEq, Eq, Structural, Debug)]
pub struct Globals {
    pub cell_count: usize,
}

/// The globals for the usual single-ball world.
pub fn make_globals() -> (r: Globals)
    ensures
        r.cell_count == 1,
{
    Globals { cell_count: 1 }
}

/// A ball's trajectory from the moment `origin`: it sits at `position` then
/// and moves by `velocity` per time unit.
#[derive(Copy, Clone, PartialEq, Eq, Structural, Debug)]
pub struct Motion {
    pub position: i64,
    pub velocity: i64,
    pub origin: i64,
}

/// Where a trajectory puts the ball at time `t`, as an unbounded integer.
pub open spec fn motion_eval(m: Motion, t: i64) -> int {
    m.position + m.velocity * (t - m.origin)
}

impl Motion {
    /// Where the trajectory puts the ball at time `t`, if that fits an `i64`.
    pub fn evaluate(&self, t: i64) -> (r: Option<i64>)
        ensures
            r matches Some(v) ==> v == motion_eval(*self, t),
            r is Some <==> i64::MIN <= motion_eval(*self, t) <= i64::MAX,
    {
        let delta: i128 = (t as i128) - (self.origin as i128);
        proof {
            lemma_mul_bound(
                self.velocity as int,
                delta as int,
                0x8000_0000_0000_0000,
                0xffff_ffff_ffff_ffff,
            );
        }
        let travelled: i128 = (self.velocity as i128) * delta;
        let total: i128 = (self.position as i128) + travelled;
        if total >= i64::MIN as i128 && total <= i64::MAX as i128 {
            Some(total as i64)
        } else {
            None
        }
    }
}

/// `|a| <= ba` and `|b| <= bb` bound the product `a * b` by `ba * bb`.
proof fn lemma_mul_bound(a: int, b: int, ba: int, bb: int)
    requires
        -ba <= a <= ba,
        -bb <= b <= bb,
        0 <= ba,
        0 <= bb,
    ensures
        -(ba * bb) <= a * b <= ba * bb,
{
    let aa = if a >= 0 {
        a
    } else {
        -a
    };
    let ab = if b >= 0 {
        b
    } else {
        -b
    };
    vstd::arithmetic::mul::lemma_mul_upper_bound(aa, ba, ab, bb);
    assert(a * b == aa * ab || a * b == -(aa * ab)) by (nonlinear_arith)
        requires
            aa == a || aa == -a,
            ab == b || ab == -b,
    ;
    assert(aa * ab >= 0) by (nonlinear_arith)
        requires
            aa >= 0 && ab >= 0,
    ;
}

/// The event that sets the world up: every ball at rest at the origin.
#[derive(Copy, Clone, PartialEq, Eq, Structural, Debug)]
pub struct Initialize {}

/// The event that kicks the ball: its velocity changes by the first
/// coordinate of the kick.
#[derive(Copy, Clone, Debug)]
pub struct Disturb {
    pub coordinates: [i64; 2],
}

/// What an event does when it executes.
#[derive(Copy, Clone, Debug)]
pub enum Payload {
    /// Put every ball at rest at position zero.
    Initialize(Initialize),
    /// Kick the ball: add the first coordinate to its velocity.
    Disturb(Disturb),
    /// Put the ball at `position` with `velocity`, from now on.
    SetMotion { position: i64, velocity: i64 },
    /// As `SetMotion`, and also predict a velocity reversal at base time
    /// `when` under identifier `id`.
    SetMotionAndPredict { position: i64, velocity: i64, when: i64, id: DeterministicRandomId },
    /// Reverse the ball's velocity from the ball's position now.
    ReverseVelocity,
    /// Destroy the pending prediction at base time `base` with identifier
    /// `id`, if one is live.
    DestroyPredictionAt { base: i64, id: DeterministicRandomId },
    /// Predict another event just like this one at the same base time: a
    /// client bug the iteration ceiling must catch.
    ChainPredict { id: DeterministicRandomId },
}

/// `a + b`, or `a` unchanged where the sum would leave the range.
pub open spec fn vel_plus(a: i64, b: i64) -> i64 {
    if i64::MIN <= a + b <= i64::MAX {
        (a + b) as i64
    } else {
        a
    }
}

/// The motion a kick with `impulse` at base time `t` writes over `m`: the
/// ball keeps its place (where that place is representable) and gains the
/// impulse.
pub open spec fn kicked(m: Motion, impulse: i64, t: i64) -> Motion {
    if i64::MIN <= motion_eval(m, t) <= i64::MAX {
        Motion {
            position: motion_eval(m, t) as i64,
            velocity: vel_plus(m.velocity, impulse),
            origin: t,
        }
    } else {
        Motion { position: m.position, velocity: vel_plus(m.velocity, impulse), origin: m.origin }
    }
}

/// `-v`, with the one value whose negation does not exist left unchanged.
pub open spec fn vel_neg(v: i64) -> i64 {
    if v == i64::MIN {
        i64::MIN
    } else {
        (-v) as i64
    }
}

/// The motion a reversal event at base time `t` writes over `m`: the ball
/// keeps its place (where that place is representable) and its velocity
/// turns around.
pub open spec fn reversed(m: Motion, t: i64) -> Motion {
    if i64::MIN <= motion_eval(m, t) <= i64::MAX {
        Motion { position: motion_eval(m, t) as i64, velocity: vel_neg(m.velocity), origin: t }
    } else {
        Motion { position: m.position, velocity: vel_neg(m.velocity), origin: m.origin }
    }
}

/// The ball a cell holds before any event has touched it.
pub open spec fn resting(t: i64) -> Motion {
    Motion { position: 0, velocity: 0, origin: t }
}

/// Whether the prediction rule refuses base time `when` with identifier
/// `idv` from the event at `from`: the iteration ceiling is hit.
pub open spec fn ceiling_hit(from: crate::api::ExtendedTime, when: i64, idv: DeterministicRandomId) -> bool {
    when == from.base && !crate::ids::id_lt(from.id, idv) && from.iteration
        >= crate::api::MAX_ITERATION
}

/// Whether arena slot `j` holds a live prediction at base time `base` under
/// identifier `idv`.
pub open spec fn live_match(pre: Steward, base: i64, idv: DeterministicRandomId, j: int) -> bool {
    &&& 0 <= j < pre.events@.len()
    &&& pre.events@[j].created_by is Some
    &&& pre.events@[j].destroyed_by is None
    &&& pre.events@[j].time.base == base
    &&& pre.events@[j].time.id == idv
}

/// The first live prediction at `(base, idv)` from slot `j` on, if any.
pub open spec fn first_live_match_from(
    pre: Steward,
    base: i64,
    idv: DeterministicRandomId,
    j: int,
) -> Option<int>
    decreases pre.events@.len() - j,
{
    if j < 0 || j >= pre.events@.len() {
        None
    } else if live_match(pre, base, idv, j) {
        Some(j)
    } else {
        first_live_match_from(pre, base, idv, j + 1)
    }
}

/// Exactly what executing the payload of event `ev` against state `pre`
/// returns: creating a prediction fails at the iteration ceiling or on a
/// queued extended time; destroying one fails when the first live match
/// lies in this event's past; everything else succeeds.
pub open spec fn spec_execute_outcome(pre: Steward, ev: int) -> Result<(), KernelError> {
    let now = pre.events@[ev].time;
    match pre.events@[ev].payload {
        Payload::SetMotionAndPredict { position, velocity, when, id } => {
            if pre.cells@.len() == 0 || when < now.base {
                Ok(())
            } else if ceiling_hit(now, when, id) {
                Err(KernelError::TooManyIterations)
            } else if pre.has_queued_at(crate::common::spec_predicted_time(when, id, now)) {
                Err(KernelError::DuplicateExtendedTime)
            } else {
                Ok(())
            }
        },
        Payload::ChainPredict { id } => {
            if ceiling_hit(now, now.base, id) {
                Err(KernelError::TooManyIterations)
            } else if pre.has_queued_at(
                crate::common::spec_predicted_time(now.base, id, now),
            ) {
                Err(KernelError::DuplicateExtendedTime)
            } else {
                Ok(())
            }
        },
        Payload::DestroyPredictionAt { base, id } => {
            match first_live_match_from(pre, base, id, 0) {
                Option::None => Ok(()),
                Option::Some(j) => if j != ev && !crate::api::et_lt(now, pre.events@[j].time) {
                    Err(KernelError::TargetInPast)
                } else {
                    Ok(())
                },
            }
        },
        _ => Ok(()),
    }
}

/// A prefix without a live match does not move the first one.
pub proof fn lemma_first_match_skip(
    pre: Steward,
    base: i64,
    idv: DeterministicRandomId,
    j: int,
)
    requires
        0 <= j <= pre.events@.len(),
        forall|j2: int| 0 <= j2 < j ==> !live_match(pre, base, idv, j2),
    ensures
        first_live_match_from(pre, base, idv, 0) == first_live_match_from(pre, base, idv, j),
    decreases j,
{
    if j > 0 {
        lemma_first_match_skip(pre, base, idv, j - 1);
    }
}

/// Marks every executed event strictly after the event at `ev` as stale, so
/// the steward re-runs each of them; the blunt, always-sufficient reading of
/// the duty an event has after changing a cell.
fn invalidate_future(steward: &mut Steward, ev: usize)
    requires
        old(steward).wf_except(ev as int),
        ev < old(steward).events@.len(),
    ensures
        Steward::exec_frame(*old(steward), *final(steward), ev as int),
        final(steward).events@.len() == old(steward).events@.len(),
        final(steward).cells == old(steward).cells,
{
    let ghost pre = *steward;
    let n = steward.events.len();
    let now = steward.events[ev].time;
    let mut i: usize = 0;
    proof {
        assert(Steward::exec_frame(pre, *steward, ev as int));
    }
    while i < n
        invariant
            Steward::exec_frame(pre, *steward, ev as int),
            steward.cells == pre.cells,
            steward.events@.len() == n,
            n == pre.events@.len(),
            ev < n,
            now == pre.events@[ev as int].time,
            i <= n,
        decreases n - i,
    {
        if now.lt(&steward.events[i].time) {
            let ghost b = *steward;
            steward.invalidate_event_execution(ev, i);
            proof {
                assert(Steward::exec_frame(b, *steward, ev as int)) by {
                    if b.events@[i as int].execution_state is Some {
                        assert forall|j: int| #[trigger] steward.in_queue(j) && !b.in_queue(j)
                            implies 0 <= j < steward.events@.len() && crate::api::et_lt(
                            b.events@[ev as int].time,
                            steward.events@[j].time,
                        ) by {
                            assert(j == i);
                        }
                    }
                }
                Steward::lemma_exec_frame_trans(pre, b, *steward, ev as int);
            }
        }
        i = i + 1;
    }
}

/// A predicted event destroys its own prediction as it finishes; fiat
/// events, and predictions already destroyed, are left as they stand.
fn self_destruct(steward: &mut Steward, ev: usize, journal: &mut Vec<UndoOp>)
    requires
        old(steward).wf_except(ev as int),
        ev < old(steward).events@.len(),
    ensures
        Steward::exec_frame(*old(steward), *final(steward), ev as int),
        final(steward).events@.len() == old(steward).events@.len(),
        final(steward).cells == old(steward).cells,
        old(steward).events@[ev as int].created_by is Some ==> final(steward).events@[ev as int].destroyed_by is Some,
        forall|k: int| 0 <= k < old(journal)@.len() ==> #[trigger] final(journal)@[k] == old(journal)@[k],
        final(journal)@.len() >= old(journal)@.len(),
        forall|c: int| first_modify_prev(final(journal)@, c) == first_modify_prev(
            old(journal)@,
            c,
        ),
        forall|k: int| old(journal)@.len() <= k < final(journal)@.len() ==> match #[trigger] final(journal)@[k] {
            UndoOp::Modify { cell, prev } => false,
            UndoOp::Create { prediction } => false,
            UndoOp::Destroy { prediction, prev_destroyed_by, prev_should } => prediction == ev
                && prev_destroyed_by is None,
        },
{
    let is_prediction = steward.events[ev].created_by.is_some();
    let not_destroyed = steward.events[ev].destroyed_by.is_none();
    if is_prediction && not_destroyed {
        let r = steward.destroy_prediction(ev, ev, journal);
        proof {
            assert(r is Ok);
            assert forall|c: int| first_modify_prev(final(journal)@, c) == first_modify_prev(
                old(journal)@,
                c,
            ) by {
                crate::simple_full::lemma_first_modify_push(
                    old(journal)@,
                    final(journal)@[final(journal)@.len() - 1],
                    c,
                );
            }
            assert forall|j: int| #[trigger] steward.in_queue(j) && !old(steward).in_queue(j)
                implies 0 <= j < steward.events@.len() && crate::api::et_lt(
                old(steward).events@[ev as int].time,
                steward.events@[j].time,
            ) by {
                assert(j == ev);
            }
        }
    }
}

/// Writes `m` into cell `c` at the executing event's moment and extends the
/// journal with the slot that was there.
fn set_cell(steward: &mut Steward, ev: usize, c: usize, m: Motion, journal: &mut Vec<UndoOp>)
    requires
        old(steward).wf_except(ev as int),
        ev < old(steward).events@.len(),
        c < old(steward).cells@.len(),
    ensures
        Steward::exec_frame(*old(steward), *final(steward), ev as int),
        final(journal)@ == old(journal)@.push(
            UndoOp::Modify {
                cell: c,
                prev: crate::simple_timeline::entry_at(
                    old(steward).cells@[c as int].data.changes@,
                    old(steward).events@[ev as int].time,
                ),
            },
        ),
        crate::simple_timeline::entry_at(
            final(steward).cells@[c as int].data.changes@,
            old(steward).events@[ev as int].time,
        ) == Some(m),
        forall|c2: int| 0 <= c2 < old(steward).cells@.len() && c2 != c ==> (#[trigger] final(steward).cells@[c2]).data == old(steward).cells@[c2].data,
        final(steward).events@.len() == old(steward).events@.len(),
        final(steward).events == old(steward).events,
        final(steward).queue == old(steward).queue,
        final(steward).cells@.len() == old(steward).cells@.len(),
    {
        steward.modify(ev, c, m, journal);
        proof {
            assert forall|c2: int, u: crate::api::ExtendedTime|
                0 <= c2 < old(steward).cells@.len() && u != old(steward).events@[ev as int].time
                    implies #[trigger] crate::simple_timeline::entry_at(
                steward.cells@[c2].data.changes@,
                u,
            ) == crate::simple_timeline::entry_at(old(steward).cells@[c2].data.changes@, u) by {
                if c2 != c {
                    assert(steward.cells@[c2].data == old(steward).cells@[c2].data);
                }
            }
            assert(Steward::exec_frame(*old(steward), *steward, ev as int));
        }
    }

/// Runs the event at `ev`'s payload against the world: queries and changes
/// cells, creates and destroys predictions, and marks undermined future
/// executions stale. Whatever it did is in the journal. It fails only where
/// a prediction could not be created (the iteration ceiling, or a taken
/// extended time) or a destruction was improper; a predicted event that
/// completes has destroyed itself.
#[verifier::loop_isolation(false)]
#[verifier::rlimit(100)]
pub fn execute_payload(steward: &mut Steward, ev: usize, journal: &mut Vec<UndoOp>) -> (r: Result<
    (),
    KernelError,
>)
    requires
        old(steward).wf_except(ev as int),
        ev < old(steward).events@.len(),
        old(journal)@.len() == 0,
    ensures
        Steward::exec_frame(*old(steward), *final(steward), ev as int),
        crate::simple_full::journal_accurate(
            *old(steward),
            *final(steward),
            ev as int,
            final(journal)@,
        ),
        crate::simple_full::all_ops_wf(*final(steward), ev as int, final(journal)@),
        r is Ok && old(steward).events@[ev as int].created_by is Some ==> final(steward).events@[ev as int].destroyed_by is Some,
        r == spec_execute_outcome(*old(steward), ev as int),
        r is Ok && old(steward).cells@.len() > 0 ==> {
            let tau = old(steward).events@[ev as int].time;
            let slot = crate::simple_timeline::entry_at(
                final(steward).cells@[0].data.changes@,
                tau,
            );
            let held = crate::simple_timeline::value_before(
                old(steward).cells@[0].data.changes@,
                tau,
            );
            match old(steward).events@[ev as int].payload {
                Payload::Initialize(_i) => slot == Some(resting(tau.base)),
                Payload::SetMotion { position, velocity } => slot == Some(
                    Motion { position, velocity, origin: tau.base },
                ),
                Payload::SetMotionAndPredict { position, velocity, when, id } => slot == Some(
                    Motion { position, velocity, origin: tau.base },
                ),
                Payload::ReverseVelocity => slot == Some(
                    reversed(
                        match held {
                            Option::Some(m) => m,
                            Option::None => resting(tau.base),
                        },
                        tau.base,
                    ),
                ),
                Payload::Disturb(d) => slot == Some(
                    kicked(
                        match held {
                            Option::Some(m) => m,
                            Option::None => resting(tau.base),
                        },
                        d.coordinates[0],
                        tau.base,
                    ),
                ),
                _ => true,
            }
        },
{
    let ghost pre = *steward;
    proof {
        assert(Steward::exec_frame(pre, *steward, ev as int));
        assert(crate::simple_full::journal_accurate(pre, *steward, ev as int, journal@));
        assert(crate::simple_full::all_ops_wf(*steward, ev as int, journal@));
    }
    let payload = steward.events[ev].payload;
    let now = steward.events[ev].time;
    match payload {
        Payload::Initialize(_init) => {
            let n = steward.cells.len();
            let mut c: usize = 0;
            while c < n
                invariant
                    Steward::exec_frame(pre, *steward, ev as int),
                    crate::simple_full::journal_accurate(pre, *steward, ev as int, journal@),
                    crate::simple_full::all_ops_wf(*steward, ev as int, journal@),
                    steward.events == pre.events,
                    ev < pre.events@.len(),
                    n == pre.cells@.len(),
                    now == pre.events@[ev as int].time,
                    c <= n,
                    forall|c2: int| 0 <= c2 < c ==> crate::simple_timeline::entry_at(
                        (#[trigger] steward.cells@[c2]).data.changes@,
                        now,
                    ) == Some(resting(now.base)),
                decreases n - c,
            {
                let ghost b = *steward;
                let ghost jb = journal@;
                set_cell(steward, ev, c, Motion { position: 0, velocity: 0, origin: now.base }, journal);
                proof {
                    compose_modify(pre, b, *steward, ev as int, c as int, jb, journal@);
                    assert forall|c2: int| 0 <= c2 < c + 1 implies crate::simple_timeline::entry_at(
                        (#[trigger] steward.cells@[c2]).data.changes@,
                        now,
                    ) == Some(resting(now.base)) by {
                        if c2 < c {
                            assert(steward.cells@[c2].data == b.cells@[c2].data);
                        }
                    }
                }
                c = c + 1;
            }
            let ghost b2 = *steward;
            invalidate_future(steward, ev);
            proof {
                compose_still(pre, b2, *steward, ev as int, journal@);
                if n > 0 {
                    assert(steward.cells@[0].data == b2.cells@[0].data);
                }
                assert(spec_execute_outcome(pre, ev as int) == Ok::<(), KernelError>(()));
            }
        },
        Payload::Disturb(d) => {
            if steward.cells.len() > 0 {
                let q = steward.query(ev, 0, crate::api::QueryOffset::Before);
                let m = match q {
                    Some(m) => m,
                    None => Motion { position: 0, velocity: 0, origin: now.base },
                };
                let impulse = d.coordinates[0];
                let new_vel = match m.velocity.checked_add(impulse) {
                    Some(v) => v,
                    None => m.velocity,
                };
                let new_m = match m.evaluate(now.base) {
                    Some(p) => Motion { position: p, velocity: new_vel, origin: now.base },
                    None => Motion { position: m.position, velocity: new_vel, origin: m.origin },
                };
                proof {
                    assert(new_m == kicked(m, impulse, now.base));
                }
                let ghost b = *steward;
                let ghost jb = journal@;
                set_cell(steward, ev, 0, new_m, journal);
                proof {
                    compose_modify(pre, b, *steward, ev as int, 0, jb, journal@);
                }
                let ghost b2 = *steward;
                invalidate_future(steward, ev);
                proof {
                    compose_still(pre, b2, *steward, ev as int, journal@);
                }
            }
            proof {
                assert(spec_execute_outcome(pre, ev as int) == Ok::<(), KernelError>(()));
            }
        },
        Payload::SetMotion { position, velocity } => {
            if steward.cells.len() > 0 {
                let ghost b = *steward;
                let ghost jb = journal@;
                set_cell(
                    steward,
                    ev,
                    0,
                    Motion { position, velocity, origin: now.base },
                    journal,
                );
                proof {
                    compose_modify(pre, b, *steward, ev as int, 0, jb, journal@);
                }
                let ghost b2 = *steward;
                invalidate_future(steward, ev);
                proof {
                    compose_still(pre, b2, *steward, ev as int, journal@);
                }
            }
            proof {
                assert(spec_execute_outcome(pre, ev as int) == Ok::<(), KernelError>(()));
            }
        },
        Payload::SetMotionAndPredict { position, velocity, when, id } => {
            if steward.cells.len() > 0 {
                let ghost b = *steward;
                let ghost jb = journal@;
                proof {
                    assert(b == pre);
                }
                set_cell(
                    steward,
                    ev,
                    0,
                    Motion { position, velocity, origin: now.base },
                    journal,
                );
                proof {
                    compose_modify(pre, b, *steward, ev as int, 0, jb, journal@);
                }
                if when >= now.base {
                    let ghost b2 = *steward;
                    let ghost jb2 = journal@;
                    let created = steward.create_prediction(
                        ev,
                        when,
                        id,
                        Payload::ReverseVelocity,
                        journal,
                    );
                    proof {
                        crate::simple_full::lemma_has_queued_agrees(
                            &pre,
                            &b2,
                            crate::common::spec_predicted_time(when, id, now),
                        );
                        assert(b2.events@[ev as int].time == now);
                    }
                    match created {
                        Ok(_p) => {
                            proof {
                                compose_create(pre, b2, *steward, ev as int, jb2, journal@);
                            }
                        },
                        Err(e) => {
                            proof {
                                assert(spec_execute_outcome(pre, ev as int) == Err::<
                                    (),
                                    KernelError,
                                >(e));
                            }
                            return Err(e);
                        },
                    }
                }
                let ghost b3 = *steward;
                invalidate_future(steward, ev);
                proof {
                    compose_still(pre, b3, *steward, ev as int, journal@);
                }
            }
        },
        Payload::ReverseVelocity => {
            if steward.cells.len() > 0 {
                let q = steward.query(ev, 0, crate::api::QueryOffset::Before);
                let m = match q {
                    Some(m) => m,
                    None => Motion { position: 0, velocity: 0, origin: now.base },
                };
                let new_vel = if m.velocity == i64::MIN {
                    i64::MIN
                } else {
                    -m.velocity
                };
                let new_m = match m.evaluate(now.base) {
                    Some(p) => Motion { position: p, velocity: new_vel, origin: now.base },
                    None => Motion { position: m.position, velocity: new_vel, origin: m.origin },
                };
                proof {
                    assert(new_m == reversed(m, now.base));
                }
                let ghost b = *steward;
                let ghost jb = journal@;
                set_cell(steward, ev, 0, new_m, journal);
                proof {
                    compose_modify(pre, b, *steward, ev as int, 0, jb, journal@);
                }
                let ghost b2 = *steward;
                invalidate_future(steward, ev);
                proof {
                    compose_still(pre, b2, *steward, ev as int, journal@);
                }
            }
            proof {
                assert(spec_execute_outcome(pre, ev as int) == Ok::<(), KernelError>(()));
            }
        },
        Payload::DestroyPredictionAt { base, id } => {
            let n = steward.events.len();
            let mut j: usize = 0;
            let mut found: usize = n;
            while j < n
                invariant
                    *steward == pre,
                    ev < pre.events@.len(),
                    n == pre.events@.len(),
                    j <= n,
                    found == n || (found < n && live_match(pre, base, id, found as int)
                        && (forall|j2: int| 0 <= j2 < found ==> !live_match(
                        pre,
                        base,
                        id,
                        j2,
                    ))),
                    found == n ==> forall|j2: int| 0 <= j2 < j ==> !live_match(pre, base, id, j2),
                decreases n - j,
            {
                if found == n {
                    let candidate = &steward.events[j];
                    let hit = candidate.created_by.is_some() && candidate.destroyed_by.is_none()
                        && candidate.time.base == base && candidate.time.id.data0 == id.data0
                        && candidate.time.id.data1 == id.data1;
                    if hit {
                        found = j;
                    } else {
                        proof {
                            assert(!live_match(pre, base, id, j as int));
                        }
                    }
                }
                j = j + 1;
            }
            if found < n {
                proof {
                    lemma_first_match_skip(pre, base, id, found as int);
                    assert(first_live_match_from(pre, base, id, 0) == Some(found as int));
                }
                let ghost b = *steward;
                let ghost jb = journal@;
                let r = steward.destroy_prediction(ev, found, journal);
                match r {
                    Ok(_u) => {
                        proof {
                            assert(Steward::exec_frame(b, *steward, ev as int)) by {
                                assert forall|j2: int|
                                    #[trigger] steward.in_queue(j2) && !b.in_queue(j2)
                                    implies 0 <= j2 < steward.events@.len() && crate::api::et_lt(
                                    b.events@[ev as int].time,
                                    steward.events@[j2].time,
                                ) by {
                                    assert(j2 == found);
                                }
                            }
                            assert(steward.op_wf(ev as int, journal@[journal@.len() - 1]));
                            compose_create(pre, b, *steward, ev as int, jb, journal@);
                            assert(spec_execute_outcome(pre, ev as int) == Ok::<
                                (),
                                KernelError,
                            >(()));
                        }
                    },
                    Err(e) => {
                        proof {
                            assert(e == KernelError::TargetInPast);
                            assert(spec_execute_outcome(pre, ev as int) == Err::<
                                (),
                                KernelError,
                            >(e));
                        }
                        return Err(e);
                    },
                }
            } else {
                proof {
                    lemma_first_match_skip(pre, base, id, n as int);
                    assert(first_live_match_from(pre, base, id, 0) is None);
                    assert(spec_execute_outcome(pre, ev as int) == Ok::<(), KernelError>(()));
                }
            }
        },
        Payload::ChainPredict { id } => {
            let ghost b = *steward;
            let ghost jb = journal@;
            let created = steward.create_prediction(
                ev,
                now.base,
                id,
                Payload::ChainPredict { id },
                journal,
            );
            proof {
                assert(b == pre);
            }
            match created {
                Ok(_p) => {
                    proof {
                        compose_create(pre, b, *steward, ev as int, jb, journal@);
                        assert(spec_execute_outcome(pre, ev as int) == Ok::<(), KernelError>(()));
                    }
                },
                Err(e) => {
                    proof {
                        assert(spec_execute_outcome(pre, ev as int) == Err::<(), KernelError>(e));
                    }
                    return Err(e);
                },
            }
        },
    }
    let ghost b9 = *steward;
    let ghost j9 = journal@;
    self_destruct(steward, ev, journal);
    proof {
        compose_still(pre, b9, *steward, ev as int, journal@);
        crate::simple_full::lemma_ops_wf_preserved(&b9, steward, ev as int, j9);
        assert forall|k: int| 0 <= k < journal@.len() implies steward.op_wf(
            ev as int,
            #[trigger] journal@[k],
        ) by {
            if k >= j9.len() {
                assert(match journal@[k] {
                    UndoOp::Modify { cell, prev } => false,
                    UndoOp::Create { prediction } => false,
                    UndoOp::Destroy { prediction, prev_destroyed_by, prev_should } => prediction
                        == ev && prev_destroyed_by is None,
                });
            }
        }
    }
    Ok(())
}

/// Composes the execution frame and journal facts across one cell change.
proof fn compose_modify(
    pre: Steward,
    b: Steward,
    c_state: Steward,
    ev: int,
    c: int,
    jb: Seq<UndoOp>,
    jc: Seq<UndoOp>,
)
    requires
        0 <= ev < pre.events@.len(),
        0 <= c < pre.cells@.len(),
        Steward::exec_frame(pre, b, ev),
        crate::simple_full::journal_accurate(pre, b, ev, jb),
        crate::simple_full::all_ops_wf(b, ev, jb),
        b.events == pre.events,
        c_state.events == b.events,
        Steward::exec_frame(b, c_state, ev),
        jc == jb.push(
            UndoOp::Modify {
                cell: c as usize,
                prev: crate::simple_timeline::entry_at(
                    b.cells@[c].data.changes@,
                    b.events@[ev].time,
                ),
            },
        ),
        forall|c2: int| 0 <= c2 < b.cells@.len() && c2 != c ==> (#[trigger] c_state.cells@[c2]).data
            == b.cells@[c2].data,
    ensures
        Steward::exec_frame(pre, c_state, ev),
        crate::simple_full::journal_accurate(pre, c_state, ev, jc),
        crate::simple_full::all_ops_wf(c_state, ev, jc),
{
    Steward::lemma_exec_frame_trans(pre, b, c_state, ev);
    crate::simple_full::lemma_ops_wf_preserved(&b, &c_state, ev, jb);
    assert forall|c2: int|
        #![trigger crate::simple_full::first_modify_prev(jc, c2)]
        0 <= c2 < pre.cells@.len() implies match crate::simple_full::first_modify_prev(
        jc,
        c2,
    ) {
        Option::Some(prev) => prev == crate::simple_timeline::entry_at(
            pre.cells@[c2].data.changes@,
            pre.events@[ev].time,
        ),
        Option::None => (#[trigger] c_state.cells@[c2]).data == pre.cells@[c2].data,
    } by {
        crate::simple_full::lemma_first_modify_push(jb, jc[jc.len() - 1], c2);
        assert(b.events@[ev].time == pre.events@[ev].time);
        if crate::simple_full::first_modify_prev(jb, c2) is None {
            assert(b.cells@[c2].data == pre.cells@[c2].data);
            if c2 != c {
                assert(c_state.cells@[c2].data == b.cells@[c2].data);
            }
        }
    }
}

/// Composes the execution frame and journal facts across a step that adds a
/// non-cell journal entry (a created or destroyed prediction).
proof fn compose_create(
    pre: Steward,
    b: Steward,
    c_state: Steward,
    ev: int,
    jb: Seq<UndoOp>,
    jc: Seq<UndoOp>,
)
    requires
        0 <= ev < pre.events@.len(),
        Steward::exec_frame(pre, b, ev),
        crate::simple_full::journal_accurate(pre, b, ev, jb),
        crate::simple_full::all_ops_wf(b, ev, jb),
        Steward::exec_frame(b, c_state, ev),
        c_state.cells == b.cells,
        jc.len() == jb.len() + 1,
        forall|k: int| 0 <= k < jb.len() ==> #[trigger] jc[k] == jb[k],
        (jc[jc.len() - 1] matches UndoOp::Modify { cell, prev } ==> false),
        c_state.op_wf(ev, jc[jc.len() - 1]),
    ensures
        Steward::exec_frame(pre, c_state, ev),
        crate::simple_full::journal_accurate(pre, c_state, ev, jc),
        crate::simple_full::all_ops_wf(c_state, ev, jc),
{
    Steward::lemma_exec_frame_trans(pre, b, c_state, ev);
    assert(b.events@.len() <= c_state.events@.len());
    crate::simple_full::lemma_ops_wf_preserved(&b, &c_state, ev, jb);
    assert(jc =~= jb.push(jc[jc.len() - 1]));
    assert forall|c2: int|
        #![trigger crate::simple_full::first_modify_prev(jc, c2)]
        0 <= c2 < pre.cells@.len() implies match crate::simple_full::first_modify_prev(
        jc,
        c2,
    ) {
        Option::Some(prev) => prev == crate::simple_timeline::entry_at(
            pre.cells@[c2].data.changes@,
            pre.events@[ev].time,
        ),
        Option::None => (#[trigger] c_state.cells@[c2]).data == pre.cells@[c2].data,
    } by {
        crate::simple_full::lemma_first_modify_push(jb, jc[jc.len() - 1], c2);
        assert(c_state.cells@ == b.cells@);
        if crate::simple_full::first_modify_prev(jb, c2) is None {
            assert(b.cells@[c2].data == pre.cells@[c2].data);
            assert(c_state.cells@[c2].data == b.cells@[c2].data);
        } else {
            assert(crate::simple_full::first_modify_prev(jc, c2) == crate::simple_full::first_modify_prev(jb, c2));
        }
    }
    assert forall|k: int| 0 <= k < jc.len() implies c_state.op_wf(ev, #[trigger] jc[k]) by {
        if k < jb.len() {
            assert(jc[k] == jb[k]);
        }
    }
}

/// Composes the execution frame and journal facts across a step that leaves
/// the journal's cell entries as they were.
proof fn compose_still(pre: Steward, b: Steward, c_state: Steward, ev: int, j: Seq<UndoOp>)
    requires
        0 <= ev < pre.events@.len(),
        Steward::exec_frame(pre, b, ev),
        crate::simple_full::journal_accurate(pre, b, ev, j),
        Steward::exec_frame(b, c_state, ev),
        c_state.cells == b.cells,
    ensures
        Steward::exec_frame(pre, c_state, ev),
        crate::simple_full::journal_accurate(pre, c_state, ev, j),
{
    Steward::lemma_exec_frame_trans(pre, b, c_state, ev);
    assert forall|c2: int| 0 <= c2 < pre.cells@.len() implies match crate::simple_full::first_modify_prev(
        j,
        c2,
    ) {
        Option::Some(prev) => prev == crate::simple_timeline::entry_at(
            pre.cells@[c2].data.changes@,
            pre.events@[ev].time,
        ),
        Option::None => (#[trigger] c_state.cells@[c2]).data == pre.cells@[c2].data,
    } by {
        assert(c_state.cells@ == b.cells@);
        if crate::simple_full::first_modify_prev(j, c2) is None {
            assert(b.cells@[c2].data == pre.cells@[c2].data);
            assert(c_state.cells@[c2].data == b.cells@[c2].data);
        }
    }
}

} // verus!
