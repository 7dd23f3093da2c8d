//! Door controller: consumes unlock triggers and drives the actuator,
//! coalescing bursts of triggers into one continuous open interval
//! rather than flapping the door.
use vstd::prelude::*;

verus! {

/// Hold window in milliseconds: a trigger arriving within this window of
/// the previous one extends the same open interval.
pub const DOOR_HOLD_MS: u64 = 4000;

/// The controller's transient state; never persisted.
#[derive(Clone, Copy, Debug, PartialEq, Eq, Structural)]
pub enum DoorState {
    Idle,
    Open,
}

/// What the controller's wait returns: another trigger, or the hold
/// window elapsing with no trigger.
#[derive(Clone, Copy, Debug, PartialEq, Eq, Structural)]
pub enum DoorEvent {
    Trigger,
    TimedOut,
}

/// A command to the door actuator.
#[derive(Clone, Copy, Debug, PartialEq, Eq, Structural)]
pub enum DoorCommand {
    ActuateOpen,
    ActuateClose,
}

/// The controller's transition relation: an idle door opens on a
/// trigger; an open door stays open on a trigger (the wait restarts) and
/// closes when the hold window elapses.
pub open spec fn door_step_spec(state: DoorState, event: DoorEvent) -> (DoorState, Option<
    DoorCommand,
>) {
    match (state, event) {
        (DoorState::Idle, DoorEvent::Trigger) => (DoorState::Open, Some(DoorCommand::ActuateOpen)),
        (DoorState::Idle, DoorEvent::TimedOut) => (DoorState::Idle, None),
        (DoorState::Open, DoorEvent::Trigger) => (DoorState::Open, None),
        (DoorState::Open, DoorEvent::TimedOut) => (DoorState::Idle, Some(
            DoorCommand::ActuateClose,
        )),
    }
}

/// One transition of the door controller.
pub fn door_step(state: DoorState, event: DoorEvent) -> (next: (DoorState, Option<DoorCommand>))
    ensures
        next == door_step_spec(state, event),
{
    match (state, event) {
        (DoorState::Idle, DoorEvent::Trigger) => (DoorState::Open, Some(DoorCommand::ActuateOpen)),
        (DoorState::Idle, DoorEvent::TimedOut) => (DoorState::Idle, None),
        (DoorState::Open, DoorEvent::Trigger) => (DoorState::Open, None),
        (DoorState::Open, DoorEvent::TimedOut) => (DoorState::Idle, Some(
            DoorCommand::ActuateClose,
        )),
    }
}

/// The open intervals produced after an interval opening at `start` whose
/// last trigger so far arrived at `last`: a trigger before `last + hold`
/// extends the interval, a later one closes it at `last + hold` and opens
/// a new one.
pub open spec fn coalesce_from(times: Seq<u64>, hold: u64, start: u64, last: u64) -> Seq<
    (u64, u64),
>
    decreases times.len(),
{
    if times.len() == 0 {
        seq![(start, (last + hold) as u64)]
    } else if times[0] < last + hold {
        coalesce_from(times.drop_first(), hold, start, times[0])
    } else {
        seq![(start, (last + hold) as u64)] + coalesce_from(
            times.drop_first(),
            hold,
            times[0],
            times[0],
        )
    }
}

/// The open intervals the controller produces for a sequence of trigger
/// arrival times: each interval opens at the first trigger of a burst
/// and closes one hold window after the burst's last trigger.
pub open spec fn coalesced_intervals(times: Seq<u64>, hold: u64) -> Seq<(u64, u64)> {
    if times.len() == 0 {
        Seq::empty()
    } else {
        coalesce_from(times.drop_first(), hold, times[0], times[0])
    }
}

/// Computes the open intervals for a sequence of trigger arrival times.
pub fn door_intervals(times: &Vec<u64>, hold: u64) -> (intervals: Vec<(u64, u64)>)
    requires
        forall|k: int| 0 <= k < times@.len() ==> times@[k] + hold <= u64::MAX,
    ensures
        intervals@ == coalesced_intervals(times@, hold),
{
    let mut intervals: Vec<(u64, u64)> = Vec::new();
    if times.len() == 0 {
        proof {
            assert(intervals@ =~= coalesced_intervals(times@, hold));
        }
        return intervals;
    }
    let mut start: u64 = times[0];
    let mut last: u64 = times[0];
    let mut i: usize = 1;
    proof {
        assert(times@.drop_first() =~= times@.skip(1));
        assert(intervals@ + coalesce_from(times@.skip(1), hold, start, last) =~= coalesced_intervals(
            times@,
            hold,
        ));
    }
    while i < times.len()
        invariant
            1 <= i <= times@.len(),
            forall|k: int| 0 <= k < times@.len() ==> times@[k] + hold <= u64::MAX,
            last + hold <= u64::MAX,
            intervals@ + coalesce_from(times@.skip(i as int), hold, start, last)
                == coalesced_intervals(times@, hold),
        decreases times@.len() - i,
    {
        proof {
            assert(times@.skip(i as int).drop_first() =~= times@.skip(i + 1));
            assert(times@.skip(i as int)[0] == times@[i as int]);
        }
        let t = times[i];
        if t < last + hold {
            last = t;
        } else {
            proof {
                assert(coalesce_from(times@.skip(i as int), hold, start, last) == seq![
                    (start, (last + hold) as u64),
                ] + coalesce_from(times@.skip(i + 1), hold, t, t));
            }
            intervals.push((start, last + hold));
            proof {
                assert(intervals@ + coalesce_from(times@.skip(i + 1), hold, t, t)
                    =~= coalesced_intervals(times@, hold));
            }
            start = t;
            last = t;
        }
        i = i + 1;
    }
    proof {
        assert(times@.skip(times@.len() as int) =~= Seq::<u64>::empty());
    }
    intervals.push((start, last + hold));
    proof {
        assert(intervals@ =~= coalesced_intervals(times@, hold));
    }
    intervals
}

/// Triggers that each arrive within the hold window of the previous one
/// are coalesced into a single open interval, closing one hold window
/// after the last trigger.
pub proof fn lemma_burst_coalesces(times: Seq<u64>, hold: u64)
    requires
        times.len() > 0,
        forall|k: int| 0 < k < times.len() ==> #[trigger] times[k] < times[k - 1] + hold,
    ensures
        coalesced_intervals(times, hold) == seq![
            (times[0], (times.last() + hold) as u64),
        ],
{
    lemma_burst_from(times.drop_first(), hold, times[0], times[0]);
    if times.len() > 1 {
        assert(times.drop_first().last() == times.last());
    }
}

/// Induction step for `lemma_burst_coalesces`, generalized over the
/// open interval carried so far.
proof fn lemma_burst_from(times: Seq<u64>, hold: u64, start: u64, last: u64)
    requires
        times.len() > 0 ==> times[0] < last + hold,
        forall|k: int| 0 < k < times.len() ==> #[trigger] times[k] < times[k - 1] + hold,
    ensures
        coalesce_from(times, hold, start, last) == seq![
            (start, ((if times.len() == 0 { last } else { times.last() }) + hold) as u64),
        ],
    decreases times.len(),
{
    if times.len() == 0 {
    } else {
        let rest = times.drop_first();
        assert(forall|k: int| 0 < k < rest.len() ==> #[trigger] rest[k] < rest[k - 1] + hold) by {
            assert(forall|k: int| 0 <= k < rest.len() ==> #[trigger] rest[k] == times[k + 1]);
        }
        lemma_burst_from(rest, hold, start, times[0]);
        if times.len() > 1 {
            assert(rest.last() == times.last());
        }
    }
}

} // verus!
