//! Tests of the door controller: transitions and trigger coalescing.
use doorsys::door::{
    door_intervals, door_step, DoorCommand, DoorEvent, DoorState, DOOR_HOLD_MS,
};

#[test]
fn transitions() {
    assert_eq!(
        door_step(DoorState::Idle, DoorEvent::Trigger),
        (DoorState::Open, Some(DoorCommand::ActuateOpen))
    );
    assert_eq!(
        door_step(DoorState::Open, DoorEvent::Trigger),
        (DoorState::Open, None)
    );
    assert_eq!(
        door_step(DoorState::Open, DoorEvent::TimedOut),
        (DoorState::Idle, Some(DoorCommand::ActuateClose))
    );
    assert_eq!(
        door_step(DoorState::Idle, DoorEvent::TimedOut),
        (DoorState::Idle, None)
    );
}

#[test]
fn burst_coalesces_into_one_interval() {
    // Triggers at 0 s, 1 s and 3 s, each within 4 s of the previous:
    // one continuous open interval closing at 7 s.
    let intervals = door_intervals(&vec![0, 1000, 3000], DOOR_HOLD_MS);
    assert_eq!(intervals, vec![(0, 7000)]);
}

#[test]
fn distant_triggers_open_separately() {
    let intervals = door_intervals(&vec![0, 10_000], DOOR_HOLD_MS);
    assert_eq!(intervals, vec![(0, 4000), (10_000, 14_000)]);
}

#[test]
fn trigger_at_window_edge_starts_new_interval() {
    // A trigger arriving exactly when the hold window elapses finds the
    // door already closing.
    let intervals = door_intervals(&vec![0, 4000], DOOR_HOLD_MS);
    assert_eq!(intervals, vec![(0, 4000), (4000, 8000)]);
}

#[test]
fn no_triggers_no_intervals() {
    let intervals = door_intervals(&vec![], DOOR_HOLD_MS);
    assert!(intervals.is_empty());
}

#[test]
fn single_trigger_single_interval() {
    let intervals = door_intervals(&vec![500], DOOR_HOLD_MS);
    assert_eq!(intervals, vec![(500, 4500)]);
}
