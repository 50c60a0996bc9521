use punch::calendar::Timestamp;
use punch::codec::Action;
use punch::codec::RECORD_WIDTH;
use punch::log::Log;
use punch::state::PunchError;
use punch::state::StateViolation;
use punch::state::last_action;
use punch::state::punch;
use punch::state::require_last_action;

fn at(day: u8, hour: u8) -> Timestamp {
    Timestamp { year: 2024, month: 1, day, hour, minute: 0, second: 0 }
}

#[test]
fn empty_log_has_unset_action() {
    let log = Log::new();
    assert_eq!(last_action(&log), Ok(Action::Unset));
}

#[test]
fn empty_log_accepts_a_first_punch_of_any_kind() {
    let mut log = Log::new();
    assert_eq!(punch(&mut log, Action::PunchIn, &at(1, 9)), Ok(()));
    let mut other = Log::new();
    assert_eq!(punch(&mut other, Action::PunchOut, &at(1, 9)), Ok(()));
}

#[test]
fn last_action_follows_the_most_recent_punch() {
    let mut log = Log::new();
    punch(&mut log, Action::PunchIn, &at(1, 9)).unwrap();
    assert_eq!(last_action(&log), Ok(Action::PunchIn));
    punch(&mut log, Action::PunchOut, &at(1, 17)).unwrap();
    assert_eq!(last_action(&log), Ok(Action::PunchOut));
}

#[test]
fn require_last_action_on_empty_log_succeeds() {
    let log = Log::new();
    assert_eq!(require_last_action(&log, &Action::PunchIn), Ok(()));
    assert_eq!(require_last_action(&log, &Action::PunchOut), Ok(()));
}

#[test]
fn require_last_action_reports_the_standing_state() {
    let mut log = Log::new();
    punch(&mut log, Action::PunchIn, &at(1, 9)).unwrap();
    assert_eq!(require_last_action(&log, &Action::PunchIn), Ok(()));
    assert_eq!(
        require_last_action(&log, &Action::PunchOut),
        Err(PunchError::Violation(StateViolation::AlreadyPunchedIn))
    );
}

#[test]
fn double_punch_in_appends_exactly_one_record() {
    let mut log = Log::new();
    assert_eq!(punch(&mut log, Action::PunchIn, &at(1, 9)), Ok(()));
    let len_before = log.byte_len();
    assert_eq!(
        punch(&mut log, Action::PunchIn, &at(1, 10)),
        Err(PunchError::Violation(StateViolation::AlreadyPunchedIn))
    );
    assert_eq!(log.byte_len(), len_before);
    assert_eq!(log.byte_len(), RECORD_WIDTH);
}

#[test]
fn double_punch_out_is_rejected_too() {
    let mut log = Log::new();
    punch(&mut log, Action::PunchIn, &at(1, 9)).unwrap();
    punch(&mut log, Action::PunchOut, &at(1, 17)).unwrap();
    let len_before = log.byte_len();
    assert_eq!(
        punch(&mut log, Action::PunchOut, &at(1, 18)),
        Err(PunchError::Violation(StateViolation::AlreadyPunchedOut))
    );
    assert_eq!(log.byte_len(), len_before);
}

#[test]
fn successful_punches_alternate() {
    let mut log = Log::new();
    let punches = [
        (Action::PunchIn, at(1, 9)),
        (Action::PunchOut, at(1, 17)),
        (Action::PunchIn, at(2, 9)),
        (Action::PunchOut, at(2, 12)),
        (Action::PunchIn, at(3, 8)),
    ];
    for (action, when) in &punches {
        punch(&mut log, *action, when).unwrap();
    }
    // The last two actions in the log are never equal.
    let last = log.read_from_end(0).unwrap();
    let previous = log.read_from_end(1).unwrap();
    assert_ne!(last.action, previous.action);
}

#[test]
fn corrupt_log_refuses_a_punch() {
    let mut log = Log::from_bytes(b"2024-01-01T09:00:00_X\n".to_vec());
    let r = punch(&mut log, Action::PunchIn, &at(2, 9));
    assert!(matches!(r, Err(PunchError::Log(_))));
    assert_eq!(log.byte_len(), RECORD_WIDTH);
}

#[test]
fn partial_log_refuses_a_punch() {
    let mut log = Log::from_bytes(b"2024".to_vec());
    let r = punch(&mut log, Action::PunchIn, &at(2, 9));
    assert!(matches!(r, Err(PunchError::Log(_))));
    assert_eq!(log.byte_len(), 4);
}
