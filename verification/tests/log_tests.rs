use punch::calendar::Timestamp;
use punch::codec::Action;
use punch::codec::DecodeError;
use punch::codec::RECORD_WIDTH;
use punch::codec::Record;
use punch::codec::encode;
use punch::log::Log;
use punch::log::ReadError;

fn rec(day: u8, hour: u8, action: Action) -> Record {
    Record {
        timestamp: Timestamp { year: 2024, month: 1, day, hour, minute: 0, second: 0 },
        action,
    }
}

#[test]
fn empty_log_has_no_records() {
    let log = Log::new();
    assert_eq!(log.byte_len(), 0);
    assert_eq!(log.num_records(), 0);
    assert_eq!(log.read_from_end(0), Err(ReadError::InsufficientData));
}

#[test]
fn append_grows_by_record_width() {
    let mut log = Log::new();
    log.append(&rec(1, 9, Action::PunchIn));
    assert_eq!(log.byte_len(), RECORD_WIDTH);
    log.append(&rec(1, 17, Action::PunchOut));
    assert_eq!(log.byte_len(), 2 * RECORD_WIDTH);
    assert_eq!(log.num_records(), 2);
}

#[test]
fn append_only_extends_the_bytes() {
    let mut log = Log::new();
    log.append(&rec(1, 9, Action::PunchIn));
    let before = log.as_bytes().clone();
    log.append(&rec(1, 17, Action::PunchOut));
    assert_eq!(&log.as_bytes()[..RECORD_WIDTH], before.as_slice());
}

#[test]
fn reverse_read_returns_records_backward() {
    let records = [
        rec(1, 9, Action::PunchIn),
        rec(1, 17, Action::PunchOut),
        rec(2, 9, Action::PunchIn),
        rec(2, 12, Action::PunchOut),
    ];
    let mut log = Log::new();
    for r in &records {
        log.append(r);
    }
    let n = records.len();
    for k in 0..n {
        assert_eq!(log.read_from_end(k as u64), Ok(records[n - 1 - k]));
    }
}

#[test]
fn reverse_read_past_the_start_is_insufficient_data() {
    let mut log = Log::new();
    log.append(&rec(1, 9, Action::PunchIn));
    log.append(&rec(1, 17, Action::PunchOut));
    assert_eq!(log.read_from_end(2), Err(ReadError::InsufficientData));
    assert_eq!(log.read_from_end(1000), Err(ReadError::InsufficientData));
}

#[test]
fn short_log_is_insufficient_data() {
    let log = Log::from_bytes(b"2024-01-01T09".to_vec());
    assert_eq!(log.read_from_end(0), Err(ReadError::InsufficientData));
}

#[test]
fn malformed_chunk_surfaces_the_bytes() {
    let chunk = b"2024-01-01T09:00:00_X\n";
    let log = Log::from_bytes(chunk.to_vec());
    assert_eq!(
        log.read_from_end(0),
        Err(ReadError::MalformedRecord(
            DecodeError::UnknownAction,
            chunk.to_vec()
        ))
    );
}

#[test]
fn chunks_align_from_the_end() {
    // A stray prefix byte shifts every record boundary; the records are
    // still addressed from the end of the file.
    let mut bytes = b"?".to_vec();
    bytes.extend_from_slice(&encode(&rec(1, 9, Action::PunchIn)));
    bytes.extend_from_slice(&encode(&rec(1, 17, Action::PunchOut)));
    let log = Log::from_bytes(bytes);
    assert_eq!(log.num_records(), 2);
    assert_eq!(log.read_from_end(0), Ok(rec(1, 17, Action::PunchOut)));
    assert_eq!(log.read_from_end(1), Ok(rec(1, 9, Action::PunchIn)));
    // A third record back would reach past the stray byte.
    assert_eq!(log.read_from_end(2), Err(ReadError::InsufficientData));
}
