//! The state engine: derives the current punch state from the log and
//! enforces the alternation invariant before a new punch is accepted.

use vstd::prelude::*;
use crate::calendar::Timestamp;
use crate::codec::Action;
use crate::codec::Record;
use crate::codec::DecodeError;
use crate::codec::RECORD_WIDTH;
use crate::codec::spec_decode;
use crate::codec::spec_encode;
use crate::codec::lemma_encode_decode_roundtrip;
use crate::log::Log;
use crate::log::ReadError;
use crate::log::chunk_from_end;
use crate::log::encoding_of;
use crate::log::lemma_reverse_read;

verus! {

/// A punch that the current state refuses: the log already ends in the
/// same action.
#[derive(Clone, Copy, Debug, PartialEq, Eq, Structural)]
pub enum StateViolation {
    AlreadyPunchedIn,
    AlreadyPunchedOut,
}

/// Why a punch failed: the log could not be read, or the state refused
/// the punch. Only the former loses data for the caller.
#[derive(Debug, PartialEq, Eq)]
pub enum PunchError {
    Log(ReadError),
    Violation(StateViolation),
}

impl Action {
    /// The action that must precede this one in the log.
    pub open spec fn opposite(self) -> Action {
        match self {
            Action::PunchIn => Action::PunchOut,
            Action::PunchOut => Action::PunchIn,
            Action::Unset => Action::Unset,
        }
    }

    /// The action that must precede this one in the log.
    pub fn opposite_of(&self) -> (a: Action)
        ensures
            a == self.opposite(),
    {
        match self {
            Action::PunchIn => Action::PunchOut,
            Action::PunchOut => Action::PunchIn,
            Action::Unset => Action::Unset,
        }
    }
}

/// The state accepts a punch of `a` when the log is empty or its most
/// recent record decodes to the opposite action.
pub open spec fn spec_can_punch(s: Seq<u8>, a: Action) -> bool {
    ||| s.len() == 0
    ||| {
        &&& s.len() >= RECORD_WIDTH
        &&& spec_decode(chunk_from_end(s, 0)) matches Ok(rec) && rec.action == a.opposite()
    }
}

/// The most recent record's action, or `Unset` for an empty log. A log
/// too short for one record, or one whose last chunk does not decode, is
/// a read error: corruption is never recovered from here.
pub fn last_action(log: &Log) -> (r: Result<Action, ReadError>)
    ensures
        ({
            let s = log@;
            if s.len() == 0 {
                r == Ok::<Action, ReadError>(Action::Unset)
            } else if s.len() < RECORD_WIDTH {
                r == Err::<Action, ReadError>(ReadError::InsufficientData)
            } else {
                match spec_decode(chunk_from_end(s, 0)) {
                    Ok(rec) => r == Ok::<Action, ReadError>(rec.action),
                    Err(e) => r matches Err(ReadError::MalformedRecord(e2, b)) && e2 == e && b@
                        == chunk_from_end(s, 0),
                }
            }
        }),
{
    if log.byte_len() == 0 {
        return Ok(Action::Unset);
    }
    match log.read_from_end(0) {
        Ok(rec) => Ok(rec.action),
        Err(e) => Err(e),
    }
}

/// Demand that the most recent action equal `expected` before a punch is
/// accepted. An empty log accepts the first punch of any kind.
pub fn require_last_action(log: &Log, expected: &Action) -> (r: Result<(), PunchError>)
    requires
        *expected != Action::Unset,
    ensures
        ({
            let s = log@;
            if s.len() == 0 {
                r == Ok::<(), PunchError>(())
            } else if s.len() < RECORD_WIDTH {
                r == Err::<(), PunchError>(PunchError::Log(ReadError::InsufficientData))
            } else {
                match spec_decode(chunk_from_end(s, 0)) {
                    Ok(rec) => if rec.action == *expected {
                        r == Ok::<(), PunchError>(())
                    } else {
                        r == Err::<(), PunchError>(
                            PunchError::Violation(
                                if *expected == Action::PunchIn {
                                    StateViolation::AlreadyPunchedOut
                                } else {
                                    StateViolation::AlreadyPunchedIn
                                },
                            ),
                        )
                    },
                    Err(e) => r matches Err(PunchError::Log(ReadError::MalformedRecord(e2, b)))
                        && e2 == e && b@ == chunk_from_end(s, 0),
                }
            }
        }),
{
    match last_action(log) {
        Ok(a) => {
            if a == Action::Unset {
                Ok(())
            } else if a == *expected {
                Ok(())
            } else {
                match expected {
                    Action::PunchIn => Err(
                        PunchError::Violation(StateViolation::AlreadyPunchedOut),
                    ),
                    _ => Err(PunchError::Violation(StateViolation::AlreadyPunchedIn)),
                }
            }
        },
        Err(e) => Err(PunchError::Log(e)),
    }
}

/// Punch at instant `now`: when the state allows the action, append the
/// record; otherwise append nothing and say why. The log is unchanged on
/// every failure.
pub fn punch(log: &mut Log, action: Action, now: &Timestamp) -> (r: Result<(), PunchError>)
    requires
        action != Action::Unset,
        now.valid(),
        old(log)@.len() + RECORD_WIDTH <= usize::MAX,
    ensures
        spec_can_punch(old(log)@, action) ==> {
            &&& r == Ok::<(), PunchError>(())
            &&& final(log)@ == old(log)@ + spec_encode(Record { timestamp: *now, action })
        },
        !spec_can_punch(old(log)@, action) ==> {
            &&& final(log)@ == old(log)@
            &&& r is Err
            &&& ({
                let s = old(log)@;
                if s.len() < RECORD_WIDTH {
                    r == Err::<(), PunchError>(PunchError::Log(ReadError::InsufficientData))
                } else {
                    match spec_decode(chunk_from_end(s, 0)) {
                        Ok(rec) => r == Err::<(), PunchError>(
                            PunchError::Violation(
                                if action == Action::PunchIn {
                                    StateViolation::AlreadyPunchedIn
                                } else {
                                    StateViolation::AlreadyPunchedOut
                                },
                            ),
                        ),
                        Err(e) => r matches Err(
                            PunchError::Log(ReadError::MalformedRecord(e2, b)),
                        ) && e2 == e && b@ == chunk_from_end(s, 0),
                    }
                }
            })
        },
{
    let expected = action.opposite_of();
    match require_last_action(log, &expected) {
        Ok(_) => {
            log.append(&Record { timestamp: *now, action });
            Ok(())
        },
        Err(e) => Err(e),
    }
}

/// The alternation invariant: consecutive records always carry opposite
/// actions.
pub open spec fn alternating(recs: Seq<Record>) -> bool {
    forall|i: int|
        0 <= i && i + 1 < recs.len() ==> (#[trigger] recs[i + 1]).action == recs[i].action.opposite()
}

/// Alternation is preserved by every punch the state engine accepts: over
/// a log of alternating records, a successful punch of `a` proves the
/// last record's action was `a`'s opposite, and the appended record keeps
/// the sequence alternating. In particular the last two actions in the
/// log are never equal.
pub proof fn lemma_punch_preserves_alternation(recs: Seq<Record>, action: Action, now: Timestamp)
    requires
        forall|i: int| 0 <= i < recs.len() ==> (#[trigger] recs[i]).valid(),
        alternating(recs),
        action != Action::Unset,
        spec_can_punch(encoding_of(recs), action),
    ensures
        recs.len() > 0 ==> recs.last().action == action.opposite(),
        alternating(recs.push(Record { timestamp: now, action })),
{
    let pushed = recs.push(Record { timestamp: now, action });
    if recs.len() == 0 {
        assert(alternating(pushed));
    } else {
        lemma_reverse_read(recs, 0);
        assert(recs.last().action == action.opposite());
        assert forall|i: int| 0 <= i && i + 1 < pushed.len() implies (#[trigger] pushed[i
            + 1]).action == pushed[i].action.opposite() by {
            if i + 1 < recs.len() {
                assert(pushed[i + 1] == recs[i + 1] && pushed[i] == recs[i]);
            } else {
                assert(pushed[i] == recs[recs.len() - 1] && pushed[i + 1] == Record {
                    timestamp: now,
                    action,
                });
            }
        }
    }
}

/// A punch is never accepted twice in a row: after a successful punch of
/// `a`, the log ends in `a`, so the state refuses another `a` and leaves
/// the log's bytes unchanged.
pub proof fn lemma_punch_not_repeatable(s: Seq<u8>, action: Action, now: Timestamp)
    requires
        action != Action::Unset,
        now.valid(),
        spec_can_punch(s, action),
    ensures
        !spec_can_punch(s + spec_encode(Record { timestamp: now, action }), action),
{
    let rec = Record { timestamp: now, action };
    let s2 = s + spec_encode(rec);
    lemma_encode_decode_roundtrip(rec);
    assert(chunk_from_end(s2, 0) =~= spec_encode(rec));
    assert(spec_decode(chunk_from_end(s2, 0)) == Ok::<Record, DecodeError>(rec));
}

} // verus!
