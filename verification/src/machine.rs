//! The loop of a repeating decoder as a state machine, and the two readings
//! of a marker mismatch that depend on where in the loop it occurs.

use vstd::prelude::*;
use crate::error::DecodeError;
use crate::field::{result_view, FieldValue, Value};
use crate::wire::EOM;

verus! {

/// Where a repeating decoder stands.
#[derive(Clone, Copy, Debug, PartialEq, Eq, Structural)]
pub enum LoopState {
    /// Between records: the next byte starts a record or ends the message.
    AwaitingRecordOrEom,
    /// Inside a record: every further field must be a value.
    ReadingRecordFields,
    /// The message ended between two records.
    Done,
    /// The command failed.
    Failed,
}

/// How the read of a record's first field is to be taken. The end-of-message
/// marker in place of the field is the end of the records; any other foreign
/// marker is a protocol error; every other outcome stands as it is.
pub open spec fn at_boundary(raw: Result<Value, DecodeError>) -> Result<Value, DecodeError> {
    match raw {
        Err(DecodeError::TypeMismatch(marker)) => if marker == EOM {
            Ok(Value::Eom)
        } else {
            Err(DecodeError::Protocol)
        },
        _ => raw,
    }
}

/// How a read is to be taken where a value is required. The end-of-message
/// marker in place of the value is a protocol error; every other outcome
/// stands as it is.
pub open spec fn in_record<T>(raw: Result<T, DecodeError>) -> Result<T, DecodeError> {
    match raw {
        Err(DecodeError::TypeMismatch(marker)) => if marker == EOM {
            Err(DecodeError::Protocol)
        } else {
            raw
        },
        _ => raw,
    }
}

/// The state after a field was read with `outcome`, taken as its position
/// demands; `completes` says whether the field is the last of its record.
pub open spec fn next_state(
    state: LoopState,
    outcome: Result<Value, DecodeError>,
    completes: bool,
) -> LoopState {
    match state {
        LoopState::Done => LoopState::Done,
        LoopState::Failed => LoopState::Failed,
        LoopState::AwaitingRecordOrEom => match outcome {
            Ok(Value::Eom) => LoopState::Done,
            Ok(_) => if completes {
                LoopState::AwaitingRecordOrEom
            } else {
                LoopState::ReadingRecordFields
            },
            Err(_) => LoopState::Failed,
        },
        LoopState::ReadingRecordFields => match outcome {
            Ok(Value::Eom) => LoopState::Failed,
            Ok(_) => if completes {
                LoopState::AwaitingRecordOrEom
            } else {
                LoopState::ReadingRecordFields
            },
            Err(_) => LoopState::Failed,
        },
    }
}

/// Takes the read of a record's first field as the boundary demands.
pub fn detect_sentinel(raw: Result<FieldValue, DecodeError>) -> (r: Result<FieldValue, DecodeError>)
    ensures
        result_view(r) == at_boundary(result_view(raw)),
{
    match raw {
        Err(DecodeError::TypeMismatch(marker)) => {
            if marker == EOM {
                Ok(FieldValue::Eom)
            } else {
                Err(DecodeError::Protocol)
            }
        },
        other => other,
    }
}

/// Takes a read as a place where a value is required demands.
pub fn require_value<T>(raw: Result<T, DecodeError>) -> (r: Result<T, DecodeError>)
    ensures
        r == in_record(raw),
{
    match raw {
        Err(DecodeError::TypeMismatch(marker)) => {
            if marker == EOM {
                Err(DecodeError::Protocol)
            } else {
                Err(DecodeError::TypeMismatch(marker))
            }
        },
        other => other,
    }
}

/// Moves the machine by one field.
pub fn transition(
    state: LoopState,
    outcome: &Result<FieldValue, DecodeError>,
    completes: bool,
) -> (next: LoopState)
    ensures
        next == next_state(state, result_view(*outcome), completes),
{
    match state {
        LoopState::Done => LoopState::Done,
        LoopState::Failed => LoopState::Failed,
        LoopState::AwaitingRecordOrEom => match outcome {
            Ok(FieldValue::Eom) => LoopState::Done,
            Ok(_) => if completes {
                LoopState::AwaitingRecordOrEom
            } else {
                LoopState::ReadingRecordFields
            },
            Err(_) => LoopState::Failed,
        },
        LoopState::ReadingRecordFields => match outcome {
            Ok(FieldValue::Eom) => LoopState::Failed,
            Ok(_) => if completes {
                LoopState::AwaitingRecordOrEom
            } else {
                LoopState::ReadingRecordFields
            },
            Err(_) => LoopState::Failed,
        },
    }
}

/// Whether the end-of-message marker ends the message depends on nothing but
/// the place where it is found: between records the machine is done, inside
/// a record it has failed with a protocol error. Done and failed are final.
pub proof fn lemma_end_of_message_by_position(
    later: Result<Value, DecodeError>,
    completes: bool,
)
    ensures
        next_state(
            LoopState::AwaitingRecordOrEom,
            at_boundary(Err(DecodeError::TypeMismatch(EOM))),
            completes,
        ) == LoopState::Done,
        in_record::<Value>(Err(DecodeError::TypeMismatch(EOM))) == Err::<Value, DecodeError>(
            DecodeError::Protocol,
        ),
        next_state(
            LoopState::ReadingRecordFields,
            in_record(Err(DecodeError::TypeMismatch(EOM))),
            completes,
        ) == LoopState::Failed,
        next_state(LoopState::Done, later, completes) == LoopState::Done,
        next_state(LoopState::Failed, later, completes) == LoopState::Failed,
{
}

} // verus!
