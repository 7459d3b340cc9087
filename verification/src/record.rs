//! The atomic unit of durability: one log record describing a set or a
//! delete of a single key.

use vstd::prelude::*;

verus! {

/// What a record does to its key: store a new value, or delete the key
/// (a tombstone).
#[derive(Clone, Copy, Debug, PartialEq, Eq, Structural)]
pub enum Operation {
    Insert,
    Delete,
}

/// One log entry.  An `Insert` record (a set of its key) carries the value
/// written; a `Delete` record (tombstone) carries no value.
#[derive(Debug)]
pub struct Record {
    pub key: String,
    pub value: Option<String>,
    pub op: Operation,
}

/// The mathematical model of a [`Record`]: its key and value as character
/// sequences.
pub struct RecordView {
    pub key: Seq<char>,
    pub value: Option<Seq<char>>,
    pub op: Operation,
}

impl View for Record {
    type V = RecordView;

    open spec fn view(&self) -> RecordView {
        RecordView {
            key: self.key@,
            value: match self.value {
                Some(v) => Some(v@),
                None => None,
            },
            op: self.op,
        }
    }
}

impl RecordView {
    /// A valid record has a non-empty key, and carries a value exactly when
    /// it is an `Insert` record.
    pub open spec fn wf(self) -> bool {
        &&& self.key.len() > 0
        &&& (self.op == Operation::Insert <==> self.value is Some)
    }
}

/// The model of an `Insert` record for `key` and `value`.
pub open spec fn set_record(key: Seq<char>, value: Seq<char>) -> RecordView {
    RecordView { key: key, value: Some(value), op: Operation::Insert }
}

/// The model of a `Delete` record (tombstone) for `key`.
pub open spec fn delete_record(key: Seq<char>) -> RecordView {
    RecordView { key: key, value: None, op: Operation::Delete }
}

} // verus!
