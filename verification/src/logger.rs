use crate::text::{ascii, bytes_of, push_all};
use vstd::prelude::*;

verus! {

/// What an entry of the log is about.
#[derive(Debug, Clone, Copy, PartialEq, Eq, Structural)]
pub enum EntryType {
    Error,
    Action,
    FileOperation,
}

/// The name of a kind of entry as the log writes it.
pub open spec fn kind_name(entry_type: EntryType) -> Seq<u8> {
    match entry_type {
        EntryType::Error => ascii("Error"@),
        EntryType::Action => ascii("Action"@),
        EntryType::FileOperation => ascii("FileOperation"@),
    }
}

/// One entry of the log: an object with the kind, the time and the
/// message of the entry, each between double quotes.
pub open spec fn entry_text(entry_type: EntryType, timestamp: Seq<u8>, message: Seq<u8>) -> Seq<u8> {
    ascii("{\"type\": \""@) + kind_name(entry_type) + ascii("\",\"timestamp\": \""@) + timestamp
        + ascii("\",\"message\": \""@) + message + ascii("\"}"@)
}

/// Writes one entry of the log.
pub fn write_entry(entry_type: EntryType, timestamp: &[u8], message: &[u8]) -> (r: Vec<u8>)
    ensures
        r@ == entry_text(entry_type, timestamp@, message@),
{
    proof {
        reveal_strlit("{\"type\": \"");
        reveal_strlit("\",\"timestamp\": \"");
        reveal_strlit("\",\"message\": \"");
        reveal_strlit("\"}");
        reveal_strlit("Error");
        reveal_strlit("Action");
        reveal_strlit("FileOperation");
    }
    let mut out = bytes_of("{\"type\": \"");
    match entry_type {
        EntryType::Error => push_all(&mut out, bytes_of("Error").as_slice()),
        EntryType::Action => push_all(&mut out, bytes_of("Action").as_slice()),
        EntryType::FileOperation => push_all(&mut out, bytes_of("FileOperation").as_slice()),
    }
    push_all(&mut out, bytes_of("\",\"timestamp\": \"").as_slice());
    push_all(&mut out, timestamp);
    push_all(&mut out, bytes_of("\",\"message\": \"").as_slice());
    push_all(&mut out, message);
    push_all(&mut out, bytes_of("\"}").as_slice());
    assert(out@ =~= entry_text(entry_type, timestamp@, message@));
    out
}

/// The entry of the log for an error, written at the time `timestamp`.
pub fn log_error(message: &[u8], timestamp: &[u8]) -> (r: Vec<u8>)
    ensures
        r@ == entry_text(EntryType::Error, timestamp@, message@),
{
    write_entry(EntryType::Error, timestamp, message)
}

/// The entry of the log for an action, written at the time `timestamp`.
pub fn log_action(message: &[u8], timestamp: &[u8]) -> (r: Vec<u8>)
    ensures
        r@ == entry_text(EntryType::Action, timestamp@, message@),
{
    write_entry(EntryType::Action, timestamp, message)
}

/// The entry of the log for an operation on a file, written at the time
/// `timestamp`.
pub fn log_file_operation(message: &[u8], timestamp: &[u8]) -> (r: Vec<u8>)
    ensures
        r@ == entry_text(EntryType::FileOperation, timestamp@, message@),
{
    write_entry(EntryType::FileOperation, timestamp, message)
}

} // verus!
