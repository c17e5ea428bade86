//! The walk over the operation words of a command line (`--read <key>`,
//! `--write <key> <value>`) as a state machine.
use vstd::prelude::*;
use vstd::utf8::encode_utf8;
use crate::format::has_key;
use crate::literal::{lower_bytes, to_ascii_lower, same_bytes};
use crate::table::SettingsTable;

verus! {

/// What a command-line word asks for, ignoring case.
#[derive(Debug, Clone, Copy, PartialEq, Eq, Structural)]
pub enum Word {
    /// `--read` or `-r`.
    Read,
    /// `--write` or `-w`.
    Write,
    /// `--show-all`.
    ShowAll,
    /// `--pretend`.
    Pretend,
    /// Anything else.
    Other,
}

/// An operation on one entry.
#[derive(Debug, Clone, Copy, PartialEq, Eq, Structural)]
pub enum Operation {
    Read,
    Write,
}

/// Where a walk over the operation words stands.
#[derive(Debug, Clone, PartialEq, Eq)]
pub enum ArgState {
    /// Waiting for an operation word.
    Idle,
    /// An operation was named; its key comes next.
    AwaitingKey(Operation),
    /// A write was named for this key; the value comes next.
    AwaitingValue(String),
}

/// What the caller is to do after one word.
#[derive(Debug, Clone, PartialEq, Eq)]
pub enum Action {
    Nothing,
    /// Show the entry with this key.
    Show(String),
    /// Give the entry with this key the value spelled by the text.
    Assign(String, String),
    /// The word names no operation.
    UnknownOperation(String),
    /// No entry has this key.
    KeyNotFound(String),
}

pub open spec fn word_of(s: Seq<u8>) -> Word {
    let l = lower_bytes(s);
    if l == seq![45u8, 45u8, 114u8, 101u8, 97u8, 100u8] || l == seq![45u8, 114u8] {
        Word::Read
    } else if l == seq![45u8, 45u8, 119u8, 114u8, 105u8, 116u8, 101u8] || l == seq![45u8, 119u8] {
        Word::Write
    } else if l == seq![45u8, 45u8, 115u8, 104u8, 111u8, 119u8, 45u8, 97u8, 108u8, 108u8] {
        Word::ShowAll
    } else if l == seq![45u8, 45u8, 112u8, 114u8, 101u8, 116u8, 101u8, 110u8, 100u8] {
        Word::Pretend
    } else {
        Word::Other
    }
}

/// Tells what a command-line word asks for, ignoring case.
pub fn classify(arg: &str) -> (r: Word)
    ensures
        r == word_of(encode_utf8(arg@)),
{
    let lower = to_ascii_lower(arg.as_bytes());
    let l = lower.as_slice();
    let w_read: [u8; 6] = [45u8, 45u8, 114u8, 101u8, 97u8, 100u8];
    let w_r: [u8; 2] = [45u8, 114u8];
    let w_write: [u8; 7] = [45u8, 45u8, 119u8, 114u8, 105u8, 116u8, 101u8];
    let w_w: [u8; 2] = [45u8, 119u8];
    let w_show: [u8; 10] = [45u8, 45u8, 115u8, 104u8, 111u8, 119u8, 45u8, 97u8, 108u8, 108u8];
    let w_pretend: [u8; 9] = [45u8, 45u8, 112u8, 114u8, 101u8, 116u8, 101u8, 110u8, 100u8];
    assert(w_read@ =~= seq![45u8, 45u8, 114u8, 101u8, 97u8, 100u8]);
    assert(w_r@ =~= seq![45u8, 114u8]);
    assert(w_write@ =~= seq![45u8, 45u8, 119u8, 114u8, 105u8, 116u8, 101u8]);
    assert(w_w@ =~= seq![45u8, 119u8]);
    assert(w_show@ =~= seq![45u8, 45u8, 115u8, 104u8, 111u8, 119u8, 45u8, 97u8, 108u8, 108u8]);
    assert(w_pretend@ =~= seq![45u8, 45u8, 112u8, 114u8, 101u8, 116u8, 101u8, 110u8, 100u8]);
    if same_bytes(l, w_read.as_slice()) || same_bytes(l, w_r.as_slice()) {
        Word::Read
    } else if same_bytes(l, w_write.as_slice()) || same_bytes(l, w_w.as_slice()) {
        Word::Write
    } else if same_bytes(l, w_show.as_slice()) {
        Word::ShowAll
    } else if same_bytes(l, w_pretend.as_slice()) {
        Word::Pretend
    } else {
        Word::Other
    }
}

/// One step over the operation words: from `state`, the word `arg` leads to
/// the returned state and action. Flag words are passed over while idle; a
/// key must name an entry of `table`.
pub fn next_state(state: ArgState, arg: String, table: &SettingsTable) -> (r: (ArgState, Action))
    requires
        table.wf(),
    ensures
        state == ArgState::Idle ==> r == match word_of(encode_utf8(arg@)) {
            Word::Read => (ArgState::AwaitingKey(Operation::Read), Action::Nothing),
            Word::Write => (ArgState::AwaitingKey(Operation::Write), Action::Nothing),
            Word::ShowAll => (ArgState::Idle, Action::Nothing),
            Word::Pretend => (ArgState::Idle, Action::Nothing),
            Word::Other => (ArgState::Idle, Action::UnknownOperation(arg)),
        },
        state matches ArgState::AwaitingKey(op) ==> r == if !has_key(table@, arg@) {
            (ArgState::Idle, Action::KeyNotFound(arg))
        } else if op == Operation::Read {
            (ArgState::Idle, Action::Show(arg))
        } else {
            (ArgState::AwaitingValue(arg), Action::Nothing)
        },
        state matches ArgState::AwaitingValue(key) ==> r == (ArgState::Idle, Action::Assign(key, arg)),
{
    match state {
        ArgState::Idle => match classify(arg.as_str()) {
            Word::Read => (ArgState::AwaitingKey(Operation::Read), Action::Nothing),
            Word::Write => (ArgState::AwaitingKey(Operation::Write), Action::Nothing),
            Word::ShowAll => (ArgState::Idle, Action::Nothing),
            Word::Pretend => (ArgState::Idle, Action::Nothing),
            Word::Other => (ArgState::Idle, Action::UnknownOperation(arg)),
        },
        ArgState::AwaitingKey(op) => {
            if table.lookup(arg.as_str()).is_none() {
                (ArgState::Idle, Action::KeyNotFound(arg))
            } else {
                match op {
                    Operation::Read => (ArgState::Idle, Action::Show(arg)),
                    Operation::Write => (ArgState::AwaitingValue(arg), Action::Nothing),
                }
            }
        },
        ArgState::AwaitingValue(key) => (ArgState::Idle, Action::Assign(key, arg)),
    }
}

} // verus!
