//! Reading, editing and re-encoding a binary key-value settings file.
//!
//! The file is a big-endian entry count followed by entries, each a
//! length-prefixed UTF-8 key, a one-byte type tag and a payload whose shape
//! the tag decides. `decode_file` turns the bytes into a `SettingsTable` that
//! remembers where each payload started; `SettingsTable::encode_table` writes
//! a table back.
pub mod format;
pub mod cursor;
pub mod codec;
pub mod literal;
pub mod table;
pub mod command;

pub use format::DecodeError;
pub use cursor::{ByteCursor, buf_pop};
pub use codec::{
    Value, SettingsEntry, read_key, read_bool, read_u32, read_u64, read_float32, read_string,
    read_binary, read_value, push_be, write_string_to_buffer, write_value,
};
pub use literal::{ParseError, parse_bool, parse_unsigned};
pub use table::{SettingsTable, decode_file};
pub use command::{Word, Operation, ArgState, Action, classify, next_state};
