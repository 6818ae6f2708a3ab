//! The values that travel through every layer of the store.

use vstd::prelude::*;
use vstd::string::*;

verus! {

/// What the store can report to a caller.
#[derive(Debug, PartialEq)]
pub enum DbError {
    KeyNotFound(String),
    InvalidOperation(String),
    InvalidQuery(String),
    /// A failure of the file system underneath the store.
    Io(String),
    /// Stored bytes that do not decode, or that break an ordering rule.
    Corrupt(String),
    /// An empty key, or a configuration value that cannot be used.
    InvalidArgument(String),
}

pub type DbResult<T> = Result<T, DbError>;

impl DbError {
    /// The text carried by the error.
    pub fn message(&self) -> (r: &String)
        ensures
            r@ == self.spec_message(),
    {
        match self {
            DbError::KeyNotFound(m) => m,
            DbError::InvalidOperation(m) => m,
            DbError::InvalidQuery(m) => m,
            DbError::Io(m) => m,
            DbError::Corrupt(m) => m,
            DbError::InvalidArgument(m) => m,
        }
    }

    pub open spec fn spec_message(&self) -> Seq<char> {
        match self {
            DbError::KeyNotFound(m) => m@,
            DbError::InvalidOperation(m) => m@,
            DbError::InvalidQuery(m) => m@,
            DbError::Io(m) => m@,
            DbError::Corrupt(m) => m@,
            DbError::InvalidArgument(m) => m@,
        }
    }

    /// The words that introduce each kind of error.
    pub open spec fn spec_prefix(&self) -> Seq<char> {
        match self {
            DbError::KeyNotFound(_) => "Key not found: "@,
            DbError::InvalidOperation(_) => "Invalid operation: "@,
            DbError::InvalidQuery(_) => "Invalid query: "@,
            DbError::Io(_) => "I/O error: "@,
            DbError::Corrupt(_) => "Corrupt data: "@,
            DbError::InvalidArgument(_) => "Invalid argument: "@,
        }
    }

    /// The error as one line of text: its kind, then its message.
    pub fn to_string(&self) -> (r: String)
        ensures
            r@ == self.spec_prefix() + self.spec_message(),
    {
        let prefix = match self {
            DbError::KeyNotFound(_) => "Key not found: ",
            DbError::InvalidOperation(_) => "Invalid operation: ",
            DbError::InvalidQuery(_) => "Invalid query: ",
            DbError::Io(_) => "I/O error: ",
            DbError::Corrupt(_) => "Corrupt data: ",
            DbError::InvalidArgument(_) => "Invalid argument: ",
        };
        String::from_str(prefix).concat(self.message().as_str())
    }
}

/// What a key maps to: a payload, or the mark of a deletion.
#[derive(Debug, PartialEq)]
pub enum Value {
    Data(String),
    Tombstone,
}

impl View for Value {
    type V = Option<Seq<char>>;

    /// `Some(payload)` for data, `None` for a tombstone.
    open spec fn view(&self) -> Option<Seq<char>> {
        match self {
            Value::Data(s) => Some(s@),
            Value::Tombstone => None,
        }
    }
}

impl Clone for Value {
    fn clone(&self) -> (r: Self)
        ensures
            r@ == self@,
    {
        match self {
            Value::Data(s) => Value::Data(s.clone()),
            Value::Tombstone => Value::Tombstone,
        }
    }
}

impl Value {
    pub fn is_tombstone(&self) -> (r: bool)
        ensures
            r == (self@ is None),
    {
        match self {
            Value::Data(_) => false,
            Value::Tombstone => true,
        }
    }

    pub fn as_data(&self) -> (r: Option<&String>)
        ensures
            match r {
                Some(s) => self@ == Some(s@),
                None => self@ is None,
            },
    {
        match self {
            Value::Data(s) => Some(s),
            Value::Tombstone => None,
        }
    }
}

/// The model of a record: a key and what it maps to.
pub struct Entry {
    pub key: Seq<char>,
    pub value: Option<Seq<char>>,
}

/// The unit of storage, in memory and in a table file.
#[derive(Debug, PartialEq)]
pub struct Record {
    pub key: String,
    pub value: Value,
}

impl View for Record {
    type V = Entry;

    open spec fn view(&self) -> Entry {
        Entry { key: self.key@, value: self.value@ }
    }
}

impl Clone for Record {
    fn clone(&self) -> (r: Self)
        ensures
            r@ == self@,
    {
        Record { key: self.key.clone(), value: self.value.clone() }
    }
}

/// One mutation, as the write-ahead log records it.
#[derive(Debug, PartialEq)]
pub enum WALEntry {
    Insert { key: String, value: String },
    Delete { key: String },
}

impl View for WALEntry {
    type V = Entry;

    /// The record that replaying the entry leaves in the table.
    open spec fn view(&self) -> Entry {
        match self {
            WALEntry::Insert { key, value } => Entry { key: key@, value: Some(value@) },
            WALEntry::Delete { key } => Entry { key: key@, value: None },
        }
    }
}

impl Clone for WALEntry {
    fn clone(&self) -> (r: Self)
        ensures
            r@ == self@,
    {
        match self {
            WALEntry::Insert { key, value } => WALEntry::Insert {
                key: key.clone(),
                value: value.clone(),
            },
            WALEntry::Delete { key } => WALEntry::Delete { key: key.clone() },
        }
    }
}

impl WALEntry {
    pub fn key(&self) -> (r: &str)
        ensures
            r@ == self@.key,
    {
        match self {
            WALEntry::Insert { key, .. } => key.as_str(),
            WALEntry::Delete { key } => key.as_str(),
        }
    }
}

} // verus!
