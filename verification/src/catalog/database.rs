//! An attached database.

use vstd::prelude::*;
use vstd::string::StringExecFns;

verus! {

/// Whether a database may be written to.
#[derive(Debug, Clone, Copy, PartialEq, Eq, Structural)]
pub enum AccessMode {
    ReadWrite,
    ReadOnly,
}

impl AccessMode {
    /// The name of the mode.
    pub open spec fn name(self) -> Seq<char> {
        match self {
            AccessMode::ReadWrite => "ReadWrite"@,
            AccessMode::ReadOnly => "ReadOnly"@,
        }
    }

    /// The name of the mode.
    pub fn as_str(&self) -> (name: &str)
        ensures
            name@ == self.name(),
    {
        match self {
            AccessMode::ReadWrite => "ReadWrite",
            AccessMode::ReadOnly => "ReadOnly",
        }
    }
}

/// How a database was attached.
#[derive(Debug, Clone, PartialEq, Eq)]
pub struct AttachInfo {
    /// Options used for connecting to the database, as pairs of a name and
    /// a value.
    ///
    /// This includes things like connection strings, and other possibly
    /// sensitive info.
    pub options: Vec<(String, String)>,
}

/// A database that plans can refer to.
#[derive(Debug, Clone, PartialEq, Eq)]
pub struct Database {
    pub name: String,
    pub mode: AccessMode,
    pub attach_info: Option<AttachInfo>,
}

/// Why a database cannot be written to.
#[derive(Debug, Clone, PartialEq, Eq)]
pub struct NotWritable {
    /// Name of the database.
    pub database: String,
}

impl NotWritable {
    /// What a user is told.
    pub open spec fn text(self) -> Seq<char> {
        "Database '"@ + self.database@ + "' is not writable"@
    }

    /// What a user is told.
    pub fn message(&self) -> (text: String)
        ensures
            text@ == self.text(),
    {
        let mut text = String::from_str("Database '");
        text.append(self.database.as_str());
        text.append("' is not writable");
        text
    }
}

impl Database {
    /// Whether plans may write to the database. They may if and only if
    /// its mode is read-write.
    pub fn check_can_write(&self) -> (result: Result<(), NotWritable>)
        ensures
            result.is_ok() <==> self.mode == AccessMode::ReadWrite,
            result matches Err(e) ==> e.database@ == self.name@,
    {
        match self.mode {
            AccessMode::ReadWrite => Ok(()),
            AccessMode::ReadOnly => Err(NotWritable { database: self.name.clone() }),
        }
    }
}

} // verus!
