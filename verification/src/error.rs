//! The ways in which an operation on the tree can fail.

use vstd::prelude::*;

verus! {

/// Why an operation was refused. A refused operation leaves the tree as it
/// was.
#[derive(Debug, Clone, Copy, PartialEq, Eq, Structural)]
pub enum FsError {
    /// An identifier names no node of the store.
    NotFound,
    /// A path names a child that its directory does not list.
    NoSuchEntry,
    /// A file stands where a directory is needed.
    NotADirectory,
    /// A directory stands where a file is needed.
    NotAFile,
    /// The name to create is already listed in its directory.
    AlreadyExists,
    /// The directory to remove still lists children.
    DirectoryNotEmpty,
    /// A path or a command lacks the name it is about.
    MissingOperand,
    /// The root directory cannot be removed.
    CannotRemoveRoot,
    /// The command word is not one of the known commands.
    NotImplemented,
    /// The first line of a snapshot is not two numbers.
    MalformedHeader,
    /// A line of a snapshot's name table is not a number and a name.
    MalformedIndexLine,
    /// A line of a snapshot's node table has none of the three shapes.
    MalformedBodyLine,
    /// A directory line lists a child that the name table does not hold.
    DanglingChildReference,
    /// A node line carries an identifier that the name table does not hold.
    DanglingSelfReference,
    /// A snapshot could not be read from or written to its file.
    IoFailure,
}

impl FsError {
    /// The text of `message`, as a sequence of characters.
    pub open spec fn text(self) -> Seq<char> {
        match self {
            FsError::NotFound => "no such node"@,
            FsError::NoSuchEntry => "No such file or directory"@,
            FsError::NotADirectory => "Not a directory"@,
            FsError::NotAFile => "not a file"@,
            FsError::AlreadyExists => "File exists"@,
            FsError::DirectoryNotEmpty => "Directory not empty"@,
            FsError::MissingOperand => "missing operand"@,
            FsError::CannotRemoveRoot => "cannot remove root directory"@,
            FsError::NotImplemented => "not implemented"@,
            FsError::MalformedHeader => "Error parsing the backup: not two numbers on first line"@,
            FsError::MalformedIndexLine => "Error parsing the backup: not a number and a name"@,
            FsError::MalformedBodyLine => "Error rebuilding the backup"@,
            FsError::DanglingChildReference => "Error rebuilding the backup: unknown child"@,
            FsError::DanglingSelfReference => "Error rebuilding the backup: unknown node"@,
            FsError::IoFailure => "Error opening the backup file"@,
        }
    }

    /// A short description for the user.
    pub fn message(&self) -> (s: &'static str)
        ensures
            s@ == self.text(),
    {
        match self {
            FsError::NotFound => "no such node",
            FsError::NoSuchEntry => "No such file or directory",
            FsError::NotADirectory => "Not a directory",
            FsError::NotAFile => "not a file",
            FsError::AlreadyExists => "File exists",
            FsError::DirectoryNotEmpty => "Directory not empty",
            FsError::MissingOperand => "missing operand",
            FsError::CannotRemoveRoot => "cannot remove root directory",
            FsError::NotImplemented => "not implemented",
            FsError::MalformedHeader => "Error parsing the backup: not two numbers on first line",
            FsError::MalformedIndexLine => "Error parsing the backup: not a number and a name",
            FsError::MalformedBodyLine => "Error rebuilding the backup",
            FsError::DanglingChildReference => "Error rebuilding the backup: unknown child",
            FsError::DanglingSelfReference => "Error rebuilding the backup: unknown node",
            FsError::IoFailure => "Error opening the backup file",
        }
    }
}

} // verus!
