//! Change status letters for whole files, as reported per changed file.
use vstd::prelude::*;

verus! {

/// The kind of change a file underwent.
#[derive(Debug, Clone, Copy, PartialEq, Eq, Structural)]
pub enum FileStatus {
    /// Addition of a file
    Added,
    /// Copy of a file into a new one
    Copied,
    /// Deletion of a file
    Deleted,
    /// Modification of the contents or mode of a file
    Modified,
    /// Renaming of a file
    Renamed,
    /// Change in the type of the file (regular file, symbolic link or submodule)
    TypeChanged,
    /// File is unmerged (the merge must be completed before committing)
    Unmerged,
    /// "Unknown" change type
    Unknown,
}

/// The status letter assigned to each file status.
pub open spec fn status_letter(s: FileStatus) -> char {
    match s {
        FileStatus::Added => 'A',
        FileStatus::Copied => 'C',
        FileStatus::Deleted => 'D',
        FileStatus::Modified => 'M',
        FileStatus::Renamed => 'R',
        FileStatus::TypeChanged => 'T',
        FileStatus::Unmerged => 'U',
        FileStatus::Unknown => 'X',
    }
}

pub open spec fn file_status_of(c: char) -> Option<FileStatus> {
    if c == 'A' {
        Some(FileStatus::Added)
    } else if c == 'C' {
        Some(FileStatus::Copied)
    } else if c == 'D' {
        Some(FileStatus::Deleted)
    } else if c == 'M' {
        Some(FileStatus::Modified)
    } else if c == 'R' {
        Some(FileStatus::Renamed)
    } else if c == 'T' {
        Some(FileStatus::TypeChanged)
    } else if c == 'U' {
        Some(FileStatus::Unmerged)
    } else if c == 'X' {
        Some(FileStatus::Unknown)
    } else {
        None
    }
}

impl FileStatus {
    /// Parse a status letter.
    pub fn try_from(value: char) -> (r: Result<Self, ()>)
        ensures
            match r {
                Ok(s) => file_status_of(value) == Some(s),
                Err(_) => file_status_of(value) is None,
            },
    {
        if value == 'A' {
            Ok(Self::Added)
        } else if value == 'C' {
            Ok(Self::Copied)
        } else if value == 'D' {
            Ok(Self::Deleted)
        } else if value == 'M' {
            Ok(Self::Modified)
        } else if value == 'R' {
            Ok(Self::Renamed)
        } else if value == 'T' {
            Ok(Self::TypeChanged)
        } else if value == 'U' {
            Ok(Self::Unmerged)
        } else if value == 'X' {
            Ok(Self::Unknown)
        } else {
            Err(())
        }
    }

    /// The status letter this status is written as.
    pub fn to_char(self) -> (r: char)
        ensures
            r == status_letter(self),
            file_status_of(r) == Some(self),
    {
        match self {
            Self::Added => 'A',
            Self::Copied => 'C',
            Self::Deleted => 'D',
            Self::Modified => 'M',
            Self::Renamed => 'R',
            Self::TypeChanged => 'T',
            Self::Unmerged => 'U',
            Self::Unknown => 'X',
        }
    }
}

} // verus!
