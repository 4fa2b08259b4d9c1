//! The kind of filesystem object an entry may be validated as before it is
//! cached.

use vstd::prelude::*;

verus! {

/// An entry may be required to name an existing directory or an existing
/// file before it is accepted into the cache.
#[derive(Clone, Copy, Debug, PartialEq, Eq, Structural)]
pub enum Type {
    Directory,
    File,
}

/// The spellings accepted for [`Type::Directory`].
pub open spec fn directory_word(s: Seq<char>) -> bool {
    s == "d"@ || s == "dir"@ || s == "directory"@
}

/// The spellings accepted for [`Type::File`].
pub open spec fn file_word(s: Seq<char>) -> bool {
    s == "f"@ || s == "file"@
}

impl Type {
    /// Decide whether a path of this type is acceptable, given what the
    /// filesystem reports about the path: whether it is a directory and
    /// whether it is a regular file.
    pub fn validate(self, is_dir: bool, is_file: bool) -> (r: bool)
        ensures
            r == if self is Directory {
                is_dir
            } else {
                is_file
            },
    {
        match self {
            Type::Directory => is_dir,
            Type::File => is_file,
        }
    }

    /// Parse a type name; `None` for an unknown spelling.
    pub fn from_str(s: &str) -> (r: Option<Type>)
        ensures
            r == if directory_word(s@) {
                Some(Type::Directory)
            } else if file_word(s@) {
                Some(Type::File)
            } else {
                None::<Type>
            },
    {
        let o = s.to_owned();
        if o == "d".to_owned() || o == "dir".to_owned() || o == "directory".to_owned() {
            Some(Type::Directory)
        } else if o == "f".to_owned() || o == "file".to_owned() {
            Some(Type::File)
        } else {
            None
        }
    }
}

} // verus!
