//! What can go wrong when the file system is searched or read.

use vstd::prelude::*;
use vstd::string::StringExecFns;

verus! {

/// An error of the file system.
#[derive(Debug)]
pub enum FsError {
    /// Nothing at `path` in the directory named `dir`.
    NotFound { path: String, dir: String },
    /// What is at `path` is no file.
    NotAFile { path: String },
    /// What is at `path` is no directory.
    NotADirectory { path: String },
    /// A name in the string table is not UTF-8: the bytes of the name, and what is
    /// wrong with them.
    InvalidName { bytes: Vec<u8>, text: String },
}

/// An error as a value.
pub enum FsErrorView {
    NotFound { path: Seq<char>, dir: Seq<char> },
    NotAFile { path: Seq<char> },
    NotADirectory { path: Seq<char> },
    InvalidName { bytes: Seq<u8>, text: Seq<char> },
}

impl View for FsError {
    type V = FsErrorView;

    open spec fn view(&self) -> FsErrorView {
        match *self {
            FsError::NotFound { path, dir } => FsErrorView::NotFound { path: path@, dir: dir@ },
            FsError::NotAFile { path } => FsErrorView::NotAFile { path: path@ },
            FsError::NotADirectory { path } => FsErrorView::NotADirectory { path: path@ },
            FsError::InvalidName { bytes, text } => FsErrorView::InvalidName {
                bytes: bytes@,
                text: text@,
            },
        }
    }
}

/// The text of an error.
pub open spec fn error_text(e: FsErrorView) -> Seq<char> {
    match e {
        FsErrorView::NotFound { path, dir } =>
            "\""@ + path + "\" not found in the directory \""@ + dir + "\""@,
        FsErrorView::NotAFile { path } => "\""@ + path + "\" is not a File!"@,
        FsErrorView::NotADirectory { path } => "\""@ + path + "\" is not a Directory!"@,
        FsErrorView::InvalidName { bytes, text } => text,
    }
}

impl FsError {
    /// The text of the error.
    pub fn message(&self) -> (text: String)
        ensures
            text@ == error_text(self@),
            match *self {
                FsError::NotFound { path, dir } => text@ == "\""@ + path@
                    + "\" not found in the directory \""@ + dir@ + "\""@,
                FsError::NotAFile { path } => text@ == "\""@ + path@ + "\" is not a File!"@,
                FsError::NotADirectory { path } => text@ == "\""@ + path@
                    + "\" is not a Directory!"@,
                FsError::InvalidName { bytes, text: reason } => text@ == reason@,
            },
    {
        let mut text: String = String::new();
        match self {
            FsError::NotFound { path, dir } => {
                text.append("\"");
                text.append(path.as_str());
                text.append("\" not found in the directory \"");
                text.append(dir.as_str());
                text.append("\"");
            },
            FsError::NotAFile { path } => {
                text.append("\"");
                text.append(path.as_str());
                text.append("\" is not a File!");
            },
            FsError::NotADirectory { path } => {
                text.append("\"");
                text.append(path.as_str());
                text.append("\" is not a Directory!");
            },
            FsError::InvalidName { bytes, text: reason } => {
                text.append(reason.as_str());
            },
        }
        assert(text@ =~= error_text(self@));
        text
    }
}

} // verus!
