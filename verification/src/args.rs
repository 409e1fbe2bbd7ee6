//! The server's configuration.

use vstd::prelude::*;

verus! {

/// The options that the server was started with.
#[derive(Debug, Clone, PartialEq, Eq)]
pub struct Args {
    /// The directory under which the files endpoint reads and writes.
    pub directory: Option<String>,
}

/// The mathematical model of the configuration.
pub struct ArgsView {
    pub directory: Option<Seq<char>>,
}

impl View for Args {
    type V = ArgsView;

    open spec fn view(&self) -> ArgsView {
        ArgsView {
            directory: match self.directory {
                Some(directory) => Some(directory@),
                None => None,
            },
        }
    }
}

impl ArgsView {
    /// The text put in front of every file name: the directory, or nothing.
    pub open spec fn prefix(self) -> Seq<char> {
        match self.directory {
            Some(directory) => directory,
            None => Seq::empty(),
        }
    }
}

} // verus!
