//! The command line, once parsed.

use vstd::prelude::*;

verus! {

/// The options of one run.
#[derive(Clone, Debug, PartialEq, Eq)]
pub struct Arguments {
    /// List the names of the entries.
    pub list: bool,
    /// The archive's path; without one, the archive is read from standard
    /// input.
    pub file: Option<String>,
    /// Write each entry's content to a file of its name.
    pub extract: bool,
    /// Make a new archive from `input_files`.
    pub create: bool,
    pub input_files: Vec<String>,
}

/// What a run does.
#[derive(Clone, Copy, Debug, PartialEq, Eq, Structural)]
pub enum Action {
    List,
    Extract,
    Create,
    Nothing,
}

impl Arguments {
    /// The options from what the command line gave for each of them: a
    /// flag that was not given is off, and without input files the list is
    /// empty.
    pub fn from_matches(
        list: Option<bool>,
        file: Option<String>,
        extract: Option<bool>,
        create: Option<bool>,
        input_files: Option<Vec<String>>,
    ) -> (args: Arguments)
        ensures
            args.list == (list == Some(true)),
            args.file == file,
            args.extract == (extract == Some(true)),
            args.create == (create == Some(true)),
            args.input_files@ == match input_files {
                Some(files) => files@,
                None => Seq::empty(),
            },
    {
        Arguments {
            list: match list {
                Some(on) => on,
                None => false,
            },
            file,
            extract: match extract {
                Some(on) => on,
                None => false,
            },
            create: match create {
                Some(on) => on,
                None => false,
            },
            input_files: match input_files {
                Some(files) => files,
                None => Vec::new(),
            },
        }
    }

    /// What these options ask for.
    pub open spec fn chosen(&self) -> Action {
        if self.list {
            Action::List
        } else if self.extract {
            Action::Extract
        } else if self.create && self.file is Some {
            Action::Create
        } else {
            Action::Nothing
        }
    }

    /// What to do: listing comes before extracting, extracting before
    /// creating, and an archive is created only where it has a path.
    pub fn action(&self) -> (action: Action)
        ensures
            action == self.chosen(),
    {
        if self.list {
            Action::List
        } else if self.extract {
            Action::Extract
        } else if self.create && self.file.is_some() {
            Action::Create
        } else {
            Action::Nothing
        }
    }
}

} // verus!
