//! The errors that maintaining a files list can end in.
use vstd::prelude::*;

verus! {

/// `std::io::Error`, the error of the system's I/O calls. It is carried as it
/// is: nothing is claimed of what such a value holds.
#[verifier::external_type_specification]
#[verifier::external_body]
pub struct ExIoError(std::io::Error);

/// What can go wrong while a files list is read, extended and written back.
#[derive(Debug)]
pub enum Error {
    /// The file at the given path could not be opened or created.
    FailedToOpenFile(String, Option<std::io::Error>),
    /// The given file name holds no interpreter tag to split it at.
    FailedToSplitFilename(String),
    /// A write to the list at the given path took fewer bytes than it was handed.
    FilesListWriteIncomplete(String),
    /// Any other failure of reading, seeking, locking or writing.
    IoError(std::io::Error),
    /// The given path component is not valid text.
    UnableToProcessNonUtf8Path(String),
}

impl Error {
    /// The text that stands before what the error carries.
    pub open spec fn prefix(&self) -> Seq<char> {
        match self {
            Error::FailedToOpenFile(_, _) => "Failed to open file \""@,
            Error::FailedToSplitFilename(_) => "Failed to split filename on \".cpython-\": "@,
            Error::FilesListWriteIncomplete(_) => "Write to files list was incomplete: "@,
            Error::IoError(_) => "IoError: "@,
            Error::UnableToProcessNonUtf8Path(_) => "Unable to process this non-UTF-8 path: "@,
        }
    }

    /// The message for a reader: the prefix of the kind of error, then the name
    /// that the error carries, or, for a failure of the system, the system's own
    /// words for it.
    pub fn message(&self) -> (text: String)
        ensures
            match self {
                Error::FailedToOpenFile(name, None) => text@ == self.prefix() + name@ + "\""@,
                Error::FailedToOpenFile(name, Some(_)) => (self.prefix() + name@ + "\": "@).is_prefix_of(
                    text@,
                ),
                Error::FailedToSplitFilename(name) => text@ == self.prefix() + name@,
                Error::FilesListWriteIncomplete(name) => text@ == self.prefix() + name@,
                Error::IoError(_) => self.prefix().is_prefix_of(text@),
                Error::UnableToProcessNonUtf8Path(name) => text@ == self.prefix() + name@,
            },
    {
        match self {
            Error::FailedToOpenFile(name, maybe_error) => {
                let mut text = "Failed to open file \"".to_owned();
                text.append(name.as_str());
                match maybe_error {
                    Some(error) => {
                        text.append("\": ");
                        let ghost head = text@;
                        let cause = error.to_string();
                        text.append(cause.as_str());
                        assert(head.is_prefix_of(text@));
                    },
                    None => {
                        text.append("\"");
                    },
                }
                text
            },
            Error::FailedToSplitFilename(name) => {
                let mut text = "Failed to split filename on \".cpython-\": ".to_owned();
                text.append(name.as_str());
                text
            },
            Error::FilesListWriteIncomplete(name) => {
                let mut text = "Write to files list was incomplete: ".to_owned();
                text.append(name.as_str());
                text
            },
            Error::IoError(error) => {
                let mut text = "IoError: ".to_owned();
                let cause = error.to_string();
                text.append(cause.as_str());
                text
            },
            Error::UnableToProcessNonUtf8Path(name) => {
                let mut text = "Unable to process this non-UTF-8 path: ".to_owned();
                text.append(name.as_str());
                text
            },
        }
    }
}

impl From<std::io::Error> for Error {
    fn from(err: std::io::Error) -> (e: Error) {
        Error::IoError(err)
    }
}

impl vstd::std_specs::convert::FromSpecImpl<std::io::Error> for Error {
    open spec fn obeys_from_spec() -> bool {
        true
    }

    open spec fn from_spec(err: std::io::Error) -> Error {
        Error::IoError(err)
    }
}

} // verus!
