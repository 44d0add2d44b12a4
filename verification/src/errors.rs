use vstd::prelude::*;

verus! {

/// The ways in which the library refuses an input.
#[derive(Debug, PartialEq, Eq)]
pub enum GuardianError {
    /// Fewer than a command and a folder were given on the command line.
    MissingArguments,
    /// The command word is neither `scan` nor `check`.
    UnknownCommand(String),
    /// A file path does not lie under the scanned folder.
    RelativePath,
    /// The decrypted baseline is not valid UTF-8.
    CorruptedBaseline,
    /// The decrypted baseline does not start with the expected header line.
    InvalidBaseline,
    /// The password is empty once surrounding whitespace is removed.
    EmptyPassword,
}

/// The message that the program prints for an error.
pub open spec fn error_message(e: GuardianError) -> Seq<char> {
    match e {
        GuardianError::MissingArguments => "Missing command or folder path"@,
        GuardianError::UnknownCommand(word) => "Unknown command: "@ + word@,
        GuardianError::RelativePath => "Cannot create relative path"@,
        GuardianError::CorruptedBaseline => "Wrong password or corrupted baseline file"@,
        GuardianError::InvalidBaseline => "Wrong password or invalid baseline file"@,
        GuardianError::EmptyPassword => "Password cannot be empty"@,
    }
}

impl GuardianError {
    /// The message that the program prints for this error.
    pub fn message(&self) -> (text: String)
        ensures
            text@ == error_message(*self),
    {
        match self {
            GuardianError::MissingArguments => "Missing command or folder path".to_owned(),
            GuardianError::UnknownCommand(word) => {
                let mut text = "Unknown command: ".to_owned();
                text.append(word.as_str());
                text
            },
            GuardianError::RelativePath => "Cannot create relative path".to_owned(),
            GuardianError::CorruptedBaseline => "Wrong password or corrupted baseline file".to_owned(),
            GuardianError::InvalidBaseline => "Wrong password or invalid baseline file".to_owned(),
            GuardianError::EmptyPassword => "Password cannot be empty".to_owned(),
        }
    }
}

} // verus!
