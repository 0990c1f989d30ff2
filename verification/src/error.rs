//! The error kinds a listing can fail with, and their display strings.

use vstd::prelude::*;

verus! {

use vstd::string::StringExecFns;

/// A failure of a listing operation.
///
/// `Io` carries the textual description of an operating-system error
/// together with its raw error number, when one is available; the number
/// becomes the process exit code. `StringConversion` marks a file name
/// that is not valid Unicode. `UnknownFlag` carries the offending
/// command-line flag character as a string.
#[derive(Debug)]
pub enum Error {
    Io { message: String, os_code: Option<i32> },
    StringConversion,
    UnknownFlag(String),
}

/// The user-facing message of an error, as a sequence of characters.
pub open spec fn message_spec(e: Error) -> Seq<char> {
    match e {
        Error::Io { message, os_code } => message@,
        Error::StringConversion => "File name includes invalid Unicode data"@,
        Error::UnknownFlag(flag) => "Unknown flag \""@ + flag@ + "\""@,
    }
}

/// The process exit code an error maps to: the raw OS error number when
/// one is known, and 1 otherwise.
pub open spec fn code_spec(e: Error) -> int {
    match e {
        Error::Io { message, os_code } => if os_code is Some {
            os_code->0 as int
        } else {
            1
        },
        _ => 1,
    }
}

impl Error {
    /// The user-facing message of this error.
    pub fn message(&self) -> (r: String)
        ensures
            r@ == message_spec(*self),
    {
        match self {
            Error::Io { message, os_code } => message.clone(),
            Error::StringConversion => "File name includes invalid Unicode data".to_owned(),
            Error::UnknownFlag(flag) => {
                let mut s = "Unknown flag \"".to_owned();
                s.append(flag.as_str());
                s.append("\"");
                s
            },
        }
    }

    /// The full error line: a styled `Error` label, a colon and a
    /// space, then the message.
    pub fn display_string(&self) -> (r: String)
        ensures
            exists|pre: Seq<char>|
                r@ == pre + ": "@ + message_spec(*self) && crate::style::styled_ok("Error"@, pre),
    {
        proof {
            reveal_strlit("Error");
            assert(!"Error"@.contains('\u{1b}')) by {
                assert("Error"@.len() == 5);
            }
        }
        let mut s = crate::style::style_error_label("Error");
        let ghost pre = s@;
        s.append(": ");
        let msg = self.message();
        s.append(msg.as_str());
        proof {
            assert(s@ =~= pre + ": "@ + message_spec(*self));
        }
        s
    }

    /// The process exit code this error maps to.
    pub fn code(&self) -> (c: i32)
        ensures
            c as int == code_spec(*self),
    {
        match self {
            Error::Io { message, os_code } => match os_code {
                Some(c) => *c,
                None => 1,
            },
            _ => 1,
        }
    }
}

} // verus!
