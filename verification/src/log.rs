//! Severity-tagged messages.  The library renders them as plain text; any
//! coloring belongs to the caller.

use vstd::prelude::*;

verus! {

/// A message with its severity.
pub enum Log<'a> {
    Error(&'a str),
    Warn(&'a str),
    Suc(&'a str),
    Info(&'a str),
}

/// The plain-text severity prefix.
pub open spec fn severity_prefix(l: Log<'_>) -> Seq<char> {
    match l {
        Log::Error(_) => "error: "@,
        Log::Warn(_) => "warning: "@,
        Log::Suc(_) => "success: "@,
        Log::Info(_) => ""@,
    }
}

/// The message body.
pub open spec fn message_of(l: Log<'_>) -> Seq<char> {
    match l {
        Log::Error(s) => s@,
        Log::Warn(s) => s@,
        Log::Suc(s) => s@,
        Log::Info(s) => s@,
    }
}

impl<'a> Log<'a> {
    /// The plain rendering: the severity prefix, then the message.
    pub fn to_string(self) -> (r: String)
        ensures
            r@ == severity_prefix(self) + message_of(self),
    {
        let mut out = String::new();
        match self {
            Log::Error(s) => {
                out.append("error: ");
                out.append(s);
            },
            Log::Warn(s) => {
                out.append("warning: ");
                out.append(s);
            },
            Log::Suc(s) => {
                out.append("success: ");
                out.append(s);
            },
            Log::Info(s) => {
                out.append(s);
                proof {
                    reveal_strlit("");
                    assert(""@ =~= Seq::<char>::empty());
                    assert(severity_prefix(self) + message_of(self) =~= s@);
                }
            },
        }
        out
    }
}

} // verus!
