//! What can go wrong, and how it is told.

use vstd::prelude::*;

use crate::text;

verus! {

#[derive(Debug)]
pub enum Error {
    Capture(String),
    Parse { layer: String, reason: String },
    /// A method's reference database could not be loaded or is malformed.
    Database { method: String, reason: String },
    Manifest { path: String, reason: String },
    /// No adapter goes by the name that a manifest gives.
    UnknownMethod(String),
    /// A YAML reader's own words.
    Yaml(String),
    /// The operating system's own words.
    Io(String),
}

impl Error {
    /// The message of an error.
    pub open spec fn text(self) -> Seq<char> {
        match self {
            Error::Capture(reason) => "capture source failed: "@ + reason@,
            Error::Parse { layer, reason } => "could not parse "@ + layer@ + ": "@ + reason@,
            Error::Database { method, reason } => "method `"@ + method@ + "` database: "@ + reason@,
            Error::Manifest { path, reason } => "manifest `"@ + path@ + "`: "@ + reason@,
            Error::UnknownMethod(name) => "no adapter registered for method `"@ + name@ + "`"@,
            Error::Yaml(reason) => reason@,
            Error::Io(reason) => reason@,
        }
    }

    /// Tells the error in words.
    pub fn message(&self) -> (r: String)
        ensures
            r@ == self.text(),
    {
        match self {
            Error::Capture(reason) => {
                let mut out = text::copy_of("capture source failed: ");
                out.append(reason.as_str());
                out
            },
            Error::Parse { layer, reason } => {
                let mut out = text::copy_of("could not parse ");
                out.append(layer.as_str());
                out.append(": ");
                out.append(reason.as_str());
                out
            },
            Error::Database { method, reason } => {
                let mut out = text::copy_of("method `");
                out.append(method.as_str());
                out.append("` database: ");
                out.append(reason.as_str());
                out
            },
            Error::Manifest { path, reason } => {
                let mut out = text::copy_of("manifest `");
                out.append(path.as_str());
                out.append("`: ");
                out.append(reason.as_str());
                out
            },
            Error::UnknownMethod(name) => {
                let mut out = text::copy_of("no adapter registered for method `");
                out.append(name.as_str());
                out.append("`");
                out
            },
            Error::Yaml(reason) => text::copy_of(reason.as_str()),
            Error::Io(reason) => text::copy_of(reason.as_str()),
        }
    }
}

/// Whether a text ends with another.
pub open spec fn ends_with(s: Seq<char>, end: Seq<char>) -> bool {
    s.len() >= end.len() && s.skip(s.len() - end.len()) == end
}

/// A message ends with the reason for the error, whatever the reason is. What comes from
/// a reader or from the system is passed on as it came.
pub proof fn messages_end_with_their_reason(error: Error)
    ensures
        match error {
            Error::Capture(reason) => ends_with(error.text(), reason@),
            Error::Parse { layer, reason } => ends_with(error.text(), layer@ + ": "@ + reason@),
            Error::Database { method, reason } => ends_with(error.text(), reason@),
            Error::Manifest { path, reason } => ends_with(
                error.text(),
                path@ + "`: "@ + reason@,
            ),
            Error::UnknownMethod(name) => ends_with(error.text(), name@ + "`"@),
            Error::Yaml(reason) => error.text() == reason@,
            Error::Io(reason) => error.text() == reason@,
        },
{
    match error {
        Error::Capture(reason) => {
            lemma_ends("capture source failed: "@, reason@);
        },
        Error::Parse { layer, reason } => {
            lemma_ends("could not parse "@, layer@ + ": "@ + reason@);
            assert(error.text() =~= "could not parse "@ + (layer@ + ": "@ + reason@));
        },
        Error::Database { method, reason } => {
            lemma_ends("method `"@ + method@ + "` database: "@, reason@);
        },
        Error::Manifest { path, reason } => {
            lemma_ends("manifest `"@, path@ + "`: "@ + reason@);
            assert(error.text() =~= "manifest `"@ + (path@ + "`: "@ + reason@));
        },
        Error::UnknownMethod(name) => {
            lemma_ends("no adapter registered for method `"@, name@ + "`"@);
            assert(error.text() =~= "no adapter registered for method `"@ + (name@ + "`"@));
        },
        _ => {},
    }
}

proof fn lemma_ends(front: Seq<char>, end: Seq<char>)
    ensures
        ends_with(front + end, end),
{
    assert((front + end).skip(front.len() as int) =~= end);
}

} // verus!
