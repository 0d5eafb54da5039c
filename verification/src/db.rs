//! Reference data: each method owns its own, in a format of its own.

use vstd::prelude::*;

use crate::error::Error;
use crate::manifest::DatabaseSpec;
use crate::text;

verus! {

/// The formats that databases come in.
#[derive(Debug, Clone, Copy, PartialEq, Eq, Structural)]
pub enum DatabaseKind {
    P0f,
    Rules,
}

impl DatabaseKind {
    /// What a manifest calls the format.
    pub open spec fn word(self) -> Seq<char> {
        match self {
            DatabaseKind::P0f => "p0f"@,
            DatabaseKind::Rules => "rules"@,
        }
    }

    pub fn name(self) -> (r: &'static str)
        ensures
            r@ == self.word(),
    {
        match self {
            DatabaseKind::P0f => "p0f",
            DatabaseKind::Rules => "rules",
        }
    }
}

/// Why a database in another format is refused.
pub open spec fn wrong_format(format: Seq<char>, kind: DatabaseKind) -> Seq<char> {
    "format `"@ + format + "` not supported (expected one of [\""@ + kind.word() + "\"])"@
}

/// Whether an error is about the database of a method, for that reason.
pub open spec fn database_error(error: Error, method: Seq<char>, reason: Seq<char>) -> bool {
    error matches Error::Database { method: m, reason: r } && m@ == method && r@ == reason
}

/// Checks that a manifest's database is in the format that its method reads.
pub fn check_format(method: &str, spec: &DatabaseSpec, kind: DatabaseKind) -> (r: Result<
    (),
    Error,
>)
    ensures
        match r {
            Ok(()) => spec.format@ == kind.word(),
            Err(error) => spec.format@ != kind.word() && database_error(
                error,
                method@,
                wrong_format(spec.format@, kind),
            ),
        },
{
    if text::same_str(spec.format.as_str(), kind.name()) {
        return Ok(());
    }
    let mut reason = text::copy_of("format `");
    reason.append(spec.format.as_str());
    reason.append("` not supported (expected one of [\"");
    reason.append(kind.name());
    reason.append("\"])");
    Err(Error::Database { method: text::copy_of(method), reason })
}

/// A database that could not be read, in the words of whoever tried.
pub fn unreadable(method: &str, path: &str, source: &str) -> (r: Error)
    ensures
        database_error(r, method@, path@ + ": "@ + source@),
{
    let mut reason = text::copy_of(path);
    reason.append(": ");
    reason.append(source);
    Error::Database { method: text::copy_of(method), reason }
}

} // verus!
