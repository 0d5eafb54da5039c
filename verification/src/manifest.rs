//! Method manifests: what a method is called, when it runs, which database it
//! owns, and what it promises to report.

use vstd::prelude::*;

use crate::session::Stage;
use crate::text;
use crate::trigger::TriggerEvent;

verus! {

/// One method's manifest.
#[derive(Debug)]
pub struct MethodManifest {
    /// Names the adapter.
    pub name: String,
    pub description: String,
    pub enabled: bool,
    /// The method does not run until the session has reached this stage.
    pub required_stage: Stage,
    /// The events that a method of single packets listens for.
    pub triggers: Vec<TriggerEvent>,
    pub invocation: Invocation,
    /// The method's own reference data.
    pub database: Option<DatabaseSpec>,
    pub output: OutputSchema,
}

#[derive(Debug, Clone, Copy, PartialEq, Eq, Structural)]
pub struct Invocation {
    pub trigger: Trigger,
    /// Higher runs first.
    pub priority: i32,
    /// Give up on a single invocation after this long, in milliseconds.
    pub budget_ms: u64,
}

#[derive(Debug, Clone, Copy, PartialEq, Eq, Structural)]
pub enum Trigger {
    /// Run once, on reaching the required stage, and use the result again from then on;
    /// run again only where it asked for more of the session.
    StageReached,
    /// Run again on every new observation once the stage is reached.
    EveryObservation,
    /// Run once when the session closes or times out.
    SessionEnd,
}

#[derive(Debug)]
pub struct DatabaseSpec {
    /// Relative to the manifest's directory.
    pub path: String,
    /// What the adapter calls the format.
    pub format: String,
}

/// What a method promises to report.
#[derive(Debug)]
pub struct OutputSchema {
    pub fields: Vec<FieldSpec>,
}

#[derive(Debug)]
pub struct FieldSpec {
    pub name: String,
    pub description: String,
}

/// The names of a list of fields.
pub open spec fn field_names(fields: Seq<FieldSpec>) -> Seq<Seq<char>> {
    Seq::new(fields.len(), |i: int| fields[i].name@)
}

/// The descriptions of a list of fields.
pub open spec fn field_descriptions(fields: Seq<FieldSpec>) -> Seq<Seq<char>> {
    Seq::new(fields.len(), |i: int| fields[i].description@)
}

/// What a [`DatabaseSpec`] holds.
pub ghost struct DatabaseView {
    pub path: Seq<char>,
    pub format: Seq<char>,
}

impl View for DatabaseSpec {
    type V = DatabaseView;

    open spec fn view(&self) -> DatabaseView {
        DatabaseView { path: self.path@, format: self.format@ }
    }
}

/// What a [`MethodManifest`] holds.
pub ghost struct ManifestView {
    pub name: Seq<char>,
    pub description: Seq<char>,
    pub enabled: bool,
    pub required_stage: Stage,
    pub triggers: Seq<TriggerEvent>,
    pub trigger: Trigger,
    pub priority: i32,
    pub budget_ms: u64,
    pub database: Option<DatabaseView>,
    /// The names of the fields that the method promises.
    pub fields: Seq<Seq<char>>,
    /// The descriptions of those fields.
    pub descriptions: Seq<Seq<char>>,
}

impl View for MethodManifest {
    type V = ManifestView;

    open spec fn view(&self) -> ManifestView {
        ManifestView {
            name: self.name@,
            description: self.description@,
            enabled: self.enabled,
            required_stage: self.required_stage,
            triggers: self.triggers@,
            trigger: self.invocation.trigger,
            priority: self.invocation.priority,
            budget_ms: self.invocation.budget_ms,
            database: match self.database {
                Some(database) => Some(database@),
                None => None,
            },
            fields: field_names(self.output.fields@),
            descriptions: field_descriptions(self.output.fields@),
        }
    }
}

impl OutputSchema {
    /// Whether a field of that name is promised.
    pub fn declares(&self, key: &str) -> (r: bool)
        ensures
            r == field_names(self.fields@).contains(key@),
    {
        let mut i: usize = 0;
        let ghost names = field_names(self.fields@);
        while i < self.fields.len()
            invariant
                i <= self.fields@.len(),
                names == field_names(self.fields@),
                forall|j: int| 0 <= j < i ==> names[j] != key@,
            decreases self.fields@.len() - i,
        {
            if text::same_str(self.fields[i].name.as_str(), key) {
                assert(names[i as int] == key@);
                return true;
            }
            i = i + 1;
        }
        false
    }
}

/// Methods are on unless their manifest turns them off.
pub fn default_true() -> (r: bool)
    ensures
        r,
{
    true
}

/// How long an invocation may take where the manifest does not say.
pub fn default_budget_ms() -> (r: u64)
    ensures
        r == 250,
{
    250
}

} // verus!
