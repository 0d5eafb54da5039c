//! How a run is set up.

use vstd::prelude::*;

use crate::text;
use crate::time::{Duration, NANOS_PER_SEC};

verus! {

#[derive(Debug)]
pub struct PipelineConfig {
    /// The directory of method manifests.
    pub manifest_dir: String,
    /// How long a session may be quiet, in seconds.
    pub session_timeout_secs: u64,
    /// Worker threads.
    pub workers: usize,
    pub output: OutputMode,
    /// Analyse both directions of a session rather than the initiator's alone.
    pub both_directions: bool,
}

#[derive(Debug, Clone, Copy, PartialEq, Eq, Structural)]
pub enum OutputMode {
    /// Assemble the whole session, then score it once.
    PerSession,
    /// Guess as data arrives, and refine the guess.
    InferenceTime,
}

impl PipelineConfig {
    /// How long a session may be quiet.
    pub fn session_timeout(&self) -> (r: Duration)
        ensures
            r.nanos == self.session_timeout_secs * NANOS_PER_SEC,
    {
        Duration::from_secs(self.session_timeout_secs)
    }

    /// What is used where nothing is configured, on a host that can run `parallelism`
    /// threads at once, as far as it is known.
    pub fn default_for(parallelism: Option<usize>) -> (r: Self)
        ensures
            r.manifest_dir@ == "methods/manifests"@,
            r.session_timeout_secs == 30,
            r.workers == (match parallelism {
                Some(n) => n,
                None => 4,
            }),
            r.output == OutputMode::PerSession,
            !r.both_directions,
    {
        PipelineConfig {
            manifest_dir: default_manifest_dir(),
            session_timeout_secs: default_timeout_secs(),
            workers: default_workers(parallelism),
            output: OutputMode::PerSession,
            both_directions: false,
        }
    }
}

pub fn default_manifest_dir() -> (r: String)
    ensures
        r@ == "methods/manifests"@,
{
    text::copy_of("methods/manifests")
}

pub fn default_timeout_secs() -> (r: u64)
    ensures
        r == 30,
{
    30
}

/// As many workers as the host can run at once; four where that is not known.
pub fn default_workers(parallelism: Option<usize>) -> (r: usize)
    ensures
        r == (match parallelism {
            Some(n) => n,
            None => 4,
        }),
{
    match parallelism {
        Some(n) => n,
        None => 4,
    }
}

/// The timeout is that many seconds, of a thousand million nanoseconds each.
pub proof fn timeouts_are_in_seconds(config: &PipelineConfig, r: Duration)
    requires
        call_ensures(PipelineConfig::session_timeout, (config,), r),
    ensures
        r.nanos == config.session_timeout_secs * 1_000_000_000,
{
}

} // verus!
