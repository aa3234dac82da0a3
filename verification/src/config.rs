//! Test configuration and the start-up decisions taken from it.
use vstd::prelude::*;

use crate::strmap::StrMap;

verus! {

/// One request step of the scenario: an HTTP method and the details given
/// for it in the configuration.
pub struct Step {
    /// The method as written in the configuration (e.g. `get`).
    pub method: String,
    /// The `endpoint` detail, when it is a string.
    pub endpoint: Option<String>,
    /// The entries of the `headers` mapping, each key and value given when
    /// it is a string (empty when there is no such mapping).
    pub headers: Vec<(Option<String>, Option<String>)>,
    /// The `body` detail rendered as YAML text (empty when absent).
    pub body: String,
    /// The entries of the `capture` mapping (variable name to JSON path),
    /// each given when it is a string (empty when there is no such mapping).
    pub capture: Vec<(Option<String>, Option<String>)>,
}

/// The load test to run.
pub struct TestConfig {
    /// The name of the test, used for file names.
    pub testname: String,
    /// The target base URL.
    pub host: String,
    /// Maximum number of concurrent virtual users.
    pub users: u32,
    /// Seconds to ramp up to the target users and TPS.
    pub rampup: u64,
    /// Total duration of the test in seconds.
    pub runtime: u64,
    /// Target transactions per second; `None`: as fast as possible.
    pub peak_tps: Option<u32>,
    /// Number of CPU cores to use; -1: all of them.
    pub max_cores: i32,
    /// Headers applied to every request.
    pub common_headers: StrMap,
    /// The scenario's steps, in order.
    pub steps: Vec<Step>,
    /// Seconds to pause between steps when no TPS target is set.
    pub sleep: Option<u64>,
    /// Upper bound in seconds on one virtual user's session.
    pub session_duration: Option<u64>,
    /// The CSV data source (`"none"` for none).
    pub csv_config: String,
}

/// The value of `max_cores` when the configuration omits it: all cores.
pub fn default_max_cores() -> (r: i32)
    ensures
        r == -1,
{
    -1
}

/// Why a number of worker threads was chosen.
#[derive(Debug, Clone, Copy, PartialEq, Eq, Structural)]
pub enum CoreSelection {
    /// `max_cores` is -1: every available core.
    AllCores,
    /// `max_cores` is zero or negative other than -1: every available core.
    InvalidRequest,
    /// `max_cores` exceeds the hardware: capped at the available cores.
    CappedAtHardware,
    /// `max_cores` is honoured as given.
    Requested,
}

/// The number of worker threads for `max_cores` on a machine with
/// `available` cores, and why.
pub open spec fn worker_threads_spec(max_cores: i32, available: usize) -> (usize, CoreSelection) {
    if max_cores == -1 {
        (available, CoreSelection::AllCores)
    } else if max_cores <= 0 {
        (available, CoreSelection::InvalidRequest)
    } else if max_cores > available {
        (available, CoreSelection::CappedAtHardware)
    } else {
        (max_cores as usize, CoreSelection::Requested)
    }
}

/// Chooses the number of worker threads: all available cores when
/// `max_cores` is -1 or otherwise not positive, at most the available cores,
/// and exactly `max_cores` when the hardware has that many.
pub fn select_worker_threads(max_cores: i32, available: usize) -> (r: (usize, CoreSelection))
    ensures
        r == worker_threads_spec(max_cores, available),
        available >= 1 ==> 1 <= r.0 <= available,
        1 <= max_cores <= available ==> r == (max_cores as usize, CoreSelection::Requested),
        max_cores <= 0 ==> r.0 == available,
        max_cores > available ==> r == (available, CoreSelection::CappedAtHardware),
{
    if max_cores == -1 {
        (available, CoreSelection::AllCores)
    } else if max_cores <= 0 {
        (available, CoreSelection::InvalidRequest)
    } else if max_cores as usize > available {
        (available, CoreSelection::CappedAtHardware)
    } else {
        (max_cores as usize, CoreSelection::Requested)
    }
}

/// Every positive request the hardware can meet is honoured as given; all
/// available cores are used only for a request of zero or less, and a
/// request above the hardware is capped at it.
pub proof fn lemma_worker_threads(max_cores: i32, available: usize)
    ensures
        1 <= max_cores <= available ==> worker_threads_spec(max_cores, available) == (
            max_cores as usize,
            CoreSelection::Requested,
        ),
        max_cores <= 0 ==> worker_threads_spec(max_cores, available).0 == available,
        max_cores == -1 ==> worker_threads_spec(max_cores, available) == (
            available,
            CoreSelection::AllCores,
        ),
        max_cores > available ==> worker_threads_spec(max_cores, available) == (
            available,
            CoreSelection::CappedAtHardware,
        ),
        worker_threads_spec(max_cores, available).0 == available || worker_threads_spec(
            max_cores,
            available,
        ).0 == max_cores,
{
}

/// The soft limit on open files that the engine aims for.
pub const TARGET_OPEN_FILES: u64 = 65536;

/// The new soft limit on open files, given the current soft and hard limits:
/// `None` when the soft limit already reaches the target, else the target
/// capped at the hard limit.
pub fn raised_open_files_limit(soft: u64, hard: u64) -> (r: Option<u64>)
    ensures
        soft >= TARGET_OPEN_FILES ==> r is None,
        soft < TARGET_OPEN_FILES ==> r == Some(if hard < TARGET_OPEN_FILES {
            hard
        } else {
            TARGET_OPEN_FILES
        }),
{
    if soft < TARGET_OPEN_FILES {
        if hard < TARGET_OPEN_FILES {
            Some(hard)
        } else {
            Some(TARGET_OPEN_FILES)
        }
    } else {
        None
    }
}

/// The pause in seconds after each step: the configured sleep, used only
/// when no TPS target paces the requests.
pub fn step_pause(peak_tps: Option<u32>, sleep: Option<u64>) -> (r: Option<u64>)
    ensures
        r == (if peak_tps is None {
            sleep
        } else {
            None
        }),
{
    if peak_tps.is_none() {
        sleep
    } else {
        None
    }
}

/// Nanoseconds in one second.
pub const NANOS_PER_SEC: u128 = 1_000_000_000;

/// How long, in nanoseconds, a virtual user that starts `elapsed_ns` into
/// the test may run: what remains of the test's `runtime_secs` (never less
/// than zero), bounded by the session duration when one is set.
pub fn worker_time_limit(runtime_secs: u64, elapsed_ns: u128, session_duration: Option<u64>) -> (r:
    u128)
    ensures
        ({
            let remaining = if elapsed_ns >= runtime_secs * NANOS_PER_SEC {
                0
            } else {
                runtime_secs * NANOS_PER_SEC - elapsed_ns
            };
            r == match session_duration {
                Some(s) => if s * NANOS_PER_SEC < remaining {
                    s * NANOS_PER_SEC
                } else {
                    remaining
                },
                None => remaining,
            }
        }),
{
    let total = runtime_secs as u128 * NANOS_PER_SEC;
    let remaining = if elapsed_ns >= total {
        0
    } else {
        total - elapsed_ns
    };
    match session_duration {
        Some(s) => {
            let limit = s as u128 * NANOS_PER_SEC;
            if limit < remaining {
                limit
            } else {
                remaining
            }
        },
        None => remaining,
    }
}

} // verus!
