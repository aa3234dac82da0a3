//! Core logic of a load-testing engine: token interpolation, CSV data
//! feeding, request preparation, response correlation and statistics.
mod config;
mod engine;
mod report;
mod stats;
mod strmap;
mod text;
mod utils;

pub use config::{
    default_max_cores, raised_open_files_limit, NANOS_PER_SEC, select_worker_threads, step_pause,
    worker_time_limit, CoreSelection, Step, TestConfig,
};
pub use engine::{
    apply_captures, endpoint_key, parse_method, prepare_request, request_url, response_outcome,
    HttpMethod, PreparedRequest,
};
pub use report::{event_kind, EventKind};
pub use stats::{push_user_history, DURATION_MAX_NANOS, split_endpoint_key, EndpointStats, GlobalStats};
pub use strmap::StrMap;
pub use utils::{csv_source_enabled, resolve_variables, CsvDataCache};
