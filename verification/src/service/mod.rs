//! The lock service: what it accepts, what each request does, and how it is answered.

pub mod checks;
pub mod handlers;
pub mod laws;
pub mod request_laws;

pub use checks::{
    blocking_reason_list, check_blocking_reason, check_event, check_id, check_path,
    check_reason_quoted, check_ttl, check_write_fencing_token, engine_err, internal, to_mode,
    to_state, MAX_CLAIM_TTL_MS, MAX_CYCLE_DEPTH, MAX_ID_LEN, MAX_PATHS_PER_REQUEST, MAX_PATH_LEN,
    MAX_TTL_MS,
};
pub use handlers::{DebugService, PathLockService};
