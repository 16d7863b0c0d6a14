//! Control core of a live-video restreaming service.
//!
//! The crate owns the declarative forwarding configuration (which inputs are
//! pulled or accepted, and where each one is fanned out), decides how a pool
//! of forwarder processes must change to match that configuration, and
//! answers the RTMP broker's lifecycle callbacks.

pub mod auth;
pub mod callback;
pub mod decimal;
pub mod fingerprint;
pub mod ids;
pub mod persist;
pub mod pool;
pub mod state;
pub mod types;

pub use crate::callback::{CallbackAction, CallbackError, CallbackRequest, CallerIp};
pub use crate::ids::{InputId, OutputId};
pub use crate::persist::{PersistedInput, PersistedOutput, PersistedRestream, PersistedState};
pub use crate::pool::{PoolAction, Restreamer, RestreamersPool};
pub use crate::state::State;
pub use crate::types::{Input, Output, PullInput, PushInput, Restream, Status};
