//! Master-side control plane of a multi-process reverse proxy.
//!
//! The library models the master's command server: the authoritative
//! configuration state and its order language, the admin-client session
//! table, the worker registry, the fan-out tracker that correlates one
//! admin request with the replies of many workers, the framed wire
//! protocol, and the data handed to a successor master on hot upgrade.
//! All socket, file and process work lives outside the library; callers
//! hand in plain values (decoded frames, fork outcomes) and take plain
//! values back (frames to write, actions to perform).

pub mod keyed;
pub mod messages;
pub mod state;
pub mod channel;
pub mod server;
pub mod upgrade;
