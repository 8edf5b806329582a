//! A registry of bound connections, keyed by local port, that refuses a second
//! bind to an occupied (port, IP) pair.
//!
//! The registry never asks a connection for its address itself: the caller
//! queries each entry of the port's bucket (under whatever lock guards the
//! connection) and hands the outcomes in, in bucket order. Every decision
//! taken from those outcomes is made and proved here; `laws` states what
//! follows when the connections answer faithfully.

pub mod addr;
pub mod conn_map;
pub mod laws;
pub mod model;

pub use addr::{IpAddr, SocketAddr};
pub use conn_map::ConnMap;
pub use model::ConnMapError;
