//! Library for a small position-sharing application: a message-driven state
//! machine that tracks the local user's geolocation, keeps a roster of other
//! users' positions fetched from a sync endpoint, and owns the map markers
//! placed for that roster.  The state machine is pure: side effects (map
//! widget calls, the geolocation watch, the HTTP sync) are returned as
//! `Action` values for a host event loop to perform.
//!
//! Coordinates are carried as fixed-point microdegrees, so the wire format
//! (a small JSON subset) is encoded and parsed by verified integer code.

pub mod laws;
pub mod model;
pub mod numfmt;
pub mod position;
pub mod wire;
