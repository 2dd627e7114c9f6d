//! The cluster around a store: placement, routing, membership and health.

pub mod gossip;
pub mod health;
pub mod placement;
pub mod router;
