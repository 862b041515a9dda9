//! An actor-style process model: isolated processes that communicate only by
//! message passing, supervised through bidirectional failure links, spawned
//! from modules bound to resource-bounded environments, and discoverable
//! through a versioned name registry.
//!
//! The heart of the crate is [`node::Node`], an explicit model of the hosting
//! substrate: it owns every process state (mailbox, links, quotas, request
//! bookkeeping) and every operation on it is specified and verified.  The
//! handle types in [`environment`] mirror the user-facing surface: an
//! [`environment::EnvConfig`] is frozen into an [`environment::Environment`],
//! modules are added to it, and processes are spawned from those modules.
//!
//! Environments on remote nodes are deliberately out of scope: remote
//! addressing is an opaque capability of the host transport, and this crate
//! models a single node.

pub mod environment;
pub mod laws;
pub mod node;
pub mod params;
pub mod semver;
