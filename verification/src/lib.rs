//! A small federated compute-orchestration engine.
//!
//! A set of named sites hold named assets (opaque byte bundles that may be
//! data or executable compute objects). A planner turns a declarative
//! `Problem` into per-site instruction programs, and a site engine drives an
//! instruction list to completion by exchanging signed messages with peers.

pub mod ids;
pub mod model;
pub mod planning;
pub mod protocol;
pub mod site;
pub mod store;
