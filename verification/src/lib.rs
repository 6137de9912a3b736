//! Archon node: one machine's part in running workloads under leases.
//!
//! Discovery turns a machine into a described inventory and a resource
//! graph fragment; the agent enforces claims with cgroup limits, a device
//! filter and container arguments; the control plane's decisions about
//! bindings, completions, restarts and re-registration are functions of
//! the state it records.
pub mod text;
pub mod model;
pub mod workload;
pub mod discover;
pub mod inventory;
pub mod graph;
pub mod reconcile;
pub mod registration;
pub mod protocol;
pub mod transport;
pub mod device_filter;
pub mod cgroup;
pub mod container;
pub mod runtime;
pub mod provider;
pub mod agent;
pub mod service;
pub mod ownership;
