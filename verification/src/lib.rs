//! Planning and coordination for multi-node peer-to-peer test runs.
//!
//! A run is described by a [`network::Network`]: the registered nodes and the
//! directed dial edges between them. Starting the plan hands it to an
//! [`orchestrator::Orchestrator`], the control state machine that collects
//! published addresses and readiness signals and decides when, and in which
//! order, dial commands are released. Every node follows the
//! [`lifecycle::Phase`] machine and is driven through
//! [`capability::RunningNode`], and the outcomes are folded into a
//! [`report::Report`].
//!
//! The library decides and keeps the books; launching the execution
//! contexts, moving messages between them and joining them is left to the
//! program around it.
pub mod id;
pub mod network;
pub mod orchestrator;
pub mod lifecycle;
pub mod report;
pub mod capability;
