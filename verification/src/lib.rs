//! A dependency-driven task engine.
//!
//! Tasks declare the tasks that they depend on. The engine derives a
//! directed graph from those declarations, refuses a graph with a cycle,
//! and starts every task after the tasks that it depends on, handing each
//! task the handles to the results of its dependencies.
//!
//! - [`engine::dag`] holds the graph: a builder that keeps the adjacency
//!   lists consistent, and the validated graph that it produces.
//! - [`task`] says what the engine asks of a task.
//! - [`context`] is the store of the handles of one run.
//! - [`engine`] holds the engine and its builder.
//!
//! The library itself never waits: how a task is started, and what a handle
//! to its result is, is for the caller of [`engine::Engine::run`] to say.

pub mod context;
pub mod engine;
pub mod task;
