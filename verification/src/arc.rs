//! The adapter between the reasoning engine and ARC-AGI-3 grid games:
//! actions, observed objects and the events between frames, step telemetry,
//! and the spatial feasibility of predicted transitions.

pub mod action;
pub mod observation;
pub mod telemetry;
pub mod bridge;
pub mod engine;
pub mod baseline;
