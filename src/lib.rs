//! Ordering layer of a behaviour-driven test runner: reorders lifecycle
//! events of concurrently run scenarios into a readable sequential order,
//! and replays selected events once the run has finished.

pub mod event;
pub mod guarantees;
pub mod normalized;
pub mod repeat;

pub use event::{Event, FeatureEvent, HookKind, HookStatus, RuleEvent, ScenarioEvent, StepStatus};
pub use normalized::{Normalized, Violation};
pub use repeat::{EventFilter, FailedFilter, Repeat, SkippedFilter};
