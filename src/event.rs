//! The event tree: what happened to a feature, a rule, a scenario, a step.
//!
//! Features, rules, scenarios and steps are referred to by identifiers:
//! two units are the same unit exactly when their identifiers are equal.
use vstd::prelude::*;

verus! {

/// Outcome of a step (or of a background step).
#[derive(Clone, Copy, Debug, PartialEq, Eq, Structural)]
pub enum StepStatus {
    Started,
    Passed,
    Skipped,
    Failed,
}

/// Which lifecycle hook ran.
#[derive(Clone, Copy, Debug, PartialEq, Eq, Structural)]
pub enum HookKind {
    Before,
    After,
}

/// Outcome of a lifecycle hook.
#[derive(Clone, Copy, Debug, PartialEq, Eq, Structural)]
pub enum HookStatus {
    Started,
    Passed,
    Failed,
}

/// Something that happened inside one scenario.
#[derive(Clone, Copy, Debug, PartialEq, Eq, Structural)]
pub enum ScenarioEvent {
    Started,
    Step(u64, StepStatus),
    Background(u64, StepStatus),
    Hook(HookKind, HookStatus),
    Finished,
}

/// Something that happened inside one rule.
#[derive(Clone, Copy, Debug, PartialEq, Eq, Structural)]
pub enum RuleEvent {
    Started,
    Scenario(u64, ScenarioEvent),
    Finished,
}

/// Something that happened inside one feature.
#[derive(Clone, Copy, Debug, PartialEq, Eq, Structural)]
pub enum FeatureEvent {
    Started,
    Scenario(u64, ScenarioEvent),
    Rule(u64, RuleEvent),
    Finished,
}

/// A top-level event of a run. `ParsingError` carries the identifier of the
/// error that the parser reported.
#[derive(Clone, Copy, Debug, PartialEq, Eq, Structural)]
pub enum Event {
    Started,
    ParsingError(u64),
    Feature(u64, FeatureEvent),
    Finished,
}

impl Event {
    /// The event of scenario `s` (under rule `r`, if any) of feature `f`.
    pub open spec fn spec_scenario(f: u64, r: Option<u64>, s: u64, ev: ScenarioEvent) -> Event {
        match r {
            Some(r) => Event::Feature(f, FeatureEvent::Rule(r, RuleEvent::Scenario(s, ev))),
            None => Event::Feature(f, FeatureEvent::Scenario(s, ev)),
        }
    }

    /// Builds the event of scenario `s` (under rule `r`, if any) of feature `f`.
    pub fn scenario(f: u64, r: Option<u64>, s: u64, ev: ScenarioEvent) -> (e: Event)
        ensures
            e == Event::spec_scenario(f, r, s, ev),
    {
        match r {
            Some(r) => Event::Feature(f, FeatureEvent::Rule(r, RuleEvent::Scenario(s, ev))),
            None => Event::Feature(f, FeatureEvent::Scenario(s, ev)),
        }
    }

    /// Whether this event is an event of some scenario.
    pub open spec fn is_scenario_event(self) -> bool {
        match self {
            Event::Feature(_, FeatureEvent::Scenario(_, _)) => true,
            Event::Feature(_, FeatureEvent::Rule(_, RuleEvent::Scenario(_, _))) => true,
            _ => false,
        }
    }

    /// The feature this event belongs to, if any.
    pub open spec fn feature_of(self) -> Option<u64> {
        match self {
            Event::Feature(f, _) => Some(f),
            _ => None,
        }
    }
}

} // verus!
