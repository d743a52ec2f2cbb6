//! Replay of selected events at the end of a run.
//!
//! [`Repeat`] forwards every event as it comes, remembers those that its
//! filter selects, and forwards the remembered ones once more right after the
//! global `Finished` event.
use vstd::prelude::*;
use crate::event::{Event, FeatureEvent, HookStatus, RuleEvent, ScenarioEvent, StepStatus};

verus! {

/// A pure predicate over events, deciding which ones are replayed.
pub trait EventFilter {
    /// Whether the predicate selects `ev`.
    spec fn spec_matches(&self, ev: Event) -> bool;

    /// Decides whether `ev` is selected.
    fn matches(&self, ev: &Event) -> (r: bool)
        ensures
            r == self.spec_matches(*ev),
    ;
}

/// Whether a scenario event is a skipped step or background step.
pub open spec fn is_skipped_step(ev: ScenarioEvent) -> bool {
    match ev {
        ScenarioEvent::Step(_, StepStatus::Skipped) => true,
        ScenarioEvent::Background(_, StepStatus::Skipped) => true,
        _ => false,
    }
}

/// Whether a scenario event is a failed step, background step or hook.
pub open spec fn is_failed_step(ev: ScenarioEvent) -> bool {
    match ev {
        ScenarioEvent::Step(_, StepStatus::Failed) => true,
        ScenarioEvent::Background(_, StepStatus::Failed) => true,
        ScenarioEvent::Hook(_, HookStatus::Failed) => true,
        _ => false,
    }
}

/// The scenario event carried by `ev`, at either nesting level.
pub open spec fn scenario_event_of(ev: Event) -> Option<ScenarioEvent> {
    match ev {
        Event::Feature(_, FeatureEvent::Scenario(_, s)) => Some(s),
        Event::Feature(_, FeatureEvent::Rule(_, RuleEvent::Scenario(_, s))) => Some(s),
        _ => None,
    }
}

/// Selects skipped steps and background steps, under a feature or a rule.
#[derive(Clone, Copy, Debug)]
pub struct SkippedFilter;

/// Selects failed steps, background steps and hooks, under a feature or a
/// rule, and parsing errors.
#[derive(Clone, Copy, Debug)]
pub struct FailedFilter;

fn scenario_event_in(ev: &Event) -> (r: Option<ScenarioEvent>)
    ensures
        r == scenario_event_of(*ev),
{
    match ev {
        Event::Feature(_, FeatureEvent::Scenario(_, s)) => Some(*s),
        Event::Feature(_, FeatureEvent::Rule(_, RuleEvent::Scenario(_, s))) => Some(*s),
        _ => None,
    }
}

impl EventFilter for SkippedFilter {
    open spec fn spec_matches(&self, ev: Event) -> bool {
        match scenario_event_of(ev) {
            Some(s) => is_skipped_step(s),
            None => false,
        }
    }

    fn matches(&self, ev: &Event) -> (r: bool) {
        match scenario_event_in(ev) {
            Some(ScenarioEvent::Step(_, StepStatus::Skipped)) => true,
            Some(ScenarioEvent::Background(_, StepStatus::Skipped)) => true,
            _ => false,
        }
    }
}

impl EventFilter for FailedFilter {
    open spec fn spec_matches(&self, ev: Event) -> bool {
        match ev {
            Event::ParsingError(_) => true,
            _ => match scenario_event_of(ev) {
                Some(s) => is_failed_step(s),
                None => false,
            },
        }
    }

    fn matches(&self, ev: &Event) -> (r: bool) {
        if let Event::ParsingError(_) = ev {
            return true;
        }
        match scenario_event_in(ev) {
            Some(ScenarioEvent::Step(_, StepStatus::Failed)) => true,
            Some(ScenarioEvent::Background(_, StepStatus::Failed)) => true,
            Some(ScenarioEvent::Hook(_, HookStatus::Failed)) => true,
            _ => false,
        }
    }
}

/// One step of the replay buffer: from the buffer before and the incoming
/// event, the buffer after and the events forwarded downstream.
pub open spec fn repeat_step<F: EventFilter>(f: F, buf: Seq<Event>, ev: Event) -> (Seq<Event>, Seq<Event>) {
    let kept = if f.spec_matches(ev) { buf.push(ev) } else { buf };
    if ev == Event::Finished {
        (Seq::empty(), seq![ev] + kept)
    } else {
        (kept, seq![ev])
    }
}

/// The buffer left and all events forwarded after feeding `evs` in order,
/// starting from the buffer `buf`.
pub open spec fn repeat_run<F: EventFilter>(f: F, buf: Seq<Event>, evs: Seq<Event>) -> (Seq<Event>, Seq<Event>)
    decreases evs.len(),
{
    if evs.len() == 0 {
        (buf, Seq::empty())
    } else {
        let (b, out) = repeat_run(f, buf, evs.drop_last());
        let (b2, out2) = repeat_step(f, b, evs.last());
        (b2, out + out2)
    }
}

/// Wrapper around a downstream sink that forwards every event at once and
/// replays the events selected by its filter right after the global
/// `Finished` event.
pub struct Repeat<F> {
    filter: F,
    events: Vec<Event>,
}

impl<F: EventFilter> Repeat<F> {
    /// The events selected so far and not yet replayed.
    pub closed spec fn buffered(&self) -> Seq<Event> {
        self.events@
    }

    /// The filter that selects events for replay.
    pub closed spec fn filter(&self) -> F {
        self.filter
    }

    /// Creates a replay wrapper that selects events with `filter`.
    pub fn new(filter: F) -> (r: Self)
        ensures
            r.filter() == filter,
            r.buffered() == Seq::<Event>::empty(),
    {
        Repeat { filter, events: Vec::new() }
    }

    /// Takes one event and returns, in order, the events to forward
    /// downstream: the event itself and, after the global `Finished`, every
    /// buffered event.
    pub fn handle_event(&mut self, ev: Event) -> (out: Vec<Event>)
        ensures
            final(self).filter() == old(self).filter(),
            (final(self).buffered(), out@) == repeat_step(old(self).filter(), old(self).buffered(), ev),
    {
        if self.filter.matches(&ev) {
            self.events.push(ev);
        }
        let mut out: Vec<Event> = Vec::new();
        out.push(ev);
        if ev == Event::Finished {
            let mut i: usize = 0;
            while i < self.events.len()
                invariant
                    i <= self.events@.len(),
                    out@ == seq![ev] + self.events@.subrange(0, i as int),
                decreases self.events@.len() - i,
            {
                out.push(self.events[i]);
                proof {
                    assert(self.events@.subrange(0, i + 1) == self.events@.subrange(0, i as int).push(self.events@[i as int]));
                }
                i = i + 1;
            }
            assert(self.events@.subrange(0, i as int) == self.events@);
            self.events = Vec::new();
        }
        out
    }
}

impl Repeat<SkippedFilter> {
    /// Creates a replay wrapper for skipped steps.
    pub fn skipped() -> (r: Self)
        ensures
            r.buffered() == Seq::<Event>::empty(),
    {
        Repeat::new(SkippedFilter)
    }
}

impl Repeat<FailedFilter> {
    /// Creates a replay wrapper for failed steps and hooks and for parsing
    /// errors.
    pub fn failed() -> (r: Self)
        ensures
            r.buffered() == Seq::<Event>::empty(),
    {
        Repeat::new(FailedFilter)
    }
}

/// Feeding a run that ends with its only global `Finished` forwards the run
/// unchanged, followed right after `Finished` by exactly the events the
/// filter selects, in the order in which they came; nothing stays buffered.
pub proof fn lemma_repeat_flush<F: EventFilter>(f: F, evs: Seq<Event>)
    requires
        evs.len() > 0,
        evs.last() == Event::Finished,
        forall|i: int| 0 <= i < evs.len() - 1 ==> evs[i] != Event::Finished,
    ensures
        repeat_run(f, Seq::empty(), evs) == (Seq::<Event>::empty(), evs + evs.filter(|e: Event| f.spec_matches(e))),
{
    let pre = evs.drop_last();
    lemma_repeat_prefix(f, pre);
    reveal(Seq::filter);
    assert(pre.push(Event::Finished) == evs);
}

/// Without a global `Finished`, everything is forwarded as it comes and the
/// buffer holds exactly the selected events.
proof fn lemma_repeat_prefix<F: EventFilter>(f: F, evs: Seq<Event>)
    requires
        forall|i: int| 0 <= i < evs.len() ==> evs[i] != Event::Finished,
    ensures
        repeat_run(f, Seq::empty(), evs) == (evs.filter(|e: Event| f.spec_matches(e)), evs),
    decreases evs.len(),
{
    if evs.len() > 0 {
        lemma_repeat_prefix(f, evs.drop_last());
        reveal(Seq::filter);
        assert(evs.drop_last().push(evs.last()) == evs);
    }
}

} // verus!
