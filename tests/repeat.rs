use cucumber_rust::{Event, EventFilter, FailedFilter, FeatureEvent, HookKind, HookStatus, Repeat, RuleEvent, ScenarioEvent, StepStatus};

fn scenario(f: u64, s: u64, ev: ScenarioEvent) -> Event {
    Event::Feature(f, FeatureEvent::Scenario(s, ev))
}

fn rule_scenario(f: u64, r: u64, s: u64, ev: ScenarioEvent) -> Event {
    Event::Feature(f, FeatureEvent::Rule(r, RuleEvent::Scenario(s, ev)))
}

fn run<F: EventFilter>(rep: &mut Repeat<F>, evs: &[Event]) -> Vec<Event> {
    let mut out = Vec::new();
    for ev in evs {
        out.extend(rep.handle_event(*ev));
    }
    out
}

#[test]
fn failed_step_is_replayed_after_finished() {
    let failed = scenario(1, 1, ScenarioEvent::Step(1, StepStatus::Failed));
    let mut rep = Repeat::failed();
    let out = run(&mut rep, &[Event::Started, failed, Event::Finished]);
    assert_eq!(out, vec![Event::Started, failed, Event::Finished, failed]);
}

#[test]
fn events_are_forwarded_at_once() {
    let failed = scenario(1, 1, ScenarioEvent::Step(1, StepStatus::Failed));
    let mut rep = Repeat::failed();
    assert_eq!(rep.handle_event(failed), vec![failed]);
    assert_eq!(rep.handle_event(Event::Started), vec![Event::Started]);
}

#[test]
fn failed_filter_selects_steps_backgrounds_hooks_and_parsing_errors() {
    let step = rule_scenario(1, 2, 3, ScenarioEvent::Step(4, StepStatus::Failed));
    let bg = scenario(1, 3, ScenarioEvent::Background(4, StepStatus::Failed));
    let hook = rule_scenario(1, 2, 3, ScenarioEvent::Hook(HookKind::After, HookStatus::Failed));
    let parse = Event::ParsingError(9);
    let passed = scenario(1, 3, ScenarioEvent::Step(5, StepStatus::Passed));
    let skipped = scenario(1, 3, ScenarioEvent::Step(6, StepStatus::Skipped));
    let ok_hook = scenario(1, 3, ScenarioEvent::Hook(HookKind::Before, HookStatus::Passed));
    let mut rep = Repeat::failed();
    let input = vec![step, passed, bg, skipped, hook, ok_hook, parse, Event::Finished];
    let out = run(&mut rep, &input);
    let mut expected = input.clone();
    expected.extend(vec![step, bg, hook, parse]);
    assert_eq!(out, expected);
}

#[test]
fn skipped_filter_selects_skipped_steps_at_both_levels() {
    let a = scenario(1, 3, ScenarioEvent::Step(4, StepStatus::Skipped));
    let b = rule_scenario(1, 2, 3, ScenarioEvent::Background(4, StepStatus::Skipped));
    let failed = scenario(1, 3, ScenarioEvent::Step(5, StepStatus::Failed));
    let parse = Event::ParsingError(1);
    let mut rep = Repeat::skipped();
    let input = vec![Event::Started, a, failed, parse, b, Event::Finished];
    let out = run(&mut rep, &input);
    let mut expected = input.clone();
    expected.extend(vec![a, b]);
    assert_eq!(out, expected);
}

#[test]
fn explicit_filter_and_buffer_cleared_after_flush() {
    let mut rep = Repeat::new(FailedFilter);
    let out = run(&mut rep, &[Event::ParsingError(1), Event::Started, Event::ParsingError(2), Event::Finished]);
    assert_eq!(
        out,
        vec![
            Event::ParsingError(1),
            Event::Started,
            Event::ParsingError(2),
            Event::Finished,
            Event::ParsingError(1),
            Event::ParsingError(2),
        ]
    );
    assert_eq!(rep.handle_event(Event::Finished), vec![Event::Finished]);
}

#[test]
fn nothing_selected_replays_nothing() {
    let mut rep = Repeat::skipped();
    let out = run(&mut rep, &[Event::Started, Event::Finished]);
    assert_eq!(out, vec![Event::Started, Event::Finished]);
}
