use cucumber_rust::{Event, FeatureEvent, HookKind, HookStatus, Normalized, RuleEvent, ScenarioEvent, StepStatus, Violation};

fn feature(f: u64, ev: FeatureEvent) -> Event {
    Event::Feature(f, ev)
}

fn scenario(f: u64, s: u64, ev: ScenarioEvent) -> Event {
    Event::Feature(f, FeatureEvent::Scenario(s, ev))
}

fn rule_scenario(f: u64, r: u64, s: u64, ev: ScenarioEvent) -> Event {
    Event::Feature(f, FeatureEvent::Rule(r, RuleEvent::Scenario(s, ev)))
}

fn run(n: &mut Normalized, evs: &[Event]) -> Vec<Event> {
    let mut out = Vec::new();
    for ev in evs {
        out.extend(n.handle_event(*ev).expect("well-nested input"));
    }
    out
}

#[test]
fn features_are_written_out_in_start_order_without_interruption() {
    let step = ScenarioEvent::Step(1, StepStatus::Passed);
    let input = vec![
        Event::Started,
        feature(1, FeatureEvent::Started),
        feature(2, FeatureEvent::Started),
        scenario(1, 10, ScenarioEvent::Started),
        scenario(1, 11, ScenarioEvent::Started),
        scenario(2, 20, ScenarioEvent::Started),
        scenario(2, 20, step),
        scenario(2, 20, ScenarioEvent::Finished),
        feature(2, FeatureEvent::Finished),
        scenario(1, 11, step),
        scenario(1, 11, ScenarioEvent::Finished),
        scenario(1, 10, step),
        scenario(1, 10, ScenarioEvent::Finished),
        feature(1, FeatureEvent::Finished),
        Event::Finished,
    ];
    let mut n = Normalized::new();
    let out = run(&mut n, &input);
    let expected = vec![
        Event::Started,
        feature(1, FeatureEvent::Started),
        scenario(1, 10, ScenarioEvent::Started),
        scenario(1, 10, step),
        scenario(1, 10, ScenarioEvent::Finished),
        scenario(1, 11, ScenarioEvent::Started),
        scenario(1, 11, step),
        scenario(1, 11, ScenarioEvent::Finished),
        feature(1, FeatureEvent::Finished),
        feature(2, FeatureEvent::Started),
        scenario(2, 20, ScenarioEvent::Started),
        scenario(2, 20, step),
        scenario(2, 20, ScenarioEvent::Finished),
        feature(2, FeatureEvent::Finished),
        Event::Finished,
    ];
    assert_eq!(out, expected);
}

#[test]
fn early_finished_scenario_is_held_back() {
    let mut n = Normalized::new();
    let first = run(
        &mut n,
        &[
            feature(1, FeatureEvent::Started),
            scenario(1, 10, ScenarioEvent::Started),
            scenario(1, 11, ScenarioEvent::Started),
            scenario(1, 11, ScenarioEvent::Finished),
        ],
    );
    assert_eq!(
        first,
        vec![feature(1, FeatureEvent::Started), scenario(1, 10, ScenarioEvent::Started)]
    );
    let second = n.handle_event(scenario(1, 10, ScenarioEvent::Finished)).unwrap();
    assert_eq!(
        second,
        vec![
            scenario(1, 10, ScenarioEvent::Finished),
            scenario(1, 11, ScenarioEvent::Started),
            scenario(1, 11, ScenarioEvent::Finished),
        ]
    );
}

#[test]
fn rules_are_bracketed_and_ordered_by_start() {
    let mut n = Normalized::new();
    let out = run(
        &mut n,
        &[
            feature(1, FeatureEvent::Started),
            feature(1, FeatureEvent::Rule(5, RuleEvent::Started)),
            feature(1, FeatureEvent::Rule(6, RuleEvent::Started)),
            rule_scenario(1, 6, 60, ScenarioEvent::Started),
            rule_scenario(1, 6, 60, ScenarioEvent::Finished),
            feature(1, FeatureEvent::Rule(6, RuleEvent::Finished)),
            rule_scenario(1, 5, 50, ScenarioEvent::Started),
            rule_scenario(1, 5, 50, ScenarioEvent::Finished),
            feature(1, FeatureEvent::Rule(5, RuleEvent::Finished)),
            feature(1, FeatureEvent::Finished),
        ],
    );
    assert_eq!(
        out,
        vec![
            feature(1, FeatureEvent::Started),
            feature(1, FeatureEvent::Rule(5, RuleEvent::Started)),
            rule_scenario(1, 5, 50, ScenarioEvent::Started),
            rule_scenario(1, 5, 50, ScenarioEvent::Finished),
            feature(1, FeatureEvent::Rule(5, RuleEvent::Finished)),
            feature(1, FeatureEvent::Rule(6, RuleEvent::Started)),
            rule_scenario(1, 6, 60, ScenarioEvent::Started),
            rule_scenario(1, 6, 60, ScenarioEvent::Finished),
            feature(1, FeatureEvent::Rule(6, RuleEvent::Finished)),
            feature(1, FeatureEvent::Finished),
        ]
    );
}

#[test]
fn started_and_parsing_errors_pass_through_at_once() {
    let mut n = Normalized::new();
    let _ = run(&mut n, &[feature(1, FeatureEvent::Started), scenario(1, 10, ScenarioEvent::Started)]);
    assert_eq!(n.handle_event(Event::Started).unwrap(), vec![Event::Started]);
    assert_eq!(n.handle_event(Event::ParsingError(3)).unwrap(), vec![Event::ParsingError(3)]);
}

#[test]
fn global_finished_waits_for_every_feature_and_comes_once() {
    let mut n = Normalized::new();
    let _ = run(&mut n, &[feature(1, FeatureEvent::Started)]);
    assert_eq!(n.handle_event(Event::Finished).unwrap(), vec![]);
    assert_eq!(
        n.handle_event(feature(1, FeatureEvent::Finished)).unwrap(),
        vec![feature(1, FeatureEvent::Finished), Event::Finished]
    );
    assert_eq!(n.handle_event(Event::Finished).unwrap(), vec![]);
}

#[test]
fn global_finished_on_empty_queue_is_forwarded() {
    let mut n = Normalized::new();
    assert_eq!(n.handle_event(Event::Finished).unwrap(), vec![Event::Finished]);
}

#[test]
fn finished_of_unknown_feature_is_a_violation() {
    let mut n = Normalized::new();
    assert_eq!(n.handle_event(feature(7, FeatureEvent::Finished)), Err(Violation::UnknownFeature(7)));
    assert_eq!(
        n.handle_event(scenario(7, 1, ScenarioEvent::Started)),
        Err(Violation::UnknownFeature(7))
    );
    // Nothing of the unknown feature was kept.
    assert_eq!(n.handle_event(Event::Finished).unwrap(), vec![Event::Finished]);
}

#[test]
fn event_of_unknown_rule_is_a_violation() {
    let mut n = Normalized::new();
    let _ = run(&mut n, &[feature(1, FeatureEvent::Started)]);
    assert_eq!(
        n.handle_event(feature(1, FeatureEvent::Rule(4, RuleEvent::Finished))),
        Err(Violation::UnknownRule(1, 4))
    );
    assert_eq!(
        n.handle_event(rule_scenario(1, 4, 1, ScenarioEvent::Started)),
        Err(Violation::UnknownRule(1, 4))
    );
}

#[test]
fn payload_events_are_neither_dropped_nor_duplicated() {
    let hook = ScenarioEvent::Hook(HookKind::Before, HookStatus::Failed);
    let bg = ScenarioEvent::Background(2, StepStatus::Skipped);
    let input = vec![
        feature(1, FeatureEvent::Started),
        feature(1, FeatureEvent::Rule(3, RuleEvent::Started)),
        scenario(1, 10, ScenarioEvent::Started),
        rule_scenario(1, 3, 30, ScenarioEvent::Started),
        rule_scenario(1, 3, 30, bg),
        scenario(1, 10, hook),
        rule_scenario(1, 3, 30, ScenarioEvent::Finished),
        feature(1, FeatureEvent::Rule(3, RuleEvent::Finished)),
        scenario(1, 10, ScenarioEvent::Finished),
        feature(1, FeatureEvent::Finished),
        Event::Finished,
    ];
    let mut n = Normalized::new();
    let out = run(&mut n, &input);
    let payload = |evs: &[Event]| {
        let mut v: Vec<Event> = evs
            .iter()
            .copied()
            .filter(|e| {
                matches!(
                    e,
                    Event::Feature(_, FeatureEvent::Scenario(..))
                        | Event::Feature(_, FeatureEvent::Rule(_, RuleEvent::Scenario(..)))
                )
            })
            .collect();
        v.sort_by_key(|e| format!("{:?}", e));
        v
    };
    assert_eq!(payload(&out), payload(&input));
    assert_eq!(out.len(), input.len());
    assert_eq!(out.last(), Some(&Event::Finished));
}

#[test]
fn repeated_feature_and_rule_start_is_ignored() {
    let mut n = Normalized::new();
    let out = run(
        &mut n,
        &[
            feature(1, FeatureEvent::Started),
            feature(1, FeatureEvent::Rule(2, RuleEvent::Started)),
            feature(1, FeatureEvent::Started),
            feature(1, FeatureEvent::Rule(2, RuleEvent::Started)),
            feature(1, FeatureEvent::Rule(2, RuleEvent::Finished)),
            feature(1, FeatureEvent::Finished),
        ],
    );
    assert_eq!(
        out,
        vec![
            feature(1, FeatureEvent::Started),
            feature(1, FeatureEvent::Rule(2, RuleEvent::Started)),
            feature(1, FeatureEvent::Rule(2, RuleEvent::Finished)),
            feature(1, FeatureEvent::Finished),
        ]
    );
}

#[test]
fn same_scenario_id_under_different_parents_does_not_collide() {
    let mut n = Normalized::new();
    let out = run(
        &mut n,
        &[
            feature(1, FeatureEvent::Started),
            feature(2, FeatureEvent::Started),
            feature(1, FeatureEvent::Rule(3, RuleEvent::Started)),
            scenario(2, 9, ScenarioEvent::Started),
            rule_scenario(1, 3, 9, ScenarioEvent::Started),
            scenario(1, 9, ScenarioEvent::Started),
            scenario(2, 9, ScenarioEvent::Finished),
            feature(2, FeatureEvent::Finished),
            scenario(1, 9, ScenarioEvent::Finished),
            rule_scenario(1, 3, 9, ScenarioEvent::Finished),
            feature(1, FeatureEvent::Rule(3, RuleEvent::Finished)),
            feature(1, FeatureEvent::Finished),
            Event::Finished,
        ],
    );
    assert_eq!(
        out,
        vec![
            feature(1, FeatureEvent::Started),
            feature(1, FeatureEvent::Rule(3, RuleEvent::Started)),
            rule_scenario(1, 3, 9, ScenarioEvent::Started),
            rule_scenario(1, 3, 9, ScenarioEvent::Finished),
            feature(1, FeatureEvent::Rule(3, RuleEvent::Finished)),
            scenario(1, 9, ScenarioEvent::Started),
            scenario(1, 9, ScenarioEvent::Finished),
            feature(1, FeatureEvent::Finished),
            feature(2, FeatureEvent::Started),
            scenario(2, 9, ScenarioEvent::Started),
            scenario(2, 9, ScenarioEvent::Finished),
            feature(2, FeatureEvent::Finished),
            Event::Finished,
        ]
    );
}

#[test]
fn rule_waits_for_its_scenarios_before_finishing() {
    let mut n = Normalized::new();
    let first = run(
        &mut n,
        &[
            feature(1, FeatureEvent::Started),
            feature(1, FeatureEvent::Rule(3, RuleEvent::Started)),
            rule_scenario(1, 3, 30, ScenarioEvent::Started),
            feature(1, FeatureEvent::Rule(3, RuleEvent::Finished)),
        ],
    );
    assert_eq!(
        first,
        vec![
            feature(1, FeatureEvent::Started),
            feature(1, FeatureEvent::Rule(3, RuleEvent::Started)),
            rule_scenario(1, 3, 30, ScenarioEvent::Started),
        ]
    );
    assert_eq!(
        n.handle_event(rule_scenario(1, 3, 30, ScenarioEvent::Finished)).unwrap(),
        vec![
            rule_scenario(1, 3, 30, ScenarioEvent::Finished),
            feature(1, FeatureEvent::Rule(3, RuleEvent::Finished)),
        ]
    );
}
