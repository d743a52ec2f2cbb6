//! What the normalizer guarantees, stated over its model and proved:
//! forwarded streams are never interrupted, units finish in the order in
//! which they started, payload is neither dropped nor duplicated, the global
//! `Finished` comes once and last, and producer violations are caught.
use vstd::prelude::*;
use vstd::multiset::Multiset;
use crate::event::{Event, FeatureEvent, RuleEvent, ScenarioEvent};
use crate::normalized::{
    add_to_scenarios, drain, feature_drain, feature_index, features_drain, first_feature_at,
    first_rule_at, first_scenario_at, first_scenario_unit_at, has_feature, has_rule, immediate, is_rule,
    is_scenario, route, route_in_feature, rule_drain, rule_index, scenario_drain, scenarios_drain, step,
    units_drain, wrap, FeatureModel, QueueModel, RuleModel, ScenarioModel, UnitModel, Violation,
};

verus! {

/// Whether `e` is an event inside feature `f` other than the feature's own
/// `Started` and `Finished`.
pub open spec fn inner_of(e: Event, f: u64) -> bool {
    &&& e is Feature
    &&& e->Feature_0 == f
    &&& !(e->Feature_1 is Started)
    &&& !(e->Feature_1 is Finished)
}

/// Whether every event of `o` is inside feature `f`.
pub open spec fn all_inner_of(o: Seq<Event>, f: u64) -> bool {
    forall|i: int| 0 <= i < o.len() ==> inner_of(#[trigger] o[i], f)
}

proof fn lemma_all_inner_concat(a: Seq<Event>, b: Seq<Event>, f: u64)
    requires
        all_inner_of(a, f),
        all_inner_of(b, f),
    ensures
        all_inner_of(a + b, f),
{
    assert forall|i: int| 0 <= i < (a + b).len() implies inner_of(#[trigger] (a + b)[i], f) by {
        if i < a.len() {
            assert((a + b)[i] == a[i]);
        } else {
            assert((a + b)[i] == b[i - a.len()]);
        }
    }
}

proof fn lemma_wrap_inner(f: u64, r: Option<u64>, s: u64, evs: Seq<ScenarioEvent>)
    ensures
        all_inner_of(wrap(f, r, s, evs), f),
{
}

proof fn lemma_scenarios_drain_inner(f: u64, r: Option<u64>, ss: Seq<ScenarioModel>)
    ensures
        all_inner_of(scenarios_drain(f, r, ss).0, f),
    decreases ss.len(),
{
    if ss.len() > 0 {
        let (o, c) = scenario_drain(ss[0].events);
        lemma_wrap_inner(f, r, ss[0].id, o);
        lemma_scenarios_drain_inner(f, r, ss.drop_first());
        lemma_all_inner_concat(wrap(f, r, ss[0].id, o), scenarios_drain(f, r, ss.drop_first()).0, f);
    }
}

proof fn lemma_rule_drain_inner(f: u64, rm: RuleModel)
    ensures
        all_inner_of(rule_drain(f, rm).0, f),
{
    let start = if rm.started {
        Seq::empty()
    } else {
        seq![Event::Feature(f, FeatureEvent::Rule(rm.id, RuleEvent::Started))]
    };
    let o = scenarios_drain(f, Some(rm.id), rm.scenarios).0;
    lemma_scenarios_drain_inner(f, Some(rm.id), rm.scenarios);
    lemma_all_inner_concat(start, o, f);
    lemma_all_inner_concat(start + o, seq![Event::Feature(f, FeatureEvent::Rule(rm.id, RuleEvent::Finished))], f);
}

proof fn lemma_units_drain_inner(f: u64, us: Seq<UnitModel>)
    ensures
        all_inner_of(units_drain(f, us).0, f),
    decreases us.len(),
{
    if us.len() > 0 {
        match us[0] {
            UnitModel::Rule(rm) => lemma_rule_drain_inner(f, rm),
            UnitModel::Scenario(sm) => lemma_wrap_inner(f, None, sm.id, scenario_drain(sm.events).0),
        }
        lemma_units_drain_inner(f, us.drop_first());
        let o = match us[0] {
            UnitModel::Rule(rm) => rule_drain(f, rm).0,
            UnitModel::Scenario(sm) => wrap(f, None, sm.id, scenario_drain(sm.events).0),
        };
        lemma_all_inner_concat(o, units_drain(f, us.drop_first()).0, f);
    }
}

/// Whether `e` is an event of a feature.
pub open spec fn is_feature_event(e: Event) -> bool {
    e is Feature
}

proof fn lemma_features_drain_feature_events(fs: Seq<FeatureModel>)
    ensures
        forall|i: int| 0 <= i < features_drain(fs).0.len() ==> is_feature_event(#[trigger] features_drain(fs).0[i]),
    decreases fs.len(),
{
    if fs.len() > 0 {
        let fm = fs[0];
        lemma_units_drain_inner(fm.id, fm.units);
        lemma_features_drain_feature_events(fs.drop_first());
        let o = feature_drain(fm).0;
        assert forall|i: int| 0 <= i < o.len() implies is_feature_event(#[trigger] o[i]) by {
            let start = if fm.started {
                Seq::empty()
            } else {
                seq![Event::Feature(fm.id, FeatureEvent::Started)]
            };
            let u = units_drain(fm.id, fm.units).0;
            if i >= start.len() && i < start.len() + u.len() {
                assert(o[i] == u[i - start.len()]);
                assert(inner_of(u[i - start.len()], fm.id));
            }
        }
        let (o0, f2, c) = feature_drain(fm);
        if c {
            let o2 = features_drain(fs.drop_first()).0;
            assert forall|i: int| 0 <= i < (o0 + o2).len() implies is_feature_event(#[trigger] (o0 + o2)[i]) by {
                if i >= o0.len() {
                    assert((o0 + o2)[i] == o2[i - o0.len()]);
                }
            }
        }
    }
}

/// The global `Finished` is forwarded exactly when it has arrived, every
/// feature has been written out, and it was not forwarded before; it is then
/// the last event of the step, appears once, and the queue is left empty.
pub proof fn lemma_global_finish(q: QueueModel, ev: Event)
    requires
        step(q, ev) is Ok,
    ensures
        ({
            let (o, q2) = step(q, ev)->Ok_0;
            &&& (exists|i: int| 0 <= i < o.len() && o[i] == Event::Finished) <==> (!q.done
                && route(q, ev)->Ok_0.finished && q2.features.len() == 0)
            &&& forall|i: int| 0 <= i < o.len() && o[i] == Event::Finished ==> i == o.len() - 1
            &&& q2.done <==> (q.done || (exists|i: int| 0 <= i < o.len() && o[i] == Event::Finished))
            &&& q2.done ==> q2.features.len() == 0 || q.done
        }),
{
    let q1 = route(q, ev)->Ok_0;
    let (d, rest) = features_drain(q1.features);
    lemma_features_drain_feature_events(q1.features);
    let (o, q2) = step(q, ev)->Ok_0;
    let im = immediate(ev);
    assert(forall|i: int| 0 <= i < im.len() ==> im[i] != Event::Finished);
    assert forall|i: int| 0 <= i < im.len() + d.len() implies (im + d)[i] != Event::Finished by {
        if i >= im.len() {
            assert((im + d)[i] == d[i - im.len()]);
            assert(is_feature_event(d[i - im.len()]));
        }
    }
    if q1.finished && rest.len() == 0 && !q1.done {
        assert(o == (im + d).push(Event::Finished));
        assert(o[o.len() - 1] == Event::Finished);
    } else {
        assert(o == im + d);
    }
}

/// A feature event, other than its `Started`, of a feature that is not
/// queued is a violation: the step fails, naming the feature, and nothing is
/// forwarded or changed. While a feature is not queued, no event of it is
/// forwarded.
pub proof fn lemma_unknown_feature(q: QueueModel, f: u64, fev: FeatureEvent)
    requires
        !has_feature(q.features, f),
        !(fev is Started),
    ensures
        step(q, Event::Feature(f, fev)) == Err::<(Seq<Event>, QueueModel), Violation>(Violation::UnknownFeature(f)),
        forall|i: int|
            0 <= i < drain(q).0.len() ==> (#[trigger] drain(q).0[i]).feature_of() != Some(f),
{
    lemma_features_drain_feature_of(q.features, f);
}

proof fn lemma_features_drain_feature_of(fs: Seq<FeatureModel>, f: u64)
    requires
        !has_feature(fs, f),
    ensures
        forall|i: int| 0 <= i < features_drain(fs).0.len() ==> (#[trigger] features_drain(fs).0[i]).feature_of() != Some(f),
    decreases fs.len(),
{
    if fs.len() > 0 {
        let fm = fs[0];
        assert(fm.id != f);
        lemma_units_drain_inner(fm.id, fm.units);
        assert(!has_feature(fs.drop_first(), f)) by {
            if has_feature(fs.drop_first(), f) {
                let k = choose|k: int| 0 <= k < fs.drop_first().len() && fs.drop_first()[k].id == f;
                assert(fs[k + 1].id == f);
            }
        }
        lemma_features_drain_feature_of(fs.drop_first(), f);
        let o = feature_drain(fm).0;
        assert forall|i: int| 0 <= i < o.len() implies (#[trigger] o[i]).feature_of() != Some(f) by {
            let start = if fm.started {
                Seq::empty()
            } else {
                seq![Event::Feature(fm.id, FeatureEvent::Started)]
            };
            let u = units_drain(fm.id, fm.units).0;
            if i >= start.len() && i < start.len() + u.len() {
                assert(o[i] == u[i - start.len()]);
                assert(inner_of(u[i - start.len()], fm.id));
            }
        }
        let (o0, f2, c) = feature_drain(fm);
        if c {
            let o2 = features_drain(fs.drop_first()).0;
            assert forall|i: int| 0 <= i < (o0 + o2).len() implies (#[trigger] (o0 + o2)[i]).feature_of() != Some(f) by {
                if i >= o0.len() {
                    assert((o0 + o2)[i] == o2[i - o0.len()]);
                }
            }
        }
    }
}

/// Reads a stream of forwarded events, knowing which feature, if any, is
/// being written out: `None` where a feature's event appears outside its own
/// `Started`..`Finished` bracket, or a feature starts while another one is
/// open; else the feature left open at the end.
pub open spec fn uninterrupted(open: Option<u64>, o: Seq<Event>) -> Option<Option<u64>>
    decreases o.len(),
{
    if o.len() == 0 {
        Some(open)
    } else {
        match o[0] {
            Event::Feature(g, FeatureEvent::Started) => if open is None {
                uninterrupted(Some(g), o.drop_first())
            } else {
                None
            },
            Event::Feature(g, FeatureEvent::Finished) => if open == Some(g) {
                uninterrupted(None, o.drop_first())
            } else {
                None
            },
            Event::Feature(g, _) => if open == Some(g) {
                uninterrupted(open, o.drop_first())
            } else {
                None
            },
            _ => uninterrupted(open, o.drop_first()),
        }
    }
}

/// The feature being written out: the first queued one, once its `Started`
/// has been forwarded.
pub open spec fn open_feature(fs: Seq<FeatureModel>) -> Option<u64> {
    if fs.len() > 0 && fs[0].started {
        Some(fs[0].id)
    } else {
        None
    }
}

/// Only the first queued feature may have been started downstream.
pub open spec fn only_head_started(fs: Seq<FeatureModel>) -> bool {
    forall|i: int| 0 < i < fs.len() ==> !(#[trigger] fs[i]).started
}

proof fn lemma_uninterrupted_concat(open: Option<u64>, a: Seq<Event>, b: Seq<Event>)
    ensures
        uninterrupted(open, a + b) == match uninterrupted(open, a) {
            Some(o2) => uninterrupted(o2, b),
            None => None,
        },
    decreases a.len(),
{
    if a.len() > 0 {
        assert((a + b).drop_first() == a.drop_first() + b);
        assert((a + b)[0] == a[0]);
        let next = match a[0] {
            Event::Feature(g, FeatureEvent::Started) => Some(g),
            Event::Feature(g, FeatureEvent::Finished) => None,
            _ => open,
        };
        lemma_uninterrupted_concat(next, a.drop_first(), b);
    } else {
        assert(a + b == b);
    }
}

proof fn lemma_uninterrupted_inner(f: u64, o: Seq<Event>)
    requires
        all_inner_of(o, f),
    ensures
        uninterrupted(Some(f), o) == Some(Some(f)),
    decreases o.len(),
{
    if o.len() > 0 {
        assert(inner_of(o[0], f));
        lemma_uninterrupted_inner(f, o.drop_first());
    }
}

proof fn lemma_features_drain_uninterrupted(fs: Seq<FeatureModel>)
    requires
        only_head_started(fs),
    ensures
        uninterrupted(open_feature(fs), features_drain(fs).0) == Some(open_feature(features_drain(fs).1)),
        only_head_started(features_drain(fs).1),
    decreases fs.len(),
{
    if fs.len() > 0 {
        let fm = fs[0];
        let start = if fm.started {
            Seq::empty()
        } else {
            seq![Event::Feature(fm.id, FeatureEvent::Started)]
        };
        let u = units_drain(fm.id, fm.units).0;
        lemma_units_drain_inner(fm.id, fm.units);
        lemma_uninterrupted_inner(fm.id, u);
        lemma_uninterrupted_concat(open_feature(fs), start, u);
        assert(uninterrupted(open_feature(fs), start) == Some(Some(fm.id))) by {
            reveal_with_fuel(uninterrupted, 2);
            if !fm.started {
                assert(start.drop_first().len() == 0);
            }
        }
        let (o, f2, c) = feature_drain(fm);
        let fin = seq![Event::Feature(fm.id, FeatureEvent::Finished)];
        if c {
            let rest = fs.drop_first();
            assert(only_head_started(rest)) by {
                assert forall|i: int| 0 < i < rest.len() implies !(#[trigger] rest[i]).started by {
                    assert(rest[i] == fs[i + 1]);
                }
            }
            assert(open_feature(rest) == None::<u64>) by {
                if rest.len() > 0 {
                    assert(rest[0] == fs[1]);
                }
            }
            lemma_features_drain_uninterrupted(rest);
            lemma_uninterrupted_concat(open_feature(fs), start + u, fin);
            assert(uninterrupted(Some(fm.id), fin) == Some(None::<u64>)) by {
                reveal_with_fuel(uninterrupted, 2);
                assert(fin.drop_first().len() == 0);
            }
            lemma_uninterrupted_concat(open_feature(fs), o, features_drain(rest).0);
        } else {
            let rest = fs.update(0, f2);
            assert(only_head_started(rest)) by {
                assert forall|i: int| 0 < i < rest.len() implies !(#[trigger] rest[i]).started by {
                    assert(rest[i] == fs[i]);
                }
            }
        }
    }
}

/// What recording an event keeps of the queue: the features stay in place
/// with their identifiers and started flags, and a new one, not yet started,
/// may come at the end.
proof fn lemma_route_keeps_features(q: QueueModel, ev: Event)
    requires
        route(q, ev) is Ok,
    ensures
        ({
            let q1 = route(q, ev)->Ok_0;
            &&& q1.done == q.done
            &&& q1.features.len() >= q.features.len()
            &&& forall|i: int| 0 <= i < q.features.len() ==> (#[trigger] q1.features[i]).id == q.features[i].id
                && q1.features[i].started == q.features[i].started
            &&& forall|i: int| q.features.len() <= i < q1.features.len() ==> !(#[trigger] q1.features[i]).started
            &&& q1.features.len() <= q.features.len() + 1
            &&& q1.features.len() > q.features.len() <==> (ev is Feature && ev->Feature_1 is Started && !has_feature(
                q.features,
                ev->Feature_0,
            ))
            &&& q1.features.len() > q.features.len() ==> q1.features.last().id == ev->Feature_0
        }),
{
    match ev {
        Event::Feature(f, fev) => {
            if has_feature(q.features, f) {
                let k = choose|k: int| 0 <= k < q.features.len() && q.features[k].id == f;
                lemma_first_feature_exists(q.features, f, k);
            }
        },
        _ => {},
    }
}

proof fn lemma_first_feature_exists(fs: Seq<FeatureModel>, f: u64, k: int)
    requires
        0 <= k < fs.len(),
        fs[k].id == f,
    ensures
        first_feature_at(fs, f, feature_index(fs, f)),
    decreases k,
{
    if forall|j: int| 0 <= j < k ==> fs[j].id != f {
        assert(first_feature_at(fs, f, k));
    } else {
        let j = choose|j: int| 0 <= j < k && fs[j].id == f;
        lemma_first_feature_exists(fs, f, j);
    }
}

/// Each step keeps the forwarded stream uninterrupted: it continues the
/// feature left open by the steps before, writes each feature it starts up
/// to its `Finished` before starting another, and leaves open exactly the
/// feature the queue is still writing out.
pub proof fn lemma_step_uninterrupted(q: QueueModel, ev: Event)
    requires
        only_head_started(q.features),
        step(q, ev) is Ok,
    ensures
        uninterrupted(open_feature(q.features), step(q, ev)->Ok_0.0) == Some(open_feature(step(q, ev)->Ok_0.1.features)),
        only_head_started(step(q, ev)->Ok_0.1.features),
{
    lemma_route_keeps_features(q, ev);
    let q1 = route(q, ev)->Ok_0;
    assert(only_head_started(q1.features)) by {
        assert forall|i: int| 0 < i < q1.features.len() implies !(#[trigger] q1.features[i]).started by {
            if i < q.features.len() {
                assert(!q.features[i].started);
            }
        }
    }
    assert(open_feature(q1.features) == open_feature(q.features)) by {
        if q.features.len() > 0 {
            assert(q1.features[0].id == q.features[0].id);
        }
    }
    lemma_features_drain_uninterrupted(q1.features);
    let im = immediate(ev);
    let (d, rest) = features_drain(q1.features);
    lemma_uninterrupted_concat(open_feature(q.features), im, d);
    assert(uninterrupted(open_feature(q.features), im) == Some(open_feature(q.features))) by {
        reveal_with_fuel(uninterrupted, 2);
        if im.len() > 0 {
            assert(im.drop_first().len() == 0);
        }
    }
    if q1.finished && rest.len() == 0 && !q1.done {
        let fin = seq![Event::Finished];
        lemma_uninterrupted_concat(open_feature(q.features), im + d, fin);
        assert(fin.drop_first().len() == 0);
        assert(uninterrupted(open_feature(rest), fin) == Some(open_feature(rest))) by {
            reveal_with_fuel(uninterrupted, 2);
        }
        assert(step(q, ev)->Ok_0.0 == im + d + fin);
    } else {
        assert(step(q, ev)->Ok_0.0 == im + d);
    }
    assert(step(q, ev)->Ok_0.1.features == rest);
}

/// The events forwarded and the queue after feeding `evs` in order, or the
/// first violation.
pub open spec fn run(q: QueueModel, evs: Seq<Event>) -> Result<(Seq<Event>, QueueModel), Violation>
    decreases evs.len(),
{
    if evs.len() == 0 {
        Ok((Seq::empty(), q))
    } else {
        match run(q, evs.drop_last()) {
            Ok((o, q1)) => match step(q1, evs.last()) {
                Ok((o2, q2)) => Ok((o + o2, q2)),
                Err(v) => Err(v),
            },
            Err(v) => Err(v),
        }
    }
}

/// The normalizer's state before any event.
pub open spec fn initial() -> QueueModel {
    QueueModel { features: Seq::empty(), finished: false, done: false }
}

/// Once a feature's `Started` has been forwarded, no event of another
/// feature is forwarded until that feature's `Finished` has been: over any
/// run without violation, every forwarded feature event lies inside its own
/// feature's bracket, and brackets never overlap.
pub proof fn lemma_non_interruption(evs: Seq<Event>)
    requires
        run(initial(), evs) is Ok,
    ensures
        uninterrupted(None, run(initial(), evs)->Ok_0.0) == Some(open_feature(run(initial(), evs)->Ok_0.1.features)),
        only_head_started(run(initial(), evs)->Ok_0.1.features),
    decreases evs.len(),
{
    if evs.len() > 0 {
        lemma_non_interruption(evs.drop_last());
        let (o, q1) = run(initial(), evs.drop_last())->Ok_0;
        lemma_step_uninterrupted(q1, evs.last());
        lemma_uninterrupted_concat(None, o, step(q1, evs.last())->Ok_0.0);
    }
}

/// Identifiers of the features whose `Finished` appears in `o`, in order.
pub open spec fn finished_features(o: Seq<Event>) -> Seq<u64>
    decreases o.len(),
{
    if o.len() == 0 {
        Seq::empty()
    } else {
        let rest = finished_features(o.drop_last());
        match o.last() {
            Event::Feature(g, FeatureEvent::Finished) => rest.push(g),
            _ => rest,
        }
    }
}

/// Identifiers of the features whose `Started` appears in `evs`, in order.
pub open spec fn started_features(evs: Seq<Event>) -> Seq<u64>
    decreases evs.len(),
{
    if evs.len() == 0 {
        Seq::empty()
    } else {
        let rest = started_features(evs.drop_last());
        match evs.last() {
            Event::Feature(g, FeatureEvent::Started) => rest.push(g),
            _ => rest,
        }
    }
}

/// Identifiers of the queued features, in queue order.
pub open spec fn feature_ids(fs: Seq<FeatureModel>) -> Seq<u64> {
    fs.map_values(|fm: FeatureModel| fm.id)
}

proof fn lemma_finished_features_concat(a: Seq<Event>, b: Seq<Event>)
    ensures
        finished_features(a + b) == finished_features(a) + finished_features(b),
    decreases b.len(),
{
    if b.len() == 0 {
        assert(a + b == a);
        assert(finished_features(a) + Seq::<u64>::empty() == finished_features(a));
    } else {
        lemma_finished_features_concat(a, b.drop_last());
        assert((a + b).drop_last() == a + b.drop_last());
        assert((a + b).last() == b.last());
        match b.last() {
            Event::Feature(g, FeatureEvent::Finished) => {
                assert(finished_features(a) + finished_features(b.drop_last()).push(g) == (finished_features(a)
                    + finished_features(b.drop_last())).push(g));
            },
            _ => {},
        }
    }
}

proof fn lemma_finished_features_inner(o: Seq<Event>, f: u64)
    requires
        all_inner_of(o, f),
    ensures
        finished_features(o) == Seq::<u64>::empty(),
    decreases o.len(),
{
    if o.len() > 0 {
        assert(inner_of(o[o.len() - 1], f));
        assert forall|i: int| 0 <= i < o.drop_last().len() implies inner_of(#[trigger] o.drop_last()[i], f) by {
            assert(o.drop_last()[i] == o[i]);
        }
        lemma_finished_features_inner(o.drop_last(), f);
    }
}

proof fn lemma_features_drain_order(fs: Seq<FeatureModel>)
    ensures
        feature_ids(fs) == finished_features(features_drain(fs).0) + feature_ids(features_drain(fs).1),
    decreases fs.len(),
{
    if fs.len() == 0 {
        assert(feature_ids(fs) =~= Seq::<u64>::empty());
        assert(finished_features(Seq::<Event>::empty()) == Seq::<u64>::empty());
    } else {
        let fm = fs[0];
        let start = if fm.started {
            Seq::empty()
        } else {
            seq![Event::Feature(fm.id, FeatureEvent::Started)]
        };
        let u = units_drain(fm.id, fm.units).0;
        lemma_units_drain_inner(fm.id, fm.units);
        lemma_finished_features_inner(u, fm.id);
        lemma_finished_features_concat(start, u);
        assert(finished_features(start) == Seq::<u64>::empty()) by {
            reveal_with_fuel(finished_features, 2);
        }
        let (o, f2, c) = feature_drain(fm);
        if c {
            let fin = seq![Event::Feature(fm.id, FeatureEvent::Finished)];
            lemma_finished_features_concat(start + u, fin);
            assert(finished_features(fin) == seq![fm.id]) by {
                reveal_with_fuel(finished_features, 2);
                assert(fin.drop_last().len() == 0);
            }
            lemma_features_drain_order(fs.drop_first());
            lemma_finished_features_concat(o, features_drain(fs.drop_first()).0);
            assert(feature_ids(fs) =~= seq![fm.id] + feature_ids(fs.drop_first()));
        } else {
            assert(feature_ids(fs.update(0, f2)) =~= feature_ids(fs));
        }
    }
}

/// Per step, features leave the queue from its front only, each with its
/// `Finished` forwarded in queue order, and a feature starting for the
/// first time joins the queue at its end.
pub proof fn lemma_step_order(q: QueueModel, ev: Event)
    requires
        step(q, ev) is Ok,
    ensures
        feature_ids(q.features) + (if ev is Feature && ev->Feature_1 is Started && !has_feature(q.features, ev->Feature_0) {
            seq![ev->Feature_0]
        } else {
            Seq::empty()
        }) == finished_features(step(q, ev)->Ok_0.0) + feature_ids(step(q, ev)->Ok_0.1.features),
{
    lemma_route_keeps_features(q, ev);
    let q1 = route(q, ev)->Ok_0;
    let added = if ev is Feature && ev->Feature_1 is Started && !has_feature(q.features, ev->Feature_0) {
        seq![ev->Feature_0]
    } else {
        Seq::empty()
    };
    assert(feature_ids(q1.features) =~= feature_ids(q.features) + added);
    lemma_features_drain_order(q1.features);
    let im = immediate(ev);
    let (d, rest) = features_drain(q1.features);
    assert(finished_features(im) == Seq::<u64>::empty()) by {
        reveal_with_fuel(finished_features, 2);
        if im.len() > 0 {
            assert(im.drop_last().len() == 0);
        }
    }
    lemma_finished_features_concat(im, d);
    if q1.finished && rest.len() == 0 && !q1.done {
        let fin = seq![Event::Finished];
        lemma_finished_features_concat(im + d, fin);
        assert(finished_features(fin) == Seq::<u64>::empty()) by {
            reveal_with_fuel(finished_features, 2);
            assert(fin.drop_last().len() == 0);
        }
        assert(step(q, ev)->Ok_0.0 == im + d + fin);
    } else {
        assert(step(q, ev)->Ok_0.0 == im + d);
    }
    assert(finished_features(im) + finished_features(d) == finished_features(d));
}

/// Output order depends on start order only: over any run without
/// violation in which no feature starts twice, features are finished
/// downstream exactly in the order in which they started, and those not yet
/// finished are queued in that order.
pub proof fn lemma_finish_order(evs: Seq<Event>)
    requires
        run(initial(), evs) is Ok,
        started_features(evs).no_duplicates(),
    ensures
        finished_features(run(initial(), evs)->Ok_0.0) + feature_ids(run(initial(), evs)->Ok_0.1.features)
            == started_features(evs),
    decreases evs.len(),
{
    if evs.len() == 0 {
        assert(feature_ids(initial().features) =~= Seq::<u64>::empty());
        assert(finished_features(Seq::<Event>::empty()) + Seq::<u64>::empty() == Seq::<u64>::empty());
    } else {
        let pre = evs.drop_last();
        let ev = evs.last();
        assert(started_features(pre).no_duplicates()) by {
            if ev is Feature && ev->Feature_1 is Started {
                assert(started_features(evs) == started_features(pre).push(ev->Feature_0));
                assert forall|i: int, j: int|
                    0 <= i < started_features(pre).len() && 0 <= j < started_features(pre).len() && i != j implies
                    started_features(pre)[i] != started_features(pre)[j] by {
                    assert(started_features(pre)[i] == started_features(evs)[i]);
                    assert(started_features(pre)[j] == started_features(evs)[j]);
                }
            }
        }
        lemma_finish_order(pre);
        let (o, q1) = run(initial(), pre)->Ok_0;
        lemma_step_order(q1, ev);
        let (o2, q2) = step(q1, ev)->Ok_0;
        lemma_finished_features_concat(o, o2);
        if ev is Feature && ev->Feature_1 is Started {
            let g = ev->Feature_0;
            let sp = started_features(pre);
            assert(started_features(evs) == sp.push(g));
            assert(!has_feature(q1.features, g)) by {
                if has_feature(q1.features, g) {
                    let k = choose|k: int| 0 <= k < q1.features.len() && q1.features[k].id == g;
                    let n = finished_features(o).len();
                    assert(feature_ids(q1.features)[k] == g);
                    assert(sp[n + k] == g);
                    assert(sp.push(g)[n + k] == sp.push(g)[sp.len() as int]);
                }
            }
        } else {
            assert(started_features(evs) == started_features(pre));
        }
        let added = if ev is Feature && ev->Feature_1 is Started && !has_feature(q1.features, ev->Feature_0) {
            seq![ev->Feature_0]
        } else {
            Seq::empty()
        };
        let fo = finished_features(o);
        let fo2 = finished_features(o2);
        assert(feature_ids(q1.features) + added == fo2 + feature_ids(q2.features));
        assert((fo + fo2) + feature_ids(q2.features) =~= fo + (feature_ids(q1.features) + added));
        assert(fo + (feature_ids(q1.features) + added) =~= (fo + feature_ids(q1.features)) + added);
        assert(started_features(evs) =~= started_features(pre) + added);
    }
}

/// The concatenation of `g` over `s`, in order.
pub open spec fn concat_map<A>(s: Seq<A>, g: spec_fn(A) -> Seq<Event>) -> Seq<Event>
    decreases s.len(),
{
    if s.len() == 0 {
        Seq::empty()
    } else {
        concat_map(s.drop_last(), g) + g(s.last())
    }
}

/// The buffered events of scenarios `ss`, as forwarded events, in queue order.
pub open spec fn scenarios_pending(f: u64, r: Option<u64>, ss: Seq<ScenarioModel>) -> Seq<Event> {
    concat_map(ss, |sm: ScenarioModel| wrap(f, r, sm.id, sm.events))
}

/// The buffered events of one entry of feature `f`.
pub open spec fn unit_pending(f: u64, u: UnitModel) -> Seq<Event> {
    match u {
        UnitModel::Rule(rm) => scenarios_pending(f, Some(rm.id), rm.scenarios),
        UnitModel::Scenario(sm) => wrap(f, None, sm.id, sm.events),
    }
}

/// The buffered events of the entries of feature `f`.
pub open spec fn units_pending(f: u64, us: Seq<UnitModel>) -> Seq<Event> {
    concat_map(us, |u: UnitModel| unit_pending(f, u))
}

/// The buffered events of all queued features.
pub open spec fn features_pending(fs: Seq<FeatureModel>) -> Seq<Event> {
    concat_map(fs, |fm: FeatureModel| units_pending(fm.id, fm.units))
}

/// The events of scenarios in `o`: the payload, as opposed to boundaries
/// and global events.
pub open spec fn payload(o: Seq<Event>) -> Seq<Event> {
    o.filter(|e: Event| e.is_scenario_event())
}

/// No event of the buffer comes after its `Finished`.
pub open spec fn nothing_after_finished(evs: Seq<ScenarioEvent>) -> bool {
    forall|i: int| 0 <= i < evs.len() - 1 ==> evs[i] != ScenarioEvent::Finished
}

/// No scenario buffer of `ss` holds an event after its `Finished`.
pub open spec fn tidy_scenarios(ss: Seq<ScenarioModel>) -> bool {
    forall|i: int| 0 <= i < ss.len() ==> nothing_after_finished(#[trigger] ss[i].events)
}

/// No scenario buffer of `u` holds an event after its `Finished`.
pub open spec fn tidy_unit(u: UnitModel) -> bool {
    match u {
        UnitModel::Rule(rm) => tidy_scenarios(rm.scenarios),
        UnitModel::Scenario(sm) => nothing_after_finished(sm.events),
    }
}

/// No scenario buffer of any queued feature holds an event after its
/// `Finished`, as the nesting of events guarantees.
pub open spec fn tidy(fs: Seq<FeatureModel>) -> bool {
    forall|i: int, j: int| 0 <= i < fs.len() && 0 <= j < fs[i].units.len() ==> tidy_unit(#[trigger] fs[i].units[j])
}

proof fn lemma_concat_map_front<A>(s: Seq<A>, g: spec_fn(A) -> Seq<Event>)
    requires
        s.len() > 0,
    ensures
        concat_map(s, g) == g(s[0]) + concat_map(s.drop_first(), g),
    decreases s.len(),
{
    if s.len() == 1 {
        assert(s.drop_last().len() == 0);
        assert(s.drop_first().len() == 0);
        assert(concat_map(s.drop_last(), g) == Seq::<Event>::empty());
        assert(concat_map(s.drop_first(), g) == Seq::<Event>::empty());
        assert(s.last() == s[0]);
        assert(g(s[0]) + Seq::<Event>::empty() == g(s[0]));
        assert(Seq::<Event>::empty() + g(s[0]) == g(s[0]));
    } else {
        lemma_concat_map_front(s.drop_last(), g);
        assert(s.drop_last().drop_first() == s.drop_first().drop_last());
        assert(s.drop_first().last() == s.last());
        assert(s.drop_last()[0] == s[0]);
        assert(concat_map(s.drop_first(), g) == concat_map(s.drop_first().drop_last(), g) + g(s.drop_first().last()));
        let a = g(s[0]);
        let b = concat_map(s.drop_first().drop_last(), g);
        let c = g(s.last());
        assert((a + b) + c =~= a + (b + c));
    }
}

proof fn lemma_concat_map_update<A>(s: Seq<A>, g: spec_fn(A) -> Seq<Event>, i: int, x: A)
    requires
        0 <= i < s.len(),
    ensures
        concat_map(s.update(i, x), g).to_multiset().add(g(s[i]).to_multiset()) =~= concat_map(s, g).to_multiset().add(
            g(x).to_multiset(),
        ),
    decreases s.len(),
{
    broadcast use vstd::seq_lib::lemma_multiset_commutative;
    let t = s.update(i, x);
    assert(concat_map(t, g) == concat_map(t.drop_last(), g) + g(t.last()));
    assert(concat_map(s, g) == concat_map(s.drop_last(), g) + g(s.last()));
    vstd::seq_lib::lemma_multiset_commutative(concat_map(t.drop_last(), g), g(t.last()));
    vstd::seq_lib::lemma_multiset_commutative(concat_map(s.drop_last(), g), g(s.last()));
    let ma = concat_map(s.drop_last(), g).to_multiset();
    if i == s.len() - 1 {
        assert(t.drop_last() =~= s.drop_last());
        assert(t.last() == x);
        assert(s.last() == s[i]);
        assert(concat_map(t, g).to_multiset() =~= ma.add(g(x).to_multiset()));
        assert(concat_map(s, g).to_multiset() =~= ma.add(g(s[i]).to_multiset()));
        assert(concat_map(t, g).to_multiset().add(g(s[i]).to_multiset()) =~= concat_map(s, g).to_multiset().add(
            g(x).to_multiset(),
        ));
    } else {
        assert(t.drop_last() =~= s.drop_last().update(i, x));
        lemma_concat_map_update(s.drop_last(), g, i, x);
        assert(t.last() == s.last());
        assert(s.drop_last()[i] == s[i]);
        let mt = concat_map(t.drop_last(), g).to_multiset();
        let ml = g(s.last()).to_multiset();
        assert(concat_map(t, g).to_multiset() =~= mt.add(ml));
        assert(concat_map(s, g).to_multiset() =~= ma.add(ml));
        assert(mt.add(g(s[i]).to_multiset()) =~= ma.add(g(x).to_multiset()));
        assert forall|v: Event| #[trigger] mt.add(ml).add(g(s[i]).to_multiset()).count(v) == ma.add(ml).add(
            g(x).to_multiset(),
        ).count(v) by {
            assert(mt.add(g(s[i]).to_multiset()).count(v) == ma.add(g(x).to_multiset()).count(v));
        }
        assert(concat_map(t, g).to_multiset().add(g(s[i]).to_multiset()) =~= concat_map(s, g).to_multiset().add(
            g(x).to_multiset(),
        ));
    }
}

proof fn lemma_concat_map_push<A>(s: Seq<A>, g: spec_fn(A) -> Seq<Event>, x: A)
    ensures
        concat_map(s.push(x), g) == concat_map(s, g) + g(x),
{
    assert(s.push(x).drop_last() == s);
}

proof fn lemma_payload_all(o: Seq<Event>)
    requires
        forall|i: int| 0 <= i < o.len() ==> (#[trigger] o[i]).is_scenario_event(),
    ensures
        payload(o) == o,
    decreases o.len(),
{
    reveal(Seq::filter);
    if o.len() > 0 {
        lemma_payload_all(o.drop_last());
        assert(o.drop_last().push(o.last()) == o);
    }
}

proof fn lemma_payload_none(o: Seq<Event>)
    requires
        forall|i: int| 0 <= i < o.len() ==> !(#[trigger] o[i]).is_scenario_event(),
    ensures
        payload(o) == Seq::<Event>::empty(),
    decreases o.len(),
{
    reveal(Seq::filter);
    if o.len() > 0 {
        lemma_payload_none(o.drop_last());
    }
}

proof fn lemma_payload_concat(a: Seq<Event>, b: Seq<Event>)
    ensures
        payload(a + b) == payload(a) + payload(b),
{
    Seq::filter_distributes_over_add(a, b, |e: Event| e.is_scenario_event());
}

proof fn lemma_payload_wrap(f: u64, r: Option<u64>, s: u64, evs: Seq<ScenarioEvent>)
    ensures
        payload(wrap(f, r, s, evs)) == wrap(f, r, s, evs),
{
    lemma_payload_all(wrap(f, r, s, evs));
}

proof fn lemma_scenario_drain_all(evs: Seq<ScenarioEvent>)
    requires
        nothing_after_finished(evs),
    ensures
        scenario_drain(evs).0 == evs,
    decreases evs.len(),
{
    if evs.len() > 0 {
        if evs[0] == ScenarioEvent::Finished {
            assert(evs.len() == 1);
            assert(seq![evs[0]] == evs);
        } else {
            let t = evs.drop_first();
            assert(nothing_after_finished(t)) by {
                assert forall|i: int| 0 <= i < t.len() - 1 implies t[i] != ScenarioEvent::Finished by {
                    assert(t[i] == evs[i + 1]);
                }
            }
            lemma_scenario_drain_all(t);
            assert(seq![evs[0]] + t == evs);
        }
    }
}

proof fn lemma_scenarios_drain_content(f: u64, r: Option<u64>, ss: Seq<ScenarioModel>)
    requires
        tidy_scenarios(ss),
    ensures
        payload(scenarios_drain(f, r, ss).0) + scenarios_pending(f, r, scenarios_drain(f, r, ss).1) == scenarios_pending(
            f,
            r,
            ss,
        ),
    decreases ss.len(),
{
    let g = |sm: ScenarioModel| wrap(f, r, sm.id, sm.events);
    if ss.len() == 0 {
        lemma_payload_none(Seq::<Event>::empty());
        assert(Seq::<Event>::empty() + scenarios_pending(f, r, ss) == scenarios_pending(f, r, ss));
    } else {
        assert(nothing_after_finished(ss[0].events));
        lemma_scenario_drain_all(ss[0].events);
        let w = wrap(f, r, ss[0].id, ss[0].events);
        lemma_payload_wrap(f, r, ss[0].id, ss[0].events);
        lemma_concat_map_front(ss, g);
        let (o, c) = scenario_drain(ss[0].events);
        if c {
            let t = ss.drop_first();
            assert(tidy_scenarios(t)) by {
                assert forall|i: int| 0 <= i < t.len() implies nothing_after_finished(#[trigger] t[i].events) by {
                    assert(t[i] == ss[i + 1]);
                }
            }
            lemma_scenarios_drain_content(f, r, t);
            lemma_payload_concat(w, scenarios_drain(f, r, t).0);
            let pd = payload(scenarios_drain(f, r, t).0);
            let pr = scenarios_pending(f, r, scenarios_drain(f, r, t).1);
            assert((w + pd) + pr =~= w + (pd + pr));
        } else {
            let e = ScenarioModel { id: ss[0].id, events: Seq::empty() };
            let u = ss.update(0, e);
            lemma_concat_map_front(u, g);
            assert(u.drop_first() == ss.drop_first());
            assert(wrap(f, r, e.id, e.events) =~= Seq::<Event>::empty());
            assert(Seq::<Event>::empty() + concat_map(ss.drop_first(), g) == concat_map(ss.drop_first(), g));
        }
    }
}

proof fn lemma_payload_boundary(e: Event)
    requires
        !e.is_scenario_event(),
    ensures
        payload(seq![e]) == Seq::<Event>::empty(),
        payload(seq![e]).to_multiset() =~= Multiset::<Event>::empty(),
{
    lemma_payload_none(seq![e]);
    let em = Seq::<Event>::empty();
    em.to_multiset_ensures();
    assert forall|v: Event| #[trigger] em.to_multiset().count(v) == Multiset::<Event>::empty().count(v) by {
        assert(!em.contains(v));
    }
    assert(em.to_multiset() =~= Multiset::<Event>::empty());
}

proof fn lemma_rule_drain_content(f: u64, rm: RuleModel)
    requires
        tidy_scenarios(rm.scenarios),
    ensures
        payload(rule_drain(f, rm).0) + scenarios_pending(f, Some(rm.id), rule_drain(f, rm).1.scenarios) == scenarios_pending(
            f,
            Some(rm.id),
            rm.scenarios,
        ),
        rule_drain(f, rm).2 ==> rule_drain(f, rm).1.scenarios.len() == 0,
{
    let start = if rm.started {
        Seq::empty()
    } else {
        seq![Event::Feature(f, FeatureEvent::Rule(rm.id, RuleEvent::Started))]
    };
    let fin = seq![Event::Feature(f, FeatureEvent::Rule(rm.id, RuleEvent::Finished))];
    let (o, rest) = scenarios_drain(f, Some(rm.id), rm.scenarios);
    lemma_scenarios_drain_content(f, Some(rm.id), rm.scenarios);
    lemma_payload_none(start);
    lemma_payload_none(fin);
    lemma_payload_concat(start, o);
    lemma_payload_concat(start + o, fin);
    assert(Seq::<Event>::empty() + payload(o) == payload(o));
    assert(payload(o) + Seq::<Event>::empty() == payload(o));
}

proof fn lemma_units_drain_content(f: u64, us: Seq<UnitModel>)
    requires
        forall|j: int| 0 <= j < us.len() ==> tidy_unit(#[trigger] us[j]),
    ensures
        payload(units_drain(f, us).0) + units_pending(f, units_drain(f, us).1) == units_pending(f, us),
    decreases us.len(),
{
    let g = |u: UnitModel| unit_pending(f, u);
    if us.len() == 0 {
        lemma_payload_none(Seq::<Event>::empty());
        assert(Seq::<Event>::empty() + units_pending(f, us) == units_pending(f, us));
    } else {
        lemma_concat_map_front(us, g);
        assert(tidy_unit(us[0]));
        let (o, u2, c) = match us[0] {
            UnitModel::Rule(rm) => {
                let (o, r2, c) = rule_drain(f, rm);
                (o, UnitModel::Rule(r2), c)
            },
            UnitModel::Scenario(sm) => {
                let (o, c) = scenario_drain(sm.events);
                (wrap(f, None, sm.id, o), UnitModel::Scenario(ScenarioModel { id: sm.id, events: Seq::empty() }), c)
            },
        };
        match us[0] {
            UnitModel::Rule(rm) => {
                lemma_rule_drain_content(f, rm);
            },
            UnitModel::Scenario(sm) => {
                lemma_scenario_drain_all(sm.events);
                lemma_payload_wrap(f, None, sm.id, sm.events);
                assert(wrap(f, None, sm.id, Seq::empty()) =~= Seq::<Event>::empty());
            },
        }
        assert(payload(o) + unit_pending(f, u2) == unit_pending(f, us[0]));
        if c {
            assert(unit_pending(f, u2) == Seq::<Event>::empty()) by {
                match us[0] {
                    UnitModel::Rule(rm) => {
                        assert(rule_drain(f, rm).1.scenarios.len() == 0);
                        assert(rule_drain(f, rm).1.scenarios == Seq::<ScenarioModel>::empty());
                    },
                    UnitModel::Scenario(sm) => {},
                }
            }
            assert(payload(o) + Seq::<Event>::empty() == payload(o));
            let t = us.drop_first();
            assert forall|j: int| 0 <= j < t.len() implies tidy_unit(#[trigger] t[j]) by {
                assert(t[j] == us[j + 1]);
            }
            lemma_units_drain_content(f, t);
            lemma_payload_concat(o, units_drain(f, t).0);
            let pd = payload(units_drain(f, t).0);
            let pr = units_pending(f, units_drain(f, t).1);
            assert((payload(o) + pd) + pr =~= payload(o) + (pd + pr));
        } else {
            let u = us.update(0, u2);
            lemma_concat_map_front(u, g);
            assert(u.drop_first() == us.drop_first());
            let x = concat_map(us.drop_first(), g);
            assert(payload(o) + (unit_pending(f, u2) + x) =~= (payload(o) + unit_pending(f, u2)) + x);
        }
    }
}

proof fn lemma_features_drain_content(fs: Seq<FeatureModel>)
    requires
        tidy(fs),
    ensures
        payload(features_drain(fs).0) + features_pending(features_drain(fs).1) == features_pending(fs),
        tidy(features_drain(fs).1),
    decreases fs.len(),
{
    let g = |fm: FeatureModel| units_pending(fm.id, fm.units);
    if fs.len() == 0 {
        lemma_payload_none(Seq::<Event>::empty());
        assert(Seq::<Event>::empty() + features_pending(fs) == features_pending(fs));
    } else {
        lemma_concat_map_front(fs, g);
        let fm = fs[0];
        assert forall|j: int| 0 <= j < fm.units.len() implies tidy_unit(#[trigger] fm.units[j]) by {
            assert(tidy_unit(fs[0].units[j]));
        }
        lemma_units_drain_content(fm.id, fm.units);
        let start = if fm.started {
            Seq::empty()
        } else {
            seq![Event::Feature(fm.id, FeatureEvent::Started)]
        };
        let fin = seq![Event::Feature(fm.id, FeatureEvent::Finished)];
        let (uo, urest) = units_drain(fm.id, fm.units);
        lemma_payload_none(start);
        lemma_payload_none(fin);
        lemma_payload_concat(start, uo);
        lemma_payload_concat(start + uo, fin);
        assert(Seq::<Event>::empty() + payload(uo) == payload(uo));
        assert(payload(uo) + Seq::<Event>::empty() == payload(uo));
        let (o, f2, c) = feature_drain(fm);
        assert(payload(o) == payload(uo));
        lemma_units_drain_tidy(fm.id, fm.units);
        if c {
            let t = fs.drop_first();
            assert(tidy(t)) by {
                assert forall|i: int, j: int| 0 <= i < t.len() && 0 <= j < t[i].units.len() implies tidy_unit(
                    #[trigger] t[i].units[j],
                ) by {
                    assert(t[i] == fs[i + 1]);
                }
            }
            lemma_features_drain_content(t);
            lemma_payload_concat(o, features_drain(t).0);
            assert(urest == Seq::<UnitModel>::empty());
            assert(units_pending(fm.id, urest) == Seq::<Event>::empty());
            assert(payload(uo) + Seq::<Event>::empty() == payload(uo));
            let pd = payload(features_drain(t).0);
            let pr = features_pending(features_drain(t).1);
            assert((payload(o) + pd) + pr =~= payload(o) + (pd + pr));
        } else {
            let u = fs.update(0, f2);
            lemma_concat_map_front(u, g);
            assert(u.drop_first() == fs.drop_first());
            let x = concat_map(fs.drop_first(), g);
            assert(payload(o) + (units_pending(fm.id, urest) + x) =~= (payload(o) + units_pending(fm.id, urest)) + x);
            assert(tidy(u)) by {
                assert forall|i: int, j: int| 0 <= i < u.len() && 0 <= j < u[i].units.len() implies tidy_unit(
                    #[trigger] u[i].units[j],
                ) by {
                    if i > 0 {
                        assert(u[i] == fs[i]);
                    }
                }
            }
        }
    }
}

proof fn lemma_units_drain_tidy(f: u64, us: Seq<UnitModel>)
    requires
        forall|j: int| 0 <= j < us.len() ==> tidy_unit(#[trigger] us[j]),
    ensures
        forall|j: int| 0 <= j < units_drain(f, us).1.len() ==> tidy_unit(#[trigger] units_drain(f, us).1[j]),
    decreases us.len(),
{
    if us.len() > 0 {
        let t = us.drop_first();
        assert forall|j: int| 0 <= j < t.len() implies tidy_unit(#[trigger] t[j]) by {
            assert(t[j] == us[j + 1]);
        }
        lemma_units_drain_tidy(f, t);
        let u2 = match us[0] {
            UnitModel::Rule(rm) => {
                lemma_scenarios_drain_tidy(f, Some(rm.id), rm.scenarios);
                UnitModel::Rule(rule_drain(f, rm).1)
            },
            UnitModel::Scenario(sm) => UnitModel::Scenario(ScenarioModel { id: sm.id, events: Seq::empty() }),
        };
        assert(tidy_unit(u2));
        let rest = units_drain(f, us).1;
        assert forall|j: int| 0 <= j < rest.len() implies tidy_unit(#[trigger] rest[j]) by {
            if rest != units_drain(f, t).1 {
                assert(rest == us.update(0, u2));
            }
        }
    }
}

proof fn lemma_scenarios_drain_tidy(f: u64, r: Option<u64>, ss: Seq<ScenarioModel>)
    requires
        tidy_scenarios(ss),
    ensures
        tidy_scenarios(scenarios_drain(f, r, ss).1),
    decreases ss.len(),
{
    if ss.len() > 0 {
        let t = ss.drop_first();
        assert(tidy_scenarios(t)) by {
            assert forall|i: int| 0 <= i < t.len() implies nothing_after_finished(#[trigger] t[i].events) by {
                assert(t[i] == ss[i + 1]);
            }
        }
        lemma_scenarios_drain_tidy(f, r, t);
    }
}

proof fn lemma_first_exists<A>(s: Seq<A>, p: spec_fn(A) -> bool, k: int) -> (i: int)
    requires
        0 <= k < s.len(),
        p(s[k]),
    ensures
        0 <= i < s.len(),
        p(s[i]),
        forall|j: int| 0 <= j < i ==> !p(s[j]),
    decreases k,
{
    if !(forall|j: int| 0 <= j < k ==> !p(s[j])) {
        let j = choose|j: int| 0 <= j < k && p(s[j]);
        lemma_first_exists(s, p, j)
    } else {
        k
    }
}

proof fn lemma_push_multiset(a: Seq<Event>, e: Event)
    ensures
        a.push(e).to_multiset() =~= a.to_multiset().add(seq![e].to_multiset()),
{
    vstd::seq_lib::lemma_multiset_commutative(a, seq![e]);
    assert(a.push(e) == a + seq![e]);
}

proof fn lemma_wrap_push(f: u64, r: Option<u64>, s: u64, evs: Seq<ScenarioEvent>, e: ScenarioEvent)
    ensures
        wrap(f, r, s, evs.push(e)) == wrap(f, r, s, evs).push(Event::spec_scenario(f, r, s, e)),
{
    assert(wrap(f, r, s, evs.push(e)) =~= wrap(f, r, s, evs).push(Event::spec_scenario(f, r, s, e)));
}

proof fn lemma_add_to_scenarios_content(f: u64, r: Option<u64>, ss: Seq<ScenarioModel>, s: u64, e: ScenarioEvent)
    ensures
        scenarios_pending(f, r, add_to_scenarios(ss, s, e)).to_multiset() =~= scenarios_pending(f, r, ss).to_multiset().add(
            seq![Event::spec_scenario(f, r, s, e)].to_multiset(),
        ),
{
    let g = |sm: ScenarioModel| wrap(f, r, sm.id, sm.events);
    let ev = Event::spec_scenario(f, r, s, e);
    if exists|i: int| 0 <= i < ss.len() && ss[i].id == s {
        let k = choose|i: int| 0 <= i < ss.len() && ss[i].id == s;
        let w = lemma_first_exists(ss, |sm: ScenarioModel| sm.id == s, k);
        assert(first_scenario_at(ss, s, w));
        let i = choose|i: int| first_scenario_at(ss, s, i);
        let x = ScenarioModel { id: s, events: ss[i].events.push(e) };
        lemma_concat_map_update(ss, g, i, x);
        lemma_wrap_push(f, r, s, ss[i].events, e);
        lemma_push_multiset(g(ss[i]), ev);
        let m0 = scenarios_pending(f, r, ss.update(i, x)).to_multiset();
        let mi = g(ss[i]).to_multiset();
        let mp = scenarios_pending(f, r, ss).to_multiset();
        let me = seq![ev].to_multiset();
        assert forall|v: Event| #[trigger] m0.count(v) == mp.add(me).count(v) by {
            assert(m0.add(mi).count(v) == mp.add(mi.add(me)).count(v));
        }
    } else {
        let x = ScenarioModel { id: s, events: seq![e] };
        lemma_concat_map_push(ss, g, x);
        assert(g(x) =~= seq![ev]);
        vstd::seq_lib::lemma_multiset_commutative(scenarios_pending(f, r, ss), seq![ev]);
    }
}

proof fn lemma_route_in_feature_content(fm: FeatureModel, fev: FeatureEvent)
    requires
        route_in_feature(fm, fev) is Ok,
    ensures
        route_in_feature(fm, fev)->Ok_0.id == fm.id,
        units_pending(fm.id, route_in_feature(fm, fev)->Ok_0.units).to_multiset() =~= units_pending(
            fm.id,
            fm.units,
        ).to_multiset().add(payload(seq![Event::Feature(fm.id, fev)]).to_multiset()),
{
    let f = fm.id;
    let us = fm.units;
    let g = |u: UnitModel| unit_pending(f, u);
    let ev = Event::Feature(f, fev);
    let fm2 = route_in_feature(fm, fev)->Ok_0;
    let mp = units_pending(f, us).to_multiset();
    if ev.is_scenario_event() {
        lemma_payload_all(seq![ev]);
    } else {
        lemma_payload_boundary(ev);
    }
    match fev {
        FeatureEvent::Started => {},
        FeatureEvent::Finished => {},
        FeatureEvent::Scenario(s, e) => {
            assert(ev == Event::spec_scenario(f, None, s, e));
            if exists|i: int| 0 <= i < us.len() && is_scenario(us[i], s) {
                let k = choose|i: int| 0 <= i < us.len() && is_scenario(us[i], s);
                let w = lemma_first_exists(us, |u: UnitModel| is_scenario(u, s), k);
                assert(first_scenario_unit_at(us, s, w));
                let i = choose|i: int| first_scenario_unit_at(us, s, i);
                let sm = us[i]->Scenario_0;
                let x = UnitModel::Scenario(ScenarioModel { id: s, events: sm.events.push(e) });
                lemma_concat_map_update(us, g, i, x);
                lemma_wrap_push(f, None, s, sm.events, e);
                lemma_push_multiset(g(us[i]), ev);
                let m0 = units_pending(f, us.update(i, x)).to_multiset();
                let mi = g(us[i]).to_multiset();
                let me = seq![ev].to_multiset();
                assert forall|v: Event| #[trigger] m0.count(v) == mp.add(me).count(v) by {
                    assert(m0.add(mi).count(v) == mp.add(mi.add(me)).count(v));
                }
            } else {
                let x = UnitModel::Scenario(ScenarioModel { id: s, events: seq![e] });
                lemma_concat_map_push(us, g, x);
                assert(g(x) =~= seq![ev]);
                vstd::seq_lib::lemma_multiset_commutative(units_pending(f, us), seq![ev]);
            }
        },
        FeatureEvent::Rule(r, rev) => {
            if !has_rule(us, r) {
                let x = UnitModel::Rule(RuleModel { id: r, started: false, finished: false, scenarios: Seq::empty() });
                lemma_concat_map_push(us, g, x);
                assert(g(x) =~= Seq::<Event>::empty());
                assert(units_pending(f, us) + Seq::<Event>::empty() == units_pending(f, us));
            } else {
                let k = choose|i: int| 0 <= i < us.len() && is_rule(us[i], r);
                let w = lemma_first_exists(us, |u: UnitModel| is_rule(u, r), k);
                assert(first_rule_at(us, r, w));
                let i = rule_index(us, r);
                let rm = us[i]->Rule_0;
                match rev {
                    RuleEvent::Started => {},
                    RuleEvent::Finished => {
                        let x = UnitModel::Rule(RuleModel { finished: true, ..rm });
                        lemma_concat_map_update(us, g, i, x);
                        let m0 = units_pending(f, us.update(i, x)).to_multiset();
                        let mi = g(us[i]).to_multiset();
                        assert(g(x) == g(us[i]));
                        assert forall|v: Event| #[trigger] m0.count(v) == mp.count(v) by {
                            assert(m0.add(mi).count(v) == mp.add(mi).count(v));
                        }
                    },
                    RuleEvent::Scenario(s, e) => {
                        assert(ev == Event::spec_scenario(f, Some(r), s, e));
                        let x = UnitModel::Rule(RuleModel { scenarios: add_to_scenarios(rm.scenarios, s, e), ..rm });
                        lemma_concat_map_update(us, g, i, x);
                        lemma_add_to_scenarios_content(f, Some(r), rm.scenarios, s, e);
                        let m0 = units_pending(f, us.update(i, x)).to_multiset();
                        let mi = g(us[i]).to_multiset();
                        let me = seq![ev].to_multiset();
                        assert forall|v: Event| #[trigger] m0.count(v) == mp.add(me).count(v) by {
                            assert(m0.add(mi).count(v) == mp.add(g(x).to_multiset()).count(v));
                        }
                    },
                }
            }
        },
    }
}

proof fn lemma_route_content(q: QueueModel, ev: Event)
    requires
        route(q, ev) is Ok,
    ensures
        features_pending(route(q, ev)->Ok_0.features).to_multiset() =~= features_pending(q.features).to_multiset().add(
            payload(seq![ev]).to_multiset(),
        ),
{
    let fs = q.features;
    let g = |fm: FeatureModel| units_pending(fm.id, fm.units);
    let mp = features_pending(fs).to_multiset();
    match ev {
        Event::Feature(f, fev) => {
            if !has_feature(fs, f) {
                lemma_payload_boundary(ev);
                let x = FeatureModel { id: f, started: false, finished: false, units: Seq::empty() };
                lemma_concat_map_push(fs, g, x);
                assert(g(x) =~= Seq::<Event>::empty());
                assert(features_pending(fs) + Seq::<Event>::empty() == features_pending(fs));
            } else {
                let k = choose|i: int| 0 <= i < fs.len() && fs[i].id == f;
                lemma_first_feature_exists(fs, f, k);
                let i = feature_index(fs, f);
                let x = route_in_feature(fs[i], fev)->Ok_0;
                lemma_route_in_feature_content(fs[i], fev);
                lemma_concat_map_update(fs, g, i, x);
                let m0 = features_pending(fs.update(i, x)).to_multiset();
                let mi = g(fs[i]).to_multiset();
                let me = payload(seq![ev]).to_multiset();
                assert forall|v: Event| #[trigger] m0.count(v) == mp.add(me).count(v) by {
                    assert(m0.add(mi).count(v) == mp.add(g(x).to_multiset()).count(v));
                }
            }
        },
        _ => {
            lemma_payload_boundary(ev);
        },
    }
}

/// Content preservation: per step, the scenario events forwarded together
/// with those still buffered are, as a multiset, exactly those buffered
/// before together with the incoming one, if it is a scenario event. Only
/// boundaries and global events are added or held. It holds as long as no
/// scenario's event arrives after that scenario's `Finished`, which the
/// nesting of events guarantees.
pub proof fn lemma_content_preserved(q: QueueModel, ev: Event)
    requires
        step(q, ev) is Ok,
        tidy(route(q, ev)->Ok_0.features),
    ensures
        payload(step(q, ev)->Ok_0.0).to_multiset().add(features_pending(step(q, ev)->Ok_0.1.features).to_multiset())
            =~= features_pending(q.features).to_multiset().add(payload(seq![ev]).to_multiset()),
{
    let q1 = route(q, ev)->Ok_0;
    lemma_route_content(q, ev);
    lemma_features_drain_content(q1.features);
    let im = immediate(ev);
    let (d, rest) = features_drain(q1.features);
    lemma_payload_none(im);
    lemma_payload_concat(im, d);
    let fin = seq![Event::Finished];
    lemma_payload_none(fin);
    lemma_payload_concat(im + d, fin);
    let o = step(q, ev)->Ok_0.0;
    if q1.finished && rest.len() == 0 && !q1.done {
        assert(o == im + d + fin);
    } else {
        assert(o == im + d);
    }
    assert(payload(o) == payload(d));
    vstd::seq_lib::lemma_multiset_commutative(payload(d), features_pending(rest));
}

/// Over any run without violation, the global `Finished` is forwarded at
/// most once, and it has been forwarded exactly when the normalizer is done.
pub proof fn lemma_global_finish_once(evs: Seq<Event>)
    requires
        run(initial(), evs) is Ok,
    ensures
        ({
            let (o, q) = run(initial(), evs)->Ok_0;
            &&& (exists|i: int| 0 <= i < o.len() && o[i] == Event::Finished) <==> q.done
            &&& forall|i: int, j: int|
                0 <= i < o.len() && 0 <= j < o.len() && o[i] == Event::Finished && o[j] == Event::Finished ==> i == j
        }),
    decreases evs.len(),
{
    if evs.len() > 0 {
        lemma_global_finish_once(evs.drop_last());
        let (o, q1) = run(initial(), evs.drop_last())->Ok_0;
        lemma_global_finish(q1, evs.last());
        let (o2, q2) = step(q1, evs.last())->Ok_0;
        let t = o + o2;
        assert forall|i: int| 0 <= i < o2.len() implies t[o.len() + i] == o2[i] by {}
        assert forall|i: int| 0 <= i < o.len() implies t[i] == o[i] by {}
        if exists|i: int| 0 <= i < t.len() && t[i] == Event::Finished {
            let i = choose|i: int| 0 <= i < t.len() && t[i] == Event::Finished;
            if i < o.len() {
                assert(o[i] == Event::Finished);
            } else {
                assert(o2[i - o.len()] == Event::Finished);
            }
        }
        if q2.done {
            if q1.done {
                let i = choose|i: int| 0 <= i < o.len() && o[i] == Event::Finished;
                assert(t[i] == Event::Finished);
            } else {
                let i = choose|i: int| 0 <= i < o2.len() && o2[i] == Event::Finished;
                assert(t[o.len() + i] == Event::Finished);
            }
        }
        assert forall|i: int, j: int|
            0 <= i < t.len() && 0 <= j < t.len() && t[i] == Event::Finished && t[j] == Event::Finished implies i == j by {
            if i < o.len() && j >= o.len() {
                assert(o[i] == Event::Finished);
                assert(o2[j - o.len()] == Event::Finished);
            } else if j < o.len() && i >= o.len() {
                assert(o[j] == Event::Finished);
                assert(o2[i - o.len()] == Event::Finished);
            } else if i >= o.len() && j >= o.len() {
                assert(o2[i - o.len()] == Event::Finished);
                assert(o2[j - o.len()] == Event::Finished);
            } else {
                assert(o[i] == Event::Finished);
                assert(o[j] == Event::Finished);
            }
        }
    }
}

/// Identity of an entry of a feature's queue.
pub enum UnitId {
    Rule(u64),
    Scenario(u64),
}

/// The identity of entry `u`.
pub open spec fn unit_id(u: UnitModel) -> UnitId {
    match u {
        UnitModel::Rule(rm) => UnitId::Rule(rm.id),
        UnitModel::Scenario(sm) => UnitId::Scenario(sm.id),
    }
}

/// Identities of the entries `us`, in queue order.
pub open spec fn unit_ids(us: Seq<UnitModel>) -> Seq<UnitId> {
    us.map_values(|u: UnitModel| unit_id(u))
}

/// Identities of the rules and scenarios directly under feature `f` whose
/// `Finished` appears in `o`, in order.
pub open spec fn finished_units(f: u64, o: Seq<Event>) -> Seq<UnitId>
    decreases o.len(),
{
    if o.len() == 0 {
        Seq::empty()
    } else {
        let rest = finished_units(f, o.drop_last());
        match o.last() {
            Event::Feature(g, FeatureEvent::Rule(r, RuleEvent::Finished)) => if g == f {
                rest.push(UnitId::Rule(r))
            } else {
                rest
            },
            Event::Feature(g, FeatureEvent::Scenario(s, ScenarioEvent::Finished)) => if g == f {
                rest.push(UnitId::Scenario(s))
            } else {
                rest
            },
            _ => rest,
        }
    }
}

proof fn lemma_finished_units_concat(f: u64, a: Seq<Event>, b: Seq<Event>)
    ensures
        finished_units(f, a + b) == finished_units(f, a) + finished_units(f, b),
    decreases b.len(),
{
    if b.len() == 0 {
        assert(a + b == a);
        assert(finished_units(f, a) + Seq::<UnitId>::empty() == finished_units(f, a));
    } else {
        lemma_finished_units_concat(f, a, b.drop_last());
        assert((a + b).drop_last() == a + b.drop_last());
        assert((a + b).last() == b.last());
        let x = finished_units(f, a);
        let y = finished_units(f, b.drop_last());
        assert(forall|u: UnitId| x + y.push(u) == (x + y).push(u));
    }
}

/// Events inside rule `r` of feature `f` finish no entry of `f`.
proof fn lemma_finished_units_in_rule(f: u64, r: u64, o: Seq<Event>)
    requires
        forall|i: int|
            0 <= i < o.len() ==> (#[trigger] o[i]) is Feature && o[i]->Feature_1 is Rule && o[i]->Feature_1->Rule_1
                is Scenario,
    ensures
        finished_units(f, o) == Seq::<UnitId>::empty(),
    decreases o.len(),
{
    if o.len() > 0 {
        assert(o[o.len() - 1] is Feature);
        lemma_finished_units_in_rule(f, r, o.drop_last());
    }
}

proof fn lemma_scenarios_drain_in_rule(f: u64, r: u64, ss: Seq<ScenarioModel>)
    ensures
        forall|i: int|
            0 <= i < scenarios_drain(f, Some(r), ss).0.len() ==> (#[trigger] scenarios_drain(f, Some(r), ss).0[i]) is Feature
                && scenarios_drain(f, Some(r), ss).0[i]->Feature_1 is Rule && scenarios_drain(f, Some(r), ss).0[i]->Feature_1->Rule_1
                is Scenario,
    decreases ss.len(),
{
    if ss.len() > 0 {
        lemma_scenarios_drain_in_rule(f, r, ss.drop_first());
        let (o, c) = scenario_drain(ss[0].events);
        let w = wrap(f, Some(r), ss[0].id, o);
        if c {
            let o2 = scenarios_drain(f, Some(r), ss.drop_first()).0;
            assert forall|i: int| 0 <= i < (w + o2).len() implies (#[trigger] (w + o2)[i]) is Feature && (w
                + o2)[i]->Feature_1 is Rule && (w + o2)[i]->Feature_1->Rule_1 is Scenario by {
                if i >= w.len() {
                    assert((w + o2)[i] == o2[i - w.len()]);
                }
            }
        }
    }
}

/// What a scenario buffer gives up: `Finished` only as its last event, and
/// there exactly when the scenario is complete.
proof fn lemma_scenario_drain_shape(evs: Seq<ScenarioEvent>)
    ensures
        forall|i: int|
            0 <= i < scenario_drain(evs).0.len() - 1 ==> scenario_drain(evs).0[i] != ScenarioEvent::Finished,
        scenario_drain(evs).1 <==> (scenario_drain(evs).0.len() > 0 && scenario_drain(evs).0.last()
            == ScenarioEvent::Finished),
    decreases evs.len(),
{
    if evs.len() > 0 && evs[0] != ScenarioEvent::Finished {
        lemma_scenario_drain_shape(evs.drop_first());
        let (o, c) = scenario_drain(evs.drop_first());
        let t = seq![evs[0]] + o;
        assert forall|i: int| 0 <= i < t.len() - 1 implies t[i] != ScenarioEvent::Finished by {
            if i > 0 {
                assert(t[i] == o[i - 1]);
            }
        }
        if o.len() > 0 {
            assert(t.last() == o.last());
        }
    }
}

proof fn lemma_finished_units_scenario(f: u64, s: u64, o: Seq<ScenarioEvent>)
    requires
        forall|i: int| 0 <= i < o.len() - 1 ==> o[i] != ScenarioEvent::Finished,
    ensures
        finished_units(f, wrap(f, None, s, o)) == (if o.len() > 0 && o.last() == ScenarioEvent::Finished {
            seq![UnitId::Scenario(s)]
        } else {
            Seq::<UnitId>::empty()
        }),
    decreases o.len(),
{
    if o.len() > 0 {
        let w = wrap(f, None, s, o);
        assert(w.drop_last() =~= wrap(f, None, s, o.drop_last()));
        assert(w.last() == Event::Feature(f, FeatureEvent::Scenario(s, o.last())));
        lemma_finished_units_scenario(f, s, o.drop_last());
        if o.drop_last().len() > 0 {
            assert(o.drop_last().last() == o[o.len() - 2]);
        }
        assert(Seq::<UnitId>::empty().push(UnitId::Scenario(s)) == seq![UnitId::Scenario(s)]);
    }
}

/// Within a feature, entries leave its queue from the front only, each
/// with its `Finished` forwarded in queue order; the queue keeps the order
/// in which the rules and scenarios started.
pub proof fn lemma_units_finish_order(f: u64, us: Seq<UnitModel>)
    ensures
        unit_ids(us) == finished_units(f, units_drain(f, us).0) + unit_ids(units_drain(f, us).1),
    decreases us.len(),
{
    if us.len() == 0 {
        assert(unit_ids(us) =~= Seq::<UnitId>::empty());
        assert(finished_units(f, Seq::<Event>::empty()) == Seq::<UnitId>::empty());
    } else {
        let (o, u2, c) = match us[0] {
            UnitModel::Rule(rm) => {
                let (o, r2, c) = rule_drain(f, rm);
                (o, UnitModel::Rule(r2), c)
            },
            UnitModel::Scenario(sm) => {
                let (o, c) = scenario_drain(sm.events);
                (wrap(f, None, sm.id, o), UnitModel::Scenario(ScenarioModel { id: sm.id, events: Seq::empty() }), c)
            },
        };
        assert(finished_units(f, o) == (if c {
            seq![unit_id(us[0])]
        } else {
            Seq::<UnitId>::empty()
        })) by {
            match us[0] {
                UnitModel::Rule(rm) => {
                    let start = if rm.started {
                        Seq::empty()
                    } else {
                        seq![Event::Feature(f, FeatureEvent::Rule(rm.id, RuleEvent::Started))]
                    };
                    let so = scenarios_drain(f, Some(rm.id), rm.scenarios).0;
                    lemma_scenarios_drain_in_rule(f, rm.id, rm.scenarios);
                    lemma_finished_units_in_rule(f, rm.id, so);
                    lemma_finished_units_concat(f, start, so);
                    assert(finished_units(f, start) == Seq::<UnitId>::empty()) by {
                        reveal_with_fuel(finished_units, 2);
                    }
                    let fin = seq![Event::Feature(f, FeatureEvent::Rule(rm.id, RuleEvent::Finished))];
                    lemma_finished_units_concat(f, start + so, fin);
                    assert(finished_units(f, fin) == seq![UnitId::Rule(rm.id)]) by {
                        reveal_with_fuel(finished_units, 2);
                        assert(fin.drop_last().len() == 0);
                    }
                    assert(Seq::<UnitId>::empty() + Seq::<UnitId>::empty() == Seq::<UnitId>::empty());
                    assert(Seq::<UnitId>::empty() + seq![UnitId::Rule(rm.id)] == seq![UnitId::Rule(rm.id)]);
                },
                UnitModel::Scenario(sm) => {
                    lemma_scenario_drain_shape(sm.events);
                    lemma_finished_units_scenario(f, sm.id, scenario_drain(sm.events).0);
                },
            }
        }
        if c {
            lemma_units_finish_order(f, us.drop_first());
            lemma_finished_units_concat(f, o, units_drain(f, us.drop_first()).0);
            assert(unit_ids(us) =~= seq![unit_id(us[0])] + unit_ids(us.drop_first()));
        } else {
            assert(unit_ids(us.update(0, u2)) =~= unit_ids(us));
            assert(Seq::<UnitId>::empty() + unit_ids(us) == unit_ids(us));
        }
    }
}

/// Recording an event of a feature never reorders its entries: a rule or a
/// scenario seen for the first time joins at the end.
pub proof fn lemma_route_units_order(fm: FeatureModel, fev: FeatureEvent)
    requires
        route_in_feature(fm, fev) is Ok,
    ensures
        unit_ids(route_in_feature(fm, fev)->Ok_0.units) == unit_ids(fm.units) || exists|u: UnitId|
            unit_ids(route_in_feature(fm, fev)->Ok_0.units) == unit_ids(fm.units).push(u),
{
    let us = fm.units;
    let us2 = route_in_feature(fm, fev)->Ok_0.units;
    match fev {
        FeatureEvent::Scenario(s, e) => {
            if exists|i: int| 0 <= i < us.len() && is_scenario(us[i], s) {
                let k = choose|i: int| 0 <= i < us.len() && is_scenario(us[i], s);
                let w = lemma_first_exists(us, |u: UnitModel| is_scenario(u, s), k);
                assert(first_scenario_unit_at(us, s, w));
                assert(unit_ids(us2) =~= unit_ids(us));
            } else {
                assert(unit_ids(us2) =~= unit_ids(us).push(UnitId::Scenario(s)));
            }
        },
        FeatureEvent::Rule(r, rev) => {
            if !has_rule(us, r) {
                if rev is Started {
                    assert(unit_ids(us2) =~= unit_ids(us).push(UnitId::Rule(r)));
                }
            } else {
                let k = choose|i: int| 0 <= i < us.len() && is_rule(us[i], r);
                let w = lemma_first_exists(us, |u: UnitModel| is_rule(u, r), k);
                assert(first_rule_at(us, r, w));
                assert(unit_ids(us2) =~= unit_ids(us));
            }
        },
        _ => {},
    }
}

/// Identifiers of the scenarios of rule `r` of feature `f` whose `Finished`
/// appears in `o`, in order.
pub open spec fn finished_scenarios(f: u64, r: u64, o: Seq<Event>) -> Seq<u64>
    decreases o.len(),
{
    if o.len() == 0 {
        Seq::empty()
    } else {
        let rest = finished_scenarios(f, r, o.drop_last());
        match o.last() {
            Event::Feature(g, FeatureEvent::Rule(q, RuleEvent::Scenario(s, ScenarioEvent::Finished))) => if g == f
                && q == r {
                rest.push(s)
            } else {
                rest
            },
            _ => rest,
        }
    }
}

/// Identifiers of the scenarios `ss`, in queue order.
pub open spec fn scenario_ids(ss: Seq<ScenarioModel>) -> Seq<u64> {
    ss.map_values(|sm: ScenarioModel| sm.id)
}

proof fn lemma_finished_scenarios_concat(f: u64, r: u64, a: Seq<Event>, b: Seq<Event>)
    ensures
        finished_scenarios(f, r, a + b) == finished_scenarios(f, r, a) + finished_scenarios(f, r, b),
    decreases b.len(),
{
    if b.len() == 0 {
        assert(a + b == a);
        assert(finished_scenarios(f, r, a) + Seq::<u64>::empty() == finished_scenarios(f, r, a));
    } else {
        lemma_finished_scenarios_concat(f, r, a, b.drop_last());
        assert((a + b).drop_last() == a + b.drop_last());
        assert((a + b).last() == b.last());
        let x = finished_scenarios(f, r, a);
        let y = finished_scenarios(f, r, b.drop_last());
        assert(forall|u: u64| x + y.push(u) == (x + y).push(u));
    }
}

proof fn lemma_finished_scenarios_wrap(f: u64, r: u64, s: u64, o: Seq<ScenarioEvent>)
    requires
        forall|i: int| 0 <= i < o.len() - 1 ==> o[i] != ScenarioEvent::Finished,
    ensures
        finished_scenarios(f, r, wrap(f, Some(r), s, o)) == (if o.len() > 0 && o.last() == ScenarioEvent::Finished {
            seq![s]
        } else {
            Seq::<u64>::empty()
        }),
    decreases o.len(),
{
    if o.len() > 0 {
        let w = wrap(f, Some(r), s, o);
        assert(w.drop_last() =~= wrap(f, Some(r), s, o.drop_last()));
        assert(w.last() == Event::Feature(f, FeatureEvent::Rule(r, RuleEvent::Scenario(s, o.last()))));
        lemma_finished_scenarios_wrap(f, r, s, o.drop_last());
        if o.drop_last().len() > 0 {
            assert(o.drop_last().last() == o[o.len() - 2]);
        }
        assert(Seq::<u64>::empty().push(s) == seq![s]);
    }
}

/// Within a rule, scenarios leave its queue from the front only, each with
/// its `Finished` forwarded in queue order.
pub proof fn lemma_rule_scenarios_finish_order(f: u64, r: u64, ss: Seq<ScenarioModel>)
    ensures
        scenario_ids(ss) == finished_scenarios(f, r, scenarios_drain(f, Some(r), ss).0) + scenario_ids(
            scenarios_drain(f, Some(r), ss).1,
        ),
    decreases ss.len(),
{
    if ss.len() == 0 {
        assert(scenario_ids(ss) =~= Seq::<u64>::empty());
        assert(finished_scenarios(f, r, Seq::<Event>::empty()) == Seq::<u64>::empty());
    } else {
        let (o, c) = scenario_drain(ss[0].events);
        lemma_scenario_drain_shape(ss[0].events);
        lemma_finished_scenarios_wrap(f, r, ss[0].id, o);
        let w = wrap(f, Some(r), ss[0].id, o);
        if c {
            lemma_rule_scenarios_finish_order(f, r, ss.drop_first());
            lemma_finished_scenarios_concat(f, r, w, scenarios_drain(f, Some(r), ss.drop_first()).0);
            assert(scenario_ids(ss) =~= seq![ss[0].id] + scenario_ids(ss.drop_first()));
        } else {
            let e = ScenarioModel { id: ss[0].id, events: Seq::empty() };
            assert(scenario_ids(ss.update(0, e)) =~= scenario_ids(ss));
            assert(Seq::<u64>::empty() + scenario_ids(ss) == scenario_ids(ss));
        }
    }
}

/// Recording an event of a rule never reorders its scenarios: a scenario
/// seen for the first time joins at the end.
pub proof fn lemma_route_scenarios_order(ss: Seq<ScenarioModel>, s: u64, e: ScenarioEvent)
    ensures
        scenario_ids(add_to_scenarios(ss, s, e)) == scenario_ids(ss) || scenario_ids(add_to_scenarios(ss, s, e))
            == scenario_ids(ss).push(s),
{
    if exists|i: int| 0 <= i < ss.len() && ss[i].id == s {
        let k = choose|i: int| 0 <= i < ss.len() && ss[i].id == s;
        let w = lemma_first_exists(ss, |sm: ScenarioModel| sm.id == s, k);
        assert(first_scenario_at(ss, s, w));
        assert(scenario_ids(add_to_scenarios(ss, s, e)) =~= scenario_ids(ss));
    } else {
        assert(scenario_ids(add_to_scenarios(ss, s, e)) =~= scenario_ids(ss).push(s));
    }
}

/// Over every step of feeding `evs`, no scenario event is recorded after
/// that scenario's `Finished`, as the nesting of events guarantees.
pub open spec fn run_tidy(evs: Seq<Event>) -> bool
    decreases evs.len(),
{
    evs.len() == 0 || (run_tidy(evs.drop_last()) && match run(initial(), evs.drop_last()) {
        Ok((_, q)) => match route(q, evs.last()) {
            Ok(q1) => tidy(q1.features),
            Err(_) => true,
        },
        Err(_) => true,
    })
}

/// Content preservation over a whole run: the scenario events forwarded,
/// together with those still buffered, are as a multiset exactly the
/// scenario events fed in.
pub proof fn lemma_run_content_preserved(evs: Seq<Event>)
    requires
        run(initial(), evs) is Ok,
        run_tidy(evs),
    ensures
        payload(run(initial(), evs)->Ok_0.0).to_multiset().add(
            features_pending(run(initial(), evs)->Ok_0.1.features).to_multiset(),
        ) =~= payload(evs).to_multiset(),
    decreases evs.len(),
{
    if evs.len() == 0 {
        lemma_payload_none(evs);
        let em = Seq::<Event>::empty();
        assert(features_pending(initial().features) == em);
        em.to_multiset_ensures();
        assert forall|v: Event| #[trigger] em.to_multiset().count(v) == 0 by {
            assert(!em.contains(v));
        }
        assert(evs == em);
        assert(run(initial(), evs)->Ok_0.0 == em);
        assert(em.to_multiset().add(em.to_multiset()) =~= em.to_multiset());
    } else {
        let pre = evs.drop_last();
        let ev = evs.last();
        lemma_run_content_preserved(pre);
        let (o, q1) = run(initial(), pre)->Ok_0;
        lemma_content_preserved(q1, ev);
        let (o2, q2) = step(q1, ev)->Ok_0;
        lemma_payload_concat(o, o2);
        lemma_payload_concat(pre, seq![ev]);
        assert(pre + seq![ev] == evs);
        vstd::seq_lib::lemma_multiset_commutative(payload(o), payload(o2));
        vstd::seq_lib::lemma_multiset_commutative(payload(pre), payload(seq![ev]));
        let a = payload(o).to_multiset();
        let b = payload(o2).to_multiset();
        let p1 = features_pending(q1.features).to_multiset();
        let p2 = features_pending(q2.features).to_multiset();
        let e = payload(seq![ev]).to_multiset();
        let m = payload(pre).to_multiset();
        assert forall|v: Event| #[trigger] a.add(b).add(p2).count(v) == m.add(e).count(v) by {
            assert(a.add(p1).count(v) == m.count(v));
            assert(b.add(p2).count(v) == p1.add(e).count(v));
        }
        assert(run(initial(), evs)->Ok_0 == (o + o2, q2));
        assert(payload(o + o2).to_multiset() =~= a.add(b));
        assert(payload(evs).to_multiset() =~= m.add(e));
    }
}

} // verus!
