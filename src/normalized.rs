//! Reordering of the events of concurrently run scenarios.
//!
//! [`Normalized`] takes events in the order in which they happened and hands
//! back the events to forward downstream, so that the output reads as if the
//! scenarios had run one after another: features in the order in which they
//! started, each one uninterrupted, and inside a feature its rules and
//! scenarios in the order in which they started.
use vstd::prelude::*;
use crate::event::{Event, FeatureEvent, RuleEvent, ScenarioEvent};

verus! {

/// A producer broke the nesting of events: it referred to a feature or a
/// rule that was never started.
#[derive(Clone, Copy, Debug, PartialEq, Eq, Structural)]
pub enum Violation {
    UnknownFeature(u64),
    UnknownRule(u64, u64),
}

/// Buffered events of one scenario.
pub struct ScenarioModel {
    pub id: u64,
    pub events: Seq<ScenarioEvent>,
}

/// Queue of one rule.
pub struct RuleModel {
    pub id: u64,
    pub started: bool,
    pub finished: bool,
    pub scenarios: Seq<ScenarioModel>,
}

/// An entry of a feature's queue: a rule or a scenario outside any rule.
pub enum UnitModel {
    Rule(RuleModel),
    Scenario(ScenarioModel),
}

/// Queue of one feature.
pub struct FeatureModel {
    pub id: u64,
    pub started: bool,
    pub finished: bool,
    pub units: Seq<UnitModel>,
}

/// The whole state of the normalizer: the features in the order in which
/// they started, whether the global `Finished` has arrived, and whether it
/// has been forwarded.
pub struct QueueModel {
    pub features: Seq<FeatureModel>,
    pub finished: bool,
    pub done: bool,
}

/// Wraps the events of scenario `s` into top-level events.
pub open spec fn wrap(f: u64, r: Option<u64>, s: u64, evs: Seq<ScenarioEvent>) -> Seq<Event> {
    evs.map_values(|e: ScenarioEvent| Event::spec_scenario(f, r, s, e))
}

/// The events taken from the front of a scenario buffer: all of them up to
/// and including the first `Finished`, and whether there was one.
pub open spec fn scenario_drain(evs: Seq<ScenarioEvent>) -> (Seq<ScenarioEvent>, bool)
    decreases evs.len(),
{
    if evs.len() == 0 {
        (Seq::empty(), false)
    } else if evs[0] == ScenarioEvent::Finished {
        (seq![evs[0]], true)
    } else {
        let (o, c) = scenario_drain(evs.drop_first());
        (seq![evs[0]] + o, c)
    }
}

/// Drains scenarios in order: each finished one is emitted and removed, and
/// the first unfinished one is emitted so far and left empty.
pub open spec fn scenarios_drain(f: u64, r: Option<u64>, ss: Seq<ScenarioModel>) -> (Seq<Event>, Seq<ScenarioModel>)
    decreases ss.len(),
{
    if ss.len() == 0 {
        (Seq::empty(), ss)
    } else {
        let (o, c) = scenario_drain(ss[0].events);
        let out = wrap(f, r, ss[0].id, o);
        if c {
            let (o2, rest) = scenarios_drain(f, r, ss.drop_first());
            (out + o2, rest)
        } else {
            (out, ss.update(0, ScenarioModel { id: ss[0].id, events: Seq::empty() }))
        }
    }
}

/// Drains one rule: its `Started` if not yet emitted, its scenarios, and its
/// `Finished` once it is finished with no scenario left. The flag says
/// whether the rule is complete and to be removed.
pub open spec fn rule_drain(f: u64, r: RuleModel) -> (Seq<Event>, RuleModel, bool) {
    let start = if r.started {
        Seq::empty()
    } else {
        seq![Event::Feature(f, FeatureEvent::Rule(r.id, RuleEvent::Started))]
    };
    let (o, rest) = scenarios_drain(f, Some(r.id), r.scenarios);
    let r2 = RuleModel { id: r.id, started: true, finished: r.finished, scenarios: rest };
    if r.finished && rest.len() == 0 {
        (start + o + seq![Event::Feature(f, FeatureEvent::Rule(r.id, RuleEvent::Finished))], r2, true)
    } else {
        (start + o, r2, false)
    }
}

/// Drains the entries of feature `f` in order, removing the complete ones
/// and stopping at the first one that is not.
pub open spec fn units_drain(f: u64, us: Seq<UnitModel>) -> (Seq<Event>, Seq<UnitModel>)
    decreases us.len(),
{
    if us.len() == 0 {
        (Seq::empty(), us)
    } else {
        let (o, u2, c) = match us[0] {
            UnitModel::Rule(r) => {
                let (o, r2, c) = rule_drain(f, r);
                (o, UnitModel::Rule(r2), c)
            },
            UnitModel::Scenario(s) => {
                let (o, c) = scenario_drain(s.events);
                (wrap(f, None, s.id, o), UnitModel::Scenario(ScenarioModel { id: s.id, events: Seq::empty() }), c)
            },
        };
        if c {
            let (o2, rest) = units_drain(f, us.drop_first());
            (o + o2, rest)
        } else {
            (o, us.update(0, u2))
        }
    }
}

/// Drains one feature: its `Started` if not yet emitted, its entries, and
/// its `Finished` once it is finished with no entry left.
pub open spec fn feature_drain(fm: FeatureModel) -> (Seq<Event>, FeatureModel, bool) {
    let start = if fm.started {
        Seq::empty()
    } else {
        seq![Event::Feature(fm.id, FeatureEvent::Started)]
    };
    let (o, rest) = units_drain(fm.id, fm.units);
    let f2 = FeatureModel { id: fm.id, started: true, finished: fm.finished, units: rest };
    if fm.finished && rest.len() == 0 {
        (start + o + seq![Event::Feature(fm.id, FeatureEvent::Finished)], f2, true)
    } else {
        (start + o, f2, false)
    }
}

/// Drains features in order, removing the complete ones and stopping at the
/// first one that is not.
pub open spec fn features_drain(fs: Seq<FeatureModel>) -> (Seq<Event>, Seq<FeatureModel>)
    decreases fs.len(),
{
    if fs.len() == 0 {
        (Seq::empty(), fs)
    } else {
        let (o, f2, c) = feature_drain(fs[0]);
        if c {
            let (o2, rest) = features_drain(fs.drop_first());
            (o + o2, rest)
        } else {
            (o, fs.update(0, f2))
        }
    }
}

/// Drains the whole queue, and forwards the global `Finished` once it has
/// arrived and no feature is left, unless it was forwarded before.
pub open spec fn drain(q: QueueModel) -> (Seq<Event>, QueueModel) {
    let (o, rest) = features_drain(q.features);
    if q.finished && rest.len() == 0 && !q.done {
        (o + seq![Event::Finished], QueueModel { features: rest, finished: true, done: true })
    } else {
        (o, QueueModel { features: rest, finished: q.finished, done: q.done })
    }
}

/// Whether `i` is the first position of feature `id`.
pub open spec fn first_feature_at(fs: Seq<FeatureModel>, id: u64, i: int) -> bool {
    0 <= i < fs.len() && fs[i].id == id && forall|j: int| 0 <= j < i ==> fs[j].id != id
}

/// The position of feature `id`, where it is queued.
pub open spec fn feature_index(fs: Seq<FeatureModel>, id: u64) -> int {
    choose|i: int| first_feature_at(fs, id, i)
}

/// Whether feature `id` is queued.
pub open spec fn has_feature(fs: Seq<FeatureModel>, id: u64) -> bool {
    exists|i: int| 0 <= i < fs.len() && fs[i].id == id
}

/// Whether entry `u` is rule `id`.
pub open spec fn is_rule(u: UnitModel, id: u64) -> bool {
    u is Rule && u->Rule_0.id == id
}

/// Whether entry `u` is the scenario `id` outside any rule.
pub open spec fn is_scenario(u: UnitModel, id: u64) -> bool {
    u is Scenario && u->Scenario_0.id == id
}

/// Whether `i` is the first position of rule `id`.
pub open spec fn first_rule_at(us: Seq<UnitModel>, id: u64, i: int) -> bool {
    0 <= i < us.len() && is_rule(us[i], id) && forall|j: int| 0 <= j < i ==> !is_rule(us[j], id)
}

/// The position of rule `id`, where it is queued.
pub open spec fn rule_index(us: Seq<UnitModel>, id: u64) -> int {
    choose|i: int| first_rule_at(us, id, i)
}

/// Whether rule `id` is queued.
pub open spec fn has_rule(us: Seq<UnitModel>, id: u64) -> bool {
    exists|i: int| 0 <= i < us.len() && is_rule(us[i], id)
}

/// Whether `i` is the first position of scenario `id` outside any rule.
pub open spec fn first_scenario_unit_at(us: Seq<UnitModel>, id: u64, i: int) -> bool {
    0 <= i < us.len() && is_scenario(us[i], id) && forall|j: int| 0 <= j < i ==> !is_scenario(us[j], id)
}

/// Whether `i` is the first position of scenario `id` in a rule.
pub open spec fn first_scenario_at(ss: Seq<ScenarioModel>, id: u64, i: int) -> bool {
    0 <= i < ss.len() && ss[i].id == id && forall|j: int| 0 <= j < i ==> ss[j].id != id
}

/// Appends `ev` to the buffer of scenario `id` in `ss`, creating the buffer
/// at the end where there is none.
pub open spec fn add_to_scenarios(ss: Seq<ScenarioModel>, id: u64, ev: ScenarioEvent) -> Seq<ScenarioModel> {
    if exists|i: int| 0 <= i < ss.len() && ss[i].id == id {
        let i = choose|i: int| first_scenario_at(ss, id, i);
        ss.update(i, ScenarioModel { id, events: ss[i].events.push(ev) })
    } else {
        ss.push(ScenarioModel { id, events: seq![ev] })
    }
}

/// Appends `ev` to the buffer of scenario `id` outside any rule, creating
/// the entry at the end where there is none.
pub open spec fn add_to_units(us: Seq<UnitModel>, id: u64, ev: ScenarioEvent) -> Seq<UnitModel> {
    if exists|i: int| 0 <= i < us.len() && is_scenario(us[i], id) {
        let i = choose|i: int| first_scenario_unit_at(us, id, i);
        us.update(i, UnitModel::Scenario(ScenarioModel { id, events: us[i]->Scenario_0.events.push(ev) }))
    } else {
        us.push(UnitModel::Scenario(ScenarioModel { id, events: seq![ev] }))
    }
}

/// What an event of feature `fm` does to its queue.
pub open spec fn route_in_feature(fm: FeatureModel, ev: FeatureEvent) -> Result<FeatureModel, Violation> {
    match ev {
        FeatureEvent::Started => Ok(fm),
        FeatureEvent::Finished => Ok(FeatureModel { finished: true, ..fm }),
        FeatureEvent::Scenario(s, e) => Ok(FeatureModel { units: add_to_units(fm.units, s, e), ..fm }),
        FeatureEvent::Rule(r, rev) => {
            if !has_rule(fm.units, r) {
                match rev {
                    RuleEvent::Started => Ok(
                        FeatureModel {
                            units: fm.units.push(
                                UnitModel::Rule(RuleModel { id: r, started: false, finished: false, scenarios: Seq::empty() }),
                            ),
                            ..fm
                        },
                    ),
                    _ => Err(Violation::UnknownRule(fm.id, r)),
                }
            } else {
                let i = rule_index(fm.units, r);
                let rm = fm.units[i]->Rule_0;
                match rev {
                    RuleEvent::Started => Ok(fm),
                    RuleEvent::Finished => Ok(
                        FeatureModel { units: fm.units.update(i, UnitModel::Rule(RuleModel { finished: true, ..rm })), ..fm },
                    ),
                    RuleEvent::Scenario(s, e) => Ok(
                        FeatureModel {
                            units: fm.units.update(
                                i,
                                UnitModel::Rule(RuleModel { scenarios: add_to_scenarios(rm.scenarios, s, e), ..rm }),
                            ),
                            ..fm
                        },
                    ),
                }
            }
        },
    }
}

/// Where an incoming event goes: the queue after it has been recorded, or
/// the violation it reveals.
pub open spec fn route(q: QueueModel, ev: Event) -> Result<QueueModel, Violation> {
    match ev {
        Event::Started => Ok(q),
        Event::ParsingError(_) => Ok(q),
        Event::Finished => Ok(QueueModel { finished: true, ..q }),
        Event::Feature(f, fev) => {
            if !has_feature(q.features, f) {
                match fev {
                    FeatureEvent::Started => Ok(
                        QueueModel {
                            features: q.features.push(
                                FeatureModel { id: f, started: false, finished: false, units: Seq::empty() },
                            ),
                            ..q
                        },
                    ),
                    _ => Err(Violation::UnknownFeature(f)),
                }
            } else {
                let i = feature_index(q.features, f);
                match route_in_feature(q.features[i], fev) {
                    Ok(fm) => Ok(QueueModel { features: q.features.update(i, fm), ..q }),
                    Err(v) => Err(v),
                }
            }
        },
    }
}

/// Events forwarded as soon as they arrive.
pub open spec fn immediate(ev: Event) -> Seq<Event> {
    match ev {
        Event::Started => seq![ev],
        Event::ParsingError(_) => seq![ev],
        _ => Seq::empty(),
    }
}

/// One step of the normalizer: the events forwarded and the queue after
/// `ev`, or the violation it reveals.
pub open spec fn step(q: QueueModel, ev: Event) -> Result<(Seq<Event>, QueueModel), Violation> {
    match route(q, ev) {
        Ok(q1) => {
            let (o, q2) = drain(q1);
            Ok((immediate(ev) + o, q2))
        },
        Err(v) => Err(v),
    }
}

struct ScenarioQueue {
    id: u64,
    events: Vec<ScenarioEvent>,
}

struct RuleQueue {
    id: u64,
    started_emitted: bool,
    finished: bool,
    scenarios: Vec<ScenarioQueue>,
}

enum Unit {
    Rule(RuleQueue),
    Scenario(ScenarioQueue),
}

struct FeatureQueue {
    id: u64,
    started_emitted: bool,
    finished: bool,
    units: Vec<Unit>,
}

impl View for ScenarioQueue {
    type V = ScenarioModel;

    closed spec fn view(&self) -> ScenarioModel {
        ScenarioModel { id: self.id, events: self.events@ }
    }
}

spec fn scenarios_view(v: Seq<ScenarioQueue>) -> Seq<ScenarioModel> {
    v.map_values(|s: ScenarioQueue| s@)
}

impl View for RuleQueue {
    type V = RuleModel;

    closed spec fn view(&self) -> RuleModel {
        RuleModel {
            id: self.id,
            started: self.started_emitted,
            finished: self.finished,
            scenarios: scenarios_view(self.scenarios@),
        }
    }
}

impl View for Unit {
    type V = UnitModel;

    closed spec fn view(&self) -> UnitModel {
        match self {
            Unit::Rule(r) => UnitModel::Rule(r@),
            Unit::Scenario(s) => UnitModel::Scenario(s@),
        }
    }
}

spec fn units_view(v: Seq<Unit>) -> Seq<UnitModel> {
    v.map_values(|u: Unit| u@)
}

impl View for FeatureQueue {
    type V = FeatureModel;

    closed spec fn view(&self) -> FeatureModel {
        FeatureModel {
            id: self.id,
            started: self.started_emitted,
            finished: self.finished,
            units: units_view(self.units@),
        }
    }
}

spec fn features_view(v: Seq<FeatureQueue>) -> Seq<FeatureModel> {
    v.map_values(|f: FeatureQueue| f@)
}

/// Once every event before `i` is other than `Finished`, draining the
/// buffer emits those events and then drains the rest.
proof fn lemma_scenario_drain_split(evs: Seq<ScenarioEvent>, i: int)
    requires
        0 <= i <= evs.len(),
        forall|j: int| 0 <= j < i ==> evs[j] != ScenarioEvent::Finished,
    ensures
        scenario_drain(evs).0 == evs.subrange(0, i) + scenario_drain(evs.subrange(i, evs.len() as int)).0,
        scenario_drain(evs).1 == scenario_drain(evs.subrange(i, evs.len() as int)).1,
    decreases i,
{
    if i > 0 {
        let t = evs.drop_first();
        lemma_scenario_drain_split(t, i - 1);
        assert(t.subrange(i - 1, t.len() as int) == evs.subrange(i, evs.len() as int));
        assert(evs.subrange(0, i) == seq![evs[0]] + t.subrange(0, i - 1));
    } else {
        assert(evs.subrange(0, evs.len() as int) == evs);
    }
}

impl ScenarioQueue {
    /// Emits the buffered events into `out`, in order, up to the first
    /// `Finished`; returns whether it came, else leaves the buffer empty.
    fn emit_scenario_events(&mut self, f: u64, r: Option<u64>, out: &mut Vec<Event>) -> (complete: bool)
        ensures
            final(self).id == old(self).id,
            complete == scenario_drain(old(self).events@).1,
            final(out)@ == old(out)@ + wrap(f, r, old(self).id, scenario_drain(old(self).events@).0),
            !complete ==> final(self).events@ == Seq::<ScenarioEvent>::empty(),
    {
        let ghost evs = self.events@;
        let ghost out0 = out@;
        let mut i: usize = 0;
        let mut complete = false;
        while i < self.events.len() && !complete
            invariant
                self.id == old(self).id,
                self.events@ == evs,
                i <= evs.len(),
                complete ==> i > 0 && evs[i - 1] == ScenarioEvent::Finished,
                forall|j: int| 0 <= j < i && !(complete && j == i - 1) ==> evs[j] != ScenarioEvent::Finished,
                out@ == out0 + wrap(f, r, self.id, evs.subrange(0, i as int)),
            decreases evs.len() - i,
        {
            let ev = self.events[i];
            out.push(Event::scenario(f, r, self.id, ev));
            proof {
                assert(evs.subrange(0, i + 1) == evs.subrange(0, i as int).push(ev));
                assert(wrap(f, r, self.id, evs.subrange(0, i + 1)) == wrap(f, r, self.id, evs.subrange(0, i as int)).push(
                    Event::spec_scenario(f, r, self.id, ev),
                ));
            }
            if ev == ScenarioEvent::Finished {
                complete = true;
            }
            i = i + 1;
        }
        proof {
            if complete {
                lemma_scenario_drain_split(evs, i - 1);
                let t = evs.subrange(i - 1, evs.len() as int);
                assert(t[0] == ScenarioEvent::Finished);
                assert(evs.subrange(0, i - 1) + seq![evs[i - 1]] == evs.subrange(0, i as int));
            } else {
                lemma_scenario_drain_split(evs, i as int);
                assert(evs.subrange(i as int, evs.len() as int).len() == 0);
                assert(evs.subrange(0, i as int) + Seq::<ScenarioEvent>::empty() == evs.subrange(0, i as int));
            }
        }
        if !complete {
            self.events = Vec::new();
        }
        complete
    }
}

impl RuleQueue {
    /// Emits what is ready of this rule into `out`; returns whether the rule
    /// is complete and to be removed.
    fn emit_rule_events(&mut self, f: u64, out: &mut Vec<Event>) -> (complete: bool)
        ensures
            complete == rule_drain(f, old(self)@).2,
            final(out)@ == old(out)@ + rule_drain(f, old(self)@).0,
            !complete ==> final(self)@ == rule_drain(f, old(self)@).1,
    {
        let ghost r0 = self@;
        if !self.started_emitted {
            out.push(Event::Feature(f, FeatureEvent::Rule(self.id, RuleEvent::Started)));
            self.started_emitted = true;
        }
        let ghost out1 = out@;
        let ghost ss0 = r0.scenarios;
        let ghost r = Some(r0.id);
        let mut stalled = false;
        while !stalled && self.scenarios.len() > 0
            invariant
                self.id == r0.id,
                r == Some(r0.id),
                self.finished == r0.finished,
                self.started_emitted,
                out1 + scenarios_drain(f, r, ss0).0 == out@ + (if stalled {
                    Seq::empty()
                } else {
                    scenarios_drain(f, r, scenarios_view(self.scenarios@)).0
                }),
                scenarios_drain(f, r, ss0).1 == (if stalled {
                    scenarios_view(self.scenarios@)
                } else {
                    scenarios_drain(f, r, scenarios_view(self.scenarios@)).1
                }),
            decreases self.scenarios@.len() + (if stalled { 0int } else { 1int }),
        {
            let ghost cur = scenarios_view(self.scenarios@);
            let ghost out_before = out@;
            let mut sq = self.scenarios.remove(0);
            proof {
                assert(scenarios_view(self.scenarios@) =~= cur.drop_first());
                assert(sq@ == cur[0]);
            }
            let c = sq.emit_scenario_events(f, Some(self.id), out);
            if !c {
                self.scenarios.insert(0, sq);
                proof {
                    assert(scenarios_view(self.scenarios@) =~= cur.update(
                        0,
                        ScenarioModel { id: cur[0].id, events: Seq::empty() },
                    ));
                }
                stalled = true;
            }
            proof {
                let w = wrap(f, r, cur[0].id, scenario_drain(cur[0].events).0);
                assert(out@ == out_before + w);
                if c {
                    let x = scenarios_drain(f, r, cur.drop_first()).0;
                    assert(scenarios_drain(f, r, cur).0 == w + x);
                    assert(out_before + (w + x) =~= out@ + x);
                } else {
                    assert(out_before + w =~= out@ + Seq::<Event>::empty());
                }
            }
        }
        proof {
            if !stalled {
                assert(scenarios_view(self.scenarios@).len() == 0);
            }
        }
        if self.finished && self.scenarios.len() == 0 {
            out.push(Event::Feature(f, FeatureEvent::Rule(self.id, RuleEvent::Finished)));
            true
        } else {
            false
        }
    }
}

impl FeatureQueue {
    /// Emits what is ready of this feature into `out`; returns whether the
    /// feature is complete and to be removed.
    fn emit_feature_events(&mut self, out: &mut Vec<Event>) -> (complete: bool)
        ensures
            complete == feature_drain(old(self)@).2,
            final(out)@ == old(out)@ + feature_drain(old(self)@).0,
            !complete ==> final(self)@ == feature_drain(old(self)@).1,
    {
        let ghost f0 = self@;
        if !self.started_emitted {
            out.push(Event::Feature(self.id, FeatureEvent::Started));
            self.started_emitted = true;
        }
        let ghost out1 = out@;
        let ghost us0 = f0.units;
        let f = self.id;
        let mut stalled = false;
        while !stalled && self.units.len() > 0
            invariant
                self.id == f0.id,
                f == f0.id,
                self.finished == f0.finished,
                self.started_emitted,
                out1 + units_drain(f, us0).0 == out@ + (if stalled {
                    Seq::empty()
                } else {
                    units_drain(f, units_view(self.units@)).0
                }),
                units_drain(f, us0).1 == (if stalled {
                    units_view(self.units@)
                } else {
                    units_drain(f, units_view(self.units@)).1
                }),
            decreases self.units@.len() + (if stalled { 0int } else { 1int }),
        {
            let ghost cur = units_view(self.units@);
            let ghost out_before = out@;
            let u = self.units.remove(0);
            proof {
                assert(units_view(self.units@) =~= cur.drop_first());
                assert(u@ == cur[0]);
            }
            match u {
                Unit::Rule(mut rq) => {
                    let c = rq.emit_rule_events(f, out);
                    if !c {
                        self.units.insert(0, Unit::Rule(rq));
                        proof {
                            assert(units_view(self.units@) =~= cur.update(0, UnitModel::Rule(rule_drain(f, cur[0]->Rule_0).1)));
                        }
                        stalled = true;
                    }
                },
                Unit::Scenario(mut sq) => {
                    let c = sq.emit_scenario_events(f, None, out);
                    if !c {
                        self.units.insert(0, Unit::Scenario(sq));
                        proof {
                            assert(units_view(self.units@) =~= cur.update(
                                0,
                                UnitModel::Scenario(ScenarioModel { id: cur[0]->Scenario_0.id, events: Seq::empty() }),
                            ));
                        }
                        stalled = true;
                    }
                },
            }
            proof {
                assert(out1 + units_drain(f, us0).0 == out_before + units_drain(f, cur).0);
            }
        }
        proof {
            if !stalled {
                assert(units_view(self.units@).len() == 0);
            }
        }
        if self.finished && self.units.len() == 0 {
            out.push(Event::Feature(self.id, FeatureEvent::Finished));
            true
        } else {
            false
        }
    }
}

impl ScenarioQueue {
    /// An empty buffer for scenario `id`.
    fn new(id: u64) -> (r: ScenarioQueue)
        ensures
            r@ == (ScenarioModel { id, events: Seq::empty() }),
    {
        ScenarioQueue { id, events: Vec::new() }
    }
}

impl RuleQueue {
    /// A queue for rule `id` with nothing emitted and nothing buffered.
    fn new(id: u64) -> (r: RuleQueue)
        ensures
            r@ == (RuleModel { id, started: false, finished: false, scenarios: Seq::empty() }),
    {
        let r = RuleQueue { id, started_emitted: false, finished: false, scenarios: Vec::new() };
        assert(scenarios_view(r.scenarios@) =~= Seq::empty());
        r
    }

    /// Appends `ev` to the buffer of scenario `s` of this rule.
    fn insert_scenario_event(&mut self, s: u64, ev: ScenarioEvent)
        ensures
            final(self)@ == (RuleModel { scenarios: add_to_scenarios(old(self)@.scenarios, s, ev), ..old(self)@ }),
    {
        let ghost ss = old(self)@.scenarios;
        let mut i: usize = 0;
        while i < self.scenarios.len()
            invariant
                self@ == old(self)@,
                i <= ss.len(),
                ss == scenarios_view(self.scenarios@),
                forall|j: int| 0 <= j < i ==> ss[j].id != s,
            decreases ss.len() - i,
        {
            if self.scenarios[i].id == s {
                proof {
                    assert(first_scenario_at(ss, s, i as int));
                    let k = choose|k: int| first_scenario_at(ss, s, k);
                    assert(k == i) by {
                        if k < i {
                        } else if k > i {
                            assert(ss[i as int].id == s);
                        }
                    }
                }
                let mut sq = self.scenarios.remove(i);
                sq.events.push(ev);
                self.scenarios.insert(i, sq);
                proof {
                    assert(scenarios_view(self.scenarios@) =~= ss.update(
                        i as int,
                        ScenarioModel { id: s, events: ss[i as int].events.push(ev) },
                    ));
                }
                return;
            }
            i = i + 1;
        }
        let mut sq = ScenarioQueue::new(s);
        sq.events.push(ev);
        self.scenarios.push(sq);
        proof {
            assert(sq@.events =~= seq![ev]);
            assert(scenarios_view(self.scenarios@) =~= ss.push(ScenarioModel { id: s, events: seq![ev] }));
        }
    }
}

impl FeatureQueue {
    /// A queue for feature `id` with nothing emitted and nothing buffered.
    fn new(id: u64) -> (r: FeatureQueue)
        ensures
            r@ == (FeatureModel { id, started: false, finished: false, units: Seq::empty() }),
    {
        let r = FeatureQueue { id, started_emitted: false, finished: false, units: Vec::new() };
        assert(units_view(r.units@) =~= Seq::empty());
        r
    }

    /// Where rule `r` is queued, if it is.
    fn find_rule(&self, r: u64) -> (i: Option<usize>)
        ensures
            match i {
                Some(i) => first_rule_at(self@.units, r, i as int) && rule_index(self@.units, r) == i,
                None => !has_rule(self@.units, r),
            },
    {
        let ghost us = self@.units;
        let mut i: usize = 0;
        while i < self.units.len()
            invariant
                i <= us.len(),
                us == units_view(self.units@),
                forall|j: int| 0 <= j < i ==> !is_rule(us[j], r),
            decreases us.len() - i,
        {
            if let Unit::Rule(rq) = &self.units[i] {
                if rq.id == r {
                    proof {
                        assert(first_rule_at(us, r, i as int));
                        let k = choose|k: int| first_rule_at(us, r, k);
                        assert(k == i) by {
                            if k > i {
                                assert(is_rule(us[i as int], r));
                            }
                        }
                    }
                    return Some(i);
                }
            }
            i = i + 1;
        }
        None
    }

    /// Records `ev` of rule `r`, known to be queued at `i`.
    fn handle_rule_event(&mut self, i: usize, r: u64, ev: RuleEvent)
        requires
            first_rule_at(old(self)@.units, r, i as int),
            rule_index(old(self)@.units, r) == i,
        ensures
            route_in_feature(old(self)@, FeatureEvent::Rule(r, ev)) == Ok::<FeatureModel, Violation>(final(self)@),
    {
        let ghost us = self@.units;
        assert(has_rule(us, r));
        let u = self.units.remove(i);
        match u {
            Unit::Rule(mut rq) => {
                match ev {
                    RuleEvent::Started => {},
                    RuleEvent::Finished => {
                        rq.finished = true;
                    },
                    RuleEvent::Scenario(s, e) => {
                        rq.insert_scenario_event(s, e);
                    },
                }
                self.units.insert(i, Unit::Rule(rq));
                proof {
                    assert(units_view(self.units@) =~= us.update(i as int, UnitModel::Rule(rq@)));
                    if ev is Started {
                        assert(us.update(i as int, UnitModel::Rule(rq@)) =~= us);
                    }
                }
            },
            Unit::Scenario(sq) => {
                self.units.insert(i, Unit::Scenario(sq));
                proof {
                    assert(false);
                }
            },
        }
    }

    /// Appends `ev` to the buffer of scenario `s` outside any rule.
    fn insert_scenario_event(&mut self, s: u64, ev: ScenarioEvent)
        ensures
            final(self)@ == (FeatureModel { units: add_to_units(old(self)@.units, s, ev), ..old(self)@ }),
    {
        let ghost us = old(self)@.units;
        let mut i: usize = 0;
        while i < self.units.len()
            invariant
                self@ == old(self)@,
                i <= us.len(),
                us == units_view(self.units@),
                forall|j: int| 0 <= j < i ==> !is_scenario(us[j], s),
            decreases us.len() - i,
        {
            let hit = match &self.units[i] {
                Unit::Scenario(sq) => sq.id == s,
                Unit::Rule(_) => false,
            };
            if hit {
                proof {
                    assert(first_scenario_unit_at(us, s, i as int));
                    let k = choose|k: int| first_scenario_unit_at(us, s, k);
                    assert(k == i) by {
                        if k > i {
                            assert(is_scenario(us[i as int], s));
                        }
                    }
                }
                let u = self.units.remove(i);
                match u {
                    Unit::Scenario(mut sq) => {
                        sq.events.push(ev);
                        self.units.insert(i, Unit::Scenario(sq));
                        proof {
                            assert(units_view(self.units@) =~= us.update(
                                i as int,
                                UnitModel::Scenario(ScenarioModel { id: s, events: us[i as int]->Scenario_0.events.push(ev) }),
                            ));
                        }
                    },
                    Unit::Rule(rq) => {
                        self.units.insert(i, Unit::Rule(rq));
                        proof {
                            assert(false);
                        }
                    },
                }
                return;
            }
            i = i + 1;
        }
        let mut sq = ScenarioQueue::new(s);
        sq.events.push(ev);
        self.units.push(Unit::Scenario(sq));
        proof {
            assert(sq@.events =~= seq![ev]);
            assert(units_view(self.units@) =~= us.push(UnitModel::Scenario(ScenarioModel { id: s, events: seq![ev] })));
        }
    }

    /// Records an event of this feature, or reports a rule that was never
    /// started; on a violation nothing changes.
    fn handle_feature_event(&mut self, ev: FeatureEvent) -> (r: Result<(), Violation>)
        ensures
            match route_in_feature(old(self)@, ev) {
                Ok(fm) => r is Ok && final(self)@ == fm,
                Err(v) => r == Err::<(), Violation>(v) && final(self)@ == old(self)@,
            },
    {
        match ev {
            FeatureEvent::Started => Ok(()),
            FeatureEvent::Finished => {
                self.finished = true;
                Ok(())
            },
            FeatureEvent::Scenario(s, e) => {
                self.insert_scenario_event(s, e);
                Ok(())
            },
            FeatureEvent::Rule(r, rev) => {
                match self.find_rule(r) {
                    Some(i) => {
                        self.handle_rule_event(i, r, rev);
                        Ok(())
                    },
                    None => {
                        match rev {
                            RuleEvent::Started => {
                                let ghost us = self@.units;
                                self.units.push(Unit::Rule(RuleQueue::new(r)));
                                proof {
                                    assert(units_view(self.units@) =~= us.push(
                                        UnitModel::Rule(
                                            RuleModel { id: r, started: false, finished: false, scenarios: Seq::empty() },
                                        ),
                                    ));
                                }
                                Ok(())
                            },
                            _ => Err(Violation::UnknownRule(self.id, r)),
                        }
                    },
                }
            },
        }
    }
}

/// Reorders events into a readable order.
///
/// Started features are queued in the order in which they started; each one
/// is written out uninterrupted, its rules and scenarios in the order in
/// which they started, while events of later features wait.
pub struct Normalized {
    features: Vec<FeatureQueue>,
    finished: bool,
    done: bool,
}

impl View for Normalized {
    type V = QueueModel;

    closed spec fn view(&self) -> QueueModel {
        QueueModel { features: features_view(self.features@), finished: self.finished, done: self.done }
    }
}

impl Normalized {
    /// A normalizer with nothing queued.
    pub fn new() -> (r: Normalized)
        ensures
            r@ == (QueueModel { features: Seq::empty(), finished: false, done: false }),
    {
        let r = Normalized { features: Vec::new(), finished: false, done: false };
        assert(features_view(r.features@) =~= Seq::empty());
        r
    }

    /// Where feature `f` is queued, if it is.
    fn find_feature(&self, f: u64) -> (i: Option<usize>)
        ensures
            match i {
                Some(i) => first_feature_at(self@.features, f, i as int) && feature_index(self@.features, f) == i,
                None => !has_feature(self@.features, f),
            },
    {
        let ghost fs = self@.features;
        let mut i: usize = 0;
        while i < self.features.len()
            invariant
                i <= fs.len(),
                fs == features_view(self.features@),
                forall|j: int| 0 <= j < i ==> fs[j].id != f,
            decreases fs.len() - i,
        {
            if self.features[i].id == f {
                proof {
                    assert(first_feature_at(fs, f, i as int));
                    let k = choose|k: int| first_feature_at(fs, f, k);
                    assert(k == i) by {
                        if k > i {
                            assert(fs[i as int].id == f);
                        }
                    }
                }
                return Some(i);
            }
            i = i + 1;
        }
        None
    }

    /// Records `ev` in the queue, or reports a violation and changes
    /// nothing.
    fn record(&mut self, ev: Event) -> (r: Result<(), Violation>)
        ensures
            match route(old(self)@, ev) {
                Ok(q) => r is Ok && final(self)@ == q,
                Err(v) => r == Err::<(), Violation>(v) && final(self)@ == old(self)@,
            },
    {
        match ev {
            Event::Started => Ok(()),
            Event::ParsingError(_) => Ok(()),
            Event::Finished => {
                self.finished = true;
                Ok(())
            },
            Event::Feature(f, fev) => {
                let ghost fs = self@.features;
                match self.find_feature(f) {
                    Some(i) => {
                        let mut fq = self.features.remove(i);
                        proof {
                            assert(fq@ == fs[i as int]);
                        }
                        let res = fq.handle_feature_event(fev);
                        self.features.insert(i, fq);
                        proof {
                            assert(features_view(self.features@) =~= fs.update(i as int, fq@));
                            if res is Err {
                                assert(fs.update(i as int, fq@) =~= fs);
                            }
                        }
                        res
                    },
                    None => {
                        match fev {
                            FeatureEvent::Started => {
                                self.features.push(FeatureQueue::new(f));
                                proof {
                                    assert(features_view(self.features@) =~= fs.push(
                                        FeatureModel { id: f, started: false, finished: false, units: Seq::empty() },
                                    ));
                                }
                                Ok(())
                            },
                            _ => Err(Violation::UnknownFeature(f)),
                        }
                    },
                }
            },
        }
    }

    /// Emits into `out` everything that is ready, feature by feature, and the
    /// global `Finished` once it has arrived and nothing is left.
    fn emit_ready(&mut self, out: &mut Vec<Event>)
        ensures
            final(out)@ == old(out)@ + drain(old(self)@).0,
            final(self)@ == drain(old(self)@).1,
    {
        let ghost fs0 = self@.features;
        let ghost out1 = out@;
        let mut stalled = false;
        while !stalled && self.features.len() > 0
            invariant
                self.finished == old(self).finished,
                self.done == old(self).done,
                fs0 == old(self)@.features,
                out1 == old(out)@,
                out1 + features_drain(fs0).0 == out@ + (if stalled {
                    Seq::empty()
                } else {
                    features_drain(features_view(self.features@)).0
                }),
                features_drain(fs0).1 == (if stalled {
                    features_view(self.features@)
                } else {
                    features_drain(features_view(self.features@)).1
                }),
            decreases self.features@.len() + (if stalled { 0int } else { 1int }),
        {
            let ghost cur = features_view(self.features@);
            let ghost out_before = out@;
            let mut fq = self.features.remove(0);
            proof {
                assert(features_view(self.features@) =~= cur.drop_first());
                assert(fq@ == cur[0]);
            }
            let c = fq.emit_feature_events(out);
            if !c {
                self.features.insert(0, fq);
                proof {
                    assert(features_view(self.features@) =~= cur.update(0, feature_drain(cur[0]).1));
                }
                stalled = true;
            }
            proof {
                let w = feature_drain(cur[0]).0;
                if c {
                    let x = features_drain(cur.drop_first()).0;
                    assert(features_drain(cur).0 == w + x);
                    assert(out_before + (w + x) =~= out@ + x);
                } else {
                    assert(out_before + w =~= out@ + Seq::<Event>::empty());
                }
            }
        }
        proof {
            if !stalled {
                assert(features_view(self.features@).len() == 0);
                assert(features_view(self.features@) =~= Seq::<FeatureModel>::empty());
            }
        }
        if self.finished && self.features.len() == 0 && !self.done {
            out.push(Event::Finished);
            self.done = true;
        }
    }

    /// Takes one event and returns the events to forward downstream, in
    /// order. A global `Started` or a parsing error is forwarded at once;
    /// anything else is queued and forwarded as soon as everything ahead of
    /// it has been. An event of a feature or a rule that was never started
    /// is a violation of the producer's contract: it is reported, and the
    /// queue is left as it was.
    pub fn handle_event(&mut self, ev: Event) -> (r: Result<Vec<Event>, Violation>)
        ensures
            match step(old(self)@, ev) {
                Ok((o, q)) => r is Ok && r->Ok_0@ == o && final(self)@ == q,
                Err(v) => r == Err::<Vec<Event>, Violation>(v) && final(self)@ == old(self)@,
            },
    {
        match self.record(ev) {
            Err(v) => Err(v),
            Ok(()) => {
                let mut out: Vec<Event> = Vec::new();
                match ev {
                    Event::Started => out.push(ev),
                    Event::ParsingError(_) => out.push(ev),
                    _ => {},
                }
                proof {
                    assert(out@ =~= immediate(ev));
                }
                self.emit_ready(&mut out);
                Ok(out)
            },
        }
    }
}

} // verus!
