//! The mapping engine: turns presses and releases of named physical inputs
//! into presses and releases of output keys, with modifiers that override
//! mappings while they are held.
use vstd::prelude::*;
use crate::mappings::{Action, ProcessedMappings, presses, releases, taps, push_presses, push_releases, push_taps};
use crate::names::{NameMap, map_of, keys_distinct, key_index, lemma_key_index_props};
use crate::profile::{ComplexMapping, InputSimple, MappingDef, ModifierDef};

verus! {

/// What an input holds while it is down, recorded when it went down so that
/// its release undoes exactly that, whatever happened to the modifiers meanwhile.
pub struct HeldState {
    pub keys: Vec<u16>,
    pub activated_modifier: Option<String>,
    /// The modifier whose override this press was resolved under.
    pub using_modifier_scope: Option<String>,
    pub on_up_keys: Vec<u16>,
}

/// A held input in the model.
pub struct HeldModel {
    pub keys: Seq<u16>,
    pub activated: Option<Seq<char>>,
    pub scope: Option<Seq<char>>,
    pub on_up: Seq<u16>,
}

pub open spec fn opt_view(s: Option<String>) -> Option<Seq<char>> {
    match s {
        Some(t) => Some(t@),
        None => None,
    }
}

impl View for HeldState {
    type V = HeldModel;

    open spec fn view(&self) -> HeldModel {
        HeldModel {
            keys: self.keys@,
            activated: opt_view(self.activated_modifier),
            scope: opt_view(self.using_modifier_scope),
            on_up: self.on_up_keys@,
        }
    }
}

impl HeldModel {
    pub open spec fn empty() -> HeldModel {
        HeldModel { keys: Seq::empty(), activated: None, scope: None, on_up: Seq::empty() }
    }
}

impl Default for HeldState {
    fn default() -> (r: Self)
        ensures
            r@ == HeldModel::empty(),
    {
        HeldState {
            keys: Vec::new(),
            activated_modifier: None,
            using_modifier_scope: None,
            on_up_keys: Vec::new(),
        }
    }
}

/// What pressing an input will do, worked out before anything is done.
pub struct ActionPlan {
    pub held_keys: Vec<u16>,
    pub one_shot_down: Vec<u16>,
    pub one_shot_up: Vec<u16>,
    pub activate_modifier: Option<String>,
    pub using_modifier_scope: Option<String>,
    pub unimplemented: bool,
}

pub struct PlanModel {
    pub held: Seq<u16>,
    pub down: Seq<u16>,
    pub up: Seq<u16>,
    pub activate: Option<Seq<char>>,
    pub scope: Option<Seq<char>>,
    pub unimplemented: bool,
}

impl View for ActionPlan {
    type V = PlanModel;

    open spec fn view(&self) -> PlanModel {
        PlanModel {
            held: self.held_keys@,
            down: self.one_shot_down@,
            up: self.one_shot_up@,
            activate: opt_view(self.activate_modifier),
            scope: opt_view(self.using_modifier_scope),
            unimplemented: self.unimplemented,
        }
    }
}

impl PlanModel {
    pub open spec fn empty() -> PlanModel {
        PlanModel {
            held: Seq::empty(),
            down: Seq::empty(),
            up: Seq::empty(),
            activate: None,
            scope: None,
            unimplemented: false,
        }
    }
}

/// The engine's state as maps from names.
pub struct EngineModel {
    /// Output binding name to key.
    pub output: Map<Seq<char>, u16>,
    /// Input name to the key it produces itself, used when no mapping fires.
    pub physical: Map<Seq<char>, u16>,
    pub mappings: Map<Seq<char>, MappingDef>,
    pub modifiers: Map<Seq<char>, ModifierDef>,
    /// Active modifiers; the last one has the highest priority.
    pub active: Seq<Seq<char>>,
    pub held: Map<Seq<char>, HeldModel>,
    /// Whether each modifier's passive key is pressed.
    pub passive: Map<Seq<char>, bool>,
    /// How many held inputs were resolved under each modifier's overrides.
    pub scope: Map<Seq<char>, usize>,
    /// When each axis input last moved, in milliseconds.
    pub axis: Map<Seq<char>, u64>,
}

/// The mapping in effect for an input: the definition, and the modifier that
/// supplied it when it is an override.
pub struct Effective {
    pub def: MappingDef,
    pub source: Option<Seq<char>>,
}

/// The names that `targets` hold.
pub open spec fn names_of(targets: Seq<String>) -> Seq<Seq<char>> {
    targets.map_values(|t: String| t@)
}

/// `s` without any entry equal to `m`.
pub open spec fn without(s: Seq<Seq<char>>, m: Seq<char>) -> Seq<Seq<char>>
    decreases s.len(),
{
    if s.len() == 0 {
        s
    } else if s.last() != m {
        without(s.drop_last(), m).push(s.last())
    } else {
        without(s.drop_last(), m)
    }
}

impl EngineModel {
    /// The output key of a modifier's passive binding.
    pub open spec fn passive_key(self, m: Seq<char>) -> Option<u16> {
        if self.modifiers.contains_key(m) {
            match self.modifiers[m].input_passive {
                Some(p) => if self.output.contains_key(p@) {
                    Some(self.output[p@])
                } else {
                    None
                },
                None => None,
            }
        } else {
            None
        }
    }

    /// The override for `name` among the first `i` active modifiers, the
    /// latest activated first.
    pub open spec fn override_in(self, i: int, name: Seq<char>) -> Option<(MappingDef, Seq<char>)>
        decreases i,
    {
        if i <= 0 {
            None
        } else {
            let m = self.active[i - 1];
            if self.modifiers.contains_key(m) && self.modifiers[m].entries@.contains_key(name) {
                Some((self.modifiers[m].entries@[name], m))
            } else {
                self.override_in(i - 1, name)
            }
        }
    }

    /// The mapping in effect for `name`: the override of the most recently
    /// activated modifier that has one, else the input's own mapping.
    pub open spec fn effective(self, name: Seq<char>) -> Option<Effective> {
        match self.override_in(self.active.len() as int, name) {
            Some((d, m)) => Some(Effective { def: d, source: Some(m) }),
            None => if self.mappings.contains_key(name) {
                Some(Effective { def: self.mappings[name], source: None })
            } else {
                None
            },
        }
    }

    /// The output keys of those `targets` that are output bindings.
    pub open spec fn output_keys(self, targets: Seq<Seq<char>>) -> Seq<u16>
        decreases targets.len(),
    {
        if targets.len() == 0 {
            Seq::empty()
        } else {
            let rest = self.output_keys(targets.drop_last());
            if self.output.contains_key(targets.last()) {
                rest.push(self.output[targets.last()])
            } else {
                rest
            }
        }
    }

    /// A target that names a modifier activates it; one that names an output
    /// binding holds that key; any other is ignored.
    pub open spec fn plan_simple(self, target: Seq<char>, p: PlanModel) -> PlanModel {
        if self.modifiers.contains_key(target) {
            PlanModel { activate: Some(target), ..p }
        } else if self.output.contains_key(target) {
            PlanModel { held: p.held.push(self.output[target]), ..p }
        } else {
            p
        }
    }

    /// `plan_simple` for each target in turn.
    pub open spec fn plan_many(self, targets: Seq<Seq<char>>, p: PlanModel) -> PlanModel
        decreases targets.len(),
    {
        if targets.len() == 0 {
            p
        } else {
            self.plan_simple(targets.last(), self.plan_many(targets.drop_last(), p))
        }
    }

    pub open spec fn plan_complex(self, name: Seq<char>, c: ComplexMapping, p: PlanModel) -> PlanModel {
        let p1 = if c.input_passthrough && self.physical.contains_key(name) {
            PlanModel { held: p.held.push(self.physical[name]), ..p }
        } else {
            p
        };
        let p2 = match c.input_simple {
            Some(InputSimple::One(t)) => self.plan_simple(t@, p1),
            Some(InputSimple::Many(ts)) => self.plan_many(names_of(ts@), p1),
            None => p1,
        };
        let p3 = match c.input_down {
            Some(t) => if self.output.contains_key(t@) {
                PlanModel { down: p2.down.push(self.output[t@]), ..p2 }
            } else {
                p2
            },
            None => p2,
        };
        let p4 = match c.input_up {
            Some(t) => if self.output.contains_key(t@) {
                PlanModel { up: p3.up.push(self.output[t@]), ..p3 }
            } else {
                p3
            },
            None => p3,
        };
        if c.input_short is Some || c.input_long is Some || c.input_delayed is Some
            || c.input_variable is Some {
            PlanModel { unimplemented: true, ..p4 }
        } else {
            p4
        }
    }

    pub open spec fn plan_from_mapping(self, name: Seq<char>, d: MappingDef, p: PlanModel) -> PlanModel {
        match d {
            MappingDef::Simple(t) => self.plan_simple(t@, p),
            MappingDef::Multi(ts) => PlanModel { held: p.held + self.output_keys(names_of(ts@)), ..p },
            MappingDef::Complex(c) => self.plan_complex(name, *c, p),
            MappingDef::Modifier(_) => p,
        }
    }

    /// What pressing `name` will do. With no mapping in effect the input's own
    /// key is passed through.
    pub open spec fn plan_down(self, name: Seq<char>) -> PlanModel {
        match self.effective(name) {
            None => if self.physical.contains_key(name) {
                PlanModel { held: seq![self.physical[name]], ..PlanModel::empty() }
            } else {
                PlanModel::empty()
            },
            Some(e) => PlanModel {
                scope: e.source,
                ..self.plan_from_mapping(name, e.def, PlanModel::empty())
            },
        }
    }

    /// Entering a modifier's scope: the first input resolved under its
    /// overrides lets go of its passive key.
    pub open spec fn enter_scope(self, scope: Option<Seq<char>>) -> (EngineModel, Seq<Action>) {
        match scope {
            Some(m) => {
                let cur = if self.scope.contains_key(m) {
                    self.scope[m]
                } else {
                    0usize
                };
                let e1 = EngineModel { scope: self.scope.insert(m, (cur + 1) as usize), ..self };
                if cur == 0 && self.passive.contains_key(m) && self.passive[m] {
                    let out = match self.passive_key(m) {
                        Some(k) => seq![Action::Release(k)],
                        None => Seq::empty(),
                    };
                    (EngineModel { passive: self.passive.insert(m, false), ..e1 }, out)
                } else {
                    (e1, Seq::empty())
                }
            },
            None => (self, Seq::empty()),
        }
    }

    /// Whether some held input is resolved under `m`'s overrides.
    pub open spec fn in_scope(self, m: Seq<char>) -> bool {
        self.scope.contains_key(m) && self.scope[m] > 0
    }

    /// Activating a modifier pushes it on the stack and presses its passive
    /// key, unless inputs are held under its overrides: the passive key stays
    /// let go while that count is non-zero.
    pub open spec fn activate(self, act: Option<Seq<char>>) -> (EngineModel, Seq<Action>) {
        match act {
            Some(m) => {
                let e1 = EngineModel { active: self.active.push(m), ..self };
                match self.passive_key(m) {
                    Some(k) => if self.in_scope(m) {
                        (e1, Seq::empty())
                    } else {
                        (
                            EngineModel { passive: self.passive.insert(m, true), ..e1 },
                            seq![Action::Press(k)],
                        )
                    },
                    None => (e1, Seq::empty()),
                }
            },
            None => (self, Seq::empty()),
        }
    }

    /// A modifier's passive key is not marked pressed while inputs are held
    /// under its overrides.
    pub open spec fn passive_rule(self) -> bool {
        forall|m: Seq<char>| #[trigger] self.in_scope(m) ==> !(self.passive.contains_key(m) && self.passive[m])
    }

    /// Carries out a plan for `name` and records what it holds.
    pub open spec fn execute(self, name: Seq<char>, p: PlanModel) -> (EngineModel, Seq<Action>) {
        let warn: Seq<Action> = if p.unimplemented {
            seq![Action::Unimplemented]
        } else {
            Seq::empty()
        };
        let out0 = warn + presses(p.held) + taps(p.down);
        let (e1, out1) = self.enter_scope(p.scope);
        let (e2, out2) = e1.activate(p.activate);
        let held = HeldModel { keys: p.held, activated: p.activate, scope: p.scope, on_up: p.up };
        (EngineModel { held: e2.held.insert(name, held), ..e2 }, out0 + out1 + out2)
    }

    /// Pressing `name`.
    pub open spec fn button_down(self, name: Seq<char>) -> (EngineModel, Seq<Action>) {
        self.execute(name, self.plan_down(name))
    }

    /// Leaving a modifier's scope: when the last input resolved under it goes
    /// and the modifier is still active with its passive key let go, the
    /// passive key is pressed again.
    pub open spec fn leave_scope(self, scope: Option<Seq<char>>) -> (EngineModel, Seq<Action>) {
        match scope {
            Some(m) => {
                let cur = if self.scope.contains_key(m) {
                    self.scope[m]
                } else {
                    0usize
                };
                let new_count: usize = if cur == 0 {
                    0usize
                } else {
                    (cur - 1) as usize
                };
                let e1 = EngineModel { scope: self.scope.insert(m, new_count), ..self };
                let passive_on = if self.passive.contains_key(m) {
                    self.passive[m]
                } else {
                    true
                };
                if new_count == 0 && self.active.contains(m) && !passive_on {
                    let out = match self.passive_key(m) {
                        Some(k) => seq![Action::Press(k)],
                        None => Seq::empty(),
                    };
                    (EngineModel { passive: self.passive.insert(m, true), ..e1 }, out)
                } else {
                    (e1, Seq::empty())
                }
            },
            None => (self, Seq::empty()),
        }
    }

    /// Deactivating a modifier takes it off the stack and lets go of its
    /// passive key if that was pressed.
    pub open spec fn deactivate(self, act: Option<Seq<char>>) -> (EngineModel, Seq<Action>) {
        match act {
            Some(m) => {
                let was_on = self.passive.contains_key(m) && self.passive[m];
                let out = if was_on {
                    match self.passive_key(m) {
                        Some(k) => seq![Action::Release(k)],
                        None => Seq::empty(),
                    }
                } else {
                    Seq::empty()
                };
                (
                    EngineModel {
                        active: without(self.active, m),
                        passive: self.passive.remove(m),
                        scope: self.scope.remove(m),
                        ..self
                    },
                    out,
                )
            },
            None => (self, Seq::empty()),
        }
    }

    /// Releasing `name`: lets go of what its press recorded.
    pub open spec fn button_up(self, name: Seq<char>) -> (EngineModel, Seq<Action>) {
        let st = if self.held.contains_key(name) {
            self.held[name]
        } else {
            HeldModel::empty()
        };
        let e0 = EngineModel { held: self.held.remove(name), ..self };
        let (e1, out1) = e0.leave_scope(st.scope);
        let (e2, out2) = e1.deactivate(st.activated);
        (e2, releases(st.keys) + out1 + out2 + taps(st.on_up))
    }

    /// An axis movement of `name` at time `now`: when a mapping is in effect,
    /// the movement is recorded and, unless the input is already held, it is
    /// pressed. The flag tells whether a mapping fired.
    pub open spec fn axis_move(self, name: Seq<char>, now: u64) -> (EngineModel, bool, Seq<Action>) {
        if self.effective(name) is None {
            (self, false, Seq::empty())
        } else {
            let e1 = EngineModel { axis: self.axis.insert(name, now), ..self };
            if e1.held.contains_key(name) {
                (e1, true, Seq::empty())
            } else {
                let (e2, out) = e1.button_down(name);
                (e2, true, out)
            }
        }
    }

    /// Milliseconds since `name` last moved; the largest value when it never did.
    pub open spec fn elapsed(self, name: Seq<char>, now: u64) -> u64 {
        if self.axis.contains_key(name) {
            if now >= self.axis[name] {
                (now - self.axis[name]) as u64
            } else {
                0
            }
        } else {
            u64::MAX
        }
    }

    /// Releases `name` when it has not moved for `timeout` milliseconds.
    pub open spec fn axis_release_maybe(self, name: Seq<char>, timeout: u64, now: u64) -> (EngineModel, Seq<Action>) {
        if self.elapsed(name, now) >= timeout {
            let (e1, out) = self.button_up(name);
            (EngineModel { axis: e1.axis.remove(name), ..e1 }, out)
        } else {
            (self, Seq::empty())
        }
    }

    /// The count of the modifier whose scope `scope` enters can still grow.
    pub open spec fn scope_room(self, scope: Option<Seq<char>>) -> bool {
        match scope {
            Some(m) => self.scope.contains_key(m) ==> self.scope[m] < usize::MAX,
            None => true,
        }
    }

    /// Pressing `name` does not need a count beyond what a count can hold.
    pub open spec fn room_for_press(self, name: Seq<char>) -> bool {
        self.scope_room(self.plan_down(name).scope)
    }
}

/// The mapping engine.
pub struct Engine {
    output: NameMap<u16>,
    physical_inputs: NameMap<u16>,
    input_mappings: NameMap<MappingDef>,
    modifiers: NameMap<ModifierDef>,
    active_modifiers: Vec<String>,
    held_states: NameMap<HeldState>,
    passive_key_active: NameMap<bool>,
    modifier_scope_active: NameMap<usize>,
    axis_last_move: NameMap<u64>,
}

pub open spec fn held_models(m: Map<Seq<char>, HeldState>) -> Map<Seq<char>, HeldModel> {
    m.map_values(|h: HeldState| h@)
}

proof fn lemma_held_insert(m: Map<Seq<char>, HeldState>, k: Seq<char>, h: HeldState)
    ensures
        held_models(m.insert(k, h)) == held_models(m).insert(k, h@),
{
    assert(held_models(m.insert(k, h)) =~= held_models(m).insert(k, h@));
}

proof fn lemma_held_remove(m: Map<Seq<char>, HeldState>, k: Seq<char>)
    ensures
        held_models(m.remove(k)) == held_models(m).remove(k),
{
    assert(held_models(m.remove(k)) =~= held_models(m).remove(k));
}

proof fn lemma_names_push(s: Seq<String>, x: String)
    ensures
        names_of(s.push(x)) == names_of(s).push(x@),
{
    assert(names_of(s.push(x)) =~= names_of(s).push(x@));
}

impl View for Engine {
    type V = EngineModel;

    closed spec fn view(&self) -> EngineModel {
        EngineModel {
            output: self.output@,
            physical: self.physical_inputs@,
            mappings: self.input_mappings@,
            modifiers: self.modifiers@,
            active: names_of(self.active_modifiers@),
            held: held_models(self.held_states@),
            passive: self.passive_key_active@,
            scope: self.modifier_scope_active@,
            axis: self.axis_last_move@,
        }
    }
}

impl Engine {
    /// The engine's bookkeeping tables name each input or modifier once.
    pub closed spec fn wf(&self) -> bool {
        &&& self.held_states.wf()
        &&& self.passive_key_active.wf()
        &&& self.modifier_scope_active.wf()
        &&& self.axis_last_move.wf()
        &&& self@.passive_rule()
    }

    /// An engine with nothing held and no modifier active.
    pub fn new(output: NameMap<u16>, physical_inputs: NameMap<u16>, mappings: ProcessedMappings) -> (e: Self)
        ensures
            e.wf(),
            e@.passive_rule(),
            e@.consistent(),
            e@.is_fresh(),
            e@.output == output@,
            e@.physical == physical_inputs@,
            e@.mappings == mappings.input_mappings@,
            e@.modifiers == mappings.modifiers@,
            e@.active == Seq::<Seq<char>>::empty(),
            e@.held == Map::<Seq<char>, HeldModel>::empty(),
            e@.passive == Map::<Seq<char>, bool>::empty(),
            e@.scope == Map::<Seq<char>, usize>::empty(),
            e@.axis == Map::<Seq<char>, u64>::empty(),
    {
        let e = Engine {
            output,
            physical_inputs,
            input_mappings: mappings.input_mappings,
            modifiers: mappings.modifiers,
            active_modifiers: Vec::new(),
            held_states: NameMap::new(),
            passive_key_active: NameMap::new(),
            modifier_scope_active: NameMap::new(),
            axis_last_move: NameMap::new(),
        };
        proof {
            assert(e@.active =~= Seq::<Seq<char>>::empty());
            assert(e@.held =~= Map::<Seq<char>, HeldModel>::empty());
        }
        e
    }

    fn get_passive_key(&self, mod_name: &str) -> (r: Option<u16>)
        ensures
            r == self@.passive_key(mod_name@),
    {
        match self.modifiers.get(mod_name) {
            Some(md) => match &md.input_passive {
                Some(p) => match self.output.get(p.as_str()) {
                    Some(k) => Some(*k),
                    None => None,
                },
                None => None,
            },
            None => None,
        }
    }

    /// The mapping in effect for `input_name`, and the modifier that supplied it.
    fn effective_mapping<'a>(&'a self, input_name: &str) -> (r: Option<(&'a MappingDef, Option<&'a String>)>)
        ensures
            match r {
                Some((d, src)) => self@.effective(input_name@) == Some(
                    Effective { def: *d, source: opt_view_ref(src) },
                ),
                None => self@.effective(input_name@) is None,
            },
    {
        let mut i: usize = self.active_modifiers.len();
        while i > 0
            invariant
                i <= self.active_modifiers@.len(),
                self@.override_in(self@.active.len() as int, input_name@) == self@.override_in(
                    i as int,
                    input_name@,
                ),
            decreases i,
        {
            let mod_name = &self.active_modifiers[i - 1];
            assert(self@.active[i - 1] == mod_name@);
            match self.modifiers.get(mod_name.as_str()) {
                Some(mod_def) => match mod_def.entries.get(input_name) {
                    Some(m) => {
                        return Some((m, Some(mod_name)));
                    },
                    None => {},
                },
                None => {},
            }
            i = i - 1;
        }
        match self.input_mappings.get(input_name) {
            Some(m) => Some((m, None)),
            None => None,
        }
    }
}

impl Engine {
    /// A target naming a modifier activates it; one naming an output binding holds its key.
    fn plan_simple(&self, target: &str, plan: &mut ActionPlan)
        ensures
            final(plan)@ == self@.plan_simple(target@, old(plan)@),
    {
        if self.modifiers.contains_key(target) {
            plan.activate_modifier = Some(target.to_owned());
        } else {
            match self.output.get(target) {
                Some(k) => {
                    plan.held_keys.push(*k);
                },
                None => {},
            }
        }
    }

    fn plan_many(&self, targets: &Vec<String>, plan: &mut ActionPlan)
        ensures
            final(plan)@ == self@.plan_many(names_of(targets@), old(plan)@),
    {
        let ghost p0 = plan@;
        let mut i: usize = 0;
        while i < targets.len()
            invariant
                i <= targets@.len(),
                plan@ == self@.plan_many(names_of(targets@).take(i as int), p0),
            decreases targets@.len() - i,
        {
            self.plan_simple(targets[i].as_str(), plan);
            proof {
                let ns = names_of(targets@);
                assert(ns.take(i + 1).drop_last() =~= ns.take(i as int));
                assert(ns.take(i + 1).last() == targets@[i as int]@);
            }
            i = i + 1;
        }
        assert(names_of(targets@).take(i as int) =~= names_of(targets@));
    }

    fn plan_multi(&self, targets: &Vec<String>, plan: &mut ActionPlan)
        ensures
            final(plan)@ == (PlanModel {
                held: old(plan)@.held + self@.output_keys(names_of(targets@)),
                ..old(plan)@
            }),
    {
        let ghost p0 = plan@;
        let mut i: usize = 0;
        while i < targets.len()
            invariant
                i <= targets@.len(),
                plan@ == (PlanModel {
                    held: p0.held + self@.output_keys(names_of(targets@).take(i as int)),
                    ..p0
                }),
            decreases targets@.len() - i,
        {
            match self.output.get(targets[i].as_str()) {
                Some(k) => {
                    plan.held_keys.push(*k);
                },
                None => {},
            }
            proof {
                let ns = names_of(targets@);
                assert(ns.take(i + 1).drop_last() =~= ns.take(i as int));
                assert(ns.take(i + 1).last() == targets@[i as int]@);
                let ok = self@.output_keys(ns.take(i as int));
                if self@.output.contains_key(targets@[i as int]@) {
                    assert(plan@.held =~= p0.held + ok.push(self@.output[targets@[i as int]@]));
                } else {
                    assert(plan@.held =~= p0.held + ok);
                }
            }
            i = i + 1;
        }
        assert(names_of(targets@).take(i as int) =~= names_of(targets@));
    }

    fn plan_complex(&self, input_name: &str, complex: &ComplexMapping, plan: &mut ActionPlan)
        ensures
            final(plan)@ == self@.plan_complex(input_name@, *complex, old(plan)@),
    {
        if complex.input_passthrough {
            match self.physical_inputs.get(input_name) {
                Some(k) => {
                    plan.held_keys.push(*k);
                },
                None => {},
            }
        }
        match &complex.input_simple {
            Some(InputSimple::One(target)) => self.plan_simple(target.as_str(), plan),
            Some(InputSimple::Many(targets)) => self.plan_many(targets, plan),
            None => {},
        }
        match &complex.input_down {
            Some(target) => match self.output.get(target.as_str()) {
                Some(k) => {
                    plan.one_shot_down.push(*k);
                },
                None => {},
            },
            None => {},
        }
        match &complex.input_up {
            Some(target) => match self.output.get(target.as_str()) {
                Some(k) => {
                    plan.one_shot_up.push(*k);
                },
                None => {},
            },
            None => {},
        }
        if complex.input_short.is_some() || complex.input_long.is_some()
            || complex.input_delayed.is_some() || complex.input_variable.is_some() {
            plan.unimplemented = true;
        }
    }

    fn plan_from_mapping(&self, input_name: &str, mapping: &MappingDef, plan: &mut ActionPlan)
        ensures
            final(plan)@ == self@.plan_from_mapping(input_name@, *mapping, old(plan)@),
    {
        match mapping {
            MappingDef::Simple(target) => self.plan_simple(target.as_str(), plan),
            MappingDef::Multi(targets) => self.plan_multi(targets, plan),
            MappingDef::Complex(complex) => self.plan_complex(input_name, complex, plan),
            MappingDef::Modifier(_) => {},
        }
    }

    fn plan_down(&self, input_name: &str) -> (plan: ActionPlan)
        ensures
            plan@ == self@.plan_down(input_name@),
    {
        let mut plan = ActionPlan {
            held_keys: Vec::new(),
            one_shot_down: Vec::new(),
            one_shot_up: Vec::new(),
            activate_modifier: None,
            using_modifier_scope: None,
            unimplemented: false,
        };
        assert(plan@ == PlanModel::empty());
        match self.effective_mapping(input_name) {
            None => {
                match self.physical_inputs.get(input_name) {
                    Some(k) => {
                        plan.held_keys.push(*k);
                        assert(plan@.held =~= seq![self@.physical[input_name@]]);
                    },
                    None => {},
                }
            },
            Some((mapping, source_mod)) => {
                self.plan_from_mapping(input_name, mapping, &mut plan);
                plan.using_modifier_scope = match source_mod {
                    Some(m) => Some(m.clone()),
                    None => None,
                };
            },
        }
        plan
    }
}

impl Engine {
    fn scope_count(&self, m: &str) -> (r: usize)
        ensures
            r == (if self@.scope.contains_key(m@) {
                self@.scope[m@]
            } else {
                0usize
            }),
    {
        match self.modifier_scope_active.get(m) {
            Some(c) => *c,
            None => 0,
        }
    }

    fn enter_scope(&mut self, scope: &Option<String>) -> (out: Vec<Action>)
        requires
            old(self).wf(),
            old(self)@.scope_room(opt_view(*scope)),
        ensures
            final(self).wf(),
            final(self)@.passive_rule(),
            (final(self)@, out@) == old(self)@.enter_scope(opt_view(*scope)),
    {
        let mut out: Vec<Action> = Vec::new();
        match scope {
            Some(m) => {
                let current = self.scope_count(m.as_str());
                self.modifier_scope_active.insert(m.clone(), current + 1);
                let on = match self.passive_key_active.get(m.as_str()) {
                    Some(b) => *b,
                    None => false,
                };
                if current == 0 && on {
                    match self.get_passive_key(m.as_str()) {
                        Some(k) => {
                            out.push(Action::Release(k));
                        },
                        None => {},
                    }
                    self.passive_key_active.insert(m.clone(), false);
                }
                proof {
                    let e = old(self)@.enter_scope(opt_view(*scope));
                    assert(out@ =~= e.1);
                    lemma_rule_enter_scope(old(self)@, opt_view(*scope));
                }
            },
            None => {
                assert(out@ =~= Seq::<Action>::empty());
            },
        }
        out
    }

    fn activate(&mut self, act: &Option<String>) -> (out: Vec<Action>)
        requires
            old(self).wf(),
        ensures
            final(self).wf(),
            final(self)@.passive_rule(),
            (final(self)@, out@) == old(self)@.activate(opt_view(*act)),
    {
        let mut out: Vec<Action> = Vec::new();
        match act {
            Some(m) => {
                let m2 = m.clone();
                proof {
                    lemma_names_push(self.active_modifiers@, m2);
                }
                let count = self.scope_count(m.as_str());
                self.active_modifiers.push(m2);
                match self.get_passive_key(m.as_str()) {
                    Some(k) => {
                        if count == 0 {
                            out.push(Action::Press(k));
                            self.passive_key_active.insert(m.clone(), true);
                        }
                    },
                    None => {},
                }
                proof {
                    let e = old(self)@.activate(opt_view(*act));
                    assert(out@ =~= e.1);
                    lemma_rule_activate(old(self)@, opt_view(*act));
                }
            },
            None => {
                assert(out@ =~= Seq::<Action>::empty());
            },
        }
        out
    }

    fn is_active(&self, m: &String) -> (r: bool)
        ensures
            r == self@.active.contains(m@),
    {
        let mut i: usize = 0;
        while i < self.active_modifiers.len()
            invariant
                i <= self.active_modifiers@.len(),
                forall|j: int| 0 <= j < i ==> self@.active[j] != m@,
            decreases self.active_modifiers@.len() - i,
        {
            if self.active_modifiers[i] == *m {
                assert(self@.active[i as int] == m@);
                return true;
            }
            i = i + 1;
        }
        false
    }

    fn leave_scope(&mut self, scope: &Option<String>) -> (out: Vec<Action>)
        requires
            old(self).wf(),
        ensures
            final(self).wf(),
            final(self)@.passive_rule(),
            (final(self)@, out@) == old(self)@.leave_scope(opt_view(*scope)),
    {
        let mut out: Vec<Action> = Vec::new();
        match scope {
            Some(m) => {
                let current = self.scope_count(m.as_str());
                let new_count: usize = if current == 0 {
                    0
                } else {
                    current - 1
                };
                self.modifier_scope_active.insert(m.clone(), new_count);
                let on = match self.passive_key_active.get(m.as_str()) {
                    Some(b) => *b,
                    None => true,
                };
                let should_reactivate = new_count == 0 && self.is_active(m) && !on;
                if should_reactivate {
                    match self.get_passive_key(m.as_str()) {
                        Some(k) => {
                            out.push(Action::Press(k));
                        },
                        None => {},
                    }
                    self.passive_key_active.insert(m.clone(), true);
                }
                proof {
                    let e = old(self)@.leave_scope(opt_view(*scope));
                    assert(out@ =~= e.1);
                    lemma_rule_leave_scope(old(self)@, opt_view(*scope));
                }
            },
            None => {
                assert(out@ =~= Seq::<Action>::empty());
            },
        }
        out
    }

    fn deactivate(&mut self, act: &Option<String>) -> (out: Vec<Action>)
        requires
            old(self).wf(),
        ensures
            final(self).wf(),
            final(self)@.passive_rule(),
            (final(self)@, out@) == old(self)@.deactivate(opt_view(*act)),
    {
        let mut out: Vec<Action> = Vec::new();
        match act {
            Some(m) => {
                let mut kept: Vec<String> = Vec::new();
                let mut i: usize = 0;
                while i < self.active_modifiers.len()
                    invariant
                        i <= self.active_modifiers@.len(),
                        names_of(kept@) == without(names_of(self.active_modifiers@).take(i as int), m@),
                    decreases self.active_modifiers@.len() - i,
                {
                    let ghost before = kept@;
                    if !(self.active_modifiers[i] == *m) {
                        let x = self.active_modifiers[i].clone();
                        kept.push(x);
                        proof {
                            lemma_names_push(before, x);
                        }
                    }
                    proof {
                        let ns = names_of(self.active_modifiers@);
                        assert(ns.take(i + 1).drop_last() =~= ns.take(i as int));
                        assert(ns.take(i + 1).last() == self.active_modifiers@[i as int]@);
                        assert(without(ns.take(i + 1), m@) == (if ns[i as int] != m@ {
                            without(ns.take(i as int), m@).push(ns[i as int])
                        } else {
                            without(ns.take(i as int), m@)
                        }));
                    }
                    i = i + 1;
                }
                assert(names_of(self.active_modifiers@).take(i as int) =~= names_of(self.active_modifiers@));
                self.active_modifiers = kept;
                let was_on = match self.passive_key_active.remove(m.as_str()) {
                    Some(b) => b,
                    None => false,
                };
                if was_on {
                    match self.get_passive_key(m.as_str()) {
                        Some(k) => {
                            out.push(Action::Release(k));
                        },
                        None => {},
                    }
                }
                self.modifier_scope_active.remove(m.as_str());
                proof {
                    let e = old(self)@.deactivate(opt_view(*act));
                    assert(out@ =~= e.1);
                    lemma_rule_deactivate(old(self)@, opt_view(*act));
                }
            },
            None => {
                assert(out@ =~= Seq::<Action>::empty());
            },
        }
        out
    }
}

/// Releases of the keys of every held entry, in the order of the entries.
pub open spec fn release_held(s: Seq<(String, HeldState)>) -> Seq<Action>
    decreases s.len(),
{
    if s.len() == 0 {
        Seq::empty()
    } else {
        release_held(s.drop_last()) + releases(s.last().1.keys@)
    }
}

/// Releases of the passive keys that are pressed, in the order of the entries.
pub open spec fn release_passive(e: EngineModel, s: Seq<(String, bool)>) -> Seq<Action>
    decreases s.len(),
{
    if s.len() == 0 {
        Seq::empty()
    } else {
        let rest = release_passive(e, s.drop_last());
        if s.last().1 {
            match e.passive_key(s.last().0@) {
                Some(k) => rest.push(Action::Release(k)),
                None => rest,
            }
        } else {
            rest
        }
    }
}

proof fn lemma_release_held_contains(s: Seq<(String, HeldState)>, j: int, i: int)
    requires
        0 <= j < s.len(),
        0 <= i < s[j].1.keys@.len(),
    ensures
        release_held(s).contains(Action::Release(s[j].1.keys@[i])),
    decreases s.len(),
{
    let r = release_held(s);
    let prefix = release_held(s.drop_last());
    if j == s.len() - 1 {
        let idx = prefix.len() + i;
        assert(r[idx] == Action::Release(s[j].1.keys@[i]));
    } else {
        lemma_release_held_contains(s.drop_last(), j, i);
        let idx = choose|idx: int| 0 <= idx < prefix.len() && prefix[idx] == Action::Release(s[j].1.keys@[i]);
        assert(r[idx] == prefix[idx]);
    }
}

proof fn lemma_release_held_only_releases(s: Seq<(String, HeldState)>)
    ensures
        forall|i: int| 0 <= i < release_held(s).len() ==> #[trigger] release_held(s)[i] is Release,
    decreases s.len(),
{
    if s.len() > 0 {
        lemma_release_held_only_releases(s.drop_last());
        let prefix = release_held(s.drop_last());
        assert forall|i: int| 0 <= i < release_held(s).len() implies #[trigger] release_held(s)[i] is Release by {
            if i >= prefix.len() {
            } else {
                assert(release_held(s)[i] == prefix[i]);
            }
        }
    }
}

proof fn lemma_release_passive_contains(e: EngineModel, s: Seq<(String, bool)>, j: int, k: u16)
    requires
        0 <= j < s.len(),
        s[j].1,
        e.passive_key(s[j].0@) == Some(k),
    ensures
        release_passive(e, s).contains(Action::Release(k)),
    decreases s.len(),
{
    let prefix = release_passive(e, s.drop_last());
    if j == s.len() - 1 {
        assert(release_passive(e, s)[prefix.len() as int] == Action::Release(k));
    } else {
        lemma_release_passive_contains(e, s.drop_last(), j, k);
        let idx = choose|idx: int| 0 <= idx < prefix.len() && prefix[idx] == Action::Release(k);
        assert(release_passive(e, s)[idx] == prefix[idx]);
    }
}

proof fn lemma_release_passive_only_releases(e: EngineModel, s: Seq<(String, bool)>)
    ensures
        forall|i: int| 0 <= i < release_passive(e, s).len() ==> #[trigger] release_passive(e, s)[i] is Release,
    decreases s.len(),
{
    if s.len() > 0 {
        lemma_release_passive_only_releases(e, s.drop_last());
        let prefix = release_passive(e, s.drop_last());
        assert forall|i: int| 0 <= i < release_passive(e, s).len() implies #[trigger] release_passive(e, s)[i] is Release by {
            if i < prefix.len() {
                assert(release_passive(e, s)[i] == prefix[i]);
            }
        }
    }
}

/// Releases of the keys of the held inputs `names`, in that order, each
/// input's keys in the order it pressed them.
pub open spec fn held_releases(e: EngineModel, names: Seq<Seq<char>>) -> Seq<Action>
    decreases names.len(),
{
    if names.len() == 0 {
        Seq::empty()
    } else {
        held_releases(e, names.drop_last()) + releases(e.held[names.last()].keys)
    }
}

/// Releases of the passive keys of those modifiers of `names` whose flag is
/// set, in that order.
pub open spec fn passive_releases(e: EngineModel, names: Seq<Seq<char>>) -> Seq<Action>
    decreases names.len(),
{
    if names.len() == 0 {
        Seq::empty()
    } else {
        let rest = passive_releases(e, names.drop_last());
        if e.passive[names.last()] {
            match e.passive_key(names.last()) {
                Some(k) => rest.push(Action::Release(k)),
                None => rest,
            }
        } else {
            rest
        }
    }
}

/// `names` lists every element of `dom` exactly once.
pub open spec fn lists_once(names: Seq<Seq<char>>, dom: Set<Seq<char>>) -> bool {
    &&& names.no_duplicates()
    &&& forall|n: Seq<char>| #[trigger] names.contains(n) <==> dom.contains(n)
}

/// What releasing everything hands out, the held inputs taken in the order
/// `hn` and the modifiers in the order `pn`: the keys of each held input,
/// then the passive keys whose flag is set.
pub open spec fn release_all_out(e: EngineModel, hn: Seq<Seq<char>>, pn: Seq<Seq<char>>) -> Seq<Action> {
    held_releases(e, hn) + passive_releases(e, pn)
}

pub open spec fn entry_names<V>(s: Seq<(String, V)>) -> Seq<Seq<char>> {
    s.map_values(|p: (String, V)| p.0@)
}

proof fn lemma_entry_names_once<V>(s: Seq<(String, V)>)
    requires
        keys_distinct(s),
    ensures
        lists_once(entry_names(s), map_of(s).dom()),
{
    let ns = entry_names(s);
    assert forall|i: int, j: int| 0 <= i < ns.len() && 0 <= j < ns.len() && i != j implies ns[i] != ns[j] by {
        if i < j {
            assert(s[i].0@ != s[j].0@);
        } else {
            assert(s[j].0@ != s[i].0@);
        }
    }
    assert forall|n: Seq<char>| #[trigger] ns.contains(n) <==> map_of(s).dom().contains(n) by {
        lemma_key_index_props(s, n);
        if ns.contains(n) {
            let i = choose|i: int| 0 <= i < ns.len() && ns[i] == n;
            assert(s[i].0@ == n);
        }
        if key_index(s, n) >= 0 {
            assert(ns[key_index(s, n)] == n);
        }
    }
}

proof fn lemma_release_held_in_order(e: EngineModel, s: Seq<(String, HeldState)>)
    requires
        forall|i: int| 0 <= i < s.len() ==> #[trigger] e.held[s[i].0@].keys == s[i].1.keys@,
    ensures
        release_held(s) == held_releases(e, entry_names(s)),
    decreases s.len(),
{
    if s.len() > 0 {
        let d = s.drop_last();
        assert forall|i: int| 0 <= i < d.len() implies #[trigger] e.held[d[i].0@].keys == d[i].1.keys@ by {
            assert(d[i] == s[i]);
        }
        lemma_release_held_in_order(e, d);
        assert(entry_names(s).drop_last() =~= entry_names(d));
        assert(entry_names(s).last() == s.last().0@);
        assert(e.held[s[s.len() - 1].0@].keys == s[s.len() - 1].1.keys@);
    }
}

proof fn lemma_release_passive_in_order(e: EngineModel, s: Seq<(String, bool)>)
    requires
        forall|i: int| 0 <= i < s.len() ==> #[trigger] e.passive[s[i].0@] == s[i].1,
    ensures
        release_passive(e, s) == passive_releases(e, entry_names(s)),
    decreases s.len(),
{
    if s.len() > 0 {
        let d = s.drop_last();
        assert forall|i: int| 0 <= i < d.len() implies #[trigger] e.passive[d[i].0@] == d[i].1 by {
            assert(d[i] == s[i]);
        }
        lemma_release_passive_in_order(e, d);
        assert(entry_names(s).drop_last() =~= entry_names(d));
        assert(entry_names(s).last() == s.last().0@);
        assert(e.passive[s[s.len() - 1].0@] == s[s.len() - 1].1);
    }
}

impl Engine {
    /// What `release_all` hands to the output device: the keys of each held
    /// input, then the passive keys that are pressed.
    pub closed spec fn release_all_actions(&self) -> Seq<Action> {
        release_held(self.held_states.entries@) + release_passive(self@, self.passive_key_active.entries@)
    }

    /// What `release_all` hands out, as the engine's model says: for some
    /// order of the held inputs and some order of the modifiers with a flag,
    /// the keys of each held input in the order it pressed them, then the
    /// passive keys whose flag is set; nothing else.
    pub proof fn lemma_release_all_actions_in_order(&self)
        requires
            self.wf(),
        ensures
            exists|hn: Seq<Seq<char>>, pn: Seq<Seq<char>>|
                lists_once(hn, self@.held.dom()) && lists_once(pn, self@.passive.dom())
                    && self.release_all_actions() == #[trigger] release_all_out(self@, hn, pn),
    {
        let hs = self.held_states.entries@;
        let ps = self.passive_key_active.entries@;
        let e = self@;
        lemma_entry_names_once(hs);
        lemma_entry_names_once(ps);
        assert(e.held.dom() =~= map_of(hs).dom());
        assert forall|i: int| 0 <= i < hs.len() implies #[trigger] e.held[hs[i].0@].keys == hs[i].1.keys@ by {
            crate::names::lemma_key_index_distinct(hs, i);
        }
        assert forall|i: int| 0 <= i < ps.len() implies #[trigger] e.passive[ps[i].0@] == ps[i].1 by {
            crate::names::lemma_key_index_distinct(ps, i);
        }
        lemma_release_held_in_order(e, hs);
        lemma_release_passive_in_order(e, ps);
        assert(self.release_all_actions() == release_all_out(e, entry_names(hs), entry_names(ps)));
    }

    fn execute_plan(&mut self, input_name: &str, plan: ActionPlan) -> (out: Vec<Action>)
        requires
            old(self).wf(),
            old(self)@.scope_room(plan@.scope),
        ensures
            final(self).wf(),
            final(self)@.passive_rule(),
            (final(self)@, out@) == old(self)@.execute(input_name@, plan@),
    {
        let ghost p = plan@;
        let ghost e0 = self@;
        let ActionPlan {
            held_keys,
            one_shot_down,
            one_shot_up,
            activate_modifier,
            using_modifier_scope,
            unimplemented,
        } = plan;
        let mut out: Vec<Action> = Vec::new();
        if unimplemented {
            out.push(Action::Unimplemented);
        }
        push_presses(&mut out, &held_keys);
        push_taps(&mut out, &one_shot_down);
        let out1 = self.enter_scope(&using_modifier_scope);
        let out2 = self.activate(&activate_modifier);
        let held = HeldState {
            keys: held_keys,
            activated_modifier: activate_modifier,
            using_modifier_scope,
            on_up_keys: one_shot_up,
        };
        let ghost hv = held;
        let ghost hs = self.held_states@;
        let name = input_name.to_owned();
        self.held_states.insert(name, held);
        proof {
            lemma_held_insert(hs, input_name@, hv);
        }
        let mut all = out;
        let mut o1 = out1;
        let mut o2 = out2;
        all.append(&mut o1);
        all.append(&mut o2);
        proof {
            assert(self@ == e0.execute(input_name@, p).0);
            lemma_rule_execute(e0, input_name@, p);
        }
        all
    }

    /// Presses the physical input `input_name`.
    pub fn on_button_down(&mut self, input_name: &str) -> (out: Vec<Action>)
        requires
            old(self).wf(),
            old(self)@.room_for_press(input_name@),
        ensures
            final(self).wf(),
            final(self)@.passive_rule(),
            (final(self)@, out@) == old(self)@.button_down(input_name@),
    {
        let plan = self.plan_down(input_name);
        self.execute_plan(input_name, plan)
    }

    /// Whether pressing `input_name` now keeps every count in range.
    pub fn has_room_for_press(&self, input_name: &str) -> (r: bool)
        ensures
            r == self@.room_for_press(input_name@),
    {
        let plan = self.plan_down(input_name);
        match &plan.using_modifier_scope {
            Some(m) => match self.modifier_scope_active.get(m.as_str()) {
                Some(c) => *c < usize::MAX,
                None => true,
            },
            None => true,
        }
    }

    /// Releases the physical input `input_name`: lets go of exactly what its
    /// press recorded, whatever the modifiers did meanwhile.
    pub fn on_button_up(&mut self, input_name: &str) -> (out: Vec<Action>)
        requires
            old(self).wf(),
        ensures
            final(self).wf(),
            final(self)@.passive_rule(),
            (final(self)@, out@) == old(self)@.button_up(input_name@),
    {
        let ghost e = self@;
        let ghost hs = self.held_states@;
        let state = match self.held_states.remove(input_name) {
            Some(s) => s,
            None => HeldState::default(),
        };
        proof {
            lemma_held_remove(hs, input_name@);
            lemma_rule_same(e, self@);
            assert(state@ == (if e.held.contains_key(input_name@) {
                e.held[input_name@]
            } else {
                HeldModel::empty()
            }));
        }
        let mut out: Vec<Action> = Vec::new();
        push_releases(&mut out, &state.keys);
        let mut out1 = self.leave_scope(&state.using_modifier_scope);
        let mut out2 = self.deactivate(&state.activated_modifier);
        out.append(&mut out1);
        out.append(&mut out2);
        push_taps(&mut out, &state.on_up_keys);
        proof {
            assert(out@ =~= e.button_up(input_name@).1);
        }
        out
    }

    /// An axis movement of `input_name` at `now_ms`. Reports whether a mapping
    /// fired (the caller then schedules a release check); when none did, the
    /// caller relays the raw movement.
    pub fn on_axis_move(&mut self, input_name: &str, now_ms: u64) -> (r: (bool, Vec<Action>))
        requires
            old(self).wf(),
            old(self)@.effective(input_name@) is Some && !old(self)@.held.contains_key(input_name@)
                ==> old(self)@.room_for_press(input_name@),
        ensures
            final(self).wf(),
            final(self)@.passive_rule(),
            (final(self)@, r.0, r.1@) == old(self)@.axis_move(input_name@, now_ms),
    {
        if self.effective_mapping(input_name).is_none() {
            let out: Vec<Action> = Vec::new();
            assert(out@ =~= Seq::<Action>::empty());
            return (false, out);
        }
        let ghost e = self@;
        self.axis_last_move.insert(input_name.to_owned(), now_ms);
        proof {
            lemma_same_tables_plan(e, self@, input_name@);
            lemma_rule_same(e, self@);
        }
        let mut out: Vec<Action> = Vec::new();
        if !self.held_states.contains_key(input_name) {
            out = self.on_button_down(input_name);
        } else {
            assert(out@ =~= Seq::<Action>::empty());
        }
        (true, out)
    }

    /// Called a while after an axis movement: releases `input_name` only when
    /// no movement came within `timeout_ms` of `now_ms`, that is when the
    /// movement has stopped.
    pub fn on_axis_release_maybe(&mut self, input_name: &str, timeout_ms: u64, now_ms: u64) -> (out: Vec<Action>)
        requires
            old(self).wf(),
        ensures
            final(self).wf(),
            final(self)@.passive_rule(),
            (final(self)@, out@) == old(self)@.axis_release_maybe(input_name@, timeout_ms, now_ms),
    {
        let elapsed_ms: u64 = match self.axis_last_move.get(input_name) {
            Some(t) => if now_ms >= *t {
                now_ms - *t
            } else {
                0
            },
            None => u64::MAX,
        };
        if elapsed_ms >= timeout_ms {
            let out = self.on_button_up(input_name);
            let ghost u = self@;
            self.axis_last_move.remove(input_name);
            proof {
                lemma_rule_same(u, self@);
            }
            out
        } else {
            let out: Vec<Action> = Vec::new();
            assert(out@ =~= Seq::<Action>::empty());
            out
        }
    }

    /// Passes a raw movement on to the output device.
    pub fn relay_axis(&mut self, axis: u16, delta: i32) -> (out: Vec<Action>)
        ensures
            final(self)@ == old(self)@,
            out@ == seq![Action::RelayAxis(axis, delta)],
    {
        let mut out: Vec<Action> = Vec::new();
        out.push(Action::RelayAxis(axis, delta));
        assert(out@ =~= seq![Action::RelayAxis(axis, delta)]);
        out
    }

    /// Releases everything, so that no key stays pressed (on loss of focus):
    /// every key of every held input and every passive key that is pressed is
    /// released, and the engine forgets all held inputs and active modifiers.
    pub fn release_all(&mut self) -> (out: Vec<Action>)
        requires
            old(self).wf(),
        ensures
            final(self).wf(),
            final(self)@.passive_rule(),
            final(self)@.consistent(),
            final(self)@.is_fresh(),
            out@ == old(self).release_all_actions(),
            exists|hn: Seq<Seq<char>>, pn: Seq<Seq<char>>|
                lists_once(hn, old(self)@.held.dom()) && lists_once(pn, old(self)@.passive.dom()) && out@
                    == #[trigger] release_all_out(old(self)@, hn, pn),
            forall|n: Seq<char>, i: int|
                old(self)@.held.contains_key(n) && 0 <= i < old(self)@.held[n].keys.len()
                    ==> out@.contains(Action::Release(#[trigger] old(self)@.held[n].keys[i])),
            forall|m: Seq<char>|
                old(self)@.passive.contains_key(m) && old(self)@.passive[m] && #[trigger] old(
                    self,
                )@.passive_key(m) is Some ==> out@.contains(
                    Action::Release(old(self)@.passive_key(m).unwrap()),
                ),
            forall|i: int| 0 <= i < out@.len() ==> #[trigger] out@[i] is Release,
            forall|k: u16, b: bool| (b ==> old(self)@.records(k)) ==> !#[trigger] key_down(b, out@, k),
            old(self)@.held == Map::<Seq<char>, HeldModel>::empty() && (forall|m: Seq<char>|
                #[trigger] old(self)@.passive.contains_key(m) ==> !old(self)@.passive[m]) ==> out@.len() == 0,
            final(self)@ == (EngineModel {
                active: Seq::empty(),
                held: Map::empty(),
                passive: Map::empty(),
                scope: Map::empty(),
                axis: Map::empty(),
                ..old(self)@
            }),
    {
        let ghost e = self@;
        proof {
            self.lemma_release_all_actions_in_order();
        }
        let mut out: Vec<Action> = Vec::new();
        let mut i: usize = 0;
        while i < self.held_states.entries.len()
            invariant
                i <= self.held_states.entries@.len(),
                out@ == release_held(self.held_states.entries@.take(i as int)),
            decreases self.held_states.entries@.len() - i,
        {
            push_releases(&mut out, &self.held_states.entries[i].1.keys);
            proof {
                let s = self.held_states.entries@;
                assert(s.take(i + 1).drop_last() =~= s.take(i as int));
            }
            i = i + 1;
        }
        assert(self.held_states.entries@.take(i as int) =~= self.held_states.entries@);
        let mut j: usize = 0;
        let ghost held_part = out@;
        while j < self.passive_key_active.entries.len()
            invariant
                j <= self.passive_key_active.entries@.len(),
                self@ == e,
                out@ == held_part + release_passive(e, self.passive_key_active.entries@.take(j as int)),
            decreases self.passive_key_active.entries@.len() - j,
        {
            if self.passive_key_active.entries[j].1 {
                match self.get_passive_key(self.passive_key_active.entries[j].0.as_str()) {
                    Some(k) => {
                        out.push(Action::Release(k));
                    },
                    None => {},
                }
            }
            proof {
                let s = self.passive_key_active.entries@;
                assert(s.take(j + 1).drop_last() =~= s.take(j as int));
            }
            j = j + 1;
        }
        assert(self.passive_key_active.entries@.take(j as int) =~= self.passive_key_active.entries@);
        proof {
            let hs = old(self).held_states.entries@;
            let ps = old(self).passive_key_active.entries@;
            assert forall|n: Seq<char>, i: int|
                old(self)@.held.contains_key(n) && 0 <= i < old(self)@.held[n].keys.len()
                implies out@.contains(Action::Release(#[trigger] old(self)@.held[n].keys[i])) by {
                crate::names::lemma_key_index_props(hs, n);
                let jj = crate::names::key_index(hs, n);
                lemma_release_held_contains(hs, jj, i);
                let idx = choose|idx: int| 0 <= idx < release_held(hs).len() && release_held(hs)[idx]
                    == Action::Release(hs[jj].1.keys@[i]);
                assert(out@[idx] == release_held(hs)[idx]);
            }
            assert forall|m: Seq<char>|
                old(self)@.passive.contains_key(m) && old(self)@.passive[m] && #[trigger] old(
                    self,
                )@.passive_key(m) is Some implies out@.contains(
                    Action::Release(old(self)@.passive_key(m).unwrap()),
                ) by {
                let k = old(self)@.passive_key(m).unwrap();
                crate::names::lemma_key_index_props(ps, m);
                let jj = crate::names::key_index(ps, m);
                lemma_release_passive_contains(e, ps, jj, k);
                let rp = release_passive(e, ps);
                let idx = choose|idx: int| 0 <= idx < rp.len() && rp[idx] == Action::Release(k);
                assert(out@[held_part.len() + idx] == rp[idx]);
            }
            lemma_release_held_only_releases(hs);
            lemma_release_passive_only_releases(e, ps);
            if old(self)@.held == Map::<Seq<char>, HeldModel>::empty() && (forall|m: Seq<char>|
                #[trigger] old(self)@.passive.contains_key(m) ==> !old(self)@.passive[m]) {
                if hs.len() > 0 {
                    crate::names::lemma_key_index_props(hs, hs[0].0@);
                    assert(old(self)@.held.contains_key(hs[0].0@));
                }
                assert(hs =~= Seq::<(String, HeldState)>::empty());
                assert forall|j: int| 0 <= j < ps.len() implies !(#[trigger] ps[j]).1 by {
                    crate::names::lemma_key_index_distinct(ps, j);
                    assert(old(self)@.passive.contains_key(ps[j].0@));
                }
                lemma_release_passive_none(e, ps);
            }
            assert forall|i: int| 0 <= i < out@.len() implies #[trigger] out@[i] is Release by {
                if i < held_part.len() {
                    assert(out@[i] == release_held(hs)[i]);
                } else {
                    assert(out@[i] == release_passive(e, ps)[i - held_part.len()]);
                }
            }
            let e0 = old(self)@;
            assert forall|k: u16, b: bool| (b ==> e0.records(k)) implies !#[trigger] key_down(b, out@, k) by {
                lemma_key_down_releases_only(b, out@, k);
                if b {
                    if exists|n: Seq<char>| #[trigger] e0.held.contains_key(n) && e0.held[n].keys.contains(k) {
                        let n = choose|n: Seq<char>| #[trigger] e0.held.contains_key(n) && e0.held[n].keys.contains(k);
                        let i = choose|i: int| 0 <= i < e0.held[n].keys.len() && e0.held[n].keys[i] == k;
                        assert(out@.contains(Action::Release(e0.held[n].keys[i])));
                    } else {
                        let m = choose|m: Seq<char>|
                            #[trigger] e0.passive.contains_key(m) && e0.passive[m] && e0.passive_key(m) == Some(k);
                        assert(e0.passive_key(m) is Some);
                        assert(out@.contains(Action::Release(e0.passive_key(m).unwrap())));
                    }
                }
            }
        }
        self.held_states.clear();
        self.passive_key_active.clear();
        self.active_modifiers.clear();
        self.modifier_scope_active.clear();
        self.axis_last_move.clear();
        proof {
            assert(self@.active =~= Seq::<Seq<char>>::empty());
            assert(self@.held =~= Map::<Seq<char>, HeldModel>::empty());
        }
        out
    }
}

/// Releasing everything a second time does nothing: once no input is held
/// and no passive flag is kept, as `release_all` leaves the engine, the list
/// of releases is empty (and `release_all` then leaves the state as it is).
pub proof fn lemma_release_all_again_releases_nothing(e: Engine)
    requires
        e.wf(),
        e@.held == Map::<Seq<char>, HeldModel>::empty(),
        e@.passive == Map::<Seq<char>, bool>::empty(),
    ensures
        e.release_all_actions() == Seq::<Action>::empty(),
{
    let hs = e.held_states.entries@;
    let ps = e.passive_key_active.entries@;
    if hs.len() > 0 {
        crate::names::lemma_key_index_props(hs, hs[0].0@);
        assert(e@.held.contains_key(hs[0].0@));
    }
    if ps.len() > 0 {
        crate::names::lemma_key_index_props(ps, ps[0].0@);
        assert(e@.passive.contains_key(ps[0].0@));
    }
    assert(hs =~= Seq::<(String, HeldState)>::empty());
    assert(ps =~= Seq::<(String, bool)>::empty());
    assert(release_held(hs) == Seq::<Action>::empty());
    assert(release_passive(e@, ps) == Seq::<Action>::empty());
    assert(e.release_all_actions() =~= Seq::<Action>::empty());
}

/// Two models with the same tables and modifier stack.
pub open spec fn same_tables(a: EngineModel, b: EngineModel) -> bool {
    &&& a.output == b.output
    &&& a.physical == b.physical
    &&& a.mappings == b.mappings
    &&& a.modifiers == b.modifiers
    &&& a.active == b.active
}

proof fn lemma_same_tables_override(a: EngineModel, b: EngineModel, i: int, n: Seq<char>)
    requires
        same_tables(a, b),
    ensures
        a.override_in(i, n) == b.override_in(i, n),
    decreases i,
{
    if i > 0 {
        lemma_same_tables_override(a, b, i - 1, n);
    }
}

proof fn lemma_same_tables_output_keys(a: EngineModel, b: EngineModel, ts: Seq<Seq<char>>)
    requires
        same_tables(a, b),
    ensures
        a.output_keys(ts) == b.output_keys(ts),
    decreases ts.len(),
{
    if ts.len() > 0 {
        lemma_same_tables_output_keys(a, b, ts.drop_last());
    }
}

proof fn lemma_same_tables_plan_many(a: EngineModel, b: EngineModel, ts: Seq<Seq<char>>, p: PlanModel)
    requires
        same_tables(a, b),
    ensures
        a.plan_many(ts, p) == b.plan_many(ts, p),
    decreases ts.len(),
{
    if ts.len() > 0 {
        lemma_same_tables_plan_many(a, b, ts.drop_last(), p);
    }
}

/// What a press plans depends only on the tables and the modifier stack.
proof fn lemma_same_tables_plan(a: EngineModel, b: EngineModel, n: Seq<char>)
    requires
        same_tables(a, b),
    ensures
        a.plan_down(n) == b.plan_down(n),
        a.effective(n) == b.effective(n),
{
    lemma_same_tables_override(a, b, a.active.len() as int, n);
    match a.effective(n) {
        Some(e) => {
            match e.def {
                MappingDef::Multi(ts) => {
                    lemma_same_tables_output_keys(a, b, names_of(ts@));
                },
                MappingDef::Complex(c) => {
                    match c.input_simple {
                        Some(InputSimple::Many(ts)) => {
                            let p = PlanModel::empty();
                            let p1 = if c.input_passthrough && a.physical.contains_key(n) {
                                PlanModel { held: p.held.push(a.physical[n]), ..p }
                            } else {
                                p
                            };
                            lemma_same_tables_plan_many(a, b, names_of(ts@), p1);
                        },
                        _ => {},
                    }
                },
                _ => {},
            }
        },
        None => {},
    }
}

/// A release is symmetric to its press: the keys that pressing `n` held are
/// recorded, and releasing `n` later lets go of exactly those keys first, in
/// the same order, however the modifiers changed in between (as long as `n`
/// itself was not pressed or released again).
pub proof fn lemma_release_is_symmetric(e: EngineModel, later: EngineModel, n: Seq<char>)
    requires
        later.held.contains_key(n),
        e.button_down(n).0.held.contains_key(n),
        later.held[n] == e.button_down(n).0.held[n],
    ensures
        ({
            let ks = e.plan_down(n).held;
            let w: int = if e.plan_down(n).unimplemented { 1 } else { 0 };
            &&& e.button_down(n).1.len() >= w + ks.len()
            &&& forall|i: int| 0 <= i < ks.len() ==> #[trigger] e.button_down(n).1[w + i] == Action::Press(ks[i])
            &&& later.button_up(n).1.len() >= ks.len()
            &&& forall|i: int| 0 <= i < ks.len() ==> #[trigger] later.button_up(n).1[i] == Action::Release(ks[i])
        }),
{
    let p = e.plan_down(n);
    let ks = p.held;
    let w: int = if p.unimplemented { 1 } else { 0 };
    let (e1, o1) = e.enter_scope(p.scope);
    let (e2, o2) = e1.activate(p.activate);
    assert(e.button_down(n).0.held[n].keys == ks);
    let warn: Seq<Action> = if p.unimplemented { seq![Action::Unimplemented] } else { Seq::empty() };
    assert(e.button_down(n).1 == warn + presses(ks) + taps(p.down) + o1 + o2);
    assert forall|i: int| 0 <= i < ks.len() implies #[trigger] e.button_down(n).1[w + i] == Action::Press(ks[i]) by {
        assert((warn + presses(ks) + taps(p.down) + o1 + o2)[w + i] == presses(ks)[i]);
    }
    let st = later.held[n];
    let l0 = EngineModel { held: later.held.remove(n), ..later };
    let (l1, u1) = l0.leave_scope(st.scope);
    let (l2, u2) = l1.deactivate(st.activated);
    assert(later.button_up(n).1 == releases(st.keys) + u1 + u2 + taps(st.on_up));
    assert forall|i: int| 0 <= i < ks.len() implies #[trigger] later.button_up(n).1[i] == Action::Release(ks[i]) by {
        assert((releases(st.keys) + u1 + u2 + taps(st.on_up))[i] == releases(st.keys)[i]);
    }
}

/// The most recently activated modifier wins: when it overrides `n`, its
/// override is the mapping in effect.
pub proof fn lemma_latest_modifier_wins(e: EngineModel, n: Seq<char>)
    requires
        e.active.len() > 0,
        e.modifiers.contains_key(e.active.last()),
        e.modifiers[e.active.last()].entries@.contains_key(n),
    ensures
        e.effective(n) == Some(
            Effective { def: e.modifiers[e.active.last()].entries@[n], source: Some(e.active.last()) },
        ),
{
}

/// An input without any mapping in effect passes its own key through: its
/// press presses that key and its release releases it.
pub proof fn lemma_unmapped_input_passes_through(e: EngineModel, n: Seq<char>)
    requires
        e.effective(n) is None,
        e.physical.contains_key(n),
    ensures
        e.button_down(n).1 == seq![Action::Press(e.physical[n])],
        e.button_down(n).0.button_up(n).1 == seq![Action::Release(e.physical[n])],
{
    let k = e.physical[n];
    let p = e.plan_down(n);
    assert(p.held == seq![k]);
    assert(presses(seq![k]) =~= seq![Action::Press(k)]);
    assert(taps(Seq::<u16>::empty()) == Seq::<Action>::empty());
    assert(e.button_down(n).1 =~= seq![Action::Press(k)]);
    let e1 = e.button_down(n).0;
    assert(e1.held[n] == HeldModel { keys: seq![k], activated: None, scope: None, on_up: Seq::empty() });
    assert(releases(seq![k]) =~= seq![Action::Release(k)]);
    assert(e1.button_up(n).1 =~= seq![Action::Release(k)]);
}

/// An override always comes from a modifier on the stack.
proof fn lemma_override_is_active(e: EngineModel, i: int, n: Seq<char>)
    requires
        0 <= i <= e.active.len(),
        e.override_in(i, n) is Some,
    ensures
        e.active.contains(e.override_in(i, n)->Some_0.1),
    decreases i,
{
    if i > 0 {
        let m = e.active[i - 1];
        if e.modifiers.contains_key(m) && e.modifiers[m].entries@.contains_key(n) {
            assert(e.active[i - 1] == m);
        } else {
            lemma_override_is_active(e, i - 1, n);
        }
    }
}

/// Once an input is released, the engine no longer holds it.
pub proof fn lemma_release_forgets_input(e: EngineModel, n: Seq<char>)
    ensures
        !e.button_up(n).0.held.contains_key(n),
{
}

/// Holding an input resolved under a modifier's override lets go of that
/// modifier's passive key, and releasing it presses the passive key again
/// (when no other input holds the override and the press activates nothing).
pub proof fn lemma_override_suppresses_passive_key(e: EngineModel, n: Seq<char>)
    requires
        e.plan_down(n).scope is Some,
        e.plan_down(n).activate is None,
        !e.scope.contains_key(e.plan_down(n).scope->Some_0) || e.scope[e.plan_down(n).scope->Some_0] == 0,
        e.passive.contains_key(e.plan_down(n).scope->Some_0),
        e.passive[e.plan_down(n).scope->Some_0],
        e.passive_key(e.plan_down(n).scope->Some_0) is Some,
    ensures
        ({
            let m = e.plan_down(n).scope->Some_0;
            let k = e.passive_key(m)->Some_0;
            let (e1, down) = e.button_down(n);
            let (e2, up) = e1.button_up(n);
            &&& down.contains(Action::Release(k))
            &&& e1.passive[m] == false
            &&& up.contains(Action::Press(k))
            &&& e2.passive[m] == true
        }),
{
    let p = e.plan_down(n);
    let m = p.scope->Some_0;
    let k = e.passive_key(m)->Some_0;
    match e.effective(n) {
        Some(eff) => {
            lemma_override_is_active(e, e.active.len() as int, n);
        },
        None => {},
    }
    assert(e.active.contains(m));
    let (s1, o1) = e.enter_scope(p.scope);
    assert(o1 == seq![Action::Release(k)]);
    let (s2, o2) = s1.activate(p.activate);
    let (e1, down) = e.button_down(n);
    let warn: Seq<Action> = if p.unimplemented { seq![Action::Unimplemented] } else { Seq::empty() };
    assert(down == warn + presses(p.held) + taps(p.down) + o1 + o2);
    assert(down[(warn.len() + presses(p.held).len() + taps(p.down).len()) as int] == Action::Release(k));
    let st = e1.held[n];
    let l0 = EngineModel { held: e1.held.remove(n), ..e1 };
    let (l1, u1) = l0.leave_scope(st.scope);
    assert(l0.active.contains(m));
    assert(u1 == seq![Action::Press(k)]);
    let (l2, u2) = l1.deactivate(st.activated);
    let (e2, up) = e1.button_up(n);
    assert(up == releases(st.keys) + u1 + u2 + taps(st.on_up));
    assert(up[releases(st.keys).len() as int] == Action::Press(k));
}

proof fn lemma_rule_same(a: EngineModel, b: EngineModel)
    requires
        a.passive_rule(),
        a.scope == b.scope,
        a.passive == b.passive,
    ensures
        b.passive_rule(),
{
    assert forall|q: Seq<char>| #[trigger] b.in_scope(q) implies !(b.passive.contains_key(q) && b.passive[q]) by {
        assert(a.in_scope(q));
    }
}

proof fn lemma_rule_enter_scope(e: EngineModel, scope: Option<Seq<char>>)
    requires
        e.passive_rule(),
    ensures
        e.enter_scope(scope).0.passive_rule(),
{
    let r = e.enter_scope(scope).0;
    assert forall|q: Seq<char>| #[trigger] r.in_scope(q) implies !(r.passive.contains_key(q) && r.passive[q]) by {
        if e.in_scope(q) {
            assert(!(e.passive.contains_key(q) && e.passive[q]));
        }
    }
}

proof fn lemma_rule_activate(e: EngineModel, act: Option<Seq<char>>)
    requires
        e.passive_rule(),
    ensures
        e.activate(act).0.passive_rule(),
{
    let r = e.activate(act).0;
    assert forall|q: Seq<char>| #[trigger] r.in_scope(q) implies !(r.passive.contains_key(q) && r.passive[q]) by {
        assert(e.in_scope(q));
    }
}

proof fn lemma_rule_leave_scope(e: EngineModel, scope: Option<Seq<char>>)
    requires
        e.passive_rule(),
    ensures
        e.leave_scope(scope).0.passive_rule(),
{
    let r = e.leave_scope(scope).0;
    assert forall|q: Seq<char>| #[trigger] r.in_scope(q) implies !(r.passive.contains_key(q) && r.passive[q]) by {
        assert(e.in_scope(q));
    }
}

proof fn lemma_rule_deactivate(e: EngineModel, act: Option<Seq<char>>)
    requires
        e.passive_rule(),
    ensures
        e.deactivate(act).0.passive_rule(),
{
    let r = e.deactivate(act).0;
    assert forall|q: Seq<char>| #[trigger] r.in_scope(q) implies !(r.passive.contains_key(q) && r.passive[q]) by {
        assert(e.in_scope(q));
    }
}

proof fn lemma_rule_execute(e: EngineModel, n: Seq<char>, p: PlanModel)
    requires
        e.passive_rule(),
    ensures
        e.execute(n, p).0.passive_rule(),
{
    lemma_rule_enter_scope(e, p.scope);
    let e1 = e.enter_scope(p.scope).0;
    lemma_rule_activate(e1, p.activate);
    let e2 = e1.activate(p.activate).0;
    let r = e.execute(n, p).0;
    assert forall|q: Seq<char>| #[trigger] r.in_scope(q) implies !(r.passive.contains_key(q) && r.passive[q]) by {
        assert(e2.in_scope(q));
    }
}

proof fn lemma_rule_button_up(e: EngineModel, n: Seq<char>)
    requires
        e.passive_rule(),
    ensures
        e.button_up(n).0.passive_rule(),
{
    let st = if e.held.contains_key(n) {
        e.held[n]
    } else {
        HeldModel::empty()
    };
    let e0 = EngineModel { held: e.held.remove(n), ..e };
    assert forall|q: Seq<char>| #[trigger] e0.in_scope(q) implies !(e0.passive.contains_key(q) && e0.passive[q]) by {
        assert(e.in_scope(q));
    }
    lemma_rule_leave_scope(e0, st.scope);
    lemma_rule_deactivate(e0.leave_scope(st.scope).0, st.activated);
}

/// Carrying out any plan, whatever modifier it activates and under whatever
/// modifier's overrides it was resolved, keeps a modifier's passive key let
/// go while inputs are held under its overrides.
pub proof fn lemma_any_plan_keeps_passive_rule(e: EngineModel, n: Seq<char>, p: PlanModel)
    requires
        e.passive_rule(),
    ensures
        e.execute(n, p).0.passive_rule(),
{
    lemma_rule_execute(e, n, p);
}

/// A modifier's passive key is never marked pressed while an input is held
/// under its overrides: every operation of the engine keeps this so.
pub proof fn lemma_passive_suppressed_in_scope(e: EngineModel, n: Seq<char>, timeout: u64, now: u64)
    requires
        e.passive_rule(),
    ensures
        e.button_down(n).0.passive_rule(),
        e.button_up(n).0.passive_rule(),
        e.axis_move(n, now).0.passive_rule(),
        e.axis_release_maybe(n, timeout, now).0.passive_rule(),
{
    lemma_rule_execute(e, n, e.plan_down(n));
    lemma_rule_button_up(e, n);
    let e1 = EngineModel { axis: e.axis.insert(n, now), ..e };
    assert forall|q: Seq<char>| #[trigger] e1.in_scope(q) implies !(e1.passive.contains_key(q) && e1.passive[q]) by {
        assert(e.in_scope(q));
    }
    lemma_rule_execute(e1, n, e1.plan_down(n));
    let u = e.button_up(n).0;
    let u1 = EngineModel { axis: u.axis.remove(n), ..u };
    assert forall|q: Seq<char>| #[trigger] u1.in_scope(q) implies !(u1.passive.contains_key(q) && u1.passive[q]) by {
        assert(u.in_scope(q));
    }
}

proof fn lemma_release_passive_none(e: EngineModel, s: Seq<(String, bool)>)
    requires
        forall|j: int| 0 <= j < s.len() ==> !(#[trigger] s[j]).1,
    ensures
        release_passive(e, s).len() == 0,
    decreases s.len(),
{
    if s.len() > 0 {
        assert(!s[s.len() - 1].1);
        assert forall|j: int| 0 <= j < s.drop_last().len() implies !(#[trigger] s.drop_last()[j]).1 by {
            assert(s.drop_last()[j] == s[j]);
        }
        lemma_release_passive_none(e, s.drop_last());
    }
}

/// One call on the engine, as the model sees it.
pub enum EngineOp {
    Down(Seq<char>),
    Up(Seq<char>),
    AxisMove(Seq<char>, u64),
    AxisRelease(Seq<char>, u64, u64),
    Relay(u16, i32),
}

/// The input a call names, if any.
pub open spec fn op_input(op: EngineOp) -> Option<Seq<char>> {
    match op {
        EngineOp::Down(n) => Some(n),
        EngineOp::Up(n) => Some(n),
        EngineOp::AxisMove(n, _) => Some(n),
        EngineOp::AxisRelease(n, _, _) => Some(n),
        EngineOp::Relay(_, _) => None,
    }
}

/// The state after one call.
pub open spec fn op_step(e: EngineModel, op: EngineOp) -> EngineModel {
    match op {
        EngineOp::Down(n) => e.button_down(n).0,
        EngineOp::Up(n) => e.button_up(n).0,
        EngineOp::AxisMove(n, now) => e.axis_move(n, now).0,
        EngineOp::AxisRelease(n, timeout, now) => e.axis_release_maybe(n, timeout, now).0,
        EngineOp::Relay(_, _) => e,
    }
}

/// The state after a sequence of calls.
pub open spec fn run_ops(e: EngineModel, ops: Seq<EngineOp>) -> EngineModel
    decreases ops.len(),
{
    if ops.len() == 0 {
        e
    } else {
        op_step(run_ops(e, ops.drop_last()), ops.last())
    }
}

proof fn lemma_step_keeps_record(e: EngineModel, op: EngineOp, x: Seq<char>)
    requires
        op_input(op) != Some(x),
    ensures
        op_step(e, op).held.contains_key(x) == e.held.contains_key(x),
        e.held.contains_key(x) ==> op_step(e, op).held[x] == e.held[x],
{
    match op {
        EngineOp::Down(n) => {
            let p = e.plan_down(n);
            let e1 = e.enter_scope(p.scope).0;
            let e2 = e1.activate(p.activate).0;
            assert(e2.held == e.held);
        },
        EngineOp::Up(n) => {
            let st = if e.held.contains_key(n) { e.held[n] } else { HeldModel::empty() };
            let e0 = EngineModel { held: e.held.remove(n), ..e };
            let e1 = e0.leave_scope(st.scope).0;
            assert(e1.held == e0.held);
            assert(e1.deactivate(st.activated).0.held == e0.held);
        },
        EngineOp::AxisMove(n, now) => {
            let e1 = EngineModel { axis: e.axis.insert(n, now), ..e };
            if !(e.effective(n) is None) && !e1.held.contains_key(n) {
                let p = e1.plan_down(n);
                let f1 = e1.enter_scope(p.scope).0;
                let f2 = f1.activate(p.activate).0;
                assert(f2.held == e.held);
            }
        },
        EngineOp::AxisRelease(n, timeout, now) => {
            let st = if e.held.contains_key(n) { e.held[n] } else { HeldModel::empty() };
            let e0 = EngineModel { held: e.held.remove(n), ..e };
            let e1 = e0.leave_scope(st.scope).0;
            assert(e1.held == e0.held);
            assert(e1.deactivate(st.activated).0.held == e0.held);
        },
        EngineOp::Relay(_, _) => {},
    }
}

/// Calls on other inputs leave an input's press record as it is.
pub proof fn lemma_other_inputs_keep_record(e: EngineModel, ops: Seq<EngineOp>, x: Seq<char>)
    requires
        forall|i: int| 0 <= i < ops.len() ==> op_input(#[trigger] ops[i]) != Some(x),
    ensures
        run_ops(e, ops).held.contains_key(x) == e.held.contains_key(x),
        e.held.contains_key(x) ==> run_ops(e, ops).held[x] == e.held[x],
    decreases ops.len(),
{
    if ops.len() > 0 {
        assert forall|i: int| 0 <= i < ops.drop_last().len() implies op_input(#[trigger] ops.drop_last()[i])
            != Some(x) by {
            assert(ops.drop_last()[i] == ops[i]);
        }
        lemma_other_inputs_keep_record(e, ops.drop_last(), x);
        assert(op_input(ops[ops.len() - 1]) != Some(x));
        lemma_step_keeps_record(run_ops(e, ops.drop_last()), ops.last(), x);
    }
}

/// The keys that pressing `x` held are the first ones its release lets go,
/// in order, whatever calls on other inputs (and modifier changes) came in
/// between; afterwards `x` is no longer held.
pub proof fn lemma_release_after_other_inputs(e: EngineModel, ops: Seq<EngineOp>, x: Seq<char>)
    requires
        forall|i: int| 0 <= i < ops.len() ==> op_input(#[trigger] ops[i]) != Some(x),
    ensures
        ({
            let ks = e.plan_down(x).held;
            let later = run_ops(e.button_down(x).0, ops);
            &&& later.button_up(x).1.len() >= ks.len()
            &&& forall|i: int| 0 <= i < ks.len() ==> #[trigger] later.button_up(x).1[i] == Action::Release(ks[i])
            &&& !later.button_up(x).0.held.contains_key(x)
        }),
{
    let e1 = e.button_down(x).0;
    let p = e.plan_down(x);
    let f1 = e.enter_scope(p.scope).0;
    let f2 = f1.activate(p.activate).0;
    assert(e1.held.contains_key(x));
    lemma_other_inputs_keep_record(e1, ops, x);
    let later = run_ops(e1, ops);
    lemma_release_is_symmetric(e, later, x);
}

pub open spec fn opt_view_ref(s: Option<&String>) -> Option<Seq<char>> {
    match s {
        Some(t) => Some(t@),
        None => None,
    }
}


impl EngineModel {
    /// How many held inputs are resolved under `m`'s overrides, none where
    /// no count is kept.
    pub open spec fn scope_count(self, m: Seq<char>) -> usize {
        if self.scope.contains_key(m) {
            self.scope[m]
        } else {
            0usize
        }
    }

    /// The modifier bookkeeping agrees with the stack: only active modifiers
    /// with a passive key carry a passive flag, only active modifiers have
    /// overrides held, and an active modifier with a passive key has its
    /// flag, set while none of its overrides is held.
    pub open spec fn consistent(self) -> bool {
        &&& forall|m: Seq<char>| #[trigger] self.passive.contains_key(m) ==> self.active.contains(m)
        &&& forall|m: Seq<char>| #[trigger] self.passive.contains_key(m) ==> self.passive_key(m) is Some
        &&& forall|m: Seq<char>| #[trigger] self.in_scope(m) ==> self.active.contains(m)
        &&& forall|m: Seq<char>|
            #![trigger self.active.contains(m)]
            self.active.contains(m) && self.passive_key(m) is Some ==> self.passive.contains_key(m)
        &&& forall|m: Seq<char>|
            #![trigger self.active.contains(m)]
            self.active.contains(m) && self.passive_key(m) is Some && !self.in_scope(m) ==> self.passive[m]
    }
}

proof fn lemma_without_contains(s: Seq<Seq<char>>, m: Seq<char>, q: Seq<char>)
    ensures
        without(s, m).contains(q) <==> (s.contains(q) && q != m),
    decreases s.len(),
{
    if s.len() > 0 {
        let d = s.drop_last();
        lemma_without_contains(d, m, q);
        let w = without(d, m);
        let ws = without(s, m);
        if s.contains(q) && q != m {
            let i = choose|i: int| 0 <= i < s.len() && s[i] == q;
            if i < s.len() - 1 {
                assert(d[i] == q);
                assert(w.contains(q));
                let j = choose|j: int| 0 <= j < w.len() && w[j] == q;
                if s.last() != m {
                    assert(ws == w.push(s.last()));
                    assert(ws[j] == q);
                } else {
                    assert(ws == w);
                }
            } else {
                assert(s.last() == q);
                assert(ws == w.push(s.last()));
                assert(ws[w.len() as int] == q);
            }
            assert(ws.contains(q));
        }
        if ws.contains(q) {
            let i = choose|i: int| 0 <= i < ws.len() && ws[i] == q;
            if s.last() != m {
                assert(ws == w.push(s.last()));
                if i < w.len() {
                    assert(w[i] == q);
                    assert(w.contains(q));
                    let j = choose|j: int| 0 <= j < d.len() && d[j] == q;
                    assert(s[j] == q);
                } else {
                    assert(s[s.len() - 1] == q);
                }
            } else {
                assert(ws == w);
                assert(w[i] == q);
                assert(w.contains(q));
                let j = choose|j: int| 0 <= j < d.len() && d[j] == q;
                assert(s[j] == q);
            }
            assert(s.contains(q) && q != m);
        }
    }
}

proof fn lemma_without_absent(s: Seq<Seq<char>>, m: Seq<char>)
    requires
        !s.contains(m),
    ensures
        without(s, m) == s,
    decreases s.len(),
{
    if s.len() > 0 {
        assert(!s.drop_last().contains(m)) by {
            if s.drop_last().contains(m) {
                let j = choose|j: int| 0 <= j < s.drop_last().len() && s.drop_last()[j] == m;
                assert(s[j] == m);
            }
        }
        lemma_without_absent(s.drop_last(), m);
        assert(s.last() != m) by {
            assert(s[s.len() - 1] == s.last());
        }
        assert(s.drop_last().push(s.last()) =~= s);
    }
}

proof fn lemma_push_contains(s: Seq<Seq<char>>, m: Seq<char>, q: Seq<char>)
    ensures
        s.push(m).contains(q) <==> (s.contains(q) || q == m),
{
    if s.contains(q) {
        let i = choose|i: int| 0 <= i < s.len() && s[i] == q;
        assert(s.push(m)[i] == q);
    }
    if q == m {
        assert(s.push(m)[s.len() as int] == q);
    }
    if s.push(m).contains(q) && q != m {
        let i = choose|i: int| 0 <= i < s.push(m).len() && s.push(m)[i] == q;
        assert(s[i] == q);
    }
}

proof fn lemma_consistent_enter_scope(e: EngineModel, scope: Option<Seq<char>>)
    requires
        e.consistent(),
        e.scope_room(scope),
        scope matches Some(m) ==> e.active.contains(m),
    ensures
        e.enter_scope(scope).0.consistent(),
{
    let r = e.enter_scope(scope).0;
    assert forall|q: Seq<char>| #[trigger] r.in_scope(q) implies r.active.contains(q) by {
        if !e.in_scope(q) {
            assert(scope == Some(q));
        }
    }
    assert forall|q: Seq<char>|
        #![trigger r.active.contains(q)]
        r.active.contains(q) && r.passive_key(q) is Some && !r.in_scope(q) implies r.passive[q] by {
        assert(e.passive_key(q) == r.passive_key(q));
        if scope != Some(q) {
            assert(!e.in_scope(q));
        }
    }
}

proof fn lemma_consistent_activate(e: EngineModel, act: Option<Seq<char>>)
    requires
        e.consistent(),
    ensures
        e.activate(act).0.consistent(),
{
    let r = e.activate(act).0;
    if let Some(m) = act {
        assert forall|q: Seq<char>| #[trigger] r.active.contains(q) <==> (e.active.contains(q) || q == m) by {
            lemma_push_contains(e.active, m, q);
        }
        assert forall|q: Seq<char>| #[trigger] r.passive.contains_key(q) implies r.active.contains(q) by {
            if q != m {
                assert(e.passive.contains_key(q));
            }
        }
        assert forall|q: Seq<char>| #[trigger] r.in_scope(q) implies r.active.contains(q) by {
            assert(e.in_scope(q));
        }
        assert forall|q: Seq<char>|
            #![trigger r.active.contains(q)]
            r.active.contains(q) && r.passive_key(q) is Some implies r.passive.contains_key(q) by {
            assert(e.passive_key(q) == r.passive_key(q));
            if q == m && !e.active.contains(q) {
                assert(!e.in_scope(q));
            }
        }
        assert forall|q: Seq<char>|
            #![trigger r.active.contains(q)]
            r.active.contains(q) && r.passive_key(q) is Some && !r.in_scope(q) implies r.passive[q] by {
            assert(e.passive_key(q) == r.passive_key(q));
            assert(!e.in_scope(q));
        }
    }
}

proof fn lemma_consistent_leave_scope(e: EngineModel, scope: Option<Seq<char>>)
    requires
        e.consistent(),
    ensures
        e.leave_scope(scope).0.consistent(),
{
    let r = e.leave_scope(scope).0;
    assert forall|q: Seq<char>| #[trigger] r.in_scope(q) implies r.active.contains(q) by {
        assert(e.in_scope(q));
    }
    assert forall|q: Seq<char>|
        #![trigger r.active.contains(q)]
        r.active.contains(q) && r.passive_key(q) is Some && !r.in_scope(q) implies r.passive[q] by {
        assert(e.passive_key(q) == r.passive_key(q));
        assert(e.active.contains(q));
    }
}

proof fn lemma_consistent_deactivate(e: EngineModel, act: Option<Seq<char>>)
    requires
        e.consistent(),
    ensures
        e.deactivate(act).0.consistent(),
{
    let r = e.deactivate(act).0;
    if let Some(m) = act {
        assert forall|q: Seq<char>| #[trigger] r.active.contains(q) <==> (e.active.contains(q) && q != m) by {
            lemma_without_contains(e.active, m, q);
        }
        assert forall|q: Seq<char>| #[trigger] r.passive.contains_key(q) implies r.active.contains(q) by {
            assert(e.passive.contains_key(q));
        }
        assert forall|q: Seq<char>| #[trigger] r.in_scope(q) implies r.active.contains(q) by {
            assert(e.in_scope(q));
        }
        assert forall|q: Seq<char>|
            #![trigger r.active.contains(q)]
            r.active.contains(q) && r.passive_key(q) is Some implies r.passive.contains_key(q) by {
            assert(e.passive_key(q) == r.passive_key(q));
            assert(e.active.contains(q));
        }
        assert forall|q: Seq<char>|
            #![trigger r.active.contains(q)]
            r.active.contains(q) && r.passive_key(q) is Some && !r.in_scope(q) implies r.passive[q] by {
            assert(e.passive_key(q) == r.passive_key(q));
            assert(e.active.contains(q));
            assert(!e.in_scope(q));
        }
    }
}

proof fn lemma_consistent_same(a: EngineModel, b: EngineModel)
    requires
        a.consistent(),
        a.active == b.active,
        a.passive == b.passive,
        a.scope == b.scope,
        a.modifiers == b.modifiers,
        a.output == b.output,
    ensures
        b.consistent(),
{
    assert forall|q: Seq<char>| #[trigger] b.in_scope(q) implies b.active.contains(q) by {
        assert(a.in_scope(q));
    }
    assert forall|q: Seq<char>|
        #![trigger b.active.contains(q)]
        b.active.contains(q) && b.passive_key(q) is Some implies b.passive.contains_key(q) by {
        assert(a.passive_key(q) == b.passive_key(q));
        assert(a.active.contains(q));
    }
    assert forall|q: Seq<char>|
        #![trigger b.active.contains(q)]
        b.active.contains(q) && b.passive_key(q) is Some && !b.in_scope(q) implies b.passive[q] by {
        assert(a.passive_key(q) == b.passive_key(q));
        assert(a.active.contains(q));
        assert(!a.in_scope(q));
    }
}

proof fn lemma_plan_scope_active(e: EngineModel, n: Seq<char>)
    ensures
        e.plan_down(n).scope matches Some(m) ==> e.active.contains(m),
{
    if e.override_in(e.active.len() as int, n) is Some {
        lemma_override_is_active(e, e.active.len() as int, n);
    }
}

proof fn lemma_consistent_button_down(e: EngineModel, n: Seq<char>)
    requires
        e.consistent(),
        e.room_for_press(n),
    ensures
        e.button_down(n).0.consistent(),
{
    let p = e.plan_down(n);
    lemma_plan_scope_active(e, n);
    lemma_consistent_enter_scope(e, p.scope);
    let e1 = e.enter_scope(p.scope).0;
    lemma_consistent_activate(e1, p.activate);
    let e2 = e1.activate(p.activate).0;
    lemma_consistent_same(e2, e.button_down(n).0);
}

proof fn lemma_consistent_button_up(e: EngineModel, n: Seq<char>)
    requires
        e.consistent(),
    ensures
        e.button_up(n).0.consistent(),
{
    let st = if e.held.contains_key(n) {
        e.held[n]
    } else {
        HeldModel::empty()
    };
    let e0 = EngineModel { held: e.held.remove(n), ..e };
    lemma_consistent_same(e, e0);
    lemma_consistent_leave_scope(e0, st.scope);
    lemma_consistent_deactivate(e0.leave_scope(st.scope).0, st.activated);
}

/// The modifier bookkeeping stays consistent: a new engine is (see `new`),
/// every press, release and axis operation keeps it so, and `release_all`
/// leaves it consistent.
pub proof fn lemma_bookkeeping_kept(e: EngineModel, n: Seq<char>, timeout: u64, now: u64)
    requires
        e.consistent(),
    ensures
        e.room_for_press(n) ==> e.button_down(n).0.consistent(),
        e.button_up(n).0.consistent(),
        e.room_for_press(n) ==> e.axis_move(n, now).0.consistent(),
        e.axis_release_maybe(n, timeout, now).0.consistent(),
{
    if e.room_for_press(n) {
        lemma_consistent_button_down(e, n);
        let e1 = EngineModel { axis: e.axis.insert(n, now), ..e };
        lemma_consistent_same(e, e1);
        lemma_same_tables_plan(e, e1, n);
        lemma_consistent_button_down(e1, n);
    }
    lemma_consistent_button_up(e, n);
    let u = e.button_up(n).0;
    lemma_consistent_same(u, EngineModel { axis: u.axis.remove(n), ..u });
}

/// How many times `out` presses `k`.
pub open spec fn press_count(out: Seq<Action>, k: u16) -> nat
    decreases out.len(),
{
    if out.len() == 0 {
        0
    } else {
        press_count(out.drop_last(), k) + if out.last() == Action::Press(k) {
            1nat
        } else {
            0nat
        }
    }
}

/// How many times `out` releases `k`.
pub open spec fn release_count(out: Seq<Action>, k: u16) -> nat
    decreases out.len(),
{
    if out.len() == 0 {
        0
    } else {
        release_count(out.drop_last(), k) + if out.last() == Action::Release(k) {
            1nat
        } else {
            0nat
        }
    }
}

proof fn lemma_counts_add(a: Seq<Action>, b: Seq<Action>, k: u16)
    ensures
        press_count(a + b, k) == press_count(a, k) + press_count(b, k),
        release_count(a + b, k) == release_count(a, k) + release_count(b, k),
    decreases b.len(),
{
    if b.len() == 0 {
        assert(a + b =~= a);
    } else {
        lemma_counts_add(a, b.drop_last(), k);
        assert((a + b).drop_last() =~= a + b.drop_last());
        assert((a + b).last() == b.last());
    }
}

proof fn lemma_counts_one(x: Action, k: u16)
    ensures
        press_count(seq![x], k) == (if x == Action::Press(k) { 1nat } else { 0nat }),
        release_count(seq![x], k) == (if x == Action::Release(k) { 1nat } else { 0nat }),
{
    assert(seq![x].drop_last() =~= Seq::<Action>::empty());
    assert(press_count(Seq::<Action>::empty(), k) == 0);
    assert(release_count(Seq::<Action>::empty(), k) == 0);
}

proof fn lemma_counts_empty(k: u16)
    ensures
        press_count(Seq::<Action>::empty(), k) == 0,
        release_count(Seq::<Action>::empty(), k) == 0,
{
}

proof fn lemma_counts_presses(s: Seq<u16>, k: u16)
    ensures
        press_count(presses(s), k) == release_count(releases(s), k),
        release_count(presses(s), k) == 0,
        press_count(releases(s), k) == 0,
    decreases s.len(),
{
    if s.len() > 0 {
        lemma_counts_presses(s.drop_last(), k);
        assert(presses(s).drop_last() =~= presses(s.drop_last()));
        assert(releases(s).drop_last() =~= releases(s.drop_last()));
        assert(presses(s).last() == Action::Press(s.last()));
        assert(releases(s).last() == Action::Release(s.last()));
    }
}

proof fn lemma_counts_taps(s: Seq<u16>, k: u16)
    ensures
        press_count(taps(s), k) == release_count(taps(s), k),
    decreases s.len(),
{
    if s.len() > 0 {
        lemma_counts_taps(s.drop_last(), k);
        let pair = seq![Action::Press(s.last()), Action::Release(s.last())];
        lemma_counts_add(taps(s.drop_last()), pair, k);
        lemma_counts_add(seq![Action::Press(s.last())], seq![Action::Release(s.last())], k);
        assert(seq![Action::Press(s.last())] + seq![Action::Release(s.last())] =~= pair);
        lemma_counts_one(Action::Press(s.last()), k);
        lemma_counts_one(Action::Release(s.last()), k);
    }
}

/// Pressing an input and releasing it straight away leaves the engine as it
/// was and lets go of every key it pressed: over the two calls each key is
/// released as often as it is pressed, and the modifier stack, the held
/// inputs, the passive flags, the axis times and the held-override counts
/// (a missing count read as 0) are as before. This holds where the input is
/// not already held and its press activates no modifier that is already
/// active (an active one is also any that supplies its mapping).
pub proof fn lemma_press_release_round_trip(e: EngineModel, x: Seq<char>)
    requires
        e.consistent(),
        e.passive_rule(),
        e.room_for_press(x),
        !e.held.contains_key(x),
        e.plan_down(x).activate matches Some(m) ==> !e.active.contains(m),
    ensures
        ({
            let (e1, down) = e.button_down(x);
            let (e2, up) = e1.button_up(x);
            &&& e2.active == e.active
            &&& e2.held == e.held
            &&& e2.passive == e.passive
            &&& forall|m: Seq<char>| #[trigger] e2.scope_count(m) == e.scope_count(m)
            &&& e2.axis == e.axis
            &&& forall|k: u16| #[trigger] press_count(down + up, k) == release_count(down + up, k)
        }),
{
    let p = e.plan_down(x);
    lemma_plan_scope_active(e, x);
    let (a1, oe) = e.enter_scope(p.scope);
    let (a2, oa) = a1.activate(p.activate);
    let h = HeldModel { keys: p.held, activated: p.activate, scope: p.scope, on_up: p.up };
    let e1 = EngineModel { held: a2.held.insert(x, h), ..a2 };
    let warn: Seq<Action> = if p.unimplemented {
        seq![Action::Unimplemented]
    } else {
        Seq::empty()
    };
    let pr = presses(p.held);
    let td = taps(p.down);
    let down = e.button_down(x).1;
    assert(e.button_down(x).0 == e1);
    assert(down == warn + pr + td + oe + oa);
    let l0 = EngineModel { held: e1.held.remove(x), ..e1 };
    assert(l0.held =~= e.held);
    let (l1, ol) = l0.leave_scope(p.scope);
    let (l2, od) = l1.deactivate(p.activate);
    let rl = releases(p.held);
    let tu = taps(p.up);
    let up = e1.button_up(x).1;
    assert(e1.held.contains_key(x) && e1.held[x] == h);
    assert(e1.button_up(x).0 == l2);
    assert(up == rl + ol + od + tu);
    // The modifier whose override the press was resolved under.
    match p.scope {
        Some(sm) => {
            assert(e.active.contains(sm));
            let cur = e.scope_count(sm);
            assert(l1.scope == e.scope.insert(sm, cur));
            assert(p.activate matches Some(m) ==> m != sm);
            if cur == 0 {
                assert(!e.in_scope(sm));
                match e.passive_key(sm) {
                    Some(ks) => {
                        assert(e.passive.contains_key(sm) && e.passive[sm]);
                        assert(oe == seq![Action::Release(ks)]);
                        assert(a1.passive == e.passive.insert(sm, false));
                        assert(l0.passive[sm] == false);
                        assert(l0.active.contains(sm)) by {
                            lemma_push_contains(e.active, p.activate->Some_0, sm);
                        }
                        assert(ol == seq![Action::Press(ks)]);
                        assert forall|k: u16|
                            #[trigger] press_count(oe, k) + press_count(ol, k) == release_count(oe, k)
                                + release_count(ol, k) by {
                            lemma_counts_one(Action::Release(ks), k);
                            lemma_counts_one(Action::Press(ks), k);
                        }
                    },
                    None => {
                        assert(!e.passive.contains_key(sm));
                        assert(oe == Seq::<Action>::empty());
                        assert(a1.passive == e.passive);
                        assert(ol == Seq::<Action>::empty());
                    },
                }
            } else {
                assert(oe == Seq::<Action>::empty());
                assert(a1.passive == e.passive);
                assert(ol == Seq::<Action>::empty());
            }
        },
        None => {
            assert(a1 == e);
            assert(oe == Seq::<Action>::empty());
            assert(ol == Seq::<Action>::empty());
        },
    }
    // The modifier the press activates.
    match p.activate {
        Some(m) => {
            assert(!e.active.contains(m));
            assert(!e.passive.contains_key(m));
            assert(!e.in_scope(m));
            assert(p.scope != Some(m));
            assert(a2.active == e.active.push(m));
            assert(e.active.push(m).drop_last() =~= e.active);
            assert(e.active.push(m).last() == m);
            assert(l2.active == without(e.active, m));
            lemma_without_absent(e.active, m);
            match e.passive_key(m) {
                Some(km) => {
                    assert(oa == seq![Action::Press(km)]);
                    assert(l1.passive.contains_key(m) && l1.passive[m]);
                    assert(od == seq![Action::Release(km)]);
                    assert forall|k: u16|
                        #[trigger] press_count(oa, k) + press_count(od, k) == release_count(oa, k)
                            + release_count(od, k) by {
                        lemma_counts_one(Action::Release(km), k);
                        lemma_counts_one(Action::Press(km), k);
                    }
                },
                None => {
                    assert(oa == Seq::<Action>::empty());
                    assert(!l1.passive.contains_key(m));
                    assert(od == Seq::<Action>::empty());
                },
            }
        },
        None => {
            assert(a2 == a1);
            assert(oa == Seq::<Action>::empty());
            assert(l2 == l1);
            assert(od == Seq::<Action>::empty());
        },
    }
    assert forall|k: u16| #[trigger] press_count(down + up, k) == release_count(down + up, k) by {
        lemma_counts_empty(k);
        lemma_counts_one(Action::Unimplemented, k);
        lemma_counts_add(warn, pr, k);
        lemma_counts_add(warn + pr, td, k);
        lemma_counts_add(warn + pr + td, oe, k);
        lemma_counts_add(warn + pr + td + oe, oa, k);
        lemma_counts_add(rl, ol, k);
        lemma_counts_add(rl + ol, od, k);
        lemma_counts_add(rl + ol + od, tu, k);
        lemma_counts_add(down, up, k);
        lemma_counts_presses(p.held, k);
        lemma_counts_taps(p.down, k);
        lemma_counts_taps(p.up, k);
    }
    assert(l2.passive =~= e.passive);
    assert(l2.held == e.held);
    assert forall|m: Seq<char>| #[trigger] l2.scope_count(m) == e.scope_count(m) by {
        if p.scope == Some(m) {
            assert(l1.scope_count(m) == e.scope_count(m));
        }
    }
}

/// Whether `k` is down at the output device after `out`, given whether it
/// was down before: the last action naming `k` decides.
pub open spec fn key_down(before: bool, out: Seq<Action>, k: u16) -> bool
    decreases out.len(),
{
    if out.len() == 0 {
        before
    } else if out.last() == Action::Press(k) {
        true
    } else if out.last() == Action::Release(k) {
        false
    } else {
        key_down(before, out.drop_last(), k)
    }
}

impl EngineModel {
    /// The engine keeps `k` down: some held input holds it, or it is the
    /// passive key of a modifier whose passive flag is set.
    pub open spec fn records(self, k: u16) -> bool {
        ||| exists|n: Seq<char>| #[trigger] self.held.contains_key(n) && self.held[n].keys.contains(k)
        ||| exists|m: Seq<char>|
            #[trigger] self.passive.contains_key(m) && self.passive[m] && self.passive_key(m) == Some(k)
    }
}

proof fn lemma_key_down_concat(b: bool, a: Seq<Action>, c: Seq<Action>, k: u16)
    ensures
        key_down(b, a + c, k) == key_down(key_down(b, a, k), c, k),
    decreases c.len(),
{
    if c.len() == 0 {
        assert(a + c =~= a);
    } else {
        lemma_key_down_concat(b, a, c.drop_last(), k);
        assert((a + c).drop_last() =~= a + c.drop_last());
        assert((a + c).last() == c.last());
    }
}

proof fn lemma_key_down_one(b: bool, x: Action, k: u16)
    ensures
        key_down(b, seq![x], k) == (if x == Action::Press(k) {
            true
        } else if x == Action::Release(k) {
            false
        } else {
            b
        }),
{
    assert(seq![x].drop_last() =~= Seq::<Action>::empty());
    assert(seq![x].last() == x);
    assert(key_down(b, Seq::<Action>::empty(), k) == b);
}

proof fn lemma_contains_drop_last(s: Seq<u16>, k: u16)
    requires
        s.len() > 0,
    ensures
        s.contains(k) <==> (s.drop_last().contains(k) || s.last() == k),
{
    if s.contains(k) {
        let i = choose|i: int| 0 <= i < s.len() && s[i] == k;
        if i < s.len() - 1 {
            assert(s.drop_last()[i] == k);
        }
    }
    if s.drop_last().contains(k) {
        let i = choose|i: int| 0 <= i < s.drop_last().len() && s.drop_last()[i] == k;
        assert(s[i] == k);
    }
    if s.last() == k {
        assert(s[s.len() - 1] == k);
    }
}

proof fn lemma_key_down_presses(b: bool, s: Seq<u16>, k: u16)
    ensures
        key_down(b, presses(s), k) == (s.contains(k) || b),
        key_down(b, releases(s), k) == (!s.contains(k) && b),
    decreases s.len(),
{
    if s.len() > 0 {
        lemma_key_down_presses(b, s.drop_last(), k);
        lemma_contains_drop_last(s, k);
        assert(presses(s).drop_last() =~= presses(s.drop_last()));
        assert(releases(s).drop_last() =~= releases(s.drop_last()));
        assert(presses(s).last() == Action::Press(s.last()));
        assert(releases(s).last() == Action::Release(s.last()));
    }
}

proof fn lemma_key_down_taps(b: bool, s: Seq<u16>, k: u16)
    ensures
        key_down(b, taps(s), k) == (!s.contains(k) && b),
    decreases s.len(),
{
    if s.len() > 0 {
        lemma_key_down_taps(b, s.drop_last(), k);
        lemma_contains_drop_last(s, k);
        let l = s.last();
        let pair = seq![Action::Press(l), Action::Release(l)];
        lemma_key_down_concat(b, taps(s.drop_last()), pair, k);
        assert(seq![Action::Press(l)] + seq![Action::Release(l)] =~= pair);
        let mid = key_down(b, taps(s.drop_last()), k);
        lemma_key_down_concat(mid, seq![Action::Press(l)], seq![Action::Release(l)], k);
        lemma_key_down_one(mid, Action::Press(l), k);
        lemma_key_down_one(key_down(mid, seq![Action::Press(l)], k), Action::Release(l), k);
    }
}

proof fn lemma_key_down_releases_only(b: bool, out: Seq<Action>, k: u16)
    requires
        forall|i: int| 0 <= i < out.len() ==> #[trigger] out[i] is Release,
    ensures
        key_down(b, out, k) == (b && !out.contains(Action::Release(k))),
    decreases out.len(),
{
    if out.len() > 0 {
        let d = out.drop_last();
        assert forall|i: int| 0 <= i < d.len() implies #[trigger] d[i] is Release by {
            assert(d[i] == out[i]);
        }
        lemma_key_down_releases_only(b, d, k);
        assert(out[out.len() - 1] is Release);
        if out.contains(Action::Release(k)) {
            let i = choose|i: int| 0 <= i < out.len() && out[i] == Action::Release(k);
            if i < out.len() - 1 {
                assert(d[i] == Action::Release(k));
            }
        }
        if d.contains(Action::Release(k)) {
            let i = choose|i: int| 0 <= i < d.len() && d[i] == Action::Release(k);
            assert(out[i] == Action::Release(k));
        }
        if out.last() == Action::Release(k) {
            assert(out[out.len() - 1] == Action::Release(k));
        }
    }
}

proof fn lemma_records_button_down(e: EngineModel, x: Seq<char>, k: u16, b: bool)
    requires
        b ==> e.records(k),
        !e.held.contains_key(x),
    ensures
        key_down(b, e.button_down(x).1, k) ==> e.button_down(x).0.records(k),
{
    let p = e.plan_down(x);
    let (a1, oe) = e.enter_scope(p.scope);
    let (a2, oa) = a1.activate(p.activate);
    let h = HeldModel { keys: p.held, activated: p.activate, scope: p.scope, on_up: p.up };
    let e1 = EngineModel { held: a2.held.insert(x, h), ..a2 };
    let warn: Seq<Action> = if p.unimplemented {
        seq![Action::Unimplemented]
    } else {
        Seq::empty()
    };
    let pr = presses(p.held);
    let td = taps(p.down);
    assert(e.button_down(x).0 == e1);
    assert(e.button_down(x).1 == warn + pr + td + oe + oa);
    lemma_key_down_concat(b, warn, pr, k);
    lemma_key_down_concat(b, warn + pr, td, k);
    lemma_key_down_concat(b, warn + pr + td, oe, k);
    lemma_key_down_concat(b, warn + pr + td + oe, oa, k);
    lemma_key_down_one(b, Action::Unimplemented, k);
    assert(key_down(b, warn, k) == b);
    lemma_key_down_presses(b, p.held, k);
    let b2 = key_down(b, pr, k);
    lemma_key_down_taps(b2, p.down, k);
    let b3 = key_down(b2, td, k);
    let b4 = key_down(b3, oe, k);
    let b5 = key_down(b4, oa, k);
    assert(b5 == key_down(b, e.button_down(x).1, k));
    // What entering the scope does to the passive flags and the output.
    let releases_k = oe == seq![Action::Release(k)];
    lemma_key_down_one(b3, Action::Release(k), k);
    assert(oe.len() == 0 || (oe.len() == 1 && oe[0] is Release));
    if oe.len() == 1 && !releases_k {
        assert(oe == seq![oe[0]]);
        lemma_key_down_one(b3, oe[0], k);
    }
    assert(releases_k ==> !b4);
    assert(!releases_k ==> b4 == b3);
    assert forall|q: Seq<char>|
        e.passive.contains_key(q) && e.passive[q] && e.passive_key(q) == Some(k) && !releases_k
        implies #[trigger] a1.passive.contains_key(q) && a1.passive[q] by {
        if p.scope == Some(q) {
            assert(e.passive_key(q) == Some(k));
        }
    }
    // What activating a modifier does.
    let presses_k = oa == seq![Action::Press(k)];
    lemma_key_down_one(b4, Action::Press(k), k);
    assert(oa.len() == 0 || (oa.len() == 1 && oa[0] is Press));
    if oa.len() == 1 && !presses_k {
        assert(oa == seq![oa[0]]);
        lemma_key_down_one(b4, oa[0], k);
    }
    assert(!presses_k ==> b5 == b4);
    assert forall|q: Seq<char>| a1.passive.contains_key(q) && a1.passive[q]
        implies #[trigger] a2.passive.contains_key(q) && a2.passive[q] by {
    }
    if b5 {
        if presses_k {
            let m = p.activate->Some_0;
            assert(a2.passive.contains_key(m) && a2.passive[m] && a2.passive_key(m) == Some(k));
            assert(e1.passive.contains_key(m) && e1.passive[m] && e1.passive_key(m) == Some(k));
        } else if p.held.contains(k) {
            assert(e1.held.contains_key(x) && e1.held[x].keys.contains(k));
        } else {
            assert(b);
            if exists|n: Seq<char>| #[trigger] e.held.contains_key(n) && e.held[n].keys.contains(k) {
                let n = choose|n: Seq<char>| #[trigger] e.held.contains_key(n) && e.held[n].keys.contains(k);
                assert(n != x);
                assert(e1.held.contains_key(n) && e1.held[n].keys.contains(k));
            } else {
                let m = choose|m: Seq<char>|
                    #[trigger] e.passive.contains_key(m) && e.passive[m] && e.passive_key(m) == Some(k);
                assert(a1.passive.contains_key(m) && a1.passive[m]);
                assert(e1.passive.contains_key(m) && e1.passive[m] && e1.passive_key(m) == Some(k));
            }
        }
    }
}

proof fn lemma_records_button_up(e: EngineModel, x: Seq<char>, k: u16, b: bool)
    requires
        b ==> e.records(k),
    ensures
        key_down(b, e.button_up(x).1, k) ==> e.button_up(x).0.records(k),
{
    let st = if e.held.contains_key(x) {
        e.held[x]
    } else {
        HeldModel::empty()
    };
    let l0 = EngineModel { held: e.held.remove(x), ..e };
    let (l1, ol) = l0.leave_scope(st.scope);
    let (l2, od) = l1.deactivate(st.activated);
    let rl = releases(st.keys);
    let tu = taps(st.on_up);
    assert(e.button_up(x).0 == l2);
    assert(e.button_up(x).1 == rl + ol + od + tu);
    lemma_key_down_concat(b, rl, ol, k);
    lemma_key_down_concat(b, rl + ol, od, k);
    lemma_key_down_concat(b, rl + ol + od, tu, k);
    lemma_key_down_presses(b, st.keys, k);
    let b1 = key_down(b, rl, k);
    let b2 = key_down(b1, ol, k);
    let b3 = key_down(b2, od, k);
    lemma_key_down_taps(b3, st.on_up, k);
    let b4 = key_down(b3, tu, k);
    assert(b4 == key_down(b, e.button_up(x).1, k));
    // Leaving the scope may press a passive key again.
    let presses_k = ol == seq![Action::Press(k)];
    lemma_key_down_one(b1, Action::Press(k), k);
    assert(ol.len() == 0 || (ol.len() == 1 && ol[0] is Press));
    if ol.len() == 1 && !presses_k {
        assert(ol == seq![ol[0]]);
        lemma_key_down_one(b1, ol[0], k);
    }
    assert(!presses_k ==> b2 == b1);
    // Deactivating may let go of one.
    let releases_k = od == seq![Action::Release(k)];
    lemma_key_down_one(b2, Action::Release(k), k);
    assert(od.len() == 0 || (od.len() == 1 && od[0] is Release));
    if od.len() == 1 && !releases_k {
        assert(od == seq![od[0]]);
        lemma_key_down_one(b2, od[0], k);
    }
    assert(releases_k ==> !b3);
    assert(!releases_k ==> b3 == b2);
    assert forall|q: Seq<char>| l0.passive.contains_key(q) && l0.passive[q]
        implies #[trigger] l1.passive.contains_key(q) && l1.passive[q] by {
    }
    assert forall|q: Seq<char>|
        l1.passive.contains_key(q) && l1.passive[q] && l1.passive_key(q) == Some(k) && !releases_k
        implies #[trigger] l2.passive.contains_key(q) && l2.passive[q] by {
        if st.activated == Some(q) {
            assert(od == seq![Action::Release(k)]);
        }
    }
    if b4 {
        assert(!releases_k);
        if presses_k {
            let sm = st.scope->Some_0;
            assert(l1.passive.contains_key(sm) && l1.passive[sm] && l1.passive_key(sm) == Some(k));
            assert(l2.passive.contains_key(sm) && l2.passive[sm] && l2.passive_key(sm) == Some(k));
        } else {
            assert(b && !st.keys.contains(k));
            if exists|n: Seq<char>| #[trigger] e.held.contains_key(n) && e.held[n].keys.contains(k) {
                let n = choose|n: Seq<char>| #[trigger] e.held.contains_key(n) && e.held[n].keys.contains(k);
                assert(n != x);
                assert(l2.held.contains_key(n) && l2.held[n].keys.contains(k));
            } else {
                let m = choose|m: Seq<char>|
                    #[trigger] e.passive.contains_key(m) && e.passive[m] && e.passive_key(m) == Some(k);
                assert(l1.passive.contains_key(m) && l1.passive[m]);
                assert(l2.passive.contains_key(m) && l2.passive[m] && l2.passive_key(m) == Some(k));
            }
        }
    }
}

/// No key is left down at the output device without the engine keeping it:
/// where every key that is down is kept (held by an input, or the passive key
/// of a modifier whose flag is set), this stays so after a press of an input
/// that is not held, a release, an axis movement or an axis timeout. A new
/// engine has nothing down, and `release_all` lets go of every key it keeps
/// (see its contract), so after it no key is left down.
pub proof fn lemma_down_keys_stay_kept(e: EngineModel, x: Seq<char>, k: u16, down: bool, timeout: u64, now: u64)
    requires
        down ==> e.records(k),
    ensures
        !e.held.contains_key(x) && key_down(down, e.button_down(x).1, k) ==> e.button_down(x).0.records(k),
        key_down(down, e.button_up(x).1, k) ==> e.button_up(x).0.records(k),
        key_down(down, e.axis_move(x, now).2, k) ==> e.axis_move(x, now).0.records(k),
        key_down(down, e.axis_release_maybe(x, timeout, now).1, k) ==> e.axis_release_maybe(
            x,
            timeout,
            now,
        ).0.records(k),
{
    if !e.held.contains_key(x) {
        lemma_records_button_down(e, x, k, down);
    }
    lemma_records_button_up(e, x, k, down);
    assert(key_down(down, Seq::<Action>::empty(), k) == down);
    let e1 = EngineModel { axis: e.axis.insert(x, now), ..e };
    if e.effective(x) is Some {
        if e1.held.contains_key(x) {
            assert(e.axis_move(x, now).0 == e1);
            if down {
                if exists|n: Seq<char>| #[trigger] e.held.contains_key(n) && e.held[n].keys.contains(k) {
                    let n = choose|n: Seq<char>| #[trigger] e.held.contains_key(n) && e.held[n].keys.contains(k);
                    assert(e1.held.contains_key(n) && e1.held[n].keys.contains(k));
                } else {
                    let m = choose|m: Seq<char>|
                        #[trigger] e.passive.contains_key(m) && e.passive[m] && e.passive_key(m) == Some(k);
                    assert(e1.passive.contains_key(m) && e1.passive[m] && e1.passive_key(m) == Some(k));
                }
            }
        } else {
            if down {
                if exists|n: Seq<char>| #[trigger] e.held.contains_key(n) && e.held[n].keys.contains(k) {
                    let n = choose|n: Seq<char>| #[trigger] e.held.contains_key(n) && e.held[n].keys.contains(k);
                    assert(e1.held.contains_key(n) && e1.held[n].keys.contains(k));
                } else {
                    let m = choose|m: Seq<char>|
                        #[trigger] e.passive.contains_key(m) && e.passive[m] && e.passive_key(m) == Some(k);
                    assert(e1.passive.contains_key(m) && e1.passive[m] && e1.passive_key(m) == Some(k));
                }
            }
            lemma_records_button_down(e1, x, k, down);
        }
    }
    if e.elapsed(x, now) >= timeout {
        let u = e.button_up(x).0;
        let u1 = EngineModel { axis: u.axis.remove(x), ..u };
        assert(e.axis_release_maybe(x, timeout, now).0 == u1);
        if u.records(k) {
            if exists|n: Seq<char>| #[trigger] u.held.contains_key(n) && u.held[n].keys.contains(k) {
                let n = choose|n: Seq<char>| #[trigger] u.held.contains_key(n) && u.held[n].keys.contains(k);
                assert(u1.held.contains_key(n) && u1.held[n].keys.contains(k));
            } else {
                let m = choose|m: Seq<char>|
                    #[trigger] u.passive.contains_key(m) && u.passive[m] && u.passive_key(m) == Some(k);
                assert(u1.passive.contains_key(m) && u1.passive[m] && u1.passive_key(m) == Some(k));
            }
        }
    }
}

/// What one call hands to the output device.
pub open spec fn op_out(e: EngineModel, op: EngineOp) -> Seq<Action> {
    match op {
        EngineOp::Down(n) => e.button_down(n).1,
        EngineOp::Up(n) => e.button_up(n).1,
        EngineOp::AxisMove(n, now) => e.axis_move(n, now).2,
        EngineOp::AxisRelease(n, timeout, now) => e.axis_release_maybe(n, timeout, now).1,
        EngineOp::Relay(axis, delta) => seq![Action::RelayAxis(axis, delta)],
    }
}

/// Everything a sequence of calls hands to the output device, in order.
pub open spec fn run_out(e: EngineModel, ops: Seq<EngineOp>) -> Seq<Action>
    decreases ops.len(),
{
    if ops.len() == 0 {
        Seq::empty()
    } else {
        run_out(e, ops.drop_last()) + op_out(run_ops(e, ops.drop_last()), ops.last())
    }
}

/// A call the engine is meant to get in state `e`: a press names an input
/// that is not held, and a press (also one an axis movement makes) has room
/// in its modifier's count.
pub open spec fn op_allowed(e: EngineModel, op: EngineOp) -> bool {
    match op {
        EngineOp::Down(n) => !e.held.contains_key(n) && e.room_for_press(n),
        EngineOp::AxisMove(n, _) => e.effective(n) is Some && !e.held.contains_key(n) ==> e.room_for_press(n),
        _ => true,
    }
}

/// Every call of the sequence is one the engine is meant to get.
pub open spec fn fair_run(e: EngineModel, ops: Seq<EngineOp>) -> bool
    decreases ops.len(),
{
    if ops.len() == 0 {
        true
    } else {
        fair_run(e, ops.drop_last()) && op_allowed(run_ops(e, ops.drop_last()), ops.last())
    }
}

impl EngineModel {
    /// Nothing is held, active or pressed: a new engine, or one after
    /// `release_all`.
    pub open spec fn is_fresh(self) -> bool {
        &&& self.active == Seq::<Seq<char>>::empty()
        &&& self.held == Map::<Seq<char>, HeldModel>::empty()
        &&& self.passive == Map::<Seq<char>, bool>::empty()
        &&& self.scope == Map::<Seq<char>, usize>::empty()
        &&& self.axis == Map::<Seq<char>, u64>::empty()
    }
}

proof fn lemma_fresh_consistent(e: EngineModel)
    requires
        e.is_fresh(),
    ensures
        e.consistent(),
        e.passive_rule(),
{
    assert forall|m: Seq<char>| #![trigger e.active.contains(m)] !e.active.contains(m) by {}
}

proof fn lemma_step_keeps_bookkeeping(e: EngineModel, op: EngineOp)
    requires
        e.consistent(),
        e.passive_rule(),
        op_allowed(e, op),
    ensures
        op_step(e, op).consistent(),
        op_step(e, op).passive_rule(),
{
    match op {
        EngineOp::Down(n) => {
            lemma_bookkeeping_kept(e, n, 0, 0);
            lemma_passive_suppressed_in_scope(e, n, 0, 0);
        },
        EngineOp::Up(n) => {
            lemma_bookkeeping_kept(e, n, 0, 0);
            lemma_passive_suppressed_in_scope(e, n, 0, 0);
        },
        EngineOp::AxisMove(n, now) => {
            lemma_bookkeeping_kept(e, n, 0, now);
            lemma_passive_suppressed_in_scope(e, n, 0, now);
            if !e.room_for_press(n) {
                let e1 = EngineModel { axis: e.axis.insert(n, now), ..e };
                lemma_consistent_same(e, e1);
            }
        },
        EngineOp::AxisRelease(n, timeout, now) => {
            lemma_bookkeeping_kept(e, n, timeout, now);
            lemma_passive_suppressed_in_scope(e, n, timeout, now);
        },
        EngineOp::Relay(_, _) => {},
    }
}

/// Every engine reached from a fresh one by the calls it is meant to get
/// keeps its modifier bookkeeping consistent and its passive keys let go
/// while their overrides are held.
pub proof fn lemma_runs_keep_bookkeeping(e0: EngineModel, ops: Seq<EngineOp>)
    requires
        e0.is_fresh(),
        fair_run(e0, ops),
    ensures
        run_ops(e0, ops).consistent(),
        run_ops(e0, ops).passive_rule(),
    decreases ops.len(),
{
    if ops.len() == 0 {
        lemma_fresh_consistent(e0);
    } else {
        lemma_runs_keep_bookkeeping(e0, ops.drop_last());
        lemma_step_keeps_bookkeeping(run_ops(e0, ops.drop_last()), ops.last());
    }
}

/// The round trip of `lemma_press_release_round_trip` for every engine
/// reached from a fresh one by the calls it is meant to get: pressing an
/// input that is not held and releasing it straight away, where the press
/// has room in its count and activates no modifier already active, releases
/// every key as often as it presses it and gives back the state it found.
pub proof fn lemma_round_trip_after_any_run(e0: EngineModel, ops: Seq<EngineOp>, x: Seq<char>)
    requires
        e0.is_fresh(),
        fair_run(e0, ops),
        !run_ops(e0, ops).held.contains_key(x),
        run_ops(e0, ops).room_for_press(x),
        run_ops(e0, ops).plan_down(x).activate matches Some(m) ==> !run_ops(e0, ops).active.contains(m),
    ensures
        ({
            let e = run_ops(e0, ops);
            let (e1, down) = e.button_down(x);
            let (e2, up) = e1.button_up(x);
            &&& e2.active == e.active
            &&& e2.held == e.held
            &&& e2.passive == e.passive
            &&& forall|m: Seq<char>| #[trigger] e2.scope_count(m) == e.scope_count(m)
            &&& e2.axis == e.axis
            &&& forall|k: u16| #[trigger] press_count(down + up, k) == release_count(down + up, k)
        }),
{
    lemma_runs_keep_bookkeeping(e0, ops);
    lemma_press_release_round_trip(run_ops(e0, ops), x);
}

proof fn lemma_run_down_keys_kept(e0: EngineModel, ops: Seq<EngineOp>, k: u16)
    requires
        fair_run(e0, ops),
    ensures
        key_down(false, run_out(e0, ops), k) ==> run_ops(e0, ops).records(k),
    decreases ops.len(),
{
    if ops.len() > 0 {
        let prev = ops.drop_last();
        let e = run_ops(e0, prev);
        lemma_run_down_keys_kept(e0, prev, k);
        let b = key_down(false, run_out(e0, prev), k);
        lemma_key_down_concat(false, run_out(e0, prev), op_out(e, ops.last()), k);
        match ops.last() {
            EngineOp::Down(n) => {
                lemma_down_keys_stay_kept(e, n, k, b, 0, 0);
            },
            EngineOp::Up(n) => {
                lemma_down_keys_stay_kept(e, n, k, b, 0, 0);
            },
            EngineOp::AxisMove(n, now) => {
                lemma_down_keys_stay_kept(e, n, k, b, 0, now);
            },
            EngineOp::AxisRelease(n, timeout, now) => {
                lemma_down_keys_stay_kept(e, n, k, b, timeout, now);
            },
            EngineOp::Relay(axis, delta) => {
                lemma_key_down_one(b, Action::RelayAxis(axis, delta), k);
            },
        }
    }
}

proof fn lemma_held_releases_props(e: EngineModel, names: Seq<Seq<char>>)
    ensures
        forall|i: int| 0 <= i < held_releases(e, names).len() ==> #[trigger] held_releases(e, names)[i] is Release,
        forall|n: Seq<char>, i: int|
            names.contains(n) && 0 <= i < e.held[n].keys.len() ==> held_releases(e, names).contains(
                Action::Release(#[trigger] e.held[n].keys[i]),
            ),
    decreases names.len(),
{
    if names.len() > 0 {
        let d = names.drop_last();
        lemma_held_releases_props(e, d);
        let pre = held_releases(e, d);
        let last = releases(e.held[names.last()].keys);
        let all = held_releases(e, names);
        assert(all == pre + last);
        assert forall|i: int| 0 <= i < all.len() implies #[trigger] all[i] is Release by {
            if i >= pre.len() {
                assert(all[i] == last[i - pre.len()]);
            } else {
                assert(all[i] == pre[i]);
            }
        }
        assert forall|n: Seq<char>, i: int|
            names.contains(n) && 0 <= i < e.held[n].keys.len() implies all.contains(
                Action::Release(#[trigger] e.held[n].keys[i]),
            ) by {
            if n == names.last() {
                assert(all[pre.len() + i] == Action::Release(e.held[n].keys[i]));
            } else {
                let j = choose|j: int| 0 <= j < names.len() && names[j] == n;
                assert(j < names.len() - 1);
                assert(d[j] == n);
                let q = choose|q: int| 0 <= q < pre.len() && pre[q] == Action::Release(e.held[n].keys[i]);
                assert(all[q] == pre[q]);
            }
        }
    }
}

proof fn lemma_passive_releases_props(e: EngineModel, names: Seq<Seq<char>>)
    ensures
        forall|i: int| 0 <= i < passive_releases(e, names).len() ==> #[trigger] passive_releases(e, names)[i] is Release,
        forall|m: Seq<char>|
            names.contains(m) && e.passive[m] && #[trigger] e.passive_key(m) is Some ==> passive_releases(e, names).contains(
                Action::Release(e.passive_key(m)->Some_0),
            ),
    decreases names.len(),
{
    if names.len() > 0 {
        let d = names.drop_last();
        lemma_passive_releases_props(e, d);
        let pre = passive_releases(e, d);
        let all = passive_releases(e, names);
        assert forall|i: int| 0 <= i < all.len() implies #[trigger] all[i] is Release by {
            if i < pre.len() {
                assert(all[i] == pre[i]);
            }
        }
        assert forall|m: Seq<char>|
            names.contains(m) && e.passive[m] && #[trigger] e.passive_key(m) is Some implies all.contains(
                Action::Release(e.passive_key(m)->Some_0),
            ) by {
            if m == names.last() {
                assert(all[pre.len() as int] == Action::Release(e.passive_key(m)->Some_0));
            } else {
                let j = choose|j: int| 0 <= j < names.len() && names[j] == m;
                assert(j < names.len() - 1);
                assert(d[j] == m);
                let q = choose|q: int| 0 <= q < pre.len() && pre[q] == Action::Release(e.passive_key(m)->Some_0);
                assert(all[q] == pre[q]);
            }
        }
    }
}

/// No key stays stuck: from a fresh engine, through any calls it is meant to
/// get (no press of an input that is already held), followed by releasing
/// everything (in whatever order `release_all` takes the held inputs and the
/// modifiers), every key that was ever pressed is released last: no key is
/// left down at the output device.
pub proof fn lemma_no_key_left_down(e0: EngineModel, ops: Seq<EngineOp>, hn: Seq<Seq<char>>, pn: Seq<Seq<char>>, k: u16)
    requires
        e0.is_fresh(),
        fair_run(e0, ops),
        lists_once(hn, run_ops(e0, ops).held.dom()),
        lists_once(pn, run_ops(e0, ops).passive.dom()),
    ensures
        !key_down(false, run_out(e0, ops) + release_all_out(run_ops(e0, ops), hn, pn), k),
{
    let e = run_ops(e0, ops);
    let out = release_all_out(e, hn, pn);
    lemma_run_down_keys_kept(e0, ops, k);
    let b = key_down(false, run_out(e0, ops), k);
    lemma_key_down_concat(false, run_out(e0, ops), out, k);
    lemma_held_releases_props(e, hn);
    lemma_passive_releases_props(e, pn);
    let hr = held_releases(e, hn);
    let pr = passive_releases(e, pn);
    assert forall|i: int| 0 <= i < out.len() implies #[trigger] out[i] is Release by {
        if i < hr.len() {
            assert(out[i] == hr[i]);
        } else {
            assert(out[i] == pr[i - hr.len()]);
        }
    }
    lemma_key_down_releases_only(b, out, k);
    if b {
        if exists|n: Seq<char>| #[trigger] e.held.contains_key(n) && e.held[n].keys.contains(k) {
            let n = choose|n: Seq<char>| #[trigger] e.held.contains_key(n) && e.held[n].keys.contains(k);
            let i = choose|i: int| 0 <= i < e.held[n].keys.len() && e.held[n].keys[i] == k;
            assert(hn.contains(n));
            assert(hr.contains(Action::Release(e.held[n].keys[i])));
            let q = choose|q: int| 0 <= q < hr.len() && hr[q] == Action::Release(k);
            assert(out[q] == hr[q]);
        } else {
            let m = choose|m: Seq<char>|
                #[trigger] e.passive.contains_key(m) && e.passive[m] && e.passive_key(m) == Some(k);
            assert(pn.contains(m));
            assert(e.passive_key(m) is Some);
            assert(pr.contains(Action::Release(k)));
            let q = choose|q: int| 0 <= q < pr.len() && pr[q] == Action::Release(k);
            assert(out[hr.len() + q] == pr[q]);
        }
    }
}

/// A complex mapping's `input_simple: One(t)` works as the target of a simple
/// mapping does: a target naming a modifier activates it (and holds no key
/// for it); only a target naming no modifier holds its output key. The
/// passthrough of the input's own key comes first.
pub proof fn lemma_complex_one_target(e: EngineModel, name: Seq<char>, c: ComplexMapping, t: String, p: PlanModel)
    requires
        c.input_simple == Some(InputSimple::One(t)),
    ensures
        ({
            let r = e.plan_complex(name, c, p);
            let base = if c.input_passthrough && e.physical.contains_key(name) {
                p.held.push(e.physical[name])
            } else {
                p.held
            };
            &&& e.modifiers.contains_key(t@) ==> r.activate == Some(t@) && r.held == base
            &&& !e.modifiers.contains_key(t@) ==> r.activate == p.activate && r.held == (if e.output.contains_key(t@) {
                base.push(e.output[t@])
            } else {
                base
            })
        }),
{
}

/// A complex mapping with nothing but `input_simple: One(t)` plans a press
/// exactly as the simple mapping `t` does.
pub proof fn lemma_bare_complex_one_is_simple(e: EngineModel, name: Seq<char>, c: ComplexMapping, t: String, p: PlanModel)
    requires
        c.input_simple == Some(InputSimple::One(t)),
        !c.input_passthrough,
        c.input_down is None,
        c.input_up is None,
        c.input_short is None,
        c.input_long is None,
        c.input_delayed is None,
        c.input_variable is None,
    ensures
        e.plan_complex(name, c, p) == e.plan_from_mapping(name, MappingDef::Simple(t), p),
{
}

/// Pressing an input whose mapping in effect is a complex one with
/// `input_simple: One(t)`, `t` naming a modifier, activates that modifier:
/// it goes on top of the stack.
pub proof fn lemma_complex_one_activates_modifier(e: EngineModel, name: Seq<char>, c: ComplexMapping, t: String)
    requires
        e.effective(name) matches Some(eff) && eff.def == MappingDef::Complex(Box::new(c)),
        c.input_simple == Some(InputSimple::One(t)),
        e.modifiers.contains_key(t@),
    ensures
        e.button_down(name).0.active == e.active.push(t@),
        e.button_down(name).0.held[name].activated == Some(t@),
{
    let p = e.plan_down(name);
    assert(p.activate == Some(t@));
    let a1 = e.enter_scope(p.scope).0;
    assert(a1.active == e.active);
}

/// Several simultaneous targets act one after another, each as a lone
/// target would: `Many([t])` plans as `One(t)` does, and `Many(ts + [t])`
/// plans `t` on top of what `Many(ts)` plans.
pub proof fn lemma_many_targets_act_in_turn(e: EngineModel, ts: Seq<Seq<char>>, t: Seq<char>, p: PlanModel)
    ensures
        e.plan_many(seq![t], p) == e.plan_simple(t, p),
        e.plan_many(ts.push(t), p) == e.plan_simple(t, e.plan_many(ts, p)),
{
    assert(seq![t].drop_last() =~= Seq::<Seq<char>>::empty());
    assert(seq![t].last() == t);
    assert(e.plan_many(Seq::<Seq<char>>::empty(), p) == p);
    assert(ts.push(t).drop_last() =~= ts);
    assert(ts.push(t).last() == t);
}

} // verus!
