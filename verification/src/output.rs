//! The output section of a profile: game actions and the keys they are bound
//! to, by default and as rebound, resolved into key codes.
use vstd::prelude::*;
use vstd::string::StringExecFns;
use indexmap::IndexMap;
use crate::codes::{parse_key_code, key_code_for};
use crate::flat::{flat_entries, pair_lookup, pair_index, ordered_insert, insert_all, flat_new, flat_insert, flat_get, flat_len, flat_get_index, flat_set_value, flat_clone};
use crate::names::{NameMap, map_of, keys_distinct, key_index, lemma_key_index_props, lemma_map_of_push};
use crate::profile::InputDef;

verus! {

/// A default binding: a context of actions, or one action's key.
pub enum DefaultEntry {
    Context(Vec<(String, String)>),
    Direct(String),
}

/// A rebound binding: a context of actions, or one action's key.
pub enum ReboundEntry {
    Context(Vec<(String, String)>),
    Direct(String),
}

/// The `output` section, each table in the order of the profile.
pub struct OutputSection {
    pub default: Vec<(String, DefaultEntry)>,
    pub rebinds: Vec<(String, ReboundEntry)>,
}

/// The resolved output bindings.
pub struct ResolvedOutput {
    /// Binding name to key code, in the order of the resolved table.
    pub bindings: NameMap<u16>,
    /// (game action, display label): the label is the value as written, before
    /// references were followed.
    pub rebinds: Vec<(String, String)>,
    /// Only rebound bindings were given.
    pub only_rebound: bool,
}

/// An output binding whose key is no known key code.
pub struct OutputError {
    pub output: String,
    pub code: String,
}

pub open spec fn pair_views(s: Seq<(String, String)>) -> Seq<(Seq<char>, Seq<char>)> {
    s.map_values(|p: (String, String)| (p.0@, p.1@))
}

pub open spec fn binding_views(s: Seq<(String, u16)>) -> Seq<(Seq<char>, u16)> {
    s.map_values(|p: (String, u16)| (p.0@, p.1))
}

/// The flat name of an action in a context: `context/action`.
pub open spec fn context_key(name: Seq<char>, action: Seq<char>) -> Seq<char> {
    name + seq!['/'] + action
}

pub open spec fn context_pairs(name: Seq<char>, actions: Seq<(String, String)>) -> Seq<(Seq<char>, Seq<char>)> {
    actions.map_values(|p: (String, String)| (context_key(name, p.0@), p.1@))
}

pub open spec fn default_pairs(name: Seq<char>, e: DefaultEntry) -> Seq<(Seq<char>, Seq<char>)> {
    match e {
        DefaultEntry::Context(actions) => context_pairs(name, actions@),
        DefaultEntry::Direct(k) => seq![(name, k@)],
    }
}

pub open spec fn rebound_pairs(name: Seq<char>, e: ReboundEntry) -> Seq<(Seq<char>, Seq<char>)> {
    match e {
        ReboundEntry::Context(actions) => context_pairs(name, actions@),
        ReboundEntry::Direct(k) => seq![(name, k@)],
    }
}

/// The default table flattened: each context action under `context/action`,
/// each direct entry under its own name.
pub open spec fn flat_default(d: Seq<(String, DefaultEntry)>) -> Seq<(Seq<char>, Seq<char>)>
    decreases d.len(),
{
    if d.len() == 0 {
        Seq::empty()
    } else {
        insert_all(flat_default(d.drop_last()), default_pairs(d.last().0@, d.last().1))
    }
}

/// The rebound table flattened like the default one.
pub open spec fn flat_rebound(d: Seq<(String, ReboundEntry)>) -> Seq<(Seq<char>, Seq<char>)>
    decreases d.len(),
{
    if d.len() == 0 {
        Seq::empty()
    } else {
        insert_all(flat_rebound(d.drop_last()), rebound_pairs(d.last().0@, d.last().1))
    }
}

/// What a value refers to: the value of the binding it names, else the key
/// code of the input it names, else itself.
pub open spec fn resolve_value(snap: Seq<(Seq<char>, Seq<char>)>, refs: Map<Seq<char>, Seq<char>>, v: Seq<char>) -> Seq<char> {
    match pair_lookup(snap, v) {
        Some(r) => r,
        None => if refs.contains_key(v) {
            refs[v]
        } else {
            v
        },
    }
}

/// One pass of following references, every value looked up in the table as
/// it was before the pass.
pub open spec fn resolve_pass(s: Seq<(Seq<char>, Seq<char>)>, refs: Map<Seq<char>, Seq<char>>) -> Seq<(Seq<char>, Seq<char>)> {
    s.map_values(|p: (Seq<char>, Seq<char>)| (p.0, resolve_value(s, refs, p.1)))
}

pub open spec fn resolve_iter(s: Seq<(Seq<char>, Seq<char>)>, refs: Map<Seq<char>, Seq<char>>, n: nat) -> Seq<(Seq<char>, Seq<char>)>
    decreases n,
{
    if n == 0 {
        s
    } else {
        resolve_pass(resolve_iter(s, refs, (n - 1) as nat), refs)
    }
}

/// A pass changes nothing.
pub open spec fn is_settled(s: Seq<(Seq<char>, Seq<char>)>, refs: Map<Seq<char>, Seq<char>>) -> bool {
    resolve_pass(s, refs) == s
}

/// Passes reach a table that a further pass leaves alone. (A cycle of
/// references can keep them changing forever.)
pub open spec fn settles(s: Seq<(Seq<char>, Seq<char>)>, refs: Map<Seq<char>, Seq<char>>) -> bool {
    exists|n: nat| is_settled(#[trigger] resolve_iter(s, refs, n), refs)
}

/// Some count of passes up to `n` reaches a table that a further pass leaves
/// alone.
pub open spec fn settles_within(s: Seq<(Seq<char>, Seq<char>)>, refs: Map<Seq<char>, Seq<char>>, n: nat) -> bool {
    exists|m: nat| m <= n && is_settled(#[trigger] resolve_iter(s, refs, m), refs)
}

pub open spec fn settles_first_at(s: Seq<(Seq<char>, Seq<char>)>, refs: Map<Seq<char>, Seq<char>>, n: nat) -> bool {
    &&& is_settled(resolve_iter(s, refs, n), refs)
    &&& forall|m: nat| m < n ==> !is_settled(#[trigger] resolve_iter(s, refs, m), refs)
}

/// The table once references have been followed until nothing changes.
pub open spec fn resolved(s: Seq<(Seq<char>, Seq<char>)>, refs: Map<Seq<char>, Seq<char>>) -> Seq<(Seq<char>, Seq<char>)> {
    resolve_iter(s, refs, choose|n: nat| settles_first_at(s, refs, n))
}

/// Inputs given by key-code name, as references from input name to that name.
pub open spec fn button_refs(inputs: Map<Seq<char>, InputDef>) -> Map<Seq<char>, Seq<char>> {
    Map::new(
        |k: Seq<char>| inputs.contains_key(k) && inputs[k] is Button,
        |k: Seq<char>|
            match inputs[k] {
                InputDef::Button(s) => s@,
                _ => Seq::empty(),
            },
    )
}

pub open spec fn ref_views(m: Map<Seq<char>, String>) -> Map<Seq<char>, Seq<char>> {
    m.map_values(|s: String| s@)
}

/// The key codes of a flat table, in order; the first entry whose value is
/// no key code name is the error.
pub open spec fn parse_pairs(s: Seq<(Seq<char>, Seq<char>)>) -> Result<Seq<(Seq<char>, u16)>, (Seq<char>, Seq<char>)>
    decreases s.len(),
{
    if s.len() == 0 {
        Ok(Seq::empty())
    } else {
        match parse_pairs(s.drop_last()) {
            Ok(ps) => match key_code_for(s.last().1) {
                Some(c) => Ok(ps.push((s.last().0, c))),
                None => Err(s.last()),
            },
            Err(e) => Err(e),
        }
    }
}

/// The rebound controls that override a default and resolve to another value,
/// in the order of the defaults, each with the value written for it.
pub open spec fn changed_rebinds(
    df: Seq<(Seq<char>, Seq<char>)>,
    rf: Seq<(Seq<char>, Seq<char>)>,
    dres: Seq<(Seq<char>, Seq<char>)>,
    mres: Seq<(Seq<char>, Seq<char>)>,
) -> Seq<(Seq<char>, Seq<char>)>
    decreases df.len(),
{
    if df.len() == 0 {
        Seq::empty()
    } else {
        let rest = changed_rebinds(df.drop_last(), rf, dres, mres);
        let k = df.last().0;
        if pair_lookup(rf, k) is Some && pair_lookup(mres, k) != pair_lookup(dres, k) {
            rest.push((k, pair_lookup(rf, k).unwrap()))
        } else {
            rest
        }
    }
}

/// The resolved output as plain values: bindings, rebinds and whether only
/// rebound bindings were given.
pub struct ResolvedModel {
    pub bindings: Seq<(Seq<char>, u16)>,
    pub rebinds: Seq<(Seq<char>, Seq<char>)>,
    pub only_rebound: bool,
}

impl ResolvedOutput {
    pub open spec fn model(&self) -> ResolvedModel {
        ResolvedModel {
            bindings: binding_views(self.bindings.entries@),
            rebinds: pair_views(self.rebinds@),
            only_rebound: self.only_rebound,
        }
    }
}

impl OutputSection {
    pub open spec fn spec_has_rebinds(&self) -> bool {
        self.rebinds@.len() > 0
    }

    pub open spec fn spec_has_default(&self) -> bool {
        self.default@.len() > 0
    }

    /// Following references ends for the tables that `resolve` follows them in.
    pub open spec fn resolvable(&self, inputs: Map<Seq<char>, InputDef>) -> bool {
        let refs = button_refs(inputs);
        let df = flat_default(self.default@);
        let rf = flat_rebound(self.rebinds@);
        if self.spec_has_default() && !self.spec_has_rebinds() {
            true
        } else if !self.spec_has_default() && self.spec_has_rebinds() {
            settles(rf, refs)
        } else {
            settles(df, refs) && settles(insert_all(df, rf), refs)
        }
    }

    /// `resolvable`, with at most `n` passes over each table that `resolve`
    /// follows references in.
    pub open spec fn spec_resolvable_within(&self, inputs: Map<Seq<char>, InputDef>, n: nat) -> bool {
        let refs = button_refs(inputs);
        let df = flat_default(self.default@);
        let rf = flat_rebound(self.rebinds@);
        if self.spec_has_default() && !self.spec_has_rebinds() {
            true
        } else if !self.spec_has_default() && self.spec_has_rebinds() {
            settles_within(rf, refs, n)
        } else {
            settles_within(df, refs, n) && settles_within(insert_all(df, rf), refs, n)
        }
    }

    /// What `resolve` gives: with only defaults, the defaults parsed as they
    /// are; with only rebinds, the rebinds resolved and parsed, every one of
    /// them listed with the value as written; with both (or neither), the
    /// rebinds merged over the defaults, resolved and parsed, listing the
    /// rebound defaults whose resolved value changed.
    pub open spec fn spec_resolve(&self, inputs: Map<Seq<char>, InputDef>) -> Result<ResolvedModel, (Seq<char>, Seq<char>)> {
        let refs = button_refs(inputs);
        let df = flat_default(self.default@);
        let rf = flat_rebound(self.rebinds@);
        if self.spec_has_default() && !self.spec_has_rebinds() {
            match parse_pairs(df) {
                Ok(b) => Ok(ResolvedModel { bindings: b, rebinds: Seq::empty(), only_rebound: false }),
                Err(e) => Err(e),
            }
        } else if !self.spec_has_default() && self.spec_has_rebinds() {
            match parse_pairs(resolved(rf, refs)) {
                Ok(b) => Ok(ResolvedModel { bindings: b, rebinds: rf, only_rebound: true }),
                Err(e) => Err(e),
            }
        } else {
            let merged = insert_all(df, rf);
            match parse_pairs(resolved(merged, refs)) {
                Ok(b) => Ok(
                    ResolvedModel {
                        bindings: b,
                        rebinds: changed_rebinds(df, rf, resolved(df, refs), resolved(merged, refs)),
                        only_rebound: false,
                    },
                ),
                Err(e) => Err(e),
            }
        }
    }
}

/// `name/action`.
fn context_name(name: &String, action: &String) -> (r: String)
    ensures
        r@ == context_key(name@, action@),
{
    let mut key = name.clone();
    key.append("/");
    key.append(action.as_str());
    proof {
        reveal_strlit("/");
    }
    key
}

/// Sets every action of a context, under `name/action`, in order.
fn insert_context(flat: &mut IndexMap<String, String>, name: &String, actions: &Vec<(String, String)>)
    ensures
        flat_entries(*final(flat)) == insert_all(flat_entries(*old(flat)), context_pairs(name@, actions@)),
{
    let ghost base = flat_entries(*flat);
    let mut j: usize = 0;
    while j < actions.len()
        invariant
            j <= actions@.len(),
            flat_entries(*flat) == insert_all(base, context_pairs(name@, actions@).take(j as int)),
        decreases actions@.len() - j,
    {
        let key = context_name(name, &actions[j].0);
        let value = actions[j].1.clone();
        flat_insert(flat, key, value);
        proof {
            let cp = context_pairs(name@, actions@);
            assert(cp.take(j + 1).drop_last() =~= cp.take(j as int));
            assert(cp.take(j + 1).last() == cp[j as int]);
        }
        j = j + 1;
    }
    assert(context_pairs(name@, actions@).take(j as int) =~= context_pairs(name@, actions@));
}

proof fn lemma_insert_all_one(s: Seq<(Seq<char>, Seq<char>)>, k: Seq<char>, v: Seq<char>)
    ensures
        insert_all(s, seq![(k, v)]) == ordered_insert(s, k, v),
{
    assert(seq![(k, v)].drop_last() =~= Seq::<(Seq<char>, Seq<char>)>::empty());
    assert(insert_all(s, Seq::<(Seq<char>, Seq<char>)>::empty()) == s);
    assert(seq![(k, v)].last() == (k, v));
}

/// Flattens the default table: actions of a context under `context/action`,
/// direct entries under their own name; a name set twice keeps its first
/// place and takes the later value.
pub fn flatten_default(default: &Vec<(String, DefaultEntry)>) -> (flat: IndexMap<String, String>)
    ensures
        flat_entries(flat) == flat_default(default@),
{
    let mut flat = flat_new();
    let mut i: usize = 0;
    while i < default.len()
        invariant
            i <= default@.len(),
            flat_entries(flat) == flat_default(default@.take(i as int)),
        decreases default@.len() - i,
    {
        let name = &default[i].0;
        match &default[i].1 {
            DefaultEntry::Context(actions) => {
                insert_context(&mut flat, name, actions);
            },
            DefaultEntry::Direct(key) => {
                let ghost before = flat_entries(flat);
                flat_insert(&mut flat, name.clone(), key.clone());
                proof {
                    lemma_insert_all_one(before, name@, key@);
                }
            },
        }
        proof {
            let d = default@;
            assert(d.take(i + 1).drop_last() =~= d.take(i as int));
            assert(d.take(i + 1).last() == d[i as int]);
        }
        i = i + 1;
    }
    assert(default@.take(i as int) =~= default@);
    flat
}

/// Flattens the rebound table like the default one.
pub fn flatten_rebound(rebound: &Vec<(String, ReboundEntry)>) -> (flat: IndexMap<String, String>)
    ensures
        flat_entries(flat) == flat_rebound(rebound@),
{
    let mut flat = flat_new();
    let mut i: usize = 0;
    while i < rebound.len()
        invariant
            i <= rebound@.len(),
            flat_entries(flat) == flat_rebound(rebound@.take(i as int)),
        decreases rebound@.len() - i,
    {
        let name = &rebound[i].0;
        match &rebound[i].1 {
            ReboundEntry::Context(actions) => {
                insert_context(&mut flat, name, actions);
            },
            ReboundEntry::Direct(key) => {
                let ghost before = flat_entries(flat);
                flat_insert(&mut flat, name.clone(), key.clone());
                proof {
                    lemma_insert_all_one(before, name@, key@);
                }
            },
        }
        proof {
            let d = rebound@;
            assert(d.take(i + 1).drop_last() =~= d.take(i as int));
            assert(d.take(i + 1).last() == d[i as int]);
        }
        i = i + 1;
    }
    assert(rebound@.take(i as int) =~= rebound@);
    flat
}

/// Once a pass changes nothing, further passes change nothing.
proof fn lemma_settled_stays(s: Seq<(Seq<char>, Seq<char>)>, refs: Map<Seq<char>, Seq<char>>, a: nat, b: nat)
    requires
        a <= b,
        is_settled(resolve_iter(s, refs, a), refs),
    ensures
        resolve_iter(s, refs, b) == resolve_iter(s, refs, a),
    decreases b,
{
    if b > a {
        lemma_settled_stays(s, refs, a, (b - 1) as nat);
    }
}

/// The first settled table is the same whichever settled count one starts from.
proof fn lemma_first_settled(s: Seq<(Seq<char>, Seq<char>)>, refs: Map<Seq<char>, Seq<char>>, n: nat)
    requires
        settles_first_at(s, refs, n),
    ensures
        resolved(s, refs) == resolve_iter(s, refs, n),
{
    let c = choose|m: nat| settles_first_at(s, refs, m);
    assert(settles_first_at(s, refs, c));
    if c < n {
        assert(!is_settled(resolve_iter(s, refs, c), refs));
    } else if c > n {
        assert(!is_settled(resolve_iter(s, refs, n), refs));
    }
}

/// One pass over `flat`: each value naming a binding takes that binding's
/// value (as it was at the start of the pass), one naming a key input takes
/// that input's key-code name. Whether any value changed.
fn resolve_pass_once(flat: &mut IndexMap<String, String>, input_refs: &NameMap<String>) -> (changed: bool)
    ensures
        flat_entries(*final(flat)) == resolve_pass(flat_entries(*old(flat)), ref_views(input_refs@)),
        changed == !is_settled(flat_entries(*old(flat)), ref_views(input_refs@)),
{
    let ghost refs = ref_views(input_refs@);
    let snapshot = flat_clone(flat);
    let ghost snap = flat_entries(snapshot);
    let mut changed = false;
    let len = flat_len(flat);
    let mut j: usize = 0;
    while j < len
        invariant
            len == snap.len(),
            j <= len,
            refs == ref_views(input_refs@),
            snap == flat_entries(snapshot),
            flat_entries(*flat).len() == snap.len(),
            forall|k: int| 0 <= k < j ==> #[trigger] flat_entries(*flat)[k] == resolve_pass(snap, refs)[k],
            forall|k: int| j <= k < snap.len() ==> #[trigger] flat_entries(*flat)[k] == snap[k],
            changed == exists|k: int| 0 <= k < j && #[trigger] resolve_value(snap, refs, snap[k].1) != snap[k].1,
        decreases len - j,
    {
        let value: String = flat_get_index(flat, j).unwrap().1.clone();
        assert(value@ == snap[j as int].1);
        let resolved_ref: Option<String> = match flat_get(&snapshot, value.as_str()) {
            Some(r) => Some(r.clone()),
            None => match input_refs.get(value.as_str()) {
                Some(r) => Some(r.clone()),
                None => None,
            },
        };
        assert(resolved_ref matches Some(r) ==> r@ == resolve_value(snap, refs, value@));
        assert(resolved_ref is None ==> resolve_value(snap, refs, value@) == value@);
        match resolved_ref {
            Some(r) => {
                if !(r == value) {
                    flat_set_value(flat, j, r);
                    changed = true;
                }
            },
            None => {},
        }
        proof {
            assert(flat_entries(*flat)[j as int] == resolve_pass(snap, refs)[j as int]);
            if resolve_value(snap, refs, snap[j as int].1) != snap[j as int].1 {
                assert(changed);
            }
        }
        j = j + 1;
    }
    proof {
        assert(flat_entries(*flat) =~= resolve_pass(snap, refs));
        if changed {
            let k = choose|k: int| 0 <= k < len && #[trigger] resolve_value(snap, refs, snap[k].1) != snap[k].1;
            assert(resolve_pass(snap, refs)[k] != snap[k]);
        } else {
            assert(resolve_pass(snap, refs) =~= snap);
        }
    }
    changed
}

/// Follows references in the values of `flat` until a pass changes nothing.
/// A value naming a binding takes that binding's value (as it was at the
/// start of the pass); one naming a key input takes that input's key-code name.
pub fn resolve_refs(flat: &mut IndexMap<String, String>, input_refs: &NameMap<String>)
    requires
        settles(flat_entries(*old(flat)), ref_views(input_refs@)),
    ensures
        flat_entries(*final(flat)) == resolved(flat_entries(*old(flat)), ref_views(input_refs@)),
        is_settled(flat_entries(*final(flat)), ref_views(input_refs@)),
{
    let ghost s0 = flat_entries(*flat);
    let ghost refs = ref_views(input_refs@);
    let ghost bound: nat = choose|n: nat| is_settled(#[trigger] resolve_iter(s0, refs, n), refs);
    let ghost mut passes: nat = 0;
    loop
        invariant
            flat_entries(*flat) == resolve_iter(s0, refs, passes),
            forall|m: nat| m < passes ==> !is_settled(#[trigger] resolve_iter(s0, refs, m), refs),
            is_settled(resolve_iter(s0, refs, bound), refs),
            refs == ref_views(input_refs@),
        ensures
            flat_entries(*flat) == resolve_iter(s0, refs, passes),
            settles_first_at(s0, refs, passes),
        decreases bound - passes,
    {
        let ghost before = flat_entries(*flat);
        let changed = resolve_pass_once(flat, input_refs);
        if !changed {
            break ;
        }
        proof {
            assert(!is_settled(before, refs));
            if passes >= bound {
                lemma_settled_stays(s0, refs, bound, passes);
            }
            passes = passes + 1;
        }
    }
    proof {
        lemma_first_settled(s0, refs, passes);
    }
}

/// Whether `passes` passes or fewer bring `flat` to a table that a further
/// pass leaves alone; where they do, `resolve_refs` may be called on it.
pub fn settles_in(flat: &IndexMap<String, String>, input_refs: &NameMap<String>, passes: u32) -> (r: bool)
    ensures
        r == settles_within(flat_entries(*flat), ref_views(input_refs@), passes as nat),
        r ==> settles(flat_entries(*flat), ref_views(input_refs@)),
{
    let ghost s0 = flat_entries(*flat);
    let ghost refs = ref_views(input_refs@);
    let mut work = flat_clone(flat);
    let mut i: u32 = 0;
    loop
        invariant
            i <= passes,
            s0 == flat_entries(*flat),
            refs == ref_views(input_refs@),
            flat_entries(work) == resolve_iter(s0, refs, i as nat),
            forall|m: nat| m < i ==> !is_settled(#[trigger] resolve_iter(s0, refs, m), refs),
        decreases passes - i,
    {
        let changed = resolve_pass_once(&mut work, input_refs);
        if !changed {
            assert(is_settled(resolve_iter(s0, refs, i as nat), refs));
            proof {
                lemma_settles_within_settles(s0, refs, passes as nat);
            }
            return true;
        }
        if i == passes {
            assert(!is_settled(resolve_iter(s0, refs, i as nat), refs));
            return false;
        }
        assert(resolve_iter(s0, refs, (i + 1) as nat) == resolve_pass(resolve_iter(s0, refs, i as nat), refs));
        i = i + 1;
    }
}

/// The inputs given by key-code name, as references from the input's name.
pub fn input_refs(inputs: &NameMap<InputDef>) -> (r: NameMap<String>)
    requires
        inputs.wf(),
    ensures
        ref_views(r@) == button_refs(inputs@),
{
    broadcast use lemma_key_index_props;

    let mut refs: NameMap<String> = NameMap::new();
    let mut i: usize = 0;
    while i < inputs.entries.len()
        invariant
            i <= inputs.entries@.len(),
            keys_distinct(inputs.entries@),
            ref_views(refs@) == button_refs(map_of(inputs.entries@.take(i as int))),
        decreases inputs.entries@.len() - i,
    {
        let ghost s = inputs.entries@;
        let ghost before = refs@;
        proof {
            assert(s.take(i + 1) =~= s.take(i as int).push(s[i as int]));
            lemma_map_of_push(s.take(i as int), s[i as int]);
            assert(!map_of(s.take(i as int)).contains_key(s[i as int].0@)) by {
                let t = s.take(i as int);
                lemma_key_index_props(t, s[i as int].0@);
                if key_index(t, s[i as int].0@) >= 0 {
                    let jj = key_index(t, s[i as int].0@);
                    assert(0 <= jj < i);
                    assert(t[jj] == s[jj]);
                    assert(s[jj].0@ != s[i as int].0@);
                }
            }
        }
        match &inputs.entries[i].1 {
            InputDef::Button(code_str) => {
                let key = inputs.entries[i].0.clone();
                let val = code_str.clone();
                refs.insert(key, val);
                proof {
                    let m0 = map_of(s.take(i as int));
                    let m1 = map_of(s.take(i + 1));
                    assert(m1 == m0.insert(s[i as int].0@, s[i as int].1));
                    assert(refs@ == before.insert(key@, val));
                    assert(ref_views(refs@) =~= ref_views(before).insert(key@, val@));
                    assert(button_refs(m1) =~= button_refs(m0).insert(key@, val@));
                }
            },
            _ => {
                proof {
                    let m0 = map_of(s.take(i as int));
                    let m1 = map_of(s.take(i + 1));
                    assert(!(s[i as int].1 is Button));
                    assert(m1 == m0.insert(s[i as int].0@, s[i as int].1));
                    assert forall|k: Seq<char>| #[trigger] button_refs(m1).contains_key(k) == button_refs(m0).contains_key(k) by {
                        if k == s[i as int].0@ {
                            assert(m1[k] == s[i as int].1);
                        }
                    }
                    assert(ref_views(refs@) =~= button_refs(m1));
                }
            },
        }
        i = i + 1;
    }
    assert(inputs.entries@.take(i as int) =~= inputs.entries@);
    refs
}

proof fn lemma_parse_err_persists(s: Seq<(Seq<char>, Seq<char>)>, i: int)
    requires
        0 <= i <= s.len(),
        parse_pairs(s.take(i)) is Err,
    ensures
        parse_pairs(s) == parse_pairs(s.take(i)),
    decreases s.len() - i,
{
    if i < s.len() {
        assert(s.take(i + 1).drop_last() =~= s.take(i));
        lemma_parse_err_persists(s, i + 1);
    } else {
        assert(s.take(i) =~= s);
    }
}

/// Parses every value of `flat` as a key-code name, in order; the first
/// value that is none fails the whole table.
pub fn parse_flat(flat: IndexMap<String, String>) -> (r: Result<NameMap<u16>, OutputError>)
    ensures
        match r {
            Ok(b) => parse_pairs(flat_entries(flat)) == Ok::<Seq<(Seq<char>, u16)>, (Seq<char>, Seq<char>)>(
                binding_views(b.entries@),
            ),
            Err(e) => parse_pairs(flat_entries(flat)) == Err::<Seq<(Seq<char>, u16)>, (Seq<char>, Seq<char>)>(
                (e.output@, e.code@),
            ),
        },
{
    let ghost s = flat_entries(flat);
    let mut bindings: NameMap<u16> = NameMap::new();
    let len = flat_len(&flat);
    let mut i: usize = 0;
    assert(s.take(0) =~= Seq::<(Seq<char>, Seq<char>)>::empty());
    assert(binding_views(bindings.entries@) =~= Seq::<(Seq<char>, u16)>::empty());
    while i < len
        invariant
            len == s.len(),
            i <= len,
            s == flat_entries(flat),
            parse_pairs(s.take(i as int)) == Ok::<Seq<(Seq<char>, u16)>, (Seq<char>, Seq<char>)>(
                binding_views(bindings.entries@),
            ),
        decreases len - i,
    {
        let (k, v) = flat_get_index(&flat, i).unwrap();
        proof {
            assert(s.take(i + 1).drop_last() =~= s.take(i as int));
            assert(s.take(i + 1).last() == s[i as int]);
        }
        match parse_key_code(v.as_str()) {
            Ok(code) => {
                let ghost before = bindings.entries@;
                bindings.entries.push((k.clone(), code));
                proof {
                    assert(binding_views(bindings.entries@) =~= binding_views(before).push((k@, code)));
                }
            },
            Err(_) => {
                proof {
                    lemma_parse_err_persists(s, i + 1);
                }
                return Err(OutputError { output: k.clone(), code: v.clone() });
            },
        }
        i = i + 1;
    }
    assert(s.take(i as int) =~= s);
    Ok(bindings)
}

/// The entries of `flat`, in order.
fn pairs_of(flat: &IndexMap<String, String>) -> (r: Vec<(String, String)>)
    ensures
        pair_views(r@) == flat_entries(*flat),
{
    let ghost s = flat_entries(*flat);
    let mut out: Vec<(String, String)> = Vec::new();
    let len = flat_len(flat);
    let mut i: usize = 0;
    while i < len
        invariant
            len == s.len(),
            i <= len,
            s == flat_entries(*flat),
            pair_views(out@) == s.take(i as int),
        decreases len - i,
    {
        let (k, v) = flat_get_index(flat, i).unwrap();
        let ghost before = out@;
        out.push((k.clone(), v.clone()));
        proof {
            assert(pair_views(out@) =~= pair_views(before).push(s[i as int]));
            assert(s.take(i + 1) =~= s.take(i as int).push(s[i as int]));
        }
        i = i + 1;
    }
    assert(s.take(i as int) =~= s);
    out
}

/// Sets every entry of `src` in `m`, in order.
fn insert_each(m: &mut IndexMap<String, String>, src: &IndexMap<String, String>)
    ensures
        flat_entries(*final(m)) == insert_all(flat_entries(*old(m)), flat_entries(*src)),
{
    let ghost base = flat_entries(*m);
    let ghost s = flat_entries(*src);
    let len = flat_len(src);
    let mut i: usize = 0;
    while i < len
        invariant
            len == s.len(),
            i <= len,
            s == flat_entries(*src),
            flat_entries(*m) == insert_all(base, s.take(i as int)),
        decreases len - i,
    {
        let (k, v) = flat_get_index(src, i).unwrap();
        flat_insert(m, k.clone(), v.clone());
        proof {
            assert(s.take(i + 1).drop_last() =~= s.take(i as int));
            assert(s.take(i + 1).last() == s[i as int]);
        }
        i = i + 1;
    }
    assert(s.take(i as int) =~= s);
}

/// The rebound controls that override a default and resolve to another
/// value, in the order of the defaults, each with the value written for it.
fn collect_changed(
    default_flat: &IndexMap<String, String>,
    rebound_flat: &IndexMap<String, String>,
    default_resolved: &IndexMap<String, String>,
    merged_resolved: &IndexMap<String, String>,
) -> (r: Vec<(String, String)>)
    ensures
        pair_views(r@) == changed_rebinds(
            flat_entries(*default_flat),
            flat_entries(*rebound_flat),
            flat_entries(*default_resolved),
            flat_entries(*merged_resolved),
        ),
{
    let ghost df = flat_entries(*default_flat);
    let ghost rf = flat_entries(*rebound_flat);
    let ghost dres = flat_entries(*default_resolved);
    let ghost mres = flat_entries(*merged_resolved);
    let mut out: Vec<(String, String)> = Vec::new();
    let len = flat_len(default_flat);
    let mut i: usize = 0;
    assert(pair_views(out@) =~= Seq::<(Seq<char>, Seq<char>)>::empty());
    while i < len
        invariant
            len == df.len(),
            i <= len,
            df == flat_entries(*default_flat),
            rf == flat_entries(*rebound_flat),
            dres == flat_entries(*default_resolved),
            mres == flat_entries(*merged_resolved),
            pair_views(out@) == changed_rebinds(df.take(i as int), rf, dres, mres),
        decreases len - i,
    {
        let (k, _) = flat_get_index(default_flat, i).unwrap();
        proof {
            assert(df.take(i + 1).drop_last() =~= df.take(i as int));
            assert(df.take(i + 1).last() == df[i as int]);
        }
        match flat_get(rebound_flat, k.as_str()) {
            Some(display) => {
                let differs = match (flat_get(merged_resolved, k.as_str()), flat_get(default_resolved, k.as_str())) {
                    (Some(a), Some(b)) => !(*a == *b),
                    (None, None) => false,
                    _ => true,
                };
                if differs {
                    let ghost before = out@;
                    out.push((k.clone(), display.clone()));
                    proof {
                        assert(pair_views(out@) =~= pair_views(before).push((k@, display@)));
                    }
                }
            },
            None => {},
        }
        i = i + 1;
    }
    assert(df.take(i as int) =~= df);
    out
}

impl OutputSection {
    pub fn has_rebinds(&self) -> (r: bool)
        ensures
            r == self.spec_has_rebinds(),
    {
        self.rebinds.len() > 0
    }

    /// Whether following references settles within `passes` passes over each
    /// table that `resolve` follows them in; where it does, `resolve` may be
    /// called.
    pub fn resolvable_within(&self, inputs: &NameMap<InputDef>, passes: u32) -> (r: bool)
        requires
            inputs.wf(),
        ensures
            r == self.spec_resolvable_within(inputs@, passes as nat),
            r ==> self.resolvable(inputs@),
    {
        let refs = input_refs(inputs);
        let has_default = self.default.len() > 0;
        let has_rebound = self.rebinds.len() > 0;
        if has_default && !has_rebound {
            return true;
        }
        if !has_default && has_rebound {
            let flat = flatten_rebound(&self.rebinds);
            let r = settles_in(&flat, &refs, passes);
            proof {
                if r {
                    lemma_settles_within_settles(flat_entries(flat), ref_views(refs@), passes as nat);
                }
            }
            return r;
        }
        let default_flat = flatten_default(&self.default);
        let rebound_flat = flatten_rebound(&self.rebinds);
        let mut merged = flat_clone(&default_flat);
        insert_each(&mut merged, &rebound_flat);
        let a = settles_in(&default_flat, &refs, passes);
        let b = settles_in(&merged, &refs, passes);
        proof {
            if a && b {
                lemma_settles_within_settles(flat_entries(default_flat), ref_views(refs@), passes as nat);
                lemma_settles_within_settles(flat_entries(merged), ref_views(refs@), passes as nat);
            }
        }
        a && b
    }

    /// Resolves the output bindings into key codes (see `spec_resolve`).
    /// References are followed until nothing changes, which ends unless the
    /// references form a cycle (see `resolvable`).
    pub fn resolve(self, inputs: &NameMap<InputDef>) -> (r: Result<ResolvedOutput, OutputError>)
        requires
            inputs.wf(),
            self.resolvable(inputs@),
        ensures
            match r {
                Ok(o) => self.spec_resolve(inputs@) == Ok::<ResolvedModel, (Seq<char>, Seq<char>)>(o.model()),
                Err(e) => self.spec_resolve(inputs@) == Err::<ResolvedModel, (Seq<char>, Seq<char>)>(
                    (e.output@, e.code@),
                ),
            },
    {
        let refs = input_refs(inputs);
        let has_default = self.default.len() > 0;
        let has_rebound = self.rebinds.len() > 0;
        if has_default && !has_rebound {
            let flat = flatten_default(&self.default);
            return match parse_flat(flat) {
                Ok(bindings) => {
                    let rebinds: Vec<(String, String)> = Vec::new();
                    assert(pair_views(rebinds@) =~= Seq::<(Seq<char>, Seq<char>)>::empty());
                    Ok(ResolvedOutput { bindings, rebinds, only_rebound: false })
                },
                Err(e) => Err(e),
            };
        }
        if !has_default && has_rebound {
            let mut flat = flatten_rebound(&self.rebinds);
            let rebinds = pairs_of(&flat);
            resolve_refs(&mut flat, &refs);
            return match parse_flat(flat) {
                Ok(bindings) => Ok(ResolvedOutput { bindings, rebinds, only_rebound: true }),
                Err(e) => Err(e),
            };
        }
        let default_flat = flatten_default(&self.default);
        let rebound_flat = flatten_rebound(&self.rebinds);
        let mut merged = flat_clone(&default_flat);
        insert_each(&mut merged, &rebound_flat);
        let mut default_resolved = flat_clone(&default_flat);
        resolve_refs(&mut default_resolved, &refs);
        resolve_refs(&mut merged, &refs);
        let rebinds = collect_changed(&default_flat, &rebound_flat, &default_resolved, &merged);
        match parse_flat(merged) {
            Ok(bindings) => Ok(ResolvedOutput { bindings, rebinds, only_rebound: false }),
            Err(e) => Err(e),
        }
    }
}

/// `  binding -> label`.
pub open spec fn rebind_line(binding: Seq<char>, label: Seq<char>) -> Seq<char> {
    seq![' ', ' '] + binding + seq![' ', '-', '>', ' '] + label
}

/// The reminder printed after resolving: nothing when there is nothing to
/// rebind; otherwise a blank line, a heading, one line per control to rebind,
/// a note that the others are default unless only rebinds were given, and a
/// blank line.
pub open spec fn rebind_report(m: ResolvedModel) -> Seq<Seq<char>> {
    if m.rebinds.len() == 0 {
        Seq::empty()
    } else {
        let head = seq![Seq::<char>::empty(), "HEY YOU!"@, "Remember to rebind the following controls in-game:"@];
        let body = m.rebinds.map_values(|p: (Seq<char>, Seq<char>)| rebind_line(p.0, p.1));
        let note = if m.only_rebound {
            Seq::<Seq<char>>::empty()
        } else {
            seq!["All other controls are default."@]
        };
        head + body + note + seq![Seq::<char>::empty()]
    }
}

fn line_of(binding: &String, label: &String) -> (r: String)
    ensures
        r@ == rebind_line(binding@, label@),
{
    let mut line = String::new();
    line.append("  ");
    line.append(binding.as_str());
    line.append(" -> ");
    line.append(label.as_str());
    proof {
        reveal_strlit("  ");
        reveal_strlit(" -> ");
        assert(line@ =~= rebind_line(binding@, label@));
    }
    line
}

/// The lines of the reminder to rebind controls in-game.
pub fn rebind_lines(resolved: &ResolvedOutput) -> (r: Vec<String>)
    ensures
        r@.map_values(|l: String| l@) == rebind_report(resolved.model()),
{
    let ghost m = resolved.model();
    let mut lines: Vec<String> = Vec::new();
    if resolved.rebinds.len() == 0 {
        assert(lines@.map_values(|l: String| l@) =~= rebind_report(m));
        return lines;
    }
    lines.push(String::new());
    lines.push(String::from_str("HEY YOU!"));
    lines.push(String::from_str("Remember to rebind the following controls in-game:"));
    let ghost head = lines@.map_values(|l: String| l@);
    let mut i: usize = 0;
    while i < resolved.rebinds.len()
        invariant
            i <= resolved.rebinds@.len(),
            m == resolved.model(),
            lines@.len() == 3 + i,
            forall|j: int| 0 <= j < 3 ==> #[trigger] lines@[j]@ == head[j],
            forall|j: int|
                0 <= j < i ==> #[trigger] lines@[3 + j]@ == rebind_line(m.rebinds[j].0, m.rebinds[j].1),
        decreases resolved.rebinds@.len() - i,
    {
        let line = line_of(&resolved.rebinds[i].0, &resolved.rebinds[i].1);
        lines.push(line);
        i = i + 1;
    }
    if !resolved.only_rebound {
        lines.push(String::from_str("All other controls are default."));
    }
    lines.push(String::new());
    proof {
        let total = rebind_report(m);
        let hd = seq![Seq::<char>::empty(), "HEY YOU!"@, "Remember to rebind the following controls in-game:"@];
        let body = m.rebinds.map_values(|p: (Seq<char>, Seq<char>)| rebind_line(p.0, p.1));
        let note = if m.only_rebound {
            Seq::<Seq<char>>::empty()
        } else {
            seq!["All other controls are default."@]
        };
        assert(total == hd + body + note + seq![Seq::<char>::empty()]);
        assert(head =~= hd);
        let n = m.rebinds.len();
        assert(lines@.len() == total.len());
        assert forall|j: int| 0 <= j < total.len() implies #[trigger] lines@[j]@ == total[j] by {
            if j < 3 {
                assert(lines@[j]@ == head[j]);
            } else if j < 3 + n {
                assert(lines@[3 + (j - 3)]@ == rebind_line(m.rebinds[j - 3].0, m.rebinds[j - 3].1));
            }
        }
        assert(lines@.map_values(|l: String| l@) =~= rebind_report(m));
    }
    lines
}

proof fn lemma_settles_within_settles(s: Seq<(Seq<char>, Seq<char>)>, refs: Map<Seq<char>, Seq<char>>, n: nat)
    requires
        settles_within(s, refs, n),
    ensures
        settles(s, refs),
{
    let m = choose|m: nat| m <= n && is_settled(#[trigger] resolve_iter(s, refs, m), refs);
    assert(is_settled(resolve_iter(s, refs, m), refs));
}

proof fn lemma_settles_within_more(s: Seq<(Seq<char>, Seq<char>)>, refs: Map<Seq<char>, Seq<char>>, n: nat, k: nat)
    requires
        is_settled(resolve_iter(s, refs, n), refs),
        n <= k,
    ensures
        settles_within(s, refs, k),
{
    assert(is_settled(resolve_iter(s, refs, n), refs));
}

/// Where references settle at all, they settle within some count of passes:
/// a large enough budget for `resolvable_within` accepts every output that
/// `resolve` can follow to the end.
pub proof fn lemma_resolvable_within_some_passes(out: OutputSection, inputs: Map<Seq<char>, InputDef>)
    requires
        out.resolvable(inputs),
    ensures
        exists|n: nat| #[trigger] out.spec_resolvable_within(inputs, n),
{
    let refs = button_refs(inputs);
    let df = flat_default(out.default@);
    let rf = flat_rebound(out.rebinds@);
    let merged = insert_all(df, rf);
    if out.spec_has_default() && !out.spec_has_rebinds() {
        assert(out.spec_resolvable_within(inputs, 0));
    } else if !out.spec_has_default() && out.spec_has_rebinds() {
        let a = choose|n: nat| is_settled(#[trigger] resolve_iter(rf, refs, n), refs);
        lemma_settles_within_more(rf, refs, a, a);
        assert(out.spec_resolvable_within(inputs, a));
    } else {
        let a = choose|n: nat| is_settled(#[trigger] resolve_iter(df, refs, n), refs);
        let b = choose|n: nat| is_settled(#[trigger] resolve_iter(merged, refs, n), refs);
        let n: nat = if a <= b { b } else { a };
        lemma_settles_within_more(df, refs, a, n);
        lemma_settles_within_more(merged, refs, b, n);
        assert(out.spec_resolvable_within(inputs, n));
    }
}

/// Following references changes values only: the table keeps its names, in
/// the same order.
pub proof fn lemma_resolve_keeps_names(s: Seq<(Seq<char>, Seq<char>)>, refs: Map<Seq<char>, Seq<char>>)
    ensures
        resolved(s, refs).len() == s.len(),
        forall|i: int| 0 <= i < s.len() ==> #[trigger] resolved(s, refs)[i].0 == s[i].0,
{
    lemma_iter_keeps_names(s, refs, choose|n: nat| settles_first_at(s, refs, n));
}

proof fn lemma_iter_keeps_names(s: Seq<(Seq<char>, Seq<char>)>, refs: Map<Seq<char>, Seq<char>>, n: nat)
    ensures
        resolve_iter(s, refs, n).len() == s.len(),
        forall|i: int| 0 <= i < s.len() ==> #[trigger] resolve_iter(s, refs, n)[i].0 == s[i].0,
    decreases n,
{
    if n > 0 {
        lemma_iter_keeps_names(s, refs, (n - 1) as nat);
        let prev = resolve_iter(s, refs, (n - 1) as nat);
        assert forall|i: int| 0 <= i < s.len() implies #[trigger] resolve_iter(s, refs, n)[i].0 == s[i].0 by {
            assert(resolve_iter(s, refs, n)[i] == resolve_pass(prev, refs)[i]);
            assert(prev[i].0 == s[i].0);
        }
    }
}

/// The resolved bindings are the table's entries in order, each with the key
/// code its value names.
pub proof fn lemma_parsed_bindings_follow_table(s: Seq<(Seq<char>, Seq<char>)>)
    requires
        parse_pairs(s) is Ok,
    ensures
        parse_pairs(s)->Ok_0.len() == s.len(),
        forall|i: int|
            0 <= i < s.len() ==> #[trigger] parse_pairs(s)->Ok_0[i].0 == s[i].0 && key_code_for(s[i].1)
                == Some(parse_pairs(s)->Ok_0[i].1),
    decreases s.len(),
{
    if s.len() > 0 {
        lemma_parsed_bindings_follow_table(s.drop_last());
        let ps = parse_pairs(s.drop_last())->Ok_0;
        assert forall|i: int| 0 <= i < s.len() implies #[trigger] parse_pairs(s)->Ok_0[i].0 == s[i].0
            && key_code_for(s[i].1) == Some(parse_pairs(s)->Ok_0[i].1) by {
            if i < s.len() - 1 {
                assert(parse_pairs(s)->Ok_0[i] == ps[i]);
                assert(s.drop_last()[i] == s[i]);
            }
        }
    }
}

/// `k` steps along a chain of references in the table `s` as written: a value
/// naming a binding leads to that binding's value, one naming a key input to
/// its key-code name, and any other value stays where it is.
pub open spec fn follow(s: Seq<(Seq<char>, Seq<char>)>, refs: Map<Seq<char>, Seq<char>>, v: Seq<char>, k: nat) -> Seq<char>
    decreases k,
{
    if k == 0 {
        v
    } else {
        follow(s, refs, resolve_value(s, refs, v), (k - 1) as nat)
    }
}

proof fn lemma_follow_compose(s: Seq<(Seq<char>, Seq<char>)>, refs: Map<Seq<char>, Seq<char>>, v: Seq<char>, a: nat, b: nat)
    ensures
        follow(s, refs, v, a + b) == follow(s, refs, follow(s, refs, v, a), b),
    decreases a,
{
    if a > 0 {
        lemma_follow_compose(s, refs, resolve_value(s, refs, v), (a - 1) as nat, b);
        assert((a + b - 1) as nat == ((a - 1) as nat + b));
    }
}

proof fn lemma_pair_index_same_names(a: Seq<(Seq<char>, Seq<char>)>, b: Seq<(Seq<char>, Seq<char>)>, k: Seq<char>)
    requires
        a.len() == b.len(),
        forall|i: int| 0 <= i < a.len() ==> #[trigger] a[i].0 == b[i].0,
    ensures
        pair_index(a, k) == pair_index(b, k),
    decreases a.len(),
{
    if a.len() > 0 {
        lemma_pair_index_same_names(a.drop_last(), b.drop_last(), k);
        assert(a.last().0 == b.last().0) by {
            assert(a[a.len() - 1].0 == b[b.len() - 1].0);
        }
    }
}

proof fn lemma_pair_index_range(s: Seq<(Seq<char>, Seq<char>)>, k: Seq<char>)
    ensures
        -1 <= pair_index(s, k) < s.len(),
        pair_index(s, k) >= 0 ==> s[pair_index(s, k)].0 == k,
    decreases s.len(),
{
    if s.len() > 0 {
        lemma_pair_index_range(s.drop_last(), k);
    }
}

/// How many steps along the written table lead from entry `i`'s value to
/// its value after `n` passes.
proof fn lemma_iter_follows(s: Seq<(Seq<char>, Seq<char>)>, refs: Map<Seq<char>, Seq<char>>, n: nat, i: int) -> (k: nat)
    requires
        0 <= i < s.len(),
    ensures
        follow(s, refs, s[i].1, k) == resolve_iter(s, refs, n)[i].1,
        k >= n,
    decreases n,
{
    if n == 0 {
        0
    } else {
        let prev = resolve_iter(s, refs, (n - 1) as nat);
        lemma_iter_keeps_names(s, refs, (n - 1) as nat);
        let a = prev[i].1;
        let k1 = lemma_iter_follows(s, refs, (n - 1) as nat, i);
        assert(resolve_iter(s, refs, n)[i] == resolve_pass(prev, refs)[i]);
        assert(resolve_iter(s, refs, n)[i].1 == resolve_value(prev, refs, a));
        lemma_pair_index_same_names(prev, s, a);
        lemma_pair_index_range(prev, a);
        let j = pair_index(prev, a);
        if j >= 0 {
            assert(resolve_value(prev, refs, a) == prev[j].1);
            assert(resolve_value(s, refs, a) == s[j].1);
            let k2 = lemma_iter_follows(s, refs, (n - 1) as nat, j);
            let k3: nat = k2 + 1;
            assert(follow(s, refs, a, k3) == follow(s, refs, s[j].1, k2));
            lemma_follow_compose(s, refs, s[i].1, k1, k3);
            k1 + k3
        } else {
            assert(resolve_value(prev, refs, a) == resolve_value(s, refs, a));
            assert(follow(s, refs, resolve_value(s, refs, a), 0) == resolve_value(s, refs, a));
            assert(follow(s, refs, a, 1) == resolve_value(s, refs, a));
            lemma_follow_compose(s, refs, s[i].1, k1, 1);
            k1 + 1
        }
    }
}

proof fn lemma_first_settled_exists(s: Seq<(Seq<char>, Seq<char>)>, refs: Map<Seq<char>, Seq<char>>, n: nat)
    requires
        is_settled(resolve_iter(s, refs, n), refs),
    ensures
        exists|m: nat| settles_first_at(s, refs, m),
    decreases n,
{
    if exists|m: nat| m < n && is_settled(#[trigger] resolve_iter(s, refs, m), refs) {
        let m = choose|m: nat| m < n && is_settled(#[trigger] resolve_iter(s, refs, m), refs);
        lemma_first_settled_exists(s, refs, m);
    } else {
        assert(settles_first_at(s, refs, n));
    }
}

/// Where references settle, the resolved value of entry `i` lies on the
/// chain of references that starts at its value in the table as written, and
/// one more step along the resolved table changes no value.
pub proof fn lemma_resolved_values_follow_references(s: Seq<(Seq<char>, Seq<char>)>, refs: Map<Seq<char>, Seq<char>>, i: int)
    requires
        settles(s, refs),
        0 <= i < s.len(),
    ensures
        exists|k: nat| follow(s, refs, s[i].1, k) == resolved(s, refs)[i].1,
        is_settled(resolved(s, refs), refs),
{
    let n = choose|n: nat| is_settled(#[trigger] resolve_iter(s, refs, n), refs);
    lemma_first_settled_exists(s, refs, n);
    let c = choose|m: nat| settles_first_at(s, refs, m);
    lemma_first_settled(s, refs, c);
    let k = lemma_iter_follows(s, refs, c, i);
    assert(follow(s, refs, s[i].1, k) == resolved(s, refs)[i].1);
}

/// `v` leads nowhere further: one step along the written table keeps it.
pub open spec fn is_chain_end(s: Seq<(Seq<char>, Seq<char>)>, refs: Map<Seq<char>, Seq<char>>, v: Seq<char>) -> bool {
    resolve_value(s, refs, v) == v
}

/// Within `d` steps, the chain of references from every value of the table
/// ends: the references form no cycle, but for a value naming itself.
pub open spec fn chains_end_within(s: Seq<(Seq<char>, Seq<char>)>, refs: Map<Seq<char>, Seq<char>>, d: nat) -> bool {
    forall|i: int| 0 <= i < s.len() ==> #[trigger] is_chain_end(s, refs, follow(s, refs, s[i].1, d))
}

proof fn lemma_follow_end(s: Seq<(Seq<char>, Seq<char>)>, refs: Map<Seq<char>, Seq<char>>, v: Seq<char>, m: nat)
    requires
        is_chain_end(s, refs, v),
    ensures
        follow(s, refs, v, m) == v,
    decreases m,
{
    if m > 0 {
        lemma_follow_end(s, refs, v, (m - 1) as nat);
    }
}

proof fn lemma_follow_past_end(s: Seq<(Seq<char>, Seq<char>)>, refs: Map<Seq<char>, Seq<char>>, v: Seq<char>, d: nat, m: nat)
    requires
        is_chain_end(s, refs, follow(s, refs, v, d)),
        m >= d,
    ensures
        follow(s, refs, v, m) == follow(s, refs, v, d),
{
    let rest: nat = (m - d) as nat;
    lemma_follow_compose(s, refs, v, d, rest);
    assert(d + rest == m);
    lemma_follow_end(s, refs, follow(s, refs, v, d), rest);
}

/// Where the chain of references from every value ends within `d` steps (no
/// cycle, but for a value naming itself), `d` passes settle the table: the
/// references are followed to the end and `resolve` can follow them.
pub proof fn lemma_chains_ending_settle(s: Seq<(Seq<char>, Seq<char>)>, refs: Map<Seq<char>, Seq<char>>, d: nat)
    requires
        chains_end_within(s, refs, d),
    ensures
        is_settled(resolve_iter(s, refs, d), refs),
        settles_within(s, refs, d),
        settles(s, refs),
{
    let t = resolve_iter(s, refs, d);
    lemma_iter_keeps_names(s, refs, d);
    assert forall|i: int| 0 <= i < s.len() implies #[trigger] t[i].1 == follow(s, refs, s[i].1, d) by {
        let k = lemma_iter_follows(s, refs, d, i);
        assert(is_chain_end(s, refs, follow(s, refs, s[i].1, d)));
        lemma_follow_past_end(s, refs, s[i].1, d, k);
    }
    assert forall|i: int| 0 <= i < t.len() implies #[trigger] resolve_pass(t, refs)[i] == t[i] by {
        let w = t[i].1;
        assert(w == follow(s, refs, s[i].1, d));
        assert(is_chain_end(s, refs, w));
        lemma_pair_index_same_names(t, s, w);
        lemma_pair_index_range(t, w);
        let j = pair_index(t, w);
        if j >= 0 {
            assert(resolve_value(s, refs, w) == s[j].1);
            assert(s[j].1 == w);
            assert(t[j].1 == follow(s, refs, s[j].1, d));
            lemma_follow_end(s, refs, w, d);
            assert(resolve_value(t, refs, w) == t[j].1);
        } else {
            assert(resolve_value(t, refs, w) == resolve_value(s, refs, w));
        }
        assert(resolve_pass(t, refs)[i] == (t[i].0, resolve_value(t, refs, w)));
    }
    assert(resolve_pass(t, refs) =~= t);
    assert(is_settled(resolve_iter(s, refs, d), refs));
    assert(settles_within(s, refs, d));
}

proof fn lemma_pair_index_found(s: Seq<(Seq<char>, Seq<char>)>, k: Seq<char>)
    ensures
        pair_index(s, k) >= 0 <==> exists|i: int| 0 <= i < s.len() && #[trigger] s[i].0 == k,
    decreases s.len(),
{
    lemma_pair_index_range(s, k);
    if s.len() > 0 {
        let d = s.drop_last();
        lemma_pair_index_found(d, k);
        if exists|i: int| 0 <= i < s.len() && #[trigger] s[i].0 == k {
            let i = choose|i: int| 0 <= i < s.len() && #[trigger] s[i].0 == k;
            if i < s.len() - 1 {
                assert(d[i].0 == k);
            } else {
                assert(s.last().0 == k);
            }
        }
        if pair_index(d, k) >= 0 {
            let i = choose|i: int| 0 <= i < d.len() && #[trigger] d[i].0 == k;
            assert(s[i].0 == k);
        }
    }
}

proof fn lemma_changed_rebinds_members(
    df: Seq<(Seq<char>, Seq<char>)>,
    rf: Seq<(Seq<char>, Seq<char>)>,
    dres: Seq<(Seq<char>, Seq<char>)>,
    mres: Seq<(Seq<char>, Seq<char>)>,
)
    ensures
        forall|k: Seq<char>|
            (exists|j: int| 0 <= j < changed_rebinds(df, rf, dres, mres).len() && #[trigger] changed_rebinds(df, rf, dres, mres)[j].0 == k)
                <==> ((exists|i: int| 0 <= i < df.len() && #[trigger] df[i].0 == k) && pair_lookup(rf, k) is Some
                && pair_lookup(mres, k) != pair_lookup(dres, k)),
        forall|j: int|
            0 <= j < changed_rebinds(df, rf, dres, mres).len() ==> Some(#[trigger] changed_rebinds(df, rf, dres, mres)[j].1)
                == pair_lookup(rf, changed_rebinds(df, rf, dres, mres)[j].0),
    decreases df.len(),
{
    if df.len() > 0 {
        let d = df.drop_last();
        lemma_changed_rebinds_members(d, rf, dres, mres);
        let rest = changed_rebinds(d, rf, dres, mres);
        let cr = changed_rebinds(df, rf, dres, mres);
        let kl = df.last().0;
        let listed = pair_lookup(rf, kl) is Some && pair_lookup(mres, kl) != pair_lookup(dres, kl);
        assert(cr == if listed { rest.push((kl, pair_lookup(rf, kl).unwrap())) } else { rest });
        assert forall|k: Seq<char>|
            (exists|j: int| 0 <= j < cr.len() && #[trigger] cr[j].0 == k)
                <==> ((exists|i: int| 0 <= i < df.len() && #[trigger] df[i].0 == k) && pair_lookup(rf, k) is Some
                && pair_lookup(mres, k) != pair_lookup(dres, k)) by {
            if exists|j: int| 0 <= j < cr.len() && #[trigger] cr[j].0 == k {
                let j = choose|j: int| 0 <= j < cr.len() && #[trigger] cr[j].0 == k;
                if j < rest.len() {
                    assert(rest[j].0 == k);
                    let i = choose|i: int| 0 <= i < d.len() && #[trigger] d[i].0 == k;
                    assert(df[i].0 == k);
                } else {
                    assert(k == kl);
                    assert(df[df.len() - 1].0 == k);
                }
            }
            if (exists|i: int| 0 <= i < df.len() && #[trigger] df[i].0 == k) && pair_lookup(rf, k) is Some
                && pair_lookup(mres, k) != pair_lookup(dres, k) {
                let i = choose|i: int| 0 <= i < df.len() && #[trigger] df[i].0 == k;
                if i < df.len() - 1 {
                    assert(d[i].0 == k);
                    let j = choose|j: int| 0 <= j < rest.len() && #[trigger] rest[j].0 == k;
                    assert(cr[j].0 == k);
                } else {
                    assert(k == kl);
                    assert(cr[cr.len() - 1].0 == k);
                }
            }
        }
        assert forall|j: int| 0 <= j < cr.len() implies Some(#[trigger] cr[j].1) == pair_lookup(rf, cr[j].0) by {
            if j < rest.len() {
                assert(cr[j] == rest[j]);
            }
        }
    }
}

/// The reminder to rebind controls in-game, where a profile gives both
/// defaults and rebinds, lists a control exactly when it has a default and a
/// rebind and the rebind, once references are followed, gives it another key
/// than its default does; a rebind that resolves to the default's key is not
/// listed. Each listed control carries its rebind as written.
pub proof fn lemma_reminder_lists_changed_controls(out: OutputSection, inputs: Map<Seq<char>, InputDef>, m: ResolvedModel)
    requires
        out.spec_has_default(),
        out.spec_has_rebinds(),
        out.spec_resolve(inputs) == Ok::<ResolvedModel, (Seq<char>, Seq<char>)>(m),
    ensures
        ({
            let refs = button_refs(inputs);
            let df = flat_default(out.default@);
            let rf = flat_rebound(out.rebinds@);
            let merged = insert_all(df, rf);
            &&& forall|k: Seq<char>|
                (exists|j: int| 0 <= j < m.rebinds.len() && #[trigger] m.rebinds[j].0 == k) <==> (pair_lookup(df, k) is Some
                    && pair_lookup(rf, k) is Some && pair_lookup(resolved(merged, refs), k) != pair_lookup(
                    resolved(df, refs),
                    k,
                ))
            &&& forall|j: int| 0 <= j < m.rebinds.len() ==> Some(#[trigger] m.rebinds[j].1) == pair_lookup(rf, m.rebinds[j].0)
        }),
{
    let refs = button_refs(inputs);
    let df = flat_default(out.default@);
    let rf = flat_rebound(out.rebinds@);
    let merged = insert_all(df, rf);
    assert(m.rebinds == changed_rebinds(df, rf, resolved(df, refs), resolved(merged, refs)));
    lemma_changed_rebinds_members(df, rf, resolved(df, refs), resolved(merged, refs));
    assert forall|k: Seq<char>| #[trigger] pair_lookup(df, k) is Some <==> exists|i: int| 0 <= i < df.len() && #[trigger] df[i].0 == k by {
        lemma_pair_index_found(df, k);
    }
}

} // verus!
