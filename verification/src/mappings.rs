//! What the engine asks of the virtual output device, the mapping tables, and
//! the fixed key mappings.
use vstd::prelude::*;
use crate::names::{NameMap, map_of, key_index, keys_distinct, lemma_key_index_props};
use crate::profile::{MappingDef, ModifierDef};

verus! {

/// One request to the virtual output device.
#[derive(PartialEq, Eq, Structural, Clone, Copy, Debug)]
pub enum Action {
    /// Press a key.
    Press(u16),
    /// Release a key.
    Release(u16),
    /// Pass on a relative-axis movement: axis code and delta.
    RelayAxis(u16, i32),
    /// The input's mapping asks for timed or variable behaviour, which the
    /// engine does not carry out.
    Unimplemented,
}

/// A press of each key, in order.
pub open spec fn presses(keys: Seq<u16>) -> Seq<Action> {
    keys.map_values(|k: u16| Action::Press(k))
}

/// A release of each key, in order.
pub open spec fn releases(keys: Seq<u16>) -> Seq<Action> {
    keys.map_values(|k: u16| Action::Release(k))
}

/// A press then a release of each key, in order.
pub open spec fn taps(keys: Seq<u16>) -> Seq<Action>
    decreases keys.len(),
{
    if keys.len() == 0 {
        Seq::empty()
    } else {
        taps(keys.drop_last()) + seq![Action::Press(keys.last()), Action::Release(keys.last())]
    }
}

/// Appends a press of each key of `keys` to `out`.
pub fn push_presses(out: &mut Vec<Action>, keys: &Vec<u16>)
    ensures
        final(out)@ == old(out)@ + presses(keys@),
{
    let ghost start = out@;
    let mut i: usize = 0;
    while i < keys.len()
        invariant
            i <= keys@.len(),
            out@ == start + presses(keys@.take(i as int)),
        decreases keys@.len() - i,
    {
        out.push(Action::Press(keys[i]));
        i = i + 1;
        assert(presses(keys@.take(i as int)) =~= presses(keys@.take(i - 1)).push(Action::Press(keys@[i - 1])));
    }
    assert(keys@.take(i as int) =~= keys@);
}

/// Appends a release of each key of `keys` to `out`.
pub fn push_releases(out: &mut Vec<Action>, keys: &Vec<u16>)
    ensures
        final(out)@ == old(out)@ + releases(keys@),
{
    let ghost start = out@;
    let mut i: usize = 0;
    while i < keys.len()
        invariant
            i <= keys@.len(),
            out@ == start + releases(keys@.take(i as int)),
        decreases keys@.len() - i,
    {
        out.push(Action::Release(keys[i]));
        i = i + 1;
        assert(releases(keys@.take(i as int)) =~= releases(keys@.take(i - 1)).push(Action::Release(keys@[i - 1])));
    }
    assert(keys@.take(i as int) =~= keys@);
}

/// Appends a press then a release of each key of `keys` to `out`.
pub fn push_taps(out: &mut Vec<Action>, keys: &Vec<u16>)
    ensures
        final(out)@ == old(out)@ + taps(keys@),
{
    let ghost start = out@;
    let mut i: usize = 0;
    while i < keys.len()
        invariant
            i <= keys@.len(),
            out@ == start + taps(keys@.take(i as int)),
        decreases keys@.len() - i,
    {
        out.push(Action::Press(keys[i]));
        out.push(Action::Release(keys[i]));
        i = i + 1;
        assert(keys@.take(i as int).drop_last() =~= keys@.take(i - 1));
        assert(out@ =~= start + taps(keys@.take(i as int)));
    }
    assert(keys@.take(i as int) =~= keys@);
}

/// A fixed mapping from an input to output keys.
pub trait Mapping {
    /// The keys the mapping drives.
    spec fn keys(&self) -> Seq<u16>;

    /// Presses the mapping's keys.
    fn on_down(&mut self) -> (r: Vec<Action>)
        ensures
            r@ == presses(old(self).keys()),
            final(self).keys() == old(self).keys(),
    ;

    /// Releases the keys that `on_down` pressed.
    fn on_up(&mut self) -> (r: Vec<Action>)
        ensures
            r@ == releases(old(self).keys()),
            final(self).keys() == old(self).keys(),
    ;
}

/// Maps an input to one key.
pub struct SimpleKey {
    pub key: u16,
}

/// Maps an input to one key.
pub struct OneToOne {
    pub key: u16,
}

/// Maps an input to several keys pressed together.
pub struct MultiKey {
    pub keys: Vec<u16>,
}

impl SimpleKey {
    pub fn new(key: u16) -> (r: Self)
        ensures
            r.key == key,
    {
        SimpleKey { key }
    }
}

impl OneToOne {
    pub fn new(key: u16) -> (r: Self)
        ensures
            r.key == key,
    {
        OneToOne { key }
    }
}

impl MultiKey {
    pub fn new(keys: Vec<u16>) -> (r: Self)
        ensures
            r.keys@ == keys@,
    {
        MultiKey { keys }
    }
}

impl Mapping for SimpleKey {
    open spec fn keys(&self) -> Seq<u16> {
        seq![self.key]
    }

    fn on_down(&mut self) -> (r: Vec<Action>) {
        let mut v = Vec::new();
        v.push(Action::Press(self.key));
        assert(v@ =~= presses(seq![self.key]));
        v
    }

    fn on_up(&mut self) -> (r: Vec<Action>) {
        let mut v = Vec::new();
        v.push(Action::Release(self.key));
        assert(v@ =~= releases(seq![self.key]));
        v
    }
}

impl Mapping for OneToOne {
    open spec fn keys(&self) -> Seq<u16> {
        seq![self.key]
    }

    fn on_down(&mut self) -> (r: Vec<Action>) {
        let mut v = Vec::new();
        v.push(Action::Press(self.key));
        assert(v@ =~= presses(seq![self.key]));
        v
    }

    fn on_up(&mut self) -> (r: Vec<Action>) {
        let mut v = Vec::new();
        v.push(Action::Release(self.key));
        assert(v@ =~= releases(seq![self.key]));
        v
    }
}

impl Mapping for MultiKey {
    open spec fn keys(&self) -> Seq<u16> {
        self.keys@
    }

    fn on_down(&mut self) -> (r: Vec<Action>) {
        let mut v = Vec::new();
        push_presses(&mut v, &self.keys);
        assert(v@ =~= presses(self.keys@));
        v
    }

    fn on_up(&mut self) -> (r: Vec<Action>) {
        let mut v = Vec::new();
        push_releases(&mut v, &self.keys);
        assert(v@ =~= releases(self.keys@));
        v
    }
}

/// Releasing a fixed mapping lets go of exactly the keys that pressing it
/// pressed, in the same order.
pub proof fn lemma_mapping_release_matches_press(keys: Seq<u16>)
    ensures
        presses(keys).len() == releases(keys).len(),
        forall|i: int|
            0 <= i < keys.len() ==> presses(keys)[i] == Action::Press(keys[i]) && releases(keys)[i]
                == Action::Release(keys[i]),
{
}

/// The profile's mappings split into plain input mappings and modifiers.
pub struct ProcessedMappings {
    pub input_mappings: NameMap<MappingDef>,
    pub modifiers: NameMap<ModifierDef>,
}

/// The error type of `build_mappings`, which never fails.
pub struct BuildError;

pub open spec fn is_modifier_def(d: MappingDef) -> bool {
    d is Modifier
}

/// Splits the mapping definitions: modifiers go to their own table, every
/// other definition is an input mapping.
pub fn build_mappings(defs: NameMap<MappingDef>) -> (r: Result<ProcessedMappings, BuildError>)
    requires
        defs.wf(),
    ensures
        r matches Ok(p) && p.input_mappings.wf() && p.modifiers.wf() && (forall|k: Seq<char>|
            #[trigger] p.input_mappings@.contains_key(k) == (defs@.contains_key(k)
                && !is_modifier_def(defs@[k]))) && (forall|k: Seq<char>|
            #[trigger] p.input_mappings@.contains_key(k) ==> p.input_mappings@[k] == defs@[k]) && (
        forall|k: Seq<char>|
            #[trigger] p.modifiers@.contains_key(k) == (defs@.contains_key(k) && is_modifier_def(
                defs@[k],
            ))) && (forall|k: Seq<char>| #[trigger]
            p.modifiers@.contains_key(k) ==> defs@[k] == MappingDef::Modifier(
                Box::new(p.modifiers@[k]),
            )),
{
    broadcast use lemma_key_index_props;

    let ghost orig = defs.entries@;
    let mut rest = defs.entries;
    let mut input_mappings: NameMap<MappingDef> = NameMap::new();
    let mut modifiers: NameMap<ModifierDef> = NameMap::new();
    loop
        invariant
            keys_distinct(orig),
            rest@.len() <= orig.len(),
            forall|j: int| 0 <= j < rest@.len() ==> rest@[j] == orig[j],
            input_mappings.wf(),
            modifiers.wf(),
            forall|k: Seq<char>|
                #![trigger key_index(rest@, k)]
                #![trigger input_mappings@.contains_key(k)]
                #![trigger modifiers@.contains_key(k)]
                key_index(rest@, k) >= 0 ==> !input_mappings@.contains_key(k)
                    && !modifiers@.contains_key(k),
            forall|k: Seq<char>|
                #![trigger key_index(rest@, k)]
                #![trigger input_mappings@.contains_key(k)]
                #![trigger modifiers@.contains_key(k)]
                key_index(rest@, k) == -1 ==> (input_mappings@.contains_key(k) == (map_of(
                    orig,
                ).contains_key(k) && !is_modifier_def(map_of(orig)[k]))) && (
                input_mappings@.contains_key(k) ==> input_mappings@[k] == map_of(orig)[k]) && (
                modifiers@.contains_key(k) == (map_of(orig).contains_key(k) && is_modifier_def(
                    map_of(orig)[k],
                ))) && (modifiers@.contains_key(k) ==> map_of(orig)[k] == MappingDef::Modifier(
                    Box::new(modifiers@[k]),
                )),
        ensures
            rest@.len() == 0,
        decreases rest@.len(),
    {
        let ghost before = rest@;
        match rest.pop() {
            Some((name, def)) => {
                let ghost n = before.len() - 1;
                proof {
                    assert(rest@ =~= before.drop_last());
                    assert(orig[n] == (name, def));
                    crate::names::lemma_key_index_distinct(orig, n);
                    assert forall|k: Seq<char>| #[trigger] key_index(rest@, k) == (if k == name@ {
                        -1
                    } else {
                        key_index(before, k)
                    }) by {
                        assert(rest@.push((name, def)) =~= before);
                        crate::names::lemma_key_index_push(rest@, (name, def), k);
                        if k == name@ && key_index(rest@, k) >= 0 {
                            let j = key_index(rest@, k);
                            lemma_key_index_props(rest@, k);
                            assert(0 <= j < rest@.len());
                            assert(rest@[j] == before[j]);
                            assert(before[j] == orig[j]);
                            assert(orig[j].0@ != orig[n].0@);
                        }
                    }
                }
                match def {
                    MappingDef::Modifier(mod_def) => {
                        modifiers.insert(name, *mod_def);
                    },
                    other => {
                        input_mappings.insert(name, other);
                    },
                }
            },
            None => {
                break ;
            },
        }
    }
    proof {
        assert forall|k: Seq<char>| key_index(rest@, k) == -1 by {
            lemma_key_index_props(rest@, k);
        }
        assert(defs@ == map_of(orig));
    }
    Ok(ProcessedMappings { input_mappings, modifiers })
}

} // verus!
