//! The profile: the device to read, its named inputs, the output bindings and
//! the mappings between them.
use vstd::prelude::*;
use crate::codes::{parse_key_code, parse_axis_code, key_code_for, axis_code_for, CodeError};
use crate::input::{AxisWatcher, ButtonWatcher, Watcher};
use crate::names::{NameMap, map_of, key_index, keys_distinct, lemma_key_index_props, lemma_map_of_push};
use crate::output::OutputSection;

verus! {

/// Which device to open: a display name and `vendor:product` in hexadecimal.
pub struct DeviceConfig {
    pub name: String,
    pub id: String,
}

/// A named input of the device.
pub enum InputDef {
    /// A key code given by name, such as `BTN_LEFT`.
    Button(String),
    /// A key code given by number.
    KeyCode(u16),
    /// One direction of a relative axis.
    Axis(AxisDef),
}

pub struct AxisDef {
    pub axis: String,
    pub delta: Delta,
    pub noisy: bool,
}

#[derive(PartialEq, Eq, Structural, Clone, Copy, Debug)]
pub enum Delta {
    Positive,
    Negative,
}

/// A delta other than 1 or -1.
#[derive(PartialEq, Eq, Structural, Clone, Copy, Debug)]
pub struct DeltaError {
    pub value: i8,
}

impl Delta {
    /// `1` is `Positive`, `-1` is `Negative`; every other value is refused.
    pub fn try_from(v: i8) -> (r: Result<Delta, DeltaError>)
        ensures
            v == 1 ==> r == Ok::<Delta, DeltaError>(Delta::Positive),
            v == -1 ==> r == Ok::<Delta, DeltaError>(Delta::Negative),
            v != 1 && v != -1 ==> r == Err::<Delta, DeltaError>(DeltaError { value: v }),
    {
        if v == 1 {
            Ok(Delta::Positive)
        } else if v == -1 {
            Ok(Delta::Negative)
        } else {
            Err(DeltaError { value: v })
        }
    }
}

/// A watcher for an input, and whether its movements are announced by name.
pub struct WatcherPlan {
    pub watcher: Watcher,
    pub announce: bool,
}

impl InputDef {
    /// The key that the input itself produces, where it is a key.
    pub open spec fn spec_physical_key(&self) -> Option<u16> {
        match self {
            InputDef::Button(s) => key_code_for(s@),
            InputDef::KeyCode(c) => Some(*c),
            InputDef::Axis(_) => None,
        }
    }

    pub fn physical_key(&self) -> (r: Option<u16>)
        ensures
            r == self.spec_physical_key(),
    {
        match self {
            InputDef::Button(code_str) => match parse_key_code(code_str.as_str()) {
                Ok(c) => Some(c),
                Err(_) => None,
            },
            InputDef::KeyCode(code) => Some(*code),
            InputDef::Axis(_) => None,
        }
    }

    /// The watcher for this input. A key watcher for key inputs; for an axis,
    /// a watcher of its direction with threshold 1, announced unless it is
    /// noisy and noisy inputs are not printed. An unknown code name is an error.
    pub fn into_watcher(self, print_noisy: bool) -> (r: Result<WatcherPlan, CodeError>)
        ensures
            match self {
                InputDef::Button(s) => match key_code_for(s@) {
                    Some(c) => r matches Ok(p) && p.watcher == Watcher::Button(ButtonWatcher { key_code: c }) && !p.announce,
                    None => r matches Err(CodeError::UnknownKeyCode(t)) && t@ == s@,
                },
                InputDef::KeyCode(c) => r matches Ok(p) && p.watcher == Watcher::Button(ButtonWatcher { key_code: c }) && !p.announce,
                InputDef::Axis(a) => match axis_code_for(a.axis@) {
                    Some(c) => r matches Ok(p) && p.watcher == Watcher::Axis(
                        AxisWatcher { axis: c, direction: a.delta == Delta::Positive, threshold: 1 },
                    ) && p.announce == (!a.noisy || print_noisy),
                    None => r matches Err(CodeError::UnknownAxisCode(t)) && t@ == a.axis@,
                },
            },
    {
        match self {
            InputDef::Button(code_str) => {
                let key_code = parse_key_code(code_str.as_str())?;
                Ok(WatcherPlan { watcher: Watcher::Button(ButtonWatcher::new(key_code)), announce: false })
            },
            InputDef::KeyCode(code) => {
                Ok(WatcherPlan { watcher: Watcher::Button(ButtonWatcher::new(code)), announce: false })
            },
            InputDef::Axis(AxisDef { axis, delta, noisy }) => {
                let axis_code = parse_axis_code(axis.as_str())?;
                let should_print = !noisy || print_noisy;
                let direction = match delta {
                    Delta::Positive => true,
                    Delta::Negative => false,
                };
                Ok(WatcherPlan {
                    watcher: Watcher::Axis(AxisWatcher::new(axis_code, direction, 1)),
                    announce: should_print,
                })
            },
        }
    }
}

/// Top-level mapping entry: a target name, several targets, an object of
/// `input_*` fields, or a modifier.
pub enum MappingDef {
    Simple(String),
    Multi(Vec<String>),
    Complex(Box<ComplexMapping>),
    Modifier(Box<ModifierDef>),
}

/// Object mapping made of `input_*` fields.
pub struct ComplexMapping {
    pub input_passthrough: bool,
    pub input_simple: Option<InputSimple>,
    pub input_down: Option<String>,
    pub input_up: Option<String>,
    pub input_short: Option<TimedMapping>,
    pub input_long: Option<TimedMapping>,
    pub input_delayed: Option<DelayedMapping>,
    pub input_variable: Option<VariableMapping>,
    pub input_combo: Option<String>,
    /// Combo entry arguments: output key, and whether transitions are masked.
    pub input_arguments: Option<(String, bool)>,
}

/// One or several simultaneous outputs for `input_simple`.
pub enum InputSimple {
    One(String),
    Many(Vec<String>),
}

/// `input_short` (fire if released within N ms) and `input_long` (fire after
/// held for N ms).
pub struct TimedMapping {
    pub input_arguments: (u64,),
    pub input_simple: Option<InputSimple>,
    pub input_cycle: Option<Vec<String>>,
}

/// `input_delayed`: an output with activation and deactivation delays in ms.
pub struct DelayedMapping {
    pub input_arguments: (u64, u64),
    pub input_simple: Option<InputSimple>,
}

/// `input_variable`: read a variable, or write a value to it.
pub struct VariableMapping {
    pub input_arguments: VariableArgs,
}

pub enum VariableArgs {
    Read((String,)),
    Write((String, String)),
}

/// A modifier: an optional passive output held while it is active, and
/// overrides keyed by input name (or named combo definitions).
pub struct ModifierDef {
    pub input_passive: Option<String>,
    pub entries: NameMap<MappingDef>,
}

/// A whole profile.
pub struct Profile {
    pub device: DeviceConfig,
    pub input: NameMap<InputDef>,
    pub output: OutputSection,
    pub mappings: NameMap<MappingDef>,
}

/// The keys that the inputs produce themselves.
pub open spec fn physical_keys(inputs: Map<Seq<char>, InputDef>) -> Map<Seq<char>, u16> {
    Map::new(
        |k: Seq<char>| inputs.contains_key(k) && inputs[k].spec_physical_key() is Some,
        |k: Seq<char>| inputs[k].spec_physical_key().unwrap(),
    )
}

/// The key that each input produces itself, for the inputs that are keys.
pub fn physical_inputs(inputs: &NameMap<InputDef>) -> (r: NameMap<u16>)
    requires
        inputs.wf(),
    ensures
        r.wf(),
        r@ == physical_keys(inputs@),
{
    broadcast use lemma_key_index_props;

    let mut keys: NameMap<u16> = NameMap::new();
    let mut i: usize = 0;
    proof {
        assert(inputs.entries@.take(0) =~= Seq::<(String, InputDef)>::empty());
        crate::names::lemma_map_of_empty(inputs.entries@.take(0));
        assert(keys@ =~= physical_keys(map_of(inputs.entries@.take(0))));
    }
    while i < inputs.entries.len()
        invariant
            i <= inputs.entries@.len(),
            keys_distinct(inputs.entries@),
            keys.wf(),
            keys@ == physical_keys(map_of(inputs.entries@.take(i as int))),
        decreases inputs.entries@.len() - i,
    {
        let ghost s = inputs.entries@;
        proof {
            assert(s.take(i + 1) =~= s.take(i as int).push(s[i as int]));
            lemma_map_of_push(s.take(i as int), s[i as int]);
            assert(!map_of(s.take(i as int)).contains_key(s[i as int].0@)) by {
                let t = s.take(i as int);
                lemma_key_index_props(t, s[i as int].0@);
                if key_index(t, s[i as int].0@) >= 0 {
                    let jj = key_index(t, s[i as int].0@);
                    assert(t[jj] == s[jj]);
                    assert(s[jj].0@ != s[i as int].0@);
                }
            }
        }
        let ghost m0 = map_of(s.take(i as int));
        let ghost m1 = map_of(s.take(i + 1));
        assert(m1 == m0.insert(s[i as int].0@, s[i as int].1));
        match inputs.entries[i].1.physical_key() {
            Some(k) => {
                let name = inputs.entries[i].0.clone();
                keys.insert(name, k);
                proof {
                    assert(keys@ =~= physical_keys(m1));
                }
            },
            None => {
                proof {
                    assert forall|q: Seq<char>| #[trigger] physical_keys(m1).contains_key(q) == physical_keys(m0).contains_key(q) by {
                        if q == s[i as int].0@ {
                            assert(m1[q] == s[i as int].1);
                        }
                    }
                    assert(keys@ =~= physical_keys(m1));
                }
            },
        }
        i = i + 1;
    }
    assert(inputs.entries@.take(i as int) =~= inputs.entries@);
    keys
}

} // verus!
