//! Watchers that pick, out of the device's event stream, the events of one input.
use vstd::prelude::*;

verus! {

/// The type of a device event, as far as the watchers tell types apart.
#[derive(PartialEq, Eq, Structural, Clone, Copy, Debug)]
pub enum EventKind {
    Key,
    RelativeAxis,
    Other,
}

/// One event read from the device.
#[derive(PartialEq, Eq, Structural, Clone, Copy, Debug)]
pub struct InputEvent {
    pub kind: EventKind,
    pub code: u16,
    pub value: i32,
}

/// What a button event means for the watched button.
#[derive(PartialEq, Eq, Structural, Clone, Copy, Debug)]
pub enum ButtonAction {
    Down,
    Up,
}

/// Watches one key or button. Key event values: 1 pressed, 0 released,
/// 2 autorepeat (ignored).
#[derive(PartialEq, Eq, Structural, Clone, Copy, Debug)]
pub struct ButtonWatcher {
    pub key_code: u16,
}

/// Watches one relative axis in one direction; `threshold` filters jitter.
#[derive(PartialEq, Eq, Structural, Clone, Copy, Debug)]
pub struct AxisWatcher {
    pub axis: u16,
    /// true: positive deltas; false: negative deltas.
    pub direction: bool,
    pub threshold: i32,
}

/// A watcher of either kind.
#[derive(PartialEq, Eq, Structural, Clone, Copy, Debug)]
pub enum Watcher {
    Button(ButtonWatcher),
    Axis(AxisWatcher),
}

/// What a watcher reports for an event.
#[derive(PartialEq, Eq, Structural, Clone, Copy, Debug)]
pub enum WatchResult {
    Nothing,
    Button(ButtonAction),
    Moved(i32),
}

pub open spec fn spec_abs(v: i32) -> int {
    if v < 0 {
        -(v as int)
    } else {
        v as int
    }
}

impl ButtonWatcher {
    pub fn new(key_code: u16) -> (w: Self)
        ensures
            w.key_code == key_code,
    {
        ButtonWatcher { key_code }
    }

    pub open spec fn spec_handle(self, event: InputEvent) -> Option<ButtonAction> {
        if event.kind == EventKind::Key && event.code == self.key_code {
            if event.value == 1 {
                Some(ButtonAction::Down)
            } else if event.value == 0 {
                Some(ButtonAction::Up)
            } else {
                None
            }
        } else {
            None
        }
    }

    pub fn handle_event(&self, event: &InputEvent) -> (r: Option<ButtonAction>)
        ensures
            r == self.spec_handle(*event),
    {
        if event.kind == EventKind::Key && event.code == self.key_code {
            if event.value == 1 {
                Some(ButtonAction::Down)
            } else if event.value == 0 {
                Some(ButtonAction::Up)
            } else {
                None
            }
        } else {
            None
        }
    }
}

impl AxisWatcher {
    pub fn new(axis: u16, direction: bool, threshold: i32) -> (w: Self)
        ensures
            w.axis == axis,
            w.direction == direction,
            w.threshold == threshold,
    {
        AxisWatcher { axis, direction, threshold }
    }

    /// The movement fires when it is on the watched axis, at least `threshold`
    /// large, and in the watched direction; it reports the delta.
    pub open spec fn spec_handle(self, event: InputEvent) -> Option<i32> {
        if event.kind == EventKind::RelativeAxis && event.code == self.axis && spec_abs(event.value)
            >= self.threshold && (event.value > 0) == self.direction {
            Some(event.value)
        } else {
            None
        }
    }

    pub fn handle_event(&self, event: &InputEvent) -> (r: Option<i32>)
        ensures
            r == self.spec_handle(*event),
    {
        if event.kind == EventKind::RelativeAxis && event.code == self.axis {
            let magnitude: i64 = if event.value < 0 {
                -(event.value as i64)
            } else {
                event.value as i64
            };
            if magnitude >= self.threshold as i64 && (event.value > 0) == self.direction {
                return Some(event.value);
            }
        }
        None
    }
}

impl Watcher {
    pub open spec fn spec_handle(self, event: InputEvent) -> WatchResult {
        match self {
            Watcher::Button(b) => match b.spec_handle(event) {
                Some(a) => WatchResult::Button(a),
                None => WatchResult::Nothing,
            },
            Watcher::Axis(a) => match a.spec_handle(event) {
                Some(d) => WatchResult::Moved(d),
                None => WatchResult::Nothing,
            },
        }
    }

    pub fn handle_event(&self, event: &InputEvent) -> (r: WatchResult)
        ensures
            r == self.spec_handle(*event),
    {
        match self {
            Watcher::Button(b) => match b.handle_event(event) {
                Some(a) => WatchResult::Button(a),
                None => WatchResult::Nothing,
            },
            Watcher::Axis(a) => match a.handle_event(event) {
                Some(d) => WatchResult::Moved(d),
                None => WatchResult::Nothing,
            },
        }
    }
}

/// A watcher of either kind reports what its inner watcher reports: a button
/// watcher reports every press and every release of its button, an axis
/// watcher every movement it lets through.
pub proof fn lemma_watcher_reports_inner(w: Watcher, event: InputEvent)
    ensures
        w matches Watcher::Button(b) ==> (match b.spec_handle(event) {
            Some(a) => w.spec_handle(event) == WatchResult::Button(a),
            None => w.spec_handle(event) == WatchResult::Nothing,
        }),
        w matches Watcher::Axis(a) ==> (match a.spec_handle(event) {
            Some(d) => w.spec_handle(event) == WatchResult::Moved(d),
            None => w.spec_handle(event) == WatchResult::Nothing,
        }),
{
}

/// A watched button: a key event on its code with value 1 is its press,
/// with value 0 its release; every other event (an autorepeat, another code,
/// another type) is nothing to it.
pub proof fn lemma_button_watcher_events(key_code: u16, event: InputEvent)
    ensures
        ({
            let r = Watcher::Button(ButtonWatcher { key_code }).spec_handle(event);
            let on_button = event.kind == EventKind::Key && event.code == key_code;
            &&& (on_button && event.value == 1) <==> r == WatchResult::Button(ButtonAction::Down)
            &&& (on_button && event.value == 0) <==> r == WatchResult::Button(ButtonAction::Up)
            &&& !(on_button && (event.value == 0 || event.value == 1)) <==> r == WatchResult::Nothing
        }),
{
}

/// A watched axis direction: a movement on its axis, in its direction, at
/// least `threshold` large, is reported with its delta; nothing else is.
pub proof fn lemma_axis_watcher_events(axis: u16, direction: bool, threshold: i32, event: InputEvent)
    ensures
        ({
            let r = Watcher::Axis(AxisWatcher { axis, direction, threshold }).spec_handle(event);
            let fires = event.kind == EventKind::RelativeAxis && event.code == axis && (event.value > 0)
                == direction && (event.value >= threshold || -(event.value as int) >= threshold);
            &&& fires <==> r == WatchResult::Moved(event.value)
            &&& !fires <==> r == WatchResult::Nothing
        }),
{
}

} // verus!
