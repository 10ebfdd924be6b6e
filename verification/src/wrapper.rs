//! The decisions of running a game wrapped: which command to start, whether a
//! focused process descends from the game, and when to grab the device.
use vstd::prelude::*;
use crate::text::{parent_pid_of, ppid_of};

verus! {

/// `--wrap` was given no command.
pub struct MissingCommand;

/// The program to run and its arguments.
pub fn split_command(command: &Vec<String>) -> (r: Result<(String, Vec<String>), MissingCommand>)
    ensures
        command@.len() == 0 <==> r is Err,
        r matches Ok((p, rest)) ==> p == command@[0] && rest@ == command@.subrange(1, command@.len() as int),
{
    if command.len() == 0 {
        return Err(MissingCommand);
    }
    let program = command[0].clone();
    let mut rest: Vec<String> = Vec::new();
    let mut j: usize = 1;
    while j < command.len()
        invariant
            1 <= j <= command@.len(),
            rest@ == command@.subrange(1, j as int),
        decreases command@.len() - j,
    {
        rest.push(command[j].clone());
        j = j + 1;
        assert(rest@ =~= command@.subrange(1, j as int));
    }
    Ok((program, rest))
}

/// One step up the process tree from `pid`, whose status text is `status`: the
/// parent's id, or `None` where the walk ends (no parent, or its own parent).
pub fn ancestry_next(pid: u32, status: &str) -> (r: Option<u32>)
    ensures
        r == (if ppid_of(status@) == 0 || ppid_of(status@) == pid {
            None
        } else {
            Some(ppid_of(status@))
        }),
{
    let ppid = parent_pid_of(status);
    if ppid == 0 || ppid == pid {
        None
    } else {
        Some(ppid)
    }
}

/// Where a walk up the process tree, looking for an ancestor, stands.
#[derive(PartialEq, Eq, Structural, Clone, Copy, Debug)]
pub enum AncestryStep {
    /// The ancestor was reached: the process descends from it.
    Found,
    /// The status text of this process is needed to go on.
    ReadStatus(u32),
    /// The walk ended without meeting the ancestor.
    NotFound,
}

/// The step that follows standing at `pid`: found when it is the ancestor
/// itself, else its status must be read.
pub fn ancestry_visit(pid: u32, ancestor: u32) -> (r: AncestryStep)
    ensures
        r == (if pid == ancestor {
            AncestryStep::Found
        } else {
            AncestryStep::ReadStatus(pid)
        }),
{
    if pid == ancestor {
        AncestryStep::Found
    } else {
        AncestryStep::ReadStatus(pid)
    }
}

/// The step after the status of `pid` was read (`None`: it could not be
/// read, so the walk ends): the parent is visited next, unless there is none.
pub fn ancestry_after_status(pid: u32, ancestor: u32, status: Option<&str>) -> (r: AncestryStep)
    ensures
        r == (match status {
            None => AncestryStep::NotFound,
            Some(s) => if ppid_of(s@) == 0 || ppid_of(s@) == pid {
                AncestryStep::NotFound
            } else if ppid_of(s@) == ancestor {
                AncestryStep::Found
            } else {
                AncestryStep::ReadStatus(ppid_of(s@))
            },
        }),
{
    match status {
        None => AncestryStep::NotFound,
        Some(s) => match ancestry_next(pid, s) {
            None => AncestryStep::NotFound,
            Some(ppid) => ancestry_visit(ppid, ancestor),
        },
    }
}

/// The window whose owner must be looked up: no window (or window 0) means a
/// window outside XWayland has focus.
pub fn window_to_check(win_id: Option<u32>) -> (r: Option<u32>)
    ensures
        r == (match win_id {
            Some(id) => if id == 0 {
                None::<u32>
            } else {
                Some(id)
            },
            None => None,
        }),
{
    match win_id {
        Some(id) => if id == 0 {
            None
        } else {
            Some(id)
        },
        None => None,
    }
}

/// What to do with the device when the game's focus changes.
#[derive(PartialEq, Eq, Structural, Clone, Copy, Debug)]
pub enum FocusAction {
    /// Grab the device: mappings become active.
    Grab,
    /// Let go of the device and release every key: mappings are suspended.
    Ungrab,
    /// Nothing changes.
    Keep,
}

/// The device is grabbed exactly while the game has focus.
pub fn focus_action(focused: bool, grabbed: bool) -> (r: FocusAction)
    ensures
        r == (if focused && !grabbed {
            FocusAction::Grab
        } else if !focused && grabbed {
            FocusAction::Ungrab
        } else {
            FocusAction::Keep
        }),
{
    if focused && !grabbed {
        FocusAction::Grab
    } else if !focused && grabbed {
        FocusAction::Ungrab
    } else {
        FocusAction::Keep
    }
}

/// Whether the device is grabbed after `action`.
pub fn grabbed_after(grabbed: bool, action: FocusAction) -> (r: bool)
    ensures
        r == match action {
            FocusAction::Grab => true,
            FocusAction::Ungrab => false,
            FocusAction::Keep => grabbed,
        },
{
    match action {
        FocusAction::Grab => true,
        FocusAction::Ungrab => false,
        FocusAction::Keep => grabbed,
    }
}

/// Following focus changes keeps the device grabbed exactly while the game
/// has focus: after any change, the grab state equals the focus.
pub proof fn lemma_grab_follows_focus(focused: bool, grabbed: bool)
    ensures
        (match (if focused && !grabbed {
            FocusAction::Grab
        } else if !focused && grabbed {
            FocusAction::Ungrab
        } else {
            FocusAction::Keep
        }) {
            FocusAction::Grab => true,
            FocusAction::Ungrab => false,
            FocusAction::Keep => grabbed,
        }) == focused,
{
}

} // verus!
