//! The resident process: what a shortcut, a menu item or a second launch does to the two
//! windows it keeps (the list and the capture window).
use vstd::prelude::*;
use crate::protocol::{HK_ADD, HK_LIST, HK_QUIT};

verus! {

/// What the resident asks of a window that is already open when its shortcut comes again.
#[derive(Clone, Copy, PartialEq, Eq, Structural, Debug)]
pub enum WindowCommand {
    Close,
    Focus,
}

/// Which of its windows the resident shows.
#[derive(Clone, Copy, PartialEq, Eq, Structural, Debug)]
pub struct Windows {
    pub list_open: bool,
    pub add_open: bool,
}

/// What the resident does on a frame.
#[derive(Clone, Copy, PartialEq, Eq, Structural, Debug)]
pub enum ResidentAction {
    /// Stop the process.
    Exit,
    Nothing,
    /// Show the list window.
    OpenList,
    /// Show a fresh, empty capture window.
    OpenAdd,
    /// Send this to the list window.
    ToList(WindowCommand),
    /// Send this to the capture window.
    ToAdd(WindowCommand),
}

/// The command for an open window whose shortcut comes again: close it when the setting says
/// so, bring it to the front otherwise.
pub open spec fn again(toggle_close: bool) -> WindowCommand {
    if toggle_close { WindowCommand::Close } else { WindowCommand::Focus }
}

/// One frame of the resident: the code fired since the last frame (`hk`, 0 for none), the quit
/// button of the list, and the setting for a shortcut that comes again.
pub open spec fn resident_step(w: Windows, hk: usize, quit: bool, toggle_close: bool) -> (Windows, ResidentAction) {
    if quit || hk == HK_QUIT {
        (w, ResidentAction::Exit)
    } else if hk == HK_LIST {
        if w.list_open {
            (w, ResidentAction::ToList(again(toggle_close)))
        } else {
            (Windows { list_open: true, add_open: w.add_open }, ResidentAction::OpenList)
        }
    } else if hk == HK_ADD {
        if w.add_open {
            (w, ResidentAction::ToAdd(again(toggle_close)))
        } else {
            (Windows { list_open: w.list_open, add_open: true }, ResidentAction::OpenAdd)
        }
    } else {
        (w, ResidentAction::Nothing)
    }
}

impl Windows {
    /// No window shows: the resident has just started.
    pub fn none() -> (w: Windows)
        ensures !w.list_open, !w.add_open,
    {
        Windows { list_open: false, add_open: false }
    }

    /// Applies what fired since the last frame and says what to do.
    pub fn on_frame(&mut self, hk: usize, quit: bool, toggle_close: bool) -> (a: ResidentAction)
        ensures
            (*final(self), a) == resident_step(*old(self), hk, quit, toggle_close),
    {
        if quit || hk == HK_QUIT {
            ResidentAction::Exit
        } else if hk == HK_LIST {
            if self.list_open {
                ResidentAction::ToList(if toggle_close { WindowCommand::Close } else { WindowCommand::Focus })
            } else {
                self.list_open = true;
                ResidentAction::OpenList
            }
        } else if hk == HK_ADD {
            if self.add_open {
                ResidentAction::ToAdd(if toggle_close { WindowCommand::Close } else { WindowCommand::Focus })
            } else {
                self.add_open = true;
                ResidentAction::OpenAdd
            }
        } else {
            ResidentAction::Nothing
        }
    }

    /// The list window asked to close.
    pub fn list_closed(&mut self)
        ensures
            !final(self).list_open,
            final(self).add_open == old(self).add_open,
    {
        self.list_open = false;
    }

    /// The capture window asked to close.
    pub fn add_closed(&mut self)
        ensures
            !final(self).add_open,
            final(self).list_open == old(self).list_open,
    {
        self.add_open = false;
    }
}

/// A shortcut pressed twice: the first press opens its window, the second closes it again
/// when the setting says so, or brings it to the front.
pub proof fn lemma_shortcut_twice(w: Windows, hk: usize, toggle_close: bool)
    requires
        hk == HK_LIST || hk == HK_ADD,
        hk == HK_LIST ==> !w.list_open,
        hk == HK_ADD ==> !w.add_open,
    ensures ({
        let (w1, a1) = resident_step(w, hk, false, toggle_close);
        let (w2, a2) = resident_step(w1, hk, false, toggle_close);
        &&& a1 == (if hk == HK_LIST { ResidentAction::OpenList } else { ResidentAction::OpenAdd })
        &&& a2 == (if hk == HK_LIST { ResidentAction::ToList(again(toggle_close)) } else {
            ResidentAction::ToAdd(again(toggle_close))
        })
        &&& w2 == w1
    }),
{
}

/// One capture window at a time, one list at a time: a window is only ever opened when it is
/// not showing, and a frame never closes the window it does not speak to.
pub proof fn lemma_one_window_each(w: Windows, hk: usize, quit: bool, toggle_close: bool)
    ensures ({
        let (w1, a) = resident_step(w, hk, quit, toggle_close);
        &&& a == ResidentAction::OpenList ==> !w.list_open && w1.list_open && w1.add_open == w.add_open
        &&& a == ResidentAction::OpenAdd ==> !w.add_open && w1.add_open && w1.list_open == w.list_open
        &&& (a != ResidentAction::OpenList && a != ResidentAction::OpenAdd) ==> w1 == w
    }),
{
}

} // verus!
