//! The settings file's content: the two shortcuts and what a shortcut does to a window that is
//! already open; the labels the menu shows for them.
use vstd::prelude::*;
use crate::hotkey::System;
use crate::text::{chars_of, concat, string_of};

verus! {

/// The settings of the application.
#[derive(Debug)]
pub struct Settings {
    /// The shortcut of the capture window.
    pub hotkey_add: String,
    /// The shortcut of the list.
    pub hotkey_list: String,
    /// The shortcut closes its window again when it is already open.
    pub toggle_close: bool,
}

/// The default shortcut of the capture window: Cmd+Alt+A on macOS, Ctrl+Alt+A elsewhere.
pub open spec fn default_add(sys: System) -> Seq<char> {
    if sys == System::Mac { seq!['C', 'm', 'd', '+', 'A', 'l', 't', '+', 'A'] } else { seq!['C', 't', 'r', 'l', '+', 'A', 'l', 't', '+', 'A'] }
}

/// The default shortcut of the list: Cmd+Alt+P on macOS, Ctrl+Alt+P elsewhere.
pub open spec fn default_list(sys: System) -> Seq<char> {
    if sys == System::Mac { seq!['C', 'm', 'd', '+', 'A', 'l', 't', '+', 'P'] } else { seq!['C', 't', 'r', 'l', '+', 'A', 'l', 't', '+', 'P'] }
}

impl Settings {
    /// The settings of a first launch.
    pub fn defaults(sys: System) -> (s: Settings)
        ensures
            s.hotkey_add@ == default_add(sys),
            s.hotkey_list@ == default_list(sys),
            s.toggle_close,
    {
        let (a, l) = match sys {
            System::Mac => (
                string_of(&['C', 'm', 'd', '+', 'A', 'l', 't', '+', 'A']),
                string_of(&['C', 'm', 'd', '+', 'A', 'l', 't', '+', 'P']),
            ),
            _ => (
                string_of(&['C', 't', 'r', 'l', '+', 'A', 'l', 't', '+', 'A']),
                string_of(&['C', 't', 'r', 'l', '+', 'A', 'l', 't', '+', 'P']),
            ),
        };
        Settings { hotkey_add: a, hotkey_list: l, toggle_close: true }
    }
}

/// "Prio", a tab, the list's shortcut.
pub open spec fn list_label(s: Settings) -> Seq<char> {
    seq!['P', 'r', 'i', 'o', '\t'] + s.hotkey_list@
}

/// "Ajouter", a tab, the capture window's shortcut.
pub open spec fn add_label(s: Settings) -> Seq<char> {
    seq!['A', 'j', 'o', 'u', 't', 'e', 'r', '\t'] + s.hotkey_add@
}

/// "Prio  ·  " and the list's shortcut.
pub open spec fn tooltip_label(s: Settings) -> Seq<char> {
    seq!['P', 'r', 'i', 'o', ' ', ' ', '·', ' ', ' '] + s.hotkey_list@
}

/// Menu labels and tooltip for these settings: list, capture, tooltip.
pub fn labels(s: &Settings) -> (r: (String, String, String))
    ensures
        r.0@ == list_label(*s),
        r.1@ == add_label(*s),
        r.2@ == tooltip_label(*s),
{
    let l = concat(&['P', 'r', 'i', 'o', '\t'], &chars_of(s.hotkey_list.as_str()));
    let a = concat(&['A', 'j', 'o', 'u', 't', 'e', 'r', '\t'], &chars_of(s.hotkey_add.as_str()));
    let t = concat(&['P', 'r', 'i', 'o', ' ', ' ', '·', ' ', ' '], &chars_of(s.hotkey_list.as_str()));
    (string_of(&l), string_of(&a), string_of(&t))
}

} // verus!
