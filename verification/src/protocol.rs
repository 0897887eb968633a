//! How the pieces of the application talk: the shortcut codes, what a second launch or the
//! settings panel sends to the resident, and how the resident reads it.
use vstd::prelude::*;
use crate::text::{chars_of, parse_u32, parse_u32_spec, same, string_of, trim, trim_chars};

verus! {

/// The capture window's shortcut fired.
pub const HK_ADD: usize = 1;
/// The list's shortcut fired.
pub const HK_LIST: usize = 2;
/// Quit, from the menu.
pub const HK_QUIT: usize = 3;
/// Status bit: the capture window's shortcut could not be registered.
pub const HK_ADD_FAILED: usize = 1;
/// Status bit: the list's shortcut could not be registered.
pub const HK_LIST_FAILED: usize = 2;

/// Pending-command bit: register the shortcuts again from the settings.
pub const CMD_RELOAD: usize = 1;
/// Pending-command bit: unregister the shortcuts while one is being captured.
pub const CMD_SUSPEND: usize = 2;

/// What can be asked of the running resident.
#[derive(Clone, Copy, PartialEq, Eq, Structural, Debug)]
pub enum ResidentCommand {
    /// Show the list.
    List,
    /// Read the settings again and register the shortcuts anew.
    Reload,
    /// Unregister the shortcuts for the time of a capture.
    Suspend,
}

/// Asks the resident to read settings.json again and register its shortcuts anew.
pub fn notify_hotkeys_changed() -> (c: ResidentCommand)
    ensures c == ResidentCommand::Reload,
{
    ResidentCommand::Reload
}

/// Suspends the global shortcuts for the time of a capture: otherwise the combination being
/// pressed opens the window instead of staying with the panel.
pub fn suspend_hotkeys() -> (c: ResidentCommand)
    ensures c == ResidentCommand::Suspend,
{
    ResidentCommand::Suspend
}

/// Asks the running resident to show the list.
pub fn wake_resident() -> (c: ResidentCommand)
    ensures c == ResidentCommand::List,
{
    ResidentCommand::List
}

/// The word of a command on the resident's socket.
pub open spec fn command_word(c: ResidentCommand) -> Seq<char> {
    match c {
        ResidentCommand::List => seq!['l', 'i', 's', 't'],
        ResidentCommand::Reload => seq!['r', 'e', 'l', 'o', 'a', 'd'],
        ResidentCommand::Suspend => seq!['s', 'u', 's', 'p', 'e', 'n', 'd'],
    }
}

/// The line a command is sent as on the socket.
pub fn command_line(c: ResidentCommand) -> (r: String)
    ensures r@ == command_word(c).push('\n'),
{
    match c {
        ResidentCommand::List => string_of(&['l', 'i', 's', 't', '\n']),
        ResidentCommand::Reload => string_of(&['r', 'e', 'l', 'o', 'a', 'd', '\n']),
        ResidentCommand::Suspend => string_of(&['s', 'u', 's', 'p', 'e', 'n', 'd', '\n']),
    }
}

/// The command a line names, once trimmed; none for anything else, the empty line of the
/// single-instance probe among them.
pub open spec fn command_of(line: Seq<char>) -> Option<ResidentCommand> {
    let t = trim(line);
    if t == command_word(ResidentCommand::List) {
        Some(ResidentCommand::List)
    } else if t == command_word(ResidentCommand::Reload) {
        Some(ResidentCommand::Reload)
    } else if t == command_word(ResidentCommand::Suspend) {
        Some(ResidentCommand::Suspend)
    } else {
        None
    }
}

/// Reads a line received on the resident's socket.
pub fn parse_command(line: &str) -> (r: Option<ResidentCommand>)
    ensures r == command_of(line@),
{
    let t = trim_chars(&chars_of(line));
    if same(&t, &['l', 'i', 's', 't']) {
        Some(ResidentCommand::List)
    } else if same(&t, &['r', 'e', 'l', 'o', 'a', 'd']) {
        Some(ResidentCommand::Reload)
    } else if same(&t, &['s', 'u', 's', 'p', 'e', 'n', 'd']) {
        Some(ResidentCommand::Suspend)
    } else {
        None
    }
}

/// A command sent as a line is read back as that command.
pub proof fn lemma_command_round_trip(c: ResidentCommand)
    ensures command_of(command_word(c).push('\n')) == Some(c),
{
    let w = command_word(c);
    let l = w.push('\n');
    assert(l.last() == '\n');
    assert(l.drop_last() == w);
    assert(crate::text::trim_start(l) == l);
    assert(crate::text::trim_end(l) == crate::text::trim_end(w));
    assert(crate::text::trim_end(w) == w);
}

/// What the resident does with a command: the list shows on the next frame (`flag`), the
/// others wait for the main thread in the pending bits.
pub fn apply_command(c: ResidentCommand, flag: usize, pending: usize) -> (r: (usize, usize))
    ensures
        r == match c {
            ResidentCommand::List => (HK_LIST, pending),
            ResidentCommand::Reload => (flag, pending | CMD_RELOAD),
            ResidentCommand::Suspend => (flag, pending | CMD_SUSPEND),
        },
{
    match c {
        ResidentCommand::List => (HK_LIST, pending),
        ResidentCommand::Reload => (flag, pending | CMD_RELOAD),
        ResidentCommand::Suspend => (flag, pending | CMD_SUSPEND),
    }
}

/// What the main thread does with the pending bits: suspend the shortcuts first, then register
/// them again.
pub fn pending_actions(bits: usize) -> (r: (bool, bool))
    ensures r == ((bits & CMD_SUSPEND) != 0, (bits & CMD_RELOAD) != 0),
{
    ((bits & CMD_SUSPEND) != 0, (bits & CMD_RELOAD) != 0)
}

/// The status bits after registering both shortcuts.
pub fn failure_bits(add_ok: bool, list_ok: bool) -> (r: usize)
    ensures
        r == (if add_ok { 0usize } else { HK_ADD_FAILED }) + (if list_ok { 0usize } else { HK_LIST_FAILED }),
        (r & HK_ADD_FAILED != 0) == !add_ok,
        (r & HK_LIST_FAILED != 0) == !list_ok,
{
    let r: usize = (if add_ok { 0 } else { HK_ADD_FAILED }) + (if list_ok { 0 } else { HK_LIST_FAILED });
    assert(0usize & 1usize == 0usize && 0usize & 2usize == 0usize && 1usize & 1usize == 1usize
        && 1usize & 2usize == 0usize && 2usize & 1usize == 0usize && 2usize & 2usize == 2usize
        && 3usize & 1usize == 1usize && 3usize & 2usize == 2usize) by (bit_vector);
    r
}

/// The resident holds at least one shortcut: on Windows, a second resident finds both taken.
pub fn registered_any(bits: usize) -> (r: bool)
    ensures r == (bits != (HK_ADD_FAILED | HK_LIST_FAILED)),
{
    bits != (HK_ADD_FAILED | HK_LIST_FAILED)
}

/// The code a pressed global shortcut fires: the capture window's or the list's, by its id.
pub fn hotkey_code(id: u32, ids: [u32; 2]) -> (r: Option<usize>)
    ensures
        r == (if id == ids[0] { Some(HK_ADD) } else if id == ids[1] { Some(HK_LIST) } else { None }),
{
    if id == ids[0] {
        Some(HK_ADD)
    } else if id == ids[1] {
        Some(HK_LIST)
    } else {
        None
    }
}

/// The id of the list's menu item.
pub open spec fn id_list() -> Seq<char> { seq!['p', 'r', 'i', 'o', '-', 'l', 'i', 's', 't'] }

/// The id of the capture window's menu item.
pub open spec fn id_add() -> Seq<char> { seq!['p', 'r', 'i', 'o', '-', 'a', 'd', 'd'] }

/// The id of the Quit menu item.
pub open spec fn id_quit() -> Seq<char> { seq!['p', 'r', 'i', 'o', '-', 'q', 'u', 'i', 't'] }

/// The code a menu item fires; 0 for an unknown item.
pub fn menu_code(id: &str) -> (r: usize)
    ensures
        r == (if id@ == id_list() { HK_LIST } else if id@ == id_add() { HK_ADD }
            else if id@ == id_quit() { HK_QUIT } else { 0 }),
{
    let c = chars_of(id);
    if same(&c, &['p', 'r', 'i', 'o', '-', 'l', 'i', 's', 't']) {
        HK_LIST
    } else if same(&c, &['p', 'r', 'i', 'o', '-', 'a', 'd', 'd']) {
        HK_ADD
    } else if same(&c, &['p', 'r', 'i', 'o', '-', 'q', 'u', 'i', 't']) {
        HK_QUIT
    } else {
        0
    }
}

/// `WM_HOTKEY`.
pub const WM_HOTKEY: u32 = 0x0312;
/// The message that asks the shortcut thread to register again (`WM_APP + 1`).
pub const WM_RELOAD_HOTKEYS: u32 = 0x8001;
/// The message that suspends the shortcuts during a capture (`WM_APP + 2`).
pub const WM_SUSPEND_HOTKEYS: u32 = 0x8002;

/// What a message of the Windows shortcut thread asks for.
#[derive(Clone, Copy, PartialEq, Eq, Structural, Debug)]
pub enum WinEvent {
    /// A shortcut (or a second launch) fired this code.
    Fire(usize),
    Suspend,
    Reload,
    Other,
}

/// What a message of the Windows shortcut thread asks for.
pub open spec fn win_event_of(message: u32, wparam: usize) -> WinEvent {
    if message == WM_HOTKEY {
        WinEvent::Fire(wparam)
    } else if message == WM_SUSPEND_HOTKEYS {
        WinEvent::Suspend
    } else if message == WM_RELOAD_HOTKEYS {
        WinEvent::Reload
    } else {
        WinEvent::Other
    }
}

/// Reads a message of the Windows shortcut thread.
pub fn win_event(message: u32, wparam: usize) -> (r: WinEvent)
    ensures r == win_event_of(message, wparam),
{
    if message == WM_HOTKEY {
        WinEvent::Fire(wparam)
    } else if message == WM_SUSPEND_HOTKEYS {
        WinEvent::Suspend
    } else if message == WM_RELOAD_HOTKEYS {
        WinEvent::Reload
    } else {
        WinEvent::Other
    }
}

/// The message, and its parameter, a command is posted to the Windows shortcut thread as.
pub open spec fn win_message_of(c: ResidentCommand) -> (u32, usize) {
    match c {
        ResidentCommand::List => (WM_HOTKEY, HK_LIST),
        ResidentCommand::Reload => (WM_RELOAD_HOTKEYS, 0usize),
        ResidentCommand::Suspend => (WM_SUSPEND_HOTKEYS, 0usize),
    }
}

/// Computes `win_message_of`.
pub fn win_message(c: ResidentCommand) -> (r: (u32, usize))
    ensures r == win_message_of(c),
{
    match c {
        ResidentCommand::List => (WM_HOTKEY, HK_LIST),
        ResidentCommand::Reload => (WM_RELOAD_HOTKEYS, 0),
        ResidentCommand::Suspend => (WM_SUSPEND_HOTKEYS, 0),
    }
}

/// A command posted as a message is read back as what it asks for: a second launch shows the
/// list, the settings panel gets the shortcuts reloaded or suspended.
pub proof fn lemma_win_round_trip(c: ResidentCommand)
    ensures
        win_event_of(win_message_of(c).0, win_message_of(c).1) == match c {
            ResidentCommand::List => WinEvent::Fire(HK_LIST),
            ResidentCommand::Reload => WinEvent::Reload,
            ResidentCommand::Suspend => WinEvent::Suspend,
        },
{
}

/// The thread id a resident publishes in resident.tid.
pub fn parse_thread_id(text: &str) -> (r: Option<u32>)
    ensures r == parse_u32_spec(trim(text@)),
{
    parse_u32(&trim_chars(&chars_of(text)))
}

} // verus!
