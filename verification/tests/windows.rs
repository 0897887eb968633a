use prio::date::Date;
use prio::form::Add;
use prio::hotkey::System;
use prio::icon::template_pixels;
use prio::list::{correct_archive_date, efforts_differ, filter_pill, keeps, kept_positions, List};
use prio::protocol::{
    apply_command, command_line, failure_bits, hotkey_code, menu_code, notify_hotkeys_changed, parse_command,
    parse_thread_id, pending_actions, registered_any, suspend_hotkeys, wake_resident, win_event, win_message,
    ResidentCommand, WinEvent, HK_ADD, HK_LIST, HK_QUIT, WM_HOTKEY, WM_RELOAD_HOTKEYS,
};
use prio::resident::{ResidentAction, WindowCommand, Windows};
use prio::settings::Settings;
use prio::store::{Effort, Store, Task, Tier};

fn task(title: &str, tags: &[&str]) -> Task {
    Task {
        title: title.into(),
        tags: tags.iter().map(|s| s.to_string()).collect(),
        ..Default::default()
    }
}

fn sample_list() -> List {
    let mut w = task("w", &["rh"]);
    w.waiting = "Bob".into();
    let store = Store {
        active: vec![w, task("a", &["RH", "mira"]), task("b", &[])],
        done: vec![task("z", &["mira"])],
    };
    List::new(store, Settings::defaults(System::Linux), false)
}

#[test]
fn resident_shortcuts() {
    let mut w = Windows::none();
    assert_eq!(w.on_frame(0, false, true), ResidentAction::Nothing);
    assert_eq!(w.on_frame(HK_LIST, false, true), ResidentAction::OpenList);
    assert!(w.list_open);
    assert_eq!(w.on_frame(HK_LIST, false, true), ResidentAction::ToList(WindowCommand::Close));
    assert_eq!(w.on_frame(HK_LIST, false, false), ResidentAction::ToList(WindowCommand::Focus));
    assert_eq!(w.on_frame(HK_ADD, false, true), ResidentAction::OpenAdd);
    assert_eq!(w.on_frame(HK_ADD, false, false), ResidentAction::ToAdd(WindowCommand::Focus));
    w.list_closed();
    assert!(!w.list_open && w.add_open);
    w.add_closed();
    assert!(!w.add_open);
    assert_eq!(w.on_frame(HK_QUIT, false, true), ResidentAction::Exit);
    assert_eq!(w.on_frame(0, true, true), ResidentAction::Exit);
    assert_eq!(w.on_frame(7, false, true), ResidentAction::Nothing);
}

#[test]
fn socket_commands() {
    assert_eq!(notify_hotkeys_changed(), ResidentCommand::Reload);
    assert_eq!(suspend_hotkeys(), ResidentCommand::Suspend);
    assert_eq!(wake_resident(), ResidentCommand::List);
    for c in [ResidentCommand::List, ResidentCommand::Reload, ResidentCommand::Suspend] {
        assert_eq!(parse_command(&command_line(c)), Some(c));
    }
    assert_eq!(command_line(ResidentCommand::Reload), "reload\n");
    assert_eq!(parse_command("  list \r\n"), Some(ResidentCommand::List));
    assert_eq!(parse_command(""), None);
    assert_eq!(parse_command("LIST"), None);
    assert_eq!(apply_command(ResidentCommand::List, 0, 2), (HK_LIST, 2));
    assert_eq!(apply_command(ResidentCommand::Reload, 1, 2), (1, 3));
    assert_eq!(apply_command(ResidentCommand::Suspend, 0, 1), (0, 3));
    assert_eq!(pending_actions(3), (true, true));
    assert_eq!(pending_actions(1), (false, true));
    assert_eq!(pending_actions(0), (false, false));
}

#[test]
fn shortcut_registration() {
    assert_eq!(failure_bits(true, true), 0);
    assert_eq!(failure_bits(false, true), 1);
    assert_eq!(failure_bits(true, false), 2);
    assert_eq!(failure_bits(false, false), 3);
    assert!(registered_any(1));
    assert!(!registered_any(3));
    assert_eq!(hotkey_code(5, [5, 9]), Some(HK_ADD));
    assert_eq!(hotkey_code(9, [5, 9]), Some(HK_LIST));
    assert_eq!(hotkey_code(4, [5, 9]), None);
    assert_eq!(menu_code("prio-list"), HK_LIST);
    assert_eq!(menu_code("prio-add"), HK_ADD);
    assert_eq!(menu_code("prio-quit"), HK_QUIT);
    assert_eq!(menu_code("autre"), 0);
}

#[test]
fn windows_messages() {
    assert_eq!(win_message(ResidentCommand::List), (WM_HOTKEY, HK_LIST));
    for c in [ResidentCommand::List, ResidentCommand::Reload, ResidentCommand::Suspend] {
        let (m, w) = win_message(c);
        let back = match c {
            ResidentCommand::List => WinEvent::Fire(HK_LIST),
            ResidentCommand::Reload => WinEvent::Reload,
            ResidentCommand::Suspend => WinEvent::Suspend,
        };
        assert_eq!(win_event(m, w), back);
    }
    assert_eq!(win_event(WM_RELOAD_HOTKEYS, 4), WinEvent::Reload);
    assert_eq!(win_event(0x0100, 0), WinEvent::Other);
    assert_eq!(parse_thread_id(" 4242\n"), Some(4242));
    assert_eq!(parse_thread_id("x"), None);
    assert_eq!(parse_thread_id("99999999999"), None);
}

#[test]
fn list_window_basics() {
    let mut l = sample_list();
    let titles: Vec<&str> = l.store.active.iter().map(|t| t.title.as_str()).collect();
    assert_eq!(titles, vec!["a", "b", "w"]);
    assert_eq!(l.heading(), ("Prio".to_string(), Some(3)));
    assert_eq!(l.switch_label(), "Archives  1");
    assert_eq!(l.names, vec!["Bob"]);
    assert_eq!(l.tags_all, vec![("mira".to_string(), 2), ("RH".to_string(), 2)]);
    assert_eq!(
        l.footer(),
        "Ctrl+Alt+A ajouter  ·  glisser le numéro pour réordonner  ·  clic = notes  ·  Échap ferme"
    );
    assert_eq!(l.toggle_done(), None);
    assert_eq!(l.heading(), ("Archives".to_string(), Some(1)));
    assert_eq!(l.switch_label(), "En cours  3");
    assert_eq!(l.footer(), "clic = notes  ·  ↩ remet en cours  ·  Échap ferme");
    l.toggle_settings();
    assert_eq!(l.heading(), ("Réglages".to_string(), None));
    assert_eq!(filter_pill("rh", 2), "rh  2");
}

#[test]
fn list_filter_and_cards() {
    let mut l = sample_list();
    assert_eq!(l.shown(), vec![0, 1, 2]);
    l.toggle_card(false, 1);
    assert_eq!(l.open, Some((false, 1)));
    l.pick_filter("RH");
    assert_eq!(l.open, None);
    assert_eq!(l.filter.as_deref(), Some("RH"));
    assert_eq!(l.shown(), vec![0, 2]);
    assert!(keeps(&l.filter, None, &l.store.active[0]));
    assert!(!keeps(&l.filter, None, &l.store.active[1]));
    assert_eq!(kept_positions(&l.store.done, &l.filter, None), Vec::<usize>::new());
    // no move while a filter is on
    assert!(!l.drop_card(0, 2, None));
    l.pick_filter("rh");
    assert_eq!(l.filter, None);
    assert!(l.drop_card(0, 2, None));
    let titles: Vec<&str> = l.store.active.iter().map(|t| t.title.as_str()).collect();
    assert_eq!(titles, vec!["b", "a", "w"]);
    l.toggle_card(false, 0);
    l.toggle_card(false, 0);
    assert_eq!(l.open, None);
}

#[test]
fn list_archive_restore_and_settle() {
    let mut l = sample_list();
    l.archive_card(0, Date(2026, 9, 9));
    assert_eq!(l.store.done[0].title, "a");
    assert_eq!(l.store.done[0].archived, "2026-09-09");
    l.restore_card(0);
    let titles: Vec<&str> = l.store.active.iter().map(|t| t.title.as_str()).collect();
    assert_eq!(titles, vec!["b", "a", "w"]);
    // "b" starts waiting: the list moves it down once no card is open
    l.store.active[0].waiting = "Anne".into();
    l.open = Some((false, 0));
    assert!(!l.settle());
    l.open = None;
    assert!(l.settle());
    let titles: Vec<&str> = l.store.active.iter().map(|t| t.title.as_str()).collect();
    assert_eq!(titles, vec!["a", "b", "w"]);
    assert!(!l.settle());
}

#[test]
fn list_reload_keeps_the_open_card_in_place() {
    let mut l = sample_list();
    l.open = Some((false, 0));
    let mut w = task("w2", &[]);
    w.waiting = "Zoé".into();
    l.reload(Store { active: vec![w, task("c", &["x"])], done: Vec::new() });
    let titles: Vec<&str> = l.store.active.iter().map(|t| t.title.as_str()).collect();
    assert_eq!(titles, vec!["w2", "c"]);
    assert_eq!(l.names, vec!["Zoé"]);
    l.open = None;
    let mut w = task("w3", &[]);
    w.waiting = "Zoé".into();
    l.reload(Store { active: vec![w, task("d", &[])], done: Vec::new() });
    let titles: Vec<&str> = l.store.active.iter().map(|t| t.title.as_str()).collect();
    assert_eq!(titles, vec!["d", "w3"]);
    assert!(l.focus_gained(true));
    assert!(!l.focus_gained(true));
    assert!(!l.focus_gained(false));
}

#[test]
fn list_shortcut_capture() {
    let mut l = sample_list();
    assert_eq!(l.capture_input(false, Some("Ctrl+B".into())), (false, None));
    assert_eq!(l.capture_button(HK_ADD), ResidentCommand::Suspend);
    assert_eq!(l.capture_text(HK_ADD), "Appuie sur la combinaison…   (Échap annule)");
    assert_eq!(l.capture_text(HK_LIST), "Ctrl+Alt+P");
    assert_eq!(l.capture_input(false, None), (false, None));
    assert_eq!(l.capture_input(false, Some("Ctrl+Alt+B".into())), (true, Some(ResidentCommand::Reload)));
    assert_eq!(l.settings.hotkey_add, "Ctrl+Alt+B");
    assert_eq!(l.capture, None);
    assert_eq!(l.capture_button(HK_LIST), ResidentCommand::Suspend);
    assert_eq!(l.capture_input(true, Some("Ctrl+Alt+Q".into())), (false, Some(ResidentCommand::Reload)));
    assert_eq!(l.settings.hotkey_list, "Ctrl+Alt+P");
    assert_eq!(l.capture_button(HK_LIST), ResidentCommand::Suspend);
    assert_eq!(l.capture_button(HK_LIST), ResidentCommand::Reload);
    assert_eq!(l.capture_button(HK_LIST), ResidentCommand::Suspend);
    assert_eq!(l.toggle_settings(), Some(ResidentCommand::Reload));
    assert_eq!(l.cancel_capture(), None);
    assert_eq!(l.reset_settings(System::Mac), ResidentCommand::Reload);
    assert_eq!(l.settings.hotkey_add, "Cmd+Alt+A");
}

#[test]
fn archive_date_correction() {
    let mut t = task("t", &[]);
    t.archived = "2026-09-09".into();
    assert!(!correct_archive_date(&mut t, "hier", Date(2026, 9, 9)));
    assert_eq!(t.archived, "2026-09-09");
    assert!(correct_archive_date(&mut t, "08/09", Date(2026, 9, 9)));
    assert_eq!(t.archived, "2026-09-08");
}

#[test]
fn capture_window() {
    let today = Date(2026, 9, 9);
    let store = Store { active: vec![task("a", &["rh"])], done: Vec::new() };
    let mut a = Add::new(&store, None);
    assert_eq!(a.tags_all, vec![("rh".to_string(), 1)]);
    assert!(a.submit(true, false, today).is_none());
    a.title = "  Relire  ".into();
    a.from = " Anne ".into();
    a.notes = "\nvoir le lien\n".into();
    a.tags = "rh, #x, RH".into();
    a.deadline = "15/09".into();
    assert!(!a.bad_deadline(today));
    assert_eq!(a.deadline(today), Some(Date(2026, 9, 15)));
    assert!(a.submit(false, true, today).is_none());
    let t = a.submit(true, false, today).unwrap();
    assert_eq!(t.title, "Relire");
    assert_eq!(t.from, "Anne");
    assert_eq!(t.added, "2026-09-09");
    assert_eq!(t.deadline, "2026-09-15");
    assert_eq!(t.notes, "voir le lien");
    assert_eq!(t.tags, vec!["rh", "x"]);
    assert!(t.archived.is_empty() && t.waiting.is_empty());
    // Enter in the notes breaks the line; the command key saves from there
    a.notes_focused = true;
    assert!(a.submit(true, false, today).is_none());
    assert!(a.submit(true, true, today).is_some());
    a.notes_focused = false;
    a.deadline = "demain".into();
    assert!(a.bad_deadline(today));
    assert!(a.submit(true, false, today).is_none());
    a.deadline = "   ".into();
    assert!(!a.bad_deadline(today));
    assert_eq!(a.submit(true, false, today).unwrap().deadline, "");
}

#[test]
fn capture_calendar() {
    let today = Date(2026, 9, 9);
    let mut a = Add::new(&Store { active: Vec::new(), done: Vec::new() }, None);
    a.toggle_calendar(today);
    assert_eq!(a.cal_view, Some((2026, 9)));
    a.toggle_calendar(today);
    assert_eq!(a.cal_view, None);
    a.deadline = "2027-01-03".into();
    a.toggle_calendar(today);
    assert_eq!(a.cal_view, Some((2027, 1)));
    a.pick_date(Date(2027, 1, 20));
    assert_eq!(a.deadline, "20/01/2027");
    assert_eq!(a.cal_view, None);
}

#[test]
fn menu_bar_template() {
    let mut px = vec![0x8A, 0xB4, 0xFF, 255, 0x0F, 0x11, 0x18, 255, 0, 0, 0, 0, 0x40, 1, 2, 200, 9, 9];
    template_pixels(&mut px);
    assert_eq!(px, vec![0, 0, 0, 255, 0, 0, 0, 0, 0, 0, 0, 0, 0, 0, 0, 200, 9, 9]);
}

#[test]
fn effort_filter() {
    let mk = |t: &str, e: Effort| Task {
        title: t.into(),
        effort: e,
        ..Default::default()
    };
    let store = Store {
        active: vec![mk("a", Effort::TwoHours), mk("b", Effort::HalfHour), mk("c", Effort::TwoHours)],
        done: Vec::new(),
    };
    assert!(efforts_differ(&store.active));
    assert!(!efforts_differ(&vec![mk("x", Effort::Day), mk("y", Effort::Day)]));
    let same = Store { active: vec![mk("x", Effort::Day), mk("y", Effort::Day)], done: Vec::new() };
    let mut one = List::new(same, Settings::defaults(System::Linux), false);
    one.pick_effort(Effort::Day);
    assert_eq!(one.shown(), vec![0, 1]);
    assert!(!efforts_differ(&Vec::new()));
    let mut l = List::new(store, Settings::defaults(System::Linux), false);
    l.pick_effort(Effort::HalfHour);
    assert_eq!(l.shown(), vec![1]);
    assert!(!l.drop_card(0, 1, None));
    l.pick_effort(Effort::TwoHours);
    assert_eq!(l.shown(), vec![0, 2]);
    l.pick_effort(Effort::TwoHours);
    assert_eq!(l.effort_filter, None);
    assert_eq!(l.shown(), vec![0, 1, 2]);
    assert!(l.drop_card(0, 3, Some(Tier::Low)));
    let titles: Vec<&str> = l.store.active.iter().map(|t| t.title.as_str()).collect();
    assert_eq!(titles, vec!["b", "c", "a"]);
    assert_eq!(l.store.active[2].tier, Tier::Low);
}

#[test]
fn capture_tier_and_effort() {
    let today = Date(2026, 9, 9);
    let mut a = Add::new(&Store { active: Vec::new(), done: Vec::new() }, None);
    assert_eq!((a.tier, a.effort), (Tier::Medium, Effort::TwoHours));
    a.title = "x".into();
    a.tier = Tier::High;
    a.effort = Effort::Day;
    let t = a.submit(true, false, today).unwrap();
    assert_eq!((t.tier, t.effort), (Tier::High, Effort::Day));
}
