use eframe::egui;
use global_hotkey::hotkey::{Code, HotKey, Modifiers};
use prio::hotkey::{code_name, hotkey, hotkey_label, parse_hotkey, strong_mods, vk, Hotkey, HotkeyKey, KeyModifiers, System};
use prio::settings::{labels, Settings};

fn mods(m: egui::Modifiers) -> KeyModifiers {
    KeyModifiers {
        mac_cmd: m.mac_cmd,
        ctrl: m.ctrl,
        alt: m.alt,
        shift: m.shift,
    }
}

#[test]
fn parsing() {
    let sys = System::Linux;
    let a = parse_hotkey("Ctrl+Alt+A", sys).unwrap();
    assert_eq!(
        (a.ctrl, a.alt, a.shift, a.meta, a.key),
        (true, true, false, false, HotkeyKey::Alnum(b'A'))
    );
    let f = parse_hotkey("ctrl + shift + f5", sys).unwrap();
    assert_eq!((f.ctrl, f.shift, f.key), (true, true, HotkeyKey::Function(5)));
    assert_eq!(parse_hotkey("Alt+Espace", sys).unwrap().key, HotkeyKey::Space);
    assert_eq!(parse_hotkey("Shift+A", sys), None);
    assert_eq!(parse_hotkey("Ctrl+Alt+Entrée", sys), None);
    assert_eq!(parse_hotkey("Ctrl+Alt+F25", sys), None);
    assert_eq!(parse_hotkey("Cmd+A", System::Mac).is_some(), true);
    assert_eq!(parse_hotkey("Cmd+A", System::Linux).is_some(), false);
    assert_eq!(parse_hotkey("Cmd+A", System::Windows).is_some(), false);
}

#[test]
fn label() {
    let m = egui::Modifiers {
        ctrl: true,
        alt: true,
        ..Default::default()
    };
    assert_eq!(hotkey_label(egui::Key::A.name(), mods(m), System::Linux), Some("Ctrl+Alt+A".into()));
    assert_eq!(hotkey_label(egui::Key::A.name(), mods(egui::Modifiers::default()), System::Linux), None);
}

#[test]
fn parsing_more_forms() {
    let sys = System::Windows;
    let h = parse_hotkey("control+option+maj+win+z", sys).unwrap();
    assert_eq!((h.ctrl, h.alt, h.shift, h.meta, h.key), (true, true, true, true, HotkeyKey::Alnum(b'Z')));
    assert_eq!(parse_hotkey("Alt+7", sys).unwrap().key, HotkeyKey::Alnum(b'7'));
    assert_eq!(parse_hotkey("Alt+F24", sys).unwrap().key, HotkeyKey::Function(24));
    assert_eq!(parse_hotkey("Alt+F0", sys), None);
    assert_eq!(parse_hotkey("Alt+Fx", sys), None);
    assert_eq!(parse_hotkey("Alt++A", sys).unwrap().key, HotkeyKey::Alnum(b'A'));
    assert_eq!(parse_hotkey("Hyper+A", sys), None);
    assert_eq!(parse_hotkey("A", sys), None);
    assert_eq!(parse_hotkey("", sys), None);
    assert_eq!(parse_hotkey("Ctrl+AB", sys), None);
    assert_eq!(parse_hotkey("Super+A", System::Mac).unwrap().meta, true);
}

#[test]
fn case_spacing_and_order_do_not_count() {
    for sys in [System::Linux, System::Windows, System::Mac] {
        let base = parse_hotkey("Ctrl+Alt+A", sys);
        assert!(base.is_some());
        assert_eq!(parse_hotkey("alt + CTRL + ctrl + a", sys), base);
        assert_eq!(parse_hotkey("+ ALT+ +Ctrl+A+", sys), base);
    }
}

#[test]
fn labels_of_pressed_keys() {
    let cmd = KeyModifiers { mac_cmd: true, ctrl: false, alt: true, shift: true };
    assert_eq!(hotkey_label("P", cmd, System::Mac), Some("Cmd+Alt+Shift+P".into()));
    assert_eq!(hotkey_label("F5", KeyModifiers { mac_cmd: false, ctrl: true, alt: false, shift: false }, System::Linux), Some("Ctrl+F5".into()));
    assert_eq!(hotkey_label("Enter", KeyModifiers { mac_cmd: false, ctrl: true, alt: false, shift: false }, System::Linux), None);
    let shift = KeyModifiers { mac_cmd: false, ctrl: false, alt: false, shift: true };
    assert_eq!(hotkey_label("A", shift, System::Linux), None);
}

#[test]
fn strong_modifiers() {
    let h = |ctrl, alt, meta| Hotkey { ctrl, alt, shift: true, meta, key: HotkeyKey::Space };
    assert!(strong_mods(h(true, false, false), System::Linux));
    assert!(strong_mods(h(false, true, false), System::Windows));
    assert!(!strong_mods(h(false, false, true), System::Windows));
    assert!(strong_mods(h(false, false, true), System::Mac));
    assert!(!strong_mods(h(false, false, false), System::Mac));
}

#[test]
fn windows_codes() {
    let h = Hotkey { ctrl: true, alt: true, shift: false, meta: false, key: HotkeyKey::Alnum(b'A') };
    assert_eq!(vk(h), (3, 0x41));
    let f = Hotkey { ctrl: false, alt: false, shift: true, meta: true, key: HotkeyKey::Function(5) };
    assert_eq!(vk(f), (12, 0x74));
    let s = Hotkey { ctrl: true, alt: false, shift: false, meta: false, key: HotkeyKey::Space };
    assert_eq!(vk(s), (2, 0x20));
}

#[test]
fn global_hotkey_codes() {
    assert_eq!(code_name(HotkeyKey::Alnum(b'Q')), "KeyQ");
    assert_eq!(code_name(HotkeyKey::Alnum(b'3')), "Digit3");
    assert_eq!(code_name(HotkeyKey::Function(12)), "F12");
    assert_eq!(code_name(HotkeyKey::Space), "Space");
    let k = |key| Hotkey { ctrl: true, alt: true, shift: false, meta: false, key };
    assert!(hotkey(k(HotkeyKey::Alnum(b'A'))).is_some());
    assert!(hotkey(k(HotkeyKey::Alnum(b'0'))).is_some());
    assert!(hotkey(k(HotkeyKey::Function(24))).is_some());
    assert!(hotkey(k(HotkeyKey::Space)).is_some());
    assert!(hotkey(k(HotkeyKey::Alnum(b'#'))).is_none());
    assert!(hotkey(k(HotkeyKey::Function(99))).is_none());
    let a = hotkey(k(HotkeyKey::Alnum(b'A'))).unwrap();
    let b = hotkey(k(HotkeyKey::Alnum(b'B'))).unwrap();
    assert_ne!(a.id(), b.id());
}

#[test]
fn global_hotkey_keeps_modifiers_and_key() {
    let h = parse_hotkey("Ctrl+Alt+A", System::Linux).unwrap();
    let g = hotkey(h).unwrap();
    assert_eq!(g.mods, Modifiers::CONTROL | Modifiers::ALT);
    assert_eq!(g.key, Code::KeyA);
    assert_eq!(g, HotKey::new(Some(Modifiers::CONTROL | Modifiers::ALT), Code::KeyA));
    let m = Hotkey { ctrl: false, alt: false, shift: true, meta: true, key: HotkeyKey::Function(5) };
    let g = hotkey(m).unwrap();
    assert_eq!(g.mods, Modifiers::SHIFT | Modifiers::META);
    assert_eq!(g.key, Code::F5);
    let s = Hotkey { ctrl: true, alt: false, shift: false, meta: false, key: HotkeyKey::Space };
    assert_eq!(hotkey(s).unwrap().mods, Modifiers::CONTROL);
    assert_eq!(hotkey(s).unwrap().key, Code::Space);
}

#[test]
fn default_settings_and_menu_labels() {
    let s = Settings::defaults(System::Linux);
    assert_eq!((s.hotkey_add.as_str(), s.hotkey_list.as_str(), s.toggle_close), ("Ctrl+Alt+A", "Ctrl+Alt+P", true));
    let m = Settings::defaults(System::Mac);
    assert_eq!((m.hotkey_add.as_str(), m.hotkey_list.as_str()), ("Cmd+Alt+A", "Cmd+Alt+P"));
    assert!(parse_hotkey(&m.hotkey_add, System::Mac).is_some());
    assert!(parse_hotkey(&s.hotkey_list, System::Windows).is_some());
    let (list, add, tip) = labels(&s);
    assert_eq!(list, "Prio\tCtrl+Alt+P");
    assert_eq!(add, "Ajouter\tCtrl+Alt+A");
    assert_eq!(tip, "Prio  ·  Ctrl+Alt+P");
}
