//! Global shortcuts: the combination typed in the settings ("Ctrl+Alt+A"), the neutral form
//! each system backend translates, and those translations.
use vstd::prelude::*;
use crate::text::{
    Sep, ascii_lowercase, ascii_lowercase_chars, ascii_uppercase, ascii_uppercase_chars, chars_of,
    concat, decimal, parse_u32, parse_u32_spec, push_decimal, same, split, split_chars,
    string_of, trim, trim_chars, ascii_upper, zero_padded, free_of, lemma_pieces_free,
};
use global_hotkey::hotkey::{Code, HotKey, Modifiers};

verus! {

/// The systems the application runs on; a few rules differ between them.
#[derive(Clone, Copy, PartialEq, Eq, Structural, Debug)]
pub enum System {
    Windows,
    Mac,
    Linux,
}

/// The key of a shortcut.
#[derive(Clone, Copy, PartialEq, Eq, Structural, Debug)]
pub enum HotkeyKey {
    /// 'A' to 'Z' or '0' to '9'.
    Alnum(u8),
    /// F1 to F24.
    Function(u32),
    Space,
}

/// A shortcut: its modifiers and its key.
#[derive(Clone, Copy, PartialEq, Eq, Structural, Debug)]
pub struct Hotkey {
    pub ctrl: bool,
    pub alt: bool,
    pub shift: bool,
    /// The Windows key, or Command.
    pub meta: bool,
    pub key: HotkeyKey,
}

/// At least one modifier that is not Shift: Windows keeps Win+letter for its shell, macOS
/// leaves Command to applications.
pub open spec fn strong_spec(ctrl: bool, alt: bool, meta: bool, sys: System) -> bool {
    if sys == System::Mac { ctrl || alt || meta } else { ctrl || alt }
}

/// Tests `strong_spec` on a shortcut.
pub fn strong_mods(h: Hotkey, sys: System) -> (r: bool)
    ensures r == strong_spec(h.ctrl, h.alt, h.meta, sys),
{
    match sys {
        System::Mac => h.ctrl || h.alt || h.meta,
        _ => h.ctrl || h.alt,
    }
}

/// The modifiers a shortcut can name.
#[derive(Clone, Copy, PartialEq, Eq, Structural, Debug)]
pub enum Modifier {
    Ctrl,
    Alt,
    Shift,
    Meta,
}

/// The modifier a word names, whatever the case of its ASCII letters: ctrl or control, alt or
/// option, shift or maj, cmd, command, win or super.
pub open spec fn modifier_named(p: Seq<char>) -> Option<Modifier> {
    let l = ascii_lowercase(p);
    if l == seq!['c', 't', 'r', 'l'] || l == seq!['c', 'o', 'n', 't', 'r', 'o', 'l'] {
        Some(Modifier::Ctrl)
    } else if l == seq!['a', 'l', 't'] || l == seq!['o', 'p', 't', 'i', 'o', 'n'] {
        Some(Modifier::Alt)
    } else if l == seq!['s', 'h', 'i', 'f', 't'] || l == seq!['m', 'a', 'j'] {
        Some(Modifier::Shift)
    } else if l == seq!['c', 'm', 'd'] || l == seq!['c', 'o', 'm', 'm', 'a', 'n', 'd']
        || l == seq!['w', 'i', 'n'] || l == seq!['s', 'u', 'p', 'e', 'r'] {
        Some(Modifier::Meta)
    } else {
        None
    }
}

/// The flags (ctrl, alt, shift, meta) that a list of modifier words sets; `None` when one
/// of the words names no modifier.
pub open spec fn modifier_flags(ms: Seq<Seq<char>>) -> Option<(bool, bool, bool, bool)>
    decreases ms.len(),
{
    if ms.len() == 0 {
        Some((false, false, false, false))
    } else {
        match (modifier_flags(ms.drop_last()), modifier_named(ms.last())) {
            (Some(f), Some(Modifier::Ctrl)) => Some((true, f.1, f.2, f.3)),
            (Some(f), Some(Modifier::Alt)) => Some((f.0, true, f.2, f.3)),
            (Some(f), Some(Modifier::Shift)) => Some((f.0, f.1, true, f.3)),
            (Some(f), Some(Modifier::Meta)) => Some((f.0, f.1, f.2, true)),
            _ => None,
        }
    }
}

/// Whether `c` is an ASCII letter or digit.
pub open spec fn is_ascii_alnum(c: char) -> bool {
    ('0' <= c <= '9') || ('A' <= c <= 'Z') || ('a' <= c <= 'z')
}

/// The key a word names, whatever the case of its ASCII letters: Space (or Espace), one
/// letter or digit, or F1 to F24.
pub open spec fn key_named(k: Seq<char>) -> Option<HotkeyKey> {
    let u = ascii_uppercase(k);
    if u == seq!['S', 'P', 'A', 'C', 'E'] || u == seq!['E', 'S', 'P', 'A', 'C', 'E'] {
        Some(HotkeyKey::Space)
    } else if u.len() == 1 && is_ascii_alnum(u[0]) {
        Some(HotkeyKey::Alnum(u[0] as u8))
    } else if u.len() > 0 && u[0] == 'F' {
        match parse_u32_spec(u.drop_first()) {
            Some(n) => if 1 <= n <= 24 { Some(HotkeyKey::Function(n)) } else { None },
            None => None,
        }
    } else {
        None
    }
}

/// The non-empty parts between `+` signs, trimmed.
pub open spec fn nonempty_trimmed(ps: Seq<Seq<char>>) -> Seq<Seq<char>>
    decreases ps.len(),
{
    if ps.len() == 0 {
        Seq::empty()
    } else {
        let rest = nonempty_trimmed(ps.drop_last());
        if trim(ps.last()).len() > 0 { rest.push(trim(ps.last())) } else { rest }
    }
}

/// The parts of a shortcut's text.
pub open spec fn hotkey_parts(s: Seq<char>) -> Seq<Seq<char>> {
    nonempty_trimmed(split(Sep::Plus, s))
}

/// What "Ctrl+Alt+A" names: modifiers first, the key last, at least one strong modifier
/// (`strong_spec`); `None` for anything else.
pub open spec fn parse_hotkey_spec(s: Seq<char>, sys: System) -> Option<Hotkey> {
    let parts = hotkey_parts(s);
    if parts.len() == 0 {
        None
    } else {
        match modifier_flags(parts.drop_last()) {
            None => None,
            Some(f) => if !strong_spec(f.0, f.1, f.3, sys) {
                None
            } else {
                match key_named(parts.last()) {
                    Some(k) => Some(Hotkey { ctrl: f.0, alt: f.1, shift: f.2, meta: f.3, key: k }),
                    None => None,
                }
            },
        }
    }
}

fn modifier_of(p: &[char]) -> (r: Option<Modifier>)
    ensures r == modifier_named(p@),
{
    let l = ascii_lowercase_chars(p);
    if same(&l, &['c', 't', 'r', 'l']) || same(&l, &['c', 'o', 'n', 't', 'r', 'o', 'l']) {
        Some(Modifier::Ctrl)
    } else if same(&l, &['a', 'l', 't']) || same(&l, &['o', 'p', 't', 'i', 'o', 'n']) {
        Some(Modifier::Alt)
    } else if same(&l, &['s', 'h', 'i', 'f', 't']) || same(&l, &['m', 'a', 'j']) {
        Some(Modifier::Shift)
    } else if same(&l, &['c', 'm', 'd']) || same(&l, &['c', 'o', 'm', 'm', 'a', 'n', 'd'])
        || same(&l, &['w', 'i', 'n']) || same(&l, &['s', 'u', 'p', 'e', 'r']) {
        Some(Modifier::Meta)
    } else {
        None
    }
}

fn key_of(k: &[char]) -> (r: Option<HotkeyKey>)
    ensures r == key_named(k@),
{
    let u = ascii_uppercase_chars(k);
    if same(&u, &['S', 'P', 'A', 'C', 'E']) || same(&u, &['E', 'S', 'P', 'A', 'C', 'E']) {
        Some(HotkeyKey::Space)
    } else if u.len() == 1 && (('0' <= u[0] && u[0] <= '9') || ('A' <= u[0] && u[0] <= 'Z')
        || ('a' <= u[0] && u[0] <= 'z')) {
        Some(HotkeyKey::Alnum(u[0] as u8))
    } else if u.len() > 0 && u[0] == 'F' {
        let rest = crate::text::slice_of(&u, 1, u.len());
        assert(rest@ == u@.drop_first());
        match parse_u32(&rest) {
            Some(n) => if 1 <= n && n <= 24 { Some(HotkeyKey::Function(n)) } else { None },
            None => None,
        }
    } else {
        None
    }
}

/// Reads a shortcut typed as "Ctrl+Alt+A", into the neutral combination that each system
/// backend then translates.
pub fn parse_hotkey(spec: &str, sys: System) -> (r: Option<Hotkey>)
    ensures r == parse_hotkey_spec(spec@, sys),
{
    let chars = chars_of(spec);
    let raw = split_chars(Sep::Plus, &chars);
    let ghost ps = split(Sep::Plus, spec@);
    let mut parts: Vec<Vec<char>> = Vec::new();
    let mut i: usize = 0;
    while i < raw.len()
        invariant
            i <= raw@.len(),
            ps == split(Sep::Plus, spec@),
            raw@.map_values(|p: Vec<char>| p@) == ps,
            parts@.map_values(|p: Vec<char>| p@) == nonempty_trimmed(ps.take(i as int)),
        decreases raw@.len() - i,
    {
        assert(raw@[i as int]@ == ps[i as int]);
        let t = trim_chars(&raw[i]);
        assert(ps.take(i + 1).drop_last() == ps.take(i as int));
        let ghost before = parts@.map_values(|p: Vec<char>| p@);
        if t.len() > 0 {
            parts.push(t);
            assert(parts@.map_values(|p: Vec<char>| p@) == before.push(trim(ps[i as int])));
        }
        i += 1;
    }
    assert(ps.take(raw@.len() as int) == ps);
    let ghost pv = parts@.map_values(|p: Vec<char>| p@);
    assert(pv == hotkey_parts(spec@));
    if parts.len() == 0 {
        return None;
    }
    let n = parts.len() - 1;
    let mut ctrl = false;
    let mut alt = false;
    let mut shift = false;
    let mut meta = false;
    let mut j: usize = 0;
    while j < n
        invariant
            n == parts@.len() - 1,
            j <= n,
            pv == parts@.map_values(|p: Vec<char>| p@),
            pv == hotkey_parts(spec@),
            modifier_flags(pv.take(j as int)) == Some((ctrl, alt, shift, meta)),
        decreases n - j,
    {
        assert(pv.take(j + 1).drop_last() == pv.take(j as int));
        assert(pv[j as int] == parts@[j as int]@);
        match modifier_of(&parts[j]) {
            Some(Modifier::Ctrl) => ctrl = true,
            Some(Modifier::Alt) => alt = true,
            Some(Modifier::Shift) => shift = true,
            Some(Modifier::Meta) => meta = true,
            None => {
                proof {
                    lemma_modifier_flags_none(pv.drop_last(), j as int);
                    assert(pv.drop_last().take(j + 1) == pv.take(j + 1));
                }
                return None;
            }
        }
        j += 1;
    }
    assert(pv.take(n as int) == pv.drop_last());
    let h0 = Hotkey { ctrl, alt, shift, meta, key: HotkeyKey::Space };
    if !strong_mods(h0, sys) {
        return None;
    }
    assert(pv.last() == parts@[n as int]@);
    match key_of(&parts[n]) {
        Some(k) => Some(Hotkey { ctrl, alt, shift, meta, key: k }),
        None => None,
    }
}

proof fn lemma_modifier_flags_none(ms: Seq<Seq<char>>, j: int)
    requires
        0 <= j < ms.len(),
        modifier_flags(ms.take(j + 1)) is None,
    ensures
        modifier_flags(ms) is None,
    decreases ms.len() - j,
{
    if j + 1 < ms.len() {
        assert(ms.take(j + 2).drop_last() == ms.take(j + 1));
        lemma_modifier_flags_none(ms, j + 1);
    } else {
        assert(ms.take(j + 1) == ms);
    }
}

/// Some word of the list names this modifier.
pub open spec fn names_modifier(ms: Seq<Seq<char>>, m: Modifier) -> bool {
    exists|i: int| 0 <= i < ms.len() && #[trigger] modifier_named(ms[i]) == Some(m)
}

/// Every word of the list names a modifier.
pub open spec fn all_modifiers(ms: Seq<Seq<char>>) -> bool {
    forall|i: int| 0 <= i < ms.len() ==> (#[trigger] modifier_named(ms[i])) is Some
}

/// What `modifier_flags` gives, said at once: each flag is whether some word names it, when
/// every word names a modifier.
proof fn lemma_modifier_flags_are(ms: Seq<Seq<char>>)
    ensures
        modifier_flags(ms) == (if all_modifiers(ms) {
            Some((
                names_modifier(ms, Modifier::Ctrl),
                names_modifier(ms, Modifier::Alt),
                names_modifier(ms, Modifier::Shift),
                names_modifier(ms, Modifier::Meta),
            ))
        } else {
            None
        }),
    decreases ms.len(),
{
    if ms.len() > 0 {
        let init = ms.drop_last();
        lemma_modifier_flags_are(init);
        let x = ms.last();
        assert(ms[ms.len() - 1] == x);
        assert forall|i: int| 0 <= i < init.len() implies #[trigger] init[i] == ms[i] by {}
        if all_modifiers(ms) {
            assert(all_modifiers(init)) by {
                assert forall|i: int| 0 <= i < init.len() implies (#[trigger] modifier_named(init[i])) is Some by {
                    assert(init[i] == ms[i]);
                }
            }
        }
        if all_modifiers(init) && modifier_named(x) is Some {
            assert(all_modifiers(ms)) by {
                assert forall|i: int| 0 <= i < ms.len() implies (#[trigger] modifier_named(ms[i])) is Some by {
                    if i < init.len() {
                        assert(init[i] == ms[i]);
                    }
                }
            }
            assert forall|m: Modifier| #[trigger] names_modifier(ms, m) == (names_modifier(init, m) || modifier_named(x) == Some(m)) by {
                if names_modifier(ms, m) {
                    let i = choose|i: int| 0 <= i < ms.len() && #[trigger] modifier_named(ms[i]) == Some(m);
                    if i < init.len() {
                        assert(init[i] == ms[i]);
                    }
                }
                if names_modifier(init, m) {
                    let i = choose|i: int| 0 <= i < init.len() && #[trigger] modifier_named(init[i]) == Some(m);
                    assert(init[i] == ms[i]);
                }
            }
        }
    } else {
        assert(all_modifiers(ms));
        assert(!names_modifier(ms, Modifier::Ctrl));
        assert(!names_modifier(ms, Modifier::Alt));
        assert(!names_modifier(ms, Modifier::Shift));
        assert(!names_modifier(ms, Modifier::Meta));
    }
}

/// Two words equal but for the case of ASCII letters.
pub open spec fn same_word(x: Seq<char>, y: Seq<char>) -> bool {
    ascii_lowercase(x) == ascii_lowercase(y)
}

/// Some word of `b` equals `w` but for the case of ASCII letters.
pub open spec fn has_word(b: Seq<Seq<char>>, w: Seq<char>) -> bool {
    exists|j: int| 0 <= j < b.len() && #[trigger] same_word(w, b[j])
}

/// Every modifier word of `a` is, but for the case of ASCII letters, a modifier word of `b`.
pub open spec fn words_within(a: Seq<Seq<char>>, b: Seq<Seq<char>>) -> bool {
    forall|i: int| 0 <= i < a.len() ==> #[trigger] has_word(b, a[i])
}

proof fn lemma_named_by_lowercase(p: Seq<char>, q: Seq<char>)
    requires ascii_lowercase(p) == ascii_lowercase(q),
    ensures modifier_named(p) == modifier_named(q),
{
}

proof fn lemma_key_by_uppercase(p: Seq<char>, q: Seq<char>)
    requires ascii_uppercase(p) == ascii_uppercase(q),
    ensures key_named(p) == key_named(q),
{
}

spec fn same_modifier(x: Seq<char>, y: Seq<char>) -> bool {
    modifier_named(x) == modifier_named(y)
}

spec fn has_modifier(b: Seq<Seq<char>>, w: Seq<char>) -> bool {
    exists|j: int| 0 <= j < b.len() && #[trigger] same_modifier(w, b[j])
}

/// Every word of `a` names the modifier some word of `b` names.
spec fn named_within(a: Seq<Seq<char>>, b: Seq<Seq<char>>) -> bool {
    forall|i: int| 0 <= i < a.len() ==> #[trigger] has_modifier(b, a[i])
}

proof fn lemma_named_within(a: Seq<Seq<char>>, b: Seq<Seq<char>>)
    requires words_within(a, b),
    ensures named_within(a, b),
{
    assert forall|i: int| 0 <= i < a.len() implies #[trigger] has_modifier(b, a[i]) by {
        assert(has_word(b, a[i]));
        let j = choose|j: int| 0 <= j < b.len() && #[trigger] same_word(a[i], b[j]);
        lemma_named_by_lowercase(a[i], b[j]);
        assert(same_modifier(a[i], b[j]));
    }
}

proof fn lemma_within_flags(a: Seq<Seq<char>>, b: Seq<Seq<char>>)
    requires named_within(a, b),
    ensures
        all_modifiers(b) ==> all_modifiers(a),
        forall|m: Modifier| #[trigger] names_modifier(a, m) ==> names_modifier(b, m),
{
    if all_modifiers(b) {
        assert forall|i: int| 0 <= i < a.len() implies (#[trigger] modifier_named(a[i])) is Some by {
            assert(has_modifier(b, a[i]));
            let j = choose|j: int| 0 <= j < b.len() && #[trigger] same_modifier(a[i], b[j]);
            assert(modifier_named(b[j]) is Some);
        }
    }
    assert forall|m: Modifier| #[trigger] names_modifier(a, m) implies names_modifier(b, m) by {
        let i = choose|i: int| 0 <= i < a.len() && #[trigger] modifier_named(a[i]) == Some(m);
        assert(has_modifier(b, a[i]));
        let j = choose|j: int| 0 <= j < b.len() && #[trigger] same_modifier(a[i], b[j]);
        assert(modifier_named(b[j]) == Some(m));
    }
}

/// The same modifier words, but for ASCII case, order and repetition, set the same flags.
proof fn lemma_same_flags(a: Seq<Seq<char>>, b: Seq<Seq<char>>)
    requires
        words_within(a, b),
        words_within(b, a),
    ensures
        modifier_flags(a) == modifier_flags(b),
{
    lemma_named_within(a, b);
    lemma_named_within(b, a);
    lemma_within_flags(a, b);
    lemma_within_flags(b, a);
    lemma_modifier_flags_are(a);
    lemma_modifier_flags_are(b);
    assert(names_modifier(a, Modifier::Ctrl) == names_modifier(b, Modifier::Ctrl));
    assert(names_modifier(a, Modifier::Alt) == names_modifier(b, Modifier::Alt));
    assert(names_modifier(a, Modifier::Shift) == names_modifier(b, Modifier::Shift));
    assert(names_modifier(a, Modifier::Meta) == names_modifier(b, Modifier::Meta));
}

/// Two shortcut texts read as the same shortcut when their parts (the text between `+`
/// signs, trimmed, empty ones left out: so spacing and empty parts never count) have the
/// same key but for ASCII case and the same modifier words but for ASCII case, in any
/// order and however often each is repeated.
pub proof fn lemma_hotkey_same_reading(s1: Seq<char>, s2: Seq<char>, sys: System)
    requires
        hotkey_parts(s1).len() > 0,
        hotkey_parts(s2).len() > 0,
        ascii_uppercase(hotkey_parts(s1).last()) == ascii_uppercase(hotkey_parts(s2).last()),
        words_within(hotkey_parts(s1).drop_last(), hotkey_parts(s2).drop_last()),
        words_within(hotkey_parts(s2).drop_last(), hotkey_parts(s1).drop_last()),
    ensures
        parse_hotkey_spec(s1, sys) == parse_hotkey_spec(s2, sys),
{
    lemma_same_flags(hotkey_parts(s1).drop_last(), hotkey_parts(s2).drop_last());
    lemma_key_by_uppercase(hotkey_parts(s1).last(), hotkey_parts(s2).last());
}

/// The shortcut a text names, once every part before the last names a modifier and one of
/// them is strong: its flags are the modifiers named, and its key is Space for the word
/// Space or Espace, the capital of a single letter or digit, or function key `n` for F and
/// `n` from 1 to 24, whatever the case of the ASCII letters.
pub proof fn lemma_hotkey_reads(s: Seq<char>, sys: System)
    requires
        hotkey_parts(s).len() > 0,
        all_modifiers(hotkey_parts(s).drop_last()),
        strong_spec(
            names_modifier(hotkey_parts(s).drop_last(), Modifier::Ctrl),
            names_modifier(hotkey_parts(s).drop_last(), Modifier::Alt),
            names_modifier(hotkey_parts(s).drop_last(), Modifier::Meta),
            sys,
        ),
    ensures ({
        let ms = hotkey_parts(s).drop_last();
        let w = hotkey_parts(s).last();
        let ctrl = names_modifier(ms, Modifier::Ctrl);
        let alt = names_modifier(ms, Modifier::Alt);
        let shift = names_modifier(ms, Modifier::Shift);
        let meta = names_modifier(ms, Modifier::Meta);
        &&& (ascii_uppercase(w) == seq!['S', 'P', 'A', 'C', 'E'] || ascii_uppercase(w) == seq!['E', 'S', 'P', 'A', 'C', 'E'])
            ==> parse_hotkey_spec(s, sys) == Some(Hotkey { ctrl, alt, shift, meta, key: HotkeyKey::Space })
        &&& (w.len() == 1 && is_ascii_alnum(w[0])) ==> parse_hotkey_spec(s, sys) == Some(
            Hotkey { ctrl, alt, shift, meta, key: HotkeyKey::Alnum(ascii_upper(w[0]) as u8) })
        &&& forall|n: u32| 1 <= n <= 24 && #[trigger] ascii_uppercase(w) == seq!['F'] + decimal(n as nat)
            ==> parse_hotkey_spec(s, sys) == Some(Hotkey { ctrl, alt, shift, meta, key: HotkeyKey::Function(n) })
    }),
{
    let ms = hotkey_parts(s).drop_last();
    let w = hotkey_parts(s).last();
    let u = ascii_uppercase(w);
    lemma_modifier_flags_are(ms);
    if w.len() == 1 && is_ascii_alnum(w[0]) {
        assert(u.len() == 1 && u[0] == ascii_upper(w[0]));
        assert(u != seq!['S', 'P', 'A', 'C', 'E']);
        assert(u != seq!['E', 'S', 'P', 'A', 'C', 'E']);
    }
    assert forall|n: u32| 1 <= n <= 24 && #[trigger] ascii_uppercase(w) == seq!['F'] + decimal(n as nat)
        implies parse_hotkey_spec(s, sys) == Some(Hotkey {
            ctrl: names_modifier(ms, Modifier::Ctrl),
            alt: names_modifier(ms, Modifier::Alt),
            shift: names_modifier(ms, Modifier::Shift),
            meta: names_modifier(ms, Modifier::Meta),
            key: HotkeyKey::Function(n),
        }) by {
        crate::text::lemma_padded_reads_back(n as nat, 0);
        crate::text::lemma_decimal_digits(n as nat);
        assert(zero_padded(decimal(n as nat), 0) == decimal(n as nat));
        assert(u.drop_first() == decimal(n as nat));
        assert(u[0] == 'F');
        assert(u != seq!['S', 'P', 'A', 'C', 'E']);
        assert(u != seq!['E', 'S', 'P', 'A', 'C', 'E']);
        if u.len() == 1 {
            assert(decimal(n as nat).len() == 0);
        }
        assert(u.len() != 1);
    }
}

/// Which modifier keys are held, as a keyboard event reports them.
#[derive(Clone, Copy, PartialEq, Eq, Structural, Debug)]
pub struct KeyModifiers {
    /// Command, on macOS only.
    pub mac_cmd: bool,
    pub ctrl: bool,
    pub alt: bool,
    pub shift: bool,
}

/// The label of a pressed combination: "Cmd", "Ctrl", "Alt", "Shift" for those held, in that
/// order, then the key's name, joined by `+`.
pub open spec fn label_text(key_name: Seq<char>, m: KeyModifiers) -> Seq<char> {
    (if m.mac_cmd { seq!['C', 'm', 'd', '+'] } else { Seq::empty() })
        + (if m.ctrl { seq!['C', 't', 'r', 'l', '+'] } else { Seq::empty() })
        + (if m.alt { seq!['A', 'l', 't', '+'] } else { Seq::empty() })
        + (if m.shift { seq!['S', 'h', 'i', 'f', 't', '+'] } else { Seq::empty() })
        + key_name
}

/// The label "Ctrl+Alt+A" of a pressed key and the modifiers held, when that combination is
/// one `parse_hotkey` accepts; `None` otherwise.
pub fn hotkey_label(key_name: &str, mods: KeyModifiers, sys: System) -> (r: Option<String>)
    ensures
        match r {
            Some(l) => l@ == label_text(key_name@, mods) && parse_hotkey_spec(l@, sys) is Some,
            None => parse_hotkey_spec(label_text(key_name@, mods), sys) is None,
        },
{
    let e: Vec<char> = Vec::new();
    let a = if mods.mac_cmd { concat(&e, &['C', 'm', 'd', '+']) } else { concat(&e, &[]) };
    let b = if mods.ctrl { concat(&a, &['C', 't', 'r', 'l', '+']) } else { concat(&a, &[]) };
    let c = if mods.alt { concat(&b, &['A', 'l', 't', '+']) } else { concat(&b, &[]) };
    let d = if mods.shift { concat(&c, &['S', 'h', 'i', 'f', 't', '+']) } else { concat(&c, &[]) };
    let k = chars_of(key_name);
    let all = concat(&d, &k);
    assert(all@ == label_text(key_name@, mods));
    let label = string_of(&all);
    match parse_hotkey(label.as_str(), sys) {
        Some(_) => Some(label),
        None => None,
    }
}

/// What `RegisterHotKey` takes for a shortcut: its modifier flags (Alt 1, Ctrl 2, Shift 4,
/// Win 8) and its virtual-key code (the character for a letter or digit, 0x70 on for F1 on,
/// 0x20 for Space).
pub open spec fn vk_spec(h: Hotkey) -> (u32, u32) {
    (((if h.alt { 1int } else { 0 }) + (if h.ctrl { 2int } else { 0 }) + (if h.shift { 4int } else { 0 })
        + (if h.meta { 8int } else { 0 })) as u32,
    match h.key {
        HotkeyKey::Alnum(c) => c as u32,
        HotkeyKey::Function(n) => (0x6F + n) as u32,
        HotkeyKey::Space => 0x20u32,
    })
}

/// Modifier flags and virtual-key code of a shortcut, for Windows.
pub fn vk(h: Hotkey) -> (r: (u32, u32))
    requires
        h.key matches HotkeyKey::Function(n) ==> n <= u32::MAX - 0x6F,
    ensures
        r == vk_spec(h),
{
    let mut m: u32 = 0;
    if h.alt {
        m = m + 1;
    }
    if h.ctrl {
        m = m + 2;
    }
    if h.shift {
        m = m + 4;
    }
    if h.meta {
        m = m + 8;
    }
    let code = match h.key {
        HotkeyKey::Alnum(c) => c as u32,
        HotkeyKey::Function(n) => 0x6F + n,
        HotkeyKey::Space => 0x20,
    };
    (m, code)
}

proof fn lemma_split_after(w: Seq<char>, rest: Seq<char>)
    requires free_of(Sep::Plus, w),
    ensures split(Sep::Plus, w + seq!['+'] + rest) == seq![w] + split(Sep::Plus, rest),
{
    let e = Seq::<char>::empty();
    let tail = seq!['+'] + rest;
    assert(w + seq!['+'] + rest == w + tail);
    lemma_pieces_free(Sep::Plus, e, w, tail);
    assert(e + w == w);
    assert(tail[0] == '+');
    assert(tail.drop_first() == rest);
}

/// The word, as a part of a label, when its modifier is held; nothing otherwise.
pub open spec fn held_word(on: bool, w: Seq<char>) -> Seq<Seq<char>> {
    if on { seq![w] } else { Seq::empty() }
}

proof fn lemma_split_held(on: bool, w: Seq<char>, lit: Seq<char>, rest: Seq<char>)
    requires
        free_of(Sep::Plus, w),
        lit == w + seq!['+'],
    ensures
        split(Sep::Plus, (if on { lit } else { Seq::empty() }) + rest) == held_word(on, w) + split(Sep::Plus, rest),
{
    if on {
        lemma_split_after(w, rest);
    } else {
        assert(Seq::<char>::empty() + rest == rest);
        assert(held_word(on, w) + split(Sep::Plus, rest) == split(Sep::Plus, rest));
    }
}

proof fn lemma_nonempty_trimmed_same(ps: Seq<Seq<char>>)
    requires forall|i: int| 0 <= i < ps.len() ==> (#[trigger] ps[i]).len() > 0 && trim(ps[i]) == ps[i],
    ensures nonempty_trimmed(ps) == ps,
    decreases ps.len(),
{
    if ps.len() > 0 {
        let init = ps.drop_last();
        assert forall|i: int| 0 <= i < init.len() implies (#[trigger] init[i]).len() > 0 && trim(init[i]) == init[i] by {
            assert(init[i] == ps[i]);
        }
        lemma_nonempty_trimmed_same(init);
        assert(ps.last() == ps[ps.len() - 1]);
        assert(init.push(ps.last()) == ps);
    }
}

proof fn lemma_flags_push(ms: Seq<Seq<char>>, on: bool, w: Seq<char>, m: Modifier)
    requires modifier_named(w) == Some(m),
    ensures
        modifier_flags(ms + held_word(on, w)) == (if !on { modifier_flags(ms) } else {
            match modifier_flags(ms) {
                Some(f) => Some(match m {
                    Modifier::Ctrl => (true, f.1, f.2, f.3),
                    Modifier::Alt => (f.0, true, f.2, f.3),
                    Modifier::Shift => (f.0, f.1, true, f.3),
                    Modifier::Meta => (f.0, f.1, f.2, true),
                }),
                None => None,
            }
        }),
{
    if on {
        assert((ms + held_word(on, w)).drop_last() == ms);
        assert((ms + held_word(on, w)).last() == w);
    } else {
        assert(ms + held_word(on, w) == ms);
    }
}

/// The label of a pressed combination reads back as that combination: its parts are the
/// modifier words held, in order, then the key's name, and when that name is a key and a
/// strong modifier is held, it reads as the modifiers held (Command as the meta key) and that
/// key.
pub proof fn lemma_label_reads_back(key_name: Seq<char>, m: KeyModifiers, sys: System)
    requires
        key_name.len() > 0,
        trim(key_name) == key_name,
        free_of(Sep::Plus, key_name),
    ensures
        hotkey_parts(label_text(key_name, m)) == held_word(m.mac_cmd, seq!['C', 'm', 'd'])
            + held_word(m.ctrl, seq!['C', 't', 'r', 'l']) + held_word(m.alt, seq!['A', 'l', 't'])
            + held_word(m.shift, seq!['S', 'h', 'i', 'f', 't']) + seq![key_name],
        strong_spec(m.ctrl, m.alt, m.mac_cmd, sys) ==> match key_named(key_name) {
            Some(k) => parse_hotkey_spec(label_text(key_name, m), sys) == Some(
                Hotkey { ctrl: m.ctrl, alt: m.alt, shift: m.shift, meta: m.mac_cmd, key: k }),
            None => parse_hotkey_spec(label_text(key_name, m), sys) is None,
        },
{
    let e = Seq::<char>::empty();
    let wc = seq!['C', 'm', 'd'];
    let wt = seq!['C', 't', 'r', 'l'];
    let wa = seq!['A', 'l', 't'];
    let ws = seq!['S', 'h', 'i', 'f', 't'];
    let lc = if m.mac_cmd { seq!['C', 'm', 'd', '+'] } else { Seq::empty() };
    let lt = if m.ctrl { seq!['C', 't', 'r', 'l', '+'] } else { Seq::empty() };
    let la = if m.alt { seq!['A', 'l', 't', '+'] } else { Seq::empty() };
    let ls = if m.shift { seq!['S', 'h', 'i', 'f', 't', '+'] } else { Seq::empty() };
    assert(label_text(key_name, m) == lc + (lt + (la + (ls + key_name))));
    assert(seq!['C', 'm', 'd', '+'] == wc + seq!['+']);
    assert(seq!['C', 't', 'r', 'l', '+'] == wt + seq!['+']);
    assert(seq!['A', 'l', 't', '+'] == wa + seq!['+']);
    assert(seq!['S', 'h', 'i', 'f', 't', '+'] == ws + seq!['+']);
    assert(free_of(Sep::Plus, wc));
    assert(free_of(Sep::Plus, wt));
    assert(free_of(Sep::Plus, wa));
    assert(free_of(Sep::Plus, ws));
    lemma_pieces_free(Sep::Plus, e, key_name, e);
    assert(key_name + e == key_name);
    assert(e + key_name == key_name);
    assert(split(Sep::Plus, key_name) == seq![key_name]);
    lemma_split_held(m.shift, ws, seq!['S', 'h', 'i', 'f', 't', '+'], key_name);
    lemma_split_held(m.alt, wa, seq!['A', 'l', 't', '+'], ls + key_name);
    lemma_split_held(m.ctrl, wt, seq!['C', 't', 'r', 'l', '+'], la + (ls + key_name));
    lemma_split_held(m.mac_cmd, wc, seq!['C', 'm', 'd', '+'], lt + (la + (ls + key_name)));
    let ms = held_word(m.mac_cmd, wc) + held_word(m.ctrl, wt) + held_word(m.alt, wa) + held_word(m.shift, ws);
    let parts = ms + seq![key_name];
    assert(split(Sep::Plus, label_text(key_name, m)) == parts);
    assert(trim(wc) == wc);
    assert(trim(wt) == wt);
    assert(trim(wa) == wa);
    assert(trim(ws) == ws);
    assert forall|i: int| 0 <= i < parts.len() implies (#[trigger] parts[i]).len() > 0 && trim(parts[i]) == parts[i] by {
        assert(parts[i] == wc || parts[i] == wt || parts[i] == wa || parts[i] == ws || parts[i] == key_name);
    }
    lemma_nonempty_trimmed_same(parts);
    assert(ascii_lowercase(wc) == seq!['c', 'm', 'd']);
    assert(ascii_lowercase(wt) == seq!['c', 't', 'r', 'l']);
    assert(ascii_lowercase(wa) == seq!['a', 'l', 't']);
    assert(ascii_lowercase(ws) == seq!['s', 'h', 'i', 'f', 't']);
    let m0 = held_word(m.mac_cmd, wc);
    let m1 = m0 + held_word(m.ctrl, wt);
    let m2 = m1 + held_word(m.alt, wa);
    lemma_flags_push(Seq::<Seq<char>>::empty(), m.mac_cmd, wc, Modifier::Meta);
    assert(Seq::<Seq<char>>::empty() + m0 == m0);
    lemma_flags_push(m0, m.ctrl, wt, Modifier::Ctrl);
    lemma_flags_push(m1, m.alt, wa, Modifier::Alt);
    lemma_flags_push(m2, m.shift, ws, Modifier::Shift);
    assert(parts.drop_last() == ms);
    assert(parts.last() == key_name);
}

/// The W3C code name of a key: KeyA for a letter, Digit1 for anything else in `Alnum`, F5,
/// Space.
pub open spec fn code_name_spec(k: HotkeyKey) -> Seq<char> {
    match k {
        HotkeyKey::Alnum(c) => if ('A' <= (c as char) <= 'Z') || ('a' <= (c as char) <= 'z') {
            seq!['K', 'e', 'y', c as char]
        } else {
            seq!['D', 'i', 'g', 'i', 't', c as char]
        },
        HotkeyKey::Function(n) => seq!['F'] + decimal(n as nat),
        HotkeyKey::Space => seq!['S', 'p', 'a', 'c', 'e'],
    }
}

/// The code name of a key, as global-hotkey reads it.
pub fn code_name(k: HotkeyKey) -> (r: String)
    ensures r@ == code_name_spec(k),
{
    let mut v: Vec<char> = Vec::new();
    match k {
        HotkeyKey::Alnum(c) => {
            let ch = c as char;
            if ('A' <= ch && ch <= 'Z') || ('a' <= ch && ch <= 'z') {
                v.push('K');
                v.push('e');
                v.push('y');
            } else {
                v.push('D');
                v.push('i');
                v.push('g');
                v.push('i');
                v.push('t');
            }
            v.push(ch);
        },
        HotkeyKey::Function(n) => {
            v.push('F');
            push_decimal(&mut v, n as u64);
        },
        HotkeyKey::Space => {
            v.push('S');
            v.push('p');
            v.push('a');
            v.push('c');
            v.push('e');
        },
    }
    string_of(&v)
}

/// Code names that keyboard-types recognises among those `code_name_spec` writes: KeyA to
/// KeyZ, Digit0 to Digit9, F1 to F35 and Space.
pub open spec fn known_code_name(s: Seq<char>) -> bool {
    exists|k: HotkeyKey| #[trigger] code_name_spec(k) == s && key_has_code(k)
}

/// Whether keyboard-types has a code for the key: a capital letter, a digit, F1 to F35, Space.
pub open spec fn key_has_code(k: HotkeyKey) -> bool {
    match k {
        HotkeyKey::Alnum(c) => ('A' <= (c as char) <= 'Z') || ('0' <= (c as char) <= '9'),
        HotkeyKey::Function(n) => 1 <= n <= 35,
        HotkeyKey::Space => true,
    }
}

#[verifier::external_type_specification]
#[verifier::external_body]
pub struct ExHotKey(HotKey);

/// What `HotKey::new` (global-hotkey 0.9) returns for the modifiers whose bits are `mods` and
/// the key code that keyboard-types reads from the code name `code`.
pub uninterp spec fn global_hotkey(mods: u32, code: Seq<char>) -> HotKey;

/// `<Code as FromStr>::from_str` (keyboard-types 0.8, which global-hotkey re-exports), then
/// `HotKey::new` with `Modifiers::from_bits_truncate(mods)`. For a name that `code_name_spec`
/// writes, there is a shortcut exactly when the name is one that `known_code_name` lists (the
/// source matches those strings one by one); the shortcut is then `global_hotkey` of the bits
/// and the name, since `HotKey::new` builds its fields from its two arguments alone. What
/// those fields hold is not stated: `HotKey` is opaque here.
#[verifier::external_body]
fn hotkey_from_name(mods: u32, name: &str) -> (r: Option<HotKey>)
    ensures
        (exists|k: HotkeyKey| #[trigger] code_name_spec(k) == name@) ==> (r is Some
            <==> known_code_name(name@)),
        match r {
            Some(k) => k == global_hotkey(mods, name@),
            None => true,
        },
{
    match name.parse::<Code>() {
        Ok(code) => Some(HotKey::new(Some(Modifiers::from_bits_truncate(mods)), code)),
        Err(_) => None,
    }
}

/// keyboard-types' `Modifiers::ALT`.
pub const MOD_ALT: u32 = 0x01;
/// keyboard-types' `Modifiers::CONTROL`.
pub const MOD_CONTROL: u32 = 0x08;
/// keyboard-types' `Modifiers::META` (what `HotKey::new` turns `SUPER` into).
pub const MOD_META: u32 = 0x40;
/// keyboard-types' `Modifiers::SHIFT`.
pub const MOD_SHIFT: u32 = 0x200;

/// The modifier bits of a shortcut, as keyboard-types numbers them.
pub open spec fn modifier_bits(h: Hotkey) -> u32 {
    ((if h.ctrl { MOD_CONTROL as int } else { 0 }) + (if h.alt { MOD_ALT as int } else { 0 })
        + (if h.shift { MOD_SHIFT as int } else { 0 }) + (if h.meta { MOD_META as int } else { 0 })) as u32
}

/// Computes `modifier_bits`.
pub fn modifiers_of(h: Hotkey) -> (r: u32)
    ensures r == modifier_bits(h),
{
    (if h.ctrl { MOD_CONTROL } else { 0 }) + (if h.alt { MOD_ALT } else { 0 }) + (if h.shift { MOD_SHIFT } else { 0 })
        + (if h.meta { MOD_META } else { 0 })
}

/// The global-hotkey shortcut of a combination: there is one exactly when keyboard-types has
/// a code for its key, and it is built from the combination's modifier bits and its key's
/// code name.
pub fn hotkey(h: Hotkey) -> (r: Option<HotKey>)
    ensures
        match r {
            Some(k) => key_has_code(h.key) && k == global_hotkey(modifier_bits(h), code_name_spec(h.key)),
            None => !key_has_code(h.key),
        },
{
    let name = code_name(h.key);
    proof {
        if key_has_code(h.key) {
            assert(known_code_name(name@));
        } else {
            if known_code_name(name@) {
                let k = choose|k: HotkeyKey| #[trigger] code_name_spec(k) == name@ && key_has_code(k);
                assert(code_name_spec(k) == code_name_spec(h.key));
                lemma_code_name_injective(k, h.key);
            }
        }
    }
    hotkey_from_name(modifiers_of(h), name.as_str())
}

proof fn lemma_code_name_injective(a: HotkeyKey, b: HotkeyKey)
    requires code_name_spec(a) == code_name_spec(b),
    ensures a == b,
{
    match (a, b) {
        (HotkeyKey::Function(n), HotkeyKey::Function(m)) => {
            assert(decimal(n as nat) == code_name_spec(a).drop_first());
            assert(decimal(m as nat) == code_name_spec(b).drop_first());
            crate::text::lemma_decimal_digits(n as nat);
            crate::text::lemma_decimal_digits(m as nat);
        },
        (HotkeyKey::Function(n), _) => {
            assert(code_name_spec(a)[0] == 'F');
            assert(code_name_spec(b)[0] != 'F');
        },
        (_, HotkeyKey::Function(m)) => {
            assert(code_name_spec(b)[0] == 'F');
            assert(code_name_spec(a)[0] != 'F');
        },
        (HotkeyKey::Alnum(c), HotkeyKey::Alnum(d)) => {
            let sa = code_name_spec(a);
            let sb = code_name_spec(b);
            assert(sa.last() == c as char);
            assert(sb.last() == d as char);
        },
        _ => {
            if a != b {
                assert(code_name_spec(a).len() != code_name_spec(b).len());
            }
        },
    }
}

} // verus!
