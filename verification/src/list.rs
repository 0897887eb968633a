//! The list window without its widgets: which list shows, the tag filter, the unfolded card,
//! the shortcut being captured in the settings panel, and what each gesture does to them and
//! to the tasks.
use vstd::prelude::*;
use crate::date::{Date, iso_text, parse_date};
use crate::hotkey::System;
use crate::people::{names, names_spec, tags_all, tags_all_spec};
use crate::protocol::{HK_ADD, ResidentCommand, notify_hotkeys_changed, suspend_hotkeys};
use crate::settings::{Settings, default_add, default_list};
use crate::store::{
    Effort, Store, Task, TaskView, Tier, display_order, landing, needs_resort, out_of_order,
    sort_waiting, tasks_view, with_archived, with_tier,
};
use crate::tags::{contains_ci, has_ci, texts};
use crate::text::{cat, chars_of, decimal, eq_ignore_ascii_case, eq_ascii_ci, push_decimal, string_of};

verus! {

/// The list window's state.
pub struct List {
    pub store: Store,
    /// People already entered, most frequent first.
    pub names: Vec<String>,
    /// Every tag of the file, most used first, with its count.
    pub tags_all: Vec<(String, usize)>,
    /// The tag picked at the top of the list.
    pub filter: Option<String>,
    /// The effort picked at the top of the list.
    pub effort_filter: Option<Effort>,
    /// The archive shows instead of the active list.
    pub show_done: bool,
    /// The window had the focus on the last frame.
    pub focused: bool,
    /// The unfolded card: in the archive or not, and its index.
    pub open: Option<(bool, usize)>,
    pub settings: Settings,
    /// The settings panel shows.
    pub show_settings: bool,
    /// The shortcut being captured in the settings panel (`HK_ADD` or `HK_LIST`).
    pub capture: Option<usize>,
}

/// The filter as text.
pub open spec fn filter_text(f: Option<String>) -> Option<Seq<char>> {
    match f {
        Some(s) => Some(s@),
        None => None,
    }
}

/// A task shows under the filters: under the tag filter, one of its tags equals it but for
/// ASCII case; under the effort filter, it has that effort.
pub open spec fn kept(t: TaskView, filter: Option<Seq<char>>, effort: Option<Effort>) -> bool {
    &&& match filter {
        Some(f) => has_ci(t.tags, f),
        None => true,
    }
    &&& match effort {
        Some(e) => t.effort == e,
        None => true,
    }
}

/// The indices of the tasks that show under the filters, in order.
pub open spec fn kept_indices(ts: Seq<TaskView>, filter: Option<Seq<char>>, effort: Option<Effort>) -> Seq<int>
    decreases ts.len(),
{
    if ts.len() == 0 {
        Seq::empty()
    } else {
        let r = kept_indices(ts.drop_last(), filter, effort);
        if kept(ts.last(), filter, effort) { r.push(ts.len() - 1) } else { r }
    }
}

/// Two tasks of the list differ in effort: only then does filtering on effort filter
/// anything, and only then are its chips shown.
pub open spec fn mixed_efforts(ts: Seq<TaskView>) -> bool {
    exists|i: int, j: int| 0 <= i < ts.len() && 0 <= j < ts.len() && #[trigger] ts[i].effort != #[trigger] ts[j].effort
}

/// While every task of the list has the same effort, filtering on that effort filters
/// nothing: the effort chips only show once two efforts differ.
pub proof fn lemma_single_effort_filters_nothing(ts: Seq<TaskView>, filter: Option<Seq<char>>, e: Effort)
    requires
        !mixed_efforts(ts),
        ts.len() > 0,
        ts[0].effort == e,
    ensures
        kept_indices(ts, filter, Some(e)) == kept_indices(ts, filter, None),
    decreases ts.len(),
{
    assert(forall|i: int| 0 <= i < ts.len() ==> (#[trigger] ts[i]).effort == ts[0].effort);
    if ts.len() > 1 {
        let init = ts.drop_last();
        assert(init[0] == ts[0]);
        assert forall|a: int, b: int| 0 <= a < init.len() && 0 <= b < init.len() implies !(#[trigger] init[a].effort != #[trigger] init[b].effort) by {
            assert(init[a] == ts[a] && init[b] == ts[b]);
        }
        lemma_single_effort_filters_nothing(init, filter, e);
    } else {
        assert(ts.drop_last().len() == 0);
        assert(kept_indices(ts.drop_last(), filter, Some(e)) == kept_indices(ts.drop_last(), filter, None));
    }
    let l = ts.last();
    assert(l == ts[ts.len() - 1]);
    assert(l.effort == e);
    assert(kept(l, filter, Some(e)) == kept(l, filter, None));
}

/// Whether the effort chips show over the list.
pub fn efforts_differ(ts: &Vec<Task>) -> (r: bool)
    ensures r == mixed_efforts(tasks_view(ts@)),
{
    let ghost tv = tasks_view(ts@);
    if ts.len() == 0 {
        return false;
    }
    let first = ts[0].effort;
    let mut i: usize = 1;
    while i < ts.len()
        invariant
            1 <= i <= ts@.len(),
            tv == tasks_view(ts@),
            first == tv[0].effort,
            forall|k: int| 0 <= k < i ==> (#[trigger] tv[k]).effort == first,
        decreases ts@.len() - i,
    {
        assert(tv[i as int] == ts@[i as int]@);
        if ts[i].effort != first {
            assert(tv[0].effort != tv[i as int].effort);
            return true;
        }
        i += 1;
    }
    assert forall|a: int, b: int| 0 <= a < tv.len() && 0 <= b < tv.len() implies !(#[trigger] tv[a].effort != #[trigger] tv[b].effort) by {}
    false
}

/// The names and tags a list holds for its tasks.
pub open spec fn lists_derived(l: List) -> bool {
    &&& l.names@.map_values(|s: String| s@) == names_spec(l.store)
    &&& l.tags_all@.map_values(|e: (String, usize)| (e.0@, e.1 as nat)) == tags_all_spec(l.store)
}

/// The card `i` of the archive (`archived`) or of the active list, unfolded or folded again.
pub open spec fn toggled_open(open: Option<(bool, usize)>, archived: bool, i: usize) -> Option<(bool, usize)> {
    if open == Some((archived, i)) { None } else { Some((archived, i)) }
}

/// Whether a task of the list shows under the filters.
pub fn keeps(filter: &Option<String>, effort: Option<Effort>, t: &Task) -> (r: bool)
    ensures r == kept(t@, filter_text(*filter), effort),
{
    let by_effort = match effort {
        Some(e) => t.effort == e,
        None => true,
    };
    match filter {
        Some(f) => {
            let r = contains_ci(&t.tags, &chars_of(f.as_str()));
            assert(texts(t.tags@) == t@.tags);
            r && by_effort
        },
        None => by_effort,
    }
}

/// The indices of the tasks that show under the filters.
pub fn kept_positions(ts: &Vec<Task>, filter: &Option<String>, effort: Option<Effort>) -> (r: Vec<usize>)
    ensures r@.map_values(|k: usize| k as int) == kept_indices(tasks_view(ts@), filter_text(*filter), effort),
{
    let ghost tv = tasks_view(ts@);
    let mut r: Vec<usize> = Vec::new();
    let mut i: usize = 0;
    while i < ts.len()
        invariant
            i <= ts@.len(),
            tv == tasks_view(ts@),
            r@.map_values(|k: usize| k as int) == kept_indices(tv.take(i as int), filter_text(*filter), effort),
        decreases ts@.len() - i,
    {
        assert(tv.take(i + 1).drop_last() == tv.take(i as int));
        assert(tv.take(i + 1).last() == ts@[i as int]@);
        let ghost before = r@.map_values(|k: usize| k as int);
        if keeps(filter, effort, &ts[i]) {
            r.push(i);
            assert(r@.map_values(|k: usize| k as int) == before.push(i as int));
        }
        i += 1;
    }
    assert(tv.take(ts@.len() as int) == tv);
    r
}

/// Corrects the archive date of a task from the text typed: only a date that reads reaches
/// the task, in ISO form. True when it did.
pub fn correct_archive_date(t: &mut Task, text: &str, today: Date) -> (r: bool)
    ensures
        r == (parse_date(text@, today) is Some),
        final(t)@ == (match parse_date(text@, today) {
            Some(d) => with_archived(old(t)@, iso_text(d)),
            None => old(t)@,
        }),
{
    match Date::parse(text, today) {
        Some(d) => {
            t.archived = d.iso();
            true
        },
        None => false,
    }
}

impl List {
    /// The window on this file and these settings: the active list sorted, nothing open.
    pub fn new(store: Store, settings: Settings, show_settings: bool) -> (l: List)
        ensures
            tasks_view(l.store.active@) == display_order(tasks_view(store.active@)),
            l.store.done@ == store.done@,
            lists_derived(l),
            l.filter is None,
            l.effort_filter is None,
            !l.show_done,
            !l.focused,
            l.open is None,
            l.settings == settings,
            l.show_settings == show_settings,
            l.capture is None,
    {
        let mut store = store;
        sort_waiting(&mut store.active);
        let names = names(&store);
        let tags_all = tags_all(&store);
        List {
            store,
            names,
            tags_all,
            filter: None,
            effort_filter: None,
            show_done: false,
            focused: false,
            open: None,
            settings,
            show_settings,
            capture: None,
        }
    }

    /// Records whether the window has the focus; true when it has just come back, which
    /// calls for a reload as a safety net.
    pub fn focus_gained(&mut self, focused: bool) -> (r: bool)
        ensures
            r == (focused && !old(self).focused),
            final(self).focused == focused,
            final(self).store == old(self).store,
            final(self).open == old(self).open,
    {
        let r = focused && !self.focused;
        self.focused = focused;
        r
    }

    /// The file changed: its content replaces the lists. The active list is sorted again only
    /// while no card is unfolded, or the unfolded index would point at another task.
    pub fn reload(&mut self, store: Store)
        ensures
            tasks_view(final(self).store.active@) == (if old(self).open is None {
                display_order(tasks_view(store.active@))
            } else {
                tasks_view(store.active@)
            }),
            final(self).store.done@ == store.done@,
            lists_derived(*final(self)),
            final(self).open == old(self).open,
            final(self).filter == old(self).filter,
            final(self).show_done == old(self).show_done,
            final(self).capture == old(self).capture,
    {
        let mut store = store;
        if self.open.is_none() {
            sort_waiting(&mut store.active);
        }
        self.names = names(&store);
        self.tags_all = tags_all(&store);
        self.store = store;
    }

    /// Drops a shortcut capture in progress; the resident then gets its shortcuts back.
    pub fn cancel_capture(&mut self) -> (r: Option<ResidentCommand>)
        ensures
            final(self).capture is None,
            r == (if old(self).capture is Some { Some(ResidentCommand::Reload) } else { None }),
            final(self).settings == old(self).settings,
            final(self).store == old(self).store,
            final(self).open == old(self).open,
            final(self).show_done == old(self).show_done,
            final(self).show_settings == old(self).show_settings,
            final(self).filter == old(self).filter,
    {
        if self.capture.is_some() {
            self.capture = None;
            Some(notify_hotkeys_changed())
        } else {
            None
        }
    }

    /// A key during a capture: Escape cancels it; a valid combination (`label`) becomes the
    /// captured shortcut. Returns whether the settings changed (to be saved) and what to tell
    /// the resident.
    pub fn capture_input(&mut self, escape: bool, label: Option<String>) -> (r: (bool, Option<ResidentCommand>))
        ensures
            old(self).capture is None ==> r == (false, None::<ResidentCommand>) && final(self).capture is None
                && final(self).settings == old(self).settings,
            old(self).capture matches Some(which) ==> {
                if escape {
                    &&& r == (false, Some(ResidentCommand::Reload))
                    &&& final(self).capture is None
                    &&& final(self).settings == old(self).settings
                } else if label is Some {
                    &&& r == (true, Some(ResidentCommand::Reload))
                    &&& final(self).capture is None
                    &&& final(self).settings.toggle_close == old(self).settings.toggle_close
                    &&& (which == HK_ADD ==> final(self).settings.hotkey_add@ == label->0@
                        && final(self).settings.hotkey_list == old(self).settings.hotkey_list)
                    &&& (which != HK_ADD ==> final(self).settings.hotkey_list@ == label->0@
                        && final(self).settings.hotkey_add == old(self).settings.hotkey_add)
                } else {
                    &&& r == (false, None::<ResidentCommand>)
                    &&& final(self).capture == old(self).capture
                    &&& final(self).settings == old(self).settings
                }
            },
            final(self).store == old(self).store,
            final(self).open == old(self).open,
    {
        match self.capture {
            None => (false, None),
            Some(which) => {
                if escape {
                    self.capture = None;
                    (false, Some(notify_hotkeys_changed()))
                } else {
                    match label {
                        Some(l) => {
                            if which == HK_ADD {
                                self.settings.hotkey_add = l;
                            } else {
                                self.settings.hotkey_list = l;
                            }
                            self.capture = None;
                            (true, Some(notify_hotkeys_changed()))
                        },
                        None => (false, None),
                    }
                }
            },
        }
    }

    /// The button of a shortcut in the settings panel: it starts the capture of that shortcut
    /// (the resident suspends its shortcuts meanwhile), or cancels the one under way.
    pub fn capture_button(&mut self, which: usize) -> (r: ResidentCommand)
        ensures
            old(self).capture == Some(which) ==> final(self).capture is None && r == ResidentCommand::Reload,
            old(self).capture != Some(which) ==> final(self).capture == Some(which) && r == ResidentCommand::Suspend,
            final(self).settings == old(self).settings,
            final(self).store == old(self).store,
    {
        if self.capture == Some(which) {
            self.capture = None;
            notify_hotkeys_changed()
        } else {
            self.capture = Some(which);
            suspend_hotkeys()
        }
    }

    /// "Réinitialiser": the default shortcuts and setting come back; the resident registers
    /// them again.
    pub fn reset_settings(&mut self, sys: System) -> (r: ResidentCommand)
        ensures
            r == ResidentCommand::Reload,
            final(self).settings.hotkey_add@ == default_add(sys),
            final(self).settings.hotkey_list@ == default_list(sys),
            final(self).settings.toggle_close,
            final(self).store == old(self).store,
    {
        self.settings = Settings::defaults(sys);
        notify_hotkeys_changed()
    }

    /// The switch between the active list and the archive: it also leaves the settings,
    /// drops a capture and folds the open card.
    pub fn toggle_done(&mut self) -> (r: Option<ResidentCommand>)
        ensures
            final(self).show_done == !old(self).show_done,
            !final(self).show_settings,
            final(self).capture is None,
            final(self).open is None,
            r == (if old(self).capture is Some { Some(ResidentCommand::Reload) } else { None }),
            final(self).store == old(self).store,
            final(self).filter == old(self).filter,
    {
        self.show_done = !self.show_done;
        self.show_settings = false;
        let r = self.cancel_capture();
        self.open = None;
        r
    }

    /// The gear: the settings panel shows or hides; a capture under way is dropped.
    pub fn toggle_settings(&mut self) -> (r: Option<ResidentCommand>)
        ensures
            final(self).show_settings == !old(self).show_settings,
            final(self).capture is None,
            r == (if old(self).capture is Some { Some(ResidentCommand::Reload) } else { None }),
            final(self).show_done == old(self).show_done,
            final(self).store == old(self).store,
            final(self).open == old(self).open,
    {
        self.show_settings = !self.show_settings;
        self.cancel_capture()
    }

    /// A tag pill at the top: it becomes the filter, or stops being it when it already is;
    /// the open card folds.
    pub fn pick_filter(&mut self, tag: &str)
        ensures
            filter_text(final(self).filter) == (match old(self).filter {
                Some(f) => if eq_ascii_ci(f@, tag@) { None } else { Some(tag@) },
                None => Some(tag@),
            }),
            final(self).open is None,
            final(self).store == old(self).store,
    {
        let on = match &self.filter {
            Some(f) => eq_ignore_ascii_case(&chars_of(f.as_str()), &chars_of(tag)),
            None => false,
        };
        self.filter = if on { None } else { Some(tag.to_owned()) };
        self.open = None;
    }

    /// The indices of the cards on show: the archive or the active list, under the filters.
    pub fn shown(&self) -> (r: Vec<usize>)
        ensures
            r@.map_values(|k: usize| k as int) == kept_indices(
                tasks_view(if self.show_done { self.store.done@ } else { self.store.active@ }),
                filter_text(self.filter),
                self.effort_filter,
            ),
    {
        if self.show_done {
            kept_positions(&self.store.done, &self.filter, self.effort_filter)
        } else {
            kept_positions(&self.store.active, &self.filter, self.effort_filter)
        }
    }

    /// A click on a card or its chevron: it unfolds, or folds when it was the open one.
    pub fn toggle_card(&mut self, archived: bool, i: usize)
        ensures
            final(self).open == toggled_open(old(self).open, archived, i),
            final(self).store == old(self).store,
    {
        self.open = if self.open == Some((archived, i)) { None } else { Some((archived, i)) };
    }

    /// The check mark of an active card: the task goes to the top of the archive, dated today.
    pub fn archive_card(&mut self, i: usize, today: Date)
        requires i < old(self).store.active@.len(),
        ensures
            tasks_view(final(self).store.active@) == tasks_view(old(self).store.active@).remove(i as int),
            tasks_view(final(self).store.done@) == seq![with_archived(old(self).store.active@[i as int]@, iso_text(today))]
                + tasks_view(old(self).store.done@),
            final(self).open is None,
    {
        self.store.archive(i, today);
        self.open = None;
    }

    /// The restore button of an archived card: the task joins the active list, undated.
    pub fn restore_card(&mut self, i: usize)
        requires i < old(self).store.done@.len(),
        ensures
            tasks_view(final(self).store.done@) == tasks_view(old(self).store.done@).remove(i as int),
            tasks_view(final(self).store.active@) == display_order(
                tasks_view(old(self).store.active@).push(with_archived(old(self).store.done@[i as int]@, Seq::empty())),
            ),
            final(self).open is None,
    {
        self.store.restore(i);
        self.open = None;
    }

    /// A card dropped before the card at `to` of the active list (or at the end), in the tier
    /// it was dropped in (`tier`; none over the waiting section). No move while a filter is
    /// on: the places on show are not the indices.
    pub fn drop_card(&mut self, from: usize, to: usize, tier: Option<Tier>) -> (moved: bool)
        requires from < old(self).store.active@.len(),
        ensures
            moved == (old(self).filter is None && old(self).effort_filter is None),
            moved ==> tasks_view(final(self).store.active@) == display_order(
                tasks_view(old(self).store.active@.remove(from as int)).insert(
                    landing(from as int, to as int, old(self).store.active@.len() as int),
                    match tier {
                        Some(t) => with_tier(old(self).store.active@[from as int]@, t),
                        None => old(self).store.active@[from as int]@,
                    },
                ),
            ) && final(self).open is None,
            !moved ==> final(self).store == old(self).store && final(self).open == old(self).open,
            final(self).store.done@ == old(self).store.done@,
    {
        if self.filter.is_some() || self.effort_filter.is_some() {
            return false;
        }
        self.store.move_task(from, to, tier);
        self.open = None;
        true
    }

    /// An effort chip at the top: it becomes the effort filter, or stops being it when it
    /// already is; the open card folds.
    pub fn pick_effort(&mut self, e: Effort)
        ensures
            final(self).effort_filter == (if old(self).effort_filter == Some(e) { None } else { Some(e) }),
            final(self).filter == old(self).filter,
            final(self).open is None,
            final(self).store == old(self).store,
    {
        self.effort_filter = if self.effort_filter == Some(e) { None } else { Some(e) };
        self.open = None;
    }

    /// A task moved to "waiting" (or back) changes section once no card is open. True when
    /// the list was sorted again (and has to be saved).
    pub fn settle(&mut self) -> (r: bool)
        ensures
            r == (old(self).open is None && out_of_order(tasks_view(old(self).store.active@))),
            tasks_view(final(self).store.active@) == (if r {
                display_order(tasks_view(old(self).store.active@))
            } else {
                tasks_view(old(self).store.active@)
            }),
            !r ==> final(self).store == old(self).store,
            final(self).store.done@ == old(self).store.done@,
            final(self).open == old(self).open,
    {
        if self.open.is_none() && needs_resort(&self.store.active) {
            sort_waiting(&mut self.store.active);
            true
        } else {
            false
        }
    }

    /// The window's title and the count beside it: the settings (no count), the archive, or
    /// the active list.
    pub fn heading(&self) -> (r: (String, Option<usize>))
        ensures
            self.show_settings ==> r.0@ == "Réglages"@ && r.1 is None,
            !self.show_settings && self.show_done ==> r.0@ == "Archives"@ && r.1 == Some(self.store.done@.len() as usize),
            !self.show_settings && !self.show_done ==> r.0@ == "Prio"@ && r.1 == Some(self.store.active@.len() as usize),
    {
        if self.show_settings {
            ("Réglages".to_owned(), None)
        } else if self.show_done {
            ("Archives".to_owned(), Some(self.store.done.len()))
        } else {
            ("Prio".to_owned(), Some(self.store.active.len()))
        }
    }

    /// The switch in the title bar names the other list and its size.
    pub fn switch_label(&self) -> (r: String)
        ensures
            r@ == (if self.show_done { "En cours  "@ + decimal(self.store.active@.len()) } else {
                "Archives  "@ + decimal(self.store.done@.len())
            }),
    {
        let (word, n) = if self.show_done {
            ("En cours  ", self.store.active.len())
        } else {
            ("Archives  ", self.store.done.len())
        };
        let mut v = chars_of(word);
        push_decimal(&mut v, n as u64);
        string_of(&v)
    }

    /// The reminder of the gestures at the bottom of the window.
    pub fn footer(&self) -> (r: String)
        ensures
            r@ == (if self.show_done { "clic = notes  ·  ↩ remet en cours  ·  Échap ferme"@ } else {
                self.settings.hotkey_add@ + " ajouter  ·  glisser le numéro pour réordonner  ·  clic = notes  ·  Échap ferme"@
            }),
    {
        if self.show_done {
            "clic = notes  ·  ↩ remet en cours  ·  Échap ferme".to_owned()
        } else {
            cat(self.settings.hotkey_add.as_str(), " ajouter  ·  glisser le numéro pour réordonner  ·  clic = notes  ·  Échap ferme")
        }
    }

    /// What the button of a shortcut reads in the settings panel: a prompt while it is being
    /// captured, the shortcut otherwise.
    pub fn capture_text(&self, which: usize) -> (r: String)
        ensures
            r@ == (if self.capture == Some(which) { "Appuie sur la combinaison…   (Échap annule)"@ } else if which
                == HK_ADD { self.settings.hotkey_add@ } else { self.settings.hotkey_list@ }),
    {
        if self.capture == Some(which) {
            "Appuie sur la combinaison…   (Échap annule)".to_owned()
        } else if which == HK_ADD {
            self.settings.hotkey_add.clone()
        } else {
            self.settings.hotkey_list.clone()
        }
    }
}

/// A pill of the filter row: the tag, two spaces, how often it appears.
pub fn filter_pill(tag: &str, n: usize) -> (r: String)
    ensures r@ == tag@ + "  "@ + decimal(n as nat),
{
    let mut v = chars_of(tag);
    v.push(' ');
    v.push(' ');
    push_decimal(&mut v, n as u64);
    proof { reveal_strlit("  "); }
    string_of(&v)
}

} // verus!
