//! The capture window: its fields, when Enter saves, the task it saves, and its inline
//! calendar.
use vstd::prelude::*;
use crate::date::{Date, fr_text, iso_text, parse_date};
use crate::people::{Entry, names, names_spec, tags_all, tags_all_spec};
use crate::store::{Effort, Store, Task, TaskView, Tier, strings_view};
use crate::tags::{parse_tags, parse_tags_spec};
use crate::text::{trim, trimmed};

verus! {

/// What the capture window holds besides its widgets.
pub struct Add {
    pub title: String,
    /// Who asked.
    pub from: String,
    /// The deadline as typed: YYYY-MM-DD, DD/MM/YYYY, DD/MM/YY or DD/MM.
    pub deadline: String,
    pub notes: String,
    /// The tag field: tags separated by commas.
    pub tags: String,
    /// The tier chip picked.
    pub tier: Tier,
    /// The effort chip picked; there always is one.
    pub effort: Effort,
    /// Every tag of the file, most used first, with its count.
    pub tags_all: Vec<(String, usize)>,
    /// The title field has been given the focus once.
    pub focused: bool,
    /// The notes field has the focus: Enter breaks the line there.
    pub notes_focused: bool,
    /// The month the inline calendar shows, when it is open.
    pub cal_view: Option<(i32, u32)>,
    /// Requesters already entered, most frequent first.
    pub names: Vec<String>,
}

/// The deadline field as a date, if it reads as one.
pub open spec fn deadline_date(a: Add, today: Date) -> Option<Date> {
    parse_date(a.deadline@, today)
}

/// Something is typed in the deadline field and it does not read as a date.
pub open spec fn bad_deadline_spec(a: Add, today: Date) -> bool {
    trim(a.deadline@).len() > 0 && deadline_date(a, today) is None
}

/// Enter saves everywhere but in the notes, where the command key has to be held; a title is
/// needed and the deadline, if any, must read.
pub open spec fn submits_spec(a: Add, enter: bool, command: bool, today: Date) -> bool {
    &&& enter
    &&& command || !a.notes_focused
    &&& trim(a.title@).len() > 0
    &&& !bad_deadline_spec(a, today)
}

/// The task the window saves: its fields trimmed, added today, the deadline in ISO form.
pub open spec fn new_task_spec(a: Add, today: Date) -> TaskView {
    TaskView {
        title: trim(a.title@),
        from: trim(a.from@),
        added: iso_text(today),
        deadline: match deadline_date(a, today) {
            Some(d) => iso_text(d),
            None => Seq::empty(),
        },
        archived: Seq::empty(),
        notes: trim(a.notes@),
        waiting: Seq::empty(),
        tags: parse_tags_spec(a.tags@),
        tier: a.tier,
        effort: a.effort,
    }
}

impl Add {
    /// An empty capture window for this file: the names and tags to suggest, the Medium tier
    /// and two hours of effort, and the calendar open on `cal_view` if given.
    pub fn new(store: &Store, cal_view: Option<(i32, u32)>) -> (a: Add)
        ensures
            a.title@.len() == 0,
            a.from@.len() == 0,
            a.deadline@.len() == 0,
            a.notes@.len() == 0,
            a.tags@.len() == 0,
            a.tier == Tier::Medium,
            a.effort == Effort::TwoHours,
            !a.focused,
            !a.notes_focused,
            a.cal_view == cal_view,
            a.names@.map_values(|s: String| s@) == names_spec(*store),
            a.tags_all@.map_values(|e: (String, usize)| (e.0@, e.1 as nat)) == tags_all_spec(*store),
    {
        Add {
            title: String::new(),
            from: String::new(),
            deadline: String::new(),
            notes: String::new(),
            tags: String::new(),
            tier: Tier::Medium,
            effort: Effort::TwoHours,
            tags_all: tags_all(store),
            focused: false,
            notes_focused: false,
            cal_view,
            names: names(store),
        }
    }

    /// The deadline field as a date.
    pub fn deadline(&self, today: Date) -> (r: Option<Date>)
        ensures r == deadline_date(*self, today),
    {
        Date::parse(self.deadline.as_str(), today)
    }

    /// The deadline field is shown in red: something is typed and it does not read as a date.
    pub fn bad_deadline(&self, today: Date) -> (r: bool)
        ensures r == bad_deadline_spec(*self, today),
    {
        let t = trimmed(self.deadline.as_str());
        !t.as_str().is_empty() && self.deadline(today).is_none()
    }

    /// The task this window would save.
    pub fn new_task(&self, today: Date) -> (t: Task)
        ensures t@ == new_task_spec(*self, today),
    {
        let deadline = match self.deadline(today) {
            Some(d) => d.iso(),
            None => String::new(),
        };
        let tags = parse_tags(self.tags.as_str());
        let t = Task {
            title: trimmed(self.title.as_str()),
            from: trimmed(self.from.as_str()),
            added: today.iso(),
            deadline,
            archived: String::new(),
            notes: trimmed(self.notes.as_str()),
            waiting: String::new(),
            tags,
            tier: self.tier,
            effort: self.effort,
        };
        assert(strings_view(t.tags@) == parse_tags_spec(self.tags@));
        t
    }

    /// A key press: the task to add when Enter (with the command key or not) saves, none
    /// otherwise.
    pub fn submit(&self, enter: bool, command: bool, today: Date) -> (r: Option<Task>)
        ensures
            r is Some <==> submits_spec(*self, enter, command, today),
            r matches Some(t) ==> t@ == new_task_spec(*self, today),
    {
        if enter && (command || !self.notes_focused) && !trimmed(self.title.as_str()).as_str().is_empty()
            && !self.bad_deadline(today) {
            Some(self.new_task(today))
        } else {
            None
        }
    }

    /// The calendar button: it closes the calendar, or opens it on the deadline's month, on
    /// today's when there is no deadline.
    pub fn toggle_calendar(&mut self, today: Date)
        ensures
            final(self).cal_view == (if old(self).cal_view is Some {
                None
            } else {
                match deadline_date(*old(self), today) {
                    Some(d) => Some((d.0, d.1)),
                    None => Some((today.0, today.1)),
                }
            }),
            final(self).deadline == old(self).deadline,
            final(self).title == old(self).title,
    {
        if self.cal_view.is_some() {
            self.cal_view = None;
        } else {
            let d = match self.deadline(today) {
                Some(d) => d,
                None => today,
            };
            self.cal_view = Some((d.0, d.1));
        }
    }

    /// A day picked in the calendar: it fills the deadline (DD/MM/YYYY) and closes the
    /// calendar.
    pub fn pick_date(&mut self, d: Date)
        ensures
            final(self).deadline@ == fr_text(d),
            final(self).cal_view is None,
            final(self).title == old(self).title,
    {
        self.deadline = d.fr();
        self.cal_view = None;
    }
}

} // verus!
