//! What a card of the list shows besides its text: urgency, the right-hand pill, whether it
//! is dimmed; and the Markdown report of the week's archive.
use vstd::prelude::*;
use crate::date::{Date, day_number, fr_text, parse_date, year_plain};
use crate::store::{Task, TaskView, strings_view, tasks_view};
use crate::text::{
    Sep, chars_of, concat, decimal, free_of, has_prefix, push_decimal, same, slice_of, split, starts_with,
    string_of, zero_padded,
};

verus! {

/// The colour of the bar on a card's left edge.
#[derive(Clone, Copy, PartialEq, Eq, Structural, Debug)]
pub enum Urgency {
    /// Archived.
    Done,
    /// Waiting on someone.
    Waiting,
    /// Due today or overdue.
    Overdue,
    /// Due within three days.
    Soon,
    /// Due later.
    Later,
    /// No deadline and untouched for two weeks.
    Stale,
}

/// The colour of the pill's text.
#[derive(Clone, Copy, PartialEq, Eq, Structural, Debug)]
pub enum PillTone {
    Muted,
    Red,
    Amber,
    Accent,
}

/// How a card reads, today.
pub struct CardStatus {
    /// The archive date, for an archived task.
    pub archived: Option<Date>,
    pub deadline: Option<Date>,
    /// Days from today to the deadline, negative when it is past.
    pub days_left: Option<i64>,
    /// An active task that waits on someone.
    pub waiting: bool,
    /// Days since the task was added (0 when the date does not read).
    pub age: i64,
    /// An active task, waiting on nobody, without deadline, added two weeks ago or more.
    pub stale: bool,
    /// Shown in muted colours: archived, waiting or stale.
    pub dimmed: bool,
    pub urgency: Option<Urgency>,
    /// The pill on the right: deadline or staleness.
    pub pill: Option<(String, PillTone)>,
}

/// Days a task may sit without a deadline before it greys out.
pub const STALE_DAYS: i64 = 14;

pub open spec fn archived_of(t: TaskView, today: Date) -> Option<Date> {
    parse_date(t.archived, today)
}

pub open spec fn deadline_of(t: TaskView, today: Date) -> Option<Date> {
    parse_date(t.deadline, today)
}

pub open spec fn days_left_of(t: TaskView, today: Date) -> Option<int> {
    match deadline_of(t, today) {
        Some(d) => Some(day_number(d) - day_number(today)),
        None => None,
    }
}

pub open spec fn waiting_of(t: TaskView, today: Date) -> bool {
    archived_of(t, today) is None && t.waiting.len() > 0
}

pub open spec fn age_of(t: TaskView, today: Date) -> int {
    match parse_date(t.added, today) {
        Some(d) => day_number(today) - day_number(d),
        None => 0,
    }
}

pub open spec fn stale_of(t: TaskView, today: Date) -> bool {
    archived_of(t, today) is None && !waiting_of(t, today) && deadline_of(t, today) is None
        && age_of(t, today) >= STALE_DAYS
}

/// The bar: green when archived, dim when waiting, red when due today or late, amber within
/// three days, blue later, faded amber when stale, none otherwise.
pub open spec fn urgency_of(t: TaskView, today: Date) -> Option<Urgency> {
    if archived_of(t, today) is Some {
        Some(Urgency::Done)
    } else if waiting_of(t, today) {
        Some(Urgency::Waiting)
    } else {
        match days_left_of(t, today) {
            Some(n) => if n <= 0 {
                Some(Urgency::Overdue)
            } else if n <= 3 {
                Some(Urgency::Soon)
            } else {
                Some(Urgency::Later)
            },
            None => if stale_of(t, today) { Some(Urgency::Stale) } else { None },
        }
    }
}

/// "échéance DD/MM/YYYY".
pub open spec fn due_text(d: Date) -> Seq<char> {
    seq!['é', 'c', 'h', 'é', 'a', 'n', 'c', 'e', ' '] + fr_text(d)
}

/// The pill: for a deadline, "échéance" and the date when archived or waiting, "retard N j",
/// "aujourd'hui", "demain" or "J-N" otherwise; for a stale task, how long it has stagnated,
/// in weeks from three weeks on.
pub open spec fn pill_of(t: TaskView, today: Date) -> Option<(Seq<char>, PillTone)> {
    match (deadline_of(t, today), days_left_of(t, today)) {
        (Some(d), Some(n)) => Some(
            if archived_of(t, today) is Some || waiting_of(t, today) {
                (due_text(d), PillTone::Muted)
            } else if n < 0 {
                (seq!['r', 'e', 't', 'a', 'r', 'd', ' '] + decimal((-n) as nat) + seq![' ', 'j', ' ', '·', ' ']
                    + fr_text(d), PillTone::Red)
            } else if n == 0 {
                (seq!['a', 'u', 'j', 'o', 'u', 'r', 'd', '\'', 'h', 'u', 'i'], PillTone::Red)
            } else if n == 1 {
                (seq!['d', 'e', 'm', 'a', 'i', 'n'], PillTone::Amber)
            } else {
                (seq!['J', '-'] + decimal(n as nat) + seq![' ', '·', ' '] + fr_text(d),
                    if n <= 3 { PillTone::Amber } else { PillTone::Accent })
            },
        ),
        _ => if stale_of(t, today) {
            let age = age_of(t, today);
            Some((
                seq!['s', 't', 'a', 'g', 'n', 'e', ' ', 'd', 'e', 'p', 'u', 'i', 's', ' ']
                    + if age >= 21 {
                    decimal((age / 7) as nat) + seq![' ', 's', 'e', 'm', '.']
                } else {
                    decimal(age as nat) + seq![' ', 'j']
                },
                PillTone::Amber,
            ))
        } else {
            None
        },
    }
}

/// The bar and pill of an active task that waits on nobody follow its deadline: red on the
/// deadline and after it ("aujourd'hui" on the day, "retard" after it), amber within the next
/// three days ("demain" the day before), blue further ahead.
pub proof fn lemma_deadline_colours(t: TaskView, today: Date, d: Date)
    requires
        archived_of(t, today) is None,
        t.waiting.len() == 0,
        deadline_of(t, today) == Some(d),
    ensures
        day_number(d) <= day_number(today) <==> urgency_of(t, today) == Some(Urgency::Overdue),
        day_number(today) < day_number(d) <= day_number(today) + 3 <==> urgency_of(t, today) == Some(Urgency::Soon),
        day_number(today) + 3 < day_number(d) <==> urgency_of(t, today) == Some(Urgency::Later),
        day_number(d) < day_number(today) <==> (pill_of(t, today) matches Some((_, c)) && c == PillTone::Red
            && pill_of(t, today) != Some((seq!['a', 'u', 'j', 'o', 'u', 'r', 'd', '\'', 'h', 'u', 'i'], PillTone::Red))),
        day_number(d) == day_number(today) <==> pill_of(t, today) == Some((seq!['a', 'u', 'j', 'o', 'u', 'r', 'd', '\'', 'h', 'u', 'i'], PillTone::Red)),
        day_number(d) == day_number(today) + 1 <==> pill_of(t, today) == Some((seq!['d', 'e', 'm', 'a', 'i', 'n'], PillTone::Amber)),
        pill_of(t, today) matches Some((_, c)) && (c == PillTone::Red <==> day_number(d) <= day_number(today))
            && (c == PillTone::Amber <==> day_number(today) < day_number(d) <= day_number(today) + 3)
            && (c == PillTone::Accent <==> day_number(today) + 3 < day_number(d)),
{
    let n = day_number(d) - day_number(today);
    if n < 0 {
        let p = seq!['r', 'e', 't', 'a', 'r', 'd', ' '] + decimal((-n) as nat) + seq![' ', 'j', ' ', '·', ' '] + fr_text(d);
        assert(p[0] == 'r');
        assert(p != seq!['a', 'u', 'j', 'o', 'u', 'r', 'd', '\'', 'h', 'u', 'i']);
    }
}

fn days_diff(a: Date, b: Date) -> (r: i64)
    ensures r == day_number(b) - day_number(a),
{
    b.days() - a.days()
}

/// Everything a card shows that depends on its dates, for today.
pub fn card_status(t: &Task, today: Date) -> (r: CardStatus)
    ensures
        r.archived == archived_of(t@, today),
        r.deadline == deadline_of(t@, today),
        match (r.days_left, days_left_of(t@, today)) {
            (Some(a), Some(b)) => a == b,
            (None, None) => true,
            _ => false,
        },
        r.waiting == waiting_of(t@, today),
        r.age == age_of(t@, today),
        r.stale == stale_of(t@, today),
        r.dimmed == (archived_of(t@, today) is Some || waiting_of(t@, today) || stale_of(t@, today)),
        r.urgency == urgency_of(t@, today),
        match (r.pill, pill_of(t@, today)) {
            (Some((s, c)), Some((ss, cc))) => s@ == ss && c == cc,
            (None, None) => true,
            _ => false,
        },
{
    let archived = Date::parse(t.archived.as_str(), today);
    let deadline = Date::parse(t.deadline.as_str(), today);
    let days_left: Option<i64> = match deadline {
        Some(d) => Some(days_diff(today, d)),
        None => None,
    };
    let waiting = archived.is_none() && !t.waiting.as_str().is_empty();
    let age: i64 = match Date::parse(t.added.as_str(), today) {
        Some(d) => days_diff(d, today),
        None => 0,
    };
    let stale = archived.is_none() && !waiting && deadline.is_none() && age >= STALE_DAYS;
    let urgency = if archived.is_some() {
        Some(Urgency::Done)
    } else if waiting {
        Some(Urgency::Waiting)
    } else {
        match days_left {
            Some(n) => if n <= 0 {
                Some(Urgency::Overdue)
            } else if n <= 3 {
                Some(Urgency::Soon)
            } else {
                Some(Urgency::Later)
            },
            None => if stale { Some(Urgency::Stale) } else { None },
        }
    };
    let pill: Option<(String, PillTone)> = match (deadline, days_left) {
        (Some(d), Some(n)) => {
            let fr = chars_of(d.fr().as_str());
            if archived.is_some() || waiting {
                Some((string_of(&concat(&['é', 'c', 'h', 'é', 'a', 'n', 'c', 'e', ' '], &fr)), PillTone::Muted))
            } else if n < 0 {
                let mut v: Vec<char> = Vec::new();
                v = concat(&v, &['r', 'e', 't', 'a', 'r', 'd', ' ']);
                push_decimal(&mut v, (-n) as u64);
                v = concat(&v, &[' ', 'j', ' ', '·', ' ']);
                v = concat(&v, &fr);
                Some((string_of(&v), PillTone::Red))
            } else if n == 0 {
                Some((string_of(&['a', 'u', 'j', 'o', 'u', 'r', 'd', '\'', 'h', 'u', 'i']), PillTone::Red))
            } else if n == 1 {
                Some((string_of(&['d', 'e', 'm', 'a', 'i', 'n']), PillTone::Amber))
            } else {
                let mut v: Vec<char> = Vec::new();
                v = concat(&v, &['J', '-']);
                push_decimal(&mut v, n as u64);
                v = concat(&v, &[' ', '·', ' ']);
                v = concat(&v, &fr);
                Some((string_of(&v), if n <= 3 { PillTone::Amber } else { PillTone::Accent }))
            }
        },
        _ => if stale {
            let mut v: Vec<char> = Vec::new();
            v = concat(&v, &['s', 't', 'a', 'g', 'n', 'e', ' ', 'd', 'e', 'p', 'u', 'i', 's', ' ']);
            if age >= 21 {
                push_decimal(&mut v, (age / 7) as u64);
                v = concat(&v, &[' ', 's', 'e', 'm', '.']);
            } else {
                push_decimal(&mut v, age as u64);
                v = concat(&v, &[' ', 'j']);
            }
            Some((string_of(&v), PillTone::Amber))
        } else {
            None
        },
    };
    CardStatus {
        archived,
        deadline,
        days_left,
        waiting,
        age,
        stale,
        dimmed: archived.is_some() || waiting || stale,
        urgency,
        pill,
    }
}

// ---------- links under the notes ----------

/// `s` with every leading copy of `p` removed (`str::trim_start_matches`).
pub open spec fn strip_prefixes(s: Seq<char>, p: Seq<char>) -> Seq<char>
    decreases s.len(),
{
    if p.len() > 0 && starts_with(s, p) { strip_prefixes(s.skip(p.len() as int), p) } else { s }
}

/// How many bytes a character takes in UTF-8 (`char::len_utf8`).
pub open spec fn char_bytes(c: char) -> nat {
    let u = c as u32;
    if u < 0x80 { 1 } else if u < 0x800 { 2 } else if u < 0x10000 { 3 } else { 4 }
}

/// How many bytes the text takes in UTF-8 (`str::len`).
pub open spec fn utf8_len(s: Seq<char>) -> nat
    decreases s.len(),
{
    if s.len() == 0 { 0 } else { utf8_len(s.drop_last()) + char_bytes(s.last()) }
}

/// The shown form of a link: without its scheme, at most 48 characters, and an ellipsis when
/// that dropped more than the scheme's eight bytes.
pub open spec fn link_label_spec(u: Seq<char>) -> Seq<char> {
    let bare = strip_prefixes(strip_prefixes(u, "https://"@), "http://"@);
    let short = if bare.len() > 48 { bare.take(48) } else { bare };
    if utf8_len(short) + 8 < utf8_len(u) { short.push('…') } else { short }
}

fn strip_prefixes_chars(s: &[char], p: &[char]) -> (r: Vec<char>)
    requires p@.len() > 0,
    ensures r@ == strip_prefixes(s@, p@),
{
    let mut i: usize = 0;
    assert(s@.skip(0) == s@);
    while i <= s.len() && s.len() - i >= p.len() && has_prefix(&slice_of(s, i, s.len()), p)
        invariant
            p@.len() > 0,
            i <= s@.len(),
            strip_prefixes(s@, p@) == strip_prefixes(s@.skip(i as int), p@),
        decreases s@.len() - i,
    {
        assert(s@.skip(i as int).skip(p@.len() as int) == s@.skip(i + p@.len()));
        i += p.len();
    }
    proof {
        if s@.len() - i < p@.len() {
            assert(!starts_with(s@.skip(i as int), p@));
        }
    }
    slice_of(s, i, s.len())
}

fn utf8_len_of(s: &[char]) -> (r: u128)
    ensures
        r == utf8_len(s@),
        r <= 4 * s@.len(),
{
    let mut n: u128 = 0;
    let mut i: usize = 0;
    while i < s.len()
        invariant
            i <= s@.len(),
            n == utf8_len(s@.take(i as int)),
            n <= 4 * i,
        decreases s@.len() - i,
    {
        assert(s@.take(i + 1).drop_last() == s@.take(i as int));
        let u = s[i] as u32;
        let b: u128 = if u < 0x80 { 1 } else if u < 0x800 { 2 } else if u < 0x10000 { 3 } else { 4 };
        n = n + b;
        i += 1;
    }
    assert(s@.take(s@.len() as int) == s@);
    n
}

/// The text of a link shown under the notes. The link takes eight bytes at least (the
/// length of "https://" is taken off it).
pub fn link_label(u: &str) -> (r: String)
    requires utf8_len(u@) >= 8,
    ensures r@ == link_label_spec(u@),
{
    proof {
        reveal_strlit("https://");
        reveal_strlit("http://");
    }
    let chars = chars_of(u);
    let a = strip_prefixes_chars(&chars, &chars_of("https://"));
    let bare = strip_prefixes_chars(&a, &chars_of("http://"));
    let short = if bare.len() > 48 { slice_of(&bare, 0, 48) } else { bare };
    let total = utf8_len_of(&chars);
    let mut v = short;
    if utf8_len_of(&v) + 8 < total {
        v.push('…');
    }
    string_of(&v)
}

// ---------- the week's report ----------

/// Archived within the last seven days, today included (an archive date that does not read,
/// or that lies ahead, never is).
pub open spec fn in_week(t: TaskView, today: Date) -> bool {
    match parse_date(t.archived, today) {
        Some(d) => 0 <= day_number(today) - day_number(d) < 7,
        None => false,
    }
}

/// The tasks of the list archived this week, in their order.
pub open spec fn week_tasks(ts: Seq<TaskView>, today: Date) -> Seq<TaskView>
    decreases ts.len(),
{
    if ts.len() == 0 {
        ts
    } else {
        let r = week_tasks(ts.drop_last(), today);
        if in_week(ts.last(), today) { r.push(ts.last()) } else { r }
    }
}

/// A tag with its spaces turned into underscores.
pub open spec fn underscored(t: Seq<char>) -> Seq<char> {
    t.map_values(|c: char| if c == ' ' { '_' } else { c })
}

/// " #tag" for each tag.
pub open spec fn hashtags(tags: Seq<Seq<char>>) -> Seq<char>
    decreases tags.len(),
{
    if tags.len() == 0 {
        Seq::empty()
    } else {
        hashtags(tags.drop_last()) + seq![' ', '#'] + underscored(tags.last())
    }
}

/// One line of the report: a checked box, the title, its tags, who asked, the day it was
/// done.
pub open spec fn report_line(t: TaskView, today: Date) -> Seq<char> {
    seq!['-', ' ', '[', 'x', ']', ' '] + t.title + hashtags(t.tags)
        + (if t.from.len() > 0 { seq![' ', '(', 'd', 'e', ' '] + t.from + seq![')'] } else { Seq::empty() })
        + match parse_date(t.archived, today) {
        Some(d) => seq![' ', '-', ' ', 'f', 'a', 'i', 't', ' ', 'l', 'e', ' '] + fr_text(d),
        None => Seq::empty(),
    }
}

/// The lines, one per line.
pub open spec fn report_lines(ts: Seq<TaskView>, today: Date) -> Seq<char>
    decreases ts.len(),
{
    if ts.len() == 0 {
        Seq::empty()
    } else if ts.len() == 1 {
        report_line(ts[0], today)
    } else {
        report_lines(ts.drop_last(), today) + seq!['\n'] + report_line(ts.last(), today)
    }
}

/// The Markdown checklist that "Copy this week" puts on the clipboard.
pub open spec fn week_report_spec(done: Seq<TaskView>, today: Date) -> Seq<char> {
    report_lines(week_tasks(done, today), today)
}

/// A task whose title, requester and tags hold no line feed.
pub open spec fn single_line_task(t: TaskView) -> bool {
    &&& free_of(Sep::Newline, t.title)
    &&& free_of(Sep::Newline, t.from)
    &&& forall|i: int| 0 <= i < t.tags.len() ==> free_of(Sep::Newline, #[trigger] t.tags[i])
}

proof fn lemma_free_cat(a: Seq<char>, b: Seq<char>)
    requires
        free_of(Sep::Newline, a),
        free_of(Sep::Newline, b),
    ensures
        free_of(Sep::Newline, a + b),
{
    assert forall|i: int| 0 <= i < (a + b).len() implies !crate::text::is_sep(Sep::Newline, #[trigger] (a + b)[i]) by {
        if i < a.len() {
            assert((a + b)[i] == a[i]);
        } else {
            assert((a + b)[i] == b[i - a.len()]);
        }
    }
}

proof fn lemma_digits_one_line(x: Seq<char>)
    requires crate::text::all_digits(x),
    ensures free_of(Sep::Newline, x),
{
    assert forall|i: int| 0 <= i < x.len() implies !crate::text::is_sep(Sep::Newline, #[trigger] x[i]) by {
        assert(crate::text::is_digit(x[i]));
    }
}

proof fn lemma_fr_one_line(d: Date)
    ensures free_of(Sep::Newline, fr_text(d)),
{
    crate::text::lemma_padded_reads_back(d.2 as nat, 2);
    crate::text::lemma_padded_reads_back(d.1 as nat, 2);
    let a = zero_padded(decimal(d.2 as nat), 2);
    let b = zero_padded(decimal(d.1 as nat), 2);
    lemma_digits_one_line(a);
    lemma_digits_one_line(b);
    let y = if d.0 >= 0 { d.0 as int } else { -(d.0 as int) };
    crate::text::lemma_decimal_digits(y as nat);
    lemma_digits_one_line(decimal(y as nat));
    lemma_free_cat(seq!['-'], decimal(y as nat));
    let slash = seq!['/'];
    lemma_free_cat(a, slash);
    lemma_free_cat(a + slash, b);
    lemma_free_cat(a + slash + b, slash);
    lemma_free_cat(a + slash + b + slash, year_plain(d.0 as int));
}

proof fn lemma_hashtags_one_line(tags: Seq<Seq<char>>)
    requires forall|i: int| 0 <= i < tags.len() ==> free_of(Sep::Newline, #[trigger] tags[i]),
    ensures free_of(Sep::Newline, hashtags(tags)),
    decreases tags.len(),
{
    if tags.len() > 0 {
        let init = tags.drop_last();
        assert forall|i: int| 0 <= i < init.len() implies free_of(Sep::Newline, #[trigger] init[i]) by {
            assert(init[i] == tags[i]);
        }
        lemma_hashtags_one_line(init);
        let last = tags.last();
        assert(free_of(Sep::Newline, tags[tags.len() - 1]));
        let u = underscored(last);
        assert forall|i: int| 0 <= i < u.len() implies !crate::text::is_sep(Sep::Newline, #[trigger] u[i]) by {
            assert(!crate::text::is_sep(Sep::Newline, last[i]));
        }
        lemma_free_cat(hashtags(init), seq![' ', '#']);
        lemma_free_cat(hashtags(init) + seq![' ', '#'], u);
    }
}

proof fn lemma_report_line_one_line(t: TaskView, today: Date)
    requires single_line_task(t),
    ensures free_of(Sep::Newline, report_line(t, today)),
{
    let head = seq!['-', ' ', '[', 'x', ']', ' '];
    lemma_hashtags_one_line(t.tags);
    lemma_free_cat(head, t.title);
    lemma_free_cat(head + t.title, hashtags(t.tags));
    let f = if t.from.len() > 0 { seq![' ', '(', 'd', 'e', ' '] + t.from + seq![')'] } else { Seq::empty() };
    if t.from.len() > 0 {
        lemma_free_cat(seq![' ', '(', 'd', 'e', ' '], t.from);
        lemma_free_cat(seq![' ', '(', 'd', 'e', ' '] + t.from, seq![')']);
    }
    lemma_free_cat(head + t.title + hashtags(t.tags), f);
    let g = match parse_date(t.archived, today) {
        Some(d) => seq![' ', '-', ' ', 'f', 'a', 'i', 't', ' ', 'l', 'e', ' '] + fr_text(d),
        None => Seq::empty(),
    };
    match parse_date(t.archived, today) {
        Some(d) => {
            lemma_fr_one_line(d);
            lemma_free_cat(seq![' ', '-', ' ', 'f', 'a', 'i', 't', ' ', 'l', 'e', ' '], fr_text(d));
        },
        None => {},
    }
    lemma_free_cat(head + t.title + hashtags(t.tags) + f, g);
}

proof fn lemma_week_tasks_from(ts: Seq<TaskView>, today: Date)
    ensures
        forall|j: int| 0 <= j < week_tasks(ts, today).len()
            ==> exists|i: int| 0 <= i < ts.len() && #[trigger] week_tasks(ts, today)[j] == ts[i],
    decreases ts.len(),
{
    if ts.len() > 0 {
        let init = ts.drop_last();
        lemma_week_tasks_from(init, today);
        let w = week_tasks(ts, today);
        assert forall|j: int| 0 <= j < w.len() implies exists|i: int| 0 <= i < ts.len() && #[trigger] w[j] == ts[i] by {
            if j < week_tasks(init, today).len() {
                assert(w[j] == week_tasks(init, today)[j]);
                let i = choose|i: int| 0 <= i < init.len() && #[trigger] week_tasks(init, today)[j] == init[i];
                assert(init[i] == ts[i]);
            } else {
                assert(w[j] == ts[ts.len() - 1]);
            }
        }
    }
}

proof fn lemma_report_lines_split(ws: Seq<TaskView>, today: Date)
    requires
        ws.len() > 0,
        forall|i: int| 0 <= i < ws.len() ==> single_line_task(#[trigger] ws[i]),
    ensures
        split(Sep::Newline, report_lines(ws, today)) == ws.map_values(|t: TaskView| report_line(t, today)),
    decreases ws.len(),
{
    let e = Seq::<char>::empty();
    let last = report_line(ws.last(), today);
    assert(single_line_task(ws[ws.len() - 1]));
    lemma_report_line_one_line(ws.last(), today);
    if ws.len() == 1 {
        crate::text::lemma_pieces_free(Sep::Newline, e, last, e);
        assert(last + e == last);
        assert(e + last == last);
        assert(ws.map_values(|t: TaskView| report_line(t, today)) =~= seq![last]);
    } else {
        let init = ws.drop_last();
        assert forall|i: int| 0 <= i < init.len() implies single_line_task(#[trigger] init[i]) by {
            assert(init[i] == ws[i]);
        }
        lemma_report_lines_split(init, today);
        crate::tags::lemma_pieces_push(Sep::Newline, e, report_lines(init, today), '\n', last);
        assert(ws.map_values(|t: TaskView| report_line(t, today))
            =~= init.map_values(|t: TaskView| report_line(t, today)).push(last));
    }
}

/// The tasks of the week's report are those archived within the last seven days, today
/// included: each of them was, and each task of the list that was is among them.
pub proof fn lemma_week_tasks_within(done: Seq<TaskView>, today: Date)
    ensures
        forall|j: int| 0 <= j < week_tasks(done, today).len() ==> ((#[trigger] parse_date(week_tasks(done, today)[j].archived, today)) matches Some(d)
            && 0 <= day_number(today) - day_number(d) <= 6),
        forall|i: int| 0 <= i < done.len() && ((#[trigger] parse_date(done[i].archived, today)) matches Some(d)
            && 0 <= day_number(today) - day_number(d) <= 6) ==> week_tasks(done, today).contains(done[i]),
    decreases done.len(),
{
    if done.len() > 0 {
        let init = done.drop_last();
        lemma_week_tasks_within(init, today);
        let w0 = week_tasks(init, today);
        let w = week_tasks(done, today);
        assert forall|j: int| 0 <= j < w.len() implies ((#[trigger] parse_date(w[j].archived, today)) matches Some(d)
            && 0 <= day_number(today) - day_number(d) <= 6) by {
            if j < w0.len() {
                assert(w[j] == w0[j]);
            }
        }
        assert forall|i: int| 0 <= i < done.len() && ((#[trigger] parse_date(done[i].archived, today)) matches Some(d)
            && 0 <= day_number(today) - day_number(d) <= 6) implies w.contains(done[i]) by {
            if i < init.len() {
                assert(init[i] == done[i]);
                assert(parse_date(init[i].archived, today) == parse_date(done[i].archived, today));
                let k = choose|k: int| 0 <= k < w0.len() && w0[k] == init[i];
                assert(w[k] == w0[k]);
            } else {
                assert(done[i] == done.last());
                assert(w[w.len() - 1] == done.last());
            }
        }
    }
}

/// The week's report holds one line per task archived this week, in the list's order, with
/// a single line feed between two lines: split at its line feeds, it gives those lines back
/// (when no title, requester or tag holds a line feed itself); with no such task it is empty.
pub proof fn lemma_week_report_lines(done: Seq<TaskView>, today: Date)
    requires forall|i: int| 0 <= i < done.len() ==> single_line_task(#[trigger] done[i]),
    ensures
        week_tasks(done, today).len() == 0 ==> week_report_spec(done, today).len() == 0,
        week_tasks(done, today).len() > 0 ==> split(Sep::Newline, week_report_spec(done, today))
            == week_tasks(done, today).map_values(|t: TaskView| report_line(t, today)),
{
    let ws = week_tasks(done, today);
    if ws.len() > 0 {
        lemma_week_tasks_from(done, today);
        assert forall|j: int| 0 <= j < ws.len() implies single_line_task(#[trigger] ws[j]) by {
            let i = choose|i: int| 0 <= i < done.len() && #[trigger] week_tasks(done, today)[j] == done[i];
        }
        lemma_report_lines_split(ws, today);
    }
}

fn in_week_exec(t: &Task, today: Date) -> (r: bool)
    ensures r == in_week(t@, today),
{
    match Date::parse(t.archived.as_str(), today) {
        Some(d) => {
            let n = days_diff(d, today);
            0 <= n && n < 7
        },
        None => false,
    }
}

/// How many archived tasks were done this week (the count on the button).
pub fn week_count(done: &Vec<Task>, today: Date) -> (r: usize)
    ensures r == week_tasks(tasks_view(done@), today).len(),
{
    let ghost tv = tasks_view(done@);
    let mut n: usize = 0;
    let mut i: usize = 0;
    while i < done.len()
        invariant
            i <= done@.len(),
            tv == tasks_view(done@),
            n == week_tasks(tv.take(i as int), today).len(),
            n <= i,
        decreases done@.len() - i,
    {
        assert(done@[i as int]@ == tv[i as int]);
        assert(tv.take(i + 1).drop_last() == tv.take(i as int));
        if in_week_exec(&done[i], today) {
            n += 1;
        }
        i += 1;
    }
    assert(tv.take(done@.len() as int) == tv);
    n
}

fn report_line_exec(t: &Task, today: Date) -> (r: Vec<char>)
    ensures r@ == report_line(t@, today),
{
    let mut v: Vec<char> = Vec::new();
    v = concat(&v, &['-', ' ', '[', 'x', ']', ' ']);
    v = concat(&v, &chars_of(t.title.as_str()));
    let mut j: usize = 0;
    let ghost start = v@;
    while j < t.tags.len()
        invariant
            j <= t.tags@.len(),
            v@ == start + hashtags(t@.tags.take(j as int)),
        decreases t.tags@.len() - j,
    {
        let c = chars_of(t.tags[j].as_str());
        assert(c@ == t@.tags[j as int]);
        let mut u: Vec<char> = Vec::new();
        let mut k: usize = 0;
        while k < c.len()
            invariant
                k <= c@.len(),
                u@ == underscored(c@.take(k as int)),
            decreases c@.len() - k,
        {
            u.push(if c[k] == ' ' { '_' } else { c[k] });
            k += 1;
            assert(underscored(c@.take(k as int)) == underscored(c@.take(k - 1)).push(if c@[k - 1] == ' ' { '_' } else { c@[k - 1] }));
        }
        assert(c@.take(c@.len() as int) == c@);
        v = concat(&v, &[' ', '#']);
        v = concat(&v, &u);
        assert(t@.tags.take(j + 1).drop_last() == t@.tags.take(j as int));
        j += 1;
    }
    assert(t@.tags.take(t.tags@.len() as int) == t@.tags);
    if !t.from.as_str().is_empty() {
        v = concat(&v, &[' ', '(', 'd', 'e', ' ']);
        v = concat(&v, &chars_of(t.from.as_str()));
        v = concat(&v, &[')']);
    }
    match Date::parse(t.archived.as_str(), today) {
        Some(d) => {
            v = concat(&v, &[' ', '-', ' ', 'f', 'a', 'i', 't', ' ', 'l', 'e', ' ']);
            v = concat(&v, &chars_of(d.fr().as_str()));
        },
        None => {},
    }
    v
}

/// The Markdown checklist of what was finished in the last seven days, for a weekly report.
pub fn week_report(done: &Vec<Task>, today: Date) -> (r: String)
    ensures r@ == week_report_spec(tasks_view(done@), today),
{
    let ghost tv = tasks_view(done@);
    let mut v: Vec<char> = Vec::new();
    let mut n: usize = 0;
    let mut i: usize = 0;
    while i < done.len()
        invariant
            i <= done@.len(),
            tv == tasks_view(done@),
            n == week_tasks(tv.take(i as int), today).len(),
            n <= i,
            v@ == report_lines(week_tasks(tv.take(i as int), today), today),
        decreases done@.len() - i,
    {
        assert(done@[i as int]@ == tv[i as int]);
        assert(tv.take(i + 1).drop_last() == tv.take(i as int));
        if in_week_exec(&done[i], today) {
            let line = report_line_exec(&done[i], today);
            let ghost w = week_tasks(tv.take(i as int), today);
            if n > 0 {
                v = concat(&v, &['\n']);
            } else {
                assert(w.push(tv[i as int]) == seq![tv[i as int]]);
            }
            v = concat(&v, &line);
            assert(w.push(tv[i as int]).drop_last() == w);
            n += 1;
        }
        i += 1;
    }
    assert(tv.take(done@.len() as int) == tv);
    string_of(&v)
}

fn same_text(a: &str, b: &str) -> (r: bool)
    ensures r == (a@ == b@),
{
    same(&chars_of(a), &chars_of(b))
}

fn same_texts(a: &Vec<String>, b: &Vec<String>) -> (r: bool)
    ensures r == (strings_view(a@) == strings_view(b@)),
{
    if a.len() != b.len() {
        assert(strings_view(a@).len() != strings_view(b@).len());
        return false;
    }
    let mut i: usize = 0;
    while i < a.len()
        invariant
            i <= a@.len(),
            a@.len() == b@.len(),
            forall|k: int| 0 <= k < i ==> a@[k]@ == b@[k]@,
        decreases a@.len() - i,
    {
        if !same_text(a[i].as_str(), b[i].as_str()) {
            assert(strings_view(a@)[i as int] != strings_view(b@)[i as int]);
            return false;
        }
        i += 1;
    }
    assert(strings_view(a@) =~= strings_view(b@));
    true
}

/// Whether the edits made on an open card changed the task: its notes, its tags, who it
/// waits on or its archive date differ.
pub fn card_changed(before: &Task, after: &Task) -> (r: bool)
    ensures
        r == (before@.notes != after@.notes || before@.tags != after@.tags || before@.waiting
            != after@.waiting || before@.archived != after@.archived),
{
    !same_text(before.notes.as_str(), after.notes.as_str()) || !same_texts(&before.tags, &after.tags)
        || !same_text(before.waiting.as_str(), after.waiting.as_str())
        || !same_text(before.archived.as_str(), after.archived.as_str())
}

} // verus!
