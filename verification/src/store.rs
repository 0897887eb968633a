//! The task list: what a task holds, the two lists of the file, and the operations the list
//! window applies to them.
use vstd::prelude::*;
use vstd::multiset::Multiset;
use crate::date::{Date, iso_text};
use crate::text::{
    Sep, chars_of, has_prefix, is_sep, lines_of, lines_spec, pieces, split, split_chars,
    split_limited, splitn, starts_with, string_of, trim, trim_chars,
};

verus! {

/// How pressing a task is, chosen at capture: the list is cut in these three, High first.
#[derive(Clone, Copy, PartialEq, Eq, Structural, Debug)]
pub enum Tier {
    /// Haute.
    High,
    /// Moyenne, the default.
    Medium,
    /// Basse.
    Low,
}

/// How long a task takes.
#[derive(Clone, Copy, PartialEq, Eq, Structural, Debug)]
pub enum Effort {
    /// 30 min.
    HalfHour,
    /// 2 h, the default.
    TwoHours,
    /// 1 jour.
    Day,
}

/// One priority.
#[derive(Clone, Debug)]
pub struct Task {
    pub title: String,
    /// Who asked.
    pub from: String,
    /// YYYY-MM-DD.
    pub added: String,
    /// YYYY-MM-DD, or empty.
    pub deadline: String,
    /// YYYY-MM-DD when archived, empty while the task is active.
    pub archived: String,
    pub notes: String,
    /// Who the task waits on; empty when it waits on nobody.
    pub waiting: String,
    pub tags: Vec<String>,
    pub tier: Tier,
    pub effort: Effort,
}

/// A task as text.
pub struct TaskView {
    pub title: Seq<char>,
    pub from: Seq<char>,
    pub added: Seq<char>,
    pub deadline: Seq<char>,
    pub archived: Seq<char>,
    pub notes: Seq<char>,
    pub waiting: Seq<char>,
    pub tags: Seq<Seq<char>>,
    pub tier: Tier,
    pub effort: Effort,
}

/// The text of each string.
pub open spec fn strings_view(v: Seq<String>) -> Seq<Seq<char>> {
    v.map_values(|s: String| s@)
}

impl View for Task {
    type V = TaskView;

    open spec fn view(&self) -> TaskView {
        TaskView {
            title: self.title@,
            from: self.from@,
            added: self.added@,
            deadline: self.deadline@,
            archived: self.archived@,
            notes: self.notes@,
            waiting: self.waiting@,
            tags: strings_view(self.tags@),
            tier: self.tier,
            effort: self.effort,
        }
    }
}

/// Every task of a list as text.
pub open spec fn tasks_view(v: Seq<Task>) -> Seq<TaskView> {
    v.map_values(|t: Task| t@)
}

/// The empty task: every text empty, the default tier and effort.
pub open spec fn empty_task() -> TaskView {
    TaskView {
        title: Seq::empty(),
        from: Seq::empty(),
        added: Seq::empty(),
        deadline: Seq::empty(),
        archived: Seq::empty(),
        notes: Seq::empty(),
        waiting: Seq::empty(),
        tags: Seq::empty(),
        tier: Tier::Medium,
        effort: Effort::TwoHours,
    }
}

impl Default for Task {
    fn default() -> (t: Task)
        ensures t@ == empty_task(),
    {
        let t = Task {
            title: String::new(),
            from: String::new(),
            added: String::new(),
            deadline: String::new(),
            archived: String::new(),
            notes: String::new(),
            waiting: String::new(),
            tags: Vec::new(),
            tier: Tier::Medium,
            effort: Effort::TwoHours,
        };
        assert(strings_view(t.tags@) == Seq::<Seq<char>>::empty());
        t
    }
}

/// A copy of the strings.
pub fn copy_strings(v: &Vec<String>) -> (r: Vec<String>)
    ensures strings_view(r@) == strings_view(v@),
{
    let mut r: Vec<String> = Vec::new();
    let mut i: usize = 0;
    while i < v.len()
        invariant
            i <= v@.len(),
            strings_view(r@) == strings_view(v@.take(i as int)),
        decreases v@.len() - i,
    {
        r.push(v[i].clone());
        i += 1;
        assert(v@.take(i as int) == v@.take(i - 1).push(v@[i - 1]));
        assert(strings_view(v@.take(i as int)) == strings_view(v@.take(i - 1)).push(v@[i - 1]@));
    }
    assert(v@.take(v@.len() as int) == v@);
    r
}

impl Task {
    /// A copy of the task.
    pub fn copy(&self) -> (r: Task)
        ensures r@ == self@,
    {
        Task {
            title: self.title.clone(),
            from: self.from.clone(),
            added: self.added.clone(),
            deadline: self.deadline.clone(),
            archived: self.archived.clone(),
            notes: self.notes.clone(),
            waiting: self.waiting.clone(),
            tags: copy_strings(&self.tags),
            tier: self.tier,
            effort: self.effort,
        }
    }
}

/// Both lists of the task file: what is under way, then the archive, most recent first.
#[derive(Debug)]
pub struct Store {
    pub active: Vec<Task>,
    pub done: Vec<Task>,
}

impl Default for Store {
    fn default() -> (s: Store)
        ensures s.active@.len() == 0, s.done@.len() == 0,
    {
        Store { active: Vec::new(), done: Vec::new() }
    }
}

// ---------- display order ----------

/// A task that waits on someone.
pub open spec fn is_waiting(t: TaskView) -> bool {
    t.waiting.len() > 0
}

/// The place of a tier in the list, from the top.
pub open spec fn tier_rank(t: Tier) -> int {
    match t {
        Tier::High => 0,
        Tier::Medium => 1,
        Tier::Low => 2,
    }
}

/// The section a task shows in: its tier's (0 to 2), or the dimmed one at the bottom (3)
/// while it waits on someone.
pub open spec fn section(t: TaskView) -> int {
    if is_waiting(t) { 3 } else { tier_rank(t.tier) }
}

/// The tasks of `s` in section `k`, in their order.
pub open spec fn in_section(s: Seq<TaskView>, k: int) -> Seq<TaskView>
    decreases s.len(),
{
    if s.len() == 0 {
        s
    } else {
        let r = in_section(s.drop_last(), k);
        if section(s.last()) == k { r.push(s.last()) } else { r }
    }
}

/// Display order: the High tier, then Medium, then Low, then the tasks that wait on someone,
/// each section in its order (a stable sort on the section).
pub open spec fn display_order(s: Seq<TaskView>) -> Seq<TaskView> {
    in_section(s, 0) + in_section(s, 1) + in_section(s, 2) + in_section(s, 3)
}

/// The section a task shows in (see `section`).
pub fn section_of(t: &Task) -> (r: usize)
    ensures r == section(t@),
{
    if !t.waiting.as_str().is_empty() {
        3
    } else {
        match t.tier {
            Tier::High => 0,
            Tier::Medium => 1,
            Tier::Low => 2,
        }
    }
}

/// Puts the list in display order: the three tiers, then the tasks that wait on someone,
/// keeping the order inside each section.
pub fn sort_waiting(items: &mut Vec<Task>)
    ensures
        tasks_view(final(items)@) == display_order(tasks_view(old(items)@)),
{
    let mut s0: Vec<Task> = Vec::new();
    let mut s1: Vec<Task> = Vec::new();
    let mut s2: Vec<Task> = Vec::new();
    let mut s3: Vec<Task> = Vec::new();
    let ghost orig = tasks_view(items@);
    let n = items.len();
    let mut i: usize = 0;
    while i < n
        invariant
            n == orig.len(),
            i <= n,
            items@.len() == n - i,
            tasks_view(items@) == orig.skip(i as int),
            tasks_view(s0@) == in_section(orig.take(i as int), 0),
            tasks_view(s1@) == in_section(orig.take(i as int), 1),
            tasks_view(s2@) == in_section(orig.take(i as int), 2),
            tasks_view(s3@) == in_section(orig.take(i as int), 3),
        decreases n - i,
    {
        let ghost before = items@;
        assert(tasks_view(before)[0] == before[0]@);
        assert(orig.skip(i as int)[0] == orig[i as int]);
        let t = items.remove(0);
        proof {
            assert(t@ == orig[i as int]);
            assert(tasks_view(items@) == tasks_view(before).drop_first());
            assert(orig.skip(i as int).drop_first() == orig.skip(i + 1));
            assert(tasks_view(items@) == orig.skip(i + 1));
            assert(orig.take(i + 1).drop_last() == orig.take(i as int));
            assert(orig.take(i + 1).last() == orig[i as int]);
        }
        let k = section_of(&t);
        if k == 0 {
            s0.push(t);
        } else if k == 1 {
            s1.push(t);
        } else if k == 2 {
            s2.push(t);
        } else {
            s3.push(t);
        }
        proof {
            assert(tasks_view(s0@) == in_section(orig.take(i + 1), 0));
            assert(tasks_view(s1@) == in_section(orig.take(i + 1), 1));
            assert(tasks_view(s2@) == in_section(orig.take(i + 1), 2));
            assert(tasks_view(s3@) == in_section(orig.take(i + 1), 3));
        }
        i += 1;
    }
    assert(orig.take(n as int) == orig);
    let ghost v0 = tasks_view(s0@);
    let ghost v1 = tasks_view(s1@);
    let ghost v2 = tasks_view(s2@);
    let ghost v3 = tasks_view(s3@);
    s0.append(&mut s1);
    s0.append(&mut s2);
    s0.append(&mut s3);
    assert(tasks_view(s0@) == v0 + v1 + v2 + v3);
    *items = s0;
}

/// Some task sits right above one of an earlier section (a task was just marked as waiting,
/// or freed).
pub open spec fn out_of_order(s: Seq<TaskView>) -> bool {
    exists|i: int| 0 <= i < s.len() - 1 && section(#[trigger] s[i]) > section(s[i + 1])
}

/// Whether the list needs `sort_waiting` again.
pub fn needs_resort(items: &Vec<Task>) -> (r: bool)
    ensures r == out_of_order(tasks_view(items@)),
{
    let ghost s = tasks_view(items@);
    let mut i: usize = 1;
    while i < items.len()
        invariant
            s == tasks_view(items@),
            1 <= i,
            forall|k: int| 0 <= k < i - 1 && k < s.len() - 1 ==> !(section(#[trigger] s[k]) > section(s[k + 1])),
        decreases items@.len() - i,
    {
        if section_of(&items[i - 1]) > section_of(&items[i]) {
            assert(section(s[i - 1]) > section(s[i as int]));
            return true;
        }
        i += 1;
    }
    false
}

proof fn lemma_in_section_append(a: Seq<TaskView>, b: Seq<TaskView>, k: int)
    ensures in_section(a + b, k) == in_section(a, k) + in_section(b, k),
    decreases b.len(),
{
    if b.len() == 0 {
        assert(a + b == a);
        assert(in_section(a, k) + in_section(b, k) == in_section(a, k));
    } else {
        lemma_in_section_append(a, b.drop_last(), k);
        assert((a + b).drop_last() == a + b.drop_last());
        assert((a + b).last() == b.last());
    }
}

proof fn lemma_in_section_kind(s: Seq<TaskView>, k: int)
    ensures
        forall|i: int| 0 <= i < in_section(s, k).len() ==> section(#[trigger] in_section(s, k)[i]) == k,
        in_section(in_section(s, k), k) == in_section(s, k),
        forall|j: int| j != k ==> #[trigger] in_section(in_section(s, k), j) == Seq::<TaskView>::empty(),
    decreases s.len(),
{
    if s.len() > 0 {
        let init = s.drop_last();
        let x = s.last();
        lemma_in_section_kind(init, k);
        let r = in_section(init, k);
        if section(x) == k {
            assert(in_section(s, k) == r.push(x));
            assert(r.push(x).drop_last() == r);
            assert forall|i: int| 0 <= i < r.push(x).len() implies section(#[trigger] r.push(x)[i]) == k by {
                if i < r.len() {
                    assert(r.push(x)[i] == r[i]);
                }
            }
            assert forall|j: int| j != k implies #[trigger] in_section(in_section(s, k), j) == Seq::<TaskView>::empty() by {
                assert(in_section(r.push(x), j) == in_section(r, j));
            }
        }
    }
}

proof fn lemma_sections_multiset(s: Seq<TaskView>)
    ensures
        in_section(s, 0).to_multiset().add(in_section(s, 1).to_multiset()).add(in_section(s, 2).to_multiset()).add(
            in_section(s, 3).to_multiset(),
        ) == s.to_multiset(),
    decreases s.len(),
{
    broadcast use vstd::seq_lib::to_multiset_build;
    broadcast use vstd::multiset::group_multiset_axioms;
    if s.len() == 0 {
        s.to_multiset_ensures();
        vstd::multiset::lemma_multiset_empty_len(s.to_multiset());
        assert(s.to_multiset() =~= Multiset::<TaskView>::empty());
    } else {
        let init = s.drop_last();
        let x = s.last();
        lemma_sections_multiset(init);
        assert(s == init.push(x));
        let m0 = in_section(init, 0).to_multiset();
        let m1 = in_section(init, 1).to_multiset();
        let m2 = in_section(init, 2).to_multiset();
        let m3 = in_section(init, 3).to_multiset();
        assert(0 <= section(x) <= 3);
        if section(x) == 0 {
            assert(in_section(s, 0) == in_section(init, 0).push(x));
            assert(m0.insert(x).add(m1).add(m2).add(m3) =~= m0.add(m1).add(m2).add(m3).insert(x));
        } else if section(x) == 1 {
            assert(in_section(s, 1) == in_section(init, 1).push(x));
            assert(m0.add(m1.insert(x)).add(m2).add(m3) =~= m0.add(m1).add(m2).add(m3).insert(x));
        } else if section(x) == 2 {
            assert(in_section(s, 2) == in_section(init, 2).push(x));
            assert(m0.add(m1).add(m2.insert(x)).add(m3) =~= m0.add(m1).add(m2).add(m3).insert(x));
        } else {
            assert(in_section(s, 3) == in_section(init, 3).push(x));
            assert(m0.add(m1).add(m2).add(m3.insert(x)) =~= m0.add(m1).add(m2).add(m3).insert(x));
        }
    }
}

/// The display order is settled: sorting again changes nothing, sections come in order down
/// the list (the tiers, then the tasks that wait), and the tasks are the same ones, each as
/// often.
pub proof fn lemma_display_order_settled(s: Seq<TaskView>)
    ensures
        display_order(display_order(s)) == display_order(s),
        forall|i: int, j: int| 0 <= i <= j < display_order(s).len()
            ==> section(#[trigger] display_order(s)[i]) <= section(#[trigger] display_order(s)[j]),
        !out_of_order(display_order(s)),
        display_order(s).to_multiset() == s.to_multiset(),
{
    let a0 = in_section(s, 0);
    let a1 = in_section(s, 1);
    let a2 = in_section(s, 2);
    let a3 = in_section(s, 3);
    lemma_in_section_kind(s, 0);
    lemma_in_section_kind(s, 1);
    lemma_in_section_kind(s, 2);
    lemma_in_section_kind(s, 3);
    let d = display_order(s);
    assert(d == a0 + a1 + a2 + a3);
    assert forall|k: int| 0 <= k <= 3 implies #[trigger] in_section(d, k) == in_section(s, k) by {
        lemma_in_section_append(a0 + a1 + a2, a3, k);
        lemma_in_section_append(a0 + a1, a2, k);
        lemma_in_section_append(a0, a1, k);
        let e = Seq::<TaskView>::empty();
        if k == 0 {
            assert(in_section(a1, 0) == e && in_section(a2, 0) == e && in_section(a3, 0) == e);
        } else if k == 1 {
            assert(in_section(a0, 1) == e && in_section(a2, 1) == e && in_section(a3, 1) == e);
        } else if k == 2 {
            assert(in_section(a0, 2) == e && in_section(a1, 2) == e && in_section(a3, 2) == e);
        } else {
            assert(in_section(a0, 3) == e && in_section(a1, 3) == e && in_section(a2, 3) == e);
        }
        assert(e + in_section(s, k) == in_section(s, k));
        assert(in_section(s, k) + e == in_section(s, k));
    }
    assert(in_section(d, 0) == a0 && in_section(d, 1) == a1 && in_section(d, 2) == a2 && in_section(d, 3) == a3);
    let l0 = a0.len() as int;
    let l1 = l0 + a1.len();
    let l2 = l1 + a2.len();
    assert forall|i: int| 0 <= i < d.len() implies #[trigger] section(d[i]) == (if i < l0 { 0int } else if i < l1 {
        1int
    } else if i < l2 {
        2int
    } else {
        3int
    }) by {
        if i < l0 {
            assert(d[i] == a0[i]);
        } else if i < l1 {
            assert(d[i] == a1[i - l0]);
        } else if i < l2 {
            assert(d[i] == a2[i - l1]);
        } else {
            assert(d[i] == a3[i - l2]);
        }
    }
    assert forall|i: int| 0 <= i < d.len() - 1 implies !(section(#[trigger] d[i]) > section(d[i + 1])) by {
        assert(section(d[i + 1]) == section(d[i + 1]));
    }
    lemma_sections_multiset(s);
    vstd::seq_lib::lemma_multiset_commutative(a0, a1);
    vstd::seq_lib::lemma_multiset_commutative(a0 + a1, a2);
    vstd::seq_lib::lemma_multiset_commutative(a0 + a1 + a2, a3);
}

/// Archiving a task and restoring it at once gives the archive back as it was and the task
/// back in the active list, undated, at the end of its section.
pub proof fn lemma_archive_then_restore(active: Seq<TaskView>, done: Seq<TaskView>, i: int, day: Seq<char>)
    requires
        0 <= i < active.len(),
        active[i].archived.len() == 0,
    ensures ({
        let active1 = active.remove(i);
        let done1 = seq![with_archived(active[i], day)] + done;
        let active2 = display_order(active1.push(with_archived(done1[0], Seq::empty())));
        &&& done1.remove(0) == done
        &&& active2 == display_order(active.remove(i).push(active[i]))
        &&& active2.to_multiset() == active.to_multiset()
    }),
{
    broadcast use vstd::seq_lib::to_multiset_build;
    broadcast use vstd::seq_lib::to_multiset_remove;
    broadcast use vstd::multiset::group_multiset_axioms;
    let t = active[i];
    let done1 = seq![with_archived(t, day)] + done;
    assert(done1[0] == with_archived(t, day));
    assert(done1.remove(0) == done);
    assert(t.archived =~= Seq::<char>::empty());
    assert(with_archived(with_archived(t, day), Seq::empty()) == t);
    let back = active.remove(i).push(t);
    lemma_display_order_settled(back);
    assert(back.to_multiset() == active.remove(i).to_multiset().insert(t));
    assert(active.remove(i).to_multiset() == active.to_multiset().remove(t));
    assert(active.to_multiset().count(t) > 0) by {
        assert(active.contains(t));
        vstd::seq_lib::to_multiset_contains(active, t);
    }
    assert(active.to_multiset().remove(t).insert(t) =~= active.to_multiset());
}

// ---------- moves ----------

/// Where a moved item lands: before the item that was at `to`, which is one place higher
/// once the item has left a place above it; at most at the end.
pub open spec fn landing(from: int, to: int, len: int) -> int {
    let p = if to > from { to - 1 } else { to };
    if p < len - 1 { p } else { len - 1 }
}

/// Moves the item at `from` so that it lands before the item that was at `to` (`to` may be
/// the length: the end).
pub fn reorder<T>(items: &mut Vec<T>, from: usize, to: usize)
    requires
        from < old(items)@.len(),
    ensures
        final(items)@ == old(items)@.remove(from as int).insert(
            landing(from as int, to as int, old(items)@.len() as int),
            old(items)@[from as int],
        ),
{
    let it = items.remove(from);
    let to = if to > from { to - 1 } else { to };
    let at = if to < items.len() { to } else { items.len() };
    items.insert(at, it);
}

/// Where a dragged item lands: the item dropped on `to` (another item of the list) comes
/// right after it, and the others keep their order; dropped past the last item, it comes
/// last; dropped on itself or just below itself, nothing moves.
pub proof fn lemma_reorder_lands_before<T>(s: Seq<T>, from: int, to: int)
    requires
        0 <= from < s.len(),
        0 <= to,
    ensures ({
        let r = s.remove(from).insert(landing(from, to, s.len() as int), s[from]);
        &&& r.len() == s.len()
        &&& to < s.len() && to != from ==> exists|j: int| 0 <= j < r.len() - 1 && #[trigger] r[j] == s[from] && r[j + 1] == s[to]
        &&& to >= s.len() ==> r.last() == s[from] && r.drop_last() == s.remove(from)
        &&& (to == from || to == from + 1) ==> r == s
    }),
{
    let n = s.len() as int;
    let j = landing(from, to, n);
    let rest = s.remove(from);
    let r = rest.insert(j, s[from]);
    assert(0 <= j < n);
    if to < n && to != from {
        assert(r[j] == s[from]);
        if to > from {
            assert(j == to - 1);
            assert(r[j + 1] == rest[j]);
            assert(rest[to - 1] == s[to]);
        } else {
            assert(j == to);
            assert(r[j + 1] == rest[j]);
            assert(rest[to] == s[to]);
        }
        assert(0 <= j < r.len() - 1 && r[j] == s[from] && r[j + 1] == s[to]);
    }
    if to >= n {
        assert(j == n - 1);
        assert(r.drop_last() =~= rest);
    }
    if to == from || to == from + 1 {
        assert(j == from);
        assert(r =~= s);
    }
}

/// A card dropped where it already stands, in a list in display order and without a change
/// of tier, leaves the list as it was.
pub proof fn lemma_drop_in_place(active: Seq<TaskView>, from: int, to: int)
    requires
        0 <= from < active.len(),
        to == from || to == from + 1,
        display_order(active) == active,
    ensures
        display_order(active.remove(from).insert(landing(from, to, active.len() as int), active[from])) == active,
{
    lemma_reorder_lands_before(active, from, to);
}

// ---------- archive ----------

/// The task with another archive date.
pub open spec fn with_archived(t: TaskView, a: Seq<char>) -> TaskView {
    TaskView {
        title: t.title,
        from: t.from,
        added: t.added,
        deadline: t.deadline,
        archived: a,
        notes: t.notes,
        waiting: t.waiting,
        tags: t.tags,
        tier: t.tier,
        effort: t.effort,
    }
}

impl Store {
    /// The check mark: the task leaves the active list and goes to the top of the archive,
    /// dated today.
    pub fn archive(&mut self, i: usize, today: Date)
        requires i < old(self).active@.len(),
        ensures
            tasks_view(final(self).active@) == tasks_view(old(self).active@).remove(i as int),
            tasks_view(final(self).done@) == seq![with_archived(old(self).active@[i as int]@, iso_text(today))]
                + tasks_view(old(self).done@),
    {
        let ghost a0 = self.active@;
        let ghost d0 = self.done@;
        let mut t = self.active.remove(i);
        t.archived = today.iso();
        self.done.insert(0, t);
        assert(tasks_view(self.active@) == tasks_view(a0).remove(i as int));
        assert(tasks_view(self.done@) == seq![t@] + tasks_view(d0));
    }

    /// Restore: the task leaves the archive for the active list, undated, and the list is
    /// sorted again so that it joins its section.
    pub fn restore(&mut self, i: usize)
        requires i < old(self).done@.len(),
        ensures
            tasks_view(final(self).done@) == tasks_view(old(self).done@).remove(i as int),
            tasks_view(final(self).active@) == display_order(
                tasks_view(old(self).active@).push(with_archived(old(self).done@[i as int]@, Seq::empty())),
            ),
    {
        let ghost a0 = self.active@;
        let ghost d0 = self.done@;
        let mut t = self.done.remove(i);
        t.archived = String::new();
        self.active.push(t);
        assert(tasks_view(self.active@) == tasks_view(a0).push(t@));
        assert(tasks_view(self.done@) == tasks_view(d0).remove(i as int));
        sort_waiting(&mut self.active);
    }

    /// A drag and drop in the active list: the task at `from` lands before the one at `to`,
    /// moves to the tier it was dropped in (`tier`; none over the waiting section), then the
    /// list is put back in display order (a drag into the waiting section is undone that way).
    pub fn move_task(&mut self, from: usize, to: usize, tier: Option<Tier>)
        requires from < old(self).active@.len(),
        ensures
            tasks_view(final(self).active@) == display_order(tasks_view(old(self).active@.remove(from as int)).insert(
                landing(from as int, to as int, old(self).active@.len() as int),
                match tier {
                    Some(t) => with_tier(old(self).active@[from as int]@, t),
                    None => old(self).active@[from as int]@,
                },
            )),
            final(self).done@ == old(self).done@,
    {
        let ghost a0 = self.active@;
        let mut t = self.active.remove(from);
        if let Some(k) = tier {
            t.tier = k;
        }
        let to = if to > from { to - 1 } else { to };
        let at = if to < self.active.len() { to } else { self.active.len() };
        let ghost moved = t@;
        self.active.insert(at, t);
        assert(tasks_view(self.active@) == tasks_view(a0.remove(from as int)).insert(at as int, moved));
        sort_waiting(&mut self.active);
    }
}

/// The task in another tier.
pub open spec fn with_tier(t: TaskView, k: Tier) -> TaskView {
    TaskView {
        title: t.title,
        from: t.from,
        added: t.added,
        deadline: t.deadline,
        archived: t.archived,
        notes: t.notes,
        waiting: t.waiting,
        tags: t.tags,
        tier: k,
        effort: t.effort,
    }
}

// ---------- the old list format ----------

/// Field `i` of a line, empty when the line has fewer fields.
pub open spec fn field_or_empty(f: Seq<Seq<char>>, i: int) -> Seq<char> {
    if i < f.len() { f[i] } else { Seq::empty() }
}

/// The task of one line of the old tab-separated files: archived, added, deadline, from,
/// title, the last field taking the rest of the line.
pub open spec fn tsv_task(line: Seq<char>) -> TaskView {
    let f = splitn(Sep::Tab, 5, line);
    TaskView {
        title: field_or_empty(f, 4),
        from: field_or_empty(f, 3),
        added: field_or_empty(f, 1),
        deadline: field_or_empty(f, 2),
        archived: field_or_empty(f, 0),
        notes: Seq::empty(),
        waiting: Seq::empty(),
        tags: Seq::empty(),
        tier: Tier::Medium,
        effort: Effort::TwoHours,
    }
}

/// The non-blank lines.
pub open spec fn filled_lines(ls: Seq<Seq<char>>) -> Seq<Seq<char>>
    decreases ls.len(),
{
    if ls.len() == 0 {
        ls
    } else {
        let r = filled_lines(ls.drop_last());
        if trim(ls.last()).len() > 0 { r.push(ls.last()) } else { r }
    }
}

/// The tasks of a file in the old format, one per non-blank line.
pub open spec fn tsv_tasks(text: Seq<char>) -> Seq<TaskView> {
    filled_lines(lines_spec(text)).map_values(|l: Seq<char>| tsv_task(l))
}

fn string_field(f: &Vec<Vec<char>>, i: usize) -> (r: String)
    ensures r@ == field_or_empty(f@.map_values(|p: Vec<char>| p@), i as int),
{
    if i < f.len() { string_of(&f[i]) } else { String::new() }
}

/// Reads the old tab-separated format (archived, added, deadline, from, title), which the
/// JSON file replaced.
pub fn parse_tsv(text: &str) -> (r: Vec<Task>)
    ensures tasks_view(r@) == tsv_tasks(text@),
{
    let chars = chars_of(text);
    let ls = lines_of(&chars);
    let ghost lv = ls@.map_values(|p: Vec<char>| p@);
    let mut out: Vec<Task> = Vec::new();
    let mut i: usize = 0;
    while i < ls.len()
        invariant
            i <= ls@.len(),
            lv == ls@.map_values(|p: Vec<char>| p@),
            lv == lines_spec(text@),
            tasks_view(out@) == filled_lines(lv.take(i as int)).map_values(|l: Seq<char>| tsv_task(l)),
        decreases ls@.len() - i,
    {
        let line = &ls[i];
        assert(line@ == lv[i as int]);
        assert(lv.take(i + 1).drop_last() == lv.take(i as int));
        let t = trim_chars(line);
        if t.len() > 0 {
            let f = split_limited(Sep::Tab, 4, line);
            let task = Task {
                title: string_field(&f, 4),
                from: string_field(&f, 3),
                added: string_field(&f, 1),
                deadline: string_field(&f, 2),
                archived: string_field(&f, 0),
                notes: String::new(),
                waiting: String::new(),
                tags: Vec::new(),
                tier: Tier::Medium,
                effort: Effort::TwoHours,
            };
            assert(strings_view(task.tags@) == Seq::<Seq<char>>::empty());
            let ghost before = tasks_view(out@);
            out.push(task);
            assert(tasks_view(out@) == before.push(task@));
            assert(task@ == tsv_task(line@));
        }
        i += 1;
    }
    assert(lv.take(ls@.len() as int) == lv);
    out
}

// ---------- links in notes ----------

/// Whether a word is a link: it starts with http:// or https://.
pub open spec fn is_link(w: Seq<char>) -> bool {
    starts_with(w, seq!['h', 't', 't', 'p', ':', '/', '/'])
        || starts_with(w, seq!['h', 't', 't', 'p', 's', ':', '/', '/'])
}

/// The links among the words.
pub open spec fn links_in(ws: Seq<Seq<char>>) -> Seq<Seq<char>>
    decreases ws.len(),
{
    if ws.len() == 0 {
        ws
    } else {
        let r = links_in(ws.drop_last());
        if is_link(ws.last()) { r.push(ws.last()) } else { r }
    }
}

/// The links of a text: the words between white space, `<`, `>` and `"` that start with
/// http:// or https://, in order.
pub open spec fn urls_spec(text: Seq<char>) -> Seq<Seq<char>> {
    links_in(split(Sep::LinkBreak, text))
}

/// The links found in notes, shown as clickable under them.
#[verifier::rlimit(30)]
pub fn urls(text: &str) -> (r: Vec<String>)
    ensures strings_view(r@) == urls_spec(text@),
{
    let chars = chars_of(text);
    let ws = split_chars(Sep::LinkBreak, &chars);
    let ghost wv = ws@.map_values(|p: Vec<char>| p@);
    let mut out: Vec<String> = Vec::new();
    let mut i: usize = 0;
    while i < ws.len()
        invariant
            i <= ws@.len(),
            wv == ws@.map_values(|p: Vec<char>| p@),
            wv == split(Sep::LinkBreak, text@),
            strings_view(out@) == links_in(wv.take(i as int)),
        decreases ws@.len() - i,
    {
        let w = &ws[i];
        assert(w@ == wv[i as int]);
        assert(wv.take(i + 1).drop_last() == wv.take(i as int));
        if has_prefix(w, &['h', 't', 't', 'p', ':', '/', '/'])
            || has_prefix(w, &['h', 't', 't', 'p', 's', ':', '/', '/']) {
            let ghost before = strings_view(out@);
            let s = string_of(w);
            out.push(s);
            assert(strings_view(out@) == before.push(w@));
        }
        i += 1;
    }
    assert(wv.take(ws@.len() as int) == wv);
    out
}

} // verus!
