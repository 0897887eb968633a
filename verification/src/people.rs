//! What the capture window suggests: the people already named, the tags already used, both
//! most frequent first, and the colours of tags and avatars.
use vstd::prelude::*;
use vstd::string::StringSliceAdditionalSpecFns;
use crate::store::{Store, Task, TaskView, tasks_view};
use crate::text::{
    Sep, contains_chars, contains_seq, split, split_chars, to_uppercase, uppercase, chars_of, eq_ascii_ci, eq_ignore_ascii_case, lowercase, same, string_of, to_lowercase, trim,
    trim_chars,
};

verus! {

/// `a` comes before `b` in the order of `str`'s `cmp` (code point by code point, a prefix
/// first).
pub open spec fn seq_lt(a: Seq<char>, b: Seq<char>) -> bool
    decreases a.len(),
{
    if a.len() == 0 {
        b.len() > 0
    } else if b.len() == 0 {
        false
    } else if a[0] != b[0] {
        (a[0] as u32) < (b[0] as u32)
    } else {
        seq_lt(a.drop_first(), b.drop_first())
    }
}

/// Computes `seq_lt`.
pub fn lt_chars(a: &[char], b: &[char]) -> (r: bool)
    ensures r == seq_lt(a@, b@),
{
    let mut i: usize = 0;
    assert(a@.skip(0) == a@ && b@.skip(0) == b@);
    while i < a.len() && i < b.len() && a[i] == b[i]
        invariant
            i <= a@.len(),
            i <= b@.len(),
            seq_lt(a@, b@) == seq_lt(a@.skip(i as int), b@.skip(i as int)),
        decreases a@.len() - i,
    {
        assert(a@.skip(i as int).drop_first() == a@.skip(i + 1));
        assert(b@.skip(i as int).drop_first() == b@.skip(i + 1));
        i += 1;
    }
    proof {
        let x = a@.skip(i as int);
        let y = b@.skip(i as int);
        if i < a@.len() {
            assert(x[0] == a@[i as int]);
        }
        if i < b@.len() {
            assert(y[0] == b@[i as int]);
        }
    }
    if i == a.len() {
        i < b.len()
    } else if i == b.len() {
        false
    } else {
        (a[i] as u32) < (b[i] as u32)
    }
}

/// A name or tag with how often it appears.
pub type Entry = (Seq<char>, nat);

/// Two names are the same one: exactly (`!ci`), or but for ASCII case (`ci`).
pub open spec fn same_name(a: Seq<char>, b: Seq<char>, ci: bool) -> bool {
    if ci { eq_ascii_ci(a, b) } else { a == b }
}

/// The place, from `i` on, of the entry for `x`; -1 when there is none.
pub open spec fn find_entry(es: Seq<Entry>, x: Seq<char>, ci: bool, i: int) -> int
    decreases es.len() - i,
{
    if i < 0 || i >= es.len() {
        -1
    } else if same_name(es[i].0, x, ci) {
        i
    } else {
        find_entry(es, x, ci, i + 1)
    }
}

/// How often each name appears, in the order of first appearance, spelt as it first appeared.
pub open spec fn tally(xs: Seq<Seq<char>>, ci: bool) -> Seq<Entry>
    decreases xs.len(),
{
    if xs.len() == 0 {
        Seq::empty()
    } else {
        let r = tally(xs.drop_last(), ci);
        let k = find_entry(r, xs.last(), ci, 0);
        if k >= 0 { r.update(k, (r[k].0, r[k].1 + 1)) } else { r.push((xs.last(), 1nat)) }
    }
}

/// The key names are ordered by for equal counts: the name, or its lowercase form (`ci`).
pub open spec fn sort_key(s: Seq<char>, ci: bool) -> Seq<char> {
    if ci { lowercase(s) } else { s }
}

/// `x` goes before `y`: more frequent first, then by name.
pub open spec fn ranks_before(x: Entry, y: Entry, ci: bool) -> bool {
    x.1 > y.1 || (x.1 == y.1 && seq_lt(sort_key(x.0, ci), sort_key(y.0, ci)))
}

/// The first place, from `i` on, of an entry that `x` goes before; the length when none.
pub open spec fn insert_place(s: Seq<Entry>, x: Entry, ci: bool, i: int) -> int
    decreases s.len() - i,
{
    if i < 0 || i >= s.len() {
        s.len() as int
    } else if ranks_before(x, s[i], ci) {
        i
    } else {
        insert_place(s, x, ci, i + 1)
    }
}

/// The entries sorted by `ranks_before`, equal ones in their order (a stable sort, as
/// `sort_by` is).
pub open spec fn ranked(s: Seq<Entry>, ci: bool) -> Seq<Entry>
    decreases s.len(),
{
    if s.len() == 0 {
        s
    } else {
        let r = ranked(s.drop_last(), ci);
        r.insert(insert_place(r, s.last(), ci, 0), s.last())
    }
}

proof fn lemma_insert_place(s: Seq<Entry>, x: Entry, ci: bool, i: int)
    requires 0 <= i <= s.len(),
    ensures
        i <= insert_place(s, x, ci, i) <= s.len(),
        forall|k: int| i <= k < insert_place(s, x, ci, i) ==> !ranks_before(x, #[trigger] s[k], ci),
        insert_place(s, x, ci, i) < s.len() ==> ranks_before(x, s[insert_place(s, x, ci, i)], ci),
    decreases s.len() - i,
{
    if i < s.len() && !ranks_before(x, s[i], ci) {
        lemma_insert_place(s, x, ci, i + 1);
    }
}

/// Most frequent first: the ranked entries come by decreasing count, and they are the
/// entries that were ranked, each as often.
pub proof fn lemma_ranked_by_count(s: Seq<Entry>, ci: bool)
    ensures
        forall|i: int, j: int| 0 <= i < j < ranked(s, ci).len() ==> (#[trigger] ranked(s, ci)[i]).1 >= (#[trigger] ranked(s, ci)[j]).1,
        ranked(s, ci).to_multiset() == s.to_multiset(),
    decreases s.len(),
{
    broadcast use vstd::seq_lib::to_multiset_build;
    broadcast use vstd::seq_lib::to_multiset_insert;
    if s.len() == 0 {
    } else {
        let init = s.drop_last();
        let x = s.last();
        lemma_ranked_by_count(init, ci);
        let r = ranked(init, ci);
        lemma_insert_place(r, x, ci, 0);
        let p = insert_place(r, x, ci, 0);
        let q = r.insert(p, x);
        assert(ranked(s, ci) == q);
        assert forall|i: int, j: int| 0 <= i < j < q.len() implies (#[trigger] q[i]).1 >= (#[trigger] q[j]).1 by {
            if j < p {
                assert(q[i] == r[i] && q[j] == r[j]);
            } else if j == p {
                assert(q[i] == r[i]);
                assert(!ranks_before(x, r[i], ci));
            } else if i == p {
                assert(q[j] == r[j - 1]);
                assert(ranks_before(x, r[p], ci));
                if j - 1 > p {
                    assert(r[p].1 >= r[j - 1].1);
                }
            } else if i < p {
                assert(q[i] == r[i] && q[j] == r[j - 1]);
            } else {
                assert(q[i] == r[i - 1] && q[j] == r[j - 1]);
            }
        }
        assert(s == init.push(x));
        assert(q.to_multiset() == r.to_multiset().insert(x));
    }
}

/// The entries as text and counts.
pub open spec fn entries_view(v: Seq<(Vec<char>, usize)>) -> Seq<Entry> {
    v.map_values(|e: (Vec<char>, usize)| (e.0@, e.1 as nat))
}

proof fn lemma_find_entry_range(es: Seq<Entry>, x: Seq<char>, ci: bool, i: int)
    requires 0 <= i,
    ensures
        -1 <= find_entry(es, x, ci, i) < es.len(),
        find_entry(es, x, ci, i) >= 0 ==> find_entry(es, x, ci, i) >= i,
    decreases es.len() - i,
{
    if i < es.len() {
        lemma_find_entry_range(es, x, ci, i + 1);
    }
}

proof fn lemma_insert_place_range(s: Seq<Entry>, x: Entry, ci: bool, i: int)
    requires 0 <= i,
    ensures i <= insert_place(s, x, ci, i) <= s.len() || (i > s.len() && insert_place(s, x, ci, i) == s.len()),
    decreases s.len() - i,
{
    if i < s.len() {
        lemma_insert_place_range(s, x, ci, i + 1);
    }
}

fn same_names(a: &[char], b: &[char], ci: bool) -> (r: bool)
    ensures r == same_name(a@, b@, ci),
{
    if ci { eq_ignore_ascii_case(a, b) } else { same(a, b) }
}

fn entry_of(es: &Vec<(Vec<char>, usize)>, x: &[char], ci: bool) -> (r: Option<usize>)
    ensures
        match r {
            Some(k) => k < es@.len() && k as int == find_entry(entries_view(es@), x@, ci, 0),
            None => find_entry(entries_view(es@), x@, ci, 0) == -1,
        },
{
    let ghost ev = entries_view(es@);
    let mut k: usize = 0;
    while k < es.len()
        invariant
            k <= es@.len(),
            ev == entries_view(es@),
            find_entry(ev, x@, ci, 0) == find_entry(ev, x@, ci, k as int),
        decreases es@.len() - k,
    {
        assert(ev[k as int].0 == es@[k as int].0@);
        if same_names(&es[k].0, x, ci) {
            return Some(k);
        }
        k += 1;
    }
    None
}

/// Counts the names in the order they first appear.
fn tally_of(xs: &Vec<Vec<char>>, ci: bool) -> (r: Vec<(Vec<char>, usize)>)
    ensures entries_view(r@) == tally(xs@.map_values(|p: Vec<char>| p@), ci),
{
    let ghost xv = xs@.map_values(|p: Vec<char>| p@);
    let mut es: Vec<(Vec<char>, usize)> = Vec::new();
    let mut i: usize = 0;
    while i < xs.len()
        invariant
            i <= xs@.len(),
            xv == xs@.map_values(|p: Vec<char>| p@),
            entries_view(es@) == tally(xv.take(i as int), ci),
            forall|k: int| 0 <= k < es@.len() ==> (#[trigger] es@[k]).1 <= i,
        decreases xs@.len() - i,
    {
        let x = &xs[i];
        assert(x@ == xv[i as int]);
        assert(xv.take(i + 1).drop_last() == xv.take(i as int));
        let ghost ev = entries_view(es@);
        proof {
            lemma_find_entry_range(ev, x@, ci, 0);
        }
        match entry_of(&es, x, ci) {
            Some(k) => {
                let c = es[k].1;
                es.set(k, (es[k].0.clone(), c + 1));
                assert(entries_view(es@) == ev.update(k as int, (ev[k as int].0, ev[k as int].1 + 1)));
            },
            None => {
                let y = x.clone();
                es.push((y, 1));
                assert(entries_view(es@) == ev.push((x@, 1nat)));
            },
        }
        i += 1;
    }
    assert(xv.take(xs@.len() as int) == xv);
    es
}

fn key_of(s: &[char], ci: bool) -> (r: Vec<char>)
    ensures r@ == sort_key(s@, ci),
{
    if ci { to_lowercase(s) } else { crate::text::slice_of(s, 0, s.len()) }
}

fn goes_before(x: &(Vec<char>, usize), y: &(Vec<char>, usize), ci: bool) -> (r: bool)
    ensures r == ranks_before((x.0@, x.1 as nat), (y.0@, y.1 as nat), ci),
{
    if x.1 > y.1 {
        true
    } else if x.1 == y.1 {
        let kx = key_of(&x.0, ci);
        let ky = key_of(&y.0, ci);
        lt_chars(&kx, &ky)
    } else {
        false
    }
}

/// Sorts the entries, more frequent first, then by name; equal entries keep their order.
fn rank(es: &Vec<(Vec<char>, usize)>, ci: bool) -> (r: Vec<(Vec<char>, usize)>)
    ensures entries_view(r@) == ranked(entries_view(es@), ci),
{
    let ghost ev = entries_view(es@);
    let mut out: Vec<(Vec<char>, usize)> = Vec::new();
    let mut i: usize = 0;
    while i < es.len()
        invariant
            i <= es@.len(),
            ev == entries_view(es@),
            entries_view(out@) == ranked(ev.take(i as int), ci),
        decreases es@.len() - i,
    {
        let x = (es[i].0.clone(), es[i].1);
        assert((x.0@, x.1 as nat) == ev[i as int]);
        assert(ev.take(i + 1).drop_last() == ev.take(i as int));
        let ghost ov = entries_view(out@);
        let mut p: usize = 0;
        while p < out.len() && !goes_before(&x, &out[p], ci)
            invariant
                p <= out@.len(),
                i < es@.len(),
                ev == entries_view(es@),
                (x.0@, x.1 as nat) == ev[i as int],
                ov == entries_view(out@),
                insert_place(ov, ev[i as int], ci, 0) == insert_place(ov, ev[i as int], ci, p as int),
            decreases out@.len() - p,
        {
            assert(ov[p as int] == (out@[p as int].0@, out@[p as int].1 as nat));
            p += 1;
        }
        proof {
            if p < out@.len() {
                assert(ov[p as int] == (out@[p as int].0@, out@[p as int].1 as nat));
            }
            assert(insert_place(ov, ev[i as int], ci, p as int) == p);
        }
        out.insert(p, x);
        assert(entries_view(out@) == ov.insert(p as int, ev[i as int]));
        i += 1;
    }
    assert(ev.take(es@.len() as int) == ev);
    out
}

// ---------- people ----------

/// The people a task names: who asked and who it waits on, trimmed, when not empty.
pub open spec fn people_of_task(t: TaskView) -> Seq<Seq<char>> {
    (if trim(t.from).len() > 0 { seq![trim(t.from)] } else { Seq::empty() })
        + (if trim(t.waiting).len() > 0 { seq![trim(t.waiting)] } else { Seq::empty() })
}

/// The people the tasks name, task after task.
pub open spec fn people_of(ts: Seq<TaskView>) -> Seq<Seq<char>>
    decreases ts.len(),
{
    if ts.len() == 0 { Seq::empty() } else { people_of(ts.drop_last()) + people_of_task(ts.last()) }
}

/// The tags the tasks carry, task after task.
pub open spec fn tags_of(ts: Seq<TaskView>) -> Seq<Seq<char>>
    decreases ts.len(),
{
    if ts.len() == 0 { Seq::empty() } else { tags_of(ts.drop_last()) + ts.last().tags }
}

/// Every task of the file, the active ones first.
pub open spec fn all_tasks(s: Store) -> Seq<TaskView> {
    tasks_view(s.active@) + tasks_view(s.done@)
}

fn push_people(xs: &mut Vec<Vec<char>>, ts: &Vec<Task>)
    ensures
        final(xs)@.map_values(|p: Vec<char>| p@) == old(xs)@.map_values(|p: Vec<char>| p@)
            + people_of(tasks_view(ts@)),
{
    let ghost x0 = xs@.map_values(|p: Vec<char>| p@);
    let ghost tv = tasks_view(ts@);
    let mut i: usize = 0;
    while i < ts.len()
        invariant
            i <= ts@.len(),
            tv == tasks_view(ts@),
            xs@.map_values(|p: Vec<char>| p@) == x0 + people_of(tv.take(i as int)),
        decreases ts@.len() - i,
    {
        let t = &ts[i];
        assert(t@ == tv[i as int]);
        assert(tv.take(i + 1).drop_last() == tv.take(i as int));
        let ghost before = xs@.map_values(|p: Vec<char>| p@);
        let f = trim_chars(&chars_of(t.from.as_str()));
        if f.len() > 0 {
            xs.push(f);
        }
        let w = trim_chars(&chars_of(t.waiting.as_str()));
        if w.len() > 0 {
            xs.push(w);
        }
        assert(xs@.map_values(|p: Vec<char>| p@) == before + people_of_task(tv[i as int]));
        i += 1;
    }
    assert(tv.take(ts@.len() as int) == tv);
}

fn push_tags(xs: &mut Vec<Vec<char>>, ts: &Vec<Task>)
    ensures
        final(xs)@.map_values(|p: Vec<char>| p@) == old(xs)@.map_values(|p: Vec<char>| p@)
            + tags_of(tasks_view(ts@)),
{
    let ghost x0 = xs@.map_values(|p: Vec<char>| p@);
    let ghost tv = tasks_view(ts@);
    let mut i: usize = 0;
    while i < ts.len()
        invariant
            i <= ts@.len(),
            tv == tasks_view(ts@),
            xs@.map_values(|p: Vec<char>| p@) == x0 + tags_of(tv.take(i as int)),
        decreases ts@.len() - i,
    {
        let t = &ts[i];
        assert(t@ == tv[i as int]);
        assert(tv.take(i + 1).drop_last() == tv.take(i as int));
        let ghost before = xs@.map_values(|p: Vec<char>| p@);
        let mut j: usize = 0;
        while j < t.tags.len()
            invariant
                j <= t.tags@.len(),
                i < ts@.len(),
                tv == tasks_view(ts@),
                t@ == tv[i as int],
                xs@.map_values(|p: Vec<char>| p@) == before + t@.tags.take(j as int),
            decreases t.tags@.len() - j,
        {
            assert(t@.tags[j as int] == t.tags@[j as int]@);
            let ghost mid = xs@.map_values(|p: Vec<char>| p@);
            let c = chars_of(t.tags[j].as_str());
            xs.push(c);
            assert(xs@.map_values(|p: Vec<char>| p@) == mid.push(c@));
            assert(t@.tags.take(j + 1) == t@.tags.take(j as int).push(t@.tags[j as int]));
            j += 1;
        }
        assert(t@.tags.take(t.tags@.len() as int) == t@.tags);
        i += 1;
    }
    assert(tv.take(ts@.len() as int) == tv);
}

/// The people already entered, as requester or as "waiting on": most frequent first, then
/// by name.
pub open spec fn names_spec(s: Store) -> Seq<Seq<char>> {
    ranked(tally(people_of(all_tasks(s)), false), false).map_values(|e: Entry| e.0)
}

/// Every tag of the file, spelt as it first appears, with how often it appears whatever its
/// ASCII case: most used first, then by lowercase name.
pub open spec fn tags_all_spec(s: Store) -> Seq<Entry> {
    ranked(tally(tags_of(all_tasks(s)), true), true)
}

proof fn lemma_people_append(a: Seq<TaskView>, b: Seq<TaskView>)
    ensures people_of(a + b) == people_of(a) + people_of(b),
    decreases b.len(),
{
    if b.len() == 0 {
        assert(a + b == a);
    } else {
        lemma_people_append(a, b.drop_last());
        assert((a + b).drop_last() == a + b.drop_last());
    }
}

proof fn lemma_tags_append(a: Seq<TaskView>, b: Seq<TaskView>)
    ensures tags_of(a + b) == tags_of(a) + tags_of(b),
    decreases b.len(),
{
    if b.len() == 0 {
        assert(a + b == a);
    } else {
        lemma_tags_append(a, b.drop_last());
        assert((a + b).drop_last() == a + b.drop_last());
    }
}

/// People already entered (requesters and "waiting on"), most frequent first.
pub fn names(store: &Store) -> (r: Vec<String>)
    ensures r@.map_values(|s: String| s@) == names_spec(*store),
{
    let mut xs: Vec<Vec<char>> = Vec::new();
    push_people(&mut xs, &store.active);
    push_people(&mut xs, &store.done);
    proof {
        lemma_people_append(tasks_view(store.active@), tasks_view(store.done@));
        assert(xs@.map_values(|p: Vec<char>| p@) == people_of(all_tasks(*store)));
    }
    let es = tally_of(&xs, false);
    let rs = rank(&es, false);
    let ghost rv = entries_view(rs@);
    let mut out: Vec<String> = Vec::new();
    let mut i: usize = 0;
    while i < rs.len()
        invariant
            i <= rs@.len(),
            rv == entries_view(rs@),
            out@.map_values(|s: String| s@) == rv.take(i as int).map_values(|e: Entry| e.0),
        decreases rs@.len() - i,
    {
        let ghost before = out@.map_values(|s: String| s@);
        out.push(string_of(&rs[i].0));
        assert(rv.take(i + 1) == rv.take(i as int).push(rv[i as int]));
        assert(out@.map_values(|s: String| s@) == before.push(rv[i as int].0));
        i += 1;
    }
    assert(rv.take(rs@.len() as int) == rv);
    out
}

/// Every tag in the file, most used first, with how often it appears.
pub fn tags_all(store: &Store) -> (r: Vec<(String, usize)>)
    ensures r@.map_values(|e: (String, usize)| (e.0@, e.1 as nat)) == tags_all_spec(*store),
{
    let mut xs: Vec<Vec<char>> = Vec::new();
    push_tags(&mut xs, &store.active);
    push_tags(&mut xs, &store.done);
    proof {
        lemma_tags_append(tasks_view(store.active@), tasks_view(store.done@));
    }
    let es = tally_of(&xs, true);
    let rs = rank(&es, true);
    let ghost rv = entries_view(rs@);
    let mut out: Vec<(String, usize)> = Vec::new();
    let mut i: usize = 0;
    while i < rs.len()
        invariant
            i <= rs@.len(),
            rv == entries_view(rs@),
            out@.map_values(|e: (String, usize)| (e.0@, e.1 as nat)) == rv.take(i as int),
        decreases rs@.len() - i,
    {
        let ghost before = out@.map_values(|e: (String, usize)| (e.0@, e.1 as nat));
        out.push((string_of(&rs[i].0), rs[i].1));
        assert(rv.take(i + 1) == rv.take(i as int).push(rv[i as int]));
        assert(out@.map_values(|e: (String, usize)| (e.0@, e.1 as nat)) == before.push(rv[i as int]));
        i += 1;
    }
    assert(rv.take(rs@.len() as int) == rv);
    out
}

// ---------- suggestions ----------

/// The name chips under a field: with nothing typed, the first six names; else the first six
/// whose lowercase form holds what is typed (trimmed, lowercase) without being equal to it.
pub open spec fn suggestions_from(ns: Seq<Seq<char>>, typed: Seq<char>) -> Seq<Seq<char>>
    decreases ns.len(),
{
    if ns.len() == 0 {
        Seq::empty()
    } else {
        let r = suggestions_from(ns.drop_last(), typed);
        let n = ns.last();
        let t = lowercase(trim(typed));
        if r.len() < 6 && (t.len() == 0 || (contains_seq(lowercase(n), t) && lowercase(n) != t)) {
            r.push(n)
        } else {
            r
        }
    }
}

/// The people to offer as chips under a name field.
pub fn name_suggestions(names: &Vec<String>, typed: &str) -> (r: Vec<String>)
    ensures r@.map_values(|s: String| s@) == suggestions_from(names@.map_values(|s: String| s@), typed@),
{
    let t = to_lowercase(&trim_chars(&chars_of(typed)));
    let ghost nv = names@.map_values(|s: String| s@);
    let mut out: Vec<String> = Vec::new();
    let mut i: usize = 0;
    while i < names.len()
        invariant
            i <= names@.len(),
            nv == names@.map_values(|s: String| s@),
            t@ == lowercase(trim(typed@)),
            out@.map_values(|s: String| s@) == suggestions_from(nv.take(i as int), typed@),
        decreases names@.len() - i,
    {
        let n = chars_of(names[i].as_str());
        assert(n@ == nv[i as int]);
        assert(nv.take(i + 1).drop_last() == nv.take(i as int));
        let l = to_lowercase(&n);
        if out.len() < 6 && (t.len() == 0 || (contains_chars(&l, &t) && !same(&l, &t))) {
            let ghost before = out@.map_values(|s: String| s@);
            out.push(names[i].clone());
            assert(out@.map_values(|s: String| s@) == before.push(n@));
        }
        i += 1;
    }
    assert(nv.take(names@.len() as int) == nv);
    out
}

// ---------- colours and initials ----------

/// The sum of the bytes.
pub open spec fn byte_sum(b: Seq<u8>) -> nat
    decreases b.len(),
{
    if b.len() == 0 { 0 } else { byte_sum(b.drop_last()) + (b.last() as nat) }
}

/// The place of a text in the palette of six: the sum of its UTF-8 bytes, modulo six.
fn sum_index(s: &str) -> (r: usize)
    ensures r == byte_sum(s.spec_bytes()) % 6,
{
    let b = s.as_bytes();
    let mut acc: usize = 0;
    let mut i: usize = 0;
    while i < b.len()
        invariant
            i <= b@.len(),
            b@ == s.spec_bytes(),
            acc == byte_sum(b@.take(i as int)) % 6,
            acc < 6,
        decreases b@.len() - i,
    {
        proof {
            assert(b@.take(i + 1).drop_last() == b@.take(i as int));
            vstd::arithmetic::div_mod::lemma_add_mod_noop(byte_sum(b@.take(i as int)) as int, b@[i as int] as int, 6);
            vstd::arithmetic::div_mod::lemma_mod_twice(b@[i as int] as int, 6);
            vstd::arithmetic::div_mod::lemma_mod_twice(byte_sum(b@.take(i as int)) as int, 6);
        }
        acc = (acc + (b[i] as usize) % 6) % 6;
        i += 1;
    }
    assert(b@.take(b@.len() as int) == b@);
    acc
}

/// The colour of a tag among the six of the palette: its lowercase form's bytes summed.
pub fn tag_color_index(tag: &str) -> (r: usize)
    ensures r == byte_sum(vstd::utf8::encode_utf8(lowercase(tag@))) % 6,
{
    let l = string_of(&to_lowercase(&chars_of(tag)));
    sum_index(l.as_str())
}

/// The colour of a requester's avatar among the six: the bytes of the name summed.
pub fn avatar_index(name: &str) -> (r: usize)
    ensures r == byte_sum(name.spec_bytes()) % 6,
{
    sum_index(name)
}

/// The words between white space (`str::split_whitespace`).
pub open spec fn words(s: Seq<char>) -> Seq<Seq<char>> {
    nonempty(split(Sep::White, s))
}

/// The non-empty pieces.
pub open spec fn nonempty(ps: Seq<Seq<char>>) -> Seq<Seq<char>>
    decreases ps.len(),
{
    if ps.len() == 0 {
        ps
    } else {
        let r = nonempty(ps.drop_last());
        if ps.last().len() > 0 { r.push(ps.last()) } else { r }
    }
}

/// The initials of an avatar before they are put in capitals: the first two characters of a
/// single word, else the first character of each of the first two words.
pub open spec fn initials_of(ws: Seq<Seq<char>>) -> Seq<char> {
    if ws.len() == 1 {
        ws[0].take(if ws[0].len() < 2 { ws[0].len() as int } else { 2 })
    } else if ws.len() == 0 {
        Seq::empty()
    } else {
        seq![ws[0][0], ws[1][0]]
    }
}

proof fn lemma_nonempty_all(ps: Seq<Seq<char>>)
    ensures forall|i: int| 0 <= i < nonempty(ps).len() ==> (#[trigger] nonempty(ps)[i]).len() > 0,
    decreases ps.len(),
{
    if ps.len() > 0 {
        lemma_nonempty_all(ps.drop_last());
        let r = nonempty(ps.drop_last());
        assert forall|i: int| 0 <= i < nonempty(ps).len() implies (#[trigger] nonempty(ps)[i]).len() > 0 by {
            if i < r.len() {
                assert(nonempty(ps)[i] == r[i]);
            }
        }
    }
}

/// The initials shown in a requester's avatar, in capitals.
pub fn initials(name: &str) -> (r: String)
    ensures r@ == uppercase(initials_of(words(name@))),
{
    let chars = chars_of(name);
    let ps = split_chars(Sep::White, &chars);
    let ghost pv = ps@.map_values(|p: Vec<char>| p@);
    let mut ws: Vec<Vec<char>> = Vec::new();
    let mut i: usize = 0;
    while i < ps.len()
        invariant
            i <= ps@.len(),
            pv == ps@.map_values(|p: Vec<char>| p@),
            ws@.map_values(|p: Vec<char>| p@) == nonempty(pv.take(i as int)),
        decreases ps@.len() - i,
    {
        assert(ps@[i as int]@ == pv[i as int]);
        assert(pv.take(i + 1).drop_last() == pv.take(i as int));
        if ps[i].len() > 0 {
            let ghost before = ws@.map_values(|p: Vec<char>| p@);
            let w = crate::text::slice_of(&ps[i], 0, ps[i].len());
            assert(w@ == pv[i as int]);
            ws.push(w);
            assert(ws@.map_values(|p: Vec<char>| p@) == before.push(pv[i as int]));
        }
        i += 1;
    }
    assert(pv.take(ps@.len() as int) == pv);
    let ghost wv = ws@.map_values(|p: Vec<char>| p@);
    proof {
        lemma_nonempty_all(pv);
    }
    let mut v: Vec<char> = Vec::new();
    if ws.len() == 1 {
        let n = if ws[0].len() < 2 { ws[0].len() } else { 2 };
        v = crate::text::slice_of(&ws[0], 0, n);
        assert(wv[0] == ws@[0]@);
    } else if ws.len() >= 2 {
        assert(wv[0] == ws@[0]@ && wv[1] == ws@[1]@);
        assert(wv[0].len() > 0 && wv[1].len() > 0);
        v.push(ws[0][0]);
        v.push(ws[1][0]);
    }
    assert(v@ == initials_of(wv));
    string_of(&to_uppercase(&v))
}

} // verus!
