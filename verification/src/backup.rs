//! The daily backup of the task file: its name, and which old copies go.
use vstd::prelude::*;
use crate::date::{Date, iso_text};
use crate::people::{lt_chars, seq_lt};
use vstd::set_lib::set_int_range;
use crate::text::{chars_of, concat, string_of};

verus! {

/// How many daily copies are kept.
pub const KEEP: usize = 30;

/// The backup of the day: `tasks.<YYYY-MM-DD>.json`. The ISO date makes the names sort in
/// the order of the days.
pub fn backup_name(today: Date) -> (r: String)
    ensures r@ == "tasks."@ + iso_text(today) + ".json"@,
{
    let a = concat(&chars_of("tasks."), &chars_of(today.iso().as_str()));
    let b = concat(&a, &chars_of(".json"));
    string_of(&b)
}

/// How many names of the list come after `x`.
pub open spec fn count_after(ns: Seq<Seq<char>>, x: Seq<char>) -> nat
    decreases ns.len(),
{
    if ns.len() == 0 {
        0
    } else {
        count_after(ns.drop_last(), x) + if seq_lt(x, ns.last()) { 1nat } else { 0nat }
    }
}

/// The names that go, in their order: those with `keep` names or more after them. Among
/// distinct names (the files of a folder) that is all but the `keep` greatest.
pub open spec fn pruned(ns: Seq<Seq<char>>, keep: nat) -> Seq<Seq<char>> {
    ns.filter(|x: Seq<char>| count_after(ns, x) >= keep)
}

fn count_after_exec(ns: &Vec<Vec<char>>, x: &[char]) -> (r: usize)
    ensures r == count_after(ns@.map_values(|v: Vec<char>| v@), x@),
{
    let ghost nv = ns@.map_values(|v: Vec<char>| v@);
    let mut c: usize = 0;
    let mut i: usize = 0;
    while i < ns.len()
        invariant
            i <= ns@.len(),
            nv == ns@.map_values(|v: Vec<char>| v@),
            c == count_after(nv.take(i as int), x@),
            c <= i,
        decreases ns@.len() - i,
    {
        assert(nv.take(i + 1).drop_last() == nv.take(i as int));
        assert(nv.take(i + 1).last() == ns@[i as int]@);
        if lt_chars(x, &ns[i]) {
            c += 1;
        }
        i += 1;
    }
    assert(nv.take(ns@.len() as int) == nv);
    c
}

/// The backups to remove from the folder: all but the `KEEP` latest.
pub fn to_remove(names: &Vec<String>) -> (r: Vec<String>)
    ensures
        r@.map_values(|s: String| s@) == pruned(names@.map_values(|s: String| s@), KEEP as nat),
{
    let ghost nv = names@.map_values(|s: String| s@);
    let mut cs: Vec<Vec<char>> = Vec::new();
    let mut i: usize = 0;
    while i < names.len()
        invariant
            i <= names@.len(),
            nv == names@.map_values(|s: String| s@),
            cs@.map_values(|v: Vec<char>| v@) == nv.take(i as int),
        decreases names@.len() - i,
    {
        let ghost before = cs@.map_values(|v: Vec<char>| v@);
        cs.push(chars_of(names[i].as_str()));
        assert(cs@.map_values(|v: Vec<char>| v@) == before.push(nv[i as int]));
        assert(nv.take(i + 1) == nv.take(i as int).push(nv[i as int]));
        i += 1;
    }
    assert(nv.take(names@.len() as int) == nv);
    let ghost keep = |x: Seq<char>| count_after(nv, x) >= KEEP as nat;
    let mut out: Vec<String> = Vec::new();
    let mut j: usize = 0;
    while j < names.len()
        invariant
            j <= names@.len(),
            nv == names@.map_values(|s: String| s@),
            cs@.map_values(|v: Vec<char>| v@) == nv,
            keep == (|x: Seq<char>| count_after(nv, x) >= KEEP as nat),
            out@.map_values(|s: String| s@) == nv.take(j as int).filter(keep),
        decreases names@.len() - j,
    {
        proof {
            assert(nv.take(j + 1).drop_last() == nv.take(j as int));
            nv.take(j as int).lemma_filter_push(nv[j as int], keep);
            assert(nv.take(j + 1) == nv.take(j as int).push(nv[j as int]));
        }
        assert(cs@[j as int]@ == nv[j as int]);
        let ghost before = out@.map_values(|s: String| s@);
        if count_after_exec(&cs, &cs[j]) >= KEEP {
            out.push(names[j].clone());
            assert(out@.map_values(|s: String| s@) == before.push(nv[j as int]));
        }
        j += 1;
    }
    assert(nv.take(names@.len() as int) == nv);
    out
}

// ---------- which copies stay ----------

proof fn lemma_seq_lt_irreflexive(a: Seq<char>)
    ensures !seq_lt(a, a),
    decreases a.len(),
{
    if a.len() > 0 {
        lemma_seq_lt_irreflexive(a.drop_first());
    }
}

proof fn lemma_seq_lt_transitive(a: Seq<char>, b: Seq<char>, c: Seq<char>)
    requires seq_lt(a, b), seq_lt(b, c),
    ensures seq_lt(a, c),
    decreases a.len(),
{
    if a.len() > 0 && b.len() > 0 && c.len() > 0 && a[0] == b[0] && b[0] == c[0] {
        lemma_seq_lt_transitive(a.drop_first(), b.drop_first(), c.drop_first());
    }
}

proof fn lemma_seq_lt_total(a: Seq<char>, b: Seq<char>)
    requires a != b,
    ensures seq_lt(a, b) || seq_lt(b, a),
    decreases a.len(),
{
    if a.len() == 0 {
        assert(b.len() > 0) by {
            if b.len() == 0 {
                assert(a =~= b);
            }
        }
    } else if b.len() > 0 {
        if a[0] == b[0] {
            assert(a.drop_first() != b.drop_first()) by {
                if a.drop_first() == b.drop_first() {
                    assert(a =~= seq![a[0]] + a.drop_first());
                    assert(b =~= seq![b[0]] + b.drop_first());
                }
            }
            lemma_seq_lt_total(a.drop_first(), b.drop_first());
        } else {
            vstd::utf8::char_u32_cast(a[0], a[0] as u32);
            vstd::utf8::char_u32_cast(b[0], b[0] as u32);
        }
    }
}

proof fn lemma_count_after_bound(ns: Seq<Seq<char>>, x: Seq<char>)
    ensures count_after(ns, x) + (if ns.contains(x) { 1int } else { 0int }) <= ns.len(),
    decreases ns.len(),
{
    if ns.len() > 0 {
        let init = ns.drop_last();
        lemma_count_after_bound(init, x);
        lemma_seq_lt_irreflexive(x);
        assert(ns == init.push(ns.last()));
        if ns.contains(x) && !init.contains(x) {
            let k = choose|k: int| 0 <= k < ns.len() && ns[k] == x;
            if k < init.len() {
                assert(init[k] == x);
            }
        }
        if init.contains(x) {
            let k = choose|k: int| 0 <= k < init.len() && init[k] == x;
            assert(ns[k] == x);
        }
    }
}

proof fn lemma_count_after_order(ns: Seq<Seq<char>>, a: Seq<char>, b: Seq<char>)
    requires seq_lt(a, b),
    ensures count_after(ns, a) >= count_after(ns, b) + (if ns.contains(b) { 1int } else { 0int }),
    decreases ns.len(),
{
    if ns.len() > 0 {
        let init = ns.drop_last();
        let l = ns.last();
        lemma_count_after_order(init, a, b);
        lemma_seq_lt_irreflexive(b);
        if seq_lt(b, l) {
            lemma_seq_lt_transitive(a, b, l);
        }
        if ns.contains(b) && !init.contains(b) {
            let k = choose|k: int| 0 <= k < ns.len() && ns[k] == b;
            if k < init.len() {
                assert(init[k] == b);
            }
        }
        if init.contains(b) {
            let k = choose|k: int| 0 <= k < init.len() && init[k] == b;
            assert(ns[k] == b);
        }
    }
}

proof fn lemma_filter_len_indices(s: Seq<Seq<char>>, p: spec_fn(Seq<char>) -> bool)
    ensures
        set_int_range(0, s.len() as int).filter(|i: int| p(s[i])).finite(),
        s.filter(p).len() == set_int_range(0, s.len() as int).filter(|i: int| p(s[i])).len(),
    decreases s.len(),
{
    let all = set_int_range(0, s.len() as int).filter(|i: int| p(s[i]));
    if s.len() == 0 {
        assert(all =~= Set::<int>::empty());
        assert(s.filter(p) =~= Seq::<Seq<char>>::empty()) by {
            s.lemma_filter_len(p);
        }
    } else {
        let t = s.drop_last();
        let x = s.last();
        lemma_filter_len_indices(t, p);
        let sub = set_int_range(0, t.len() as int).filter(|i: int| p(t[i]));
        assert(s == t.push(x));
        t.lemma_filter_push(x, p);
        if p(x) {
            assert(all =~= sub.insert(s.len() - 1));
            assert(!sub.contains(s.len() - 1));
        } else {
            assert(all =~= sub);
        }
    }
}

/// The last `keep` copies stay: among distinct names (the files of a folder), exactly the
/// names beyond the `keep` greatest go, and each of them comes before every name that stays.
pub proof fn lemma_pruned_keeps_latest(ns: Seq<Seq<char>>, keep: nat)
    requires ns.no_duplicates(),
    ensures
        pruned(ns, keep).len() == (if ns.len() > keep { ns.len() - keep } else { 0 }),
        forall|x: Seq<char>, y: Seq<char>|
            pruned(ns, keep).contains(x) && ns.contains(y) && !pruned(ns, keep).contains(y)
                ==> seq_lt(x, y),
{
    let n = ns.len() as int;
    let f = |i: int| count_after(ns, ns[i]) as int;
    let idx = set_int_range(0, n);
    let vals = set_int_range(0, n);
    vstd::set_lib::lemma_int_range(0, n);
    assert forall|i: int| 0 <= i < n implies 0 <= #[trigger] f(i) < n by {
        lemma_count_after_bound(ns, ns[i]);
        assert(ns.contains(ns[i]));
    }
    assert forall|i: int, j: int| idx.contains(i) && idx.contains(j) && #[trigger] f(i) == #[trigger] f(j) implies i == j by {
        if i != j {
            assert(ns[i] != ns[j]);
            lemma_seq_lt_total(ns[i], ns[j]);
            assert(ns.contains(ns[i]) && ns.contains(ns[j]));
            if seq_lt(ns[i], ns[j]) {
                lemma_count_after_order(ns, ns[i], ns[j]);
            } else {
                lemma_count_after_order(ns, ns[j], ns[i]);
            }
        }
    }
    assert(vstd::relations::injective_on(f, idx));
    vstd::set_lib::lemma_map_size(idx, idx.map(f), f);
    assert(idx.map(f).subset_of(vals));
    vstd::set_lib::lemma_subset_equality(idx.map(f), vals);
    let k = keep as int;
    let big = idx.filter(|i: int| f(i) >= k);
    let top = if n > k { set_int_range(k, n) } else { Set::<int>::empty() };
    assert(big.map(f) =~= top) by {
        assert forall|v: int| top.contains(v) implies big.map(f).contains(v) by {
            assert(idx.map(f).contains(v));
            let i = choose|i: int| idx.contains(i) && v == f(i);
            assert(big.contains(i));
        }
    }
    assert(big.finite()) by {
        vstd::set_lib::lemma_set_subset_finite(idx, big);
    }
    assert(vstd::relations::injective_on(f, big));
    vstd::set_lib::lemma_map_size(big, top, f);
    if n > k {
        vstd::set_lib::lemma_int_range(k, n);
    }
    let p = |x: Seq<char>| count_after(ns, x) >= keep;
    lemma_filter_len_indices(ns, p);
    assert(set_int_range(0, n).filter(|i: int| p(ns[i])) =~= big);
    assert forall|x: Seq<char>, y: Seq<char>|
        pruned(ns, keep).contains(x) && ns.contains(y) && !pruned(ns, keep).contains(y) implies seq_lt(x, y) by {
        ns.filter_lemma(p);
        assert(p(x));
        assert(!p(y)) by {
            if p(y) {
                let j = choose|j: int| 0 <= j < ns.len() && ns[j] == y;
                assert(ns.filter(p).contains(y));
            }
        }
        if x == y {
        } else {
            lemma_seq_lt_total(x, y);
            if seq_lt(y, x) {
                ns.lemma_filter_contains_rev(p, x);
                lemma_count_after_order(ns, y, x);
            }
        }
    }
}

} // verus!
