//! Tags: the comma-separated field, the pills that toggle a tag in it, and completion of a
//! name or tag being typed.
use vstd::prelude::*;
use crate::text::{
    Sep, chars_of, free_of, is_sep, is_white, lemma_pieces_free, pieces, ascii_lower, concat, eq_ascii_ci, eq_ignore_ascii_case, has_prefix, lemma_pieces_nonempty,
    lowercase, same, slice_of, split, split_chars, starts_with, string_of, to_lowercase, trim,
    trim_chars, trim_start, trim_start_chars, lemma_last_piece_suffix, lemma_trim_start_suffix,
    lemma_trim_idempotent,
};

verus! {

/// `s` without its leading `#` signs (`str::trim_start_matches('#')`).
pub open spec fn strip_hashes(s: Seq<char>) -> Seq<char>
    decreases s.len(),
{
    if s.len() > 0 && s[0] == '#' { strip_hashes(s.drop_first()) } else { s }
}

/// A piece of the tag field as a tag: trimmed, leading `#` removed, trimmed again.
pub open spec fn clean_tag(p: Seq<char>) -> Seq<char> {
    trim(strip_hashes(trim(p)))
}

/// Some tag of the list equals `t` but for the case of ASCII letters.
pub open spec fn has_ci(ts: Seq<Seq<char>>, t: Seq<char>) -> bool {
    exists|i: int| 0 <= i < ts.len() && eq_ascii_ci(#[trigger] ts[i], t)
}

/// The tags of the pieces: cleaned, empty ones dropped, a tag equal to an earlier one but for
/// ASCII case dropped.
pub open spec fn tags_from(ps: Seq<Seq<char>>) -> Seq<Seq<char>>
    decreases ps.len(),
{
    if ps.len() == 0 {
        Seq::empty()
    } else {
        let r = tags_from(ps.drop_last());
        let t = clean_tag(ps.last());
        if t.len() > 0 && !has_ci(r, t) { r.push(t) } else { r }
    }
}

/// The tags of the field: "rh, Support N2, #mira" gives rh, Support N2 and mira; `,` or `;`
/// between them.
pub open spec fn parse_tags_spec(s: Seq<char>) -> Seq<Seq<char>> {
    tags_from(split(Sep::TagList, s))
}

/// The text of each string.
pub open spec fn texts(v: Seq<String>) -> Seq<Seq<char>> {
    v.map_values(|s: String| s@)
}

fn strip_hashes_chars(s: &[char]) -> (r: Vec<char>)
    ensures r@ == strip_hashes(s@),
{
    let mut i: usize = 0;
    assert(s@.skip(0) == s@);
    while i < s.len() && s[i] == '#'
        invariant
            i <= s@.len(),
            strip_hashes(s@) == strip_hashes(s@.skip(i as int)),
        decreases s@.len() - i,
    {
        assert(s@.skip(i as int).drop_first() == s@.skip(i + 1));
        i += 1;
    }
    slice_of(s, i, s.len())
}

/// Whether some string of the list equals `t` but for ASCII case.
pub fn contains_ci(ts: &Vec<String>, t: &[char]) -> (r: bool)
    ensures r == has_ci(texts(ts@), t@),
{
    let mut i: usize = 0;
    while i < ts.len()
        invariant
            i <= ts@.len(),
            forall|k: int| 0 <= k < i ==> !eq_ascii_ci(#[trigger] texts(ts@)[k], t@),
        decreases ts@.len() - i,
    {
        let c = chars_of(ts[i].as_str());
        if eq_ignore_ascii_case(&c, t) {
            assert(texts(ts@)[i as int] == c@);
            return true;
        }
        i += 1;
    }
    false
}

/// Reads the tag field: no empty tag, no two equal but for ASCII case.
pub fn parse_tags(s: &str) -> (r: Vec<String>)
    ensures texts(r@) == parse_tags_spec(s@),
{
    let chars = chars_of(s);
    let ps = split_chars(Sep::TagList, &chars);
    let ghost pv = ps@.map_values(|p: Vec<char>| p@);
    let mut out: Vec<String> = Vec::new();
    let mut i: usize = 0;
    while i < ps.len()
        invariant
            i <= ps@.len(),
            pv == ps@.map_values(|p: Vec<char>| p@),
            pv == split(Sep::TagList, s@),
            texts(out@) == tags_from(pv.take(i as int)),
        decreases ps@.len() - i,
    {
        assert(ps@[i as int]@ == pv[i as int]);
        assert(pv.take(i + 1).drop_last() == pv.take(i as int));
        let a = trim_chars(&ps[i]);
        let b = strip_hashes_chars(&a);
        let t = trim_chars(&b);
        if t.len() > 0 && !contains_ci(&out, &t) {
            let ghost before = texts(out@);
            out.push(string_of(&t));
            assert(texts(out@) == before.push(t@));
        }
        i += 1;
    }
    assert(pv.take(ps@.len() as int) == pv);
    out
}

/// The tags written back into the field, joined by ", ".
pub open spec fn join_tags(ts: Seq<Seq<char>>) -> Seq<char>
    decreases ts.len(),
{
    if ts.len() == 0 {
        Seq::empty()
    } else if ts.len() == 1 {
        ts[0]
    } else {
        join_tags(ts.drop_last()) + seq![',', ' '] + ts.last()
    }
}

/// Joins tags with ", ".
pub fn join(ts: &Vec<String>) -> (r: String)
    ensures r@ == join_tags(texts(ts@)),
{
    let mut v: Vec<char> = Vec::new();
    let mut i: usize = 0;
    while i < ts.len()
        invariant
            i <= ts@.len(),
            v@ == join_tags(texts(ts@).take(i as int)),
        decreases ts@.len() - i,
    {
        let c = chars_of(ts[i].as_str());
        let ghost tv = texts(ts@);
        assert(tv.take(i + 1).drop_last() == tv.take(i as int));
        assert(tv.take(i + 1).last() == c@);
        if i > 0 {
            v = concat(&v, &[',', ' ']);
        } else {
            assert(tv.take(1) == seq![c@]);
        }
        v = concat(&v, &c);
        i += 1;
    }
    assert(texts(ts@).take(ts@.len() as int) == texts(ts@));
    string_of(&v)
}

/// The place of the first tag equal to `t` but for ASCII case, -1 when there is none.
pub open spec fn first_ci(ts: Seq<Seq<char>>, t: Seq<char>) -> int
    decreases ts.len(),
{
    if ts.len() == 0 {
        -1
    } else if eq_ascii_ci(ts[0], t) {
        0
    } else {
        let r = first_ci(ts.drop_first(), t);
        if r < 0 { -1 } else { r + 1 }
    }
}

/// The list with `t` removed when present (whatever its ASCII case), added at the end when
/// absent.
pub open spec fn toggled(ts: Seq<Seq<char>>, t: Seq<char>) -> Seq<Seq<char>> {
    if first_ci(ts, t) >= 0 { ts.remove(first_ci(ts, t)) } else { ts.push(t) }
}

proof fn lemma_first_ci(ts: Seq<Seq<char>>, t: Seq<char>)
    ensures
        -1 <= first_ci(ts, t) < ts.len(),
        first_ci(ts, t) >= 0 ==> eq_ascii_ci(ts[first_ci(ts, t)], t),
        first_ci(ts, t) >= 0 <==> has_ci(ts, t),
        forall|k: int| 0 <= k < ts.len() && (first_ci(ts, t) < 0 || k < first_ci(ts, t))
            ==> !eq_ascii_ci(#[trigger] ts[k], t),
    decreases ts.len(),
{
    if ts.len() > 0 {
        lemma_first_ci(ts.drop_first(), t);
        if !eq_ascii_ci(ts[0], t) {
            assert forall|k: int| 0 <= k < ts.len() && (first_ci(ts, t) < 0 || k < first_ci(ts, t))
                implies !eq_ascii_ci(#[trigger] ts[k], t) by {
                if k > 0 {
                    assert(ts[k] == ts.drop_first()[k - 1]);
                }
            }
            if has_ci(ts, t) {
                let j = choose|j: int| 0 <= j < ts.len() && eq_ascii_ci(#[trigger] ts[j], t);
                assert(ts.drop_first()[j - 1] == ts[j]);
            }
        }
    }
}

/// Where the first string equal to `t` but for ASCII case stands; the length when none does.
fn position_ci(ts: &Vec<String>, t: &[char]) -> (r: usize)
    ensures
        r <= ts@.len(),
        r < ts@.len() ==> eq_ascii_ci(texts(ts@)[r as int], t@),
        forall|k: int| 0 <= k < r ==> !eq_ascii_ci(#[trigger] texts(ts@)[k], t@),
{
    let mut i: usize = 0;
    while i < ts.len()
        invariant
            i <= ts@.len(),
            forall|k: int| 0 <= k < i ==> !eq_ascii_ci(#[trigger] texts(ts@)[k], t@),
        decreases ts@.len() - i,
    {
        let c = chars_of(ts[i].as_str());
        assert(c@ == texts(ts@)[i as int]);
        if eq_ignore_ascii_case(&c, t) {
            return i;
        }
        i += 1;
    }
    i
}

/// A click on a tag pill: the tag leaves the field when it is there, joins it otherwise.
pub fn toggle_tag(text: &mut String, tag: &str)
    ensures
        final(text)@ == join_tags(toggled(parse_tags_spec(old(text)@), tag@)),
{
    let mut tags = parse_tags(text.as_str());
    let t = chars_of(tag);
    let ghost tv = texts(tags@);
    proof {
        lemma_first_ci(tv, tag@);
    }
    let i = position_ci(&tags, &t);
    if i < tags.len() {
        assert(eq_ascii_ci(tv[i as int], tag@));
        assert(first_ci(tv, tag@) == i);
        tags.remove(i);
        assert(texts(tags@) == tv.remove(i as int));
    } else {
        assert(!has_ci(tv, tag@));
        tags.push(string_of(&t));
        assert(texts(tags@) == tv.push(tag@));
    }
    *text = join(&tags);
}

// ---------- reading the field back ----------

/// Tags that read back as themselves: each one clean (reading it alone gives it back), not
/// empty, without `,` or `;`, and no two equal but for ASCII case.
pub open spec fn tidy_tags(ts: Seq<Seq<char>>) -> bool {
    &&& forall|i: int| 0 <= i < ts.len() ==> clean_tag(#[trigger] ts[i]) == ts[i]
    &&& forall|i: int| 0 <= i < ts.len() ==> (#[trigger] ts[i]).len() > 0
    &&& forall|i: int| 0 <= i < ts.len() ==> free_of(Sep::TagList, #[trigger] ts[i])
    &&& forall|i: int, j: int| 0 <= i < ts.len() && 0 <= j < ts.len() && i != j
        ==> !eq_ascii_ci(#[trigger] ts[i], #[trigger] ts[j])
}

pub(crate) proof fn lemma_pieces_push(k: Sep, cur: Seq<char>, rest: Seq<char>, sep: char, x: Seq<char>)
    requires
        free_of(k, x),
        is_sep(k, sep),
    ensures
        pieces(k, -1, cur, rest + seq![sep] + x) == pieces(k, -1, cur, rest).push(x),
    decreases rest.len(),
{
    let e = Seq::<char>::empty();
    if rest.len() == 0 {
        assert(rest + seq![sep] + x == seq![sep] + x);
        assert((seq![sep] + x).drop_first() == x);
        lemma_pieces_free(k, e, x, e);
        assert(x + e == x);
        assert(e + x == x);
    } else {
        let all = rest + seq![sep] + x;
        assert(all[0] == rest[0]);
        assert(all.drop_first() == rest.drop_first() + seq![sep] + x);
        if is_sep(k, rest[0]) {
            lemma_pieces_push(k, e, rest.drop_first(), sep, x);
            assert(seq![cur] + pieces(k, -1, e, rest.drop_first()).push(x)
                == (seq![cur] + pieces(k, -1, e, rest.drop_first())).push(x));
        } else {
            lemma_pieces_push(k, cur.push(rest[0]), rest.drop_first(), sep, x);
        }
    }
}

proof fn lemma_trim_space(t: Seq<char>)
    ensures trim(seq![' '] + t) == trim(t),
{
    let s = seq![' '] + t;
    assert(s.drop_first() == t);
    assert(is_white(s[0]));
}

proof fn lemma_eq_ci_symmetric(a: Seq<char>, b: Seq<char>)
    ensures eq_ascii_ci(a, b) == eq_ascii_ci(b, a),
{
}

proof fn lemma_eq_ci_transitive(a: Seq<char>, b: Seq<char>, c: Seq<char>)
    requires eq_ascii_ci(a, b), eq_ascii_ci(b, c),
    ensures eq_ascii_ci(a, c),
{
    assert forall|i: int| 0 <= i < a.len() implies ascii_lower(#[trigger] a[i]) == ascii_lower(c[i]) by {
        assert(ascii_lower(a[i]) == ascii_lower(b[i]));
        assert(ascii_lower(b[i]) == ascii_lower(c[i]));
    }
}

/// Tags that read back as themselves, joined by ", ", are read back as those tags.
pub proof fn lemma_tags_round_trip(ts: Seq<Seq<char>>)
    requires tidy_tags(ts),
    ensures parse_tags_spec(join_tags(ts)) == ts,
    decreases ts.len(),
{
    let e = Seq::<char>::empty();
    if ts.len() == 0 {
        assert(split(Sep::TagList, e) == seq![e]);
        assert(seq![e].drop_last() == Seq::<Seq<char>>::empty());
        assert(clean_tag(e) == e);
        assert(tags_from(Seq::<Seq<char>>::empty()) == Seq::<Seq<char>>::empty());
        assert(seq![e].last() == e);
        assert(tags_from(seq![e]) == Seq::<Seq<char>>::empty());
        assert(ts == Seq::<Seq<char>>::empty());
        assert(join_tags(ts) == e);
    } else if ts.len() == 1 {
        let t = ts[0];
        assert(free_of(Sep::TagList, t));
        lemma_pieces_free(Sep::TagList, e, t, e);
        assert(t + e == t);
        assert(e + t == t);
        assert(split(Sep::TagList, t) == seq![t]);
        assert(seq![t].drop_last() == Seq::<Seq<char>>::empty());
        assert(tags_from(Seq::<Seq<char>>::empty()) == Seq::<Seq<char>>::empty());
        assert(!has_ci(Seq::<Seq<char>>::empty(), t));
        assert(Seq::<Seq<char>>::empty().push(t) == ts);
        assert(join_tags(ts) == t);
        assert(tags_from(seq![t]) == ts);
    } else {
        let init = ts.drop_last();
        let last = ts.last();
        assert(tidy_tags(init)) by {
            assert forall|i: int, j: int| 0 <= i < init.len() && 0 <= j < init.len() && i != j
                implies !eq_ascii_ci(#[trigger] init[i], #[trigger] init[j]) by {
                assert(init[i] == ts[i] && init[j] == ts[j]);
            }
            assert forall|i: int| 0 <= i < init.len() implies clean_tag(#[trigger] init[i]) == init[i] by {
                assert(init[i] == ts[i]);
            }
            assert forall|i: int| 0 <= i < init.len() implies (#[trigger] init[i]).len() > 0 by {
                assert(init[i] == ts[i]);
            }
            assert forall|i: int| 0 <= i < init.len() implies free_of(Sep::TagList, #[trigger] init[i]) by {
                assert(init[i] == ts[i]);
            }
        }
        lemma_tags_round_trip(init);
        let x = seq![' '] + last;
        assert(free_of(Sep::TagList, last));
        assert(free_of(Sep::TagList, x)) by {
            assert forall|i: int| 0 <= i < x.len() implies !is_sep(Sep::TagList, #[trigger] x[i]) by {
                if i > 0 {
                    assert(x[i] == last[i - 1]);
                }
            }
        }
        let j = join_tags(init);
        assert(join_tags(ts) == j + seq![','] + x);
        lemma_pieces_push(Sep::TagList, e, j, ',', x);
        let ps = split(Sep::TagList, join_tags(ts));
        assert(ps == split(Sep::TagList, j).push(x));
        assert(ps.drop_last() == split(Sep::TagList, j));
        assert(ps.last() == x);
        lemma_trim_space(last);
        assert(clean_tag(x) == clean_tag(last));
        assert(clean_tag(last) == last) by {
            assert(ts[ts.len() - 1] == last);
        }
        assert(!has_ci(init, last)) by {
            if has_ci(init, last) {
                let i = choose|i: int| 0 <= i < init.len() && eq_ascii_ci(#[trigger] init[i], last);
                assert(ts[i] == init[i]);
                assert(ts[ts.len() - 1] == last);
            }
        }
        assert(last.len() > 0) by {
            assert(ts[ts.len() - 1] == last);
        }
        assert(init.push(last) == ts);
        assert(tags_from(ps) == ts);
    }
}

proof fn lemma_tidy_toggled(ts: Seq<Seq<char>>, t: Seq<char>)
    requires
        tidy_tags(ts),
        clean_tag(t) == t,
        t.len() > 0,
        free_of(Sep::TagList, t),
    ensures
        tidy_tags(toggled(ts, t)),
        has_ci(toggled(ts, t), t) == !has_ci(ts, t),
{
    lemma_first_ci(ts, t);
    let f = first_ci(ts, t);
    let r = toggled(ts, t);
    if f >= 0 {
        assert(r == ts.remove(f));
        assert forall|i: int| 0 <= i < r.len() implies #[trigger] r[i] == ts[if i < f { i } else { i + 1 }] by {}
        assert forall|i: int, j: int| 0 <= i < r.len() && 0 <= j < r.len() && i != j
            implies !eq_ascii_ci(#[trigger] r[i], #[trigger] r[j]) by {
            let a = if i < f { i } else { i + 1 };
            let b = if j < f { j } else { j + 1 };
            assert(r[i] == ts[a] && r[j] == ts[b]);
        }
        assert forall|i: int| 0 <= i < r.len() implies clean_tag(#[trigger] r[i]) == r[i] by {
            let a = if i < f { i } else { i + 1 };
            assert(r[i] == ts[a]);
        }
        assert forall|i: int| 0 <= i < r.len() implies (#[trigger] r[i]).len() > 0 by {
            let a = if i < f { i } else { i + 1 };
            assert(r[i] == ts[a]);
        }
        assert forall|i: int| 0 <= i < r.len() implies free_of(Sep::TagList, #[trigger] r[i]) by {
            let a = if i < f { i } else { i + 1 };
            assert(r[i] == ts[a]);
        }
        assert(!has_ci(r, t)) by {
            if has_ci(r, t) {
                let i = choose|i: int| 0 <= i < r.len() && eq_ascii_ci(#[trigger] r[i], t);
                let a = if i < f { i } else { i + 1 };
                assert(r[i] == ts[a]);
                lemma_eq_ci_symmetric(ts[f], t);
                lemma_eq_ci_transitive(ts[a], t, ts[f]);
                assert(a != f);
            }
        }
    } else {
        assert(r == ts.push(t));
        assert forall|i: int, j: int| 0 <= i < r.len() && 0 <= j < r.len() && i != j
            implies !eq_ascii_ci(#[trigger] r[i], #[trigger] r[j]) by {
            if i == ts.len() {
                assert(r[j] == ts[j]);
                lemma_eq_ci_symmetric(t, ts[j]);
            } else if j == ts.len() {
                assert(r[i] == ts[i]);
            } else {
                assert(r[i] == ts[i] && r[j] == ts[j]);
            }
        }
        assert forall|i: int| 0 <= i < r.len() implies clean_tag(#[trigger] r[i]) == r[i] by {
            if i < ts.len() { assert(r[i] == ts[i]); }
        }
        assert forall|i: int| 0 <= i < r.len() implies (#[trigger] r[i]).len() > 0 by {
            if i < ts.len() { assert(r[i] == ts[i]); }
        }
        assert forall|i: int| 0 <= i < r.len() implies free_of(Sep::TagList, #[trigger] r[i]) by {
            if i < ts.len() { assert(r[i] == ts[i]); }
        }
        assert(r[ts.len() as int] == t);
        assert(eq_ascii_ci(t, t));
    }
}

/// A click on a tag pill adds the tag when it is missing and removes it otherwise: the field
/// then reads as its former tags with that tag toggled. Stated for fields whose tags read back
/// as themselves and for a tag that does (a tag the field shows as "#a" reads back as "a").
pub proof fn lemma_toggle_reads_back(text: Seq<char>, t: Seq<char>)
    requires
        tidy_tags(parse_tags_spec(text)),
        clean_tag(t) == t,
        t.len() > 0,
        free_of(Sep::TagList, t),
    ensures
        parse_tags_spec(join_tags(toggled(parse_tags_spec(text), t))) == toggled(parse_tags_spec(text), t),
        has_ci(parse_tags_spec(join_tags(toggled(parse_tags_spec(text), t))), t) == !has_ci(parse_tags_spec(text), t),
{
    lemma_tidy_toggled(parse_tags_spec(text), t);
    lemma_tags_round_trip(toggled(parse_tags_spec(text), t));
}

/// No character of the text is a `#`.
pub open spec fn hash_free(s: Seq<char>) -> bool {
    forall|i: int| 0 <= i < s.len() ==> s[i] != '#'
}

proof fn lemma_pieces_plain(k: Sep, cur: Seq<char>, rest: Seq<char>)
    requires
        hash_free(cur),
        free_of(k, cur),
        hash_free(rest),
    ensures
        forall|i: int| 0 <= i < pieces(k, -1, cur, rest).len() ==> hash_free(#[trigger] pieces(k, -1, cur, rest)[i])
            && free_of(k, pieces(k, -1, cur, rest)[i]),
    decreases rest.len(),
{
    let e = Seq::<char>::empty();
    if rest.len() > 0 {
        assert(hash_free(rest.drop_first())) by {
            assert forall|i: int| 0 <= i < rest.drop_first().len() implies rest.drop_first()[i] != '#' by {
                assert(rest.drop_first()[i] == rest[i + 1]);
            }
        }
        if is_sep(k, rest[0]) {
            lemma_pieces_plain(k, e, rest.drop_first());
            let tail = pieces(k, -1, e, rest.drop_first());
            assert(pieces(k, -1, cur, rest) == seq![cur] + tail);
            assert forall|i: int| 0 <= i < (seq![cur] + tail).len() implies hash_free(#[trigger] (seq![cur] + tail)[i])
                && free_of(k, (seq![cur] + tail)[i]) by {
                if i > 0 {
                    assert((seq![cur] + tail)[i] == tail[i - 1]);
                }
            }
        } else {
            let c2 = cur.push(rest[0]);
            assert(hash_free(c2)) by {
                assert forall|i: int| 0 <= i < c2.len() implies c2[i] != '#' by {
                    if i < cur.len() { assert(c2[i] == cur[i]); }
                }
            }
            assert(free_of(k, c2)) by {
                assert forall|i: int| 0 <= i < c2.len() implies !is_sep(k, #[trigger] c2[i]) by {
                    if i < cur.len() { assert(c2[i] == cur[i]); }
                }
            }
            lemma_pieces_plain(k, c2, rest.drop_first());
            assert(pieces(k, -1, cur, rest) == pieces(k, -1, c2, rest.drop_first()));
        }
    } else {
        assert(pieces(k, -1, cur, rest) == seq![cur]);
        assert(pieces(k, -1, cur, rest)[0] == cur);
    }
}

/// The tag a plain piece gives is clean, and keeps the piece's plainness.
proof fn lemma_clean_plain(p: Seq<char>)
    requires
        hash_free(p),
        free_of(Sep::TagList, p),
    ensures
        clean_tag(p) == trim(p),
        clean_tag(clean_tag(p)) == clean_tag(p),
        hash_free(clean_tag(p)),
        free_of(Sep::TagList, clean_tag(p)),
{
    lemma_trim_idempotent(p);
    let t = trim(p);
    let i = choose|i: int| 0 <= i && i + t.len() <= p.len() && #[trigger] p.subrange(i, i + t.len()) == t;
    assert forall|j: int| 0 <= j < t.len() implies t[j] != '#' && !is_sep(Sep::TagList, #[trigger] t[j]) by {
        assert(t[j] == p[i + j]);
    }
    assert(strip_hashes(t) == t);
    lemma_trim_idempotent(t);
}

proof fn lemma_tags_from_tidy(ps: Seq<Seq<char>>)
    requires
        forall|i: int| 0 <= i < ps.len() ==> hash_free(#[trigger] ps[i]) && free_of(Sep::TagList, ps[i]),
    ensures
        tidy_tags(tags_from(ps)),
    decreases ps.len(),
{
    if ps.len() > 0 {
        let init = ps.drop_last();
        assert forall|i: int| 0 <= i < init.len() implies hash_free(#[trigger] init[i]) && free_of(Sep::TagList, init[i]) by {
            assert(init[i] == ps[i]);
        }
        lemma_tags_from_tidy(init);
        let r = tags_from(init);
        let last = ps[ps.len() - 1];
        assert(ps.last() == last);
        lemma_clean_plain(last);
        let t = clean_tag(last);
        if t.len() > 0 && !has_ci(r, t) {
            let q = r.push(t);
            assert forall|i: int| 0 <= i < q.len() implies clean_tag(#[trigger] q[i]) == q[i] by {
                if i < r.len() { assert(q[i] == r[i]); }
            }
            assert forall|i: int| 0 <= i < q.len() implies (#[trigger] q[i]).len() > 0 by {
                if i < r.len() { assert(q[i] == r[i]); }
            }
            assert forall|i: int| 0 <= i < q.len() implies free_of(Sep::TagList, #[trigger] q[i]) by {
                if i < r.len() { assert(q[i] == r[i]); }
            }
            assert forall|i: int, j: int| 0 <= i < q.len() && 0 <= j < q.len() && i != j
                implies !eq_ascii_ci(#[trigger] q[i], #[trigger] q[j]) by {
                if i == r.len() {
                    assert(q[j] == r[j]);
                    lemma_eq_ci_symmetric(t, r[j]);
                } else if j == r.len() {
                    assert(q[i] == r[i]);
                } else {
                    assert(q[i] == r[i] && q[j] == r[j]);
                }
            }
        }
    }
}

/// A field without `#` reads as tags that read back as themselves.
pub proof fn lemma_tidy_without_hash(text: Seq<char>)
    requires hash_free(text),
    ensures tidy_tags(parse_tags_spec(text)),
{
    let e = Seq::<char>::empty();
    lemma_pieces_plain(Sep::TagList, e, text);
    lemma_tags_from_tidy(split(Sep::TagList, text));
}

/// A tag missing from a field without `#`, clicked twice, leaves the field with its tags as
/// they were, written back: the first click adds it at the end, the second removes it.
pub proof fn lemma_toggle_twice(text: Seq<char>, t: Seq<char>)
    requires
        hash_free(text),
        clean_tag(t) == t,
        t.len() > 0,
        free_of(Sep::TagList, t),
        !has_ci(parse_tags_spec(text), t),
    ensures ({
        let once = join_tags(toggled(parse_tags_spec(text), t));
        let twice = join_tags(toggled(parse_tags_spec(once), t));
        &&& has_ci(parse_tags_spec(once), t)
        &&& twice == join_tags(parse_tags_spec(text))
    }),
{
    let ts = parse_tags_spec(text);
    lemma_tidy_without_hash(text);
    lemma_toggle_reads_back(text, t);
    lemma_first_ci(ts, t);
    assert(toggled(ts, t) == ts.push(t));
    let q = ts.push(t);
    lemma_first_ci(q, t);
    assert(eq_ascii_ci(q[ts.len() as int], t));
    assert(first_ci(q, t) == ts.len()) by {
        let f = first_ci(q, t);
        if f < ts.len() {
            assert(q[f] == ts[f]);
        }
    }
    assert(q.remove(ts.len() as int) == ts);
}

// ---------- completion ----------

/// The text being completed: the whole field, or its last comma-separated segment when the
/// field holds several values; leading white space removed.
pub open spec fn segment(text: Seq<char>, multi: bool) -> Seq<char> {
    trim_start(if multi { split(Sep::Comma, text).last() } else { text })
}

/// The first candidate, from `i` on, whose lowercase form starts with `low` and is not `low`
/// itself (`strict`), or merely starts with it (`!strict`); -1 when there is none.
pub open spec fn first_match(cs: Seq<Seq<char>>, low: Seq<char>, strict: bool, i: int) -> int
    decreases cs.len() - i,
{
    if i < 0 || i >= cs.len() {
        -1
    } else if starts_with(lowercase(cs[i]), low) && (!strict || lowercase(cs[i]) != low) {
        i
    } else {
        first_match(cs, low, strict, i + 1)
    }
}

/// `s` without its first `n` characters; empty when it has fewer (`chars().skip(n)`).
pub open spec fn drop_chars(s: Seq<char>, n: nat) -> Seq<char> {
    if n <= s.len() { s.skip(n as int) } else { Seq::empty() }
}

/// The suffix that would complete the segment being typed with the first candidate that starts
/// the same way, whatever the case; `None` for an empty segment or no such candidate.
pub open spec fn completion_spec(text: Seq<char>, cs: Seq<Seq<char>>, multi: bool) -> Option<Seq<char>> {
    let seg = segment(text, multi);
    if seg.len() == 0 {
        None
    } else {
        let j = first_match(cs, lowercase(seg), true, 0);
        if j < 0 { None } else { Some(drop_chars(cs[j], seg.len())) }
    }
}

proof fn lemma_first_match_range(cs: Seq<Seq<char>>, low: Seq<char>, strict: bool, i: int)
    requires 0 <= i,
    ensures -1 <= first_match(cs, low, strict, i) < cs.len(),
        first_match(cs, low, strict, i) >= 0 ==> first_match(cs, low, strict, i) >= i,
    decreases cs.len() - i,
{
    if i < cs.len() {
        lemma_first_match_range(cs, low, strict, i + 1);
    }
}

fn find_match(cs: &Vec<String>, low: &Vec<char>, strict: bool) -> (r: Option<usize>)
    ensures
        match r {
            Some(i) => i < cs@.len() && i as int == first_match(texts(cs@), low@, strict, 0),
            None => first_match(texts(cs@), low@, strict, 0) == -1,
        },
{
    let ghost cv = texts(cs@);
    let mut i: usize = 0;
    while i < cs.len()
        invariant
            i <= cs@.len(),
            cv == texts(cs@),
            first_match(cv, low@, strict, 0) == first_match(cv, low@, strict, i as int),
        decreases cs@.len() - i,
    {
        let c = chars_of(cs[i].as_str());
        assert(c@ == cv[i as int]);
        let l = to_lowercase(&c);
        if has_prefix(&l, low) && (!strict || !same(&l, low)) {
            return Some(i);
        }
        i += 1;
    }
    None
}

fn segment_chars(text: &[char], multi: bool) -> (r: Vec<char>)
    ensures r@ == segment(text@, multi),
{
    if multi {
        let ps = split_chars(Sep::Comma, text);
        proof {
            lemma_pieces_nonempty(Sep::Comma, -1, Seq::empty(), text@);
        }
        let last = &ps[ps.len() - 1];
        assert(last@ == split(Sep::Comma, text@).last());
        trim_start_chars(last)
    } else {
        trim_start_chars(text)
    }
}

/// The suffix that would complete `text` (or its last comma-separated segment when `multi`)
/// with the first candidate that starts the same way, case insensitive.
pub fn completion(text: &str, candidates: &Vec<String>, multi: bool) -> (r: Option<String>)
    ensures
        match r {
            Some(s) => completion_spec(text@, texts(candidates@), multi) == Some(s@),
            None => completion_spec(text@, texts(candidates@), multi) is None,
        },
{
    let chars = chars_of(text);
    let seg = segment_chars(&chars, multi);
    if seg.len() == 0 {
        return None;
    }
    let low = to_lowercase(&seg);
    let ju = match find_match(candidates, &low, true) {
        Some(j) => j,
        None => {
            return None;
        }
    };
    let c = chars_of(candidates[ju].as_str());
    assert(texts(candidates@)[ju as int] == candidates@[ju as int]@);
    let n = if seg.len() <= c.len() { seg.len() } else { c.len() };
    let rest = slice_of(&c, n, c.len());
    assert(rest@ == drop_chars(c@, seg@.len()));
    Some(string_of(&rest))
}

/// What Tab does in a field with a completion on show: the segment being typed is replaced by
/// the candidate the suggestion comes from (the first one that starts the same way whatever
/// the case, without being equal to it), in its own spelling, and ", " follows in a field of
/// several values; nothing changes without a completion.
pub open spec fn accepted_spec(text: Seq<char>, cs: Seq<Seq<char>>, multi: bool) -> Seq<char> {
    if completion_spec(text, cs, multi) is None {
        text
    } else {
        let seg = segment(text, multi);
        let j = first_match(cs, lowercase(seg), true, 0);
        let base = if j >= 0 { text.take(text.len() - seg.len()) + cs[j] } else { text };
        if multi { base + seq![',', ' '] } else { base }
    }
}

/// The segment being typed ends the text.
proof fn lemma_segment_suffix(text: Seq<char>, multi: bool)
    ensures
        segment(text, multi).len() <= text.len(),
        text.take(text.len() - segment(text, multi).len()) + segment(text, multi) == text,
{
    let base = if multi { split(Sep::Comma, text).last() } else { text };
    lemma_trim_start_suffix(base);
    if multi {
        lemma_last_piece_suffix(Sep::Comma, -1, Seq::empty(), text);
        assert(Seq::<char>::empty() + text == text);
    }
    let seg = segment(text, multi);
    assert(text.skip(text.len() - seg.len()) == seg);
    assert(text.take(text.len() - seg.len()) + text.skip(text.len() - seg.len()) == text);
}

/// Tab in a field with a completion on show: the suggestion on show is accepted (see
/// `accepted_spec`).
pub fn accept_completion(text: &mut String, candidates: &Vec<String>, multi: bool)
    ensures final(text)@ == accepted_spec(old(text)@, texts(candidates@), multi),
{
    if completion(text.as_str(), candidates, multi).is_none() {
        return;
    }
    let chars = chars_of(text.as_str());
    let seg = segment_chars(&chars, multi);
    proof {
        lemma_segment_suffix(chars@, multi);
    }
    let low = to_lowercase(&seg);
    let found = find_match(candidates, &low, true);
    let base = if let Some(ju) = found {
        let c = chars_of(candidates[ju].as_str());
        assert(texts(candidates@)[ju as int] == candidates@[ju as int]@);
        let keep = slice_of(&chars, 0, chars.len() - seg.len());
        concat(&keep, &c)
    } else {
        slice_of(&chars, 0, chars.len())
    };
    let r = if multi { concat(&base, &[',', ' ']) } else { base };
    *text = string_of(&r);
}

} // verus!
