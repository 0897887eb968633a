//! Characters and strings: the handful of `str` operations that the rest of the library
//! builds on, each stated over `Seq<char>`.
use vstd::prelude::*;

verus! {

/// The characters of a string slice, in order.
pub fn chars_of(s: &str) -> (v: Vec<char>)
    ensures v@ == s@,
{
    let mut v: Vec<char> = Vec::new();
    for c in it: s.chars()
        invariant
            v@ == it.seq().take(it.index() as int),
            it.seq() == s@,
    {
        v.push(c);
    }
    v
}

/// Appends one character to a string (`String::push`).
#[verifier::external_body]
pub(crate) fn push_char(s: &mut String, c: char)
    ensures
        final(s)@ == old(s)@.push(c),
{
    s.push(c);
}

/// The string made of these characters.
pub fn string_of(v: &[char]) -> (s: String)
    ensures s@ == v@,
{
    let mut s = String::new();
    let mut i: usize = 0;
    while i < v.len()
        invariant
            i <= v@.len(),
            s@ == v@.take(i as int),
        decreases v@.len() - i,
    {
        push_char(&mut s, v[i]);
        i += 1;
        assert(v@.take(i as int) == v@.take(i - 1).push(v@[i - 1]));
    }
    assert(v@.take(v@.len() as int) == v@);
    s
}

/// The characters from `lo` up to `hi`.
pub fn slice_of(v: &[char], lo: usize, hi: usize) -> (r: Vec<char>)
    requires lo <= hi <= v@.len(),
    ensures r@ == v@.subrange(lo as int, hi as int),
{
    let mut r: Vec<char> = Vec::new();
    let mut i = lo;
    while i < hi
        invariant
            lo <= i <= hi <= v@.len(),
            r@ == v@.subrange(lo as int, i as int),
        decreases hi - i,
    {
        r.push(v[i]);
        i += 1;
    }
    r
}

/// `a` followed by `b`.
pub fn concat(a: &[char], b: &[char]) -> (r: Vec<char>)
    ensures r@ == a@ + b@,
{
    let mut r: Vec<char> = Vec::new();
    let mut i: usize = 0;
    while i < a.len()
        invariant
            i <= a@.len(),
            r@ == a@.take(i as int),
        decreases a@.len() - i,
    {
        r.push(a[i]);
        i += 1;
    }
    let mut j: usize = 0;
    while j < b.len()
        invariant
            j <= b@.len(),
            i == a@.len(),
            r@ == a@ + b@.take(j as int),
        decreases b@.len() - j,
    {
        r.push(b[j]);
        j += 1;
    }
    assert(a@.take(a@.len() as int) == a@);
    assert(b@.take(b@.len() as int) == b@);
    r
}

/// The two strings one after the other.
pub fn cat(a: &str, b: &str) -> (r: String)
    ensures r@ == a@ + b@,
{
    string_of(&concat(&chars_of(a), &chars_of(b)))
}

/// Whether two character sequences are equal.
pub fn same(a: &[char], b: &[char]) -> (r: bool)
    ensures r == (a@ == b@),
{
    if a.len() != b.len() {
        return false;
    }
    let mut i: usize = 0;
    while i < a.len()
        invariant
            i <= a@.len() == b@.len(),
            forall|k: int| 0 <= k < i ==> a@[k] == b@[k],
        decreases a@.len() - i,
    {
        if a[i] != b[i] {
            return false;
        }
        i += 1;
    }
    assert(a@ == b@);
    true
}

// ---------- white space ----------

/// Unicode's White_Space property, which `char::is_whitespace` tests.
pub open spec fn is_white(c: char) -> bool {
    let u = c as u32;
    (0x09 <= u <= 0x0D) || u == 0x20 || u == 0x85 || u == 0xA0 || u == 0x1680
        || (0x2000 <= u <= 0x200A) || u == 0x2028 || u == 0x2029 || u == 0x202F
        || u == 0x205F || u == 0x3000
}

/// Tests `is_white`.
pub fn is_whitespace(c: char) -> (r: bool)
    ensures r == is_white(c),
{
    let u = c as u32;
    (0x09 <= u && u <= 0x0D) || u == 0x20 || u == 0x85 || u == 0xA0 || u == 0x1680
        || (0x2000 <= u && u <= 0x200A) || u == 0x2028 || u == 0x2029 || u == 0x202F
        || u == 0x205F || u == 0x3000
}

/// Leading white space removed (`str::trim_start`).
pub open spec fn trim_start(s: Seq<char>) -> Seq<char>
    decreases s.len(),
{
    if s.len() > 0 && is_white(s[0]) {
        trim_start(s.drop_first())
    } else {
        s
    }
}

/// Trailing white space removed (`str::trim_end`).
pub open spec fn trim_end(s: Seq<char>) -> Seq<char>
    decreases s.len(),
{
    if s.len() > 0 && is_white(s.last()) {
        trim_end(s.drop_last())
    } else {
        s
    }
}

/// White space removed at both ends (`str::trim`).
pub open spec fn trim(s: Seq<char>) -> Seq<char> {
    trim_end(trim_start(s))
}

proof fn lemma_trim_start_skip(s: Seq<char>, i: int)
    requires
        0 <= i <= s.len(),
        forall|k: int| 0 <= k < i ==> is_white(#[trigger] s[k]),
    ensures
        trim_start(s) == trim_start(s.skip(i)),
    decreases i,
{
    if i > 0 {
        assert(s.skip(1) == s.drop_first());
        lemma_trim_start_skip(s.drop_first(), i - 1);
        assert(s.drop_first().skip(i - 1) == s.skip(i));
    } else {
        assert(s.skip(0) == s);
    }
}

proof fn lemma_trim_end_take(s: Seq<char>, j: int)
    requires
        0 <= j <= s.len(),
        forall|k: int| j <= k < s.len() ==> is_white(#[trigger] s[k]),
    ensures
        trim_end(s) == trim_end(s.take(j)),
    decreases s.len() - j,
{
    if j < s.len() {
        assert(s.take(s.len() - 1) == s.drop_last());
        lemma_trim_end_take(s.drop_last(), j);
        assert(s.drop_last().take(j) == s.take(j));
    } else {
        assert(s.take(j) == s);
    }
}

/// `trim_start`, computed.
pub fn trim_start_chars(s: &[char]) -> (r: Vec<char>)
    ensures r@ == trim_start(s@),
{
    let mut i: usize = 0;
    while i < s.len() && is_whitespace(s[i])
        invariant
            i <= s@.len(),
            forall|k: int| 0 <= k < i ==> is_white(#[trigger] s@[k]),
        decreases s@.len() - i,
    {
        i += 1;
    }
    proof {
        lemma_trim_start_skip(s@, i as int);
        let t = s@.skip(i as int);
        assert(t.len() == 0 || !is_white(t[0]));
    }
    slice_of(s, i, s.len())
}

/// `trim_end`, computed.
pub fn trim_end_chars(s: &[char]) -> (r: Vec<char>)
    ensures r@ == trim_end(s@),
{
    let mut j: usize = s.len();
    while j > 0 && is_whitespace(s[j - 1])
        invariant
            j <= s@.len(),
            forall|k: int| j <= k < s@.len() ==> is_white(#[trigger] s@[k]),
        decreases j,
    {
        j -= 1;
    }
    proof {
        lemma_trim_end_take(s@, j as int);
        let t = s@.take(j as int);
        assert(t.len() == 0 || !is_white(t.last()));
    }
    slice_of(s, 0, j)
}

/// `trim`, computed.
pub fn trim_chars(s: &[char]) -> (r: Vec<char>)
    ensures r@ == trim(s@),
{
    let a = trim_start_chars(s);
    trim_end_chars(&a)
}

/// `str::trim` on a string.
pub fn trimmed(s: &str) -> (r: String)
    ensures r@ == trim(s@),
{
    let v = chars_of(s);
    let t = trim_chars(&v);
    string_of(&t)
}

// ---------- splitting ----------

/// The separators that the library splits text on.
#[derive(Clone, Copy, PartialEq, Eq, Structural, Debug)]
pub enum Sep {
    /// `/`, `-` or `.`, between the fields of a date.
    DateField,
    /// `,` or `;`, between tags.
    TagList,
    /// `,` alone.
    Comma,
    /// `+`, between the parts of a shortcut.
    Plus,
    /// White space, `<`, `>` or `"`, around a link in notes.
    LinkBreak,
    /// A tab, between the fields of a line of the old list format.
    Tab,
    /// A line feed.
    Newline,
    /// White space.
    White,
}

/// Whether `c` is one of the separators of kind `k`.
pub open spec fn is_sep(k: Sep, c: char) -> bool {
    match k {
        Sep::DateField => c == '/' || c == '-' || c == '.',
        Sep::TagList => c == ',' || c == ';',
        Sep::Comma => c == ',',
        Sep::Plus => c == '+',
        Sep::LinkBreak => is_white(c) || c == '<' || c == '>' || c == '"',
        Sep::Tab => c == '\t',
        Sep::Newline => c == '\n',
        Sep::White => is_white(c),
    }
}

/// Tests `is_sep`.
pub fn is_separator(k: Sep, c: char) -> (r: bool)
    ensures r == is_sep(k, c),
{
    match k {
        Sep::DateField => c == '/' || c == '-' || c == '.',
        Sep::TagList => c == ',' || c == ';',
        Sep::Comma => c == ',',
        Sep::Plus => c == '+',
        Sep::LinkBreak => is_whitespace(c) || c == '<' || c == '>' || c == '"',
        Sep::Tab => c == '\t',
        Sep::Newline => c == '\n',
        Sep::White => is_whitespace(c),
    }
}

/// The pieces between separators, `cur` being the piece begun so far and `rest` what is left;
/// at most `limit` more cuts when `limit` is not negative (negative: no limit).
pub open spec fn pieces(k: Sep, limit: int, cur: Seq<char>, rest: Seq<char>) -> Seq<Seq<char>>
    decreases rest.len(),
{
    if rest.len() == 0 {
        seq![cur]
    } else if limit != 0 && is_sep(k, rest[0]) {
        seq![cur] + pieces(k, if limit > 0 { limit - 1 } else { limit }, Seq::empty(), rest.drop_first())
    } else {
        pieces(k, limit, cur.push(rest[0]), rest.drop_first())
    }
}

/// `str::split` on the separators of kind `k`: empty pieces kept, at least one piece.
pub open spec fn split(k: Sep, s: Seq<char>) -> Seq<Seq<char>> {
    pieces(k, -1, Seq::empty(), s)
}

/// `str::splitn(n, ..)`: at most `n` pieces, the last one holding the rest.
pub open spec fn splitn(k: Sep, n: nat, s: Seq<char>) -> Seq<Seq<char>> {
    pieces(k, n - 1, Seq::empty(), s)
}

pub proof fn lemma_pieces_nonempty(k: Sep, limit: int, cur: Seq<char>, rest: Seq<char>)
    ensures pieces(k, limit, cur, rest).len() >= 1,
    decreases rest.len(),
{
    if rest.len() > 0 {
        if limit != 0 && is_sep(k, rest[0]) {
            lemma_pieces_nonempty(k, if limit > 0 { limit - 1 } else { limit }, Seq::empty(), rest.drop_first());
        } else {
            lemma_pieces_nonempty(k, limit, cur.push(rest[0]), rest.drop_first());
        }
    }
}

/// Cuts `s` on the separators of kind `k`, at most `limit` times when `limit` is not negative.
pub fn split_limited(k: Sep, limit: i64, s: &[char]) -> (r: Vec<Vec<char>>)
    requires limit >= -1,
    ensures r@.map_values(|p: Vec<char>| p@) == pieces(k, limit as int, Seq::empty(), s@),
{
    let mut out: Vec<Vec<char>> = Vec::new();
    let mut cur: Vec<char> = Vec::new();
    let mut left: i64 = limit;
    let mut i: usize = 0;
    proof {
        assert(s@.skip(0) == s@);
        assert(out@.map_values(|p: Vec<char>| p@) + pieces(k, left as int, cur@, s@.skip(0))
            == pieces(k, limit as int, Seq::empty(), s@));
    }
    while i < s.len()
        invariant
            i <= s@.len(),
            -1 <= left <= limit,
            out@.map_values(|p: Vec<char>| p@) + pieces(k, left as int, cur@, s@.skip(i as int))
                == pieces(k, limit as int, Seq::empty(), s@),
        decreases s@.len() - i,
    {
        let c = s[i];
        let ghost rest = s@.skip(i as int);
        assert(rest[0] == c);
        assert(rest.drop_first() == s@.skip(i + 1));
        if left != 0 && is_separator(k, c) {
            let piece = cur;
            cur = Vec::new();
            let ghost before = out@.map_values(|p: Vec<char>| p@);
            out.push(piece);
            assert(out@.map_values(|p: Vec<char>| p@) == before.push(piece@));
            if left > 0 {
                left = left - 1;
            }
            proof {
                assert(before.push(piece@) + pieces(k, left as int, Seq::empty(), s@.skip(i + 1))
                    == before + (seq![piece@] + pieces(k, left as int, Seq::empty(), s@.skip(i + 1))));
            }
        } else {
            cur.push(c);
        }
        i += 1;
    }
    let ghost before = out@.map_values(|p: Vec<char>| p@);
    out.push(cur);
    proof {
        assert(s@.skip(s@.len() as int).len() == 0);
        assert(out@.map_values(|p: Vec<char>| p@) == before.push(cur@));
    }
    out
}

/// `str::split` on the separators of kind `k`.
pub fn split_chars(k: Sep, s: &[char]) -> (r: Vec<Vec<char>>)
    ensures r@.map_values(|p: Vec<char>| p@) == split(k, s@),
{
    split_limited(k, -1, s)
}

// ---------- numbers ----------

/// Whether `c` is an ASCII digit.
pub open spec fn is_digit(c: char) -> bool {
    '0' <= c <= '9'
}

/// The value of a string of decimal digits.
pub open spec fn digits_value(s: Seq<char>) -> nat
    decreases s.len(),
{
    if s.len() == 0 {
        0
    } else {
        digits_value(s.drop_last()) * 10 + ((s.last() as int - '0' as int) as nat)
    }
}

/// Every character is an ASCII digit.
pub open spec fn all_digits(d: Seq<char>) -> bool {
    forall|i: int| 0 <= i < d.len() ==> is_digit(#[trigger] d[i])
}

/// The text after an optional leading `+`.
pub open spec fn unsigned_digits(s: Seq<char>) -> Seq<char> {
    if s.len() > 0 && s[0] == '+' { s.drop_first() } else { s }
}

/// What `str::parse::<u32>` gives: an optional `+`, then one or more digits whose value fits.
pub open spec fn parse_u32_spec(s: Seq<char>) -> Option<u32> {
    let d = unsigned_digits(s);
    if d.len() > 0 && all_digits(d) && digits_value(d) <= u32::MAX {
        Some(digits_value(d) as u32)
    } else {
        None
    }
}

/// `str::parse::<u32>`, computed.
pub fn parse_u32(s: &[char]) -> (r: Option<u32>)
    ensures r == parse_u32_spec(s@),
{
    let start: usize = if s.len() > 0 && s[0] == '+' { 1 } else { 0 };
    let ghost d = unsigned_digits(s@);
    assert(d == s@.skip(start as int));
    if start >= s.len() {
        return None;
    }
    let mut acc: u64 = 0;
    let mut i: usize = start;
    while i < s.len()
        invariant
            start <= i <= s@.len(),
            d == unsigned_digits(s@),
            d == s@.skip(start as int),
            forall|k: int| 0 <= k < i - start ==> is_digit(#[trigger] d[k]),
            acc == digits_value(d.take(i - start)),
            acc <= u32::MAX,
        decreases s@.len() - i,
    {
        let c = s[i];
        if !('0' <= c && c <= '9') {
            assert(!is_digit(d[i - start]));
            assert(!all_digits(d));
            return None;
        }
        let v = (c as u64) - ('0' as u64);
        assert(d.take(i + 1 - start).drop_last() == d.take(i - start));
        if acc > (u32::MAX as u64 - v) / 10 {
            proof {
                assert(digits_value(d.take(i + 1 - start)) > u32::MAX);
                if all_digits(d) {
                    lemma_digits_value_prefix_le(d, i + 1 - start);
                }
            }
            return None;
        }
        acc = acc * 10 + v;
        i += 1;
    }
    assert(d.take(i - start) == d);
    Some(acc as u32)
}

/// A longer prefix of digits never has a smaller value.
proof fn lemma_digits_value_prefix_le(d: Seq<char>, n: int)
    requires
        0 <= n <= d.len(),
        forall|k: int| 0 <= k < d.len() ==> is_digit(#[trigger] d[k]),
    ensures
        digits_value(d.take(n)) <= digits_value(d),
    decreases d.len() - n,
{
    if n < d.len() {
        lemma_digits_value_prefix_le(d, n + 1);
        assert(d.take(n + 1).drop_last() == d.take(n));
    } else {
        assert(d.take(n) == d);
    }
}

/// The digit character of `n`, below ten.
pub open spec fn digit_char(n: nat) -> char {
    if n == 0 { '0' } else if n == 1 { '1' } else if n == 2 { '2' } else if n == 3 { '3' }
    else if n == 4 { '4' } else if n == 5 { '5' } else if n == 6 { '6' } else if n == 7 { '7' }
    else if n == 8 { '8' } else { '9' }
}

/// The decimal writing of `n`, without leading zeros (`{}` of an unsigned integer).
pub open spec fn decimal(n: nat) -> Seq<char>
    decreases n,
{
    if n < 10 {
        seq![digit_char(n)]
    } else {
        decimal(n / 10).push(digit_char(n % 10))
    }
}

/// `n` zeros.
pub open spec fn zeros(n: nat) -> Seq<char>
    decreases n,
{
    if n == 0 { Seq::empty() } else { zeros((n - 1) as nat).push('0') }
}

/// `s` with zeros in front up to `width` characters (`{:0width$}`).
pub open spec fn zero_padded(s: Seq<char>, width: nat) -> Seq<char> {
    if s.len() >= width {
        s
    } else {
        zeros((width - s.len()) as nat) + s
    }
}

fn digit_of(n: u64) -> (c: char)
    requires n < 10,
    ensures c == digit_char(n as nat),
{
    if n == 0 { '0' } else if n == 1 { '1' } else if n == 2 { '2' } else if n == 3 { '3' }
    else if n == 4 { '4' } else if n == 5 { '5' } else if n == 6 { '6' } else if n == 7 { '7' }
    else if n == 8 { '8' } else { '9' }
}

/// Appends the decimal writing of `n`.
pub fn push_decimal(out: &mut Vec<char>, n: u64)
    ensures
        final(out)@ == old(out)@ + decimal(n as nat),
    decreases n,
{
    if n >= 10 {
        push_decimal(out, n / 10);
    }
    out.push(digit_of(n % 10));
    proof {
        if n >= 10 {
            assert(old(out)@ + decimal(n as nat) == old(out)@ + decimal((n / 10) as nat) + seq![digit_char((n % 10) as nat)]);
        }
    }
}

proof fn lemma_decimal_len(n: nat)
    ensures
        decimal(n).len() >= 1,
        n < 10 <==> decimal(n).len() == 1,
        n < 100 ==> decimal(n).len() <= 2,
    decreases n,
{
    if n >= 10 {
        lemma_decimal_len(n / 10);
    }
}

/// Appends the decimal writing of `n` with zeros in front up to `width` characters.
pub fn push_padded(out: &mut Vec<char>, n: u64, width: usize)
    ensures
        final(out)@ == old(out)@ + zero_padded(decimal(n as nat), width as nat),
{
    let mut digits: Vec<char> = Vec::new();
    push_decimal(&mut digits, n);
    assert(digits@ == decimal(n as nat));
    let ghost start = out@;
    if digits.len() < width {
        let mut k: usize = 0;
        let pad = width - digits.len();
        while k < pad
            invariant
                k <= pad,
                out@ == start + zeros(k as nat),
            decreases pad - k,
        {
            out.push('0');
            k += 1;
        }
    }
    let ghost mid = out@;
    let mut j: usize = 0;
    while j < digits.len()
        invariant
            j <= digits@.len(),
            out@ == mid + digits@.take(j as int),
        decreases digits@.len() - j,
    {
        out.push(digits[j]);
        j += 1;
    }
    assert(digits@.take(digits@.len() as int) == digits@);
}

// ---------- ASCII letters ----------

/// The character with an ASCII capital turned into a small letter (`char::to_ascii_lowercase`).
pub open spec fn ascii_lower(c: char) -> char {
    if 'A' <= c <= 'Z' { ((c as u32) + 32) as char } else { c }
}

/// The character with an ASCII small letter turned into a capital (`char::to_ascii_uppercase`).
pub open spec fn ascii_upper(c: char) -> char {
    if 'a' <= c <= 'z' { ((c as u32) - 32) as char } else { c }
}

/// Computes `ascii_lower`.
pub fn to_ascii_lower(c: char) -> (r: char)
    ensures r == ascii_lower(c),
{
    if 'A' <= c && c <= 'Z' { ((c as u8) + 32) as char } else { c }
}

/// Computes `ascii_upper`.
pub fn to_ascii_upper(c: char) -> (r: char)
    ensures r == ascii_upper(c),
{
    if 'a' <= c && c <= 'z' { ((c as u8) - 32) as char } else { c }
}

/// Equal but for the case of ASCII letters (`str::eq_ignore_ascii_case`).
pub open spec fn eq_ascii_ci(a: Seq<char>, b: Seq<char>) -> bool {
    a.len() == b.len() && forall|i: int| 0 <= i < a.len() ==> ascii_lower(#[trigger] a[i]) == ascii_lower(b[i])
}

/// Computes `eq_ascii_ci`.
pub fn eq_ignore_ascii_case(a: &[char], b: &[char]) -> (r: bool)
    ensures r == eq_ascii_ci(a@, b@),
{
    if a.len() != b.len() {
        return false;
    }
    let mut i: usize = 0;
    while i < a.len()
        invariant
            i <= a@.len() == b@.len(),
            forall|k: int| 0 <= k < i ==> ascii_lower(#[trigger] a@[k]) == ascii_lower(b@[k]),
        decreases a@.len() - i,
    {
        if to_ascii_lower(a[i]) != to_ascii_lower(b[i]) {
            return false;
        }
        i += 1;
    }
    true
}

/// Every character through `ascii_lower`.
pub open spec fn ascii_lowercase(s: Seq<char>) -> Seq<char> {
    s.map_values(|c: char| ascii_lower(c))
}

/// Every character through `ascii_upper`.
pub open spec fn ascii_uppercase(s: Seq<char>) -> Seq<char> {
    s.map_values(|c: char| ascii_upper(c))
}

/// `str::to_ascii_lowercase`, computed.
pub fn ascii_lowercase_chars(s: &[char]) -> (r: Vec<char>)
    ensures r@ == ascii_lowercase(s@),
{
    let mut r: Vec<char> = Vec::new();
    let mut i: usize = 0;
    while i < s.len()
        invariant
            i <= s@.len(),
            r@ == ascii_lowercase(s@.take(i as int)),
        decreases s@.len() - i,
    {
        r.push(to_ascii_lower(s[i]));
        i += 1;
        assert(ascii_lowercase(s@.take(i as int)) == ascii_lowercase(s@.take(i - 1)).push(ascii_lower(s@[i - 1])));
    }
    assert(s@.take(s@.len() as int) == s@);
    r
}

/// `str::to_ascii_uppercase`, computed.
pub fn ascii_uppercase_chars(s: &[char]) -> (r: Vec<char>)
    ensures r@ == ascii_uppercase(s@),
{
    let mut r: Vec<char> = Vec::new();
    let mut i: usize = 0;
    while i < s.len()
        invariant
            i <= s@.len(),
            r@ == ascii_uppercase(s@.take(i as int)),
        decreases s@.len() - i,
    {
        r.push(to_ascii_upper(s[i]));
        i += 1;
        assert(ascii_uppercase(s@.take(i as int)) == ascii_uppercase(s@.take(i - 1)).push(ascii_upper(s@[i - 1])));
    }
    assert(s@.take(s@.len() as int) == s@);
    r
}

// ---------- prefixes and substrings ----------

/// `p` starts `s` (`str::starts_with`).
pub open spec fn starts_with(s: Seq<char>, p: Seq<char>) -> bool {
    p.len() <= s.len() && s.take(p.len() as int) == p
}

/// Computes `starts_with`.
pub fn has_prefix(s: &[char], p: &[char]) -> (r: bool)
    ensures r == starts_with(s@, p@),
{
    if p.len() > s.len() {
        return false;
    }
    let mut i: usize = 0;
    while i < p.len()
        invariant
            i <= p@.len() <= s@.len(),
            forall|k: int| 0 <= k < i ==> s@[k] == p@[k],
        decreases p@.len() - i,
    {
        if s[i] != p[i] {
            assert(s@.take(p@.len() as int)[i as int] != p@[i as int]);
            return false;
        }
        i += 1;
    }
    assert(s@.take(p@.len() as int) == p@);
    true
}

/// `t` occurs somewhere in `s` (`str::contains`); the empty string occurs everywhere.
pub open spec fn contains_seq(s: Seq<char>, t: Seq<char>) -> bool {
    exists|i: int| 0 <= i <= s.len() - t.len() && #[trigger] s.subrange(i, i + t.len()) == t
}

/// Computes `contains_seq`.
pub fn contains_chars(s: &[char], t: &[char]) -> (r: bool)
    ensures r == contains_seq(s@, t@),
{
    if t.len() > s.len() {
        return false;
    }
    let tl = t.len();
    let sl = s.len();
    let last = sl - tl;
    let mut i: usize = 0;
    loop
        invariant
            tl == t@.len(),
            sl == s@.len(),
            t@.len() <= s@.len(),
            last == s@.len() - t@.len(),
            i <= last,
            forall|k: int| 0 <= k < i ==> #[trigger] s@.subrange(k, k + t@.len()) != t@,
        decreases last - i,
    {
        let w = slice_of(s, i, i + tl);
        if same(&w, t) {
            return true;
        }
        if i == last {
            return false;
        }
        i += 1;
    }
}

// ---------- Unicode case ----------

/// What `str::to_lowercase` gives for a string (Unicode's lowercase mapping).
pub uninterp spec fn lowercase(s: Seq<char>) -> Seq<char>;

/// What `str::to_uppercase` gives for a string (Unicode's uppercase mapping).
pub uninterp spec fn uppercase(s: Seq<char>) -> Seq<char>;

/// `str::to_lowercase`. Its result is only named: the Unicode tables it follows are not
/// restated here.
#[verifier::external_body]
pub(crate) fn to_lowercase(s: &[char]) -> (r: Vec<char>)
    ensures r@ == lowercase(s@),
{
    s.iter().collect::<String>().to_lowercase().chars().collect()
}

/// `str::to_uppercase`. Its result is only named: the Unicode tables it follows are not
/// restated here.
#[verifier::external_body]
pub(crate) fn to_uppercase(s: &[char]) -> (r: Vec<char>)
    ensures r@ == uppercase(s@),
{
    s.iter().collect::<String>().to_uppercase().chars().collect()
}

// ---------- facts about the pieces above ----------

/// No character of `x` is a separator of kind `k`.
pub open spec fn free_of(k: Sep, x: Seq<char>) -> bool {
    forall|i: int| 0 <= i < x.len() ==> !is_sep(k, #[trigger] x[i])
}

/// Splitting carries a piece free of separators into the piece begun so far.
pub proof fn lemma_pieces_free(k: Sep, cur: Seq<char>, x: Seq<char>, rest: Seq<char>)
    requires free_of(k, x),
    ensures pieces(k, -1, cur, x + rest) == pieces(k, -1, cur + x, rest),
    decreases x.len(),
{
    if x.len() > 0 {
        assert((x + rest)[0] == x[0]);
        assert((x + rest).drop_first() == x.drop_first() + rest);
        assert(free_of(k, x.drop_first()));
        lemma_pieces_free(k, cur.push(x[0]), x.drop_first(), rest);
        assert(cur.push(x[0]) + x.drop_first() == cur + x);
    } else {
        assert(x + rest == rest);
        assert(cur + x == cur);
    }
}

/// Three pieces free of separators, joined by two separators, split back into those three.
pub proof fn lemma_split_three(k: Sep, a: Seq<char>, s1: char, b: Seq<char>, s2: char, c: Seq<char>)
    requires
        free_of(k, a),
        free_of(k, b),
        free_of(k, c),
        is_sep(k, s1),
        is_sep(k, s2),
    ensures
        split(k, a + seq![s1] + b + seq![s2] + c) == seq![a, b, c],
{
    let e = Seq::<char>::empty();
    let t1 = seq![s1] + b + seq![s2] + c;
    let t2 = seq![s2] + c;
    assert(a + seq![s1] + b + seq![s2] + c == a + t1);
    lemma_pieces_free(k, e, a, t1);
    assert(e + a == a);
    assert(t1.drop_first() == b + t2);
    lemma_pieces_free(k, e, b, t2);
    assert(e + b == b);
    assert(t2.drop_first() == c);
    lemma_pieces_free(k, e, c, Seq::empty());
    assert(c + Seq::<char>::empty() == c);
    assert(e + c == c);
}

/// Digits hold no white space and no date separator.
pub proof fn lemma_digits_plain(x: Seq<char>)
    requires all_digits(x),
    ensures
        free_of(Sep::DateField, x),
        trim(x) == x,
{
    if x.len() > 0 {
        assert(is_digit(x[0]));
        assert(is_digit(x.last()));
    }
    assert(trim_start(x) == x);
}

proof fn lemma_digit_char(k: nat)
    requires k < 10,
    ensures
        is_digit(digit_char(k)),
        digit_char(k) as int - '0' as int == k,
{
}

/// The decimal writing of a number is made of digits and reads back as that number.
pub proof fn lemma_decimal_digits(n: nat)
    ensures
        all_digits(decimal(n)),
        digits_value(decimal(n)) == n,
        decimal(n).len() >= 1,
    decreases n,
{
    let d = decimal(n);
    if n >= 10 {
        lemma_decimal_digits(n / 10);
        lemma_digit_char(n % 10);
        assert(d.drop_last() == decimal(n / 10));
        assert(d.last() == digit_char(n % 10));
        assert(digits_value(d) == digits_value(d.drop_last()) * 10 + ((d.last() as int - '0' as int) as nat));
        assert(digits_value(d) == (n / 10) * 10 + n % 10);
        assert forall|i: int| 0 <= i < d.len() implies is_digit(#[trigger] d[i]) by {
            if i < d.len() - 1 {
                assert(d[i] == decimal(n / 10)[i]);
            }
        }
    } else {
        lemma_digit_char(n);
        assert(d.drop_last() == Seq::<char>::empty());
        assert(digits_value(d) == digits_value(d.drop_last()) * 10 + ((d.last() as int - '0' as int) as nat));
    }
}

proof fn lemma_zeros_all_digits(k: nat)
    ensures all_digits(zeros(k)), zeros(k).len() == k, digits_value(zeros(k)) == 0,
    decreases k,
{
    if k > 0 {
        lemma_zeros_all_digits((k - 1) as nat);
        let z = zeros(k);
        assert(z.drop_last() == zeros((k - 1) as nat));
        assert forall|i: int| 0 <= i < z.len() implies is_digit(#[trigger] z[i]) by {
            if i < z.len() - 1 {
                assert(z[i] == zeros((k - 1) as nat)[i]);
            }
        }
    }
}

proof fn lemma_zeros_digits(k: nat, s: Seq<char>)
    requires all_digits(s),
    ensures
        all_digits(zeros(k) + s),
        digits_value(zeros(k) + s) == digits_value(s),
        (zeros(k) + s).len() == k + s.len(),
    decreases k + s.len(),
{
    lemma_zeros_all_digits(k);
    let t = zeros(k) + s;
    assert forall|i: int| 0 <= i < t.len() implies is_digit(#[trigger] t[i]) by {
        if i < k {
            assert(t[i] == zeros(k)[i]);
        } else {
            assert(t[i] == s[i - k]);
        }
    }
    if s.len() > 0 {
        lemma_zeros_digits(k, s.drop_last());
        assert((zeros(k) + s).drop_last() == zeros(k) + s.drop_last());
        assert((zeros(k) + s).last() == s.last());
    } else if k > 0 {
        lemma_zeros_digits((k - 1) as nat, s);
        assert(zeros(k) + s == zeros(k));
        assert(zeros((k - 1) as nat) + s == zeros((k - 1) as nat));
        assert(zeros(k).drop_last() == zeros((k - 1) as nat));
    } else {
        assert(zeros(k) + s == s);
    }
}

/// A number written with zeros in front is made of digits, holds no separator or white space,
/// and reads back as that number.
pub proof fn lemma_padded_reads_back(n: nat, w: nat)
    requires n <= u32::MAX,
    ensures
        all_digits(zero_padded(decimal(n), w)),
        free_of(Sep::DateField, zero_padded(decimal(n), w)),
        trim(zero_padded(decimal(n), w)) == zero_padded(decimal(n), w),
        parse_u32_spec(zero_padded(decimal(n), w)) == Some(n as u32),
{
    lemma_decimal_digits(n);
    let d = decimal(n);
    if d.len() < w {
        lemma_zeros_digits((w - d.len()) as nat, d);
    }
    let p = zero_padded(d, w);
    lemma_digits_plain(p);
    assert(is_digit(p[0]));
    assert(unsigned_digits(p) == p);
}

// ---------- lines ----------

/// `s` without one trailing carriage return.
pub open spec fn strip_cr(s: Seq<char>) -> Seq<char> {
    if s.len() > 0 && s.last() == '\r' { s.drop_last() } else { s }
}

/// `str::lines`: the pieces between line feeds, a carriage return before a line feed
/// dropped with it, and no empty last line after a final line feed.
pub open spec fn lines_spec(s: Seq<char>) -> Seq<Seq<char>> {
    let ps = split(Sep::Newline, s);
    let body = ps.drop_last().map_values(|p: Seq<char>| strip_cr(p));
    if ps.last().len() > 0 { body.push(ps.last()) } else { body }
}

/// `str::lines`, computed.
pub fn lines_of(s: &[char]) -> (r: Vec<Vec<char>>)
    ensures r@.map_values(|p: Vec<char>| p@) == lines_spec(s@),
{
    let ps = split_chars(Sep::Newline, s);
    let ghost pv = ps@.map_values(|p: Vec<char>| p@);
    proof {
        lemma_pieces_nonempty(Sep::Newline, -1, Seq::empty(), s@);
    }
    let n = ps.len() - 1;
    let mut r: Vec<Vec<char>> = Vec::new();
    let mut i: usize = 0;
    while i < n
        invariant
            n == ps@.len() - 1,
            i <= n,
            pv == ps@.map_values(|p: Vec<char>| p@),
            r@.map_values(|p: Vec<char>| p@) == pv.drop_last().take(i as int).map_values(|p: Seq<char>| strip_cr(p)),
        decreases n - i,
    {
        let p = &ps[i];
        let line = if p.len() > 0 && p[p.len() - 1] == '\r' { slice_of(p, 0, p.len() - 1) } else { slice_of(p, 0, p.len()) };
        proof {
            assert(pv[i as int] == p@);
            assert(line@ == strip_cr(pv[i as int]));
        }
        let ghost before = r@.map_values(|p: Vec<char>| p@);
        r.push(line);
        proof {
            assert(r@.map_values(|p: Vec<char>| p@) == before.push(line@));
            assert(pv.drop_last().take(i + 1) == pv.drop_last().take(i as int).push(pv[i as int]));
        }
        i += 1;
    }
    assert(pv.drop_last().take(n as int) == pv.drop_last());
    let last = &ps[n];
    assert(last@ == pv.last());
    if last.len() > 0 {
        let ghost before = r@.map_values(|p: Vec<char>| p@);
        let lastc = slice_of(last, 0, last.len());
        assert(lastc@ == pv.last());
        r.push(lastc);
        assert(r@.map_values(|p: Vec<char>| p@) == before.push(pv.last()));
    }
    r
}

/// The last piece is a suffix of what was split.
pub proof fn lemma_last_piece_suffix(k: Sep, limit: int, cur: Seq<char>, rest: Seq<char>)
    ensures ({
        let ps = pieces(k, limit, cur, rest);
        let all = cur + rest;
        ps.len() >= 1 && ps.last().len() <= all.len() && all.skip(all.len() - ps.last().len()) == ps.last()
    }),
    decreases rest.len(),
{
    lemma_pieces_nonempty(k, limit, cur, rest);
    if rest.len() == 0 {
        assert(cur + rest == cur);
        assert(cur.skip(0) == cur);
    } else if limit != 0 && is_sep(k, rest[0]) {
        let l2 = if limit > 0 { limit - 1 } else { limit };
        lemma_last_piece_suffix(k, l2, Seq::empty(), rest.drop_first());
        let ps2 = pieces(k, l2, Seq::empty(), rest.drop_first());
        assert(Seq::<char>::empty() + rest.drop_first() == rest.drop_first());
        assert(pieces(k, limit, cur, rest).last() == ps2.last());
        let all = cur + rest;
        let n = ps2.last().len();
        assert(all.skip(all.len() - n) == rest.drop_first().skip(rest.drop_first().len() - n));
    } else {
        lemma_last_piece_suffix(k, limit, cur.push(rest[0]), rest.drop_first());
        assert(cur.push(rest[0]) + rest.drop_first() == cur + rest);
    }
}

/// Removing leading white space leaves a suffix.
pub proof fn lemma_trim_start_suffix(s: Seq<char>)
    ensures
        trim_start(s).len() <= s.len(),
        s.skip(s.len() - trim_start(s).len()) == trim_start(s),
    decreases s.len(),
{
    if s.len() > 0 && is_white(s[0]) {
        lemma_trim_start_suffix(s.drop_first());
        let t = trim_start(s);
        assert(s.skip(s.len() - t.len()) == s.drop_first().skip(s.drop_first().len() - t.len()));
    } else {
        assert(s.skip(0) == s);
    }
}

/// Removing trailing white space leaves a prefix, which ends in no white space.
pub proof fn lemma_trim_end_prefix(s: Seq<char>)
    ensures
        trim_end(s).len() <= s.len(),
        s.take(trim_end(s).len() as int) == trim_end(s),
        trim_end(s).len() == 0 || !is_white(trim_end(s).last()),
    decreases s.len(),
{
    if s.len() > 0 && is_white(s.last()) {
        lemma_trim_end_prefix(s.drop_last());
        let t = trim_end(s);
        assert(s.take(t.len() as int) == s.drop_last().take(t.len() as int));
    } else {
        assert(s.take(s.len() as int) == s);
    }
}

/// Removing leading white space leaves a text that starts with none.
pub proof fn lemma_trim_start_first(s: Seq<char>)
    ensures trim_start(s).len() == 0 || !is_white(trim_start(s)[0]),
    decreases s.len(),
{
    if s.len() > 0 && is_white(s[0]) {
        lemma_trim_start_first(s.drop_first());
    }
}

/// Trimming twice is trimming once; the trimmed text is a piece of the text.
pub proof fn lemma_trim_idempotent(s: Seq<char>)
    ensures
        trim(trim(s)) == trim(s),
        exists|i: int| 0 <= i && i + trim(s).len() <= s.len() && #[trigger] s.subrange(i, i + trim(s).len()) == trim(s),
{
    let u = trim_start(s);
    let v = trim_end(u);
    lemma_trim_start_first(s);
    lemma_trim_end_prefix(u);
    lemma_trim_start_suffix(s);
    if v.len() > 0 {
        assert(v[0] == u[0]);
        assert(trim_start(v) == v);
    } else {
        assert(trim_start(v) == v);
    }
    assert(trim_end(v) == v);
    let i = s.len() - u.len();
    assert(u == s.skip(i));
    assert(v == u.take(v.len() as int));
    assert(s.subrange(i, i + v.len()) =~= v);
    assert(trim(s) == v);
    assert(0 <= i && i + trim(s).len() <= s.len() && s.subrange(i, i + trim(s).len()) == trim(s));
}

} // verus!
