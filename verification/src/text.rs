//! Character-level text operations with their mathematical models.
//!
//! Text is modelled as `Seq<char>`, the view of `str` and `String`.  The
//! operations here mirror the `str` methods that the rest of the library
//! relies on (`trim`, `split`, `join`, `lines`, ...), each stated over
//! sequences of characters.
use vstd::prelude::*;

verus! {

broadcast use vstd::string::group_string_axioms;

// ---------------------------------------------------------------------------
// Models
// ---------------------------------------------------------------------------

/// Characters with the Unicode `White_Space` property, the set accepted by
/// `char::is_whitespace`.
pub open spec fn is_white_space(c: char) -> bool {
    ||| '\u{9}' <= c <= '\u{d}'
    ||| c == ' '
    ||| c == '\u{85}'
    ||| c == '\u{a0}'
    ||| c == '\u{1680}'
    ||| '\u{2000}' <= c <= '\u{200a}'
    ||| c == '\u{2028}'
    ||| c == '\u{2029}'
    ||| c == '\u{202f}'
    ||| c == '\u{205f}'
    ||| c == '\u{3000}'
}

/// `s` without its leading characters equal to `c`.
pub open spec fn strip_leading(s: Seq<char>, c: char) -> Seq<char>
    decreases s.len(),
{
    if s.len() > 0 && s[0] == c {
        strip_leading(s.drop_first(), c)
    } else {
        s
    }
}

/// `s` without its trailing characters equal to `c`.
pub open spec fn strip_trailing(s: Seq<char>, c: char) -> Seq<char>
    decreases s.len(),
{
    if s.len() > 0 && s.last() == c {
        strip_trailing(s.drop_last(), c)
    } else {
        s
    }
}

/// `s` without leading white space (`str::trim_start`).
pub open spec fn trim_start(s: Seq<char>) -> Seq<char>
    decreases s.len(),
{
    if s.len() > 0 && is_white_space(s[0]) {
        trim_start(s.drop_first())
    } else {
        s
    }
}

/// `s` without trailing white space (`str::trim_end`).
pub open spec fn trim_end(s: Seq<char>) -> Seq<char>
    decreases s.len(),
{
    if s.len() > 0 && is_white_space(s.last()) {
        trim_end(s.drop_last())
    } else {
        s
    }
}

/// `s` without leading and trailing white space (`str::trim`).
pub open spec fn trim(s: Seq<char>) -> Seq<char> {
    trim_end(trim_start(s))
}

/// `s` without leading and trailing `c` (`str::trim_matches(c)`).
pub open spec fn trim_matches(s: Seq<char>, c: char) -> Seq<char> {
    strip_trailing(strip_leading(s, c), c)
}

/// The pieces of `s` between occurrences of `sep` (`str::split(sep)`): one
/// more piece than there are separators, empty pieces included.
pub open spec fn split(s: Seq<char>, sep: char) -> Seq<Seq<char>>
    decreases s.len(),
{
    if s.len() == 0 {
        seq![Seq::<char>::empty()]
    } else {
        let rest = split(s.drop_last(), sep);
        if s.last() == sep {
            rest.push(Seq::<char>::empty())
        } else {
            rest.update(rest.len() - 1, rest.last().push(s.last()))
        }
    }
}

/// The pieces that are not empty, in order.
pub open spec fn non_empty(parts: Seq<Seq<char>>) -> Seq<Seq<char>> {
    parts.filter(|p: Seq<char>| p.len() > 0)
}

/// The texts held by a sequence of character vectors.
pub open spec fn texts(v: Seq<Vec<char>>) -> Seq<Seq<char>> {
    v.map_values(|t: Vec<char>| t@)
}

/// The pieces joined with `sep` between consecutive pieces (`join`).
pub open spec fn join(parts: Seq<Seq<char>>, sep: char) -> Seq<char>
    decreases parts.len(),
{
    if parts.len() == 0 {
        Seq::<char>::empty()
    } else if parts.len() == 1 {
        parts[0]
    } else {
        join(parts.drop_last(), sep).push(sep) + parts.last()
    }
}

/// `s` with every `from` replaced by `to` (`str::replace(from, to)` on chars).
pub open spec fn replace_char(s: Seq<char>, from: char, to: char) -> Seq<char> {
    s.map_values(|c: char| if c == from { to } else { c })
}

/// Index of the first occurrence of `c` in `s`, if any.
pub open spec fn first_index_of(s: Seq<char>, c: char) -> Option<int> {
    if s.contains(c) {
        Some(choose|i: int| 0 <= i < s.len() && s[i] == c && forall|j: int| 0 <= j < i ==> s[j] != c)
    } else {
        None
    }
}

/// The parts of `s` before and after the first `c` (`str::split_once(c)`).
pub open spec fn split_once(s: Seq<char>, c: char) -> Option<(Seq<char>, Seq<char>)> {
    match first_index_of(s, c) {
        Some(i) => Some((s.take(i), s.skip(i + 1))),
        None => None,
    }
}

/// The lines of `s` (`str::lines`): pieces between `'\n'`, a `'\r'` right
/// before a `'\n'` removed, and no final empty piece.
pub open spec fn lines(s: Seq<char>) -> Seq<Seq<char>> {
    let pieces = split(s, '\n');
    let complete = pieces.drop_last().map_values(|p: Seq<char>| strip_one_cr(p));
    if pieces.last().len() == 0 {
        complete
    } else {
        complete.push(pieces.last())
    }
}

/// `p` without one final `'\r'`.
pub open spec fn strip_one_cr(p: Seq<char>) -> Seq<char> {
    if p.len() > 0 && p.last() == '\r' {
        p.drop_last()
    } else {
        p
    }
}

/// ASCII letters and digits (`char::is_ascii_alphanumeric`).
pub open spec fn is_ascii_alphanumeric(c: char) -> bool {
    ||| 'a' <= c <= 'z'
    ||| 'A' <= c <= 'Z'
    ||| '0' <= c <= '9'
}

/// Lexicographic order on character sequences; for strings it is the order
/// of `Ord for str`, as UTF-8 keeps the order of code points.
pub open spec fn seq_lt(a: Seq<char>, b: Seq<char>) -> bool
    decreases a.len(),
{
    if a.len() == 0 {
        b.len() > 0
    } else if b.len() == 0 {
        false
    } else if a[0] != b[0] {
        a[0] < b[0]
    } else {
        seq_lt(a.drop_first(), b.drop_first())
    }
}

/// `a` comes no later than `b` in lexicographic order.
pub open spec fn seq_le(a: Seq<char>, b: Seq<char>) -> bool {
    !seq_lt(b, a)
}

/// `s` without any occurrence of `c` (`str::replace(c, "")`).
pub open spec fn without_char(s: Seq<char>, c: char) -> Seq<char> {
    s.filter(|x: char| x != c)
}

// ---------------------------------------------------------------------------
// Laws of the order
// ---------------------------------------------------------------------------

/// The lexicographic order is irreflexive.
pub proof fn lemma_seq_lt_irreflexive(a: Seq<char>)
    ensures
        !seq_lt(a, a),
    decreases a.len(),
{
    if a.len() > 0 {
        lemma_seq_lt_irreflexive(a.drop_first());
    }
}

/// The lexicographic order is transitive.
pub proof fn lemma_seq_lt_transitive(a: Seq<char>, b: Seq<char>, c: Seq<char>)
    requires
        seq_lt(a, b),
        seq_lt(b, c),
    ensures
        seq_lt(a, c),
    decreases a.len(),
{
    if a.len() > 0 && b.len() > 0 && c.len() > 0 && a[0] == b[0] && b[0] == c[0] {
        lemma_seq_lt_transitive(a.drop_first(), b.drop_first(), c.drop_first());
    }
}

/// Any two distinct sequences are ordered one way or the other.
pub proof fn lemma_seq_lt_total(a: Seq<char>, b: Seq<char>)
    ensures
        a == b || seq_lt(a, b) || seq_lt(b, a),
    decreases a.len(),
{
    if a.len() > 0 && b.len() > 0 {
        if a[0] == b[0] {
            lemma_seq_lt_total(a.drop_first(), b.drop_first());
            if a.drop_first() == b.drop_first() {
                assert(a =~= seq![a[0]] + a.drop_first());
                assert(b =~= seq![b[0]] + b.drop_first());
            }
        }
    } else if a.len() == 0 && b.len() == 0 {
        assert(a =~= b);
    }
}

/// The lexicographic order is asymmetric.
pub proof fn lemma_seq_lt_asymmetric(a: Seq<char>, b: Seq<char>)
    requires
        seq_lt(a, b),
    ensures
        !seq_lt(b, a),
{
    if seq_lt(b, a) {
        lemma_seq_lt_transitive(a, b, a);
        lemma_seq_lt_irreflexive(a);
    }
}

/// Any two texts are ordered by `seq_le` one way or the other.
pub proof fn lemma_seq_le_total(a: Seq<char>, b: Seq<char>)
    ensures
        seq_le(a, b) || seq_le(b, a),
{
    if seq_lt(a, b) {
        lemma_seq_lt_asymmetric(a, b);
    }
}

/// `seq_le` is transitive.
pub proof fn lemma_seq_le_transitive(a: Seq<char>, b: Seq<char>, c: Seq<char>)
    requires
        seq_le(a, b),
        seq_le(b, c),
    ensures
        seq_le(a, c),
{
    if seq_lt(c, a) {
        lemma_seq_lt_total(a, b);
        if a == b {
        } else if seq_lt(a, b) {
            lemma_seq_lt_transitive(c, a, b);
        }
    }
}

/// `seq_le` is reflexive.
pub proof fn lemma_seq_le_reflexive(a: Seq<char>)
    ensures
        seq_le(a, a),
{
    lemma_seq_lt_irreflexive(a);
}

// ---------------------------------------------------------------------------
// Conversions between strings and characters
// ---------------------------------------------------------------------------

/// `String::push`: `c` is appended to the end of `s`, as std documents it.
#[verifier::external_body]
pub(crate) fn push_char(s: &mut String, c: char)
    ensures
        final(s)@ == old(s)@.push(c),
{
    s.push(c)
}

/// The characters of a string slice, in order.
pub fn chars_of(s: &str) -> (out: Vec<char>)
    ensures
        out@ == s@,
{
    let mut out: Vec<char> = Vec::new();
    for c in it: s.chars()
        invariant
            out@ == it.seq().take(it.index() as int),
            it.seq() == s@,
    {
        out.push(c);
    }
    out
}

/// A string made of the given characters.
pub fn string_from(cs: &[char]) -> (out: String)
    ensures
        out@ == cs@,
{
    let mut out = String::new();
    for i in 0..cs.len()
        invariant
            out@ == cs@.take(i as int),
    {
        push_char(&mut out, cs[i]);
        assert(cs@.take(i + 1) =~= cs@.take(i as int).push(cs@[i as int]));
    }
    assert(cs@.take(cs@.len() as int) =~= cs@);
    out
}

/// A copy of `s[from..to]`.
pub fn sub_chars(s: &[char], from: usize, to: usize) -> (out: Vec<char>)
    requires
        from <= to <= s@.len(),
    ensures
        out@ == s@.subrange(from as int, to as int),
{
    let mut out: Vec<char> = Vec::new();
    let mut i = from;
    while i < to
        invariant
            from <= i <= to <= s@.len(),
            out@ == s@.subrange(from as int, i as int),
        decreases to - i,
    {
        out.push(s[i]);
        i += 1;
        assert(out@ =~= s@.subrange(from as int, i as int));
    }
    out
}

/// A copy of the characters of `s`.
pub fn copy_chars(s: &[char]) -> (out: Vec<char>)
    ensures
        out@ == s@,
{
    let out = sub_chars(s, 0, s.len());
    assert(s@.subrange(0, s@.len() as int) =~= s@);
    out
}

/// Whether two character sequences are equal.
pub fn chars_eq(a: &[char], b: &[char]) -> (r: bool)
    ensures
        r == (a@ == b@),
{
    if a.len() != b.len() {
        return false;
    }
    for i in 0..a.len()
        invariant
            a@.len() == b@.len(),
            forall|j: int| 0 <= j < i ==> a@[j] == b@[j],
    {
        if a[i] != b[i] {
            return false;
        }
    }
    assert(a@ =~= b@);
    true
}

/// Whether `a` equals the text `b`.
pub fn chars_eq_str(a: &[char], b: &str) -> (r: bool)
    ensures
        r == (a@ == b@),
{
    let bc = chars_of(b);
    chars_eq(a, bc.as_slice())
}

/// Whether `a` comes strictly before `b` in lexicographic order.
pub fn chars_lt(a: &[char], b: &[char]) -> (r: bool)
    ensures
        r == seq_lt(a@, b@),
{
    let mut i: usize = 0;
    assert(a@.skip(0) =~= a@ && b@.skip(0) =~= b@);
    while i < a.len() && i < b.len()
        invariant
            i <= a@.len(),
            i <= b@.len(),
            forall|j: int| 0 <= j < i ==> a@[j] == b@[j],
            seq_lt(a@, b@) == seq_lt(a@.skip(i as int), b@.skip(i as int)),
        decreases a.len() - i,
    {
        if a[i] != b[i] {
            assert(a@.skip(i as int)[0] == a@[i as int]);
            assert(b@.skip(i as int)[0] == b@[i as int]);
            return a[i] < b[i];
        }
        assert(a@.skip(i as int).drop_first() =~= a@.skip(i + 1));
        assert(b@.skip(i as int).drop_first() =~= b@.skip(i + 1));
        i += 1;
    }
    i == a.len() && i < b.len()
}

// ---------------------------------------------------------------------------
// Character classes
// ---------------------------------------------------------------------------

/// Whether `c` has the Unicode `White_Space` property.
pub fn white_space(c: char) -> (r: bool)
    ensures
        r == is_white_space(c),
{
    ('\u{9}' <= c && c <= '\u{d}') || c == ' ' || c == '\u{85}' || c == '\u{a0}' || c
        == '\u{1680}' || ('\u{2000}' <= c && c <= '\u{200a}') || c == '\u{2028}' || c
        == '\u{2029}' || c == '\u{202f}' || c == '\u{205f}' || c == '\u{3000}'
}

/// Whether `c` is an ASCII letter or digit.
pub fn ascii_alphanumeric(c: char) -> (r: bool)
    ensures
        r == is_ascii_alphanumeric(c),
{
    ('a' <= c && c <= 'z') || ('A' <= c && c <= 'Z') || ('0' <= c && c <= '9')
}

// ---------------------------------------------------------------------------
// Trimming
// ---------------------------------------------------------------------------

/// `s` without leading and trailing white space.
pub fn trim_chars(s: &[char]) -> (out: Vec<char>)
    ensures
        out@ == trim(s@),
{
    let n = s.len();
    let mut i: usize = 0;
    assert(s@.skip(0) =~= s@);
    while i < n && white_space(s[i])
        invariant
            i <= n == s@.len(),
            trim_start(s@) == trim_start(s@.skip(i as int)),
        decreases n - i,
    {
        assert(s@.skip(i as int).drop_first() =~= s@.skip(i + 1));
        i += 1;
    }
    let ghost t = s@.skip(i as int);
    assert(trim_start(t) == t);
    let mut j: usize = n;
    while j > i && white_space(s[j - 1])
        invariant
            i <= j <= n == s@.len(),
            t == s@.skip(i as int),
            trim_end(t) == trim_end(s@.subrange(i as int, j as int)),
        decreases j,
    {
        assert(s@.subrange(i as int, j as int).drop_last() =~= s@.subrange(i as int, j - 1));
        j -= 1;
    }
    assert(s@.subrange(i as int, n as int) =~= t);
    sub_chars(s, i, j)
}

/// `s` without leading and trailing `c`.
pub fn trim_matches_chars(s: &[char], c: char) -> (out: Vec<char>)
    ensures
        out@ == trim_matches(s@, c),
{
    let n = s.len();
    let mut i: usize = 0;
    assert(s@.skip(0) =~= s@);
    while i < n && s[i] == c
        invariant
            i <= n == s@.len(),
            strip_leading(s@, c) == strip_leading(s@.skip(i as int), c),
        decreases n - i,
    {
        assert(s@.skip(i as int).drop_first() =~= s@.skip(i + 1));
        i += 1;
    }
    let ghost t = s@.skip(i as int);
    assert(strip_leading(t, c) == t);
    let mut j: usize = n;
    while j > i && s[j - 1] == c
        invariant
            i <= j <= n == s@.len(),
            t == s@.skip(i as int),
            strip_trailing(t, c) == strip_trailing(s@.subrange(i as int, j as int), c),
        decreases j,
    {
        assert(s@.subrange(i as int, j as int).drop_last() =~= s@.subrange(i as int, j - 1));
        j -= 1;
    }
    assert(s@.subrange(i as int, n as int) =~= t);
    sub_chars(s, i, j)
}

// ---------------------------------------------------------------------------
// Prefixes, suffixes and replacement
// ---------------------------------------------------------------------------

/// Whether `s` begins with `prefix`.
pub fn starts_with(s: &[char], prefix: &[char]) -> (r: bool)
    ensures
        r == prefix@.is_prefix_of(s@),
{
    if prefix.len() > s.len() {
        return false;
    }
    for i in 0..prefix.len()
        invariant
            prefix@.len() <= s@.len(),
            forall|j: int| 0 <= j < i ==> prefix@[j] == s@[j],
    {
        if prefix[i] != s[i] {
            return false;
        }
    }
    assert(prefix@ =~= s@.subrange(0, prefix@.len() as int));
    true
}

/// Whether `s` ends with `suffix`.
pub fn ends_with(s: &[char], suffix: &[char]) -> (r: bool)
    ensures
        r == suffix@.is_suffix_of(s@),
{
    if suffix.len() > s.len() {
        return false;
    }
    let off = s.len() - suffix.len();
    let mut i: usize = 0;
    while i < suffix.len()
        invariant
            i <= suffix@.len(),
            off + suffix@.len() == s@.len(),
            off + suffix.len() == s.len(),
            forall|j: int| 0 <= j < i ==> suffix@[j] == s@[off + j],
        decreases suffix.len() - i,
    {
        if suffix[i] != s[off + i] {
            return false;
        }
        i += 1;
    }
    assert(suffix@ =~= s@.subrange(off as int, s@.len() as int));
    true
}

/// `s` with every `from` replaced by `to`.
pub fn replace_chars(s: &[char], from: char, to: char) -> (out: Vec<char>)
    ensures
        out@ == replace_char(s@, from, to),
{
    let mut out: Vec<char> = Vec::new();
    for i in 0..s.len()
        invariant
            out@ == replace_char(s@.take(i as int), from, to),
    {
        if s[i] == from {
            out.push(to);
        } else {
            out.push(s[i]);
        }
        assert(replace_char(s@.take(i + 1), from, to) =~= replace_char(
            s@.take(i as int),
            from,
            to,
        ).push(if s@[i as int] == from { to } else { s@[i as int] }));
    }
    assert(s@.take(s@.len() as int) =~= s@);
    out
}

// ---------------------------------------------------------------------------
// Splitting and joining
// ---------------------------------------------------------------------------

/// `split(s, sep)` has at least one piece.
pub proof fn lemma_split_nonempty(s: Seq<char>, sep: char)
    ensures
        split(s, sep).len() >= 1,
    decreases s.len(),
{
    if s.len() > 0 {
        lemma_split_nonempty(s.drop_last(), sep);
    }
}

/// What `trim_start` leaves starts with a character that is not white
/// space, and is a suffix of the text.
pub proof fn lemma_trim_start_shape(s: Seq<char>)
    ensures
        trim_start(s).len() > 0 ==> !is_white_space(trim_start(s)[0]),
        trim_start(s).is_suffix_of(s),
    decreases s.len(),
{
    if s.len() > 0 && is_white_space(s[0]) {
        lemma_trim_start_shape(s.drop_first());
        let t = trim_start(s.drop_first());
        assert(s.subrange(s.len() - t.len(), s.len() as int) =~= s.drop_first().subrange(
            s.drop_first().len() - t.len(),
            s.drop_first().len() as int,
        ));
    } else {
        assert(s.subrange(0, s.len() as int) =~= s);
    }
}

/// What `trim_end` leaves ends with a character that is not white space,
/// and is a prefix of the text.
pub proof fn lemma_trim_end_shape(s: Seq<char>)
    ensures
        trim_end(s).len() > 0 ==> !is_white_space(trim_end(s).last()),
        trim_end(s).is_prefix_of(s),
    decreases s.len(),
{
    if s.len() > 0 && is_white_space(s.last()) {
        lemma_trim_end_shape(s.drop_last());
    }
}

/// Trimming a trimmed text changes nothing.
pub proof fn lemma_trim_idempotent(s: Seq<char>)
    ensures
        trim(trim(s)) == trim(s),
{
    let u = trim_start(s);
    let t = trim_end(u);
    lemma_trim_start_shape(s);
    lemma_trim_end_shape(u);
    if t.len() > 0 {
        assert(t[0] == u[0]);
        assert(trim_start(t) == t);
        assert(trim_end(t) == t);
    } else {
        assert(trim_start(t) == t);
        assert(trim_end(t) == t);
    }
}

/// Splitting two texts joined by `sep` gives the pieces of the first, then
/// those of the second.
pub proof fn lemma_split_concat(a: Seq<char>, b: Seq<char>, sep: char)
    ensures
        split(a.push(sep) + b, sep) == split(a, sep) + split(b, sep),
    decreases b.len(),
{
    let s = a.push(sep) + b;
    lemma_split_nonempty(a, sep);
    if b.len() == 0 {
        assert(s =~= a.push(sep));
        assert(a.push(sep).drop_last() =~= a);
        assert(split(b, sep) =~= seq![Seq::<char>::empty()]);
        assert(split(s, sep) =~= split(a, sep) + split(b, sep));
    } else {
        let d = b.drop_last();
        lemma_split_concat(a, d, sep);
        lemma_split_nonempty(d, sep);
        assert(s.drop_last() =~= a.push(sep) + d);
        assert(s.last() == b.last());
        let x = split(a, sep);
        let y = split(d, sep);
        if b.last() == sep {
            assert(split(s, sep) =~= (x + y).push(Seq::<char>::empty()));
            assert((x + y).push(Seq::<char>::empty()) =~= x + y.push(Seq::<char>::empty()));
        } else {
            let xy = x + y;
            assert(xy.last() == y.last());
            assert(split(s, sep) == xy.update(xy.len() - 1, xy.last().push(b.last())));
            assert(xy.update(xy.len() - 1, xy.last().push(b.last())) =~= x + y.update(
                y.len() - 1,
                y.last().push(b.last()),
            ));
        }
    }
}

/// What `strip_leading` leaves does not start with `c`, and is a suffix of
/// the text.
pub proof fn lemma_strip_leading_shape(s: Seq<char>, c: char)
    ensures
        strip_leading(s, c).len() > 0 ==> strip_leading(s, c)[0] != c,
        strip_leading(s, c).is_suffix_of(s),
    decreases s.len(),
{
    if s.len() > 0 && s[0] == c {
        lemma_strip_leading_shape(s.drop_first(), c);
        let t = strip_leading(s.drop_first(), c);
        assert(s.subrange(s.len() - t.len(), s.len() as int) =~= s.drop_first().subrange(
            s.drop_first().len() - t.len(),
            s.drop_first().len() as int,
        ));
    } else {
        assert(s.subrange(0, s.len() as int) =~= s);
    }
}

/// What `strip_trailing` leaves does not end with `c`, and is a prefix of
/// the text.
pub proof fn lemma_strip_trailing_shape(s: Seq<char>, c: char)
    ensures
        strip_trailing(s, c).len() > 0 ==> strip_trailing(s, c).last() != c,
        strip_trailing(s, c).is_prefix_of(s),
    decreases s.len(),
{
    if s.len() > 0 && s.last() == c {
        lemma_strip_trailing_shape(s.drop_last(), c);
    }
}

/// What `trim_start` removes is white space.
pub proof fn lemma_trim_start_drops_white_space(s: Seq<char>)
    ensures
        trim_start(s).len() <= s.len(),
        forall|i: int| 0 <= i < s.len() - trim_start(s).len() ==> is_white_space(#[trigger] s[i]),
    decreases s.len(),
{
    if s.len() > 0 && is_white_space(s[0]) {
        let d = s.drop_first();
        lemma_trim_start_drops_white_space(d);
        assert forall|i: int| 0 <= i < s.len() - trim_start(s).len() implies is_white_space(#[trigger] s[i]) by {
            if i > 0 {
                assert(s[i] == d[i - 1]);
            }
        }
    }
}

/// What `trim_end` removes is white space.
pub proof fn lemma_trim_end_drops_white_space(s: Seq<char>)
    ensures
        trim_end(s).len() <= s.len(),
        forall|i: int| trim_end(s).len() <= i < s.len() ==> is_white_space(#[trigger] s[i]),
    decreases s.len(),
{
    if s.len() > 0 && is_white_space(s.last()) {
        let d = s.drop_last();
        lemma_trim_end_drops_white_space(d);
        assert forall|i: int| trim_end(s).len() <= i < s.len() implies is_white_space(#[trigger] s[i]) by {
            if i < s.len() - 1 {
                assert(s[i] == d[i]);
            }
        }
    }
}

/// Joining two non-empty lists of pieces joins their joins.
pub proof fn lemma_join_concat(a: Seq<Seq<char>>, b: Seq<Seq<char>>, sep: char)
    requires
        a.len() > 0,
        b.len() > 0,
    ensures
        join(a + b, sep) == join(a, sep).push(sep) + join(b, sep),
    decreases b.len(),
{
    let ab = a + b;
    if b.len() == 1 {
        assert(ab.drop_last() =~= a);
        assert(ab.last() == b[0]);
    } else {
        let bd = b.drop_last();
        lemma_join_concat(a, bd, sep);
        assert(ab.drop_last() =~= a + bd);
        assert(ab.last() == b.last());
        assert(join(ab, sep) == join(a + bd, sep).push(sep) + b.last());
        assert(join(b, sep) == join(bd, sep).push(sep) + b.last());
        assert(join(ab, sep) =~= join(a, sep).push(sep) + join(b, sep));
    }
}

/// A text of separators only splits into empty pieces.
pub proof fn lemma_split_all_sep(d: Seq<char>, sep: char)
    requires
        forall|i: int| 0 <= i < d.len() ==> d[i] == sep,
    ensures
        non_empty(split(d, sep)) == Seq::<Seq<char>>::empty(),
{
    broadcast use vstd::seq_lib::group_filter_ensures;

    let is_sep = |c: char| c == sep;
    lemma_split_pieces_chars(d, sep, is_sep);
    let pieces = split(d, sep);
    let nonempty = |p: Seq<char>| p.len() > 0;
    let kept = pieces.filter(nonempty);
    if kept.len() > 0 {
        assert(nonempty(kept[0]));
        assert(kept.contains(kept[0]));
        pieces.lemma_filter_contains_rev(nonempty, kept[0]);
        let q = choose|q: int| 0 <= q < pieces.len() && pieces[q] == kept[0];
        assert(is_sep(pieces[q][0]) && pieces[q][0] != sep);
    }
    assert(kept =~= Seq::<Seq<char>>::empty());
}

/// Every character of a piece of `split(s, sep)` is a character of `s`
/// other than `sep`: a property of all characters of `s` holds of them.
pub proof fn lemma_split_pieces_chars(s: Seq<char>, sep: char, pred: spec_fn(char) -> bool)
    requires
        forall|i: int| 0 <= i < s.len() ==> pred(#[trigger] s[i]),
    ensures
        forall|k: int, i: int|
            0 <= k < split(s, sep).len() && 0 <= i < split(s, sep)[k].len() ==> pred(
                #[trigger] split(s, sep)[k][i],
            ) && split(s, sep)[k][i] != sep,
    decreases s.len(),
{
    if s.len() > 0 {
        let d = s.drop_last();
        lemma_split_pieces_chars(d, sep, pred);
        lemma_split_nonempty(d, sep);
        let rest = split(d, sep);
        let all = split(s, sep);
        assert forall|k: int, i: int| 0 <= k < all.len() && 0 <= i < all[k].len() implies pred(
            #[trigger] all[k][i],
        ) && all[k][i] != sep by {
            if s.last() == sep {
                if k < rest.len() {
                    assert(all[k] == rest[k]);
                }
            } else {
                if k < rest.len() - 1 {
                    assert(all[k] == rest[k]);
                } else {
                    assert(all[k] == rest.last().push(s.last()));
                    if i < rest.last().len() {
                        assert(all[k][i] == rest[rest.len() - 1][i]);
                    } else {
                        assert(pred(s[s.len() - 1]));
                    }
                }
            }
        }
    }
}

/// Joining the pieces of a split gives back the text.
pub proof fn lemma_join_split(s: Seq<char>, sep: char)
    ensures
        join(split(s, sep), sep) == s,
    decreases s.len(),
{
    if s.len() > 0 {
        let d = s.drop_last();
        lemma_join_split(d, sep);
        lemma_split_nonempty(d, sep);
        let rest = split(d, sep);
        if s.last() == sep {
            let all = rest.push(Seq::<char>::empty());
            assert(all.drop_last() =~= rest);
            assert(join(all, sep) =~= d.push(sep));
            assert(d.push(sep) =~= s);
        } else {
            let all = rest.update(rest.len() - 1, rest.last().push(s.last()));
            if rest.len() == 1 {
                assert(join(rest, sep) == rest[0]);
                assert(all[0] =~= s);
            } else {
                assert(all.drop_last() =~= rest.drop_last());
                assert(join(all, sep) =~= join(rest.drop_last(), sep).push(sep) + rest.last().push(s.last()));
                assert(join(rest, sep) == join(rest.drop_last(), sep).push(sep) + rest.last());
                assert(join(all, sep) =~= join(rest, sep).push(s.last()));
                assert(d.push(s.last()) =~= s);
            }
        }
    }
}

/// In a text that does not start with `sep` and never holds `sep` twice in
/// a row, every piece but the last is non-empty, and the last is empty only
/// when the text is empty or ends with `sep`.
pub proof fn lemma_split_pieces_nonempty(s: Seq<char>, sep: char)
    requires
        s.len() > 0 ==> s[0] != sep,
        forall|i: int| 0 <= i < s.len() - 1 && #[trigger] s[i] == sep ==> s[i + 1] != sep,
    ensures
        forall|k: int| 0 <= k < split(s, sep).len() - 1 ==> (#[trigger] split(s, sep)[k]).len() > 0,
        split(s, sep).last().len() == 0 <==> (s.len() == 0 || s.last() == sep),
    decreases s.len(),
{
    lemma_split_nonempty(s, sep);
    if s.len() > 0 {
        let d = s.drop_last();
        assert forall|i: int| 0 <= i < d.len() - 1 && #[trigger] d[i] == sep implies d[i + 1] != sep by {
            assert(s[i] == d[i] && s[i + 1] == d[i + 1]);
        }
        lemma_split_pieces_nonempty(d, sep);
        lemma_split_nonempty(d, sep);
        let rest = split(d, sep);
        let all = split(s, sep);
        if s.last() == sep {
            if d.len() > 0 {
                assert(d.last() == s[s.len() - 2]);
                assert(s[s.len() - 2] != sep);
            }
            assert forall|k: int| 0 <= k < all.len() - 1 implies (#[trigger] all[k]).len() > 0 by {
                assert(all[k] == rest[k]);
            }
        } else {
            assert forall|k: int| 0 <= k < all.len() - 1 implies (#[trigger] all[k]).len() > 0 by {
                assert(all[k] == rest[k]);
            }
        }
    }
}

/// Filtering keeps every element when all of them pass.
pub proof fn lemma_filter_keeps_all<T>(s: Seq<T>, pred: spec_fn(T) -> bool)
    requires
        forall|i: int| 0 <= i < s.len() ==> pred(#[trigger] s[i]),
    ensures
        s.filter(pred) == s,
    decreases s.len(),
{
    reveal(Seq::filter);
    if s.len() > 0 {
        lemma_filter_keeps_all(s.drop_last(), pred);
        assert(s.drop_last().push(s.last()) =~= s);
    } else {
        assert(s.filter(pred) =~= s);
    }
}

/// The pieces of `s` between occurrences of `sep`.
pub fn split_chars(s: &[char], sep: char) -> (out: Vec<Vec<char>>)
    ensures
        texts(out@) == split(s@, sep),
{
    let mut parts: Vec<Vec<char>> = Vec::new();
    let mut current: Vec<char> = Vec::new();
    for i in 0..s.len()
        invariant
            texts(parts@).push(current@) == split(s@.take(i as int), sep),
    {
        proof {
            assert(s@.take(i + 1).drop_last() =~= s@.take(i as int));
            lemma_split_nonempty(s@.take(i as int), sep);
        }
        let ghost before = texts(parts@);
        if s[i] == sep {
            parts.push(current);
            current = Vec::new();
            assert(texts(parts@) =~= before.push(split(s@.take(i as int), sep).last()));
        } else {
            let ghost old_current = current@;
            current.push(s[i]);
        }
        assert(texts(parts@).push(current@) =~= split(s@.take(i + 1), sep));
    }
    let ghost before = texts(parts@);
    parts.push(current);
    assert(s@.take(s@.len() as int) =~= s@);
    assert(texts(parts@) =~= before.push(current@));
    parts
}

/// The pieces joined with `sep` between consecutive pieces.
pub fn join_chars(parts: &Vec<Vec<char>>, sep: char) -> (out: Vec<char>)
    ensures
        out@ == join(texts(parts@), sep),
{
    let mut out: Vec<char> = Vec::new();
    for i in 0..parts.len()
        invariant
            out@ == join(texts(parts@).take(i as int), sep),
    {
        let ghost before = out@;
        if i > 0 {
            out.push(sep);
        }
        let piece = &parts[i];
        for k in 0..piece.len()
            invariant
                i > 0 ==> out@ == before.push(sep) + piece@.take(k as int),
                i == 0 ==> out@ == before + piece@.take(k as int),
        {
            out.push(piece[k]);
            proof {
                assert(piece@.take(k + 1) =~= piece@.take(k as int).push(piece@[k as int]));
                if i > 0 {
                    assert(before.push(sep) + piece@.take(k + 1) =~= (before.push(sep)
                        + piece@.take(k as int)).push(piece@[k as int]));
                } else {
                    assert(before + piece@.take(k + 1) =~= (before + piece@.take(k as int)).push(
                        piece@[k as int],
                    ));
                }
            }
        }
        proof {
            assert(piece@.take(piece@.len() as int) =~= piece@);
            let pre = texts(parts@).take(i + 1);
            assert(pre.drop_last() =~= texts(parts@).take(i as int));
            assert(pre.last() == piece@);
            if i == 0 {
                assert(before =~= Seq::<char>::empty());
                assert(out@ =~= piece@);
            }
        }
    }
    assert(texts(parts@).take(parts.len() as int) =~= texts(parts@));
    out
}


/// The parts of `s` before and after the first `c`, if `c` occurs.
pub fn split_once_chars(s: &[char], c: char) -> (out: Option<(Vec<char>, Vec<char>)>)
    ensures
        match out {
            Some((a, b)) => split_once(s@, c) == Some((a@, b@)),
            None => split_once(s@, c) is None,
        },
{
    let n = s.len();
    let mut i: usize = 0;
    while i < n
        invariant
            i <= n == s@.len(),
            forall|j: int| 0 <= j < i ==> s@[j] != c,
        decreases n - i,
    {
        if s[i] == c {
            proof {
                let k = choose|k: int|
                    0 <= k < s@.len() && s@[k] == c && forall|j: int| 0 <= j < k ==> s@[j] != c;
                assert(s@.contains(c));
                assert(k == i as int) by {
                    if k < i as int {
                    } else if k > i as int {
                        assert(s@[i as int] != c);
                    }
                }
            }
            let before = sub_chars(s, 0, i);
            let after = sub_chars(s, i + 1, n);
            assert(s@.take(i as int) =~= s@.subrange(0, i as int));
            assert(s@.skip(i + 1) =~= s@.subrange(i + 1, n as int));
            return Some((before, after));
        }
        i += 1;
    }
    assert(!s@.contains(c));
    None
}

/// The lines of `s`, as `str::lines` yields them.
pub fn lines_chars(s: &[char]) -> (out: Vec<Vec<char>>)
    ensures
        texts(out@) == lines(s@),
{
    let pieces = split_chars(s, '\n');
    proof {
        lemma_split_nonempty(s@, '\n');
    }
    let ghost whole = split(s@, '\n');
    let ghost complete = whole.drop_last().map_values(|p: Seq<char>| strip_one_cr(p));
    let mut out: Vec<Vec<char>> = Vec::new();
    let last = pieces.len() - 1;
    for k in 0..last
        invariant
            last + 1 == pieces@.len(),
            texts(pieces@) == whole,
            complete == whole.drop_last().map_values(|p: Seq<char>| strip_one_cr(p)),
            texts(out@) == complete.take(k as int),
    {
        let piece = &pieces[k];
        assert(piece@ == whole[k as int]);
        let line = if piece.len() > 0 && piece[piece.len() - 1] == '\r' {
            sub_chars(piece.as_slice(), 0, piece.len() - 1)
        } else {
            copy_chars(piece.as_slice())
        };
        assert(line@ =~= strip_one_cr(piece@));
        let ghost before = texts(out@);
        out.push(line);
        assert(texts(out@) =~= before.push(line@));
        assert(complete.take(k + 1) =~= complete.take(k as int).push(complete[k as int]));
    }
    assert(complete.take(last as int) =~= complete);
    let tail = &pieces[last];
    assert(tail@ == whole.last());
    if tail.len() > 0 {
        let ghost before = texts(out@);
        out.push(copy_chars(tail.as_slice()));
        assert(texts(out@) =~= before.push(whole.last()));
    }
    out
}

/// The pieces that are not empty, in order.
pub fn non_empty_chars(parts: &Vec<Vec<char>>) -> (out: Vec<Vec<char>>)
    ensures
        texts(out@) == non_empty(texts(parts@)),
{
    let ghost all = texts(parts@);
    let mut out: Vec<Vec<char>> = Vec::new();
    for i in 0..parts.len()
        invariant
            all == texts(parts@),
            texts(out@) == non_empty(all.take(i as int)),
    {
        let piece = &parts[i];
        proof {
            reveal(Seq::filter);
            assert(all.take(i + 1).drop_last() =~= all.take(i as int));
            assert(piece@ == all[i as int]);
        }
        if piece.len() > 0 {
            let ghost before = texts(out@);
            out.push(copy_chars(piece.as_slice()));
            assert(texts(out@) =~= before.push(all[i as int]));
        }
    }
    assert(all.take(parts@.len() as int) =~= all);
    out
}

/// Whether two texts are equal.
pub fn str_eq(a: &str, b: &str) -> (r: bool)
    ensures
        r == (a@ == b@),
{
    let ac = chars_of(a);
    chars_eq_str(ac.as_slice(), b)
}

/// Whether `a` comes no later than `b` in lexicographic order.
pub fn str_le(a: &str, b: &str) -> (r: bool)
    ensures
        r == seq_le(a@, b@),
{
    let ac = chars_of(a);
    let bc = chars_of(b);
    !chars_lt(bc.as_slice(), ac.as_slice())
}

/// `s` without any occurrence of `c`.
pub fn without_char_chars(s: &[char], c: char) -> (out: Vec<char>)
    ensures
        out@ == without_char(s@, c),
{
    let mut out: Vec<char> = Vec::new();
    for i in 0..s.len()
        invariant
            out@ == without_char(s@.take(i as int), c),
    {
        proof {
            reveal(Seq::filter);
            assert(s@.take(i + 1).drop_last() =~= s@.take(i as int));
        }
        if s[i] != c {
            out.push(s[i]);
        }
    }
    assert(s@.take(s@.len() as int) =~= s@);
    out
}

/// The decimal digit `d`, for `0 <= d < 10`.
pub open spec fn digit_char(d: int) -> char {
    ((48 + d) as u8) as char
}

/// The decimal numeral of `n`, as `n.to_string()` writes it.
pub open spec fn decimal(n: nat) -> Seq<char>
    decreases n,
{
    if n < 10 {
        seq![digit_char(n as int)]
    } else {
        decimal(n / 10).push(digit_char((n % 10) as int))
    }
}

/// The decimal numeral of `n`.
pub fn decimal_chars(n: usize) -> (out: Vec<char>)
    ensures
        out@ == decimal(n as nat),
    decreases n,
{
    let d = n % 10;
    let c = ((48 + d) as u8) as char;
    if n < 10 {
        let mut out: Vec<char> = Vec::new();
        out.push(c);
        assert(out@ =~= seq![c]);
        out
    } else {
        let mut out = decimal_chars(n / 10);
        out.push(c);
        out
    }
}

/// Appends the decimal numeral of `n` to `s`.
pub fn push_decimal(s: &mut String, n: usize)
    ensures
        final(s)@ == old(s)@ + decimal(n as nat),
{
    let digits = decimal_chars(n);
    for i in 0..digits.len()
        invariant
            s@ == old(s)@ + digits@.take(i as int),
    {
        push_char(s, digits[i]);
        assert(old(s)@ + digits@.take(i + 1) =~= (old(s)@ + digits@.take(i as int)).push(digits@[i as int]));
    }
    assert(digits@.take(digits@.len() as int) =~= digits@);
}

} // verus!
