//! Request helpers: project slugs and the session cookie.
use vstd::prelude::*;

use crate::text;

verus! {

/// What `str::to_lowercase` returns for a text: the Unicode lowercase
/// mapping, which depends on the text alone.
pub uninterp spec fn lowercase(s: Seq<char>) -> Seq<char>;

/// A text of ASCII characters only.
pub open spec fn is_ascii_text(s: Seq<char>) -> bool {
    forall|i: int| 0 <= i < s.len() ==> (#[trigger] s[i] as u32) < 128
}

/// An ASCII capital letter made small; any other character unchanged.
pub open spec fn ascii_lower(c: char) -> char {
    if 'A' <= c <= 'Z' {
        ((c as u32) + 32) as u8 as char
    } else {
        c
    }
}

/// `str::to_lowercase`.  The result is named: the Unicode case tables it
/// follows are not restated here.  On ASCII text, as std documents it, the
/// letters `A`–`Z` become `a`–`z` and every other character stays.
#[verifier::external_body]
pub(crate) fn to_lowercase(s: &str) -> (out: String)
    ensures
        out@ == lowercase(s@),
        is_ascii_text(s@) ==> out@ == s@.map_values(|c: char| ascii_lower(c)),
{
    s.to_lowercase()
}

/// A character kept in a slug: ASCII letters and digits stay, anything else
/// becomes a dash.
pub open spec fn slug_char(c: char) -> char {
    if text::is_ascii_alphanumeric(c) {
        c
    } else {
        '-'
    }
}

/// The slug of an already lowercased text: every run of characters other
/// than ASCII letters and digits becomes a single dash, with none at either
/// end.
pub open spec fn slug_of_lowercase(s: Seq<char>) -> Seq<char> {
    text::join(text::non_empty(text::split(s.map_values(|c: char| slug_char(c)), '-')), '-')
}

/// The slug of `value`: trimmed, lowercased, then reduced to ASCII letters
/// and digits separated by single dashes.
pub open spec fn slug_of(value: Seq<char>) -> Seq<char> {
    slug_of_lowercase(lowercase(text::trim(value)))
}

/// The slug of a lowercased text.
pub fn slug_from_lowercase(lowered: &str) -> (out: String)
    ensures
        out@ == slug_of_lowercase(lowered@),
{
    let cs = text::chars_of(lowered);
    let mut mapped: Vec<char> = Vec::new();
    for i in 0..cs.len()
        invariant
            cs@ == lowered@,
            mapped@ == cs@.take(i as int).map_values(|c: char| slug_char(c)),
    {
        let c = cs[i];
        let m = if text::ascii_alphanumeric(c) {
            c
        } else {
            '-'
        };
        mapped.push(m);
        assert(cs@.take(i + 1).map_values(|c: char| slug_char(c)) =~= cs@.take(i as int).map_values(
            |c: char| slug_char(c),
        ).push(slug_char(c)));
    }
    assert(cs@.take(cs@.len() as int) =~= cs@);
    let pieces = text::split_chars(mapped.as_slice(), '-');
    let kept = text::non_empty_chars(&pieces);
    let joined = text::join_chars(&kept, '-');
    text::string_from(joined.as_slice())
}

/// The slug of an ASCII text: trimmed, its capitals made small, then
/// reduced as any lowercased text is.
pub open spec fn ascii_slug_of(value: Seq<char>) -> Seq<char> {
    slug_of_lowercase(text::trim(value).map_values(|c: char| ascii_lower(c)))
}

/// What `trim` leaves of an ASCII text is ASCII.
proof fn lemma_trim_ascii(value: Seq<char>)
    requires
        is_ascii_text(value),
    ensures
        is_ascii_text(text::trim(value)),
{
    let u = text::trim_start(value);
    let t = text::trim_end(u);
    text::lemma_trim_start_shape(value);
    text::lemma_trim_end_shape(u);
    assert forall|i: int| 0 <= i < t.len() implies (#[trigger] t[i] as u32) < 128 by {
        let k = value.len() - u.len();
        assert(t[i] == u[i]);
        assert(u[i] == value[k + i]);
    }
}

/// The slug of `value`, used as a project's slug; for ASCII text, the
/// ASCII slug.
pub fn slugify(value: &str) -> (out: String)
    ensures
        out@ == slug_of(value@),
        is_ascii_text(value@) ==> out@ == ascii_slug_of(value@),
{
    let trimmed = text::trim_chars(text::chars_of(value).as_slice());
    let trimmed = text::string_from(trimmed.as_slice());
    proof {
        if is_ascii_text(value@) {
            lemma_trim_ascii(value@);
        }
    }
    let lowered = to_lowercase(trimmed.as_str());
    slug_from_lowercase(lowered.as_str())
}

/// A slug: ASCII letters and digits in runs separated by single dashes,
/// with no dash at either end.
pub open spec fn is_slug(r: Seq<char>) -> bool {
    &&& forall|i: int| 0 <= i < r.len() ==> text::is_ascii_alphanumeric(#[trigger] r[i]) || r[i] == '-'
    &&& r.len() > 0 ==> r[0] != '-' && r.last() != '-'
    &&& forall|i: int| 0 <= i < r.len() - 1 && #[trigger] r[i] == '-' ==> r[i + 1] != '-'
}

/// Non-empty runs of letters and digits joined with dashes make a slug.
proof fn lemma_join_runs(parts: Seq<Seq<char>>)
    requires
        forall|k: int| 0 <= k < parts.len() ==> (#[trigger] parts[k]).len() > 0,
        forall|k: int, i: int|
            0 <= k < parts.len() && 0 <= i < parts[k].len() ==> text::is_ascii_alphanumeric(#[trigger] parts[k][i]),
    ensures
        is_slug(text::join(parts, '-')),
        parts.len() > 0 ==> text::join(parts, '-').len() > 0,
    decreases parts.len(),
{
    if parts.len() == 1 {
        let r = text::join(parts, '-');
        assert(r == parts[0]);
        assert forall|i: int| 0 <= i < r.len() implies text::is_ascii_alphanumeric(#[trigger] r[i]) by {
            assert(r[i] == parts[0][i]);
        }
        assert(text::is_ascii_alphanumeric(r[r.len() - 1]));
    } else if parts.len() > 1 {
        let front = parts.drop_last();
        lemma_join_runs(front);
        let j = text::join(front, '-');
        let l = parts.last();
        let r = text::join(parts, '-');
        assert(r == j.push('-') + l);
        assert forall|i: int| l.len() > 0 && 0 <= i < l.len() implies text::is_ascii_alphanumeric(#[trigger] l[i]) by {
            assert(l[i] == parts[parts.len() - 1][i]);
        }
        assert forall|i: int| 0 <= i < r.len() implies text::is_ascii_alphanumeric(#[trigger] r[i]) || r[i] == '-' by {
            if i < j.len() {
                assert(r[i] == j[i]);
            } else if i > j.len() {
                assert(r[i] == l[i - j.len() - 1]);
            }
        }
        assert(r[0] == j[0]);
        assert(r[r.len() - 1] == l[l.len() - 1]);
        assert(text::is_ascii_alphanumeric(l[0]));
        assert(text::is_ascii_alphanumeric(j[j.len() - 1]) || j[j.len() - 1] == '-');
        assert forall|i: int| 0 <= i < r.len() - 1 && #[trigger] r[i] == '-' implies r[i + 1] != '-' by {
            if i < j.len() - 1 {
                assert(r[i] == j[i] && r[i + 1] == j[i + 1]);
            } else if i == j.len() - 1 {
                assert(r[i] == j[i]);
            } else if i == j.len() {
                assert(r[i + 1] == l[0]);
            } else {
                assert(r[i] == l[i - j.len() - 1]);
                assert(text::is_ascii_alphanumeric(l[i - j.len() - 1]));
            }
        }
    }
}

/// What slugging makes of any lowercased text is a slug.
pub proof fn lemma_slug_of_lowercase_is_slug(s: Seq<char>)
    ensures
        is_slug(slug_of_lowercase(s)),
{
    broadcast use vstd::seq_lib::group_filter_ensures;

    let m = s.map_values(|c: char| slug_char(c));
    let ok = |c: char| text::is_ascii_alphanumeric(c) || c == '-';
    assert forall|i: int| 0 <= i < m.len() implies ok(#[trigger] m[i]) by {}
    text::lemma_split_pieces_chars(m, '-', ok);
    let pieces = text::split(m, '-');
    let kept = text::non_empty(pieces);
    let pred = |p: Seq<char>| p.len() > 0;
    assert forall|k: int| 0 <= k < kept.len() implies (#[trigger] kept[k]).len() > 0 by {
        assert(pred(kept[k]));
    }
    assert forall|k: int, i: int| 0 <= k < kept.len() && 0 <= i < kept[k].len() implies text::is_ascii_alphanumeric(
        #[trigger] kept[k][i],
    ) by {
        assert(kept.contains(kept[k]));
        pieces.lemma_filter_contains_rev(pred, kept[k]);
        let q = choose|q: int| 0 <= q < pieces.len() && pieces[q] == kept[k];
        assert(ok(pieces[q][i]) && pieces[q][i] != '-');
    }
    lemma_join_runs(kept);
}

/// What `slugify` makes of any text is a slug.
pub proof fn lemma_slug_of_is_slug(value: Seq<char>)
    ensures
        is_slug(slug_of(value)),
{
    lemma_slug_of_lowercase_is_slug(lowercase(text::trim(value)));
}

/// Slugging a slug changes nothing.
pub proof fn lemma_slug_idempotent(s: Seq<char>)
    ensures
        slug_of_lowercase(slug_of_lowercase(s)) == slug_of_lowercase(s),
{
    broadcast use vstd::seq_lib::group_filter_ensures;

    let r = slug_of_lowercase(s);
    lemma_slug_of_lowercase_is_slug(s);
    let m = r.map_values(|c: char| slug_char(c));
    assert(m =~= r);
    text::lemma_split_pieces_nonempty(r, '-');
    text::lemma_split_nonempty(r, '-');
    let pieces = text::split(r, '-');
    if r.len() == 0 {
        assert(pieces =~= seq![Seq::<char>::empty()]);
        let pred = |p: Seq<char>| p.len() > 0;
        let kept = pieces.filter(pred);
        if kept.len() > 0 {
            assert(pred(kept[0]));
            assert(kept.contains(kept[0]));
            pieces.lemma_filter_contains_rev(pred, kept[0]);
        }
        assert(text::non_empty(pieces) =~= Seq::<Seq<char>>::empty());
    } else {
        assert forall|k: int| 0 <= k < pieces.len() implies (|p: Seq<char>| p.len() > 0)(#[trigger] pieces[k]) by {
            if k == pieces.len() - 1 {
                assert(pieces[k] == pieces.last());
            }
        }
        text::lemma_filter_keeps_all(pieces, |p: Seq<char>| p.len() > 0);
        text::lemma_join_split(r, '-');
    }
}

/// The value of the first cookie named `name` among the `;`-separated
/// `name=value` pairs, each pair trimmed; pairs without `=` are skipped.
pub open spec fn find_cookie(pairs: Seq<Seq<char>>, name: Seq<char>) -> Option<Seq<char>>
    decreases pairs.len(),
{
    if pairs.len() == 0 {
        None
    } else {
        match text::split_once(text::trim(pairs[0]), '=') {
            Some((n, v)) if n == name => Some(v),
            _ => find_cookie(pairs.drop_first(), name),
        }
    }
}

/// The value of the cookie `name` in a `Cookie` header.
pub open spec fn cookie_value(header: Seq<char>, name: Seq<char>) -> Option<Seq<char>> {
    find_cookie(text::split(header, ';'), name)
}

/// The value of the cookie `name` in the text of a `Cookie` header.
pub fn session_cookie(cookie_header: &str, name: &str) -> (out: Option<String>)
    ensures
        match out {
            Some(v) => cookie_value(cookie_header@, name@) == Some(v@),
            None => cookie_value(cookie_header@, name@) is None,
        },
{
    let cs = text::chars_of(cookie_header);
    let wanted = text::chars_of(name);
    let pairs = text::split_chars(cs.as_slice(), ';');
    let ghost all = text::texts(pairs@);
    let mut i: usize = 0;
    assert(all.skip(0) =~= all);
    while i < pairs.len()
        invariant
            all == text::texts(pairs@),
            all == text::split(cookie_header@, ';'),
            i <= pairs@.len(),
            wanted@ == name@,
            find_cookie(all, name@) == find_cookie(all.skip(i as int), name@),
        decreases pairs.len() - i,
    {
        let pair = text::trim_chars(pairs[i].as_slice());
        assert(all.skip(i as int).drop_first() =~= all.skip(i + 1));
        assert(all.skip(i as int)[0] == pairs@[i as int]@);
        match text::split_once_chars(pair.as_slice(), '=') {
            Some((n, v)) => {
                if text::chars_eq(n.as_slice(), wanted.as_slice()) {
                    return Some(text::string_from(v.as_slice()));
                }
            },
            None => {},
        }
        i += 1;
    }
    None
}

/// A text that does not hold `sep` splits into itself alone.
pub proof fn lemma_split_without_sep(s: Seq<char>, sep: char)
    requires
        !s.contains(sep),
    ensures
        text::split(s, sep) == seq![s],
    decreases s.len(),
{
    if s.len() == 0 {
        assert(s =~= Seq::<char>::empty());
    } else {
        let d = s.drop_last();
        assert(!d.contains(sep)) by {
            if d.contains(sep) {
                let i = choose|i: int| 0 <= i < d.len() && d[i] == sep;
                assert(s[i] == sep);
            }
        }
        lemma_split_without_sep(d, sep);
        assert(s.last() != sep) by {
            assert(s[s.len() - 1] == s.last());
        }
        let rest = text::split(d, sep);
        assert(rest.len() == 1 && rest.last() == d);
        assert(d.push(s.last()) =~= s);
        assert(rest.update(0, d.push(s.last())) =~= seq![s]);
    }
}

/// A text with no white space at either end is its own trim.
proof fn lemma_trim_unchanged(h: Seq<char>)
    requires
        h.len() > 0,
        !text::is_white_space(h[0]),
        !text::is_white_space(h.last()),
    ensures
        text::trim(h) == h,
{
    assert(text::trim_start(h) == h);
    assert(text::trim_end(h) == h);
}

/// The first `c` of `h` stands at `at`: `h` splits there.
proof fn lemma_split_once_at(h: Seq<char>, c: char, at: int)
    requires
        0 <= at < h.len(),
        h[at] == c,
        forall|j: int| 0 <= j < at ==> h[j] != c,
    ensures
        text::split_once(h, c) == Some((h.take(at), h.skip(at + 1))),
{
    assert(h.contains(c));
    let f = choose|i: int| 0 <= i < h.len() && h[i] == c && forall|j: int| 0 <= j < i ==> h[j] != c;
    assert(f == at) by {
        if f < at {
        } else if f > at {
            assert(h[at] == c);
        }
    }
}

/// A header holding one pair, which splits into `name` and `value`, gives
/// back `value` for `name`.
proof fn lemma_find_single_cookie(pair: Seq<char>, name: Seq<char>, value: Seq<char>)
    requires
        text::split_once(text::trim(pair), '=') == Some((name, value)),
    ensures
        find_cookie(seq![pair], name) == Some(value),
{
    assert(seq![pair][0] == pair);
}

/// The header `name=value` holds no `;` and its first `=` follows the name,
/// when the name holds neither and the value no `;`.
proof fn lemma_cookie_pair_shape(name: Seq<char>, value: Seq<char>)
    requires
        !name.contains('='),
        !name.contains(';'),
        !value.contains(';'),
    ensures
        !(name + seq!['='] + value).contains(';'),
        forall|j: int| 0 <= j < name.len() ==> (name + seq!['='] + value)[j] != '=',
        (name + seq!['='] + value)[name.len() as int] == '=',
{
    let h = name + seq!['='] + value;
    let at = name.len() as int;
    assert forall|i: int| 0 <= i < h.len() implies h[i] != ';' by {
        if i < at {
            assert(h[i] == name[i]);
            assert(name.contains(name[i]));
        } else if i > at {
            assert(h[i] == value[i - at - 1]);
            assert(value.contains(value[i - at - 1]));
        }
    }
    assert forall|j: int| 0 <= j < at implies h[j] != '=' by {
        assert(h[j] == name[j]);
        assert(name.contains(name[j]));
    }
}

/// A header that sets one cookie, `name=value`, gives back `value` for
/// `name`; the name holds no `=`, neither holds `;`, and the pair has no
/// white space at either end, which reading would trim.
pub proof fn lemma_cookie_read_back(name: Seq<char>, value: Seq<char>)
    requires
        name.len() > 0,
        !name.contains('='),
        !name.contains(';'),
        !value.contains(';'),
        !text::is_white_space(name[0]),
        value.len() > 0 ==> !text::is_white_space(value.last()),
    ensures
        cookie_value(name + seq!['='] + value, name) == Some(value),
{
    let h = name + seq!['='] + value;
    let at = name.len() as int;
    lemma_cookie_pair_shape(name, value);
    lemma_split_without_sep(h, ';');
    assert(h[0] == name[0]);
    if value.len() > 0 {
        assert(h.last() == value.last());
    }
    lemma_trim_unchanged(h);
    lemma_split_once_at(h, '=', at);
    assert(h.take(at) =~= name);
    assert(h.skip(at + 1) =~= value);
    lemma_find_single_cookie(h, name, value);
}

/// A character a slug of ASCII text may hold: a small letter, a digit or a
/// dash.
pub open spec fn is_small_slug_char(c: char) -> bool {
    ||| 'a' <= c <= 'z'
    ||| '0' <= c <= '9'
    ||| c == '-'
}

/// Joining pieces whose characters all pass `pred`, with a separator that
/// passes it too, gives a text whose characters all pass it.
proof fn lemma_join_chars(parts: Seq<Seq<char>>, sep: char, pred: spec_fn(char) -> bool)
    requires
        pred(sep),
        forall|k: int, i: int| 0 <= k < parts.len() && 0 <= i < parts[k].len() ==> pred(#[trigger] parts[k][i]),
    ensures
        forall|i: int| 0 <= i < text::join(parts, sep).len() ==> pred(#[trigger] text::join(parts, sep)[i]),
    decreases parts.len(),
{
    if parts.len() == 1 {
        let r = text::join(parts, sep);
        assert forall|i: int| 0 <= i < r.len() implies pred(#[trigger] r[i]) by {
            assert(r[i] == parts[0][i]);
        }
    } else if parts.len() > 1 {
        let front = parts.drop_last();
        lemma_join_chars(front, sep, pred);
        let j = text::join(front, sep);
        let l = parts.last();
        let r = text::join(parts, sep);
        assert(r == j.push(sep) + l);
        assert forall|i: int| 0 <= i < r.len() implies pred(#[trigger] r[i]) by {
            if i < j.len() {
                assert(r[i] == j[i]);
            } else if i > j.len() {
                assert(r[i] == l[i - j.len() - 1]);
                assert(l[i - j.len() - 1] == parts[parts.len() - 1][i - j.len() - 1]);
            }
        }
    }
}

/// The slug of ASCII text holds only small letters, digits and dashes.
pub proof fn lemma_ascii_slug_small(value: Seq<char>)
    ensures
        forall|i: int| 0 <= i < ascii_slug_of(value).len() ==> is_small_slug_char(#[trigger] ascii_slug_of(value)[i]),
{
    broadcast use vstd::seq_lib::group_filter_ensures;

    let lowered = text::trim(value).map_values(|c: char| ascii_lower(c));
    let m = lowered.map_values(|c: char| slug_char(c));
    let ok = |c: char| is_small_slug_char(c);
    assert forall|i: int| 0 <= i < m.len() implies ok(#[trigger] m[i]) by {
        let c = text::trim(value)[i];
        assert(lowered[i] == ascii_lower(c));
        if 'A' <= c <= 'Z' {
            assert(ascii_lower(c) as u32 == c as u32 + 32);
        }
    }
    text::lemma_split_pieces_chars(m, '-', ok);
    let pieces = text::split(m, '-');
    let kept = text::non_empty(pieces);
    let nonempty = |p: Seq<char>| p.len() > 0;
    assert forall|k: int, i: int| 0 <= k < kept.len() && 0 <= i < kept[k].len() implies ok(#[trigger] kept[k][i]) by {
        assert(kept.contains(kept[k]));
        pieces.lemma_filter_contains_rev(nonempty, kept[k]);
        let q = choose|q: int| 0 <= q < pieces.len() && pieces[q] == kept[k];
        assert(ok(pieces[q][i]));
    }
    lemma_join_chars(kept, '-', ok);
}

/// Slugging the slug of ASCII text changes nothing.
pub proof fn lemma_ascii_slug_idempotent(value: Seq<char>)
    ensures
        ascii_slug_of(ascii_slug_of(value)) == ascii_slug_of(value),
{
    let s = text::trim(value).map_values(|c: char| ascii_lower(c));
    let r = ascii_slug_of(value);
    lemma_slug_of_lowercase_is_slug(s);
    lemma_ascii_slug_small(value);
    lemma_slug_idempotent(s);
    if r.len() > 0 {
        assert(is_small_slug_char(r[0]));
        assert(is_small_slug_char(r[r.len() - 1]));
    }
    assert(text::trim_start(r) == r);
    assert(text::trim_end(r) == r);
    assert forall|i: int| 0 <= i < r.len() implies #[trigger] ascii_lower(r[i]) == r[i] by {
        assert(is_small_slug_char(r[i]));
    }
    assert(r.map_values(|c: char| ascii_lower(c)) =~= r);
}

/// Dashes around a text change none of its non-empty dash-separated pieces.
proof fn lemma_dash_padding(d1: Seq<char>, z: Seq<char>, d2: Seq<char>)
    requires
        forall|i: int| 0 <= i < d1.len() ==> d1[i] == '-',
        forall|i: int| 0 <= i < d2.len() ==> d2[i] == '-',
    ensures
        text::non_empty(text::split(d1 + z + d2, '-')) == text::non_empty(text::split(z, '-')),
{
    let nonempty = |p: Seq<char>| p.len() > 0;
    let zd = z + d2;
    if d2.len() > 0 {
        let rest = d2.drop_first();
        assert(zd =~= z.push('-') + rest);
        text::lemma_split_concat(z, rest, '-');
        assert forall|i: int| 0 <= i < rest.len() implies rest[i] == '-' by {
            assert(rest[i] == d2[i + 1]);
        }
        text::lemma_split_all_sep(rest, '-');
        Seq::filter_distributes_over_add(text::split(z, '-'), text::split(rest, '-'), nonempty);
        assert(text::non_empty(text::split(zd, '-')) =~= text::non_empty(text::split(z, '-')));
    } else {
        assert(zd =~= z);
    }
    if d1.len() > 0 {
        let front = d1.drop_last();
        assert(d1 + z + d2 =~= front.push('-') + zd);
        text::lemma_split_concat(front, zd, '-');
        assert forall|i: int| 0 <= i < front.len() implies front[i] == '-' by {
            assert(front[i] == d1[i]);
        }
        text::lemma_split_all_sep(front, '-');
        Seq::filter_distributes_over_add(text::split(front, '-'), text::split(zd, '-'), nonempty);
        assert(text::non_empty(text::split(d1 + z + d2, '-')) =~= text::non_empty(text::split(zd, '-')));
    } else {
        assert(d1 + z + d2 =~= zd);
    }
}

/// White space around an ASCII text does not change its slug: trimming
/// first or not gives the same slug.
pub proof fn lemma_ascii_slug_untrimmed(x: Seq<char>)
    ensures
        ascii_slug_of(x) == slug_of_lowercase(x.map_values(|c: char| ascii_lower(c))),
{
    let u = text::trim_start(x);
    let t = text::trim_end(u);
    text::lemma_trim_start_shape(x);
    text::lemma_trim_end_shape(u);
    text::lemma_trim_start_drops_white_space(x);
    text::lemma_trim_end_drops_white_space(u);
    let k = x.len() - u.len();
    let p = x.take(k);
    let sfx = x.subrange(k + t.len(), x.len() as int);
    assert(u =~= x.subrange(k, x.len() as int));
    assert(t =~= u.take(t.len() as int));
    assert(x =~= p + t + sfx);
    let low = |c: char| ascii_lower(c);
    let sc = |c: char| slug_char(c);
    let mp = p.map_values(low).map_values(sc);
    let mt = t.map_values(low).map_values(sc);
    let ms = sfx.map_values(low).map_values(sc);
    assert forall|i: int| 0 <= i < mp.len() implies mp[i] == '-' by {
        assert(text::is_white_space(x[i]));
        assert(p[i] == x[i]);
    }
    assert forall|i: int| 0 <= i < ms.len() implies ms[i] == '-' by {
        assert(sfx[i] == u[t.len() + i]);
        assert(text::is_white_space(u[t.len() + i]));
    }
    assert(x.map_values(low).map_values(sc) =~= mp + mt + ms);
    lemma_dash_padding(mp, mt, ms);
}

/// The slug of two ASCII texts joined by a space, when each has a
/// non-empty slug, is their slugs joined by a dash.
pub proof fn lemma_ascii_slug_concat(a: Seq<char>, b: Seq<char>)
    requires
        ascii_slug_of(a).len() > 0,
        ascii_slug_of(b).len() > 0,
    ensures
        ascii_slug_of(a + seq![' '] + b) == ascii_slug_of(a) + seq!['-'] + ascii_slug_of(b),
{
    let low = |c: char| ascii_lower(c);
    let sc = |c: char| slug_char(c);
    let ab = a + seq![' '] + b;
    lemma_ascii_slug_untrimmed(a);
    lemma_ascii_slug_untrimmed(b);
    lemma_ascii_slug_untrimmed(ab);
    let ma = a.map_values(low).map_values(sc);
    let mb = b.map_values(low).map_values(sc);
    assert(ab.map_values(low).map_values(sc) =~= ma.push('-') + mb);
    text::lemma_split_concat(ma, mb, '-');
    let nonempty = |p: Seq<char>| p.len() > 0;
    Seq::filter_distributes_over_add(text::split(ma, '-'), text::split(mb, '-'), nonempty);
    let pa = text::non_empty(text::split(ma, '-'));
    let pb = text::non_empty(text::split(mb, '-'));
    if pa.len() == 0 {
        assert(text::join(pa, '-') == Seq::<char>::empty());
    }
    if pb.len() == 0 {
        assert(text::join(pb, '-') == Seq::<char>::empty());
    }
    text::lemma_join_concat(pa, pb, '-');
    assert(ascii_slug_of(ab) =~= ascii_slug_of(a) + seq!['-'] + ascii_slug_of(b));
}

} // verus!
