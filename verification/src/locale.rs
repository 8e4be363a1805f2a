//! Locale names as they appear in the paths of Fluent files.
use vstd::prelude::*;

use crate::dto::opt_view;
use crate::text;

verus! {

broadcast use vstd::string::group_string_axioms;

/// The number of bytes in the UTF-8 encoding of `c`.
pub open spec fn utf8_width(c: char) -> int {
    let u = c as u32;
    if u < 0x80 {
        1
    } else if u < 0x800 {
        2
    } else if u < 0x10000 {
        3
    } else {
        4
    }
}

/// The number of bytes in the UTF-8 encoding of `s`: what `str::len` gives.
pub open spec fn utf8_len(s: Seq<char>) -> int
    decreases s.len(),
{
    if s.len() == 0 {
        0
    } else {
        utf8_len(s.drop_last()) + utf8_width(s.last())
    }
}

/// A locale name with underscores written as dashes (`en_US` is `en-US`).
pub open spec fn normalized_locale(value: Seq<char>) -> Seq<char> {
    text::replace_char(value, '_', '-')
}

/// A language subtag: two or three bytes long.
pub open spec fn is_language_code(p: Seq<char>) -> bool {
    utf8_len(p) == 2 || utf8_len(p) == 3
}

/// A region or script subtag: two or four bytes long.
pub open spec fn is_region_code(p: Seq<char>) -> bool {
    utf8_len(p) == 2 || utf8_len(p) == 4
}

/// `value` has the shape of a locale: a language subtag, optionally
/// followed by one region subtag, separated by `-` or `_`.
pub open spec fn looks_like_locale(value: Seq<char>) -> bool {
    let parts = text::split(normalized_locale(value), '-');
    ||| parts.len() == 1 && is_language_code(parts[0])
    ||| parts.len() == 2 && is_language_code(parts[0]) && is_region_code(parts[1])
}

/// `utf8_len` grows by one character's width at a time.
proof fn lemma_utf8_len_nonneg(s: Seq<char>)
    ensures
        utf8_len(s) >= s.len(),
    decreases s.len(),
{
    if s.len() > 0 {
        lemma_utf8_len_nonneg(s.drop_last());
    }
}

/// The UTF-8 length of `s`, or 5 when it is longer than four bytes.
pub fn utf8_len_capped(s: &[char]) -> (r: usize)
    ensures
        r == if utf8_len(s@) > 4 {
            5
        } else {
            utf8_len(s@)
        },
{
    let mut total: usize = 0;
    for i in 0..s.len()
        invariant
            total == if utf8_len(s@.take(i as int)) > 4 {
                5
            } else {
                utf8_len(s@.take(i as int))
            },
    {
        assert(s@.take(i + 1).drop_last() =~= s@.take(i as int));
        proof {
            lemma_utf8_len_nonneg(s@.take(i as int));
        }
        let u = s[i] as u32;
        let w: usize = if u < 0x80 {
            1
        } else if u < 0x800 {
            2
        } else if u < 0x10000 {
            3
        } else {
            4
        };
        if total + w > 4 {
            total = 5;
        } else {
            total = total + w;
        }
    }
    assert(s@.take(s@.len() as int) =~= s@);
    total
}

/// `value` with underscores written as dashes.
pub fn normalize_locale(value: &str) -> (out: String)
    ensures
        out@ == normalized_locale(value@),
{
    let cs = text::chars_of(value);
    let r = text::replace_chars(cs.as_slice(), '_', '-');
    text::string_from(r.as_slice())
}

/// Whether `value` has the shape of a locale name.
pub fn is_locale_like(value: &[char]) -> (r: bool)
    ensures
        r == looks_like_locale(value@),
{
    let normalized = text::replace_chars(value, '_', '-');
    let parts = text::split_chars(normalized.as_slice(), '-');
    let ghost ps = text::texts(parts@);
    assert(ps == text::split(normalized_locale(value@), '-'));
    if parts.len() == 1 {
        assert(parts@[0]@ == ps[0]);
        let n = utf8_len_capped(parts[0].as_slice());
        n == 2 || n == 3
    } else if parts.len() == 2 {
        assert(parts@[0]@ == ps[0]);
        assert(parts@[1]@ == ps[1]);
        let n = utf8_len_capped(parts[0].as_slice());
        let m = utf8_len_capped(parts[1].as_slice());
        (n == 2 || n == 3) && (m == 2 || m == 4)
    } else {
        false
    }
}

/// Whether the text `value` has the shape of a locale name.
pub fn looks_like_locale_str(value: &str) -> (r: bool)
    ensures
        r == looks_like_locale(value@),
{
    let cs = text::chars_of(value);
    is_locale_like(cs.as_slice())
}

/// The first piece that has the shape of a locale, if any.
pub open spec fn first_locale_part(parts: Seq<Seq<char>>) -> Option<Seq<char>>
    decreases parts.len(),
{
    if parts.len() == 0 {
        None
    } else if looks_like_locale(parts[0]) {
        Some(parts[0])
    } else {
        first_locale_part(parts.drop_first())
    }
}

/// The first `/`-separated component of `path` that looks like a locale.
pub fn first_locale_component(path: &[char]) -> (out: Option<Vec<char>>)
    ensures
        match out {
            Some(p) => first_locale_part(text::split(path@, '/')) == Some(p@),
            None => first_locale_part(text::split(path@, '/')) is None,
        },
{
    let parts = text::split_chars(path, '/');
    let ghost all = text::texts(parts@);
    let mut i: usize = 0;
    assert(all.skip(0) =~= all);
    while i < parts.len()
        invariant
            all == text::texts(parts@),
            all == text::split(path@, '/'),
            i <= parts@.len(),
            first_locale_part(all) == first_locale_part(all.skip(i as int)),
        decreases parts.len() - i,
    {
        assert(all.skip(i as int)[0] == parts@[i as int]@);
        assert(all.skip(i as int).drop_first() =~= all.skip(i + 1));
        if is_locale_like(parts[i].as_slice()) {
            return Some(text::copy_chars(parts[i].as_slice()));
        }
        i += 1;
    }
    None
}

/// The locale of a file of a project: the first path component that looks
/// like a locale, with dashes; failing that, the project's source locale.
pub open spec fn project_path_locale(path: Seq<char>, source_locale: Option<Seq<char>>) -> Option<
    Seq<char>,
> {
    match first_locale_part(text::split(path, '/')) {
        Some(p) => Some(normalized_locale(p)),
        None => source_locale,
    }
}

/// The locale of the project file at `path`.
pub fn infer_locale_from_project_path(path: &str, source_locale: Option<&str>) -> (out: Option<String>)
    ensures
        opt_view(out) == project_path_locale(
            path@,
            match source_locale {
                Some(s) => Some(s@),
                None => None,
            },
        ),
{
    let cs = text::chars_of(path);
    match first_locale_component(cs.as_slice()) {
        Some(p) => {
            let r = text::replace_chars(p.as_slice(), '_', '-');
            Some(text::string_from(r.as_slice()))
        },
        None => match source_locale {
            Some(s) => Some(s.to_string()),
            None => None,
        },
    }
}

/// `p` without one final `.ftl`.
pub open spec fn without_ftl(p: Seq<char>) -> Seq<char> {
    if ".ftl"@.is_suffix_of(p) {
        p.take(p.len() - 4)
    } else {
        p
    }
}

/// The locale a scanned file's path suggests: the first path component that
/// looks like a locale, else the file name without `.ftl` if it looks like
/// one; with dashes for underscores.
pub open spec fn scanned_path_locale(path: Seq<char>) -> Option<Seq<char>> {
    let parts = text::split(path, '/');
    match first_locale_part(parts) {
        Some(p) => Some(normalized_locale(p)),
        None => {
            let stem = without_ftl(parts.last());
            if looks_like_locale(stem) {
                Some(normalized_locale(stem))
            } else {
                None
            }
        },
    }
}

/// The locale that the path of a scanned Fluent file suggests.
pub fn infer_locale_from_path(path: &str) -> (out: Option<String>)
    ensures
        opt_view(out) == scanned_path_locale(path@),
{
    let cs = text::chars_of(path);
    match first_locale_component(cs.as_slice()) {
        Some(p) => {
            let r = text::replace_chars(p.as_slice(), '_', '-');
            Some(text::string_from(r.as_slice()))
        },
        None => {
            let parts = text::split_chars(cs.as_slice(), '/');
            proof {
                text::lemma_split_nonempty(path@, '/');
            }
            let last = &parts[parts.len() - 1];
            assert(last@ == text::split(path@, '/').last());
            let suffix = text::chars_of(".ftl");
            proof {
                reveal_strlit(".ftl");
            }
            let stem = if text::ends_with(last.as_slice(), suffix.as_slice()) {
                text::sub_chars(last.as_slice(), 0, last.len() - 4)
            } else {
                text::copy_chars(last.as_slice())
            };
            assert(stem@ =~= without_ftl(last@));
            if is_locale_like(stem.as_slice()) {
                let r = text::replace_chars(stem.as_slice(), '_', '-');
                Some(text::string_from(r.as_slice()))
            } else {
                None
            }
        },
    }
}

// ---------------------------------------------------------------------------
// Laws
// ---------------------------------------------------------------------------

/// The part `first_locale_part` picks has the shape of a locale.
proof fn lemma_first_locale_part_shape(parts: Seq<Seq<char>>)
    ensures
        first_locale_part(parts) matches Some(p) ==> looks_like_locale(p),
    decreases parts.len(),
{
    if parts.len() > 0 && !looks_like_locale(parts[0]) {
        lemma_first_locale_part_shape(parts.drop_first());
    }
}

/// A locale written with dashes keeps its shape, and has no underscore.
proof fn lemma_normalized_shape(p: Seq<char>)
    ensures
        looks_like_locale(normalized_locale(p)) == looks_like_locale(p),
        !normalized_locale(p).contains('_'),
{
    assert(normalized_locale(normalized_locale(p)) =~= normalized_locale(p));
}

/// A locale inferred from a scanned file's path has the shape of a locale
/// and is written with dashes.
pub proof fn lemma_scanned_locale_shape(path: Seq<char>)
    ensures
        scanned_path_locale(path) matches Some(l) ==> looks_like_locale(l) && !l.contains('_'),
{
    let parts = text::split(path, '/');
    lemma_first_locale_part_shape(parts);
    match first_locale_part(parts) {
        Some(p) => lemma_normalized_shape(p),
        None => lemma_normalized_shape(without_ftl(parts.last())),
    }
}

/// A locale inferred from a project file's path, rather than taken from the
/// source locale, has the shape of a locale and is written with dashes.
pub proof fn lemma_project_locale_shape(path: Seq<char>)
    ensures
        first_locale_part(text::split(path, '/')) is Some ==> (project_path_locale(path, None) matches Some(l)
            && looks_like_locale(l) && !l.contains('_')),
{
    let parts = text::split(path, '/');
    lemma_first_locale_part_shape(parts);
    match first_locale_part(parts) {
        Some(p) => lemma_normalized_shape(p),
        None => {},
    }
}

} // verus!
