//! Scanning a repository for its Fluent files: which directory holds the
//! translations, and which locale is the source.
use vstd::prelude::*;

use crate::dto::{opt_view, FluentDirectoryDto, FluentFileDto};
use crate::dto::ProjectScanDto;
use crate::github::{root_path, GithubTreeFile};
use crate::helpers::{lowercase, to_lowercase};
use crate::keyed::{has_text, insert_text_sorted, strictly_sorted_texts};
use crate::locale;
use crate::text;

verus! {

broadcast use vstd::string::group_string_axioms;

// ---------------------------------------------------------------------------
// Directories of files
// ---------------------------------------------------------------------------

/// A directory path with surrounding slashes and white space removed; the
/// empty path is the root `"."`.
pub open spec fn normalized_directory_path(path: Seq<char>) -> Seq<char> {
    let p = text::trim(text::trim_matches(path, '/'));
    if p.len() == 0 {
        root_path()
    } else {
        p
    }
}

/// The position of the first component equal to `locale`, underscores and
/// dashes taken as the same.
pub open spec fn locale_position(parts: Seq<Seq<char>>, locale: Seq<char>) -> Option<int>
    decreases parts.len(),
{
    if parts.len() == 0 {
        None
    } else if locale::normalized_locale(parts[0]) == locale::normalized_locale(locale) {
        Some(0)
    } else {
        match locale_position(parts.drop_first(), locale) {
            Some(i) => Some(i + 1),
            None => None,
        }
    }
}

/// The text before the last `/` of `path`, or `"."` when there is none.
pub open spec fn parent_directory(path: Seq<char>) -> Seq<char> {
    let parts = text::split(path, '/');
    if parts.len() <= 1 {
        root_path()
    } else {
        text::join(parts.drop_last(), '/')
    }
}

/// The directory that holds a Fluent file's translations: the path up to
/// the component naming its locale, or else the directory of the file.
pub open spec fn fluent_directory(path: Seq<char>, locale: Option<Seq<char>>) -> Seq<char> {
    let parts = text::split(path, '/');
    match locale {
        Some(l) => match locale_position(parts, l) {
            Some(i) => normalized_directory_path(text::join(parts.take(i), '/')),
            None => normalized_directory_path(parent_directory(path)),
        },
        None => normalized_directory_path(parent_directory(path)),
    }
}

/// A directory path with surrounding slashes and white space removed, or `"."`.
pub fn normalize_directory_path(path: &[char]) -> (out: Vec<char>)
    ensures
        out@ == normalized_directory_path(path@),
{
    let p = text::trim_matches_chars(path, '/');
    let p = text::trim_chars(p.as_slice());
    if p.len() == 0 {
        let mut root: Vec<char> = Vec::new();
        root.push('.');
        assert(root@ =~= root_path());
        root
    } else {
        p
    }
}

/// A position found lies inside the sequence.
proof fn lemma_locale_position_bound(parts: Seq<Seq<char>>, locale: Seq<char>)
    ensures
        locale_position(parts, locale) matches Some(i) ==> 0 <= i < parts.len(),
    decreases parts.len(),
{
    if parts.len() > 0 {
        lemma_locale_position_bound(parts.drop_first(), locale);
    }
}

/// The position of the first component equal to `locale`, if any.
fn find_locale_position(parts: &Vec<Vec<char>>, locale: &[char]) -> (out: Option<usize>)
    ensures
        match out {
            Some(i) => locale_position(text::texts(parts@), locale@) == Some(i as int),
            None => locale_position(text::texts(parts@), locale@) is None,
        },
{
    let wanted = text::replace_chars(locale, '_', '-');
    let ghost all = text::texts(parts@);
    let mut i: usize = 0;
    assert(all.skip(0) =~= all);
    while i < parts.len()
        invariant
            all == text::texts(parts@),
            wanted@ == locale::normalized_locale(locale@),
            i <= parts@.len(),
            locale_position(all, locale@) == match locale_position(all.skip(i as int), locale@) {
                Some(j) => Some(j + i),
                None => None,
            },
        decreases parts.len() - i,
    {
        assert(all.skip(i as int)[0] == parts@[i as int]@);
        assert(all.skip(i as int).drop_first() =~= all.skip(i + 1));
        let candidate = text::replace_chars(parts[i].as_slice(), '_', '-');
        if text::chars_eq(candidate.as_slice(), wanted.as_slice()) {
            return Some(i);
        }
        i += 1;
    }
    None
}

/// The text before the last `/` of `path`, or `"."`.
fn parent_of(path: &[char]) -> (out: Vec<char>)
    ensures
        out@ == parent_directory(path@),
{
    let mut parts = text::split_chars(path, '/');
    if parts.len() <= 1 {
        let mut root: Vec<char> = Vec::new();
        root.push('.');
        assert(root@ =~= root_path());
        return root;
    }
    let ghost all = text::texts(parts@);
    parts.pop();
    assert(text::texts(parts@) =~= all.drop_last());
    text::join_chars(&parts, '/')
}

/// The directory that holds the translations of the Fluent file at `path`.
pub fn fluent_directory_for_path(path: &str, locale: Option<&str>) -> (out: String)
    ensures
        out@ == fluent_directory(
            path@,
            match locale {
                Some(l) => Some(l@),
                None => None,
            },
        ),
{
    let cs = text::chars_of(path);
    let out = directory_of(cs.as_slice(), locale);
    text::string_from(out.as_slice())
}

/// The directory that holds the translations of the Fluent file at `path`, as characters.
fn directory_of(path: &[char], locale: Option<&str>) -> (out: Vec<char>)
    ensures
        out@ == fluent_directory(
            path@,
            match locale {
                Some(l) => Some(l@),
                None => None,
            },
        ),
{
    if let Some(l) = locale {
        let lc = text::chars_of(l);
        let parts = text::split_chars(path, '/');
        if let Some(i) = find_locale_position(&parts, lc.as_slice()) {
            proof {
                lemma_locale_position_bound(text::texts(parts@), lc@);
            }
            let mut front: Vec<Vec<char>> = Vec::new();
            for k in 0..i
                invariant
                    i <= parts@.len(),
                    text::texts(front@) == text::texts(parts@).take(k as int),
            {
                let ghost before = text::texts(front@);
                front.push(text::copy_chars(parts[k].as_slice()));
                assert(text::texts(front@) =~= before.push(parts@[k as int]@));
                assert(text::texts(parts@).take(k + 1) =~= text::texts(parts@).take(k as int).push(
                    parts@[k as int]@,
                ));
            }
            let joined = text::join_chars(&front, '/');
            return normalize_directory_path(joined.as_slice());
        }
    }
    let parent = parent_of(path);
    normalize_directory_path(parent.as_slice())
}

// ---------------------------------------------------------------------------
// Scores
// ---------------------------------------------------------------------------

/// Directory names that point at translations.
pub open spec fn is_translations_name(p: Seq<char>) -> bool {
    ||| p == "locales"@
    ||| p == "locale"@
    ||| p == "translations"@
    ||| p == "translation"@
    ||| p == "i18n"@
    ||| p == "l10n"@
}

/// Directory names that point at examples and tests.
pub open spec fn is_example_name(p: Seq<char>) -> bool {
    ||| p == "examples"@
    ||| p == "example"@
    ||| p == "demo"@
    ||| p == "demos"@
    ||| p == "test"@
    ||| p == "tests"@
    ||| p == "fixtures"@
    ||| p == "fixture"@
    ||| p == "samples"@
    ||| p == "sample"@
}

/// Directory names that point at dependencies and build output.
pub open spec fn is_build_name(p: Seq<char>) -> bool {
    ||| p == "node_modules"@
    ||| p == "target"@
    ||| p == "dist"@
    ||| p == "build"@
    ||| p == "vendor"@
}

/// What one path component adds to a directory's score.
pub open spec fn part_weight(p: Seq<char>) -> int {
    if is_translations_name(p) {
        40
    } else if is_example_name(p) {
        -80
    } else if is_build_name(p) {
        -120
    } else {
        0
    }
}

/// The sum of the weights of the components.
pub open spec fn parts_weight(parts: Seq<Seq<char>>) -> int
    decreases parts.len(),
{
    if parts.len() == 0 {
        0
    } else {
        parts_weight(parts.drop_last()) + part_weight(parts.last())
    }
}

/// The score of a directory, from its lowercased path and what it holds:
/// 4 per file, 12 per locale, and the weights of its path components.
pub open spec fn exact_directory_score(lower_path: Seq<char>, files_count: int, locales_count: int) -> int {
    4 * files_count + 12 * locales_count + parts_weight(text::split(lower_path, '/'))
}

/// The score as an `i32`: the exact score wrapped into the type's range, as
/// 32-bit arithmetic on the counts gives it.
pub open spec fn directory_score(path: Seq<char>, files_count: int, locales_count: int) -> i32 {
    exact_directory_score(lowercase(path), files_count, locales_count) as i32
}

/// The weight of one lowercased path component.
fn weight_of(p: &[char]) -> (w: i128)
    ensures
        w == part_weight(p@),
{
    if text::chars_eq_str(p, "locales") || text::chars_eq_str(p, "locale") || text::chars_eq_str(
        p,
        "translations",
    ) || text::chars_eq_str(p, "translation") || text::chars_eq_str(p, "i18n")
        || text::chars_eq_str(p, "l10n") {
        40
    } else if text::chars_eq_str(p, "examples") || text::chars_eq_str(p, "example")
        || text::chars_eq_str(p, "demo") || text::chars_eq_str(p, "demos") || text::chars_eq_str(
        p,
        "test",
    ) || text::chars_eq_str(p, "tests") || text::chars_eq_str(p, "fixtures")
        || text::chars_eq_str(p, "fixture") || text::chars_eq_str(p, "samples")
        || text::chars_eq_str(p, "sample") {
        -80
    } else if text::chars_eq_str(p, "node_modules") || text::chars_eq_str(p, "target")
        || text::chars_eq_str(p, "dist") || text::chars_eq_str(p, "build") || text::chars_eq_str(
        p,
        "vendor",
    ) {
        -120
    } else {
        0
    }
}

/// The score of a directory whose path is already lowercased.
pub fn score_lowercase_directory(lower_path: &str, files_count: usize, locales_count: usize) -> (score: i32)
    ensures
        score == exact_directory_score(lower_path@, files_count as int, locales_count as int) as i32,
{
    let cs = text::chars_of(lower_path);
    let parts = text::split_chars(cs.as_slice(), '/');
    let ghost all = text::texts(parts@);
    let mut acc: i128 = 0;
    for k in 0..parts.len()
        invariant
            all == text::texts(parts@),
            parts@.len() <= usize::MAX,
            acc == parts_weight(all.take(k as int)),
            -120 * k <= acc <= 40 * k,
    {
        assert(all.take(k + 1).drop_last() =~= all.take(k as int));
        assert(all.take(k + 1).last() == parts@[k as int]@);
        let w = weight_of(parts[k].as_slice());
        acc = acc + w;
    }
    assert(all.take(all.len() as int) =~= all);
    let exact: i128 = 4 * (files_count as i128) + 12 * (locales_count as i128) + acc;
    exact as i32
}

/// The score of a directory as a translations directory.
pub fn score_fluent_directory(path: &str, files_count: usize, locales_count: usize) -> (score: i32)
    ensures
        score == directory_score(path@, files_count as int, locales_count as int),
        crate::helpers::is_ascii_text(path@) ==> score == exact_directory_score(
            path@.map_values(|c: char| crate::helpers::ascii_lower(c)),
            files_count as int,
            locales_count as int,
        ) as i32,
{
    let lower = to_lowercase(path);
    score_lowercase_directory(lower.as_str(), files_count, locales_count)
}

// ---------------------------------------------------------------------------
// Selections and suggestions
// ---------------------------------------------------------------------------

/// A scanned file as plain values: path and locale.
pub open spec fn file_view(f: FluentFileDto) -> (Seq<char>, Option<Seq<char>>) {
    (f.path@, opt_view(f.locale))
}

/// The files under `directory`: all of them for the root `"."`, otherwise
/// those whose path starts with the directory and a `/`.
pub open spec fn files_under(files: Seq<FluentFileDto>, directory: Seq<char>) -> Seq<FluentFileDto> {
    if directory == root_path() {
        files
    } else {
        files.filter(|f: FluentFileDto| directory.push('/').is_prefix_of(f.path@))
    }
}

/// A copy of a scanned file.
pub fn copy_file(f: &FluentFileDto) -> (out: FluentFileDto)
    ensures
        out == *f,
{
    FluentFileDto {
        path: f.path.clone(),
        locale: match &f.locale {
            Some(l) => Some(l.clone()),
            None => None,
        },
    }
}

/// The files that lie under `directory`.
pub fn files_in_directory(files: &[FluentFileDto], directory: &str) -> (out: Vec<FluentFileDto>)
    ensures
        out@ == files_under(files@, directory@),
{
    let dc = text::chars_of(directory);
    let mut prefix = text::copy_chars(dc.as_slice());
    let is_root = dc.len() == 1 && dc[0] == '.';
    assert(is_root == (directory@ == root_path())) by {
        if dc@.len() == 1 {
            assert(is_root ==> directory@ =~= root_path());
        }
    }
    prefix.push('/');
    let mut out: Vec<FluentFileDto> = Vec::new();
    for i in 0..files.len()
        invariant
            prefix@ == directory@.push('/'),
            is_root == (directory@ == root_path()),
            is_root ==> out@ == files@.take(i as int),
            !is_root ==> out@ == files@.take(i as int).filter(
                |f: FluentFileDto| directory@.push('/').is_prefix_of(f.path@),
            ),
    {
        proof {
            reveal(Seq::filter);
            assert(files@.take(i + 1).drop_last() =~= files@.take(i as int));
            assert(files@.take(i + 1) =~= files@.take(i as int).push(files@[i as int]));
        }
        let f = &files[i];
        let pc = text::chars_of(f.path.as_str());
        if is_root || text::starts_with(pc.as_slice(), prefix.as_slice()) {
            out.push(copy_file(f));
        }
    }
    assert(files@.take(files@.len() as int) =~= files@);
    out
}

/// Some file has the locale `l`.
pub open spec fn has_file_locale(files: Seq<FluentFileDto>, l: Seq<char>) -> bool {
    exists|i: int| 0 <= i < files.len() && #[trigger] opt_view(files[i].locale) == Some(l)
}

/// The locale of the first file that has one.
pub open spec fn first_file_locale(files: Seq<FluentFileDto>) -> Option<Seq<char>>
    decreases files.len(),
{
    if files.len() == 0 {
        None
    } else if files[0].locale is Some {
        opt_view(files[0].locale)
    } else {
        first_file_locale(files.drop_first())
    }
}

/// The source locale to suggest: `en-US`, `en` or `en-GB`, the first of
/// them that some file has; else the first locale found.
pub open spec fn suggested_source_locale(files: Seq<FluentFileDto>) -> Option<Seq<char>> {
    if has_file_locale(files, "en-US"@) {
        Some("en-US"@)
    } else if has_file_locale(files, "en"@) {
        Some("en"@)
    } else if has_file_locale(files, "en-GB"@) {
        Some("en-GB"@)
    } else {
        first_file_locale(files)
    }
}

/// Whether some file has the locale `l`.
fn any_file_has_locale(files: &[FluentFileDto], l: &str) -> (r: bool)
    ensures
        r == has_file_locale(files@, l@),
{
    for i in 0..files.len()
        invariant
            forall|j: int| 0 <= j < i ==> opt_view(#[trigger] files@[j].locale) != Some(l@),
    {
        match &files[i].locale {
            Some(fl) => {
                if text::str_eq(fl.as_str(), l) {
                    assert(opt_view(files@[i as int].locale) == Some(l@));
                    return true;
                }
            },
            None => {},
        }
    }
    false
}

/// The source locale to suggest for the scanned files.
pub fn suggest_source_locale(files: &[FluentFileDto]) -> (out: Option<String>)
    ensures
        opt_view(out) == suggested_source_locale(files@),
{
    if any_file_has_locale(files, "en-US") {
        return Some("en-US".to_string());
    }
    if any_file_has_locale(files, "en") {
        return Some("en".to_string());
    }
    if any_file_has_locale(files, "en-GB") {
        return Some("en-GB".to_string());
    }
    let mut i: usize = 0;
    assert(files@.skip(0) =~= files@);
    while i < files.len()
        invariant
            i <= files@.len(),
            !has_file_locale(files@, "en-US"@),
            !has_file_locale(files@, "en"@),
            !has_file_locale(files@, "en-GB"@),
            first_file_locale(files@) == first_file_locale(files@.skip(i as int)),
        decreases files.len() - i,
    {
        assert(files@.skip(i as int)[0] == files@[i as int]);
        assert(files@.skip(i as int).drop_first() =~= files@.skip(i + 1));
        match &files[i].locale {
            Some(l) => {
                return Some(l.clone());
            },
            None => {},
        }
        i += 1;
    }
    None
}

/// The translations directory to suggest when no directory is recommended:
/// that of the first file.
pub open spec fn suggested_locales_path(files: Seq<FluentFileDto>) -> Option<Seq<char>> {
    if files.len() == 0 {
        None
    } else {
        Some(fluent_directory(files[0].path@, opt_view(files[0].locale)))
    }
}

/// The translations directory of the first file, if any.
pub fn suggest_locales_path(files: &[FluentFileDto]) -> (out: Option<String>)
    ensures
        opt_view(out) == suggested_locales_path(files@),
{
    if files.len() == 0 {
        return None;
    }
    let first = &files[0];
    let locale = match &first.locale {
        Some(l) => Some(l.as_str()),
        None => None,
    };
    Some(fluent_directory_for_path(first.path.as_str(), locale))
}

// ---------------------------------------------------------------------------
// Candidate directories
// ---------------------------------------------------------------------------

/// The directory that holds a scanned file's translations.
pub open spec fn dir_key(f: FluentFileDto) -> Seq<char> {
    fluent_directory(f.path@, opt_view(f.locale))
}

/// The number of files whose translations directory is `d`.
pub open spec fn count_in_dir(files: Seq<FluentFileDto>, d: Seq<char>) -> nat
    decreases files.len(),
{
    if files.len() == 0 {
        0
    } else {
        count_in_dir(files.drop_last(), d) + if dir_key(files.last()) == d {
            1nat
        } else {
            0nat
        }
    }
}

/// Some file in the directory `d` has the locale `l`.
pub open spec fn dir_has_locale(files: Seq<FluentFileDto>, d: Seq<char>, l: Seq<char>) -> bool {
    exists|k: int|
        0 <= k < files.len() && dir_key(files[k]) == d && opt_view(files[k].locale) == Some(l)
}

/// Some file lies in the directory `d`.
pub open spec fn is_dir_of(files: Seq<FluentFileDto>, d: Seq<char>) -> bool {
    exists|k: int| 0 <= k < files.len() && dir_key(files[k]) == d
}

/// `locales` lists, in increasing order and once each, the locales of the
/// files in the directory `d`.
pub open spec fn lists_dir_locales(locales: Seq<String>, files: Seq<FluentFileDto>, d: Seq<char>) -> bool {
    &&& strictly_sorted_texts(locales)
    &&& forall|i: int| 0 <= i < locales.len() ==> #[trigger] dir_has_locale(files, d, locales[i]@)
    &&& forall|l: Seq<char>| #[trigger] dir_has_locale(files, d, l) ==> has_text(locales, l)
}

/// `dto` describes the directory it names among `files`: the number of
/// files in it, their locales, and its score.
pub open spec fn describes_directory(dto: FluentDirectoryDto, files: Seq<FluentFileDto>) -> bool {
    &&& is_dir_of(files, dto.path@)
    &&& dto.files_count == count_in_dir(files, dto.path@)
    &&& lists_dir_locales(dto.locales@, files, dto.path@)
    &&& dto.score == directory_score(
        dto.path@,
        dto.files_count as int,
        dto.locales@.len() as int,
    )
}

/// `a` ranks before `b`: higher score, then more files, then more
/// locales, then the path that comes first.
pub open spec fn dir_precedes(a: FluentDirectoryDto, b: FluentDirectoryDto) -> bool {
    ||| a.score > b.score
    ||| a.score == b.score && a.files_count > b.files_count
    ||| a.score == b.score && a.files_count == b.files_count && a.locales@.len() > b.locales@.len()
    ||| a.score == b.score && a.files_count == b.files_count && a.locales@.len() == b.locales@.len()
        && text::seq_lt(a.path@, b.path@)
}

/// `out` ranks the translations directories of `files`: one entry for each
/// directory that holds some file, best first, and only the first recommended.
pub open spec fn detected_directories(out: Seq<FluentDirectoryDto>, files: Seq<FluentFileDto>) -> bool {
    &&& forall|i: int, j: int| 0 <= i < j < out.len() ==> dir_precedes(#[trigger] out[i], #[trigger] out[j])
    &&& forall|i: int| 0 <= i < out.len() ==> #[trigger] describes_directory(out[i], files)
    &&& forall|k: int| 0 <= k < files.len() ==> #[trigger] has_directory(out, dir_key(files[k]))
    &&& forall|i: int| 0 <= i < out.len() ==> (#[trigger] out[i]).recommended == (i == 0)
}

/// Some entry of `out` names the directory `d`.
pub open spec fn has_directory(out: Seq<FluentDirectoryDto>, d: Seq<char>) -> bool {
    exists|i: int| 0 <= i < out.len() && out[i].path@ == d
}

/// The ranking is transitive.
proof fn lemma_dir_precedes_transitive(a: FluentDirectoryDto, b: FluentDirectoryDto, c: FluentDirectoryDto)
    requires
        dir_precedes(a, b),
        dir_precedes(b, c),
    ensures
        dir_precedes(a, c),
{
    if a.score == b.score && b.score == c.score && a.files_count == b.files_count && b.files_count
        == c.files_count && a.locales@.len() == b.locales@.len() && b.locales@.len()
        == c.locales@.len() {
        text::lemma_seq_lt_transitive(a.path@, b.path@, c.path@);
    }
}

/// Entries with different paths are ranked one way or the other.
proof fn lemma_dir_precedes_total(a: FluentDirectoryDto, b: FluentDirectoryDto)
    requires
        a.path@ != b.path@,
    ensures
        dir_precedes(a, b) || dir_precedes(b, a),
{
    text::lemma_seq_lt_total(a.path@, b.path@);
}

/// How the counts and locales of directories change with one more file.
proof fn lemma_dir_push(files: Seq<FluentFileDto>, f: FluentFileDto, d: Seq<char>)
    ensures
        count_in_dir(files.push(f), d) == count_in_dir(files, d) + if dir_key(f) == d {
            1nat
        } else {
            0nat
        },
        is_dir_of(files.push(f), d) == (is_dir_of(files, d) || dir_key(f) == d),
        forall|l: Seq<char>|
            #[trigger] dir_has_locale(files.push(f), d, l) == (dir_has_locale(files, d, l) || (
            dir_key(f) == d && opt_view(f.locale) == Some(l))),
{
    let post = files.push(f);
    assert(post.drop_last() =~= files);
    if is_dir_of(post, d) && !is_dir_of(files, d) {
        let k = choose|k: int| 0 <= k < post.len() && dir_key(post[k]) == d;
        if k < files.len() {
            assert(files[k] == post[k]);
        }
    }
    if is_dir_of(files, d) {
        let k = choose|k: int| 0 <= k < files.len() && dir_key(files[k]) == d;
        assert(post[k] == files[k]);
    }
    if dir_key(f) == d {
        assert(post[files.len() as int] == f);
    }
    assert forall|l: Seq<char>|
        #[trigger] dir_has_locale(post, d, l) == (dir_has_locale(files, d, l) || (dir_key(f) == d
            && opt_view(f.locale) == Some(l))) by {
        if dir_has_locale(post, d, l) {
            let k = choose|k: int|
                0 <= k < post.len() && dir_key(post[k]) == d && opt_view(post[k].locale) == Some(l);
            if k < files.len() {
                assert(files[k] == post[k]);
            }
        }
        if dir_has_locale(files, d, l) {
            let k = choose|k: int|
                0 <= k < files.len() && dir_key(files[k]) == d && opt_view(files[k].locale) == Some(l);
            assert(post[k] == files[k]);
        }
        if dir_key(f) == d && opt_view(f.locale) == Some(l) {
            assert(post[files.len() as int] == f);
        }
    }
}

/// A count never exceeds the number of files.
proof fn lemma_count_bound(files: Seq<FluentFileDto>, d: Seq<char>)
    ensures
        count_in_dir(files, d) <= files.len(),
    decreases files.len(),
{
    if files.len() > 0 {
        lemma_count_bound(files.drop_last(), d);
    }
}

/// The files of one directory gathered so far.
struct DirGroup {
    path: Vec<char>,
    files_count: usize,
    locales: Vec<String>,
}

/// `g` describes its directory among `files`.
spec fn group_describes(g: DirGroup, files: Seq<FluentFileDto>) -> bool {
    &&& is_dir_of(files, g.path@)
    &&& g.files_count == count_in_dir(files, g.path@)
    &&& lists_dir_locales(g.locales@, files, g.path@)
}

/// Some group is for the directory `d`.
spec fn has_group(groups: Seq<DirGroup>, d: Seq<char>) -> bool {
    exists|a: int| 0 <= a < groups.len() && groups[a].path@ == d
}

/// The groups cover the directories of `files`, one group each.
spec fn groups_cover(groups: Seq<DirGroup>, files: Seq<FluentFileDto>) -> bool {
    &&& forall|a: int, b: int| 0 <= a < b < groups.len() ==> (#[trigger] groups[a]).path@ != (#[trigger] groups[b]).path@
    &&& forall|a: int| 0 <= a < groups.len() ==> #[trigger] group_describes(groups[a], files)
    &&& forall|k: int| 0 <= k < files.len() ==> #[trigger] has_group(groups, dir_key(files[k]))
}

/// Gathers the files by translations directory.
fn gather_groups(files: &[FluentFileDto]) -> (groups: Vec<DirGroup>)
    ensures
        groups_cover(groups@, files@),
{
    let mut groups: Vec<DirGroup> = Vec::new();
    for n in 0..files.len()
        invariant
            groups_cover(groups@, files@.take(n as int)),
    {
        let ghost pre = files@.take(n as int);
        let f = &files[n];
        let ghost post = files@.take(n + 1);
        assert(post =~= pre.push(*f));
        let pc = text::chars_of(f.path.as_str());
        let locale = match &f.locale {
            Some(l) => Some(l.as_str()),
            None => None,
        };
        let key = directory_of(pc.as_slice(), locale);
        assert(key@ == dir_key(*f));
        proof {
            assert forall|d: Seq<char>| true implies #[trigger] count_in_dir(post, d) == count_in_dir(pre, d) + if dir_key(*f) == d { 1nat } else { 0nat } by {
                lemma_dir_push(pre, *f, d);
            }
        }
        let mut a: usize = 0;
        while a < groups.len() && !text::chars_eq(groups[a].path.as_slice(), key.as_slice())
            invariant
                a <= groups@.len(),
                forall|b: int| 0 <= b < a ==> (#[trigger] groups@[b]).path@ != key@,
            decreases groups.len() - a,
        {
            a += 1;
        }
        let ghost old_groups = groups@;
        if a < groups.len() {
            assert(group_describes(old_groups[a as int], pre));
            let mut g = groups.remove(a);
            proof {
                lemma_dir_push(pre, *f, g.path@);
                lemma_count_bound(pre, g.path@);
            }
            g.files_count = g.files_count + 1;
            match &f.locale {
                Some(l) => {
                    insert_text_sorted(&mut g.locales, l.clone());
                },
                None => {},
            }
            groups.insert(a, g);
            proof {
                assert(groups@ =~= old_groups.update(a as int, g));
                assert forall|b: int| 0 <= b < groups@.len() implies #[trigger] group_describes(groups@[b], post) by {
                    lemma_dir_push(pre, *f, groups@[b].path@);
                    if b == a {
                        assert(group_describes(old_groups[b], pre));
                        let gl = groups@[b].locales@;
                        assert forall|i: int| 0 <= i < gl.len() implies #[trigger] dir_has_locale(post, g.path@, gl[i]@) by {
                            assert(has_text(gl, gl[i]@));
                            if has_text(old_groups[b].locales@, gl[i]@) {
                                let j = choose|j: int| 0 <= j < old_groups[b].locales@.len() && old_groups[b].locales@[j]@ == gl[i]@;
                                assert(dir_has_locale(pre, g.path@, old_groups[b].locales@[j]@));
                            }
                        }
                        assert forall|l: Seq<char>| #[trigger] dir_has_locale(post, g.path@, l) implies has_text(gl, l) by {
                            if dir_has_locale(pre, g.path@, l) {
                                assert(has_text(old_groups[b].locales@, l));
                            }
                        }
                    } else {
                        assert(groups@[b] == old_groups[b]);
                        assert(group_describes(old_groups[b], pre));
                        assert(old_groups[b].path@ != key@);
                        let gl = groups@[b].locales@;
                        assert forall|i: int| 0 <= i < gl.len() implies #[trigger] dir_has_locale(post, groups@[b].path@, gl[i]@) by {
                            assert(dir_has_locale(pre, groups@[b].path@, gl[i]@));
                        }
                    }
                }
                assert forall|k: int| 0 <= k < post.len() implies #[trigger] has_group(groups@, dir_key(post[k])) by {
                    if k < pre.len() {
                        assert(post[k] == pre[k]);
                        assert(has_group(old_groups, dir_key(pre[k])));
                        let b = choose|b: int| 0 <= b < old_groups.len() && old_groups[b].path@ == dir_key(pre[k]);
                        assert(groups@[b].path@ == old_groups[b].path@);
                    } else {
                        assert(groups@[a as int].path@ == dir_key(post[k]));
                    }
                }
                assert forall|x: int, y: int| 0 <= x < y < groups@.len() implies (#[trigger] groups@[x]).path@ != (#[trigger] groups@[y]).path@ by {
                    assert(groups@[x].path@ == old_groups[x].path@);
                    assert(groups@[y].path@ == old_groups[y].path@);
                }
            }
        } else {
            let mut locales: Vec<String> = Vec::new();
            match &f.locale {
                Some(l) => {
                    locales.push(l.clone());
                },
                None => {},
            }
            let g = DirGroup { path: key, files_count: 1, locales };
            proof {
                lemma_dir_push(pre, *f, g.path@);
                assert(count_in_dir(pre, g.path@) == 0) by {
                    lemma_count_zero(pre, g.path@, old_groups);
                }
            }
            groups.push(g);
            proof {
                assert forall|b: int| 0 <= b < groups@.len() implies #[trigger] group_describes(groups@[b], post) by {
                    lemma_dir_push(pre, *f, groups@[b].path@);
                    if b == old_groups.len() {
                        let gl = g.locales@;
                        assert forall|l: Seq<char>| #[trigger] dir_has_locale(post, g.path@, l) implies has_text(gl, l) by {
                            if dir_has_locale(pre, g.path@, l) {
                                let k = choose|k: int| 0 <= k < pre.len() && dir_key(pre[k]) == g.path@ && opt_view(pre[k].locale) == Some(l);
                                assert(has_group(old_groups, dir_key(pre[k])));
                            }
                            assert(gl[0]@ == l);
                        }
                        assert forall|i: int| 0 <= i < gl.len() implies #[trigger] dir_has_locale(post, g.path@, gl[i]@) by {
                        }
                    } else {
                        assert(groups@[b] == old_groups[b]);
                        assert(group_describes(old_groups[b], pre));
                        let gl = groups@[b].locales@;
                        assert forall|i: int| 0 <= i < gl.len() implies #[trigger] dir_has_locale(post, groups@[b].path@, gl[i]@) by {
                            assert(dir_has_locale(pre, groups@[b].path@, gl[i]@));
                        }
                    }
                }
                assert forall|k: int| 0 <= k < post.len() implies #[trigger] has_group(groups@, dir_key(post[k])) by {
                    if k < pre.len() {
                        assert(post[k] == pre[k]);
                        assert(has_group(old_groups, dir_key(pre[k])));
                        let b = choose|b: int| 0 <= b < old_groups.len() && old_groups[b].path@ == dir_key(pre[k]);
                        assert(groups@[b] == old_groups[b]);
                    } else {
                        assert(groups@[old_groups.len() as int].path@ == dir_key(post[k]));
                    }
                }
                assert forall|x: int, y: int| 0 <= x < y < groups@.len() implies (#[trigger] groups@[x]).path@ != (#[trigger] groups@[y]).path@ by {
                    if y == old_groups.len() {
                        assert(groups@[x] == old_groups[x]);
                    } else {
                        assert(groups@[x] == old_groups[x] && groups@[y] == old_groups[y]);
                    }
                }
            }
        }
    }
    assert(files@.take(files@.len() as int) =~= files@);
    groups
}

/// A directory that no group stands for holds none of the files.
proof fn lemma_count_zero(files: Seq<FluentFileDto>, d: Seq<char>, groups: Seq<DirGroup>)
    requires
        forall|k: int| 0 <= k < files.len() ==> #[trigger] has_group(groups, dir_key(files[k])),
        forall|b: int| 0 <= b < groups.len() ==> (#[trigger] groups[b]).path@ != d,
    ensures
        count_in_dir(files, d) == 0,
    decreases files.len(),
{
    if files.len() > 0 {
        let last = files.len() - 1;
        assert(has_group(groups, dir_key(files[last])));
        assert(files.drop_last().len() == last);
        assert forall|k: int| 0 <= k < files.drop_last().len() implies #[trigger] has_group(groups, dir_key(files.drop_last()[k])) by {
            assert(files.drop_last()[k] == files[k]);
        }
        lemma_count_zero(files.drop_last(), d, groups);
    }
}

/// `out` is ranked, every entry describes its directory, and none is recommended.
spec fn ranked_entries(out: Seq<FluentDirectoryDto>, files: Seq<FluentFileDto>) -> bool {
    &&& forall|i: int, j: int| 0 <= i < j < out.len() ==> dir_precedes(#[trigger] out[i], #[trigger] out[j])
    &&& forall|i: int| 0 <= i < out.len() ==> #[trigger] describes_directory(out[i], files)
    &&& forall|i: int| 0 <= i < out.len() ==> !(#[trigger] out[i]).recommended
}

/// Places `dto` at its rank among entries already ranked.
fn insert_ranked(out: &mut Vec<FluentDirectoryDto>, dto: FluentDirectoryDto, Ghost(files): Ghost<Seq<FluentFileDto>>)
    requires
        ranked_entries(old(out)@, files),
        describes_directory(dto, files),
        !dto.recommended,
        forall|i: int| 0 <= i < old(out)@.len() ==> (#[trigger] old(out)@[i]).path@ != dto.path@,
    ensures
        ranked_entries(final(out)@, files),
        forall|d: Seq<char>| #[trigger] has_directory(final(out)@, d) == (has_directory(old(out)@, d) || d == dto.path@),
{
    let mut p: usize = 0;
    while p < out.len() && !(dto.score > out[p].score || (dto.score == out[p].score && (dto.files_count > out[p].files_count || (dto.files_count == out[p].files_count && (dto.locales.len() > out[p].locales.len() || (dto.locales.len() == out[p].locales.len() && text::str_le(dto.path.as_str(), out[p].path.as_str())))))))
        invariant
            p <= out@.len(),
            out@ == old(out)@,
            forall|q: int| 0 <= q < p ==> dir_precedes(#[trigger] out@[q], dto),
            forall|i: int| 0 <= i < old(out)@.len() ==> (#[trigger] old(out)@[i]).path@ != dto.path@,
        decreases out.len() - p,
    {
        proof {
            lemma_dir_precedes_total(out@[p as int], dto);
        }
        p += 1;
    }
    let ghost before = out@;
    proof {
        if p < before.len() {
            text::lemma_seq_lt_total(dto.path@, before[p as int].path@);
            assert(dir_precedes(dto, before[p as int]));
        }
        assert forall|q: int| p <= q < before.len() implies dir_precedes(dto, #[trigger] before[q]) by {
            if q > p {
                assert(dir_precedes(before[p as int], before[q]));
                lemma_dir_precedes_transitive(dto, before[p as int], before[q]);
            }
        }
    }
    out.insert(p, dto);
    proof {
        assert forall|i: int, j: int| 0 <= i < j < out@.len() implies dir_precedes(#[trigger] out@[i], #[trigger] out@[j]) by {
            if j < p {
                assert(out@[i] == before[i] && out@[j] == before[j]);
            } else if j == p {
                assert(out@[i] == before[i]);
            } else if i < p {
                assert(out@[i] == before[i] && out@[j] == before[j - 1]);
                lemma_dir_precedes_transitive(before[i], dto, before[j - 1]);
            } else if i == p {
                assert(out@[j] == before[j - 1]);
            } else {
                assert(out@[i] == before[i - 1] && out@[j] == before[j - 1]);
            }
        }
        assert forall|i: int| 0 <= i < out@.len() implies #[trigger] describes_directory(out@[i], files) && !out@[i].recommended by {
            if i < p {
                assert(out@[i] == before[i]);
            } else if i > p {
                assert(out@[i] == before[i - 1]);
            }
        }
        assert forall|d: Seq<char>| #[trigger] has_directory(out@, d) == (has_directory(before, d) || d == dto.path@) by {
            if has_directory(out@, d) {
                let i = choose|i: int| 0 <= i < out@.len() && out@[i].path@ == d;
                if i < p {
                    assert(before[i] == out@[i]);
                } else if i > p {
                    assert(before[i - 1] == out@[i]);
                }
            }
            if has_directory(before, d) {
                let i = choose|i: int| 0 <= i < before.len() && before[i].path@ == d;
                if i < p {
                    assert(out@[i] == before[i]);
                } else {
                    assert(out@[i + 1] == before[i]);
                }
            }
            if d == dto.path@ {
                assert(out@[p as int].path@ == d);
            }
        }
    }
}

/// The translations directories of the scanned files, ranked best first,
/// with the first one recommended.
pub fn detect_fluent_directories(files: &[FluentFileDto]) -> (out: Vec<FluentDirectoryDto>)
    ensures
        detected_directories(out@, files@),
{
    let groups = gather_groups(files);
    let mut out: Vec<FluentDirectoryDto> = Vec::new();
    for a in 0..groups.len()
        invariant
            groups_cover(groups@, files@),
            ranked_entries(out@, files@),
            forall|d: Seq<char>| #[trigger] has_directory(out@, d) == exists|b: int| 0 <= b < a && (#[trigger] groups@[b]).path@ == d,
    {
        let g = &groups[a];
        assert(group_describes(*g, files@));
        let path = text::string_from(g.path.as_slice());
        let mut locales: Vec<String> = Vec::new();
        for i in 0..g.locales.len()
            invariant
                locales@ == g.locales@.take(i as int),
        {
            locales.push(g.locales[i].clone());
            assert(locales@ =~= g.locales@.take(i + 1));
        }
        assert(locales@ =~= g.locales@);
        let score = score_fluent_directory(path.as_str(), g.files_count, locales.len());
        let dto = FluentDirectoryDto { path, files_count: g.files_count, locales, recommended: false, score };
        proof {
            assert forall|i: int| 0 <= i < out@.len() implies (#[trigger] out@[i]).path@ != dto.path@ by {
                if out@[i].path@ == dto.path@ {
                    assert(has_directory(out@, dto.path@));
                    let b = choose|b: int| 0 <= b < a && (#[trigger] groups@[b]).path@ == dto.path@;
                    assert(groups@[b].path@ != groups@[a as int].path@);
                }
            }
        }
        let ghost before = out@;
        insert_ranked(&mut out, dto, Ghost(files@));
        proof {
            assert forall|d: Seq<char>| #[trigger] has_directory(out@, d) == exists|b: int| 0 <= b < a + 1 && (#[trigger] groups@[b]).path@ == d by {
                assert(has_directory(out@, d) == (has_directory(before, d) || d == groups@[a as int].path@));
                if d == groups@[a as int].path@ {
                    assert(groups@[a as int].path@ == d);
                }
                if exists|b: int| 0 <= b < a + 1 && (#[trigger] groups@[b]).path@ == d {
                    let b = choose|b: int| 0 <= b < a + 1 && (#[trigger] groups@[b]).path@ == d;
                    if b < a {
                        assert(exists|c: int| 0 <= c < a && (#[trigger] groups@[c]).path@ == d);
                    }
                }
            }
        }
    }
    proof {
        assert forall|k: int| 0 <= k < files@.len() implies #[trigger] has_directory(out@, dir_key(files@[k])) by {
            assert(has_group(groups@, dir_key(files@[k])));
            let b = choose|b: int| 0 <= b < groups@.len() && groups@[b].path@ == dir_key(files@[k]);
            assert(exists|c: int| 0 <= c < groups@.len() && (#[trigger] groups@[c]).path@ == dir_key(files@[k]));
        }
    }
    if out.len() > 0 {
        let ghost before = out@;
        let mut first = out.remove(0);
        first.recommended = true;
        out.insert(0, first);
        proof {
            assert(out@ =~= before.update(0, first));
            assert forall|i: int, j: int| 0 <= i < j < out@.len() implies dir_precedes(#[trigger] out@[i], #[trigger] out@[j]) by {
                assert(dir_precedes(before[i], before[j]));
            }
            assert forall|i: int| 0 <= i < out@.len() implies #[trigger] describes_directory(out@[i], files@) by {
                assert(describes_directory(before[i], files@));
            }
            assert forall|d: Seq<char>| #[trigger] has_directory(out@, d) == has_directory(before, d) by {
                if has_directory(before, d) {
                    let i = choose|i: int| 0 <= i < before.len() && before[i].path@ == d;
                    assert(out@[i].path@ == d);
                }
                if has_directory(out@, d) {
                    let i = choose|i: int| 0 <= i < out@.len() && out@[i].path@ == d;
                    assert(before[i].path@ == d);
                }
            }
            assert forall|i: int| 0 <= i < out@.len() implies (#[trigger] out@[i]).recommended == (i == 0) by {
                if i > 0 {
                    assert(!before[i].recommended);
                }
            }
        }
    }
    out
}

// ---------------------------------------------------------------------------
// The scan
// ---------------------------------------------------------------------------

/// A tree file that is a Fluent file: a blob whose path ends in `.ftl`.
pub open spec fn is_fluent_blob(f: GithubTreeFile) -> bool {
    f.kind@ == "blob"@ && ".ftl"@.is_suffix_of(f.path@)
}

/// The Fluent files of a repository tree, in tree order, each with the
/// locale its path suggests.
pub open spec fn fluent_files_of(tree: Seq<GithubTreeFile>) -> Seq<(Seq<char>, Option<Seq<char>>)>
    decreases tree.len(),
{
    if tree.len() == 0 {
        Seq::empty()
    } else {
        let rest = fluent_files_of(tree.drop_last());
        let f = tree.last();
        if is_fluent_blob(f) {
            rest.push((f.path@, locale::scanned_path_locale(f.path@)))
        } else {
            rest
        }
    }
}

/// Whether a tree file is a Fluent file.
pub fn fluent_blob(f: &GithubTreeFile) -> (r: bool)
    ensures
        r == is_fluent_blob(*f),
{
    let pc = text::chars_of(f.path.as_str());
    let suffix = text::chars_of(".ftl");
    text::str_eq(f.kind.as_str(), "blob") && text::ends_with(pc.as_slice(), suffix.as_slice())
}

/// The Fluent files of a repository tree with the locales their paths suggest.
pub fn fluent_files_in_tree(tree: &[GithubTreeFile]) -> (out: Vec<FluentFileDto>)
    ensures
        out@.map_values(|f: FluentFileDto| file_view(f)) == fluent_files_of(tree@),
{
    let mut out: Vec<FluentFileDto> = Vec::new();
    for i in 0..tree.len()
        invariant
            out@.map_values(|f: FluentFileDto| file_view(f)) == fluent_files_of(tree@.take(i as int)),
    {
        let f = &tree[i];
        assert(tree@.take(i + 1).drop_last() =~= tree@.take(i as int));
        assert(tree@.take(i + 1).last() == *f);
        let ghost before = out@.map_values(|f: FluentFileDto| file_view(f));
        if fluent_blob(f) {
            let locale = locale::infer_locale_from_path(f.path.as_str());
            out.push(FluentFileDto { path: f.path.clone(), locale });
            assert(out@.map_values(|f: FluentFileDto| file_view(f)) =~= before.push((f.path@, locale::scanned_path_locale(f.path@))));
        }
    }
    assert(tree@.take(tree@.len() as int) =~= tree@);
    out
}

/// The translations directory a scan suggests: the recommended directory,
/// else that of the first file.
pub open spec fn scan_locales_path(directories: Seq<FluentDirectoryDto>, files: Seq<FluentFileDto>) -> Option<Seq<char>> {
    if directories.len() > 0 {
        Some(directories[0].path@)
    } else {
        suggested_locales_path(files)
    }
}

/// The source locale a scan suggests: among the files in the suggested
/// directory, else among all files.
pub open spec fn scan_source_locale(locales_path: Option<Seq<char>>, files: Seq<FluentFileDto>) -> Option<Seq<char>> {
    let scoped = match locales_path {
        Some(p) => files_under(files, p),
        None => files,
    };
    match suggested_source_locale(scoped) {
        Some(l) => Some(l),
        None => suggested_source_locale(files),
    }
}

/// The result of scanning a project's repository tree for Fluent files.
pub fn build_project_scan(project_id: String, repository_full_name: String, tree: &[GithubTreeFile]) -> (out: ProjectScanDto)
    ensures
        out.project_id@ == project_id@,
        out.repository_full_name@ == repository_full_name@,
        out.files@.map_values(|f: FluentFileDto| file_view(f)) == fluent_files_of(tree@),
        detected_directories(out.directories@, out.files@),
        opt_view(out.suggested_locales_path) == scan_locales_path(out.directories@, out.files@),
        opt_view(out.suggested_source_locale) == scan_source_locale(
            opt_view(out.suggested_locales_path),
            out.files@,
        ),
{
    let files = fluent_files_in_tree(tree);
    let directories = detect_fluent_directories(files.as_slice());
    let suggested_locales_path = if directories.len() > 0 {
        Some(directories[0].path.clone())
    } else {
        suggest_locales_path(files.as_slice())
    };
    let scoped = match &suggested_locales_path {
        Some(p) => files_in_directory(files.as_slice(), p.as_str()),
        None => {
            let mut all: Vec<FluentFileDto> = Vec::new();
            for i in 0..files.len()
                invariant
                    all@ == files@.take(i as int),
            {
                all.push(copy_file(&files[i]));
                assert(all@ =~= files@.take(i + 1));
            }
            assert(all@ =~= files@);
            all
        },
    };
    let suggested_source_locale = match suggest_source_locale(scoped.as_slice()) {
        Some(l) => Some(l),
        None => suggest_source_locale(files.as_slice()),
    };
    ProjectScanDto {
        project_id,
        repository_full_name,
        files,
        directories,
        suggested_locales_path,
        suggested_source_locale,
    }
}

// ---------------------------------------------------------------------------
// Laws
// ---------------------------------------------------------------------------

/// A scan that found files recommends exactly one directory, the first, and
/// every directory it lists holds some of the files.
pub proof fn lemma_scan_recommends_one(out: Seq<FluentDirectoryDto>, files: Seq<FluentFileDto>)
    requires
        detected_directories(out, files),
    ensures
        files.len() > 0 ==> out.len() > 0 && out[0].recommended,
        forall|i: int| 0 <= i < out.len() && (#[trigger] out[i]).recommended ==> i == 0,
        forall|i: int| 0 <= i < out.len() ==> is_dir_of(files, (#[trigger] out[i]).path@),
{
    if files.len() > 0 {
        assert(has_directory(out, dir_key(files[0])));
    }
    assert forall|i: int| 0 <= i < out.len() implies is_dir_of(files, (#[trigger] out[i]).path@) by {
        assert(describes_directory(out[i], files));
    }
}

/// The first locale found is the locale of some file.
proof fn lemma_first_file_locale_present(files: Seq<FluentFileDto>)
    ensures
        first_file_locale(files) matches Some(l) ==> has_file_locale(files, l),
        first_file_locale(files) is None ==> forall|i: int| 0 <= i < files.len() ==> (#[trigger] files[i]).locale is None,
    decreases files.len(),
{
    if files.len() > 0 {
        lemma_first_file_locale_present(files.drop_first());
        if files[0].locale is None {
            let rest = files.drop_first();
            if let Some(l) = first_file_locale(rest) {
                let i = choose|i: int| 0 <= i < rest.len() && #[trigger] opt_view(rest[i].locale) == Some(l);
                assert(files[i + 1] == rest[i]);
            }
            assert forall|i: int| 0 <= i < files.len() && first_file_locale(files) is None implies (#[trigger] files[i]).locale is None by {
                if i > 0 {
                    assert(files[i] == rest[i - 1]);
                }
            }
        } else {
            assert(opt_view(files[0].locale) == first_file_locale(files));
        }
    }
}

/// A suggested source locale is the locale of some file, and one is
/// suggested whenever some file has a locale.
pub proof fn lemma_suggested_locale_present(files: Seq<FluentFileDto>)
    ensures
        suggested_source_locale(files) matches Some(l) ==> has_file_locale(files, l),
        (exists|i: int| 0 <= i < files.len() && (#[trigger] files[i]).locale is Some) ==> suggested_source_locale(
            files,
        ) is Some,
{
    lemma_first_file_locale_present(files);
}

/// The directories a scan lists are pairwise distinct: no directory is
/// listed twice.
pub proof fn lemma_directory_paths_distinct(out: Seq<FluentDirectoryDto>, files: Seq<FluentFileDto>, i: int, j: int)
    requires
        detected_directories(out, files),
        0 <= i < j < out.len(),
    ensures
        out[i].path@ != out[j].path@,
{
    if out[i].path@ == out[j].path@ {
        let d = out[i].path@;
        assert(describes_directory(out[i], files));
        assert(describes_directory(out[j], files));
        assert forall|x: Seq<char>| #[trigger] has_text(out[i].locales@, x) == has_text(out[j].locales@, x) by {
            if has_text(out[i].locales@, x) {
                let k = choose|k: int| 0 <= k < out[i].locales@.len() && out[i].locales@[k]@ == x;
                assert(dir_has_locale(files, d, out[i].locales@[k]@));
            }
            if has_text(out[j].locales@, x) {
                let k = choose|k: int| 0 <= k < out[j].locales@.len() && out[j].locales@[k]@ == x;
                assert(dir_has_locale(files, d, out[j].locales@[k]@));
            }
        }
        crate::keyed::lemma_sorted_texts_same_len(out[i].locales@, out[j].locales@);
        assert(dir_precedes(out[i], out[j]));
        text::lemma_seq_lt_irreflexive(d);
    }
}

/// The source locale suggested is `en-US` when some file has it; else `en`
/// when some file has it; else `en-GB` when some file has it; else the
/// locale of the first file that has one, and none when no file has a
/// locale.
pub proof fn lemma_source_locale_preference(files: Seq<FluentFileDto>)
    ensures
        (exists|i: int| 0 <= i < files.len() && #[trigger] opt_view(files[i].locale) == Some("en-US"@))
            ==> suggested_source_locale(files) == Some("en-US"@),
        !(exists|i: int| 0 <= i < files.len() && #[trigger] opt_view(files[i].locale) == Some("en-US"@))
            && (exists|i: int| 0 <= i < files.len() && #[trigger] opt_view(files[i].locale) == Some("en"@))
            ==> suggested_source_locale(files) == Some("en"@),
        !(exists|i: int| 0 <= i < files.len() && #[trigger] opt_view(files[i].locale) == Some("en-US"@))
            && !(exists|i: int| 0 <= i < files.len() && #[trigger] opt_view(files[i].locale) == Some("en"@))
            && (exists|i: int| 0 <= i < files.len() && #[trigger] opt_view(files[i].locale) == Some("en-GB"@))
            ==> suggested_source_locale(files) == Some("en-GB"@),
        !(exists|i: int| 0 <= i < files.len() && #[trigger] opt_view(files[i].locale) == Some("en-US"@))
            && !(exists|i: int| 0 <= i < files.len() && #[trigger] opt_view(files[i].locale) == Some("en"@))
            && !(exists|i: int| 0 <= i < files.len() && #[trigger] opt_view(files[i].locale) == Some("en-GB"@))
            ==> suggested_source_locale(files) == first_file_locale(files),
        (forall|i: int| 0 <= i < files.len() ==> (#[trigger] files[i]).locale is None) ==> suggested_source_locale(
            files,
        ) is None,
        suggested_source_locale(files) matches Some(l) ==> exists|i: int|
            0 <= i < files.len() && #[trigger] opt_view(files[i].locale) == Some(l),
{
    lemma_suggested_locale_present(files);
    lemma_first_file_locale_present(files);
    if forall|i: int| 0 <= i < files.len() ==> (#[trigger] files[i]).locale is None {
        assert(!has_file_locale(files, "en-US"@));
        assert(!has_file_locale(files, "en"@));
        assert(!has_file_locale(files, "en-GB"@));
        if let Some(l) = first_file_locale(files) {
            let i = choose|i: int| 0 <= i < files.len() && #[trigger] opt_view(files[i].locale) == Some(l);
            assert(files[i].locale is None);
        }
    }
}

/// The names of directories that hold translations: `locales`, `locale`,
/// `translations`, `translation`, `i18n` and `l10n`.
pub open spec fn names_translations(n: Seq<char>) -> bool {
    n == "locales"@ || n == "locale"@ || n == "translations"@ || n == "translation"@ || n == "i18n"@
        || n == "l10n"@
}

/// Adding a component `n` with no `/` to a lowercased path adds its weight
/// to the score; a path of `n` alone scores its weight over the counts.
proof fn lemma_score_append(prefix: Seq<char>, n: Seq<char>, f: int, l: int)
    requires
        !n.contains('/'),
    ensures
        exact_directory_score(prefix.push('/') + n, f, l) == exact_directory_score(prefix, f, l) + part_weight(n),
        exact_directory_score(n, f, l) == 4 * f + 12 * l + part_weight(n),
{
    crate::helpers::lemma_split_without_sep(n, '/');
    text::lemma_split_concat(prefix, n, '/');
    let a = text::split(prefix, '/');
    let all = a + seq![n];
    assert(all.drop_last() =~= a);
    assert(all.last() == n);
    assert(seq![n].drop_last() =~= Seq::<Seq<char>>::empty());
    assert(seq![n].last() == n);
    assert(parts_weight(Seq::<Seq<char>>::empty()) == 0);
    assert(parts_weight(seq![n]) == part_weight(n));
}

/// Every component that names a translations directory adds 40 to a
/// directory's score: a directory named so scores 4 per file, 12 per locale
/// and 40, and appending such a name to any path adds 40.
pub proof fn lemma_translations_bonus(prefix: Seq<char>, n: Seq<char>, f: int, l: int)
    requires
        names_translations(n),
    ensures
        exact_directory_score(n, f, l) == 4 * f + 12 * l + 40,
        exact_directory_score(prefix.push('/') + n, f, l) == exact_directory_score(prefix, f, l) + 40,
        n.map_values(|c: char| crate::helpers::ascii_lower(c)) == n,
{
    reveal_strlit("locales");
    reveal_strlit("locale");
    reveal_strlit("translations");
    reveal_strlit("translation");
    reveal_strlit("i18n");
    reveal_strlit("l10n");
    assert(!n.contains('/'));
    assert(part_weight(n) == 40);
    lemma_score_append(prefix, n, f, l);
    assert forall|i: int| 0 <= i < n.len() implies #[trigger] crate::helpers::ascii_lower(n[i]) == n[i] by {}
    assert(n.map_values(|c: char| crate::helpers::ascii_lower(c)) =~= n);
}

} // verus!
