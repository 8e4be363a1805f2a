//! The project page: the file sidebar, the key list, the editor's entry and
//! the sync button.
use vstd::prelude::*;

use crate::dto::{opt_view, ProjectDto, ProjectSyncProgressDto, ProjectWorkspaceFileDto, ProjectWorkspaceKeyDto};
use crate::helpers::{lowercase, to_lowercase};
use crate::keyed::{has_text, strictly_sorted_texts};
use crate::locale;
use crate::sort;
use crate::sort::SortKey;
use crate::text;

verus! {

// ---------------------------------------------------------------------------
// Locales of the sidebar
// ---------------------------------------------------------------------------

/// The form in which the sidebar compares locales: dashes for underscores,
/// lower case.
pub open spec fn locale_match_key_of(locale: Seq<char>) -> Seq<char> {
    lowercase(text::replace_char(locale, '_', '-'))
}

/// The form in which the sidebar compares locales.
pub fn locale_match_key(locale: &str) -> (out: String)
    ensures
        out@ == locale_match_key_of(locale@),
{
    let cs = text::chars_of(locale);
    let dashed = text::replace_chars(cs.as_slice(), '_', '-');
    let dashed = text::string_from(dashed.as_slice());
    to_lowercase(dashed.as_str())
}

/// A file's locale is the source locale, up to case and `_` for `-`; a file
/// without a locale matches none.
pub open spec fn locale_matches_spec(file_locale: Option<Seq<char>>, source_locale: Seq<char>) -> bool {
    match file_locale {
        Some(l) => locale_match_key_of(l) == locale_match_key_of(source_locale),
        None => false,
    }
}

/// Whether a file's locale is the source locale.
pub fn locale_matches(file_locale: Option<&str>, source_locale: &str) -> (r: bool)
    ensures
        r == locale_matches_spec(
            match file_locale {
                Some(l) => Some(l@),
                None => None,
            },
            source_locale@,
        ),
{
    match file_locale {
        Some(l) => {
            let a = locale_match_key(l);
            let b = locale_match_key(source_locale);
            text::str_eq(a.as_str(), b.as_str())
        },
        None => false,
    }
}

/// A file the sidebar lists: any file while the project has no source
/// locale, else one in the source locale.
pub open spec fn is_sidebar_file(source_locale: Option<Seq<char>>, f: ProjectWorkspaceFileDto) -> bool {
    match source_locale {
        Some(s) => locale_matches_spec(opt_view(f.locale), s),
        None => true,
    }
}

/// The files of the source locale, in their order.
pub fn source_workspace_files(project: &ProjectDto, files: &[ProjectWorkspaceFileDto]) -> (out: Vec<
    ProjectWorkspaceFileDto,
>)
    ensures
        out@ == files@.filter(|f: ProjectWorkspaceFileDto| is_sidebar_file(opt_view(project.source_locale), f)),
{
    let ghost src = opt_view(project.source_locale);
    let ghost pick = |f: ProjectWorkspaceFileDto| is_sidebar_file(src, f);
    let mut out: Vec<ProjectWorkspaceFileDto> = Vec::new();
    for i in 0..files.len()
        invariant
            src == opt_view(project.source_locale),
            pick == (|f: ProjectWorkspaceFileDto| is_sidebar_file(src, f)),
            out@ == files@.take(i as int).filter(pick),
    {
        proof {
            reveal(Seq::filter);
            assert(files@.take(i + 1).drop_last() =~= files@.take(i as int));
        }
        let f = &files[i];
        let keep = match &project.source_locale {
            Some(s) => {
                let l = match &f.locale {
                    Some(l) => Some(l.as_str()),
                    None => None,
                };
                locale_matches(l, s.as_str())
            },
            None => true,
        };
        assert(keep == pick(*f));
        assert(files@.take(i + 1) =~= files@.take(i as int).push(*f));
        if keep {
            out.push(copy_workspace_file(f));
        }
    }
    assert(files@.take(files@.len() as int) =~= files@);
    out
}

/// A copy of a workspace file.
pub fn copy_workspace_file(f: &ProjectWorkspaceFileDto) -> (out: ProjectWorkspaceFileDto)
    ensures
        out == *f,
{
    ProjectWorkspaceFileDto {
        path: f.path.clone(),
        sha: f.sha.clone(),
        locale: match &f.locale {
            Some(l) => Some(l.clone()),
            None => None,
        },
        name: f.name.clone(),
    }
}

// ---------------------------------------------------------------------------
// Groups of the sidebar
// ---------------------------------------------------------------------------

/// Directory names that say only that translations lie below.
pub open spec fn is_plain_translations_dir(p: Seq<char>) -> bool {
    ||| p == "locales"@
    ||| p == "locale"@
    ||| p == "i18n"@
    ||| p == "translations"@
    ||| p == "translation"@
    ||| p == "lang"@
    ||| p == "langs"@
}

/// A directory name that can name a group: not empty, not a locale, not a
/// plain translations directory.
pub open spec fn is_group_part(p: Seq<char>) -> bool {
    &&& p.len() > 0
    &&& !locale::looks_like_locale(p)
    &&& !is_plain_translations_dir(p)
}

/// `path` without the trailing file name `name`, if it ends with it.
pub open spec fn without_name(path: Seq<char>, name: Seq<char>) -> Seq<char> {
    if name.is_suffix_of(path) {
        path.take(path.len() - name.len())
    } else {
        path
    }
}

/// The directory names of a file's path that can name its group.
pub open spec fn group_parts(path: Seq<char>, name: Seq<char>) -> Seq<Seq<char>> {
    text::split(text::strip_trailing(without_name(path, name), '/'), '/').filter(|p: Seq<char>| is_group_part(p))
}

/// A directory name made readable: `_` and `-` become spaces.
pub open spec fn humanized(value: Seq<char>) -> Seq<char> {
    text::replace_char(text::replace_char(value, '_', ' '), '-', ' ')
}

/// The group a file is listed under: its deepest directory that names one,
/// made readable, else `General`.
pub open spec fn file_group_label_of(path: Seq<char>, name: Seq<char>) -> Seq<char> {
    let parts = group_parts(path, name);
    if parts.len() > 0 && humanized(parts.last()).len() > 0 {
        humanized(parts.last())
    } else {
        "General"@
    }
}

/// A text that looks like a locale is not empty.
proof fn lemma_locale_nonempty(loc: Seq<char>)
    requires
        locale::looks_like_locale(loc),
    ensures
        loc.len() > 0,
{
    if loc.len() == 0 {
        assert(locale::normalized_locale(loc) =~= Seq::<char>::empty());
        assert(text::split(Seq::<char>::empty(), '-') =~= seq![Seq::<char>::empty()]);
        assert(locale::utf8_len(Seq::<char>::empty()) == 0);
    }
}

/// Directory names that only say translations lie below them (`locales`,
/// `locale`, `i18n`, `translations`, `translation`, `lang`, `langs`) never
/// name a group, nor does a locale: a file directly in such a directory, or
/// in a locale directory inside one, is listed under `General`.
pub proof fn lemma_plain_directories_name_no_group(d: Seq<char>, loc: Seq<char>, name: Seq<char>)
    requires
        d == "locales"@ || d == "locale"@ || d == "i18n"@ || d == "translations"@ || d == "translation"@
            || d == "lang"@ || d == "langs"@,
        !loc.contains('/'),
        locale::looks_like_locale(loc),
    ensures
        file_group_label_of(d + seq!['/'] + loc + seq!['/'] + name, name) == "General"@,
        file_group_label_of(d + seq!['/'] + name, name) == "General"@,
{
    reveal_strlit("locales");
    reveal_strlit("locale");
    reveal_strlit("i18n");
    reveal_strlit("translations");
    reveal_strlit("translation");
    reveal_strlit("lang");
    reveal_strlit("langs");
    assert(!d.contains('/'));
    assert(d.len() > 0);
    assert(is_plain_translations_dir(d));
    lemma_locale_nonempty(loc);
    crate::helpers::lemma_split_without_sep(d, '/');
    crate::helpers::lemma_split_without_sep(loc, '/');
    let pred = |p: Seq<char>| is_group_part(p);
    // A file inside a locale directory.
    let path = d + seq!['/'] + loc + seq!['/'] + name;
    assert(name.is_suffix_of(path)) by {
        assert(path.subrange(path.len() - name.len(), path.len() as int) =~= name);
    }
    let w = path.take(path.len() - name.len());
    assert(w =~= (d.push('/') + loc).push('/'));
    assert(w.drop_last() =~= d.push('/') + loc);
    let inner = d.push('/') + loc;
    assert(inner.last() == loc.last());
    assert(loc.last() != '/') by {
        assert(loc[loc.len() - 1] == loc.last());
    }
    assert(text::strip_trailing(inner, '/') == inner);
    assert(text::strip_trailing(w, '/') == inner);
    text::lemma_split_concat(d, loc, '/');
    let parts = text::split(inner, '/');
    assert(parts =~= seq![d, loc]);
    reveal(Seq::filter);
    assert(!pred(d));
    assert(!pred(loc));
    assert(seq![d, loc].drop_last() =~= seq![d]);
    assert(seq![d].drop_last() =~= Seq::<Seq<char>>::empty());
    assert(Seq::<Seq<char>>::empty().filter(pred) =~= Seq::<Seq<char>>::empty());
    assert(seq![d].filter(pred) =~= Seq::<Seq<char>>::empty());
    assert(seq![d, loc].last() == loc);
    assert(seq![d, loc].filter(pred) =~= Seq::<Seq<char>>::empty());
    assert(parts.filter(pred) =~= Seq::<Seq<char>>::empty());
    // A file directly in the directory.
    let path2 = d + seq!['/'] + name;
    assert(name.is_suffix_of(path2)) by {
        assert(path2.subrange(path2.len() - name.len(), path2.len() as int) =~= name);
    }
    let w2 = path2.take(path2.len() - name.len());
    assert(w2 =~= d.push('/'));
    assert(w2.drop_last() =~= d);
    assert(d.last() != '/') by {
        assert(d[d.len() - 1] == d.last());
    }
    assert(text::strip_trailing(d, '/') == d);
    assert(text::strip_trailing(w2, '/') == d);
    assert(text::split(d, '/') =~= seq![d]);
    assert(seq![d].filter(pred) =~= Seq::<Seq<char>>::empty());
}

/// A directory name made readable.
pub fn humanize_group_name(value: &str) -> (out: String)
    ensures
        out@ == humanized(value@),
{
    let cs = text::chars_of(value);
    let a = text::replace_chars(cs.as_slice(), '_', ' ');
    let b = text::replace_chars(a.as_slice(), '-', ' ');
    text::string_from(b.as_slice())
}

/// `s` without trailing `c`.
fn strip_trailing_chars(s: &[char], c: char) -> (out: Vec<char>)
    ensures
        out@ == text::strip_trailing(s@, c),
{
    let mut n = s.len();
    assert(s@.take(n as int) =~= s@);
    while n > 0 && s[n - 1] == c
        invariant
            n <= s@.len(),
            text::strip_trailing(s@, c) == text::strip_trailing(s@.take(n as int), c),
        decreases n,
    {
        assert(s@.take(n as int).drop_last() =~= s@.take(n - 1));
        n -= 1;
    }
    text::sub_chars(s, 0, n)
}

/// The group a file with path `path` and name `name` is listed under.
pub fn file_group_label(path: &str, name: &str) -> (out: String)
    ensures
        out@ == file_group_label_of(path@, name@),
{
    let pc = text::chars_of(path);
    let nc = text::chars_of(name);
    let parent = if text::ends_with(pc.as_slice(), nc.as_slice()) {
        text::sub_chars(pc.as_slice(), 0, pc.len() - nc.len())
    } else {
        text::copy_chars(pc.as_slice())
    };
    assert(parent@ == without_name(path@, name@));
    let parent = strip_trailing_chars(parent.as_slice(), '/');
    let pieces = text::split_chars(parent.as_slice(), '/');
    let ghost all = text::texts(pieces@);
    let ghost pick = |p: Seq<char>| is_group_part(p);
    let mut last: Option<Vec<char>> = None;
    for i in 0..pieces.len()
        invariant
            all == text::texts(pieces@),
            pick == (|p: Seq<char>| is_group_part(p)),
            match last {
                Some(l) => all.take(i as int).filter(pick).len() > 0 && l@ == all.take(i as int).filter(
                    pick,
                ).last(),
                None => all.take(i as int).filter(pick).len() == 0,
            },
    {
        proof {
            reveal(Seq::filter);
            assert(all.take(i + 1).drop_last() =~= all.take(i as int));
        }
        let p = &pieces[i];
        assert(all[i as int] == p@);
        let keep = p.len() > 0 && !locale::is_locale_like(p.as_slice()) && !is_plain_translations_dir_chars(
            p.as_slice(),
        );
        assert(keep == pick(p@));
        if keep {
            last = Some(text::copy_chars(p.as_slice()));
        }
    }
    assert(all.take(pieces@.len() as int) =~= all);
    match last {
        Some(l) => {
            let s = text::string_from(l.as_slice());
            let h = humanize_group_name(s.as_str());
            let hc = text::chars_of(h.as_str());
            if hc.len() > 0 {
                return h;
            }
            "General".to_string()
        },
        None => "General".to_string(),
    }
}

/// Whether `p` is a plain translations directory name.
fn is_plain_translations_dir_chars(p: &[char]) -> (r: bool)
    ensures
        r == is_plain_translations_dir(p@),
{
    proof {
        reveal_strlit("locales");
        reveal_strlit("locale");
        reveal_strlit("i18n");
        reveal_strlit("translations");
        reveal_strlit("translation");
        reveal_strlit("lang");
        reveal_strlit("langs");
    }
    text::chars_eq_str(p, "locales") || text::chars_eq_str(p, "locale") || text::chars_eq_str(p, "i18n")
        || text::chars_eq_str(p, "translations") || text::chars_eq_str(p, "translation")
        || text::chars_eq_str(p, "lang") || text::chars_eq_str(p, "langs")
}

/// The group a workspace file is listed under.
pub open spec fn group_label(f: ProjectWorkspaceFileDto) -> Seq<char> {
    file_group_label_of(f.path@, f.name@)
}

/// The files listed under the group `label`, in their order.
pub open spec fn in_group(files: Seq<ProjectWorkspaceFileDto>, label: Seq<char>) -> Seq<ProjectWorkspaceFileDto> {
    files.filter(|f: ProjectWorkspaceFileDto| group_label(f) == label)
}

/// A group of the sidebar: its label and its files.
#[derive(Debug, Clone, PartialEq)]
pub struct FileGroup {
    pub name: String,
    pub files: Vec<ProjectWorkspaceFileDto>,
}

/// A workspace file as the sidebar orders it: by name, then path.
pub struct SidebarFile {
    pub file: ProjectWorkspaceFileDto,
}

impl SortKey for SidebarFile {
    /// Files are ordered by name, then by path.
    open spec fn key_le_spec(self, other: Self) -> bool {
        ||| text::seq_lt(self.file.name@, other.file.name@)
        ||| self.file.name@ == other.file.name@ && text::seq_le(self.file.path@, other.file.path@)
    }

    proof fn lemma_key_le_total(a: Self, b: Self) {
        text::lemma_seq_lt_total(a.file.name@, b.file.name@);
        text::lemma_seq_le_total(a.file.path@, b.file.path@);
    }

    proof fn lemma_key_le_transitive(a: Self, b: Self, c: Self) {
        text::lemma_seq_lt_irreflexive(a.file.name@);
        text::lemma_seq_lt_irreflexive(b.file.name@);
        if text::seq_lt(a.file.name@, b.file.name@) && text::seq_lt(b.file.name@, c.file.name@) {
            text::lemma_seq_lt_transitive(a.file.name@, b.file.name@, c.file.name@);
        }
        if a.file.name@ == b.file.name@ && b.file.name@ == c.file.name@ {
            text::lemma_seq_le_transitive(a.file.path@, b.file.path@, c.file.path@);
        }
    }

    fn key_le(&self, other: &Self) -> (r: bool) {
        if text::str_eq(self.file.name.as_str(), other.file.name.as_str()) {
            proof {
                text::lemma_seq_lt_irreflexive(self.file.name@);
            }
            text::str_le(self.file.path.as_str(), other.file.path.as_str())
        } else {
            proof {
                text::lemma_seq_lt_total(self.file.name@, other.file.name@);
            }
            text::chars_lt(
                text::chars_of(self.file.name.as_str()).as_slice(),
                text::chars_of(other.file.name.as_str()).as_slice(),
            )
        }
    }
}

/// The files as the sidebar orders them.
pub open spec fn sidebar_keys(files: Seq<ProjectWorkspaceFileDto>) -> Seq<SidebarFile> {
    files.map_values(|f: ProjectWorkspaceFileDto| SidebarFile { file: f })
}

/// The files ordered by name, then path, keeping the order of equals.
pub fn sort_sidebar_files(files: &[ProjectWorkspaceFileDto]) -> (out: Vec<ProjectWorkspaceFileDto>)
    ensures
        sort::stable_sort_of(sidebar_keys(out@), sidebar_keys(files@)),
{
    let mut keyed: Vec<SidebarFile> = Vec::new();
    for i in 0..files.len()
        invariant
            keyed@ == sidebar_keys(files@.take(i as int)),
    {
        keyed.push(SidebarFile { file: copy_workspace_file(&files[i]) });
        assert(sidebar_keys(files@.take(i + 1)) =~= sidebar_keys(files@.take(i as int)).push(
            SidebarFile { file: files@[i as int] },
        ));
    }
    assert(files@.take(files@.len() as int) =~= files@);
    let sorted = sort::sort_by_key(keyed);
    let mut out: Vec<ProjectWorkspaceFileDto> = Vec::new();
    for i in 0..sorted.len()
        invariant
            out@.len() == i,
            forall|j: int| 0 <= j < i ==> out@[j] == sorted@[j].file,
    {
        out.push(copy_workspace_file(&sorted[i].file));
    }
    assert(sidebar_keys(out@) =~= sorted@);
    out
}

/// `groups` are the sidebar's groups of `files`: one per label that some
/// file has, in alphabetical order of the labels, each with the files of
/// its label ordered by name, then path.
pub open spec fn groups_files(groups: Seq<FileGroup>, files: Seq<ProjectWorkspaceFileDto>) -> bool {
    &&& forall|a: int, b: int|
        0 <= a < b < groups.len() ==> text::seq_lt(#[trigger] groups[a].name@, #[trigger] groups[b].name@)
    &&& forall|g: int|
        0 <= g < groups.len() ==> (#[trigger] groups[g]).files@.len() > 0 && sort::stable_sort_of(
            sidebar_keys(groups[g].files@),
            sidebar_keys(in_group(files, groups[g].name@)),
        )
    &&& forall|j: int| 0 <= j < files.len() ==> has_group(groups, group_label(#[trigger] files[j]))
}

/// Some group has the label `label`.
pub open spec fn has_group(groups: Seq<FileGroup>, label: Seq<char>) -> bool {
    exists|g: int| 0 <= g < groups.len() && (#[trigger] groups[g]).name@ == label
}

/// The position at which `label` stands or would stand among the sorted
/// `names`.
fn label_position(names: &Vec<String>, label: &String) -> (p: usize)
    requires
        strictly_sorted_texts(names@),
    ensures
        p <= names@.len(),
        forall|g: int| 0 <= g < p ==> text::seq_lt(#[trigger] names@[g]@, label@),
        p < names@.len() ==> !text::seq_lt(names@[p as int]@, label@),
{
    let lc = text::chars_of(label.as_str());
    let mut p: usize = 0;
    while p < names.len() && text::chars_lt(text::chars_of(names[p].as_str()).as_slice(), lc.as_slice())
        invariant
            p <= names@.len(),
            lc@ == label@,
            forall|g: int| 0 <= g < p ==> text::seq_lt(#[trigger] names@[g]@, label@),
        decreases names.len() - p,
    {
        p += 1;
    }
    p
}

/// The sidebar's groups of `files`.
pub fn group_workspace_files(files: Vec<ProjectWorkspaceFileDto>) -> (out: Vec<FileGroup>)
    ensures
        groups_files(out@, files@),
{
    broadcast use vstd::seq_lib::group_filter_ensures;

    let mut names: Vec<String> = Vec::new();
    let mut buckets: Vec<Vec<ProjectWorkspaceFileDto>> = Vec::new();
    for i in 0..files.len()
        invariant
            names@.len() == buckets@.len(),
            strictly_sorted_texts(names@),
            forall|g: int| 0 <= g < buckets@.len() ==> (#[trigger] buckets@[g])@ == in_group(files@.take(i as int), names@[g]@),
            forall|g: int| 0 <= g < buckets@.len() ==> (#[trigger] buckets@[g])@.len() > 0,
            forall|j: int| 0 <= j < i ==> has_text(names@, group_label(#[trigger] files@[j])),
    {
        let f = &files[i];
        let label = file_group_label(f.path.as_str(), f.name.as_str());
        assert(label@ == group_label(*f));
        let p = label_position(&names, &label);
        let ghost old_names = names@;
        let ghost old_buckets = buckets@;
        proof {
            reveal(Seq::filter);
            assert(files@.take(i + 1).drop_last() =~= files@.take(i as int));
            assert(files@.take(i + 1).last() == *f);
        }
        if p < names.len() && text::str_eq(names[p].as_str(), label.as_str()) {
            let mut bucket = buckets.remove(p);
            bucket.push(copy_workspace_file(f));
            buckets.insert(p, bucket);
            proof {
                assert forall|g: int| 0 <= g < buckets@.len() implies (#[trigger] buckets@[g])@ == in_group(
                    files@.take(i + 1),
                    names@[g]@,
                ) by {
                    if g != p {
                        assert(buckets@[g] == old_buckets[g]);
                        if g < p {
                            assert(text::seq_lt(names@[g]@, names@[p as int]@));
                        } else {
                            assert(text::seq_lt(names@[p as int]@, names@[g]@));
                            text::lemma_seq_lt_irreflexive(names@[g]@);
                        }
                    }
                }
                assert forall|g: int| 0 <= g < buckets@.len() implies (#[trigger] buckets@[g])@.len() > 0 by {
                    if g != p {
                        assert(buckets@[g] == old_buckets[g]);
                    }
                }
                assert forall|j: int| 0 <= j < i + 1 implies has_text(names@, group_label(#[trigger] files@[j])) by {
                    if j == i {
                        assert(names@[p as int]@ == label@);
                    }
                }
            }
        } else {
            proof {
                if p < names@.len() {
                    text::lemma_seq_lt_total(label@, names@[p as int]@);
                }
                assert forall|g: int| 0 <= g < names@.len() implies (#[trigger] names@[g])@ != label@ by {
                    if g < p {
                        text::lemma_seq_lt_irreflexive(label@);
                    } else if g > p {
                        text::lemma_seq_lt_transitive(label@, names@[p as int]@, names@[g]@);
                        text::lemma_seq_lt_irreflexive(label@);
                    }
                }
                let earlier = in_group(files@.take(i as int), label@);
                if earlier.len() > 0 {
                    let pred = |x: ProjectWorkspaceFileDto| group_label(x) == label@;
                    assert(pred(earlier[0]));
                    assert(earlier.contains(earlier[0]));
                    files@.take(i as int).lemma_filter_contains_rev(pred, earlier[0]);
                    let j = choose|j: int| 0 <= j < i && files@.take(i as int)[j] == earlier[0];
                    assert(files@[j] == earlier[0]);
                    assert(has_text(names@, group_label(files@[j])));
                }
                assert(earlier.len() == 0);
            }
            let bucket = vec![copy_workspace_file(f)];
            buckets.insert(p, bucket);
            names.insert(p, label);
            proof {
                assert forall|a: int, b: int| 0 <= a < b < names@.len() implies text::seq_lt(
                    #[trigger] names@[a]@,
                    #[trigger] names@[b]@,
                ) by {
                    if b < p {
                        assert(names@[a] == old_names[a] && names@[b] == old_names[b]);
                    } else if b == p {
                        assert(names@[a] == old_names[a]);
                    } else if a < p {
                        assert(names@[a] == old_names[a] && names@[b] == old_names[b - 1]);
                        text::lemma_seq_lt_total(label@, old_names[p as int]@);
                        if b - 1 > p {
                            text::lemma_seq_lt_transitive(label@, old_names[p as int]@, old_names[b - 1]@);
                        }
                        text::lemma_seq_lt_transitive(old_names[a]@, label@, old_names[b - 1]@);
                    } else if a == p {
                        assert(names@[b] == old_names[b - 1]);
                        text::lemma_seq_lt_total(label@, old_names[p as int]@);
                        if b - 1 > p {
                            text::lemma_seq_lt_transitive(label@, old_names[p as int]@, old_names[b - 1]@);
                        }
                    } else {
                        assert(names@[a] == old_names[a - 1] && names@[b] == old_names[b - 1]);
                    }
                }
                assert forall|g: int| 0 <= g < buckets@.len() implies (#[trigger] buckets@[g])@ == in_group(
                    files@.take(i + 1),
                    names@[g]@,
                ) by {
                    if g < p {
                        assert(buckets@[g] == old_buckets[g] && names@[g] == old_names[g]);
                    } else if g > p {
                        assert(buckets@[g] == old_buckets[g - 1] && names@[g] == old_names[g - 1]);
                    } else {
                        assert(buckets@[g]@ =~= seq![*f]);
                    }
                }
                assert forall|g: int| 0 <= g < buckets@.len() implies (#[trigger] buckets@[g])@.len() > 0 by {
                    if g < p {
                        assert(buckets@[g] == old_buckets[g]);
                    } else if g > p {
                        assert(buckets@[g] == old_buckets[g - 1]);
                    }
                }
                assert forall|j: int| 0 <= j < i + 1 implies has_text(names@, group_label(#[trigger] files@[j])) by {
                    if j == i {
                        assert(names@[p as int]@ == label@);
                    } else {
                        assert(has_text(old_names, group_label(files@[j])));
                        let g = choose|g: int| 0 <= g < old_names.len() && old_names[g]@ == group_label(files@[j]);
                        if g < p {
                            assert(names@[g] == old_names[g]);
                        } else {
                            assert(names@[g + 1] == old_names[g]);
                        }
                    }
                }
            }
        }
    }
    assert(files@.take(files@.len() as int) =~= files@);
    let mut out: Vec<FileGroup> = Vec::new();
    for g in 0..names.len()
        invariant
            names@.len() == buckets@.len(),
            strictly_sorted_texts(names@),
            forall|k: int| 0 <= k < buckets@.len() ==> (#[trigger] buckets@[k])@ == in_group(files@, names@[k]@),
            forall|k: int| 0 <= k < buckets@.len() ==> (#[trigger] buckets@[k])@.len() > 0,
            out@.len() == g,
            forall|k: int| 0 <= k < g ==> (#[trigger] out@[k]).name@ == names@[k]@,
            forall|k: int|
                0 <= k < g ==> (#[trigger] out@[k]).files@.len() > 0 && sort::stable_sort_of(
                    sidebar_keys(out@[k].files@),
                    sidebar_keys(in_group(files@, out@[k].name@)),
                ),
    {
        let sorted = sort_sidebar_files(buckets[g].as_slice());
        proof {
            let input = sidebar_keys(buckets@[g as int]@);
            if sorted@.len() == 0 {
                let x = input[0];
                SidebarFile::lemma_key_le_total(x, x);
                let pred = |y: SidebarFile| sort::same_key(x, y);
                assert(pred(input[0]));
                assert(sort::key_class(input, x).contains(input[0]));
                assert(sidebar_keys(sorted@) =~= Seq::<SidebarFile>::empty());
                assert(sort::key_class(sidebar_keys(sorted@), x) =~= Seq::<SidebarFile>::empty());
            }
        }
        out.push(FileGroup { name: names[g].clone(), files: sorted });
    }
    proof {
        assert forall|j: int| 0 <= j < files@.len() implies has_group(out@, group_label(#[trigger] files@[j])) by {
            assert(has_text(names@, group_label(files@[j])));
            let g = choose|g: int| 0 <= g < names@.len() && names@[g]@ == group_label(files@[j]);
            assert(out@[g].name@ == group_label(files@[j]));
        }
        assert forall|a: int, b: int| 0 <= a < b < out@.len() implies text::seq_lt(
            #[trigger] out@[a].name@,
            #[trigger] out@[b].name@,
        ) by {
            assert(text::seq_lt(names@[a]@, names@[b]@));
        }
    }
    out
}

/// Each listed file lies in exactly one group: the group of its label.
pub proof fn lemma_file_in_its_group(groups: Seq<FileGroup>, files: Seq<ProjectWorkspaceFileDto>, j: int, g: int)
    requires
        groups_files(groups, files),
        0 <= j < files.len(),
        0 <= g < groups.len(),
    ensures
        sidebar_keys(groups[g].files@).contains(SidebarFile { file: files[j] }) <==> groups[g].name@ == group_label(
            files[j],
        ),
        has_group(groups, group_label(files[j])),
{
    broadcast use vstd::seq_lib::group_filter_ensures;

    let name = groups[g].name@;
    let pred = |f: ProjectWorkspaceFileDto| group_label(f) == name;
    let members = in_group(files, name);
    let out = sidebar_keys(groups[g].files@);
    let input = sidebar_keys(members);
    let x = SidebarFile { file: files[j] };
    if name == group_label(files[j]) {
        assert(members.contains(files[j]));
        let k = choose|k: int| 0 <= k < members.len() && members[k] == files[j];
        assert(input[k] == x);
        sort::lemma_stable_sort_keeps(out, input, k);
    }
    if out.contains(x) {
        let k = choose|k: int| 0 <= k < out.len() && out[k] == x;
        sort::lemma_stable_sort_contains(out, input, k);
        let m = choose|m: int| 0 <= m < input.len() && input[m] == x;
        assert(members[m] == files[j]);
        assert(pred(members[m]));
    }
}

/// Two groups never share a label.
pub proof fn lemma_group_labels_unique(groups: Seq<FileGroup>, files: Seq<ProjectWorkspaceFileDto>, a: int, b: int)
    requires
        groups_files(groups, files),
        0 <= a < groups.len(),
        0 <= b < groups.len(),
        groups[a].name@ == groups[b].name@,
    ensures
        a == b,
{
    if a < b {
        assert(text::seq_lt(groups[a].name@, groups[b].name@));
        text::lemma_seq_lt_irreflexive(groups[a].name@);
    } else if b < a {
        assert(text::seq_lt(groups[b].name@, groups[a].name@));
        text::lemma_seq_lt_irreflexive(groups[a].name@);
    }
}

/// Matching locales is symmetric: a file in locale `a` matches the source
/// locale `b` exactly when a file in `b` matches the source locale `a`.
pub proof fn lemma_locale_matches_symmetric(a: Seq<char>, b: Seq<char>)
    ensures
        locale_matches_spec(Some(a), b) == locale_matches_spec(Some(b), a),
        locale_matches_spec(Some(a), a),
{
}

// ---------------------------------------------------------------------------
// The open file and key
// ---------------------------------------------------------------------------

/// The file shown: the one picked, else the first file.
pub open spec fn current_file_of(selected: Option<Seq<char>>, files: Seq<ProjectWorkspaceFileDto>) -> Option<Seq<char>> {
    match selected {
        Some(p) => Some(p),
        None => if files.len() > 0 {
            Some(files[0].path@)
        } else {
            None
        },
    }
}

/// The file shown.
pub fn current_file(selected_file: Option<String>, files: &[ProjectWorkspaceFileDto]) -> (out: Option<String>)
    ensures
        opt_view(out) == current_file_of(opt_view(selected_file), files@),
{
    match selected_file {
        Some(p) => Some(p),
        None => if files.len() > 0 {
            Some(files[0].path.clone())
        } else {
            None
        },
    }
}

/// A key of the file with path `path`.
pub open spec fn on_file(path: Seq<char>) -> spec_fn(ProjectWorkspaceKeyDto) -> bool {
    |k: ProjectWorkspaceKeyDto| k.file_path@ == path
}

/// The keys listed: those of the file shown, none while no file is.
pub open spec fn visible_keys_of(keys: Seq<ProjectWorkspaceKeyDto>, file: Option<Seq<char>>) -> Seq<ProjectWorkspaceKeyDto> {
    match file {
        Some(p) => keys.filter(on_file(p)),
        None => Seq::empty(),
    }
}

/// A copy of a workspace key.
pub fn copy_workspace_key(k: &ProjectWorkspaceKeyDto) -> (out: ProjectWorkspaceKeyDto)
    ensures
        out == *k,
{
    ProjectWorkspaceKeyDto {
        key: k.key.clone(),
        file_path: k.file_path.clone(),
        locale: match &k.locale {
            Some(l) => Some(l.clone()),
            None => None,
        },
        value: k.value.clone(),
    }
}

/// The keys listed for the file shown.
pub fn visible_keys(keys: &[ProjectWorkspaceKeyDto], current_file: &Option<String>) -> (out: Vec<ProjectWorkspaceKeyDto>)
    ensures
        out@ == visible_keys_of(keys@, opt_view(*current_file)),
{
    let mut out: Vec<ProjectWorkspaceKeyDto> = Vec::new();
    match current_file {
        Some(path) => {
            let ghost pick = on_file(path@);
            for i in 0..keys.len()
                invariant
                    pick == on_file(path@),
                    out@ == keys@.take(i as int).filter(pick),
            {
                proof {
                    reveal(Seq::filter);
                    assert(keys@.take(i + 1).drop_last() =~= keys@.take(i as int));
                }
                let k = &keys[i];
                assert(keys@.take(i + 1) =~= keys@.take(i as int).push(*k));
                if text::str_eq(k.file_path.as_str(), path.as_str()) {
                    out.push(copy_workspace_key(k));
                }
            }
            assert(keys@.take(keys@.len() as int) =~= keys@);
        },
        None => {},
    }
    out
}

/// The key shown: the one picked, else the first key listed.
pub open spec fn current_key_of(selected: Option<Seq<char>>, visible: Seq<ProjectWorkspaceKeyDto>) -> Option<Seq<char>> {
    match selected {
        Some(k) => Some(k),
        None => if visible.len() > 0 {
            Some(visible[0].key@)
        } else {
            None
        },
    }
}

/// The key shown.
pub fn current_key(selected_key: Option<String>, visible: &[ProjectWorkspaceKeyDto]) -> (out: Option<String>)
    ensures
        opt_view(out) == current_key_of(opt_view(selected_key), visible@),
{
    match selected_key {
        Some(k) => Some(k),
        None => if visible.len() > 0 {
            Some(visible[0].key.clone())
        } else {
            None
        },
    }
}

/// `i` is the position of the first listed key named `key`.
pub open spec fn is_first_key_at(visible: Seq<ProjectWorkspaceKeyDto>, key: Seq<char>, i: int) -> bool {
    &&& 0 <= i < visible.len()
    &&& visible[i].key@ == key
    &&& forall|j: int| 0 <= j < i ==> (#[trigger] visible[j]).key@ != key
}

/// The position of the first listed key named `key`.
pub open spec fn first_key_position(visible: Seq<ProjectWorkspaceKeyDto>, key: Seq<char>) -> Option<int> {
    if exists|i: int| is_first_key_at(visible, key, i) {
        Some(choose|i: int| is_first_key_at(visible, key, i))
    } else {
        None
    }
}

/// The entry the editor shows: the first listed key named as the key shown.
pub fn selected_entry(visible: &[ProjectWorkspaceKeyDto], current_key: &Option<String>) -> (out: Option<ProjectWorkspaceKeyDto>)
    ensures
        match *current_key {
            None => out is None,
            Some(k) => match first_key_position(visible@, k@) {
                Some(i) => out == Some(visible@[i]),
                None => out is None,
            },
        },
{
    match current_key {
        None => None,
        Some(k) => {
            for i in 0..visible.len()
                invariant
                    *current_key == Some(*k),
                    forall|j: int| 0 <= j < i ==> (#[trigger] visible@[j]).key@ != k@,
            {
                if text::str_eq(visible[i].key.as_str(), k.as_str()) {
                    proof {
                        assert(is_first_key_at(visible@, k@, i as int));
                        let c = choose|c: int| is_first_key_at(visible@, k@, c);
                        assert(c == i) by {
                            if c < i {
                            } else if c > i {
                                assert(visible@[i as int].key@ == k@);
                            }
                        }
                    }
                    let e = copy_workspace_key(&visible[i]);
                    return Some(e);
                }
            }
            None
        },
    }
}

// ---------------------------------------------------------------------------
// Labels
// ---------------------------------------------------------------------------

/// The count of keys as the key list shows it: `1 key`, else `n keys`.
pub open spec fn keys_count_text(count: nat) -> Seq<char> {
    if count == 1 {
        "1 key"@
    } else {
        text::decimal(count) + " keys"@
    }
}

/// The count of keys as the key list shows it.
pub fn keys_count_label(count: usize) -> (out: String)
    ensures
        out@ == keys_count_text(count as nat),
{
    if count == 1 {
        return "1 key".to_string();
    }
    let mut out = String::new();
    text::push_decimal(&mut out, count);
    out.append(" keys");
    out
}

/// The label of the sync button.
pub open spec fn sync_button_text(syncing: bool, progress: Option<ProjectSyncProgressDto>) -> Seq<char> {
    if !syncing {
        "Sync repository"@
    } else {
        match progress {
            None => "Syncing..."@,
            Some(p) => if p.done {
                "Synced"@
            } else if p.total_files > 0 && p.processed_files < p.total_files {
                "Syncing "@ + text::decimal(p.processed_files as nat) + "/"@ + text::decimal(
                    p.total_files as nat,
                )
            } else if p.message@.len() > 0 {
                p.message@
            } else {
                "Syncing..."@
            },
        }
    }
}

/// The label of the sync button.
pub fn sync_button_label(syncing: bool, progress: Option<ProjectSyncProgressDto>) -> (out: String)
    ensures
        out@ == sync_button_text(syncing, progress),
{
    if !syncing {
        return "Sync repository".to_string();
    }
    let progress = match progress {
        Some(p) => p,
        None => {
            return "Syncing...".to_string();
        },
    };
    if progress.done {
        return "Synced".to_string();
    }
    if progress.total_files > 0 && progress.processed_files < progress.total_files {
        let mut out = "Syncing ".to_string();
        text::push_decimal(&mut out, progress.processed_files);
        out.append("/");
        text::push_decimal(&mut out, progress.total_files);
        return out;
    }
    let mc = text::chars_of(progress.message.as_str());
    if mc.len() > 0 {
        return progress.message;
    }
    "Syncing...".to_string()
}

// ---------------------------------------------------------------------------
// The sync button
// ---------------------------------------------------------------------------

/// What the sync button shows: whether a sync runs, its last progress
/// report, and the last error.
pub struct SyncButton {
    pub syncing: bool,
    pub progress: Option<ProjectSyncProgressDto>,
    pub error: Option<String>,
}

/// What the stream of a running sync delivers.
pub enum SyncEvent {
    /// The sync could not be started.
    StartFailed(String),
    /// A progress report.
    Progress(ProjectSyncProgressDto),
    /// The stream failed.
    StreamFailed(String),
    /// The stream ended without a final report.
    Ended,
}

/// What to do after an event: keep reading, or stop, saying whether the
/// sync completed without error.
pub enum SyncStep {
    Continue,
    Stop { synced: bool },
}

impl SyncButton {
    /// A button with no sync run yet.
    pub fn new() -> (out: Self)
        ensures
            !out.syncing,
            out.progress is None,
            out.error is None,
    {
        SyncButton { syncing: false, progress: None, error: None }
    }

    /// The button is pressed: unless a sync runs already, one starts with
    /// no report and no error; returns whether it started.
    pub fn press(&mut self) -> (started: bool)
        ensures
            started == !old(self).syncing,
            started ==> final(self).syncing && final(self).progress is None && final(self).error is None,
            !started ==> *final(self) == *old(self),
    {
        if self.syncing {
            return false;
        }
        self.syncing = true;
        self.progress = None;
        self.error = None;
        true
    }

    /// The running sync delivers `event`.  A report is kept, and its error
    /// shown; a final report stops the sync, which completed if the report
    /// has no error.  A failure shows its message and stops; so does the end
    /// of the stream.
    pub fn observe(&mut self, event: SyncEvent) -> (step: SyncStep)
        ensures
            match event {
                SyncEvent::Progress(p) => {
                    &&& final(self).progress == Some(p)
                    &&& final(self).error == match p.error {
                        Some(e) => Some(e),
                        None => old(self).error,
                    }
                    &&& if p.done {
                        !final(self).syncing && step == (SyncStep::Stop { synced: p.error is None })
                    } else {
                        final(self).syncing == old(self).syncing && step is Continue
                    }
                },
                SyncEvent::StartFailed(e) | SyncEvent::StreamFailed(e) => {
                    &&& final(self).error == Some(e)
                    &&& final(self).progress == old(self).progress
                    &&& !final(self).syncing
                    &&& step == (SyncStep::Stop { synced: false })
                },
                SyncEvent::Ended => {
                    &&& final(self).error == old(self).error
                    &&& final(self).progress == old(self).progress
                    &&& !final(self).syncing
                    &&& step == (SyncStep::Stop { synced: false })
                },
            },
    {
        match event {
            SyncEvent::Progress(p) => {
                let done = p.done;
                let has_error = p.error.is_some();
                match &p.error {
                    Some(e) => {
                        self.error = Some(e.clone());
                    },
                    None => {},
                }
                self.progress = Some(p);
                if done {
                    self.syncing = false;
                    SyncStep::Stop { synced: !has_error }
                } else {
                    SyncStep::Continue
                }
            },
            SyncEvent::StartFailed(e) | SyncEvent::StreamFailed(e) => {
                self.error = Some(e);
                self.syncing = false;
                SyncStep::Stop { synced: false }
            },
            SyncEvent::Ended => {
                self.syncing = false;
                SyncStep::Stop { synced: false }
            },
        }
    }

    /// The button's label.
    pub fn label(&self) -> (out: String)
        ensures
            out@ == sync_button_text(self.syncing, self.progress),
    {
        let progress = match &self.progress {
            Some(p) => Some(copy_progress(p)),
            None => None,
        };
        sync_button_label(self.syncing, progress)
    }
}

/// A copy of a progress report.
pub fn copy_progress(p: &ProjectSyncProgressDto) -> (out: ProjectSyncProgressDto)
    ensures
        out == *p,
{
    ProjectSyncProgressDto {
        total_files: p.total_files,
        processed_files: p.processed_files,
        keys_count: p.keys_count,
        translations_count: p.translations_count,
        locales_count: p.locales_count,
        message: p.message.clone(),
        done: p.done,
        error: match &p.error {
            Some(e) => Some(e.clone()),
            None => None,
        },
    }
}

} // verus!
