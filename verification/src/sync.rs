//! The decisions of a synchronisation with the repository: which Fluent
//! files changed, which were deleted, which keys and translations to
//! store, which stored keys to remove, and what to report on the way.
//!
//! The application fetches the tree, the blobs and the stored rows, and
//! writes to the database; everything it decides comes from here.
use vstd::prelude::*;

use crate::dto::{opt_view, ProjectSyncDto, ProjectSyncProgressDto};
use crate::fluent::ParsedFluentEntry;
use crate::github::GithubTreeFile;
use crate::keyed::{
    deduped, dedupe_by_key, deduped_by_key, find_by_key, has_key, has_text, insert_text_sorted,
    keyed_get, keys_increasing, strictly_sorted_texts, KeyedCopy, TextKeyed,
};
use crate::locale;
use crate::sort;
use crate::sort::SortKey;
use crate::text;

verus! {

broadcast use vstd::string::group_string_axioms;

// ---------------------------------------------------------------------------
// Data
// ---------------------------------------------------------------------------

/// A Fluent file of the repository, with the locale it belongs to.
#[derive(Debug, Clone, PartialEq)]
pub struct SyncFile {
    pub path: String,
    pub sha: String,
    pub locale: Option<String>,
}

/// A stored file of a project: its path and the blob sha stored for it.
#[derive(Debug, Clone, PartialEq)]
pub struct StoredFileSha {
    pub path: String,
    pub sha: String,
}

/// A stored translation key: its id and its key.
#[derive(Debug, Clone, PartialEq)]
pub struct StoredTranslationKey {
    pub id: String,
    pub key: String,
}

/// A translation to store: the key it translates, its locale, the file it
/// came from and its text.
#[derive(Debug, Clone, PartialEq)]
pub struct SyncTranslationValue {
    pub key_id: String,
    pub locale: String,
    pub file_path: String,
    pub value: String,
}

/// The messages read so far for one locale.
#[derive(Debug, Clone, PartialEq)]
pub struct LocaleEntries {
    pub locale: String,
    pub entries: Vec<ParsedFluentEntry>,
}

impl TextKeyed for StoredFileSha {
    open spec fn text_key(self) -> Seq<char> {
        self.path@
    }

    fn key_text(&self) -> (r: &str) {
        self.path.as_str()
    }

}

impl KeyedCopy for StoredFileSha {
    fn duplicate(&self) -> (r: Self) {
        StoredFileSha { path: self.path.clone(), sha: self.sha.clone() }
    }
}

impl TextKeyed for StoredTranslationKey {
    open spec fn text_key(self) -> Seq<char> {
        self.key@
    }

    fn key_text(&self) -> (r: &str) {
        self.key.as_str()
    }

}

impl KeyedCopy for StoredTranslationKey {
    fn duplicate(&self) -> (r: Self) {
        StoredTranslationKey { id: self.id.clone(), key: self.key.clone() }
    }
}

impl TextKeyed for LocaleEntries {
    open spec fn text_key(self) -> Seq<char> {
        self.locale@
    }

    fn key_text(&self) -> (r: &str) {
        self.locale.as_str()
    }

}

/// A copy of a list of messages.
pub fn copy_entries(entries: &Vec<ParsedFluentEntry>) -> (out: Vec<ParsedFluentEntry>)
    ensures
        out@ == entries@,
{
    let mut out: Vec<ParsedFluentEntry> = Vec::new();
    for i in 0..entries.len()
        invariant
            out@ == entries@.take(i as int),
    {
        out.push(entries[i].duplicate());
        assert(out@ =~= entries@.take(i + 1));
    }
    assert(out@ =~= entries@);
    out
}

/// A copy of a Fluent file of the repository.
pub fn copy_sync_file(f: &SyncFile) -> (out: SyncFile)
    ensures
        out == *f,
{
    SyncFile {
        path: f.path.clone(),
        sha: f.sha.clone(),
        locale: match &f.locale {
            Some(l) => Some(l.clone()),
            None => None,
        },
    }
}

// ---------------------------------------------------------------------------
// The files of the repository
// ---------------------------------------------------------------------------

/// A file of the repository as plain values: path, sha and locale.
pub open spec fn sync_file_view(f: SyncFile) -> (Seq<char>, Seq<char>, Option<Seq<char>>) {
    (f.path@, f.sha@, opt_view(f.locale))
}

/// The Fluent files of a tree, in tree order: the blobs whose path ends in
/// `.ftl`, each with the locale its path names or else the source locale.
pub open spec fn sync_selection(tree: Seq<GithubTreeFile>, source_locale: Seq<char>) -> Seq<
    (Seq<char>, Seq<char>, Option<Seq<char>>),
>
    decreases tree.len(),
{
    if tree.len() == 0 {
        Seq::empty()
    } else {
        let rest = sync_selection(tree.drop_last(), source_locale);
        let f = tree.last();
        if f.kind@ == "blob"@ && ".ftl"@.is_suffix_of(f.path@) {
            rest.push((f.path@, f.sha@, locale::project_path_locale(f.path@, Some(source_locale))))
        } else {
            rest
        }
    }
}

/// The Fluent files of a tree with their locales, in tree order.
pub fn select_sync_files(tree: &[GithubTreeFile], source_locale: &str) -> (out: Vec<SyncFile>)
    ensures
        out@.map_values(|f: SyncFile| sync_file_view(f)) == sync_selection(tree@, source_locale@),
{
    let mut out: Vec<SyncFile> = Vec::new();
    for i in 0..tree.len()
        invariant
            out@.map_values(|f: SyncFile| sync_file_view(f)) == sync_selection(
                tree@.take(i as int),
                source_locale@,
            ),
    {
        let f = &tree[i];
        assert(tree@.take(i + 1).drop_last() =~= tree@.take(i as int));
        assert(tree@.take(i + 1).last() == *f);
        let ghost before = out@.map_values(|f: SyncFile| sync_file_view(f));
        if crate::scan::fluent_blob(f) {
            let locale = locale::infer_locale_from_project_path(f.path.as_str(), Some(source_locale));
            out.push(SyncFile { path: f.path.clone(), sha: f.sha.clone(), locale });
            assert(out@.map_values(|f: SyncFile| sync_file_view(f)) =~= before.push(
                (f.path@, f.sha@, locale::project_path_locale(f.path@, Some(source_locale@))),
            ));
        }
    }
    assert(tree@.take(tree@.len() as int) =~= tree@);
    out
}

/// Optional texts ordered as `Option<String>`: nothing first, then texts in order.
pub open spec fn opt_text_lt(a: Option<Seq<char>>, b: Option<Seq<char>>) -> bool {
    match (a, b) {
        (None, Some(_)) => true,
        (Some(x), Some(y)) => text::seq_lt(x, y),
        _ => false,
    }
}

/// Ordering by locale, then path: `(la, pa)` comes no later than `(lb, pb)`.
pub open spec fn locale_path_le(la: Option<Seq<char>>, pa: Seq<char>, lb: Option<Seq<char>>, pb: Seq<char>) -> bool {
    ||| opt_text_lt(la, lb)
    ||| la == lb && text::seq_le(pa, pb)
}

/// The order by locale, then path, is total.
pub proof fn lemma_locale_path_total(la: Option<Seq<char>>, pa: Seq<char>, lb: Option<Seq<char>>, pb: Seq<char>)
    ensures
        locale_path_le(la, pa, lb, pb) || locale_path_le(lb, pb, la, pa),
{
    text::lemma_seq_le_total(pa, pb);
    match (la, lb) {
        (Some(x), Some(y)) => {
            text::lemma_seq_lt_total(x, y);
        },
        _ => {},
    }
}

/// The order by locale, then path, is transitive.
pub proof fn lemma_locale_path_transitive(
    la: Option<Seq<char>>,
    pa: Seq<char>,
    lb: Option<Seq<char>>,
    pb: Seq<char>,
    lc: Option<Seq<char>>,
    pc: Seq<char>,
)
    requires
        locale_path_le(la, pa, lb, pb),
        locale_path_le(lb, pb, lc, pc),
    ensures
        locale_path_le(la, pa, lc, pc),
{
    match (la, lb, lc) {
        (Some(x), Some(y), Some(z)) => {
            text::lemma_seq_lt_irreflexive(x);
            text::lemma_seq_lt_irreflexive(y);
            if text::seq_lt(x, y) && text::seq_lt(y, z) {
                text::lemma_seq_lt_transitive(x, y, z);
            }
        },
        (Some(x), Some(y), None) => {
            text::lemma_seq_lt_irreflexive(x);
        },
        (None, Some(y), Some(z)) => {
            text::lemma_seq_lt_irreflexive(y);
        },
        _ => {},
    }
    if la == lb && lb == lc {
        text::lemma_seq_le_transitive(pa, pb, pc);
    }
}

/// Whether `(la, pa)` comes no later than `(lb, pb)` by locale, then path.
pub fn locale_path_le_exec(la: &Option<String>, pa: &str, lb: &Option<String>, pb: &str) -> (r: bool)
    ensures
        r == locale_path_le(opt_view(*la), pa@, opt_view(*lb), pb@),
{
    match (la, lb) {
        (None, None) => text::str_le(pa, pb),
        (None, Some(_)) => true,
        (Some(_), None) => false,
        (Some(x), Some(y)) => {
            if text::str_eq(x.as_str(), y.as_str()) {
                proof {
                    text::lemma_seq_lt_irreflexive(x@);
                }
                text::str_le(pa, pb)
            } else {
                proof {
                    text::lemma_seq_lt_total(x@, y@);
                    if text::seq_lt(x@, y@) {
                        text::lemma_seq_lt_asymmetric(x@, y@);
                    }
                }
                text::str_le(x.as_str(), y.as_str())
            }
        },
    }
}

impl SortKey for SyncFile {
    /// Files are ordered by locale, then by path.
    open spec fn key_le_spec(self, other: Self) -> bool {
        locale_path_le(opt_view(self.locale), self.path@, opt_view(other.locale), other.path@)
    }

    proof fn lemma_key_le_total(a: Self, b: Self) {
        lemma_locale_path_total(opt_view(a.locale), a.path@, opt_view(b.locale), b.path@);
    }

    proof fn lemma_key_le_transitive(a: Self, b: Self, c: Self) {
        lemma_locale_path_transitive(
            opt_view(a.locale),
            a.path@,
            opt_view(b.locale),
            b.path@,
            opt_view(c.locale),
            c.path@,
        );
    }

    fn key_le(&self, other: &Self) -> (r: bool) {
        locale_path_le_exec(&self.locale, self.path.as_str(), &other.locale, other.path.as_str())
    }
}

/// The files ordered by locale, then path, keeping the order of equals.
pub fn sort_sync_files(files: Vec<SyncFile>) -> (out: Vec<SyncFile>)
    ensures
        sort::stable_sort_of(out@, files@),
        out@.len() == files@.len(),
{
    sort::sort_by_key(files)
}

/// The Fluent files of a tree with their locales, ordered by locale, then path.
pub fn collect_sync_files(tree: &[GithubTreeFile], source_locale: &str) -> (out: Vec<SyncFile>)
    ensures
        exists|selected: Seq<SyncFile>|
            selected.map_values(|f: SyncFile| sync_file_view(f)) == sync_selection(
                tree@,
                source_locale@,
            ) && sort::stable_sort_of(out@, selected),
{
    let selected = select_sync_files(tree, source_locale);
    let ghost s = selected@;
    let out = sort_sync_files(selected);
    assert(s.map_values(|f: SyncFile| sync_file_view(f)) == sync_selection(tree@, source_locale@)
        && sort::stable_sort_of(out@, s));
    out
}

/// Some file has the locale `l`.
pub open spec fn has_sync_locale(files: Seq<SyncFile>, l: Seq<char>) -> bool {
    exists|i: int| 0 <= i < files.len() && opt_view(files[i].locale) == Some(l)
}

/// The locales of the files, in increasing order, once each.
pub fn sync_locales(files: &[SyncFile]) -> (out: Vec<String>)
    ensures
        strictly_sorted_texts(out@),
        forall|l: Seq<char>| #[trigger] has_text(out@, l) == has_sync_locale(files@, l),
{
    let mut out: Vec<String> = Vec::new();
    for i in 0..files.len()
        invariant
            strictly_sorted_texts(out@),
            forall|l: Seq<char>| #[trigger] has_text(out@, l) == has_sync_locale(files@.take(i as int), l),
    {
        let ghost pre = files@.take(i as int);
        let ghost post = files@.take(i + 1);
        assert(post =~= pre.push(files@[i as int]));
        match &files[i].locale {
            Some(l) => {
                insert_text_sorted(&mut out, l.clone());
            },
            None => {},
        }
        assert forall|l: Seq<char>| #[trigger] has_text(out@, l) == has_sync_locale(post, l) by {
            if has_sync_locale(post, l) {
                let k = choose|k: int| 0 <= k < post.len() && opt_view(post[k].locale) == Some(l);
                if k < pre.len() {
                    assert(pre[k] == post[k]);
                    assert(has_sync_locale(pre, l));
                }
            }
            if has_sync_locale(pre, l) {
                let k = choose|k: int| 0 <= k < pre.len() && opt_view(pre[k].locale) == Some(l);
                assert(post[k] == pre[k]);
            }
            if opt_view(files@[i as int].locale) == Some(l) {
                assert(post[i as int] == files@[i as int]);
            }
        }
    }
    assert(files@.take(files@.len() as int) =~= files@);
    out
}

// ---------------------------------------------------------------------------
// What changed since the last synchronisation
// ---------------------------------------------------------------------------

/// The stored files, one per path (the last row of each), ordered by path.
pub fn existing_file_shas(rows: &[StoredFileSha]) -> (out: Vec<StoredFileSha>)
    ensures
        out@ == deduped(rows@),
        deduped_by_key(out@, rows@),
{
    dedupe_by_key(rows)
}

/// A file changed: it has no stored sha, or another one.
pub open spec fn sync_file_changed(existing: Seq<StoredFileSha>, f: SyncFile) -> bool {
    !has_key(existing, f.path@) || keyed_get(existing, f.path@).sha@ != f.sha@
}

/// The files that changed since the last synchronisation, in order.
pub fn changed_sync_files(files: &[SyncFile], existing: &[StoredFileSha]) -> (out: Vec<SyncFile>)
    requires
        keys_increasing(existing@),
    ensures
        out@ == files@.filter(|f: SyncFile| sync_file_changed(existing@, f)),
{
    let mut out: Vec<SyncFile> = Vec::new();
    for i in 0..files.len()
        invariant
            keys_increasing(existing@),
            out@ == files@.take(i as int).filter(|f: SyncFile| sync_file_changed(existing@, f)),
    {
        proof {
            reveal(Seq::filter);
            assert(files@.take(i + 1).drop_last() =~= files@.take(i as int));
        }
        let f = &files[i];
        let changed = match find_by_key(existing, f.path.as_str()) {
            Some(e) => !text::str_eq(e.sha.as_str(), f.sha.as_str()),
            None => true,
        };
        if changed {
            out.push(copy_sync_file(f));
        }
    }
    assert(files@.take(files@.len() as int) =~= files@);
    out
}

/// Some file has the path `p`.
pub open spec fn has_sync_path(files: Seq<SyncFile>, p: Seq<char>) -> bool {
    exists|i: int| 0 <= i < files.len() && files[i].path@ == p
}

/// The stored files that the repository no longer has, in stored order.
pub open spec fn deleted_paths(existing: Seq<StoredFileSha>, files: Seq<SyncFile>) -> Seq<Seq<char>> {
    existing.filter(|e: StoredFileSha| !has_sync_path(files, e.path@)).map_values(
        |e: StoredFileSha| e.path@,
    )
}

/// Whether some file has the path `p`.
fn any_sync_path(files: &[SyncFile], p: &str) -> (r: bool)
    ensures
        r == has_sync_path(files@, p@),
{
    for i in 0..files.len()
        invariant
            forall|j: int| 0 <= j < i ==> (#[trigger] files@[j]).path@ != p@,
    {
        if text::str_eq(files[i].path.as_str(), p) {
            return true;
        }
    }
    false
}

/// The paths of stored files that the repository no longer has.
pub fn deleted_file_paths(existing: &[StoredFileSha], files: &[SyncFile]) -> (out: Vec<String>)
    ensures
        out@.map_values(|s: String| s@) == deleted_paths(existing@, files@),
{
    let mut out: Vec<String> = Vec::new();
    for i in 0..existing.len()
        invariant
            out@.map_values(|s: String| s@) == deleted_paths(existing@.take(i as int), files@),
    {
        proof {
            reveal(Seq::filter);
            assert(existing@.take(i + 1).drop_last() =~= existing@.take(i as int));
        }
        let e = &existing[i];
        let ghost before = out@.map_values(|s: String| s@);
        if !any_sync_path(files, e.path.as_str()) {
            out.push(e.path.clone());
            assert(out@.map_values(|s: String| s@) =~= before.push(e.path@));
            assert(deleted_paths(existing@.take(i + 1), files@) =~= deleted_paths(existing@.take(i as int), files@).push(e.path@));
        } else {
            assert(deleted_paths(existing@.take(i + 1), files@) =~= deleted_paths(existing@.take(i as int), files@));
        }
    }
    assert(existing@.take(existing@.len() as int) =~= existing@);
    out
}

// ---------------------------------------------------------------------------
// The messages read, by locale
// ---------------------------------------------------------------------------

/// The messages read for locale `l` so far.
pub open spec fn locale_entries(groups: Seq<LocaleEntries>, l: Seq<char>) -> Seq<ParsedFluentEntry> {
    if has_key(groups, l) {
        keyed_get(groups, l).entries@
    } else {
        Seq::empty()
    }
}

/// Adds the messages of a file in `locale` after those read for it so far.
pub fn add_locale_entries(groups: &mut Vec<LocaleEntries>, locale: String, entries: Vec<ParsedFluentEntry>)
    requires
        keys_increasing(old(groups)@),
    ensures
        keys_increasing(final(groups)@),
        forall|l: Seq<char>| #[trigger] has_key(final(groups)@, l) == (has_key(old(groups)@, l) || l == locale@),
        forall|l: Seq<char>|
            #[trigger] locale_entries(final(groups)@, l) == if l == locale@ {
                locale_entries(old(groups)@, l) + entries@
            } else {
                locale_entries(old(groups)@, l)
            },
{
    let ghost before = groups@;
    let mut p: usize = 0;
    while p < groups.len() && !text::str_le(locale.as_str(), groups[p].locale.as_str())
        invariant
            p <= groups@.len(),
            groups@ == before,
            keys_increasing(before),
            forall|q: int| 0 <= q < p ==> text::seq_lt(#[trigger] groups@[q].locale@, locale@),
        decreases groups.len() - p,
    {
        p += 1;
    }
    if p < groups.len() && text::str_eq(groups[p].locale.as_str(), locale.as_str()) {
        let mut g = groups.remove(p);
        let mut extra = entries;
        let ghost old_entries = g.entries@;
        g.entries.append(&mut extra);
        groups.insert(p, g);
        proof {
            assert(groups@ =~= before.update(p as int, g));
            assert forall|i: int, j: int| 0 <= i < j < groups@.len() implies text::seq_lt(
                #[trigger] groups@[i].text_key(),
                #[trigger] groups@[j].text_key(),
            ) by {
                assert(groups@[i].locale@ == before[i].locale@);
                assert(groups@[j].locale@ == before[j].locale@);
                assert(text::seq_lt(before[i].text_key(), before[j].text_key()));
            }
            lemma_groups_unique_get(before, p as int);
            lemma_groups_unique_get(groups@, p as int);
            assert forall|l: Seq<char>| #[trigger] has_key(groups@, l) == (has_key(before, l) || l == locale@) by {
                lemma_has_key_same_keys(before, groups@, l);
            }
            assert forall|l: Seq<char>| #[trigger] locale_entries(groups@, l) == if l == locale@ {
                locale_entries(before, l) + entries@
            } else {
                locale_entries(before, l)
            } by {
                lemma_has_key_same_keys(before, groups@, l);
                if l != locale@ && has_key(before, l) {
                    let i = choose|i: int| 0 <= i < before.len() && before[i].locale@ == l;
                    lemma_groups_unique_get(before, i);
                    lemma_groups_unique_get(groups@, i);
                }
            }
        }
    } else {
        proof {
            if p < groups@.len() {
                text::lemma_seq_lt_total(locale@, groups@[p as int].locale@);
            }
        }
        let g = LocaleEntries { locale, entries };
        groups.insert(p, g);
        proof {
            assert forall|q: int| p <= q < before.len() implies text::seq_lt(g.locale@, #[trigger] before[q].locale@) by {
                if q > p {
                    assert(text::seq_lt(before[p as int].text_key(), before[q].text_key()));
                    text::lemma_seq_lt_transitive(g.locale@, before[p as int].locale@, before[q].locale@);
                }
            }
            assert forall|i: int, j: int| 0 <= i < j < groups@.len() implies text::seq_lt(
                #[trigger] groups@[i].text_key(),
                #[trigger] groups@[j].text_key(),
            ) by {
                if j < p {
                    assert(groups@[i] == before[i] && groups@[j] == before[j]);
                } else if j == p {
                    assert(groups@[i] == before[i]);
                } else if i < p {
                    assert(groups@[i] == before[i] && groups@[j] == before[j - 1]);
                    text::lemma_seq_lt_transitive(before[i].locale@, g.locale@, before[j - 1].locale@);
                } else if i == p {
                    assert(groups@[j] == before[j - 1]);
                } else {
                    assert(groups@[i] == before[i - 1] && groups@[j] == before[j - 1]);
                }
            }
            assert(!has_key(before, g.locale@)) by {
                if has_key(before, g.locale@) {
                    let i = choose|i: int| 0 <= i < before.len() && before[i].locale@ == g.locale@;
                    if i < p {
                        text::lemma_seq_lt_irreflexive(g.locale@);
                    } else {
                        text::lemma_seq_lt_irreflexive(g.locale@);
                    }
                }
            }
            lemma_groups_unique_get(groups@, p as int);
            assert forall|l: Seq<char>| #[trigger] has_key(groups@, l) == (has_key(before, l) || l == g.locale@) by {
                if has_key(groups@, l) {
                    let i = choose|i: int| 0 <= i < groups@.len() && groups@[i].locale@ == l;
                    if i < p {
                        assert(before[i] == groups@[i]);
                    } else if i > p {
                        assert(before[i - 1] == groups@[i]);
                    }
                }
                if has_key(before, l) {
                    let i = choose|i: int| 0 <= i < before.len() && before[i].locale@ == l;
                    if i < p {
                        assert(groups@[i] == before[i]);
                    } else {
                        assert(groups@[i + 1] == before[i]);
                    }
                }
                if l == g.locale@ {
                    assert(groups@[p as int].locale@ == l);
                }
            }
            assert forall|l: Seq<char>| #[trigger] locale_entries(groups@, l) == if l == g.locale@ {
                locale_entries(before, l) + entries@
            } else {
                locale_entries(before, l)
            } by {
                if l == g.locale@ {
                    assert(locale_entries(before, l) =~= Seq::<ParsedFluentEntry>::empty());
                    assert(Seq::<ParsedFluentEntry>::empty() + entries@ =~= entries@);
                } else if has_key(before, l) {
                    let i = choose|i: int| 0 <= i < before.len() && before[i].locale@ == l;
                    lemma_groups_unique_get(before, i);
                    let gi = if i < p { i } else { i + 1 };
                    assert(groups@[gi] == before[i]);
                    lemma_groups_unique_get(groups@, gi);
                } else {
                    assert(!has_key(groups@, l));
                }
            }
        }
    }
}

/// The source messages to store: for each key, the last message read for
/// the source locale, in key order.
pub fn source_entries(groups: &[LocaleEntries], source_locale: &str) -> (out: Vec<ParsedFluentEntry>)
    requires
        keys_increasing(groups@),
    ensures
        out@ == deduped(locale_entries(groups@, source_locale@)),
{
    match find_by_key(groups, source_locale) {
        Some(g) => dedupe_by_key(g.entries.as_slice()),
        None => {
            let out: Vec<ParsedFluentEntry> = Vec::new();
            let entries: Vec<ParsedFluentEntry> = Vec::new();
            let d = dedupe_by_key(entries.as_slice());
            assert(entries@ =~= locale_entries(groups@, source_locale@));
            d
        },
    }
}

/// Some locale other than the source locale has messages read.
pub open spec fn has_other_locale(groups: Seq<LocaleEntries>, source_locale: Seq<char>) -> bool {
    exists|i: int| 0 <= i < groups.len() && groups[i].locale@ != source_locale
}

/// Whether translations may need the ids of the stored keys: whether some
/// locale other than the source locale has messages read.
pub fn needs_key_ids(groups: &[LocaleEntries], source_locale: &str) -> (r: bool)
    ensures
        r == has_other_locale(groups@, source_locale@),
{
    for i in 0..groups.len()
        invariant
            forall|j: int| 0 <= j < i ==> (#[trigger] groups@[j]).locale@ == source_locale@,
    {
        if !text::str_eq(groups[i].locale.as_str(), source_locale) {
            return true;
        }
    }
    false
}

/// The stored keys, one per key (the last row of each), ordered by key.
pub fn key_ids_by_key(rows: &[StoredTranslationKey]) -> (out: Vec<StoredTranslationKey>)
    ensures
        out@ == deduped(rows@),
        deduped_by_key(out@, rows@),
{
    dedupe_by_key(rows)
}

/// A translation as plain values: key id, locale, file and text.
pub open spec fn value_view(v: SyncTranslationValue) -> (Seq<char>, Seq<char>, Seq<char>, Seq<char>) {
    (v.key_id@, v.locale@, v.file_path@, v.value@)
}

/// The translation a message of `locale` gives for its stored key.
pub open spec fn translation_of(
    locale: Seq<char>,
    e: ParsedFluentEntry,
    key_ids: Seq<StoredTranslationKey>,
) -> (Seq<char>, Seq<char>, Seq<char>, Seq<char>) {
    (keyed_get(key_ids, e.key@).id@, locale, e.file_path@, e.value@)
}

/// The translations of one locale: for each key that is stored, the last
/// message read for it, in key order.
pub open spec fn locale_translations(
    locale: Seq<char>,
    entries: Seq<ParsedFluentEntry>,
    key_ids: Seq<StoredTranslationKey>,
) -> Seq<(Seq<char>, Seq<char>, Seq<char>, Seq<char>)> {
    deduped(entries).filter(|e: ParsedFluentEntry| has_key(key_ids, e.key@)).map_values(
        |e: ParsedFluentEntry| translation_of(locale, e, key_ids),
    )
}

/// The translations of all locales but the source one, locale by locale.
pub open spec fn all_translations(
    groups: Seq<LocaleEntries>,
    source_locale: Seq<char>,
    key_ids: Seq<StoredTranslationKey>,
) -> Seq<(Seq<char>, Seq<char>, Seq<char>, Seq<char>)>
    decreases groups.len(),
{
    if groups.len() == 0 {
        Seq::empty()
    } else {
        let g = groups.last();
        all_translations(groups.drop_last(), source_locale, key_ids) + if g.locale@ == source_locale {
            Seq::empty()
        } else {
            locale_translations(g.locale@, g.entries@, key_ids)
        }
    }
}

/// The translations to store.
pub fn translation_values(
    groups: &[LocaleEntries],
    source_locale: &str,
    key_ids: &[StoredTranslationKey],
) -> (out: Vec<SyncTranslationValue>)
    requires
        keys_increasing(key_ids@),
    ensures
        out@.map_values(|v: SyncTranslationValue| value_view(v)) == all_translations(
            groups@,
            source_locale@,
            key_ids@,
        ),
{
    let mut out: Vec<SyncTranslationValue> = Vec::new();
    for i in 0..groups.len()
        invariant
            keys_increasing(key_ids@),
            out@.map_values(|v: SyncTranslationValue| value_view(v)) == all_translations(
                groups@.take(i as int),
                source_locale@,
                key_ids@,
            ),
    {
        let g = &groups[i];
        assert(groups@.take(i + 1).drop_last() =~= groups@.take(i as int));
        assert(groups@.take(i + 1).last() == *g);
        let ghost before = out@.map_values(|v: SyncTranslationValue| value_view(v));
        if text::str_eq(g.locale.as_str(), source_locale) {
            assert(before + Seq::<(Seq<char>, Seq<char>, Seq<char>, Seq<char>)>::empty() =~= before);
        } else {
            let entries = dedupe_by_key(g.entries.as_slice());
            let ghost kept = entries@.filter(|e: ParsedFluentEntry| has_key(key_ids@, e.key@));
            for k in 0..entries.len()
                invariant
                    keys_increasing(key_ids@),
                    out@.map_values(|v: SyncTranslationValue| value_view(v)) == before
                        + entries@.take(k as int).filter(
                        |e: ParsedFluentEntry| has_key(key_ids@, e.key@),
                    ).map_values(|e: ParsedFluentEntry| translation_of(g.locale@, e, key_ids@)),
            {
                let e = &entries[k];
                proof {
                    reveal(Seq::filter);
                    assert(entries@.take(k + 1).drop_last() =~= entries@.take(k as int));
                    assert(entries@.take(k + 1).last() == *e);
                }
                let ghost mid = out@.map_values(|v: SyncTranslationValue| value_view(v));
                match find_by_key(key_ids, e.key.as_str()) {
                    Some(stored) => {
                        out.push(
                            SyncTranslationValue {
                                key_id: stored.id.clone(),
                                locale: g.locale.clone(),
                                file_path: e.file_path.clone(),
                                value: e.value.clone(),
                            },
                        );
                        assert(out@.map_values(|v: SyncTranslationValue| value_view(v)) =~= mid.push(
                            translation_of(g.locale@, *e, key_ids@),
                        ));
                        assert(before + entries@.take(k + 1).filter(
                            |e: ParsedFluentEntry| has_key(key_ids@, e.key@),
                        ).map_values(|e: ParsedFluentEntry| translation_of(g.locale@, e, key_ids@)) =~= (
                        before + entries@.take(k as int).filter(
                            |e: ParsedFluentEntry| has_key(key_ids@, e.key@),
                        ).map_values(|e: ParsedFluentEntry| translation_of(g.locale@, e, key_ids@))).push(
                            translation_of(g.locale@, *e, key_ids@),
                        ));
                    },
                    None => {},
                }
            }
            assert(entries@.take(entries@.len() as int) =~= entries@);
        }
    }
    assert(groups@.take(groups@.len() as int) =~= groups@);
    out
}

/// The paths of the changed files of the source locale.
pub open spec fn changed_source_paths_of(changed: Seq<SyncFile>, source_locale: Seq<char>) -> Seq<Seq<char>> {
    changed.filter(|f: SyncFile| opt_view(f.locale) == Some(source_locale)).map_values(
        |f: SyncFile| f.path@,
    )
}

/// The paths of the changed files of the source locale, in order.
pub fn changed_source_paths(changed: &[SyncFile], source_locale: &str) -> (out: Vec<String>)
    ensures
        out@.map_values(|s: String| s@) == changed_source_paths_of(changed@, source_locale@),
{
    let mut out: Vec<String> = Vec::new();
    for i in 0..changed.len()
        invariant
            out@.map_values(|s: String| s@) == changed_source_paths_of(changed@.take(i as int), source_locale@),
    {
        proof {
            reveal(Seq::filter);
            assert(changed@.take(i + 1).drop_last() =~= changed@.take(i as int));
        }
        let f = &changed[i];
        let ghost before = out@.map_values(|s: String| s@);
        let is_source = match &f.locale {
            Some(l) => text::str_eq(l.as_str(), source_locale),
            None => false,
        };
        if is_source {
            out.push(f.path.clone());
            assert(out@.map_values(|s: String| s@) =~= before.push(f.path@));
            assert(changed_source_paths_of(changed@.take(i + 1), source_locale@) =~= changed_source_paths_of(changed@.take(i as int), source_locale@).push(f.path@));
        } else {
            assert(changed_source_paths_of(changed@.take(i + 1), source_locale@) =~= changed_source_paths_of(changed@.take(i as int), source_locale@));
        }
    }
    assert(changed@.take(changed@.len() as int) =~= changed@);
    out
}

/// Some source message of `file_path` has the key `key`.
pub open spec fn file_has_source_key(source: Seq<ParsedFluentEntry>, file_path: Seq<char>, key: Seq<char>) -> bool {
    exists|i: int| 0 <= i < source.len() && source[i].file_path@ == file_path && source[i].key@ == key
}

/// The ids of stored keys of a changed source file that the file no longer has.
pub open spec fn stale_key_ids(
    source: Seq<ParsedFluentEntry>,
    file_path: Seq<char>,
    existing: Seq<StoredTranslationKey>,
) -> Seq<Seq<char>> {
    existing.filter(|k: StoredTranslationKey| !file_has_source_key(source, file_path, k.key@)).map_values(
        |k: StoredTranslationKey| k.id@,
    )
}

/// Whether some source message of `file_path` has the key `key`.
fn any_source_key(source: &[ParsedFluentEntry], file_path: &str, key: &str) -> (r: bool)
    ensures
        r == file_has_source_key(source@, file_path@, key@),
{
    for i in 0..source.len()
        invariant
            forall|j: int| 0 <= j < i ==> !((#[trigger] source@[j]).file_path@ == file_path@ && source@[j].key@ == key@),
    {
        if text::str_eq(source[i].file_path.as_str(), file_path) && text::str_eq(source[i].key.as_str(), key) {
            return true;
        }
    }
    false
}

/// The ids of the stored keys of the changed source file `file_path` that
/// it no longer has, given the keys stored for it.
pub fn stale_source_key_ids(
    source: &[ParsedFluentEntry],
    file_path: &str,
    existing: &[StoredTranslationKey],
) -> (out: Vec<String>)
    ensures
        out@.map_values(|s: String| s@) == stale_key_ids(source@, file_path@, existing@),
{
    let mut out: Vec<String> = Vec::new();
    for i in 0..existing.len()
        invariant
            out@.map_values(|s: String| s@) == stale_key_ids(source@, file_path@, existing@.take(i as int)),
    {
        proof {
            reveal(Seq::filter);
            assert(existing@.take(i + 1).drop_last() =~= existing@.take(i as int));
        }
        let k = &existing[i];
        let ghost before = out@.map_values(|s: String| s@);
        if !any_source_key(source, file_path, k.key.as_str()) {
            out.push(k.id.clone());
            assert(out@.map_values(|s: String| s@) =~= before.push(k.id@));
            assert(stale_key_ids(source@, file_path@, existing@.take(i + 1)) =~= stale_key_ids(source@, file_path@, existing@.take(i as int)).push(k.id@));
        } else {
            assert(stale_key_ids(source@, file_path@, existing@.take(i + 1)) =~= stale_key_ids(source@, file_path@, existing@.take(i as int)));
        }
    }
    assert(existing@.take(existing@.len() as int) =~= existing@);
    out
}

/// Whether removing the deleted file `path` removes the keys it was the
/// source of: whether the file belonged to the source locale.
pub fn deletes_source_keys(path: &str, source_locale: &str) -> (r: bool)
    ensures
        r == (locale::project_path_locale(path@, Some(source_locale@)) == Some(source_locale@)),
{
    match locale::infer_locale_from_project_path(path, Some(source_locale)) {
        Some(l) => text::str_eq(l.as_str(), source_locale),
        None => false,
    }
}

// ---------------------------------------------------------------------------
// Progress reports
// ---------------------------------------------------------------------------

/// `p` reports these counts, this message, whether the run is over, and no error.
pub open spec fn reports(
    p: ProjectSyncProgressDto,
    total_files: usize,
    processed_files: usize,
    keys_count: usize,
    translations_count: usize,
    locales_count: usize,
    message: Seq<char>,
    done: bool,
) -> bool {
    &&& p.total_files == total_files
    &&& p.processed_files == processed_files
    &&& p.keys_count == keys_count
    &&& p.translations_count == translations_count
    &&& p.locales_count == locales_count
    &&& p.message@ == message
    &&& p.done == done
    &&& p.error is None
}

/// A progress report with no error.
fn progress(
    total_files: usize,
    processed_files: usize,
    keys_count: usize,
    translations_count: usize,
    locales_count: usize,
    message: String,
    done: bool,
) -> (p: ProjectSyncProgressDto)
    ensures
        reports(p, total_files, processed_files, keys_count, translations_count, locales_count, message@, done),
{
    ProjectSyncProgressDto {
        total_files,
        processed_files,
        keys_count,
        translations_count,
        locales_count,
        message,
        done,
        error: None,
    }
}

/// The first report of a run.
pub fn starting_progress() -> (p: ProjectSyncProgressDto)
    ensures
        reports(p, 0, 0, 0, 0, 0, "Starting sync..."@, false),
{
    progress(0, 0, 0, 0, 0, "Starting sync...".to_string(), false)
}

/// The report while the repository tree is fetched.
pub fn scanning_progress() -> (p: ProjectSyncProgressDto)
    ensures
        reports(p, 0, 0, 0, 0, 0, "Scanning repository..."@, false),
{
    progress(0, 0, 0, 0, 0, "Scanning repository...".to_string(), false)
}

/// The report of a run that failed with `error`.
pub fn failed_progress(error: String) -> (p: ProjectSyncProgressDto)
    ensures
        p.total_files == 0 && p.processed_files == 0 && p.keys_count == 0,
        p.translations_count == 0 && p.locales_count == 0,
        p.message@ == "Sync failed"@,
        p.done,
        p.error matches Some(e) && e@ == error@,
{
    ProjectSyncProgressDto {
        total_files: 0,
        processed_files: 0,
        keys_count: 0,
        translations_count: 0,
        locales_count: 0,
        message: "Sync failed".to_string(),
        done: true,
        error: Some(error),
    }
}

/// What the repository holds and what changed in it.
pub open spec fn found_message(total: usize, changed: usize, deleted: usize) -> Seq<char> {
    "Found "@ + text::decimal(total as nat) + " Fluent files, "@ + if changed == 0 && deleted == 0 {
        "no changes"@
    } else if deleted == 0 {
        text::decimal(changed as nat) + " changed"@
    } else if changed == 0 {
        text::decimal(deleted as nat) + " deleted"@
    } else {
        text::decimal(changed as nat) + " changed, "@ + text::decimal(deleted as nat) + " deleted"@
    }
}

/// The report once the changes are known: the work is the changed and the
/// deleted files.
pub fn found_progress(total_files: usize, changed: usize, deleted: usize, locales_count: usize) -> (p: ProjectSyncProgressDto)
    requires
        changed + deleted <= usize::MAX,
    ensures
        reports(p, (changed + deleted) as usize, 0, 0, 0, locales_count, found_message(total_files, changed, deleted), false),
{
    let mut m = "Found ".to_string();
    text::push_decimal(&mut m, total_files);
    m.append(" Fluent files, ");
    if changed == 0 && deleted == 0 {
        m.append("no changes");
    } else if deleted == 0 {
        text::push_decimal(&mut m, changed);
        m.append(" changed");
    } else if changed == 0 {
        text::push_decimal(&mut m, deleted);
        m.append(" deleted");
    } else {
        text::push_decimal(&mut m, changed);
        m.append(" changed, ");
        text::push_decimal(&mut m, deleted);
        m.append(" deleted");
    }
    let ghost tail = if changed == 0 && deleted == 0 {
        "no changes"@
    } else if deleted == 0 {
        text::decimal(changed as nat) + " changed"@
    } else if changed == 0 {
        text::decimal(deleted as nat) + " deleted"@
    } else {
        text::decimal(changed as nat) + " changed, "@ + text::decimal(deleted as nat) + " deleted"@
    };
    assert(m@ =~= "Found "@ + text::decimal(total_files as nat) + " Fluent files, "@ + tail);
    progress(changed + deleted, 0, 0, 0, locales_count, m, false)
}

impl SyncFile {
    /// Whether the file's content is read: only files with a locale are.
    pub fn needs_content(&self) -> (r: bool)
        ensures
            r == self.locale is Some,
    {
        self.locale.is_some()
    }
}

/// A run's counters and the messages read so far, by locale.
pub struct SyncRun {
    pub total_work_files: usize,
    pub processed_files: usize,
    pub parsed_keys_count: usize,
    pub locales_count: usize,
    pub parsed_by_locale: Vec<LocaleEntries>,
}

/// The report for a file just read.
pub open spec fn file_message(path: Seq<char>, has_locale: bool) -> Seq<char> {
    if has_locale {
        "Synced "@ + path
    } else {
        "Skipped "@ + path
    }
}

impl SyncRun {
    /// A run with `total_work_files` files to handle and `locales_count` locales.
    pub fn new(total_work_files: usize, locales_count: usize) -> (run: SyncRun)
        ensures
            run.total_work_files == total_work_files,
            run.processed_files == 0,
            run.parsed_keys_count == 0,
            run.locales_count == locales_count,
            run.parsed_by_locale@ == Seq::<LocaleEntries>::empty(),
            keys_increasing(run.parsed_by_locale@),
    {
        SyncRun { total_work_files, processed_files: 0, parsed_keys_count: 0, locales_count, parsed_by_locale: Vec::new() }
    }

    /// Takes in the messages read from a changed file (none for a file
    /// without a locale) and reports it.
    pub fn take_parsed_file(&mut self, file: &SyncFile, entries: Vec<ParsedFluentEntry>) -> (p: ProjectSyncProgressDto)
        requires
            keys_increasing(old(self).parsed_by_locale@),
            old(self).processed_files < usize::MAX,
            old(self).parsed_keys_count + entries@.len() <= usize::MAX,
        ensures
            keys_increasing(final(self).parsed_by_locale@),
            final(self).total_work_files == old(self).total_work_files,
            final(self).locales_count == old(self).locales_count,
            final(self).processed_files == old(self).processed_files + 1,
            file.locale is Some ==> final(self).parsed_keys_count == old(self).parsed_keys_count + entries@.len(),
            file.locale is None ==> final(self).parsed_keys_count == old(self).parsed_keys_count,
            file.locale is None ==> final(self).parsed_by_locale@ == old(self).parsed_by_locale@,
            forall|l: Seq<char>| #[trigger] has_key(final(self).parsed_by_locale@, l) == (has_key(old(self).parsed_by_locale@, l) || opt_view(file.locale) == Some(l)),
            forall|l: Seq<char>| #[trigger] locale_entries(final(self).parsed_by_locale@, l) == if opt_view(file.locale) == Some(l) {
                locale_entries(old(self).parsed_by_locale@, l) + entries@
            } else {
                locale_entries(old(self).parsed_by_locale@, l)
            },
            reports(p, final(self).total_work_files, final(self).processed_files, final(self).parsed_keys_count, 0, final(self).locales_count, file_message(file.path@, file.locale is Some), false),
    {
        self.processed_files = self.processed_files + 1;
        let mut message: String;
        match &file.locale {
            Some(l) => {
                self.parsed_keys_count = self.parsed_keys_count + entries.len();
                add_locale_entries(&mut self.parsed_by_locale, l.clone(), entries);
                message = "Synced ".to_string();
            },
            None => {
                message = "Skipped ".to_string();
            },
        }
        message.append(file.path.as_str());
        progress(self.total_work_files, self.processed_files, self.parsed_keys_count, 0, self.locales_count, message, false)
    }

    /// The report while the file manifest is stored.
    pub fn saving_manifest_progress(&self) -> (p: ProjectSyncProgressDto)
        ensures
            reports(p, self.total_work_files, self.processed_files, self.parsed_keys_count, 0, self.locales_count, "Saving file manifest..."@, false),
    {
        progress(self.total_work_files, self.processed_files, self.parsed_keys_count, 0, self.locales_count, "Saving file manifest...".to_string(), false)
    }

    /// The report while `keys_count` source keys are stored.
    pub fn saving_source_keys_progress(&self, keys_count: usize) -> (p: ProjectSyncProgressDto)
        ensures
            reports(p, self.total_work_files, self.processed_files, keys_count, 0, self.locales_count, "Saving source keys..."@, false),
    {
        progress(self.total_work_files, self.processed_files, keys_count, 0, self.locales_count, "Saving source keys...".to_string(), false)
    }

    /// The report while translations are stored.
    pub fn saving_translations_progress(&self, keys_count: usize, translations_count: usize) -> (p: ProjectSyncProgressDto)
        ensures
            reports(p, self.total_work_files, self.processed_files, keys_count, translations_count, self.locales_count, "Saving translations..."@, false),
    {
        progress(self.total_work_files, self.processed_files, keys_count, translations_count, self.locales_count, "Saving translations...".to_string(), false)
    }

    /// The report while `deleted` removed files are cleaned up, after the
    /// `changed` files were handled.
    pub fn cleanup_progress(&self, changed: usize, keys_count: usize, translations_count: usize, deleted: usize) -> (p: ProjectSyncProgressDto)
        ensures
            reports(p, self.total_work_files, changed, keys_count, translations_count, self.locales_count, "Cleaning up "@ + text::decimal(deleted as nat) + " deleted files..."@, false),
    {
        let mut m = "Cleaning up ".to_string();
        text::push_decimal(&mut m, deleted);
        m.append(" deleted files...");
        progress(self.total_work_files, changed, keys_count, translations_count, self.locales_count, m, false)
    }

    /// The last report of a run that succeeded.
    pub fn complete_progress(&self, keys_count: usize, translations_count: usize) -> (p: ProjectSyncProgressDto)
        ensures
            reports(p, self.total_work_files, self.total_work_files, keys_count, translations_count, self.locales_count, if self.total_work_files == 0 {
                "Sync complete, no changes"@
            } else {
                "Sync complete"@
            }, true),
    {
        let m = if self.total_work_files == 0 {
            "Sync complete, no changes".to_string()
        } else {
            "Sync complete".to_string()
        };
        progress(self.total_work_files, self.total_work_files, keys_count, translations_count, self.locales_count, m, true)
    }
}

/// The outcome of a run that succeeded at `last_synced_at`.
pub fn sync_result(
    files_count: usize,
    keys_count: usize,
    translations_count: usize,
    locales_count: usize,
    last_synced_at: String,
) -> (out: ProjectSyncDto)
    ensures
        out.files_count == files_count,
        out.keys_count == keys_count,
        out.translations_count == translations_count,
        out.locales_count == locales_count,
        opt_view(out.last_synced_at) == Some(last_synced_at@),
        opt_view(out.sync_status) == Some("synced"@),
        out.sync_error is None,
{
    ProjectSyncDto {
        files_count,
        keys_count,
        translations_count,
        locales_count,
        last_synced_at: Some(last_synced_at),
        sync_status: Some("synced".to_string()),
        sync_error: None,
    }
}

/// In a sequence with strictly increasing keys, the element `keyed_get`
/// names for the key at `i` is the element at `i`.
proof fn lemma_groups_unique_get<T: TextKeyed>(s: Seq<T>, i: int)
    requires
        keys_increasing(s),
        0 <= i < s.len(),
    ensures
        has_key(s, s[i].text_key()),
        keyed_get(s, s[i].text_key()) == s[i],
{
    let k = s[i].text_key();
    assert(s.contains(s[i]));
    let x = keyed_get(s, k);
    assert(s.contains(x) && x.text_key() == k);
    let j = choose|j: int| 0 <= j < s.len() && s[j] == x;
    if j < i {
        assert(text::seq_lt(s[j].text_key(), s[i].text_key()));
        text::lemma_seq_lt_irreflexive(k);
    } else if j > i {
        assert(text::seq_lt(s[i].text_key(), s[j].text_key()));
        text::lemma_seq_lt_irreflexive(k);
    }
}

/// Sequences whose elements have the same keys position by position have the same keys.
proof fn lemma_has_key_same_keys<T: TextKeyed>(a: Seq<T>, b: Seq<T>, l: Seq<char>)
    requires
        a.len() == b.len(),
        forall|i: int| 0 <= i < a.len() ==> (#[trigger] a[i]).text_key() == b[i].text_key(),
    ensures
        has_key(a, l) == has_key(b, l),
{
    if has_key(a, l) {
        let i = choose|i: int| 0 <= i < a.len() && a[i].text_key() == l;
        assert(b[i].text_key() == l);
    }
    if has_key(b, l) {
        let i = choose|i: int| 0 <= i < b.len() && b[i].text_key() == l;
        assert(a[i].text_key() == l);
    }
}

/// What a sync of a project reads: its source locale, which must be set,
/// and its translations path, the whole repository (`"."`) when none is set.
pub fn sync_scope(source_locale: &Option<String>, locales_path: &Option<String>) -> (out: Result<
    (String, String),
    String,
>)
    ensures
        match *source_locale {
            None => (out matches Err(m) && m@ == "project source locale is not set"@),
            Some(s) => (out matches Ok((l, p)) && l@ == s@ && p@ == match *locales_path {
                Some(x) => x@,
                None => "."@,
            }),
        },
{
    match source_locale {
        None => Err("project source locale is not set".to_string()),
        Some(s) => {
            let path = match locales_path {
                Some(p) => p.clone(),
                None => ".".to_string(),
            };
            Ok((s.clone(), path))
        },
    }
}

// ---------------------------------------------------------------------------
// A sync, step by step
// ---------------------------------------------------------------------------

/// Where a sync stands: reading the changed files, storing what was read,
/// removing the deleted files, or done.
#[derive(Debug, Clone, Copy, PartialEq, Eq, Structural)]
pub enum SyncStage {
    Reading,
    Saving,
    CleanedUp,
    Complete,
}

/// Progress reports that all count `total` files of work, none past the
/// total, none with an error, and never fewer processed than before.
pub open spec fn reports_ordered(rs: Seq<ProjectSyncProgressDto>, total: int) -> bool {
    &&& forall|i: int|
        0 <= i < rs.len() ==> (#[trigger] rs[i]).total_files == total && rs[i].processed_files
            <= rs[i].total_files && rs[i].error is None
    &&& forall|i: int, j: int|
        0 <= i < j < rs.len() ==> (#[trigger] rs[i]).processed_files <= (#[trigger] rs[j]).processed_files
}

/// One more report keeps the reports ordered when it counts the same work,
/// stays within it, has no error and processed no fewer than the last.
proof fn lemma_push_report(rs: Seq<ProjectSyncProgressDto>, p: ProjectSyncProgressDto, total: int)
    requires
        reports_ordered(rs, total),
        rs.len() > 0,
        p.total_files == total,
        p.processed_files <= p.total_files,
        p.error is None,
        rs.last().processed_files <= p.processed_files,
    ensures
        reports_ordered(rs.push(p), total),
{
    let q = rs.push(p);
    assert forall|i: int, j: int| 0 <= i < j < q.len() implies (#[trigger] q[i]).processed_files <= (
    #[trigger] q[j]).processed_files by {
        if j == rs.len() {
            if i < rs.len() - 1 {
                assert(rs[i].processed_files <= rs[rs.len() - 1].processed_files);
            }
        } else {
            assert(q[i] == rs[i] && q[j] == rs[j]);
        }
    }
    assert forall|i: int| 0 <= i < q.len() implies (#[trigger] q[i]).total_files == total
        && q[i].processed_files <= q[i].total_files && q[i].error is None by {
        if i < rs.len() {
            assert(q[i] == rs[i]);
        }
    }
}

/// A sync of a project once the changes are known: the changed files to
/// read, the deleted files to remove, the run's counters and what was read,
/// the source keys and the number of translations stored, and the reports
/// given so far.
pub struct SyncSession {
    pub source_locale: String,
    pub total_files: usize,
    pub locales_count: usize,
    pub changed: Vec<SyncFile>,
    pub deleted: Vec<String>,
    pub run: SyncRun,
    pub source: Vec<ParsedFluentEntry>,
    pub translations_count: usize,
    pub stage: SyncStage,
    pub pending: Vec<SyncFile>,
    pub read: Ghost<Seq<SyncFile>>,
    pub reports: Ghost<Seq<ProjectSyncProgressDto>>,
}

impl SyncSession {
    /// The number of files processed in the last report.
    pub open spec fn last_processed(&self) -> int {
        self.reports@.last().processed_files as int
    }

    /// The session is consistent: the work is the changed and the deleted
    /// files; the files read and those still to read are, together, the
    /// changed files, each as often as it changed; the reports so far are
    /// ordered, and each stage has read what it should.
    pub open spec fn wf(&self) -> bool {
        &&& self.run.total_work_files == self.changed@.len() + self.deleted@.len()
        &&& self.run.processed_files == self.read@.len()
        &&& self.read@.len() + self.pending@.len() == self.changed@.len()
        &&& self.read@.to_multiset().add(self.pending@.to_multiset()) == self.changed@.to_multiset()
        &&& self.stage != SyncStage::Reading ==> self.pending@.len() == 0
        &&& self.run.locales_count == self.locales_count
        &&& keys_increasing(self.run.parsed_by_locale@)
        &&& self.reports@.len() > 0
        &&& reports_ordered(self.reports@, self.run.total_work_files as int)
        &&& match self.stage {
            SyncStage::Reading => self.last_processed() <= self.run.processed_files,
            SyncStage::Saving => self.run.processed_files == self.changed@.len() && self.last_processed()
                <= self.changed@.len(),
            SyncStage::CleanedUp => self.run.processed_files == self.changed@.len()
                && self.last_processed() <= self.changed@.len(),
            SyncStage::Complete => true,
        }
    }

    /// A session for a repository with `total_files` Fluent files in
    /// `locales_count` locales, of which `changed` changed and `deleted` were
    /// removed; its first report says what was found.
    pub fn new(
        source_locale: String,
        total_files: usize,
        locales_count: usize,
        changed: Vec<SyncFile>,
        deleted: Vec<String>,
    ) -> (out: (SyncSession, ProjectSyncProgressDto))
        requires
            changed@.len() + deleted@.len() <= usize::MAX,
        ensures
            out.0.wf(),
            out.0.stage == SyncStage::Reading,
            out.0.source_locale@ == source_locale@,
            out.0.total_files == total_files,
            out.0.locales_count == locales_count,
            out.0.changed@ == changed@,
            out.0.deleted@ == deleted@,
            out.0.run.processed_files == 0,
            out.0.pending@ == changed@,
            out.0.read@ == Seq::<SyncFile>::empty(),
            out.0.run.parsed_keys_count == 0,
            out.0.run.parsed_by_locale@.len() == 0,
            out.0.source@.len() == 0,
            out.0.translations_count == 0,
            out.0.reports@ == seq![out.1],
            reports(
                out.1,
                (changed@.len() + deleted@.len()) as usize,
                0,
                0,
                0,
                locales_count,
                found_message(total_files, changed@.len() as usize, deleted@.len() as usize),
                false,
            ),
    {
        let found = found_progress(total_files, changed.len(), deleted.len(), locales_count);
        let run = SyncRun::new(changed.len() + deleted.len(), locales_count);
        let mut pending: Vec<SyncFile> = Vec::new();
        for i in 0..changed.len()
            invariant
                pending@ == changed@.take(i as int),
        {
            pending.push(copy_sync_file(&changed[i]));
            assert(changed@.take(i + 1) =~= changed@.take(i as int).push(changed@[i as int]));
        }
        assert(changed@.take(changed@.len() as int) =~= changed@);
        let ghost first = seq![found];
        let ghost nothing = Seq::<SyncFile>::empty();
        proof {
            broadcast use vstd::seq_lib::group_to_multiset_ensures;
            broadcast use vstd::multiset::group_multiset_axioms;
            assert(nothing.to_multiset().add(pending@.to_multiset()) =~= changed@.to_multiset());
        }
        let session = SyncSession {
            source_locale,
            total_files,
            locales_count,
            changed,
            deleted,
            run,
            source: Vec::new(),
            translations_count: 0,
            stage: SyncStage::Reading,
            pending,
            read: Ghost(nothing),
            reports: Ghost(first),
        };
        (session, found)
    }

    /// Takes in the messages read from the changed file at `index` among
    /// those still to read (none for a file without a locale), and reports
    /// it; the file is read.
    pub fn take_parsed_file(&mut self, index: usize, entries: Vec<ParsedFluentEntry>) -> (p: ProjectSyncProgressDto)
        requires
            old(self).wf(),
            old(self).stage == SyncStage::Reading,
            index < old(self).pending@.len(),
            old(self).run.parsed_keys_count + entries@.len() <= usize::MAX,
        ensures
            final(self).wf(),
            final(self).stage == SyncStage::Reading,
            final(self).pending@ == old(self).pending@.remove(index as int),
            final(self).read@ == old(self).read@.push(old(self).pending@[index as int]),
            final(self).reports@ == old(self).reports@.push(p),
            final(self).changed@ == old(self).changed@,
            final(self).deleted@ == old(self).deleted@,
            final(self).source_locale@ == old(self).source_locale@,
            final(self).total_files == old(self).total_files,
            final(self).run.processed_files == old(self).run.processed_files + 1,
            old(self).pending@[index as int].locale is Some ==> final(self).run.parsed_keys_count
                == old(self).run.parsed_keys_count + entries@.len(),
            old(self).pending@[index as int].locale is None ==> final(self).run.parsed_keys_count
                == old(self).run.parsed_keys_count,
            forall|l: Seq<char>|
                #[trigger] locale_entries(final(self).run.parsed_by_locale@, l) == if opt_view(
                    old(self).pending@[index as int].locale,
                ) == Some(l) {
                    locale_entries(old(self).run.parsed_by_locale@, l) + entries@
                } else {
                    locale_entries(old(self).run.parsed_by_locale@, l)
                },
            reports(
                p,
                old(self).run.total_work_files,
                (old(self).run.processed_files + 1) as usize,
                final(self).run.parsed_keys_count,
                0,
                old(self).locales_count,
                file_message(
                    old(self).pending@[index as int].path@,
                    old(self).pending@[index as int].locale is Some,
                ),
                false,
            ),
    {
        let ghost before_pending = self.pending@;
        let ghost before_read = self.read@;
        let file = self.pending.remove(index);
        let p = self.run.take_parsed_file(&file, entries);
        proof {
            lemma_push_report(self.reports@, p, self.run.total_work_files as int);
            broadcast use vstd::seq_lib::group_to_multiset_ensures;
            broadcast use vstd::multiset::group_multiset_axioms;
            assert(before_pending[index as int] == file);
            assert(before_read.push(file).to_multiset().add(self.pending@.to_multiset()) =~= before_read.to_multiset().add(
                before_pending.to_multiset(),
            ));
        }
        let ghost pushed = self.reports@.push(p);
        self.reports = Ghost(pushed);
        let ghost now_read = before_read.push(file);
        self.read = Ghost(now_read);
        p
    }

    /// Ends the reading of the changed files, all of them read; when some
    /// changed, reports that the file manifest is stored.
    pub fn finish_reading(&mut self) -> (p: Option<ProjectSyncProgressDto>)
        requires
            old(self).wf(),
            old(self).stage == SyncStage::Reading,
            old(self).pending@.len() == 0,
        ensures
            final(self).wf(),
            final(self).stage == SyncStage::Saving,
            final(self).run == old(self).run,
            final(self).changed@ == old(self).changed@,
            final(self).deleted@ == old(self).deleted@,
            final(self).source_locale@ == old(self).source_locale@,
            final(self).source@ == old(self).source@,
            final(self).total_files == old(self).total_files,
            final(self).translations_count == old(self).translations_count,
            old(self).changed@.len() == 0 <==> p is None,
            match p {
                Some(r) => final(self).reports@ == old(self).reports@.push(r) && reports(
                    r,
                    old(self).run.total_work_files,
                    old(self).run.processed_files,
                    old(self).run.parsed_keys_count,
                    0,
                    old(self).locales_count,
                    "Saving file manifest..."@,
                    false,
                ),
                None => final(self).reports@ == old(self).reports@,
            },
    {
        self.stage = SyncStage::Saving;
        if self.changed.len() == 0 {
            return None;
        }
        let p = self.run.saving_manifest_progress();
        proof {
            lemma_push_report(self.reports@, p, self.run.total_work_files as int);
        }
        let ghost pushed = self.reports@.push(p);
        self.reports = Ghost(pushed);
        Some(p)
    }

    /// Settles the source keys: for each key, the last message read for it
    /// in the source locale; when there are any, reports that they are
    /// stored.
    pub fn source_step(&mut self) -> (p: Option<ProjectSyncProgressDto>)
        requires
            old(self).wf(),
            old(self).stage == SyncStage::Saving,
        ensures
            final(self).wf(),
            final(self).stage == SyncStage::Saving,
            final(self).run == old(self).run,
            final(self).changed@ == old(self).changed@,
            final(self).deleted@ == old(self).deleted@,
            final(self).source_locale@ == old(self).source_locale@,
            final(self).total_files == old(self).total_files,
            final(self).translations_count == old(self).translations_count,
            final(self).source@ == deduped(locale_entries(old(self).run.parsed_by_locale@, old(self).source_locale@)),
            final(self).source@.len() == 0 <==> p is None,
            match p {
                Some(r) => final(self).reports@ == old(self).reports@.push(r) && reports(
                    r,
                    old(self).run.total_work_files,
                    old(self).run.processed_files,
                    final(self).source@.len() as usize,
                    0,
                    old(self).locales_count,
                    "Saving source keys..."@,
                    false,
                ),
                None => final(self).reports@ == old(self).reports@,
            },
    {
        let source = source_entries(self.run.parsed_by_locale.as_slice(), self.source_locale.as_str());
        self.source = source;
        if self.source.len() == 0 {
            return None;
        }
        let p = self.run.saving_source_keys_progress(self.source.len());
        proof {
            lemma_push_report(self.reports@, p, self.run.total_work_files as int);
        }
        let ghost pushed = self.reports@.push(p);
        self.reports = Ghost(pushed);
        Some(p)
    }

    /// The translations to store, given the stored keys (none are needed
    /// while only the source locale was read); when there are any, reports
    /// that they are stored.
    pub fn translations_step(&mut self, key_rows: &[StoredTranslationKey]) -> (out: (
        Vec<SyncTranslationValue>,
        Option<ProjectSyncProgressDto>,
    ))
        requires
            old(self).wf(),
            old(self).stage == SyncStage::Saving,
        ensures
            final(self).wf(),
            final(self).stage == SyncStage::Saving,
            final(self).run == old(self).run,
            final(self).changed@ == old(self).changed@,
            final(self).deleted@ == old(self).deleted@,
            final(self).source_locale@ == old(self).source_locale@,
            final(self).source@ == old(self).source@,
            final(self).total_files == old(self).total_files,
            out.0@.map_values(|v: SyncTranslationValue| value_view(v)) == all_translations(
                old(self).run.parsed_by_locale@,
                old(self).source_locale@,
                deduped(key_rows@),
            ),
            final(self).translations_count == out.0@.len(),
            out.0@.len() == 0 <==> out.1 is None,
            match out.1 {
                Some(r) => final(self).reports@ == old(self).reports@.push(r) && reports(
                    r,
                    old(self).run.total_work_files,
                    old(self).run.processed_files,
                    old(self).source@.len() as usize,
                    out.0@.len() as usize,
                    old(self).locales_count,
                    "Saving translations..."@,
                    false,
                ),
                None => final(self).reports@ == old(self).reports@,
            },
    {
        let key_ids = key_ids_by_key(key_rows);
        let values = translation_values(self.run.parsed_by_locale.as_slice(), self.source_locale.as_str(), key_ids.as_slice());
        proof {
            assert(values@.map_values(|v: SyncTranslationValue| value_view(v)).len() == values@.len());
        }
        self.translations_count = values.len();
        if values.len() == 0 {
            return (values, None);
        }
        let p = self.run.saving_translations_progress(self.source.len(), values.len());
        proof {
            lemma_push_report(self.reports@, p, self.run.total_work_files as int);
        }
        let ghost pushed = self.reports@.push(p);
        self.reports = Ghost(pushed);
        (values, Some(p))
    }

    /// Moves on to removing the deleted files; when there are any, reports
    /// it.
    pub fn cleanup_step(&mut self) -> (p: Option<ProjectSyncProgressDto>)
        requires
            old(self).wf(),
            old(self).stage == SyncStage::Saving,
        ensures
            final(self).wf(),
            final(self).stage == SyncStage::CleanedUp,
            final(self).run == old(self).run,
            final(self).changed@ == old(self).changed@,
            final(self).deleted@ == old(self).deleted@,
            final(self).source_locale@ == old(self).source_locale@,
            final(self).source@ == old(self).source@,
            final(self).total_files == old(self).total_files,
            final(self).translations_count == old(self).translations_count,
            old(self).deleted@.len() == 0 <==> p is None,
            match p {
                Some(r) => final(self).reports@ == old(self).reports@.push(r) && reports(
                    r,
                    old(self).run.total_work_files,
                    old(self).changed@.len() as usize,
                    old(self).source@.len() as usize,
                    old(self).translations_count,
                    old(self).locales_count,
                    "Cleaning up "@ + text::decimal(old(self).deleted@.len() as nat) + " deleted files..."@,
                    false,
                ),
                None => final(self).reports@ == old(self).reports@,
            },
    {
        self.stage = SyncStage::CleanedUp;
        if self.deleted.len() == 0 {
            return None;
        }
        let p = self.run.cleanup_progress(self.changed.len(), self.source.len(), self.translations_count, self.deleted.len());
        proof {
            lemma_push_report(self.reports@, p, self.run.total_work_files as int);
        }
        let ghost pushed = self.reports@.push(p);
        self.reports = Ghost(pushed);
        Some(p)
    }

    /// Ends the sync at `last_synced_at`: its outcome, and its last report.
    pub fn complete(&mut self, last_synced_at: String) -> (out: (ProjectSyncDto, ProjectSyncProgressDto))
        requires
            old(self).wf(),
            old(self).stage == SyncStage::Saving || old(self).stage == SyncStage::CleanedUp,
        ensures
            final(self).wf(),
            final(self).stage == SyncStage::Complete,
            final(self).reports@ == old(self).reports@.push(out.1),
            out.0.files_count == old(self).total_files,
            out.0.keys_count == old(self).source@.len(),
            out.0.translations_count == old(self).translations_count,
            out.0.locales_count == old(self).locales_count,
            opt_view(out.0.last_synced_at) == Some(last_synced_at@),
            opt_view(out.0.sync_status) == Some("synced"@),
            out.0.sync_error is None,
            reports(
                out.1,
                old(self).run.total_work_files,
                old(self).run.total_work_files,
                old(self).source@.len() as usize,
                old(self).translations_count,
                old(self).locales_count,
                if old(self).run.total_work_files == 0 {
                    "Sync complete, no changes"@
                } else {
                    "Sync complete"@
                },
                true,
            ),
    {
        let result = sync_result(self.total_files, self.source.len(), self.translations_count, self.locales_count, last_synced_at);
        let p = self.run.complete_progress(self.source.len(), self.translations_count);
        proof {
            lemma_push_report(self.reports@, p, self.run.total_work_files as int);
        }
        let ghost pushed = self.reports@.push(p);
        self.reports = Ghost(pushed);
        self.stage = SyncStage::Complete;
        (result, p)
    }
}

// ---------------------------------------------------------------------------
// Laws
// ---------------------------------------------------------------------------

/// When every file's stored sha is its current sha, as after a sync that
/// stored them, no file counts as changed and none is read again.
pub proof fn lemma_unchanged_files_not_reread(files: Seq<SyncFile>, existing: Seq<StoredFileSha>)
    requires
        forall|i: int|
            0 <= i < files.len() ==> has_key(existing, (#[trigger] files[i]).path@) && keyed_get(
                existing,
                files[i].path@,
            ).sha@ == files[i].sha@,
    ensures
        files.filter(|f: SyncFile| sync_file_changed(existing, f)).len() == 0,
{
    broadcast use vstd::seq_lib::group_filter_ensures;

    let pred = |f: SyncFile| sync_file_changed(existing, f);
    let changed = files.filter(pred);
    if changed.len() > 0 {
        assert(pred(changed[0]));
        assert(changed.contains(changed[0]));
        files.lemma_filter_contains_rev(pred, changed[0]);
        let i = choose|i: int| 0 <= i < files.len() && files[i] == changed[0];
        assert(!sync_file_changed(existing, files[i]));
    }
}

/// A stored path is deleted exactly when no file of the repository has it
/// any more.
pub proof fn lemma_deleted_paths_exact(existing: Seq<StoredFileSha>, files: Seq<SyncFile>, p: Seq<char>)
    ensures
        deleted_paths(existing, files).contains(p) <==> (has_key(existing, p) && !has_sync_path(files, p)),
{
    broadcast use vstd::seq_lib::group_filter_ensures;

    let pred = |e: StoredFileSha| !has_sync_path(files, e.path@);
    let kept = existing.filter(pred);
    let paths = kept.map_values(|e: StoredFileSha| e.path@);
    if paths.contains(p) {
        let j = choose|j: int| 0 <= j < paths.len() && paths[j] == p;
        assert(pred(kept[j]));
        assert(kept.contains(kept[j]));
        existing.lemma_filter_contains_rev(pred, kept[j]);
        let i = choose|i: int| 0 <= i < existing.len() && existing[i] == kept[j];
        assert(existing[i].text_key() == p);
    }
    if has_key(existing, p) && !has_sync_path(files, p) {
        let i = choose|i: int| 0 <= i < existing.len() && existing[i].text_key() == p;
        assert(pred(existing[i]));
        assert(kept.contains(existing[i]));
        let j = choose|j: int| 0 <= j < kept.len() && kept[j] == existing[i];
        assert(paths[j] == p);
    }
}

/// Every report of a sync, from the one that says what was found to the
/// last, counts the same work, never passes it, carries no error, and never
/// counts fewer processed files than an earlier one.
pub proof fn lemma_sync_reports_ordered(session: &SyncSession)
    requires
        session.wf(),
    ensures
        forall|i: int|
            0 <= i < session.reports@.len() ==> (#[trigger] session.reports@[i]).total_files
                == session.changed@.len() + session.deleted@.len() && session.reports@[i].processed_files
                <= session.reports@[i].total_files && session.reports@[i].error is None,
        forall|i: int, j: int|
            0 <= i < j < session.reports@.len() ==> (#[trigger] session.reports@[i]).processed_files
                <= (#[trigger] session.reports@[j]).processed_files,
{
}

/// Once reading is over, every changed file has been read exactly once:
/// the files read are the changed files, each as often as it changed.
pub proof fn lemma_changed_files_read_once(session: &SyncSession)
    requires
        session.wf(),
        session.stage != SyncStage::Reading,
    ensures
        session.read@.to_multiset() == session.changed@.to_multiset(),
        session.read@.len() == session.changed@.len(),
{
    broadcast use vstd::seq_lib::group_to_multiset_ensures;
    broadcast use vstd::multiset::group_multiset_axioms;

    assert(session.pending@ =~= Seq::<SyncFile>::empty());
    assert(session.read@.to_multiset().add(session.pending@.to_multiset()) =~= session.read@.to_multiset());
}

} // verus!
