//! A project's workspace: its Fluent files and the keys they hold, as the
//! editor shows them.
use vstd::prelude::*;

use crate::dto::{opt_view, ProjectDto, ProjectWorkspaceDto, ProjectWorkspaceFileDto, ProjectWorkspaceKeyDto};
use crate::github::GithubTreeFile;
use crate::locale;
use crate::sort;
use crate::sort::SortKey;
use crate::sync::{lemma_locale_path_total, lemma_locale_path_transitive, locale_path_le, locale_path_le_exec};
use crate::text;

verus! {

broadcast use vstd::string::group_string_axioms;

/// The last `/`-separated component of a path: the file's name.
pub open spec fn file_name(path: Seq<char>) -> Seq<char> {
    text::split(path, '/').last()
}

/// A workspace file as plain values: path, sha, locale and name.
pub open spec fn workspace_file_view(f: ProjectWorkspaceFileDto) -> (Seq<char>, Seq<char>, Option<Seq<char>>, Seq<char>) {
    (f.path@, f.sha@, opt_view(f.locale), f.name@)
}

/// The Fluent files of a tree as the workspace lists them, in tree order.
pub open spec fn workspace_selection(tree: Seq<GithubTreeFile>, source_locale: Option<Seq<char>>) -> Seq<
    (Seq<char>, Seq<char>, Option<Seq<char>>, Seq<char>),
>
    decreases tree.len(),
{
    if tree.len() == 0 {
        Seq::empty()
    } else {
        let rest = workspace_selection(tree.drop_last(), source_locale);
        let f = tree.last();
        if f.kind@ == "blob"@ && ".ftl"@.is_suffix_of(f.path@) {
            rest.push((f.path@, f.sha@, locale::project_path_locale(f.path@, source_locale), file_name(f.path@)))
        } else {
            rest
        }
    }
}

/// The name of the file at `path`.
pub fn file_name_of(path: &str) -> (out: String)
    ensures
        out@ == file_name(path@),
{
    let cs = text::chars_of(path);
    let parts = text::split_chars(cs.as_slice(), '/');
    proof {
        text::lemma_split_nonempty(path@, '/');
    }
    let last = &parts[parts.len() - 1];
    assert(last@ == text::split(path@, '/').last());
    text::string_from(last.as_slice())
}

/// The Fluent files of a tree as the workspace lists them, in tree order.
pub fn select_workspace_files(tree: &[GithubTreeFile], source_locale: Option<&str>) -> (out: Vec<ProjectWorkspaceFileDto>)
    ensures
        out@.map_values(|f: ProjectWorkspaceFileDto| workspace_file_view(f)) == workspace_selection(
            tree@,
            match source_locale {
                Some(s) => Some(s@),
                None => None,
            },
        ),
{
    let ghost src = match source_locale {
        Some(s) => Some(s@),
        None => None,
    };
    let mut out: Vec<ProjectWorkspaceFileDto> = Vec::new();
    for i in 0..tree.len()
        invariant
            src == match source_locale {
                Some(s) => Some(s@),
                None => None,
            },
            out@.map_values(|f: ProjectWorkspaceFileDto| workspace_file_view(f)) == workspace_selection(
                tree@.take(i as int),
                src,
            ),
    {
        let f = &tree[i];
        assert(tree@.take(i + 1).drop_last() =~= tree@.take(i as int));
        assert(tree@.take(i + 1).last() == *f);
        let ghost before = out@.map_values(|f: ProjectWorkspaceFileDto| workspace_file_view(f));
        if crate::scan::fluent_blob(f) {
            let name = file_name_of(f.path.as_str());
            let locale = locale::infer_locale_from_project_path(f.path.as_str(), source_locale);
            out.push(ProjectWorkspaceFileDto { path: f.path.clone(), sha: f.sha.clone(), locale, name });
            assert(out@.map_values(|f: ProjectWorkspaceFileDto| workspace_file_view(f)) =~= before.push(
                (f.path@, f.sha@, locale::project_path_locale(f.path@, src), file_name(f.path@)),
            ));
        }
    }
    assert(tree@.take(tree@.len() as int) =~= tree@);
    out
}

impl SortKey for ProjectWorkspaceFileDto {
    /// Files are ordered by locale, then by path.
    open spec fn key_le_spec(self, other: Self) -> bool {
        locale_path_le(opt_view(self.locale), self.path@, opt_view(other.locale), other.path@)
    }

    proof fn lemma_key_le_total(a: Self, b: Self) {
        lemma_locale_path_total(opt_view(a.locale), a.path@, opt_view(b.locale), b.path@);
    }

    proof fn lemma_key_le_transitive(a: Self, b: Self, c: Self) {
        lemma_locale_path_transitive(
            opt_view(a.locale),
            a.path@,
            opt_view(b.locale),
            b.path@,
            opt_view(c.locale),
            c.path@,
        );
    }

    fn key_le(&self, other: &Self) -> (r: bool) {
        locale_path_le_exec(&self.locale, self.path.as_str(), &other.locale, other.path.as_str())
    }
}

impl SortKey for ProjectWorkspaceKeyDto {
    /// Keys are ordered by file, then by key.
    open spec fn key_le_spec(self, other: Self) -> bool {
        ||| text::seq_lt(self.file_path@, other.file_path@)
        ||| self.file_path@ == other.file_path@ && text::seq_le(self.key@, other.key@)
    }

    proof fn lemma_key_le_total(a: Self, b: Self) {
        text::lemma_seq_lt_total(a.file_path@, b.file_path@);
        text::lemma_seq_le_total(a.key@, b.key@);
    }

    proof fn lemma_key_le_transitive(a: Self, b: Self, c: Self) {
        text::lemma_seq_lt_irreflexive(a.file_path@);
        text::lemma_seq_lt_irreflexive(b.file_path@);
        if text::seq_lt(a.file_path@, b.file_path@) && text::seq_lt(b.file_path@, c.file_path@) {
            text::lemma_seq_lt_transitive(a.file_path@, b.file_path@, c.file_path@);
        }
        if a.file_path@ == b.file_path@ && b.file_path@ == c.file_path@ {
            text::lemma_seq_le_transitive(a.key@, b.key@, c.key@);
        }
    }

    fn key_le(&self, other: &Self) -> (r: bool) {
        if text::str_eq(self.file_path.as_str(), other.file_path.as_str()) {
            proof {
                text::lemma_seq_lt_irreflexive(self.file_path@);
            }
            text::str_le(self.key.as_str(), other.key.as_str())
        } else {
            proof {
                text::lemma_seq_lt_total(self.file_path@, other.file_path@);
                if text::seq_lt(self.file_path@, other.file_path@) {
                    text::lemma_seq_lt_asymmetric(self.file_path@, other.file_path@);
                }
            }
            text::str_le(self.file_path.as_str(), other.file_path.as_str())
        }
    }
}

/// The Fluent files of a tree as the workspace lists them, ordered by
/// locale, then path.
pub fn collect_workspace_files(tree: &[GithubTreeFile], source_locale: Option<&str>) -> (out: Vec<ProjectWorkspaceFileDto>)
    ensures
        exists|selected: Seq<ProjectWorkspaceFileDto>|
            selected.map_values(|f: ProjectWorkspaceFileDto| workspace_file_view(f)) == workspace_selection(
                tree@,
                match source_locale {
                    Some(s) => Some(s@),
                    None => None,
                },
            ) && sort::stable_sort_of(out@, selected),
{
    let selected = select_workspace_files(tree, source_locale);
    let ghost s = selected@;
    let out = sort::sort_by_key(selected);
    assert(sort::stable_sort_of(out@, s));
    out
}

/// A project's workspace: its files, and the keys read from them ordered
/// by file, then key, keeping the order of equals.
pub fn build_project_workspace(
    project: ProjectDto,
    files: Vec<ProjectWorkspaceFileDto>,
    keys: Vec<ProjectWorkspaceKeyDto>,
) -> (out: ProjectWorkspaceDto)
    ensures
        out.project == project,
        out.files@ == files@,
        sort::stable_sort_of(out.keys@, keys@),
{
    let keys = sort::sort_by_key(keys);
    ProjectWorkspaceDto { project, files, keys }
}

} // verus!
