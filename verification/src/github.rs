//! The GitHub side of the library: repository trees, paths inside them,
//! blob contents, and the decisions of the tree walks.
//!
//! The HTTP requests are made by the application; the library holds what
//! comes back as plain values and decides what to fetch next and what the
//! result is.
use vstd::prelude::*;

use crate::sort;
use crate::sort::SortKey;
use crate::text;
use base64::Engine;

verus! {

broadcast use vstd::string::group_string_axioms;

// ---------------------------------------------------------------------------
// Outside types
// ---------------------------------------------------------------------------

/// The error of `base64`'s decoders.
#[verifier::external_type_specification]
#[verifier::external_body]
pub struct ExDecodeError(base64::DecodeError);

/// The error of `String::from_utf8`.
#[verifier::external_type_specification]
#[verifier::external_body]
pub struct ExFromUtf8Error(std::string::FromUtf8Error);

// ---------------------------------------------------------------------------
// Data
// ---------------------------------------------------------------------------

/// A file of a repository tree.
#[derive(Debug, Clone, PartialEq)]
pub struct GithubTreeFile {
    pub path: String,
    pub sha: String,
    pub kind: String,
}

/// A repository the user can reach.
#[derive(Debug, Clone, PartialEq)]
pub struct GithubRepository {
    pub id: u64,
    pub owner: String,
    pub name: String,
    pub full_name: String,
    pub private: bool,
    pub default_branch: String,
}

/// An entry of a tree listing, as GitHub describes it.
#[derive(Debug, Clone, PartialEq)]
pub struct GithubTreeItem {
    pub path: String,
    pub sha: String,
    pub kind: String,
}

/// A tree listing: its entries, and whether GitHub cut it short.
#[derive(Debug, Clone, PartialEq)]
pub struct GithubTreeListing {
    pub tree: Vec<GithubTreeItem>,
    pub truncated: bool,
}

/// A repository as GitHub describes it.
#[derive(Debug, Clone, PartialEq)]
pub struct GithubRepositoryResponse {
    pub id: u64,
    pub name: String,
    pub full_name: String,
    pub private: bool,
    pub default_branch: String,
    pub owner_login: String,
}

/// What can go wrong while reading a repository.
#[derive(Debug)]
pub enum GithubError {
    /// GitHub cut a tree listing short; the text says where.
    TruncatedTree(String),
    /// A directory of the translations path does not exist; the text says which.
    PathNotFound(String),
    /// A blob came in an encoding other than base64; it is named.
    UnsupportedEncoding(String),
    /// A blob's base64 content does not decode.
    InvalidBase64(base64::DecodeError),
    /// A blob's content is not UTF-8 text.
    InvalidUtf8(std::string::FromUtf8Error),
}

// ---------------------------------------------------------------------------
// Conversions
// ---------------------------------------------------------------------------

/// The file that a tree entry describes.
pub fn tree_item_to_file(item: GithubTreeItem) -> (file: GithubTreeFile)
    ensures
        file.path@ == item.path@,
        file.sha@ == item.sha@,
        file.kind@ == item.kind@,
{
    GithubTreeFile { path: item.path, sha: item.sha, kind: item.kind }
}

impl GithubRepository {
    /// The repository that GitHub's description stands for.
    pub fn from_response(repository: GithubRepositoryResponse) -> (out: GithubRepository)
        ensures
            out.id == repository.id,
            out.owner@ == repository.owner_login@,
            out.name@ == repository.name@,
            out.full_name@ == repository.full_name@,
            out.private == repository.private,
            out.default_branch@ == repository.default_branch@,
    {
        GithubRepository {
            id: repository.id,
            owner: repository.owner_login,
            name: repository.name,
            full_name: repository.full_name,
            private: repository.private,
            default_branch: repository.default_branch,
        }
    }
}

// ---------------------------------------------------------------------------
// Paths
// ---------------------------------------------------------------------------

/// The one-character path `"."`, which stands for the repository root.
pub open spec fn root_path() -> Seq<char> {
    seq!['.']
}

/// A path inside a repository with surrounding white space and slashes
/// removed; an empty path, or `"."`, is the root `"."`.
pub open spec fn normalized_repo_path(path: Seq<char>) -> Seq<char> {
    let p = text::trim_matches(text::trim(path), '/');
    if p.len() == 0 || p == root_path() {
        root_path()
    } else {
        p
    }
}

/// `path` under the directory `prefix`; under the empty prefix it is `path`.
pub open spec fn joined_repo_path(prefix: Seq<char>, path: Seq<char>) -> Seq<char> {
    if prefix.len() == 0 {
        path
    } else {
        prefix.push('/') + path
    }
}

/// Directory names whose subtrees a walk does not enter: version control,
/// dependencies, build output and caches.
pub open spec fn is_skipped_directory(name: Seq<char>) -> bool {
    ||| name == ".git"@
    ||| name == "node_modules"@
    ||| name == "target"@
    ||| name == "vendor"@
    ||| name == ".next"@
    ||| name == ".nuxt"@
    ||| name == "coverage"@
    ||| name == ".turbo"@
    ||| name == ".cache"@
}

/// Some `/`-separated component of `path` is a skipped directory name.
pub open spec fn is_skipped_tree_path(path: Seq<char>) -> bool {
    exists|i: int|
        0 <= i < text::split(path, '/').len() && is_skipped_directory(
            #[trigger] text::split(path, '/')[i],
        )
}

/// `path` with surrounding white space and slashes removed, or `"."` for the root.
pub fn normalize_repo_path(path: &str) -> (out: String)
    ensures
        out@ == normalized_repo_path(path@),
{
    let cs = text::chars_of(path);
    let trimmed = text::trim_chars(cs.as_slice());
    let p = text::trim_matches_chars(trimmed.as_slice(), '/');
    if p.len() == 0 || (p.len() == 1 && p[0] == '.') {
        assert(p.len() == 1 ==> p@ =~= root_path());
        assert(p.len() != 1 ==> p@ != root_path());
        proof {
            reveal_strlit(".");
        }
        assert("."@ =~= root_path());
        return ".".to_string();
    }
    assert(p@ != root_path());
    text::string_from(p.as_slice())
}

/// `path` under the directory `prefix`.
pub fn join_repo_path(prefix: &str, path: &str) -> (out: String)
    ensures
        out@ == joined_repo_path(prefix@, path@),
{
    if prefix.is_empty() {
        path.to_string()
    } else {
        let mut out = prefix.to_string();
        text::push_char(&mut out, '/');
        out.append(path);
        out
    }
}

/// Whether `name` is a directory name whose subtree walks skip.
pub fn is_skipped_directory_name(name: &[char]) -> (r: bool)
    ensures
        r == is_skipped_directory(name@),
{
    text::chars_eq_str(name, ".git") || text::chars_eq_str(name, "node_modules")
        || text::chars_eq_str(name, "target") || text::chars_eq_str(name, "vendor")
        || text::chars_eq_str(name, ".next") || text::chars_eq_str(name, ".nuxt")
        || text::chars_eq_str(name, "coverage") || text::chars_eq_str(name, ".turbo")
        || text::chars_eq_str(name, ".cache")
}

/// Whether a walk leaves out the subtree at `path`.
pub fn should_skip_tree_path(path: &str) -> (r: bool)
    ensures
        r == is_skipped_tree_path(path@),
{
    let cs = text::chars_of(path);
    let parts = text::split_chars(cs.as_slice(), '/');
    let ghost all = text::texts(parts@);
    assert(all == text::split(path@, '/'));
    for i in 0..parts.len()
        invariant
            all == text::texts(parts@),
            all == text::split(path@, '/'),
            forall|j: int| 0 <= j < i ==> !is_skipped_directory(#[trigger] all[j]),
    {
        assert(parts@[i as int]@ == all[i as int]);
        if is_skipped_directory_name(parts[i].as_slice()) {
            return true;
        }
    }
    false
}

/// Where a translations path points: `None` for the whole repository,
/// otherwise the normalized directory.
pub open spec fn tree_scope(path: Seq<char>) -> Option<Seq<char>> {
    if normalized_repo_path(path) == root_path() {
        None
    } else {
        Some(normalized_repo_path(path))
    }
}

/// The directory that a translations path names, or `None` when it names
/// the whole repository.
pub fn scoped_tree_path(path: &str) -> (out: Option<String>)
    ensures
        match out {
            Some(p) => tree_scope(path@) == Some(p@),
            None => tree_scope(path@) is None,
        },
{
    let normalized = normalize_repo_path(path);
    let cs = text::chars_of(normalized.as_str());
    if cs.len() == 1 && cs[0] == '.' {
        assert(cs@ =~= root_path());
        None
    } else {
        assert(cs@ != root_path());
        Some(normalized)
    }
}

/// The non-empty `/`-separated components of a normalized path, which a
/// lookup descends through one tree at a time.
pub open spec fn path_components(path: Seq<char>) -> Seq<Seq<char>> {
    text::non_empty(text::split(path, '/'))
}

/// The directories that a lookup of `path` descends through, in order.
pub fn tree_path_components(path: &str) -> (out: Vec<String>)
    ensures
        out@.map_values(|s: String| s@) == path_components(path@),
{
    let cs = text::chars_of(path);
    let parts = text::split_chars(cs.as_slice(), '/');
    let kept = text::non_empty_chars(&parts);
    let mut out: Vec<String> = Vec::new();
    for i in 0..kept.len()
        invariant
            out@.map_values(|s: String| s@) == text::texts(kept@).take(i as int),
    {
        let ghost before = out@.map_values(|s: String| s@);
        out.push(text::string_from(kept[i].as_slice()));
        assert(out@.map_values(|s: String| s@) =~= before.push(kept@[i as int]@));
        assert(text::texts(kept@).take(i + 1) =~= text::texts(kept@).take(i as int).push(
            kept@[i as int]@,
        ));
    }
    assert(text::texts(kept@).take(kept@.len() as int) =~= text::texts(kept@));
    out
}

// ---------------------------------------------------------------------------
// Tree listings
// ---------------------------------------------------------------------------

/// A tree file as plain values: path, blob sha and kind.
pub open spec fn file_view(f: GithubTreeFile) -> (Seq<char>, Seq<char>, Seq<char>) {
    (f.path@, f.sha@, f.kind@)
}

/// A tree entry as plain values: path, sha and kind.
pub open spec fn item_view(i: GithubTreeItem) -> (Seq<char>, Seq<char>, Seq<char>) {
    (i.path@, i.sha@, i.kind@)
}

/// The files of a complete recursive listing, or `None` when GitHub cut it
/// short and the tree must be walked directory by directory.
pub fn recursive_listing_files(listing: GithubTreeListing) -> (out: Option<Vec<GithubTreeFile>>)
    ensures
        listing.truncated <==> out is None,
        out matches Some(files) ==> files@.map_values(|f: GithubTreeFile| file_view(f))
            == listing.tree@.map_values(|i: GithubTreeItem| item_view(i)),
{
    if listing.truncated {
        return None;
    }
    let mut files: Vec<GithubTreeFile> = Vec::new();
    let items = listing.tree;
    for k in 0..items.len()
        invariant
            files@.map_values(|f: GithubTreeFile| file_view(f)) == items@.take(k as int).map_values(
                |i: GithubTreeItem| item_view(i),
            ),
    {
        let item = &items[k];
        files.push(
            GithubTreeFile { path: item.path.clone(), sha: item.sha.clone(), kind: item.kind.clone() },
        );
        assert(items@.take(k + 1).map_values(|i: GithubTreeItem| item_view(i)) =~= items@.take(
            k as int,
        ).map_values(|i: GithubTreeItem| item_view(i)).push(item_view(items@[k as int])));
        assert(files@.map_values(|f: GithubTreeFile| file_view(f)) =~= items@.take(
            k as int,
        ).map_values(|i: GithubTreeItem| item_view(i)).push(item_view(items@[k as int])));
    }
    assert(items@.take(items@.len() as int) =~= items@);
    Some(files)
}

/// Which walk a listing belongs to, for the message of a cut-short listing.
#[derive(Debug, Clone, Copy, PartialEq, Eq)]
pub enum WalkKind {
    /// A walk of the whole repository from its branch.
    Repository,
    /// A walk of the subtree under a translations path.
    Subtree,
}

/// The message for a walk that met a listing GitHub cut short at `prefix`.
pub open spec fn truncated_walk_message(kind: WalkKind, prefix: Seq<char>) -> Seq<char> {
    match kind {
        WalkKind::Repository => "GitHub returned a truncated tree for '"@ + (if prefix.len() == 0 {
            "/"@
        } else {
            prefix
        })
            + "'. This usually means the directory is extremely large. Try setting a narrower translations path or excluding generated/vendor folders."@,
        WalkKind::Subtree => "GitHub returned a truncated tree for '"@ + prefix
            + "'. This directory is too large to scan safely."@,
    }
}

/// The files that a listing under `prefix` contributes: its blobs, with
/// their paths under `prefix`, in listing order.
pub open spec fn walk_blobs(prefix: Seq<char>, items: Seq<GithubTreeItem>) -> Seq<
    (Seq<char>, Seq<char>, Seq<char>),
>
    decreases items.len(),
{
    if items.len() == 0 {
        Seq::empty()
    } else {
        let rest = walk_blobs(prefix, items.drop_last());
        let it = items.last();
        if it.kind@ == "blob"@ {
            rest.push((joined_repo_path(prefix, it.path@), it.sha@, it.kind@))
        } else {
            rest
        }
    }
}

/// The subtrees that a listing under `prefix` adds to the walk, as
/// (tree sha, path) pairs in listing order; skipped directories are left out.
pub open spec fn walk_subtrees(prefix: Seq<char>, items: Seq<GithubTreeItem>) -> Seq<
    (Seq<char>, Seq<char>),
>
    decreases items.len(),
{
    if items.len() == 0 {
        Seq::empty()
    } else {
        let rest = walk_subtrees(prefix, items.drop_last());
        let it = items.last();
        let path = joined_repo_path(prefix, it.path@);
        if it.kind@ == "tree"@ && !is_skipped_tree_path(path) {
            rest.push((it.sha@, path))
        } else {
            rest
        }
    }
}

/// A pending subtree of a walk as plain values: (tree reference, path).
pub open spec fn pending_view(p: (String, String)) -> (Seq<char>, Seq<char>) {
    (p.0@, p.1@)
}

/// A walk of a repository tree, one listing at a time: the files found so
/// far and the subtrees still to list, the last one first.
pub struct TreeWalk {
    pub kind: WalkKind,
    pub files: Vec<GithubTreeFile>,
    pub pending: Vec<(String, String)>,
}

impl TreeWalk {
    /// The files found so far, as plain values.
    pub open spec fn found(&self) -> Seq<(Seq<char>, Seq<char>, Seq<char>)> {
        self.files@.map_values(|f: GithubTreeFile| file_view(f))
    }

    /// The subtrees still to list, as plain values.
    pub open spec fn to_list(&self) -> Seq<(Seq<char>, Seq<char>)> {
        self.pending@.map_values(|p: (String, String)| pending_view(p))
    }

    /// A walk that starts at the tree `root_ref`, whose files lie under `root_prefix`.
    pub fn new(kind: WalkKind, root_ref: &str, root_prefix: String) -> (walk: TreeWalk)
        ensures
            walk.kind == kind,
            walk.found() == Seq::<(Seq<char>, Seq<char>, Seq<char>)>::empty(),
            walk.to_list() == seq![(root_ref@, root_prefix@)],
    {
        let mut pending: Vec<(String, String)> = Vec::new();
        pending.push((root_ref.to_string(), root_prefix));
        let walk = TreeWalk { kind, files: Vec::new(), pending };
        assert(walk.found() =~= Seq::<(Seq<char>, Seq<char>, Seq<char>)>::empty());
        assert(walk.to_list() =~= seq![(root_ref@, root_prefix@)]);
        walk
    }

    /// The next subtree to list, the one added last; `None` once the walk is done.
    pub fn next_request(&mut self) -> (out: Option<(String, String)>)
        ensures
            final(self).kind == old(self).kind,
            final(self).found() == old(self).found(),
            old(self).to_list().len() == 0 ==> out is None && final(self).to_list() == old(
                self,
            ).to_list(),
            old(self).to_list().len() > 0 ==> (out matches Some(p) && pending_view(p) == old(
                self,
            ).to_list().last()),
            old(self).to_list().len() > 0 ==> final(self).to_list() == old(self).to_list().drop_last(),
    {
        let out = self.pending.pop();
        proof {
            if old(self).pending@.len() > 0 {
                assert(self.to_list() =~= old(self).to_list().drop_last());
            }
        }
        out
    }

    /// Takes in the listing of the subtree at `prefix`: its blobs join the
    /// files and its subtrees the pending list.  A listing that GitHub cut
    /// short stops the walk with an error and changes nothing.
    pub fn apply(&mut self, prefix: &str, listing: &GithubTreeListing) -> (out: Result<(), GithubError>)
        ensures
            final(self).kind == old(self).kind,
            listing.truncated ==> match out {
                Err(GithubError::TruncatedTree(m)) => m@ == truncated_walk_message(old(self).kind, prefix@),
                _ => false,
            },
            listing.truncated ==> final(self).found() == old(self).found() && final(self).to_list()
                == old(self).to_list(),
            !listing.truncated ==> out is Ok,
            !listing.truncated ==> final(self).found() == old(self).found() + walk_blobs(
                prefix@,
                listing.tree@,
            ),
            !listing.truncated ==> final(self).to_list() == old(self).to_list() + walk_subtrees(
                prefix@,
                listing.tree@,
            ),
    {
        if listing.truncated {
            return Err(GithubError::TruncatedTree(truncated_walk_text(self.kind, prefix)));
        }
        let items = &listing.tree;
        let ghost found0 = self.found();
        let ghost list0 = self.to_list();
        for k in 0..items.len()
            invariant
                items == &listing.tree,
                self.kind == old(self).kind,
                found0 == old(self).found(),
                list0 == old(self).to_list(),
                self.found() == found0 + walk_blobs(prefix@, items@.take(k as int)),
                self.to_list() == list0 + walk_subtrees(prefix@, items@.take(k as int)),
        {
            let item = &items[k];
            let path = join_repo_path(prefix, item.path.as_str());
            let ghost f_before = self.found();
            let ghost l_before = self.to_list();
            proof {
                assert(items@.take(k + 1).drop_last() =~= items@.take(k as int));
                assert(items@.take(k + 1).last() == items@[k as int]);
                reveal_strlit("blob");
                reveal_strlit("tree");
            }
            if text::str_eq(item.kind.as_str(), "blob") {
                self.files.push(
                    GithubTreeFile { path, sha: item.sha.clone(), kind: item.kind.clone() },
                );
                assert(self.found() =~= f_before.push((joined_repo_path(prefix@, item.path@), item.sha@, item.kind@)));
                assert(found0 + walk_blobs(prefix@, items@.take(k + 1)) =~= (found0 + walk_blobs(prefix@, items@.take(k as int))).push((joined_repo_path(prefix@, item.path@), item.sha@, item.kind@)));
                proof {
                    reveal_strlit("blob");
                    reveal_strlit("tree");
                }
                assert(self.to_list() =~= l_before);
                assert("blob"@[0] != "tree"@[0]);
                assert(item.kind@ != "tree"@);
                assert(walk_subtrees(prefix@, items@.take(k + 1)) == walk_subtrees(prefix@, items@.take(k as int)));
            } else if text::str_eq(item.kind.as_str(), "tree") && !should_skip_tree_path(path.as_str()) {
                self.pending.push((item.sha.clone(), path));
                assert(self.to_list() =~= l_before.push((item.sha@, joined_repo_path(prefix@, item.path@))));
                assert(list0 + walk_subtrees(prefix@, items@.take(k + 1)) =~= (list0 + walk_subtrees(prefix@, items@.take(k as int))).push((item.sha@, joined_repo_path(prefix@, item.path@))));
                proof {
                    reveal_strlit("blob");
                    reveal_strlit("tree");
                }
                assert(self.found() =~= f_before);
                assert("blob"@[0] != "tree"@[0]);
                assert(item.kind@ != "blob"@);
                assert(walk_blobs(prefix@, items@.take(k + 1)) == walk_blobs(prefix@, items@.take(k as int)));
            } else {
                assert(self.found() =~= f_before);
                assert(self.to_list() =~= l_before);
                assert(walk_subtrees(prefix@, items@.take(k + 1)) == walk_subtrees(prefix@, items@.take(k as int)));
            }
        }
        assert(items@.take(items@.len() as int) =~= items@);
        Ok(())
    }

    /// The files found, ordered by path.
    pub fn finish(self) -> (files: Vec<GithubTreeFile>)
        ensures
            sort::stable_sort_of(files@, self.files@),
    {
        sort::sort_by_key(self.files)
    }
}

impl SortKey for GithubTreeFile {
    open spec fn key_le_spec(self, other: Self) -> bool {
        text::seq_le(self.path@, other.path@)
    }

    proof fn lemma_key_le_total(a: Self, b: Self) {
        text::lemma_seq_le_total(a.path@, b.path@);
    }

    proof fn lemma_key_le_transitive(a: Self, b: Self, c: Self) {
        text::lemma_seq_le_transitive(a.path@, b.path@, c.path@);
    }

    fn key_le(&self, other: &Self) -> (r: bool) {
        text::str_le(self.path.as_str(), other.path.as_str())
    }
}

/// The message for a walk that met a listing GitHub cut short at `prefix`.
pub fn truncated_walk_text(kind: WalkKind, prefix: &str) -> (out: String)
    ensures
        out@ == truncated_walk_message(kind, prefix@),
{
    let mut out = "GitHub returned a truncated tree for '".to_string();
    match kind {
        WalkKind::Repository => {
            if prefix.is_empty() {
                out.append("/");
            } else {
                out.append(prefix);
            }
            out.append(
                "'. This usually means the directory is extremely large. Try setting a narrower translations path or excluding generated/vendor folders.",
            );
        },
        WalkKind::Subtree => {
            out.append(prefix);
            out.append("'. This directory is too large to scan safely.");
        },
    }
    out
}

/// The first subtree entry named `part` in a listing, as its sha.
pub open spec fn first_subtree(items: Seq<GithubTreeItem>, part: Seq<char>) -> Option<Seq<char>>
    decreases items.len(),
{
    if items.len() == 0 {
        None
    } else if items[0].kind@ == "tree"@ && items[0].path@ == part {
        Some(items[0].sha@)
    } else {
        first_subtree(items.drop_first(), part)
    }
}

/// The message for a listing cut short while resolving `path`.
pub open spec fn truncated_lookup_message(path: Seq<char>) -> Seq<char> {
    "GitHub returned a truncated tree while resolving '"@ + path
        + "'. Try setting a narrower translations path."@
}

/// The message for a translations path that does not exist.
pub open spec fn missing_path_message(path: Seq<char>) -> Seq<char> {
    "translations path not found in repository: "@ + path
}

/// One step of resolving the translations path `path`: in the listing of
/// the current tree, the sha of the subtree named `part`.
pub fn subtree_sha(listing: &GithubTreeListing, part: &str, path: &str) -> (out: Result<String, GithubError>)
    ensures
        listing.truncated ==> match out {
            Err(GithubError::TruncatedTree(m)) => m@ == truncated_lookup_message(path@),
            _ => false,
        },
        !listing.truncated ==> match first_subtree(listing.tree@, part@) {
            Some(sha) => (out matches Ok(s) && s@ == sha),
            None => match out {
                Err(GithubError::PathNotFound(m)) => m@ == missing_path_message(path@),
                _ => false,
            },
        },
{
    if listing.truncated {
        let mut m = "GitHub returned a truncated tree while resolving '".to_string();
        m.append(path);
        m.append("'. Try setting a narrower translations path.");
        return Err(GithubError::TruncatedTree(m));
    }
    let items = &listing.tree;
    let mut k: usize = 0;
    assert(items@.skip(0) =~= items@);
    while k < items.len()
        invariant
            items == &listing.tree,
            !listing.truncated,
            k <= items@.len(),
            first_subtree(items@, part@) == first_subtree(items@.skip(k as int), part@),
        decreases items.len() - k,
    {
        let item = &items[k];
        assert(items@.skip(k as int)[0] == items@[k as int]);
        assert(items@.skip(k as int).drop_first() =~= items@.skip(k + 1));
        if text::str_eq(item.kind.as_str(), "tree") && text::str_eq(item.path.as_str(), part) {
            proof {
                reveal_strlit("tree");
            }
            return Ok(item.sha.clone());
        }
        proof {
            reveal_strlit("tree");
        }
        k += 1;
    }
    let mut m = "translations path not found in repository: ".to_string();
    m.append(path);
    Err(GithubError::PathNotFound(m))
}

// ---------------------------------------------------------------------------
// Blob contents
// ---------------------------------------------------------------------------

/// What the standard base64 engine decodes a text to, or `None` when the
/// engine refuses it.
pub uninterp spec fn base64_decoded(input: Seq<char>) -> Option<Seq<u8>>;

/// `base64::engine::general_purpose::STANDARD.decode`: the decoded bytes,
/// named by `base64_decoded`; which error it reports is not stated.
#[verifier::external_body]
fn base64_decode(input: &str) -> (out: Result<Vec<u8>, base64::DecodeError>)
    ensures
        match out {
            Ok(bytes) => base64_decoded(input@) == Some(bytes@),
            Err(_) => base64_decoded(input@) is None,
        },
{
    base64::engine::general_purpose::STANDARD.decode(input)
}

/// `String::from_utf8`: the text that valid UTF-8 bytes encode, an error
/// for any other bytes.
#[verifier::external_body]
fn string_from_utf8(bytes: Vec<u8>) -> (out: Result<String, std::string::FromUtf8Error>)
    ensures
        match out {
            Ok(s) => vstd::utf8::valid_utf8(bytes@) && s@ == vstd::utf8::decode_utf8(bytes@),
            Err(_) => !vstd::utf8::valid_utf8(bytes@),
        },
{
    String::from_utf8(bytes)
}

/// The message for a blob in an encoding other than base64.
pub open spec fn unsupported_encoding_message(encoding: Seq<char>) -> Seq<char> {
    "unsupported GitHub content encoding: "@ + encoding
}

/// The text of a blob that GitHub sent: base64 with line breaks, decoded,
/// read as UTF-8.
pub fn decode_github_base64(content: String, encoding: &str) -> (out: Result<String, GithubError>)
    ensures
        encoding@ != "base64"@ ==> match out {
            Err(GithubError::UnsupportedEncoding(m)) => m@ == unsupported_encoding_message(encoding@),
            _ => false,
        },
        encoding@ == "base64"@ ==> match base64_decoded(text::without_char(content@, '\n')) {
            None => out matches Err(GithubError::InvalidBase64(_)),
            Some(bytes) => if vstd::utf8::valid_utf8(bytes) {
                (out matches Ok(s) && s@ == vstd::utf8::decode_utf8(bytes))
            } else {
                out matches Err(GithubError::InvalidUtf8(_))
            },
        },
{
    if !text::str_eq(encoding, "base64") {
        let mut m = "unsupported GitHub content encoding: ".to_string();
        m.append(encoding);
        return Err(GithubError::UnsupportedEncoding(m));
    }
    let cs = text::chars_of(content.as_str());
    let normalized = text::without_char_chars(cs.as_slice(), '\n');
    let normalized = text::string_from(normalized.as_slice());
    match base64_decode(normalized.as_str()) {
        Err(e) => Err(GithubError::InvalidBase64(e)),
        Ok(bytes) => match string_from_utf8(bytes) {
            Ok(s) => Ok(s),
            Err(e) => Err(GithubError::InvalidUtf8(e)),
        },
    }
}

// ---------------------------------------------------------------------------
// Laws
// ---------------------------------------------------------------------------

/// A walk never queues a subtree that lies under a skipped directory.
pub proof fn lemma_walk_never_enters_skipped(prefix: Seq<char>, items: Seq<GithubTreeItem>)
    ensures
        forall|i: int|
            0 <= i < walk_subtrees(prefix, items).len() ==> !is_skipped_tree_path(
                (#[trigger] walk_subtrees(prefix, items)[i]).1,
            ),
    decreases items.len(),
{
    if items.len() > 0 {
        lemma_walk_never_enters_skipped(prefix, items.drop_last());
        let rest = walk_subtrees(prefix, items.drop_last());
        let all = walk_subtrees(prefix, items);
        assert forall|i: int| 0 <= i < all.len() implies !is_skipped_tree_path((#[trigger] all[i]).1) by {
            if i < rest.len() {
                assert(all[i] == rest[i]);
            }
        }
    }
}

/// Every file a walk finds is a blob, at its path under the listed prefix.
pub proof fn lemma_walk_finds_only_blobs(prefix: Seq<char>, items: Seq<GithubTreeItem>)
    ensures
        forall|i: int|
            0 <= i < walk_blobs(prefix, items).len() ==> (#[trigger] walk_blobs(prefix, items)[i]).2
                == "blob"@,
    decreases items.len(),
{
    if items.len() > 0 {
        lemma_walk_finds_only_blobs(prefix, items.drop_last());
        let rest = walk_blobs(prefix, items.drop_last());
        let all = walk_blobs(prefix, items);
        assert forall|i: int| 0 <= i < all.len() implies (#[trigger] all[i]).2 == "blob"@ by {
            if i < rest.len() {
                assert(all[i] == rest[i]);
            }
        }
    }
}

/// A path under a skipped directory stays skipped whatever is joined to
/// it, before or after: pruning a skipped subtree loses nothing a walk would
/// have kept.
pub proof fn lemma_skipped_stays_skipped(p: Seq<char>, q: Seq<char>)
    requires
        is_skipped_tree_path(p),
    ensures
        is_skipped_tree_path(joined_repo_path(p, q)),
        is_skipped_tree_path(joined_repo_path(q, p)),
{
    let sp = text::split(p, '/');
    let i = choose|i: int| 0 <= i < sp.len() && is_skipped_directory(#[trigger] sp[i]);
    if p.len() == 0 {
        assert(p =~= Seq::<char>::empty());
        assert(sp =~= seq![Seq::<char>::empty()]);
        reveal_strlit(".git");
        reveal_strlit("node_modules");
        reveal_strlit("target");
        reveal_strlit("vendor");
        reveal_strlit(".next");
        reveal_strlit(".nuxt");
        reveal_strlit("coverage");
        reveal_strlit(".turbo");
        reveal_strlit(".cache");
        assert(!is_skipped_directory(sp[i]));
    } else {
        text::lemma_split_concat(p, q, '/');
        let after = text::split(joined_repo_path(p, q), '/');
        assert(after[i] == sp[i]);
    }
    if q.len() > 0 {
        text::lemma_split_concat(q, p, '/');
        let before = text::split(joined_repo_path(q, p), '/');
        let k = text::split(q, '/').len() + i;
        assert(before[k] == sp[i]);
    }
}

/// A path without white space normalizes to a non-empty path that neither
/// starts nor ends with `/`, and normalizing it again changes nothing.
pub proof fn lemma_normalize_repo_path_idempotent(path: Seq<char>)
    requires
        forall|i: int| 0 <= i < path.len() ==> !text::is_white_space(#[trigger] path[i]),
    ensures
        normalized_repo_path(path).len() > 0,
        normalized_repo_path(path)[0] != '/',
        normalized_repo_path(path).last() != '/',
        normalized_repo_path(normalized_repo_path(path)) == normalized_repo_path(path),
{
    text::lemma_trim_start_shape(path);
    assert(text::trim_start(path) == path);
    assert(text::trim_end(path) == path);
    let u = text::strip_leading(path, '/');
    let t = text::strip_trailing(u, '/');
    text::lemma_strip_leading_shape(path, '/');
    text::lemma_strip_trailing_shape(u, '/');
    assert(text::trim_matches(text::trim(path), '/') == t);
    let r = normalized_repo_path(path);
    if t.len() == 0 || t == root_path() {
        assert(r == root_path());
        assert(text::trim_start(r) == r);
        assert(text::trim_end(r) == r);
        assert(text::strip_leading(r, '/') == r);
        assert(text::strip_trailing(r, '/') == r);
    } else {
        assert(r == t);
        let k = path.len() - u.len();
        assert(t[0] == u[0]);
        assert(u[0] == path[k]);
        assert(t.last() == u[t.len() - 1]);
        assert(u[t.len() - 1] == path[k + t.len() - 1]);
        assert(text::trim_start(t) == t);
        assert(text::trim_end(t) == t);
        assert(text::strip_leading(t, '/') == t);
        assert(text::strip_trailing(t, '/') == t);
    }
}

/// Version control, dependency, build-output and cache directories are
/// skipped: `.git`, `node_modules`, `target`, `vendor`, `.next`, `.nuxt`,
/// `coverage`, `.turbo` and `.cache` are skipped tree paths on their own and
/// wherever they stand in a path, so a walk never queues them (see
/// `lemma_walk_never_enters_skipped`).
pub proof fn lemma_skipped_directory_names(n: Seq<char>, p: Seq<char>)
    requires
        n == ".git"@ || n == "node_modules"@ || n == "target"@ || n == "vendor"@ || n == ".next"@
            || n == ".nuxt"@ || n == "coverage"@ || n == ".turbo"@ || n == ".cache"@,
    ensures
        is_skipped_tree_path(n),
        is_skipped_tree_path(joined_repo_path(p, n)),
        is_skipped_tree_path(joined_repo_path(n, p)),
{
    reveal_strlit(".git");
    reveal_strlit("node_modules");
    reveal_strlit("target");
    reveal_strlit("vendor");
    reveal_strlit(".next");
    reveal_strlit(".nuxt");
    reveal_strlit("coverage");
    reveal_strlit(".turbo");
    reveal_strlit(".cache");
    assert(!n.contains('/'));
    crate::helpers::lemma_split_without_sep(n, '/');
    assert(text::split(n, '/')[0] == n);
    assert(is_skipped_directory(n));
    assert(is_skipped_tree_path(n));
    lemma_skipped_stays_skipped(n, p);
}

} // verus!
