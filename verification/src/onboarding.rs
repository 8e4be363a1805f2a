//! Onboarding: picking a repository to import, then the directory that holds
//! its translations.
use vstd::prelude::*;

use crate::dto::{opt_view, FluentDirectoryDto, FluentFileDto, ProjectScanDto};
use crate::github::GithubRepository;
use crate::helpers::{slug_of, slugify};
use crate::scan::{copy_file, files_in_directory, files_under};
use crate::keyed::{has_text, insert_text_sorted, strictly_sorted_texts};
use crate::text;

verus! {

/// A repository of the signed-in user, as the onboarding page lists it.
#[derive(Debug, Clone, PartialEq)]
pub struct GithubRepositoryDto {
    pub id: u64,
    pub owner: String,
    pub name: String,
    pub full_name: String,
    pub private: bool,
    pub default_branch: String,
}

/// The page's view of a repository that GitHub listed.
pub fn repository_dto(repository: GithubRepository) -> (out: GithubRepositoryDto)
    ensures
        out.id == repository.id,
        out.owner@ == repository.owner@,
        out.name@ == repository.name@,
        out.full_name@ == repository.full_name@,
        out.private == repository.private,
        out.default_branch@ == repository.default_branch@,
{
    GithubRepositoryDto {
        id: repository.id,
        owner: repository.owner,
        name: repository.name,
        full_name: repository.full_name,
        private: repository.private,
        default_branch: repository.default_branch,
    }
}

/// A copy of a listed repository.
pub fn copy_repository(r: &GithubRepositoryDto) -> (out: GithubRepositoryDto)
    ensures
        out == *r,
{
    GithubRepositoryDto {
        id: r.id,
        owner: r.owner.clone(),
        name: r.name.clone(),
        full_name: r.full_name.clone(),
        private: r.private,
        default_branch: r.default_branch.clone(),
    }
}

// ---------------------------------------------------------------------------
// Owners
// ---------------------------------------------------------------------------

/// The owner of each repository, in order.
pub open spec fn owners_of(repos: Seq<GithubRepositoryDto>) -> Seq<Seq<char>> {
    repos.map_values(|r: GithubRepositoryDto| r.owner@)
}

/// `x` occurs in `s` and no text of `s` comes before it.
pub open spec fn is_least_text(x: Seq<char>, s: Seq<Seq<char>>) -> bool {
    &&& s.contains(x)
    &&& forall|i: int| 0 <= i < s.len() ==> text::seq_le(x, #[trigger] s[i])
}

/// The owner that comes first in alphabetical order, if any repository is
/// listed.
pub open spec fn least_owner(repos: Seq<GithubRepositoryDto>) -> Option<Seq<char>> {
    if repos.len() == 0 {
        None
    } else {
        Some(choose|x: Seq<char>| is_least_text(x, owners_of(repos)))
    }
}

/// A sequence of texts has at most one least text.
pub proof fn lemma_least_text_unique(x: Seq<char>, y: Seq<char>, s: Seq<Seq<char>>)
    requires
        is_least_text(x, s),
        is_least_text(y, s),
    ensures
        x == y,
{
    let i = choose|i: int| 0 <= i < s.len() && s[i] == y;
    let j = choose|j: int| 0 <= j < s.len() && s[j] == x;
    assert(text::seq_le(x, s[i]));
    assert(text::seq_le(y, s[j]));
    text::lemma_seq_lt_total(x, y);
}

/// The distinct owners of the repositories, in alphabetical order.
pub fn repository_owners(repositories: &[GithubRepositoryDto]) -> (out: Vec<String>)
    ensures
        strictly_sorted_texts(out@),
        forall|x: Seq<char>| #[trigger] has_text(out@, x) == owners_of(repositories@).contains(x),
        out@.len() > 0 ==> least_owner(repositories@) == Some(out@[0]@),
        out@.len() == 0 ==> least_owner(repositories@) is None,
{
    let mut owners: Vec<String> = Vec::new();
    for i in 0..repositories.len()
        invariant
            strictly_sorted_texts(owners@),
            forall|x: Seq<char>| #[trigger] has_text(owners@, x) == owners_of(
                repositories@.take(i as int),
            ).contains(x),
            i > 0 ==> owners@.len() > 0,
    {
        let ghost before = owners@;
        insert_text_sorted(&mut owners, repositories[i].owner.clone());
        proof {
            let prev = owners_of(repositories@.take(i as int));
            let next = owners_of(repositories@.take(i + 1));
            assert(next =~= prev.push(repositories@[i as int].owner@));
            assert forall|x: Seq<char>| #[trigger] has_text(owners@, x) == next.contains(x) by {
                if next.contains(x) && x != repositories@[i as int].owner@ {
                    let k = choose|k: int| 0 <= k < next.len() && next[k] == x;
                    assert(prev[k] == x);
                }
                if prev.contains(x) {
                    let k = choose|k: int| 0 <= k < prev.len() && prev[k] == x;
                    assert(next[k] == x);
                }
                assert(next[i as int] == repositories@[i as int].owner@);
            }
            assert(has_text(owners@, repositories@[i as int].owner@));
        }
    }
    proof {
        let all = owners_of(repositories@);
        assert(repositories@.take(repositories@.len() as int) =~= repositories@);
        if owners@.len() > 0 {
            let first = owners@[0]@;
            assert(has_text(owners@, first));
            assert forall|i: int| 0 <= i < all.len() implies text::seq_le(first, #[trigger] all[i]) by {
                assert(all.contains(all[i]));
                assert(has_text(owners@, all[i]));
                let j = choose|j: int| 0 <= j < owners@.len() && owners@[j]@ == all[i];
                if j == 0 {
                    text::lemma_seq_le_reflexive(first);
                } else {
                    assert(text::seq_lt(owners@[0]@, owners@[j]@));
                    text::lemma_seq_lt_asymmetric(first, all[i]);
                }
            }
            assert(is_least_text(first, all));
            let chosen = choose|x: Seq<char>| is_least_text(x, all);
            lemma_least_text_unique(chosen, first, all);
        } else {
            if repositories@.len() > 0 {
                assert(all.contains(all[0]));
                assert(has_text(owners@, all[0]));
            }
        }
    }
    owners
}

/// The repositories of a lookup that has finished and succeeded.
pub open spec fn loaded<E>(state: Option<Result<Vec<GithubRepositoryDto>, E>>) -> Option<
    Seq<GithubRepositoryDto>,
> {
    match state {
        Some(Ok(repos)) => Some(repos@),
        _ => None,
    }
}

/// The owner shown in the owner picker: the one the user picked, else the
/// first owner of the listed repositories, else `fallback`.
pub open spec fn effective_owner_of(
    repos: Option<Seq<GithubRepositoryDto>>,
    selected: Option<Seq<char>>,
    fallback: Seq<char>,
) -> Seq<char> {
    match selected {
        Some(s) => s,
        None => match repos {
            Some(r) => match least_owner(r) {
                Some(o) => o,
                None => fallback,
            },
            None => fallback,
        },
    }
}

/// The owner shown in the owner picker.
pub fn effective_owner<E>(
    repository_state: &Option<Result<Vec<GithubRepositoryDto>, E>>,
    selected_owner: Option<String>,
    fallback: String,
) -> (out: String)
    ensures
        out@ == effective_owner_of(
            loaded(*repository_state),
            crate::dto::opt_view(selected_owner),
            fallback@,
        ),
{
    match selected_owner {
        Some(owner) => owner,
        None => match repository_state {
            Some(Ok(repositories)) => {
                let owners = repository_owners(repositories.as_slice());
                if owners.len() > 0 {
                    owners[0].clone()
                } else {
                    fallback
                }
            },
            _ => fallback,
        },
    }
}

/// Some repository of `repos` has the id `id`.
pub open spec fn lists_id(repos: Seq<GithubRepositoryDto>, id: u64) -> bool {
    exists|i: int| 0 <= i < repos.len() && #[trigger] repos[i].id == id
}

/// Whether some repository of `repos` has the id `id`.
fn has_repository_id(repos: &[GithubRepositoryDto], id: u64) -> (r: bool)
    ensures
        r == lists_id(repos@, id),
{
    for i in 0..repos.len()
        invariant
            forall|j: int| 0 <= j < i ==> (#[trigger] repos@[j]).id != id,
    {
        if repos[i].id == id {
            return true;
        }
    }
    false
}

/// The repository to import: the one picked, while it is shown, else the
/// first shown.
pub open spec fn effective_repository_id_of(selected: Option<u64>, visible: Seq<GithubRepositoryDto>) -> Option<u64> {
    match selected {
        Some(id) if lists_id(visible, id) => Some(id),
        _ => if visible.len() > 0 {
            Some(visible[0].id)
        } else {
            None
        },
    }
}

/// The repository to import among those shown.
pub fn effective_repository_id(selected_id: Option<u64>, visible_repositories: &[GithubRepositoryDto]) -> (out: Option<u64>)
    ensures
        out == effective_repository_id_of(selected_id, visible_repositories@),
{
    if let Some(id) = selected_id {
        if has_repository_id(visible_repositories, id) {
            return Some(id);
        }
    }
    if visible_repositories.len() > 0 {
        Some(visible_repositories[0].id)
    } else {
        None
    }
}

/// A stand-in repository shown while the list loads.
pub fn placeholder_repository(id: u64) -> (out: GithubRepositoryDto)
    ensures
        out.id == id,
        out.owner@ == "owner"@,
        out.name@ == "repository"@,
        out.full_name@ == "owner/repository"@,
        out.private,
        out.default_branch@ == "main"@,
{
    GithubRepositoryDto {
        id,
        owner: "owner".to_string(),
        name: "repository".to_string(),
        full_name: "owner/repository".to_string(),
        private: true,
        default_branch: "main".to_string(),
    }
}

// ---------------------------------------------------------------------------
// The repository list
// ---------------------------------------------------------------------------

/// How many repositories the list shows at most.
pub const VISIBLE_REPOSITORIES: usize = 5;

/// The owner whose repositories the list shows: none until the lookup has
/// succeeded, then the one picked, else the first owner.
pub open spec fn list_owner_of(repos: Option<Seq<GithubRepositoryDto>>, selected: Option<Seq<char>>) -> Option<
    Seq<char>,
> {
    match repos {
        None => None,
        Some(r) => match selected {
            Some(s) => Some(s),
            None => least_owner(r),
        },
    }
}

/// The owner whose repositories the list shows.
pub fn repository_list_owner<E>(
    repository_state: &Option<Result<Vec<GithubRepositoryDto>, E>>,
    selected_owner: Option<String>,
) -> (out: Option<String>)
    ensures
        crate::dto::opt_view(out) == list_owner_of(
            loaded(*repository_state),
            crate::dto::opt_view(selected_owner),
        ),
{
    match repository_state {
        Some(Ok(repositories)) => match selected_owner {
            Some(owner) => Some(owner),
            None => {
                let owners = repository_owners(repositories.as_slice());
                if owners.len() > 0 {
                    Some(owners[0].clone())
                } else {
                    None
                }
            },
        },
        _ => None,
    }
}

/// The repositories of `owner`, or all of them when no owner is given.
pub open spec fn owned_by(repos: Seq<GithubRepositoryDto>, owner: Option<Seq<char>>) -> Seq<GithubRepositoryDto> {
    repos.filter(
        |r: GithubRepositoryDto|
            match owner {
                Some(o) => r.owner@ == o,
                None => true,
            },
    )
}

/// The first `n` items of `s`, or all of them when there are fewer.
pub open spec fn first_n<T>(s: Seq<T>, n: int) -> Seq<T> {
    if s.len() <= n {
        s
    } else {
        s.take(n)
    }
}

/// The repositories the list shows: the first few of the owner's, once the
/// lookup has succeeded.
pub open spec fn visible_of(repos: Option<Seq<GithubRepositoryDto>>, owner: Option<Seq<char>>) -> Seq<
    GithubRepositoryDto,
> {
    match repos {
        Some(r) => first_n(owned_by(r, owner), VISIBLE_REPOSITORIES as int),
        None => Seq::empty(),
    }
}

/// The repositories the list shows for `owner`.
pub fn visible_repositories<E>(
    repository_state: &Option<Result<Vec<GithubRepositoryDto>, E>>,
    owner: &Option<String>,
) -> (out: Vec<GithubRepositoryDto>)
    ensures
        out@ == visible_of(loaded(*repository_state), crate::dto::opt_view(*owner)),
{
    let mut out: Vec<GithubRepositoryDto> = Vec::new();
    match repository_state {
        Some(Ok(repositories)) => {
            let ghost o = crate::dto::opt_view(*owner);
            let ghost pick = |r: GithubRepositoryDto|
                match o {
                    Some(x) => r.owner@ == x,
                    None => true,
                };
            let mut i: usize = 0;
            while i < repositories.len() && out.len() < VISIBLE_REPOSITORIES
                invariant
                    i <= repositories@.len(),
                    o == crate::dto::opt_view(*owner),
                    pick == (|r: GithubRepositoryDto|
                        match o {
                            Some(x) => r.owner@ == x,
                            None => true,
                        }),
                    out@ == repositories@.take(i as int).filter(pick),
                    out@.len() <= VISIBLE_REPOSITORIES,
                decreases repositories.len() - i,
            {
                proof {
                    reveal(Seq::filter);
                    assert(repositories@.take(i + 1).drop_last() =~= repositories@.take(i as int));
                }
                let r = &repositories[i];
                let keep = match owner {
                    Some(x) => text::str_eq(r.owner.as_str(), x.as_str()),
                    None => true,
                };
                assert(keep == pick(repositories@[i as int]));
                assert(repositories@.take(i + 1) =~= repositories@.take(i as int).push(repositories@[i as int]));
                if keep {
                    out.push(copy_repository(r));
                }
                i += 1;
            }
            proof {
                let all = owned_by(repositories@, o);
                assert(all == repositories@.filter(pick));
                if i == repositories@.len() {
                    assert(repositories@.take(i as int) =~= repositories@);
                    assert(out@ =~= first_n(all, VISIBLE_REPOSITORIES as int));
                } else {
                    lemma_filter_prefix(repositories@, pick, i as int);
                    assert(all.take(VISIBLE_REPOSITORIES as int) =~= out@);
                }
            }
        },
        _ => {},
    }
    out
}

/// The filter of a prefix is a prefix of the filter.
pub proof fn lemma_filter_prefix<T>(s: Seq<T>, pred: spec_fn(T) -> bool, i: int)
    requires
        0 <= i <= s.len(),
    ensures
        s.take(i).filter(pred).len() <= s.filter(pred).len(),
        s.filter(pred).take(s.take(i).filter(pred).len() as int) == s.take(i).filter(pred),
    decreases s.len() - i,
{
    if i == s.len() {
        assert(s.take(i) =~= s);
    } else {
        lemma_filter_prefix(s, pred, i + 1);
        reveal(Seq::filter);
        assert(s.take(i + 1).drop_last() =~= s.take(i));
        let a = s.take(i).filter(pred);
        let b = s.take(i + 1).filter(pred);
        if pred(s[i]) {
            assert(b == a.push(s[i]));
            assert(b.take(a.len() as int) =~= a);
            assert(s.filter(pred).take(a.len() as int) =~= s.filter(pred).take(b.len() as int).take(
                a.len() as int,
            ));
        } else {
            assert(b == a);
        }
    }
}

/// Whether the list marks its first row as chosen: nothing was picked, or
/// the picked repository is not shown.
pub open spec fn should_select_first_of(selected: Option<u64>, visible: Seq<GithubRepositoryDto>) -> bool {
    match selected {
        Some(id) => !lists_id(visible, id),
        None => true,
    }
}

/// Whether the list marks its first row as chosen.
pub fn should_select_first(selected_id: Option<u64>, visible_repositories: &[GithubRepositoryDto]) -> (r: bool)
    ensures
        r == should_select_first_of(selected_id, visible_repositories@),
{
    match selected_id {
        Some(id) => !has_repository_id(visible_repositories, id),
        None => true,
    }
}

/// Whether the row at `index`, showing the repository `repository_id`, is
/// marked as chosen.
pub fn repository_row_selected(
    selected_id: Option<u64>,
    repository_id: u64,
    select_first: bool,
    index: usize,
) -> (r: bool)
    ensures
        r == (selected_id == Some(repository_id) || (select_first && index == 0)),
{
    let picked = match selected_id {
        Some(id) => id == repository_id,
        None => false,
    };
    picked || (select_first && index == 0)
}

/// The label of a repository's visibility.
pub fn visibility_label(private: bool) -> (out: &'static str)
    ensures
        out@ == if private {
            "Private"@
        } else {
            "Public"@
        },
{
    if private {
        "Private"
    } else {
        "Public"
    }
}

// ---------------------------------------------------------------------------
// Choosing the translations directory
// ---------------------------------------------------------------------------

/// The directory chosen when a scan comes back: the suggested one, else the
/// first one listed.
pub open spec fn initial_directory_of(scan: ProjectScanDto) -> Option<Seq<char>> {
    match scan.suggested_locales_path {
        Some(p) => Some(p@),
        None => if scan.directories.len() > 0 {
            Some(scan.directories[0].path@)
        } else {
            None
        },
    }
}

/// The directory chosen when a scan comes back.
pub fn initial_locales_directory(scan: &ProjectScanDto) -> (out: Option<String>)
    ensures
        opt_view(out) == initial_directory_of(*scan),
{
    match &scan.suggested_locales_path {
        Some(p) => Some(p.clone()),
        None => if scan.directories.len() > 0 {
            Some(scan.directories[0].path.clone())
        } else {
            None
        },
    }
}

/// The first locale of the first listed directory whose path is `path`.
pub open spec fn directory_first_locale(dirs: Seq<FluentDirectoryDto>, path: Seq<char>) -> Option<Seq<char>>
    decreases dirs.len(),
{
    if dirs.len() == 0 {
        None
    } else if dirs[0].path@ == path {
        if dirs[0].locales.len() > 0 {
            Some(dirs[0].locales[0]@)
        } else {
            None
        }
    } else {
        directory_first_locale(dirs.drop_first(), path)
    }
}

/// The source locale set when onboarding finishes with `path`: the first
/// locale of that directory, else the scan's suggestion, else `en-US`.
pub open spec fn onboarding_source_locale_of(scan: ProjectScanDto, path: Seq<char>) -> Seq<char> {
    match directory_first_locale(scan.directories@, path) {
        Some(l) => l,
        None => match scan.suggested_source_locale {
            Some(s) => s@,
            None => "en-US"@,
        },
    }
}

/// The scan's suggested source locale, else `en-US`.
fn suggested_or_default_locale(scan: &ProjectScanDto) -> (out: String)
    ensures
        out@ == match scan.suggested_source_locale {
            Some(s) => s@,
            None => "en-US"@,
        },
{
    match &scan.suggested_source_locale {
        Some(s) => s.clone(),
        None => "en-US".to_string(),
    }
}

/// The source locale set when onboarding finishes with `locales_path`.
pub fn onboarding_source_locale(scan: &ProjectScanDto, locales_path: &str) -> (out: String)
    ensures
        out@ == onboarding_source_locale_of(*scan, locales_path@),
{
    let dirs = &scan.directories;
    let mut i: usize = 0;
    assert(dirs@.skip(0) =~= dirs@);
    while i < dirs.len()
        invariant
            i <= dirs@.len(),
            dirs@ == scan.directories@,
            directory_first_locale(dirs@, locales_path@) == directory_first_locale(
                dirs@.skip(i as int),
                locales_path@,
            ),
        decreases dirs.len() - i,
    {
        assert(dirs@.skip(i as int)[0] == dirs@[i as int]);
        if text::str_eq(dirs[i].path.as_str(), locales_path) {
            let ghost rest = dirs@.skip(i as int);
            assert(rest.len() > 0 && rest[0].path@ == locales_path@);
            if dirs[i].locales.len() > 0 {
                assert(directory_first_locale(rest, locales_path@) == Some(rest[0].locales@[0]@));
                return dirs[i].locales[0].clone();
            }
            assert(directory_first_locale(rest, locales_path@) is None);
            return suggested_or_default_locale(scan);
        }
        assert(dirs@.skip(i as int).drop_first() =~= dirs@.skip(i + 1));
        i += 1;
    }
    assert(dirs@.skip(i as int).len() == 0);
    suggested_or_default_locale(scan)
}

/// What the scan card's main button does.
pub enum ScanAction {
    /// Scan the repository.
    StartScan,
    /// Show a message and do nothing else.
    ShowError(String),
    /// Finish onboarding with this directory and source locale.
    Finish { locales_path: String, source_locale: String },
}

/// What the scan card's main button does, given the last scan's outcome and
/// the chosen directory.
pub fn scan_card_action(
    scan_result: &Option<Result<ProjectScanDto, String>>,
    selected_directory: Option<String>,
) -> (out: ScanAction)
    ensures
        match *scan_result {
            None => out is StartScan,
            Some(Err(e)) => (match out {
                ScanAction::ShowError(m) => m@ == e@,
                _ => false,
            }),
            Some(Ok(scan)) => match selected_directory {
                None => (match out {
                    ScanAction::ShowError(m) => m@ == "Choose a translation directory first."@,
                    _ => false,
                }),
                Some(p) => (match out {
                    ScanAction::Finish { locales_path, source_locale } => locales_path@ == p@
                        && source_locale@ == onboarding_source_locale_of(scan, p@),
                    _ => false,
                }),
            },
        },
{
    match scan_result {
        None => ScanAction::StartScan,
        Some(Err(e)) => ScanAction::ShowError(e.clone()),
        Some(Ok(scan)) => match selected_directory {
            None => ScanAction::ShowError("Choose a translation directory first.".to_string()),
            Some(locales_path) => {
                let source_locale = onboarding_source_locale(scan, locales_path.as_str());
                ScanAction::Finish { locales_path, source_locale }
            },
        },
    }
}

/// The label of the scan card's main button.
pub fn scan_button_label(scanning: bool, finishing: bool, has_successful_scan: bool) -> (out: &'static str)
    ensures
        out@ == if scanning {
            "Scanning..."@
        } else if finishing {
            "Finishing setup..."@
        } else if has_successful_scan {
            "Continue"@
        } else {
            "Scan repository"@
        },
{
    if scanning {
        "Scanning..."
    } else if finishing {
        "Finishing setup..."
    } else if has_successful_scan {
        "Continue"
    } else {
        "Scan repository"
    }
}

/// The files a scan result lists: those under the chosen directory, or all
/// of them while none is chosen.
pub fn scan_visible_files(scan: &ProjectScanDto, selected_directory: &Option<String>) -> (out: Vec<FluentFileDto>)
    ensures
        out@ == match *selected_directory {
            Some(p) => files_under(scan.files@, p@),
            None => scan.files@,
        },
{
    match selected_directory {
        Some(p) => files_in_directory(scan.files.as_slice(), p.as_str()),
        None => {
            let mut out: Vec<FluentFileDto> = Vec::new();
            for i in 0..scan.files.len()
                invariant
                    out@ == scan.files@.take(i as int),
            {
                out.push(copy_file(&scan.files[i]));
                assert(scan.files@.take(i + 1) =~= scan.files@.take(i as int).push(scan.files@[i as int]));
            }
            assert(scan.files@.take(scan.files@.len() as int) =~= scan.files@);
            out
        },
    }
}

// ---------------------------------------------------------------------------
// Importing a repository
// ---------------------------------------------------------------------------

/// Why a repository could not be imported.
#[derive(Debug, Clone, Copy, PartialEq, Eq, Structural)]
pub enum ImportError {
    /// No valid session.
    Unauthorized,
    /// The user has no linked GitHub account.
    MissingGithubAccount,
    /// The linked GitHub account has no access token.
    MissingGithubAccessToken,
    /// None of the user's repositories has the requested id.
    RepositoryNotFound,
}

/// The message that an import error is reported with.
pub open spec fn import_error_text(e: ImportError) -> Seq<char> {
    match e {
        ImportError::Unauthorized => "unauthorized"@,
        ImportError::MissingGithubAccount => "missing GitHub account"@,
        ImportError::MissingGithubAccessToken => "missing GitHub access token"@,
        ImportError::RepositoryNotFound => "repository not found"@,
    }
}

impl ImportError {
    /// The message this error is reported with.
    pub fn message(&self) -> (out: String)
        ensures
            out@ == import_error_text(*self),
    {
        match self {
            ImportError::Unauthorized => "unauthorized".to_string(),
            ImportError::MissingGithubAccount => "missing GitHub account".to_string(),
            ImportError::MissingGithubAccessToken => "missing GitHub access token".to_string(),
            ImportError::RepositoryNotFound => "repository not found".to_string(),
        }
    }
}

/// `i` is the first position of `repos` whose repository has the id `id`.
pub open spec fn is_first_with_id(repos: Seq<GithubRepository>, id: u64, i: int) -> bool {
    &&& 0 <= i < repos.len()
    &&& repos[i].id == id
    &&& forall|j: int| 0 <= j < i ==> (#[trigger] repos[j]).id != id
}

/// The first of the user's repositories with the requested id.
pub fn find_repository(repositories: Vec<GithubRepository>, repository_id: u64) -> (out: Result<GithubRepository, ImportError>)
    ensures
        match out {
            Ok(r) => exists|i: int| is_first_with_id(repositories@, repository_id, i) && r == repositories@[i],
            Err(e) => e == ImportError::RepositoryNotFound
                && forall|i: int| 0 <= i < repositories@.len() ==> (#[trigger] repositories@[i]).id != repository_id,
        },
{
    let mut pool = repositories;
    let n = pool.len();
    for i in 0..n
        invariant
            pool@ == repositories@,
            n == repositories@.len(),
            forall|j: int| 0 <= j < i ==> (#[trigger] repositories@[j]).id != repository_id,
    {
        if pool[i].id == repository_id {
            assert(is_first_with_id(repositories@, repository_id, i as int));
            let r = pool.remove(i);
            return Ok(r);
        }
    }
    Err(ImportError::RepositoryNotFound)
}

/// A project about to be created for an imported repository.
#[derive(Debug, Clone, PartialEq)]
pub struct NewProject {
    pub id: String,
    pub owner_id: String,
    pub name: String,
    pub slug: String,
    pub provider: String,
    pub repository_id: i64,
    pub repository_owner: String,
    pub repository_name: String,
    pub repository_full_name: String,
    pub repository_private: bool,
    pub default_branch: String,
    pub source_locale: Option<String>,
    pub locales_path: Option<String>,
}

/// `p` is the project created for `repository` on behalf of `owner_id`,
/// whatever its id: named and slugged after the repository, with no
/// translations directory or source locale chosen yet.
pub open spec fn describes_import(p: NewProject, owner_id: Seq<char>, repository: GithubRepository) -> bool {
    &&& p.owner_id@ == owner_id
    &&& p.name@ == repository.name@
    &&& p.slug@ == slug_of(repository.name@)
    &&& p.provider@ == "github"@
    &&& p.repository_id == repository.id as i64
    &&& p.repository_owner@ == repository.owner@
    &&& p.repository_name@ == repository.name@
    &&& p.repository_full_name@ == repository.full_name@
    &&& p.repository_private == repository.private
    &&& p.default_branch@ == repository.default_branch@
    &&& p.source_locale is None
    &&& p.locales_path is None
}

/// The project created for `repository`, with the id `id`.
pub fn project_record_for(id: String, owner_id: String, repository: &GithubRepository) -> (out: NewProject)
    ensures
        out.id@ == id@,
        describes_import(out, owner_id@, *repository),
{
    NewProject {
        id,
        owner_id,
        name: repository.name.clone(),
        slug: slugify(repository.name.as_str()),
        provider: "github".to_string(),
        repository_id: repository.id as i64,
        repository_owner: repository.owner.clone(),
        repository_name: repository.name.clone(),
        repository_full_name: repository.full_name.clone(),
        repository_private: repository.private,
        default_branch: repository.default_branch.clone(),
        source_locale: None,
        locales_path: None,
    }
}

/// A lower-case hexadecimal digit.
pub open spec fn is_lower_hex(c: char) -> bool {
    ||| '0' <= c <= '9'
    ||| 'a' <= c <= 'f'
}

/// A random (version 4) UUID in its hyphenated lower-case form: 36
/// characters, dashes at positions 8, 13, 18 and 23, the version digit `4`
/// at position 14, hexadecimal digits elsewhere.
pub open spec fn is_v4_uuid_text(s: Seq<char>) -> bool {
    &&& s.len() == 36
    &&& s[14] == '4'
    &&& forall|i: int|
        0 <= i < 36 ==> if i == 8 || i == 13 || i == 18 || i == 23 {
            #[trigger] s[i] == '-'
        } else {
            is_lower_hex(s[i])
        }
}

/// `uuid::Uuid::new_v4()` written with `to_string()`.  The UUID is random;
/// the contract states only its textual form, as the crate formats it
/// (hyphenated, lower case, version digit `4`).  The crate panics when the
/// system offers no random bytes, which no precondition can rule out.
#[verifier::external_body]
fn random_project_id() -> (out: String)
    ensures
        is_v4_uuid_text(out@),
{
    uuid::Uuid::new_v4().to_string()
}

/// A new project for `repository` on behalf of `owner_id`, with a fresh
/// random id.
pub fn new_project(owner_id: String, repository: &GithubRepository) -> (out: NewProject)
    ensures
        is_v4_uuid_text(out.id@),
        describes_import(out, owner_id@, *repository),
{
    let id = random_project_id();
    project_record_for(id, owner_id, repository)
}

// ---------------------------------------------------------------------------
// Laws
// ---------------------------------------------------------------------------

/// No two repositories of `repos` share an id, as with GitHub's ids.
pub open spec fn distinct_ids(repos: Seq<GithubRepositoryDto>) -> bool {
    forall|i: int, j: int| 0 <= i < j < repos.len() ==> #[trigger] repos[i].id != #[trigger] repos[j].id
}

/// The row the list marks as chosen is the repository that would be
/// imported.
pub proof fn lemma_marked_row_is_imported(selected: Option<u64>, visible: Seq<GithubRepositoryDto>, i: int)
    requires
        distinct_ids(visible),
        0 <= i < visible.len(),
    ensures
        (selected == Some(visible[i].id) || (should_select_first_of(selected, visible) && i == 0))
            <==> effective_repository_id_of(selected, visible) == Some(visible[i].id),
{
    match selected {
        Some(id) => {
            if !lists_id(visible, id) {
                if i != 0 {
                    assert(visible[0].id != visible[i].id);
                }
            }
        },
        None => {
            if i != 0 {
                assert(visible[0].id != visible[i].id);
            }
        },
    }
}

/// Whenever a repository is shown, one is chosen for import, and it is one
/// of those shown.
pub proof fn lemma_imported_is_shown(selected: Option<u64>, visible: Seq<GithubRepositoryDto>)
    ensures
        visible.len() > 0 ==> effective_repository_id_of(selected, visible) is Some,
        effective_repository_id_of(selected, visible) matches Some(id) ==> lists_id(visible, id),
{
    if visible.len() > 0 {
        assert(visible[0].id == visible[0].id);
    }
}

/// The list shows at most five repositories, all of the owner shown and
/// all among those GitHub listed.
pub proof fn lemma_visible_repositories(repos: Seq<GithubRepositoryDto>, owner: Option<Seq<char>>)
    ensures
        visible_of(Some(repos), owner).len() <= VISIBLE_REPOSITORIES,
        forall|i: int|
            0 <= i < visible_of(Some(repos), owner).len() ==> repos.contains(
                #[trigger] visible_of(Some(repos), owner)[i],
            ) && (owner matches Some(o) ==> visible_of(Some(repos), owner)[i].owner@ == o),
{
    broadcast use vstd::seq_lib::group_filter_ensures;

    let pred = |r: GithubRepositoryDto|
        match owner {
            Some(o) => r.owner@ == o,
            None => true,
        };
    let all = owned_by(repos, owner);
    assert(all == repos.filter(pred));
    let shown = visible_of(Some(repos), owner);
    assert forall|i: int| 0 <= i < shown.len() implies repos.contains(#[trigger] shown[i]) && (owner matches Some(
        o,
    ) ==> shown[i].owner@ == o) by {
        assert(shown[i] == all[i]);
        assert(pred(all[i]));
        assert(all.contains(all[i]));
        repos.lemma_filter_contains_rev(pred, all[i]);
    }
}

/// While nothing is picked, the owner shown is an owner of a listed
/// repository, when there is one.
pub proof fn lemma_owner_is_listed(repos: Seq<GithubRepositoryDto>, fallback: Seq<char>)
    ensures
        repos.len() > 0 ==> owners_of(repos).contains(effective_owner_of(Some(repos), None, fallback)),
        repos.len() == 0 ==> effective_owner_of(Some(repos), None, fallback) == fallback,
{
    if repos.len() > 0 {
        let owners = owners_of(repos);
        let least = choose|x: Seq<char>| is_least_text(x, owners);
        lemma_least_exists(owners);
        assert(is_least_text(least, owners));
    }
}

/// A non-empty sequence of texts has a least text.
pub proof fn lemma_least_exists(s: Seq<Seq<char>>)
    requires
        s.len() > 0,
    ensures
        exists|x: Seq<char>| is_least_text(x, s),
    decreases s.len(),
{
    if s.len() == 1 {
        text::lemma_seq_le_reflexive(s[0]);
        assert(is_least_text(s[0], s));
    } else {
        let rest = s.drop_last();
        lemma_least_exists(rest);
        let m = choose|x: Seq<char>| is_least_text(x, rest);
        let l = s.last();
        text::lemma_seq_le_total(m, l);
        if text::seq_le(m, l) {
            assert forall|i: int| 0 <= i < s.len() implies text::seq_le(m, #[trigger] s[i]) by {
                if i < rest.len() {
                    assert(rest[i] == s[i]);
                }
            }
            let j = choose|j: int| 0 <= j < rest.len() && rest[j] == m;
            assert(s[j] == m);
            assert(is_least_text(m, s));
        } else {
            assert forall|i: int| 0 <= i < s.len() implies text::seq_le(l, #[trigger] s[i]) by {
                if i < rest.len() {
                    assert(rest[i] == s[i]);
                    assert(text::seq_le(m, rest[i]));
                    text::lemma_seq_le_transitive(l, m, rest[i]);
                } else {
                    text::lemma_seq_le_reflexive(l);
                }
            }
            assert(s[s.len() - 1] == l);
            assert(is_least_text(l, s));
        }
    }
}

} // verus!
