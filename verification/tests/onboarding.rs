use bitefluent::dto::{FluentDirectoryDto, FluentFileDto, ProjectScanDto};
use bitefluent::github::GithubRepository;
use bitefluent::onboarding::{
    effective_owner, effective_repository_id, find_repository, initial_locales_directory,
    new_project, onboarding_source_locale, placeholder_repository, project_record_for,
    repository_dto, repository_list_owner, repository_owners, repository_row_selected,
    scan_button_label, scan_card_action, scan_visible_files, should_select_first,
    visibility_label, visible_repositories, GithubRepositoryDto, ImportError, ScanAction,
};

fn repo(id: u64, owner: &str, name: &str) -> GithubRepositoryDto {
    GithubRepositoryDto {
        id,
        owner: owner.to_string(),
        name: name.to_string(),
        full_name: format!("{owner}/{name}"),
        private: false,
        default_branch: "main".to_string(),
    }
}

fn github_repo(id: u64, owner: &str, name: &str) -> GithubRepository {
    GithubRepository {
        id,
        owner: owner.to_string(),
        name: name.to_string(),
        full_name: format!("{owner}/{name}"),
        private: true,
        default_branch: "trunk".to_string(),
    }
}

fn dir(path: &str, locales: &[&str]) -> FluentDirectoryDto {
    FluentDirectoryDto {
        path: path.to_string(),
        files_count: 1,
        locales: locales.iter().map(|l| l.to_string()).collect(),
        recommended: false,
        score: 0,
    }
}

fn file(path: &str, locale: Option<&str>) -> FluentFileDto {
    FluentFileDto { path: path.to_string(), locale: locale.map(|l| l.to_string()) }
}

fn scan(suggested_path: Option<&str>, suggested_locale: Option<&str>, directories: Vec<FluentDirectoryDto>) -> ProjectScanDto {
    ProjectScanDto {
        project_id: "p1".to_string(),
        repository_full_name: "ada/site".to_string(),
        files: vec![
            file("locales/en-US/main.ftl", Some("en-US")),
            file("locales/de/main.ftl", Some("de")),
            file("docs/fr.ftl", Some("fr")),
        ],
        directories,
        suggested_locales_path: suggested_path.map(|p| p.to_string()),
        suggested_source_locale: suggested_locale.map(|l| l.to_string()),
    }
}

#[test]
fn repository_dto_copies_fields() {
    let dto = repository_dto(github_repo(9, "ada", "site"));
    assert_eq!(dto.id, 9);
    assert_eq!(dto.owner, "ada");
    assert_eq!(dto.name, "site");
    assert_eq!(dto.full_name, "ada/site");
    assert!(dto.private);
    assert_eq!(dto.default_branch, "trunk");
}

#[test]
fn repository_owners_sorted_and_unique() {
    let repos = vec![repo(1, "zed", "a"), repo(2, "ada", "b"), repo(3, "zed", "c"), repo(4, "Bob", "d")];
    assert_eq!(repository_owners(&repos), vec!["Bob".to_string(), "ada".to_string(), "zed".to_string()]);
    assert!(repository_owners(&[]).is_empty());
}

#[test]
fn effective_owner_choices() {
    let loaded: Option<Result<Vec<GithubRepositoryDto>, String>> =
        Some(Ok(vec![repo(1, "zed", "a"), repo(2, "ada", "b")]));
    assert_eq!(effective_owner(&loaded, Some("zed".to_string()), "Me".to_string()), "zed");
    assert_eq!(effective_owner(&loaded, None, "Me".to_string()), "ada");
    let empty: Option<Result<Vec<GithubRepositoryDto>, String>> = Some(Ok(Vec::new()));
    assert_eq!(effective_owner(&empty, None, "Me".to_string()), "Me");
    let failed: Option<Result<Vec<GithubRepositoryDto>, String>> = Some(Err("x".to_string()));
    assert_eq!(effective_owner(&failed, None, "Me".to_string()), "Me");
    let loading: Option<Result<Vec<GithubRepositoryDto>, String>> = None;
    assert_eq!(effective_owner(&loading, None, "Me".to_string()), "Me");
}

#[test]
fn effective_repository_id_choices() {
    let visible = vec![repo(5, "ada", "a"), repo(7, "ada", "b")];
    assert_eq!(effective_repository_id(Some(7), &visible), Some(7));
    assert_eq!(effective_repository_id(Some(99), &visible), Some(5));
    assert_eq!(effective_repository_id(None, &visible), Some(5));
    assert_eq!(effective_repository_id(Some(7), &[]), None);
}

#[test]
fn placeholder_repository_fields() {
    let p = placeholder_repository(2);
    assert_eq!(p, GithubRepositoryDto {
        id: 2,
        owner: "owner".to_string(),
        name: "repository".to_string(),
        full_name: "owner/repository".to_string(),
        private: true,
        default_branch: "main".to_string(),
    });
}

#[test]
fn list_owner_and_visible_repositories() {
    let repos: Vec<GithubRepositoryDto> = (1..=8).map(|i| repo(i, if i % 2 == 0 { "ada" } else { "zed" }, "r")).collect();
    let state: Option<Result<Vec<GithubRepositoryDto>, String>> = Some(Ok(repos.clone()));
    let owner = repository_list_owner(&state, None);
    assert_eq!(owner, Some("ada".to_string()));
    let shown = visible_repositories(&state, &owner);
    assert_eq!(shown.iter().map(|r| r.id).collect::<Vec<_>>(), vec![2, 4, 6, 8]);
    let all = visible_repositories(&state, &None);
    assert_eq!(all.iter().map(|r| r.id).collect::<Vec<_>>(), vec![1, 2, 3, 4, 5]);
    assert_eq!(repository_list_owner(&state, Some("zed".to_string())), Some("zed".to_string()));
    let loading: Option<Result<Vec<GithubRepositoryDto>, String>> = None;
    assert_eq!(repository_list_owner(&loading, Some("zed".to_string())), None);
    assert!(visible_repositories(&loading, &None).is_empty());
}

#[test]
fn marked_row_is_the_imported_repository() {
    let visible = vec![repo(5, "ada", "a"), repo(7, "ada", "b"), repo(9, "ada", "c")];
    for selected in [None, Some(7), Some(42)] {
        let first = should_select_first(selected, &visible);
        let chosen = effective_repository_id(selected, &visible);
        for (index, r) in visible.iter().enumerate() {
            let marked = repository_row_selected(selected, r.id, first, index);
            assert_eq!(marked, chosen == Some(r.id));
        }
    }
    assert!(should_select_first(None, &visible));
    assert!(!should_select_first(Some(9), &visible));
    assert!(should_select_first(Some(10), &visible));
}

#[test]
fn visibility_labels() {
    assert_eq!(visibility_label(true), "Private");
    assert_eq!(visibility_label(false), "Public");
}

#[test]
fn initial_directory_prefers_suggestion() {
    let s = scan(Some("locales"), None, vec![dir("docs", &["fr"]), dir("locales", &["de", "en-US"])]);
    assert_eq!(initial_locales_directory(&s), Some("locales".to_string()));
    let s = scan(None, None, vec![dir("docs", &["fr"])]);
    assert_eq!(initial_locales_directory(&s), Some("docs".to_string()));
    let s = scan(None, None, Vec::new());
    assert_eq!(initial_locales_directory(&s), None);
}

#[test]
fn source_locale_on_finish() {
    let s = scan(Some("locales"), Some("en-US"), vec![dir("locales", &["de", "en-US"]), dir("empty", &[])]);
    assert_eq!(onboarding_source_locale(&s, "locales"), "de");
    assert_eq!(onboarding_source_locale(&s, "empty"), "en-US");
    assert_eq!(onboarding_source_locale(&s, "missing"), "en-US");
    let s = scan(None, None, vec![dir("empty", &[])]);
    assert_eq!(onboarding_source_locale(&s, "empty"), "en-US");
    let s = scan(None, Some("fr"), Vec::new());
    assert_eq!(onboarding_source_locale(&s, "docs"), "fr");
}

#[test]
fn scan_card_actions() {
    assert!(matches!(scan_card_action(&None, None), ScanAction::StartScan));
    match scan_card_action(&Some(Err("scan failed".to_string())), Some("x".to_string())) {
        ScanAction::ShowError(m) => assert_eq!(m, "scan failed"),
        _ => panic!("a failed scan is reported"),
    }
    let s = scan(Some("locales"), Some("en-US"), vec![dir("locales", &["en-US"])]);
    match scan_card_action(&Some(Ok(s.clone())), None) {
        ScanAction::ShowError(m) => assert_eq!(m, "Choose a translation directory first."),
        _ => panic!("a directory must be chosen"),
    }
    match scan_card_action(&Some(Ok(s)), Some("locales".to_string())) {
        ScanAction::Finish { locales_path, source_locale } => {
            assert_eq!(locales_path, "locales");
            assert_eq!(source_locale, "en-US");
        }
        _ => panic!("onboarding finishes"),
    }
}

#[test]
fn scan_button_labels() {
    assert_eq!(scan_button_label(true, true, true), "Scanning...");
    assert_eq!(scan_button_label(false, true, true), "Finishing setup...");
    assert_eq!(scan_button_label(false, false, true), "Continue");
    assert_eq!(scan_button_label(false, false, false), "Scan repository");
}

#[test]
fn scan_visible_files_by_directory() {
    let s = scan(None, None, Vec::new());
    let files = scan_visible_files(&s, &Some("locales".to_string()));
    assert_eq!(files.iter().map(|f| f.path.as_str()).collect::<Vec<_>>(), vec!["locales/en-US/main.ftl", "locales/de/main.ftl"]);
    assert_eq!(scan_visible_files(&s, &Some(".".to_string())).len(), 3);
    assert_eq!(scan_visible_files(&s, &None).len(), 3);
    assert!(scan_visible_files(&s, &Some("loc".to_string())).is_empty());
}

#[test]
fn import_error_messages() {
    assert_eq!(ImportError::Unauthorized.message(), "unauthorized");
    assert_eq!(ImportError::MissingGithubAccount.message(), "missing GitHub account");
    assert_eq!(ImportError::MissingGithubAccessToken.message(), "missing GitHub access token");
    assert_eq!(ImportError::RepositoryNotFound.message(), "repository not found");
}

#[test]
fn find_repository_by_id() {
    let repos = vec![github_repo(1, "ada", "a"), github_repo(2, "ada", "b")];
    assert_eq!(find_repository(repos.clone(), 2).unwrap().name, "b");
    assert_eq!(find_repository(repos, 3).unwrap_err(), ImportError::RepositoryNotFound);
}

#[test]
fn new_project_records() {
    let r = github_repo(77, "ada", "My Site!");
    let p = project_record_for("id-1".to_string(), "owner-1".to_string(), &r);
    assert_eq!(p.id, "id-1");
    assert_eq!(p.owner_id, "owner-1");
    assert_eq!(p.name, "My Site!");
    assert_eq!(p.slug, "my-site");
    assert_eq!(p.provider, "github");
    assert_eq!(p.repository_id, 77);
    assert_eq!(p.repository_owner, "ada");
    assert_eq!(p.repository_name, "My Site!");
    assert_eq!(p.repository_full_name, "ada/My Site!");
    assert!(p.repository_private);
    assert_eq!(p.default_branch, "trunk");
    assert_eq!(p.source_locale, None);
    assert_eq!(p.locales_path, None);
}

#[test]
fn new_project_gets_random_uuid() {
    let r = github_repo(77, "ada", "site");
    let a = new_project("owner-1".to_string(), &r);
    let b = new_project("owner-1".to_string(), &r);
    let id: Vec<char> = a.id.chars().collect();
    assert_eq!(id.len(), 36);
    for (i, c) in id.iter().enumerate() {
        if i == 8 || i == 13 || i == 18 || i == 23 {
            assert_eq!(*c, '-');
        } else {
            assert!(c.is_ascii_digit() || ('a'..='f').contains(c));
        }
    }
    assert_eq!(id[14], '4');
    assert_ne!(a.id, b.id);
    assert_eq!(a.slug, "site");
}
