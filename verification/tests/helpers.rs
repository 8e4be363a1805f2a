use bitefluent::dto::{map_project, ProjectRecord};
use bitefluent::helpers::{session_cookie, slug_from_lowercase, slugify};

#[test]
fn slugify_basic() {
    assert_eq!(slugify("  My Repo!  "), "my-repo");
}

#[test]
fn slugify_runs_and_unicode() {
    assert_eq!(slugify("Hello__World--2024"), "hello-world-2024");
    assert_eq!(slugify("ÄBC déf"), "bc-d-f");
    assert_eq!(slugify("!!!"), "");
    assert_eq!(slugify(""), "");
    assert_eq!(slug_from_lowercase("a b"), "a-b");
}

#[test]
fn slugify_is_idempotent_example() {
    for value in ["  My Repo!  ", "a--b", "-x-", "Fluent_Site 2"] {
        let once = slugify(value);
        assert_eq!(slugify(&once), once);
        assert!(!once.starts_with('-') && !once.ends_with('-') && !once.contains("--"));
    }
}

#[test]
fn session_cookie_lookup() {
    let header = "theme=dark; bitefluent.session=abc123; other=1";
    assert_eq!(session_cookie(header, "bitefluent.session"), Some("abc123".to_string()));
    assert_eq!(session_cookie(header, "missing"), None);
    assert_eq!(session_cookie("a=1; a=2", "a"), Some("1".to_string()));
    assert_eq!(session_cookie("flag; token=x=y", "token"), Some("x=y".to_string()));
    assert_eq!(session_cookie("", "a"), None);
}

#[test]
fn session_cookie_reads_back_what_was_set() {
    assert_eq!(session_cookie("bitefluent.session=tok", "bitefluent.session"), Some("tok".to_string()));
    assert_eq!(session_cookie("k=", "k"), Some(String::new()));
}

#[test]
fn stored_project_to_dto() {
    let dto = map_project(ProjectRecord {
        id: "p1".to_string(),
        name: "Site".to_string(),
        slug: "site".to_string(),
        repository_full_name: "ada/site".to_string(),
        repository_owner: "ada".to_string(),
        repository_name: "site".to_string(),
        default_branch: "main".to_string(),
        source_locale: Some("en".to_string()),
        locales_path: None,
    });
    assert_eq!(dto.id, "p1");
    assert_eq!(dto.name, "Site");
    assert_eq!(dto.slug, "site");
    assert_eq!(dto.repository_full_name, "ada/site");
    assert_eq!(dto.repository_owner, "ada");
    assert_eq!(dto.repository_name, "site");
    assert_eq!(dto.default_branch, "main");
    assert_eq!(dto.source_locale, Some("en".to_string()));
    assert_eq!(dto.locales_path, None);
}

#[test]
fn slugify_ascii_is_small_and_joins() {
    for (a, b) in [("My Repo", "Docs!"), ("  Alpha  ", "BETA_2"), ("x", "Y")] {
        let joined = slugify(&format!("{a} {b}"));
        assert_eq!(joined, format!("{}-{}", slugify(a), slugify(b)));
        assert!(joined.chars().all(|c| c.is_ascii_lowercase() || c.is_ascii_digit() || c == '-'));
        assert_eq!(slugify(&joined), joined);
    }
}
