use bitefluent::dto::FluentFileDto;
use bitefluent::github::GithubTreeFile;
use bitefluent::scan::{
    build_project_scan, detect_fluent_directories, files_in_directory, fluent_directory_for_path,
    fluent_files_in_tree, normalize_directory_path, score_fluent_directory, suggest_locales_path,
    suggest_source_locale,
};

fn file(path: &str, locale: Option<&str>) -> FluentFileDto {
    FluentFileDto { path: path.to_string(), locale: locale.map(|l| l.to_string()) }
}

fn blob(path: &str) -> GithubTreeFile {
    GithubTreeFile { path: path.to_string(), sha: format!("sha-{path}"), kind: "blob".to_string() }
}

fn chars(s: &str) -> Vec<char> {
    s.chars().collect()
}

#[test]
fn directory_paths_normalized() {
    assert_eq!(normalize_directory_path(&chars("/locales/")), chars("locales"));
    assert_eq!(normalize_directory_path(&chars("")), chars("."));
    assert_eq!(normalize_directory_path(&chars("// ")), chars("."));
}

#[test]
fn directory_for_path() {
    assert_eq!(fluent_directory_for_path("locales/en-US/main.ftl", Some("en-US")), "locales");
    assert_eq!(fluent_directory_for_path("locales/en_US/main.ftl", Some("en-US")), "locales");
    assert_eq!(fluent_directory_for_path("a/b/main.ftl", None), "a/b");
    assert_eq!(fluent_directory_for_path("main.ftl", None), ".");
    assert_eq!(fluent_directory_for_path("en/main.ftl", Some("en")), ".");
    assert_eq!(fluent_directory_for_path("/x/main.ftl", None), "x");
    assert_eq!(fluent_directory_for_path("a/b/fr.ftl", Some("fr")), "a/b");
}

#[test]
fn directory_scores() {
    assert_eq!(score_fluent_directory("locales", 2, 2), 72);
    assert_eq!(score_fluent_directory("examples/locales", 1, 1), -24);
    assert_eq!(score_fluent_directory("Node_Modules/x", 3, 0), -108);
    assert_eq!(score_fluent_directory("src/I18N", 0, 0), 40);
}

#[test]
fn files_under_directory() {
    let files = vec![file("locales/en.ftl", Some("en")), file("localesx/de.ftl", Some("de")), file("a.ftl", None)];
    assert_eq!(files_in_directory(&files, "locales"), vec![file("locales/en.ftl", Some("en"))]);
    assert_eq!(files_in_directory(&files, "."), files);
}

#[test]
fn source_locale_suggestions() {
    assert_eq!(suggest_source_locale(&[file("a", Some("de")), file("b", Some("en")), file("c", Some("en-US"))]), Some("en-US".to_string()));
    assert_eq!(suggest_source_locale(&[file("a", Some("en-GB")), file("b", Some("en"))]), Some("en".to_string()));
    assert_eq!(suggest_source_locale(&[file("a", None), file("b", Some("fr")), file("c", Some("de"))]), Some("fr".to_string()));
    assert_eq!(suggest_source_locale(&[file("a", None)]), None);
}

#[test]
fn locales_path_suggestion() {
    assert_eq!(suggest_locales_path(&[file("web/locales/de/x.ftl", Some("de"))]), Some("web/locales".to_string()));
    assert_eq!(suggest_locales_path(&[]), None);
}

#[test]
fn directories_ranked_with_first_recommended() {
    let files = vec![
        file("locales/en/main.ftl", Some("en")),
        file("locales/de/main.ftl", Some("de")),
        file("examples/locales/en/x.ftl", Some("en")),
        file("other/readme.ftl", None),
    ];
    let dirs = detect_fluent_directories(&files);
    assert_eq!(dirs.iter().map(|d| d.path.as_str()).collect::<Vec<_>>(), vec!["locales", "other", "examples/locales"]);
    assert_eq!(dirs.iter().map(|d| d.score).collect::<Vec<_>>(), vec![72, 4, -24]);
    assert_eq!(dirs[0].locales, vec!["de".to_string(), "en".to_string()]);
    assert_eq!(dirs[0].files_count, 2);
    assert!(dirs[1].locales.is_empty());
    assert_eq!(dirs.iter().filter(|d| d.recommended).count(), 1);
    assert!(dirs[0].recommended);
    for i in 0..dirs.len() {
        for j in (i + 1)..dirs.len() {
            assert_ne!(dirs[i].path, dirs[j].path);
        }
    }
    assert!(detect_fluent_directories(&[]).is_empty());
}

#[test]
fn directory_ties_broken_by_path() {
    let files = vec![file("b/x.ftl", None), file("a/y.ftl", None)];
    let dirs = detect_fluent_directories(&files);
    assert_eq!(dirs.iter().map(|d| d.path.as_str()).collect::<Vec<_>>(), vec!["a", "b"]);
}

#[test]
fn tree_scan() {
    let mut dir = blob("locales");
    dir.kind = "tree".to_string();
    let tree = vec![
        blob("locales/en/main.ftl"),
        blob("locales/de/main.ftl"),
        dir,
        blob("README.md"),
        blob("examples/locales/en/x.ftl"),
        blob("other/readme.ftl"),
    ];
    let files = fluent_files_in_tree(&tree);
    assert_eq!(files.len(), 4);
    assert_eq!(files[3], file("other/readme.ftl", None));
    let scan = build_project_scan("p1".to_string(), "ada/site".to_string(), &tree);
    assert_eq!(scan.project_id, "p1");
    assert_eq!(scan.repository_full_name, "ada/site");
    assert_eq!(scan.files, files);
    assert_eq!(scan.directories.len(), 3);
    assert_eq!(scan.suggested_locales_path, Some("locales".to_string()));
    assert_eq!(scan.suggested_source_locale, Some("en".to_string()));
    let empty = build_project_scan("p2".to_string(), "ada/empty".to_string(), &[blob("README.md")]);
    assert!(empty.files.is_empty());
    assert_eq!(empty.suggested_locales_path, None);
    assert_eq!(empty.suggested_source_locale, None);
}
