use bitefluent::dto::{ProjectDto, ProjectWorkspaceKeyDto};
use bitefluent::github::GithubTreeFile;
use bitefluent::workspace::{build_project_workspace, collect_workspace_files, file_name_of, select_workspace_files};

fn blob(path: &str) -> GithubTreeFile {
    GithubTreeFile { path: path.to_string(), sha: format!("sha-{path}"), kind: "blob".to_string() }
}

fn key(k: &str, file: &str) -> ProjectWorkspaceKeyDto {
    ProjectWorkspaceKeyDto { key: k.to_string(), file_path: file.to_string(), locale: None, value: format!("{file}:{k}") }
}

#[test]
fn workspace_file_names() {
    assert_eq!(file_name_of("locales/en/main.ftl"), "main.ftl");
    assert_eq!(file_name_of("main.ftl"), "main.ftl");
}

#[test]
fn workspace_files_selected_and_sorted() {
    let tree = vec![blob("locales/en/b.ftl"), blob("README.md"), blob("locales/de/a.ftl"), blob("top.ftl"), blob("locales/en/a.ftl")];
    let selected = select_workspace_files(&tree, None);
    assert_eq!(selected.len(), 4);
    assert_eq!(selected[0].name, "b.ftl");
    assert_eq!(selected[0].locale, Some("en".to_string()));
    assert_eq!(selected[2].locale, None);
    let sorted = collect_workspace_files(&tree, None);
    assert_eq!(sorted.iter().map(|f| f.path.as_str()).collect::<Vec<_>>(), vec!["top.ftl", "locales/de/a.ftl", "locales/en/a.ftl", "locales/en/b.ftl"]);
    let with_source = collect_workspace_files(&tree, Some("fr"));
    assert_eq!(with_source.iter().map(|f| f.path.as_str()).collect::<Vec<_>>(), vec!["locales/de/a.ftl", "locales/en/a.ftl", "locales/en/b.ftl", "top.ftl"]);
}

#[test]
fn workspace_keys_sorted_by_file_then_key() {
    let project = ProjectDto {
        id: "p1".to_string(),
        name: "site".to_string(),
        slug: "site".to_string(),
        repository_full_name: "ada/site".to_string(),
        repository_owner: "ada".to_string(),
        repository_name: "site".to_string(),
        default_branch: "main".to_string(),
        source_locale: None,
        locales_path: None,
    };
    let keys = vec![key("z", "b.ftl"), key("a", "b.ftl"), key("m", "a.ftl"), key("a", "b.ftl")];
    let ws = build_project_workspace(project.clone(), Vec::new(), keys);
    assert_eq!(ws.project, project);
    assert!(ws.files.is_empty());
    assert_eq!(ws.keys.iter().map(|k| (k.file_path.as_str(), k.key.as_str())).collect::<Vec<_>>(), vec![("a.ftl", "m"), ("b.ftl", "a"), ("b.ftl", "a"), ("b.ftl", "z")]);
}
