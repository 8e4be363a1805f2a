use bitefluent::dto::{ProjectDto, ProjectSyncProgressDto, ProjectWorkspaceFileDto, ProjectWorkspaceKeyDto};
use bitefluent::project_view::{
    current_file, current_key, file_group_label, group_workspace_files, humanize_group_name,
    keys_count_label, locale_match_key, locale_matches, selected_entry, source_workspace_files,
    sync_button_label, visible_keys, SyncButton, SyncEvent, SyncStep,
};

fn project(source_locale: Option<&str>) -> ProjectDto {
    ProjectDto {
        id: "p1".to_string(),
        name: "site".to_string(),
        slug: "site".to_string(),
        repository_full_name: "ada/site".to_string(),
        repository_owner: "ada".to_string(),
        repository_name: "site".to_string(),
        default_branch: "main".to_string(),
        source_locale: source_locale.map(|s| s.to_string()),
        locales_path: None,
    }
}

fn wfile(path: &str, locale: Option<&str>) -> ProjectWorkspaceFileDto {
    let name = path.rsplit('/').next().unwrap().to_string();
    ProjectWorkspaceFileDto {
        path: path.to_string(),
        sha: format!("sha-{path}"),
        locale: locale.map(|l| l.to_string()),
        name,
    }
}

fn key(k: &str, file: &str, value: &str) -> ProjectWorkspaceKeyDto {
    ProjectWorkspaceKeyDto {
        key: k.to_string(),
        file_path: file.to_string(),
        locale: Some("en".to_string()),
        value: value.to_string(),
    }
}

fn progress(total: usize, processed: usize, message: &str, done: bool, error: Option<&str>) -> ProjectSyncProgressDto {
    ProjectSyncProgressDto {
        total_files: total,
        processed_files: processed,
        keys_count: 0,
        translations_count: 0,
        locales_count: 0,
        message: message.to_string(),
        done,
        error: error.map(|e| e.to_string()),
    }
}

#[test]
fn locale_matching_ignores_case_and_underscores() {
    assert_eq!(locale_match_key("en_US"), "en-us");
    assert!(locale_matches(Some("en_US"), "EN-us"));
    assert!(locale_matches(Some("de"), "de"));
    assert!(!locale_matches(Some("de"), "en"));
    assert!(!locale_matches(None, "en"));
}

#[test]
fn locale_matching_is_symmetric_example() {
    assert_eq!(locale_matches(Some("pt_BR"), "PT-br"), locale_matches(Some("PT-br"), "pt_BR"));
    assert!(locale_matches(Some("pt_BR"), "pt_BR"));
}

#[test]
fn sidebar_lists_source_locale_files() {
    let files = vec![
        wfile("locales/en-US/main.ftl", Some("en-US")),
        wfile("locales/de/main.ftl", Some("de")),
        wfile("locales/en_us/extra.ftl", Some("en_us")),
        wfile("misc.ftl", None),
    ];
    let kept = source_workspace_files(&project(Some("en-US")), &files);
    assert_eq!(kept.iter().map(|f| f.path.as_str()).collect::<Vec<_>>(), vec!["locales/en-US/main.ftl", "locales/en_us/extra.ftl"]);
    assert_eq!(source_workspace_files(&project(None), &files).len(), 4);
}

#[test]
fn group_labels() {
    assert_eq!(humanize_group_name("web_app-ui"), "web app ui");
    assert_eq!(file_group_label("locales/en-US/main.ftl", "main.ftl"), "General");
    assert_eq!(file_group_label("apps/web_app/locales/en/main.ftl", "main.ftl"), "web app");
    assert_eq!(file_group_label("main.ftl", "main.ftl"), "General");
    assert_eq!(file_group_label("packages/admin-panel/i18n/main.ftl", "main.ftl"), "admin panel");
    assert_eq!(file_group_label("lang/fr_FR/x.ftl", "other.ftl"), "x.ftl");
}

#[test]
fn grouping_sorts_groups_and_files() {
    let files = vec![
        wfile("webapp/locales/en/z.ftl", Some("en")),
        wfile("backend/locales/en/b.ftl", Some("en")),
        wfile("webapp/locales/en/a.ftl", Some("en")),
        wfile("locales/en/main.ftl", Some("en")),
    ];
    let groups = group_workspace_files(files.clone());
    assert_eq!(groups.iter().map(|g| g.name.as_str()).collect::<Vec<_>>(), vec!["General", "backend", "webapp"]);
    assert_eq!(groups[2].files.iter().map(|f| f.path.as_str()).collect::<Vec<_>>(), vec!["webapp/locales/en/a.ftl", "webapp/locales/en/z.ftl"]);
    assert_eq!(groups[1].files.len(), 1);
    assert_eq!(groups[0].files[0].path, "locales/en/main.ftl");
    let total: usize = groups.iter().map(|g| g.files.len()).sum();
    assert_eq!(total, files.len());
    assert!(group_workspace_files(Vec::new()).is_empty());
}

#[test]
fn grouping_orders_equal_names_by_path() {
    let files = vec![wfile("x/b/main.ftl", Some("en")), wfile("x/a/main.ftl", Some("en"))];
    let groups = group_workspace_files(files);
    assert_eq!(groups.iter().map(|g| g.name.as_str()).collect::<Vec<_>>(), vec!["a", "b"]);
    let files = vec![wfile("en/main.ftl", Some("en")), wfile("de/main.ftl", Some("de"))];
    let groups = group_workspace_files(files);
    assert_eq!(groups.len(), 1);
    assert_eq!(groups[0].files.iter().map(|f| f.path.as_str()).collect::<Vec<_>>(), vec!["de/main.ftl", "en/main.ftl"]);
}

#[test]
fn workspace_selection_defaults() {
    let files = vec![wfile("a.ftl", Some("en")), wfile("b.ftl", Some("en"))];
    let keys = vec![key("hello", "b.ftl", "Hi"), key("bye", "a.ftl", "Bye"), key("hello", "a.ftl", "Hello"), key("hello", "a.ftl", "Again")];
    let file = current_file(None, &files);
    assert_eq!(file, Some("a.ftl".to_string()));
    assert_eq!(current_file(Some("b.ftl".to_string()), &files), Some("b.ftl".to_string()));
    assert_eq!(current_file(None, &[]), None);
    let visible = visible_keys(&keys, &file);
    assert_eq!(visible.iter().map(|k| k.value.as_str()).collect::<Vec<_>>(), vec!["Bye", "Hello", "Again"]);
    assert!(visible_keys(&keys, &None).is_empty());
    let k = current_key(None, &visible);
    assert_eq!(k, Some("bye".to_string()));
    assert_eq!(current_key(None, &[]), None);
    assert_eq!(selected_entry(&visible, &k).unwrap().value, "Bye");
    assert_eq!(selected_entry(&visible, &Some("hello".to_string())).unwrap().value, "Hello");
    assert_eq!(selected_entry(&visible, &Some("nope".to_string())), None);
    assert_eq!(selected_entry(&visible, &None), None);
}

#[test]
fn keys_count_labels() {
    assert_eq!(keys_count_label(0), "0 keys");
    assert_eq!(keys_count_label(1), "1 key");
    assert_eq!(keys_count_label(2), "2 keys");
    assert_eq!(keys_count_label(120), "120 keys");
}

#[test]
fn sync_button_labels() {
    assert_eq!(sync_button_label(false, Some(progress(3, 1, "x", false, None))), "Sync repository");
    assert_eq!(sync_button_label(true, None), "Syncing...");
    assert_eq!(sync_button_label(true, Some(progress(3, 1, "x", true, None))), "Synced");
    assert_eq!(sync_button_label(true, Some(progress(12, 3, "x", false, None))), "Syncing 3/12");
    assert_eq!(sync_button_label(true, Some(progress(3, 3, "Saving translations...", false, None))), "Saving translations...");
    assert_eq!(sync_button_label(true, Some(progress(0, 0, "", false, None))), "Syncing...");
}

#[test]
fn sync_button_run_that_completes() {
    let mut button = SyncButton::new();
    assert_eq!(button.label(), "Sync repository");
    assert!(button.press());
    assert!(!button.press());
    assert_eq!(button.label(), "Syncing...");
    assert!(matches!(button.observe(SyncEvent::Progress(progress(2, 1, "Synced a.ftl", false, None))), SyncStep::Continue));
    assert_eq!(button.label(), "Syncing 1/2");
    match button.observe(SyncEvent::Progress(progress(2, 2, "Sync complete", true, None))) {
        SyncStep::Stop { synced } => assert!(synced),
        SyncStep::Continue => panic!("a final report stops the run"),
    }
    assert!(!button.syncing);
    assert_eq!(button.error, None);
    assert_eq!(button.label(), "Sync repository");
}

#[test]
fn sync_button_run_that_fails() {
    let mut button = SyncButton::new();
    assert!(button.press());
    match button.observe(SyncEvent::Progress(progress(0, 0, "Sync failed", true, Some("boom")))) {
        SyncStep::Stop { synced } => assert!(!synced),
        SyncStep::Continue => panic!("a final report stops the run"),
    }
    assert_eq!(button.error, Some("boom".to_string()));
    assert!(button.press());
    assert_eq!(button.error, None);
    match button.observe(SyncEvent::StreamFailed("lost".to_string())) {
        SyncStep::Stop { synced } => assert!(!synced),
        SyncStep::Continue => panic!("a failure stops the run"),
    }
    assert_eq!(button.error, Some("lost".to_string()));
    assert!(button.press());
    assert!(matches!(button.observe(SyncEvent::StartFailed("no".to_string())), SyncStep::Stop { synced: false }));
    assert!(button.press());
    assert!(matches!(button.observe(SyncEvent::Ended), SyncStep::Stop { synced: false }));
    assert!(!button.syncing);
}
