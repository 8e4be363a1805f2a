use bitefluent::fluent::ParsedFluentEntry;
use bitefluent::github::GithubTreeFile;
use bitefluent::sync::{
    add_locale_entries, changed_source_paths, changed_sync_files, collect_sync_files,
    deleted_file_paths, deletes_source_keys, existing_file_shas, failed_progress, found_progress,
    key_ids_by_key, needs_key_ids, scanning_progress, select_sync_files, source_entries,
    stale_source_key_ids, starting_progress, sync_locales, sync_result, sync_scope,
    translation_values, LocaleEntries, StoredFileSha, StoredTranslationKey, SyncFile, SyncRun,
    SyncSession, SyncStage,
};

fn blob(path: &str, sha: &str) -> GithubTreeFile {
    GithubTreeFile { path: path.to_string(), sha: sha.to_string(), kind: "blob".to_string() }
}

fn sfile(path: &str, sha: &str, locale: Option<&str>) -> SyncFile {
    SyncFile { path: path.to_string(), sha: sha.to_string(), locale: locale.map(|l| l.to_string()) }
}

fn stored(path: &str, sha: &str) -> StoredFileSha {
    StoredFileSha { path: path.to_string(), sha: sha.to_string() }
}

fn entry(key: &str, file: &str, value: &str) -> ParsedFluentEntry {
    ParsedFluentEntry { key: key.to_string(), file_path: file.to_string(), value: value.to_string() }
}

fn key_row(id: &str, key: &str) -> StoredTranslationKey {
    StoredTranslationKey { id: id.to_string(), key: key.to_string() }
}

#[test]
fn sync_scope_needs_source_locale() {
    assert_eq!(sync_scope(&None, &Some("locales".to_string())), Err("project source locale is not set".to_string()));
    assert_eq!(sync_scope(&Some("en".to_string()), &None), Ok(("en".to_string(), ".".to_string())));
    assert_eq!(sync_scope(&Some("en".to_string()), &Some("locales".to_string())), Ok(("en".to_string(), "locales".to_string())));
}

#[test]
fn sync_files_selected_and_sorted() {
    let mut tree_dir = blob("locales", "t");
    tree_dir.kind = "tree".to_string();
    let tree = vec![blob("locales/de/main.ftl", "1"), blob("notes.md", "2"), tree_dir, blob("main.ftl", "3"), blob("locales/de/a.ftl", "4")];
    let selected = select_sync_files(&tree, "en");
    assert_eq!(selected, vec![sfile("locales/de/main.ftl", "1", Some("de")), sfile("main.ftl", "3", Some("en")), sfile("locales/de/a.ftl", "4", Some("de"))]);
    let sorted = collect_sync_files(&tree, "en");
    assert_eq!(sorted.iter().map(|f| f.path.as_str()).collect::<Vec<_>>(), vec!["locales/de/a.ftl", "locales/de/main.ftl", "main.ftl"]);
    assert_eq!(sync_locales(&sorted), vec!["de".to_string(), "en".to_string()]);
}

#[test]
fn changes_against_stored_shas() {
    let existing = existing_file_shas(&[stored("b.ftl", "old"), stored("a.ftl", "1"), stored("gone.ftl", "9"), stored("b.ftl", "2")]);
    assert_eq!(existing, vec![stored("a.ftl", "1"), stored("b.ftl", "2"), stored("gone.ftl", "9")]);
    let files = vec![sfile("a.ftl", "1", Some("en")), sfile("b.ftl", "3", Some("en")), sfile("new.ftl", "5", Some("de"))];
    let changed = changed_sync_files(&files, &existing);
    assert_eq!(changed.iter().map(|f| f.path.as_str()).collect::<Vec<_>>(), vec!["b.ftl", "new.ftl"]);
    assert_eq!(deleted_file_paths(&existing, &files), vec!["gone.ftl".to_string()]);
}

#[test]
fn unchanged_repository_reads_nothing() {
    let files = vec![sfile("a.ftl", "1", Some("en")), sfile("b.ftl", "2", Some("de"))];
    let existing = existing_file_shas(&[stored("a.ftl", "1"), stored("b.ftl", "2")]);
    assert!(changed_sync_files(&files, &existing).is_empty());
    assert!(deleted_file_paths(&existing, &files).is_empty());
}

#[test]
fn locale_entries_and_translations() {
    let mut groups: Vec<LocaleEntries> = Vec::new();
    add_locale_entries(&mut groups, "en".to_string(), vec![entry("hello", "en.ftl", "Hello"), entry("bye", "en.ftl", "Bye")]);
    add_locale_entries(&mut groups, "de".to_string(), vec![entry("hello", "de.ftl", "Hallo")]);
    add_locale_entries(&mut groups, "de".to_string(), vec![entry("hello", "de2.ftl", "Servus"), entry("extra", "de2.ftl", "X")]);
    assert_eq!(groups.iter().map(|g| g.locale.as_str()).collect::<Vec<_>>(), vec!["de", "en"]);
    assert_eq!(groups[0].entries.len(), 3);
    let source = source_entries(&groups, "en");
    assert_eq!(source, vec![entry("bye", "en.ftl", "Bye"), entry("hello", "en.ftl", "Hello")]);
    assert!(source_entries(&groups, "fr").is_empty());
    assert!(needs_key_ids(&groups, "en"));
    assert!(!needs_key_ids(&groups[1..], "en"));
    let ids = key_ids_by_key(&[key_row("k2", "hello"), key_row("k1", "bye"), key_row("k3", "hello")]);
    assert_eq!(ids, vec![key_row("k1", "bye"), key_row("k3", "hello")]);
    let values = translation_values(&groups, "en", &ids);
    assert_eq!(values.len(), 1);
    assert_eq!(values[0].key_id, "k3");
    assert_eq!(values[0].locale, "de");
    assert_eq!(values[0].file_path, "de2.ftl");
    assert_eq!(values[0].value, "Servus");
}

#[test]
fn source_cleanup_decisions() {
    let changed = vec![sfile("en/a.ftl", "1", Some("en")), sfile("de/a.ftl", "2", Some("de")), sfile("x.ftl", "3", None)];
    assert_eq!(changed_source_paths(&changed, "en"), vec!["en/a.ftl".to_string()]);
    let source = vec![entry("hello", "en/a.ftl", "Hello")];
    let existing = vec![key_row("k1", "hello"), key_row("k2", "gone")];
    assert_eq!(stale_source_key_ids(&source, "en/a.ftl", &existing), vec!["k2".to_string()]);
    assert_eq!(stale_source_key_ids(&source, "en/b.ftl", &existing), vec!["k1".to_string(), "k2".to_string()]);
    assert!(deletes_source_keys("main.ftl", "en"));
    assert!(deletes_source_keys("en_US/main.ftl", "en-US"));
    assert!(!deletes_source_keys("de/main.ftl", "en"));
}

#[test]
fn progress_reports() {
    let p = starting_progress();
    assert_eq!((p.total_files, p.processed_files, p.message.as_str(), p.done, p.error.clone()), (0, 0, "Starting sync...", false, None));
    assert_eq!(scanning_progress().message, "Scanning repository...");
    let f = failed_progress("boom".to_string());
    assert!(f.done);
    assert_eq!(f.message, "Sync failed");
    assert_eq!(f.error, Some("boom".to_string()));
    assert_eq!(found_progress(10, 0, 0, 2).message, "Found 10 Fluent files, no changes");
    assert_eq!(found_progress(10, 3, 0, 2).message, "Found 10 Fluent files, 3 changed");
    assert_eq!(found_progress(10, 0, 4, 2).message, "Found 10 Fluent files, 4 deleted");
    let p = found_progress(10, 3, 4, 2);
    assert_eq!(p.message, "Found 10 Fluent files, 3 changed, 4 deleted");
    assert_eq!((p.total_files, p.locales_count), (7, 2));
}

#[test]
fn sync_run_counts() {
    let mut run = SyncRun::new(3, 2);
    let p = run.take_parsed_file(&sfile("en/a.ftl", "1", Some("en")), vec![entry("a", "en/a.ftl", "A"), entry("b", "en/a.ftl", "B")]);
    assert_eq!((p.total_files, p.processed_files, p.keys_count, p.message.as_str()), (3, 1, 2, "Synced en/a.ftl"));
    let p = run.take_parsed_file(&sfile("x.ftl", "2", None), Vec::new());
    assert_eq!((p.processed_files, p.keys_count, p.message.as_str()), (2, 2, "Skipped x.ftl"));
    assert!(sfile("x.ftl", "2", Some("en")).needs_content());
    assert!(!sfile("x.ftl", "2", None).needs_content());
    assert_eq!(run.saving_manifest_progress().message, "Saving file manifest...");
    assert_eq!(run.saving_source_keys_progress(2).keys_count, 2);
    assert_eq!(run.saving_translations_progress(2, 5).translations_count, 5);
    let c = run.cleanup_progress(2, 2, 5, 1);
    assert_eq!((c.processed_files, c.message.as_str()), (2, "Cleaning up 1 deleted files..."));
    let done = run.complete_progress(2, 5);
    assert_eq!((done.processed_files, done.done, done.message.as_str()), (3, true, "Sync complete"));
    let idle = SyncRun::new(0, 0).complete_progress(0, 0);
    assert_eq!(idle.message, "Sync complete, no changes");
    let result = sync_result(4, 2, 5, 2, "2024-01-01T00:00:00+00:00".to_string());
    assert_eq!(result.sync_status, Some("synced".to_string()));
    assert_eq!(result.last_synced_at, Some("2024-01-01T00:00:00+00:00".to_string()));
    assert_eq!(result.sync_error, None);
    assert_eq!((result.files_count, result.keys_count, result.translations_count, result.locales_count), (4, 2, 5, 2));
}

#[test]
fn sync_session_reports_in_order() {
    let changed = vec![sfile("en/a.ftl", "1", Some("en")), sfile("de/a.ftl", "2", Some("de"))];
    let deleted = vec!["old/x.ftl".to_string()];
    let (mut session, found) = SyncSession::new("en".to_string(), 5, 2, changed, deleted);
    assert_eq!((found.total_files, found.processed_files, found.message.as_str()), (3, 0, "Found 5 Fluent files, 2 changed, 1 deleted"));
    let mut reports = vec![found];
    assert_eq!(session.pending.len(), 2);
    let p = session.take_parsed_file(1, vec![entry("hello", "de/a.ftl", "Hallo")]);
    assert_eq!(p.message, "Synced de/a.ftl");
    reports.push(p);
    assert_eq!(session.pending, vec![sfile("en/a.ftl", "1", Some("en"))]);
    reports.push(session.take_parsed_file(0, vec![entry("hello", "en/a.ftl", "Hello"), entry("bye", "en/a.ftl", "Bye")]));
    assert!(session.pending.is_empty());
    reports.push(session.finish_reading().unwrap());
    assert_eq!(session.stage, SyncStage::Saving);
    let p = session.source_step().unwrap();
    assert_eq!((p.keys_count, p.message.as_str()), (2, "Saving source keys..."));
    reports.push(p);
    assert_eq!(session.source, vec![entry("bye", "en/a.ftl", "Bye"), entry("hello", "en/a.ftl", "Hello")]);
    let (values, p) = session.translations_step(&[key_row("k1", "hello")]);
    assert_eq!(values.len(), 1);
    assert_eq!((values[0].key_id.as_str(), values[0].locale.as_str(), values[0].value.as_str()), ("k1", "de", "Hallo"));
    reports.push(p.unwrap());
    let p = session.cleanup_step().unwrap();
    assert_eq!((p.processed_files, p.message.as_str()), (2, "Cleaning up 1 deleted files..."));
    reports.push(p);
    let (result, last) = session.complete("2024-05-01T00:00:00+00:00".to_string());
    assert!(last.done);
    assert_eq!(last.message, "Sync complete");
    reports.push(last);
    assert_eq!((result.files_count, result.keys_count, result.translations_count, result.locales_count), (5, 2, 1, 2));
    for pair in reports.windows(2) {
        assert!(pair[0].processed_files <= pair[1].processed_files);
    }
    assert!(reports.iter().all(|r| r.total_files == 3 && r.processed_files <= r.total_files && r.error.is_none()));
}

#[test]
fn sync_session_without_changes() {
    let (mut session, found) = SyncSession::new("en".to_string(), 4, 1, Vec::new(), Vec::new());
    assert_eq!(found.message, "Found 4 Fluent files, no changes");
    assert!(session.finish_reading().is_none());
    assert!(session.source_step().is_none());
    let (values, p) = session.translations_step(&[]);
    assert!(values.is_empty() && p.is_none());
    assert!(session.cleanup_step().is_none());
    let (result, last) = session.complete("t".to_string());
    assert_eq!(last.message, "Sync complete, no changes");
    assert_eq!((last.total_files, last.processed_files), (0, 0));
    assert_eq!(result.files_count, 4);
}
