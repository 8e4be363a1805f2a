use bitefluent::fluent::{dedupe_entries_by_key, fluent_messages_of, parse_fluent_entries, parse_fluent_keys, ParsedFluentEntry};

const SAMPLE: &str = "# comment\nhello = Hello, world!\n\nwelcome =\n    Welcome back,\n    friend.\n  # indented comment\nbroken line\nempty =\nbye=Bye \r\n";

#[test]
fn fluent_messages_read() {
    let messages = fluent_messages_of(SAMPLE);
    assert_eq!(messages, vec![
        ("hello".to_string(), "Hello, world!".to_string()),
        ("welcome".to_string(), "Welcome back,\nfriend.".to_string()),
        ("empty".to_string(), "".to_string()),
        ("bye".to_string(), "Bye".to_string()),
    ]);
}

#[test]
fn fluent_messages_are_trimmed() {
    for (k, v) in fluent_messages_of("key  =  value  \n\tmore   \n") {
        assert_eq!(k, k.trim());
        assert_eq!(v, v.trim());
    }
    assert_eq!(fluent_messages_of("key  =  value  \n\tmore   \n"), vec![("key".to_string(), "value\nmore".to_string())]);
    assert!(fluent_messages_of("  key = value\n").is_empty());
}

#[test]
fn fluent_entries_for_sync() {
    let entries = parse_fluent_entries("locales/en/main.ftl", SAMPLE);
    assert_eq!(entries.len(), 4);
    assert_eq!(entries[1].key, "welcome");
    assert_eq!(entries[1].file_path, "locales/en/main.ftl");
    assert_eq!(entries[1].value, "Welcome back,\nfriend.");
}

#[test]
fn fluent_keys_for_workspace() {
    let keys = parse_fluent_keys("main.ftl", Some("en".to_string()), SAMPLE);
    assert_eq!(keys.len(), 4);
    assert_eq!(keys[0].key, "hello");
    assert_eq!(keys[0].locale, Some("en".to_string()));
    assert_eq!(keys[3].value, "Bye");
    assert!(parse_fluent_keys("main.ftl", None, "").is_empty());
}

fn entry(key: &str, value: &str) -> ParsedFluentEntry {
    ParsedFluentEntry { key: key.to_string(), file_path: "f.ftl".to_string(), value: value.to_string() }
}

#[test]
fn dedupe_keeps_last_per_key_in_key_order() {
    let entries = vec![entry("b", "1"), entry("a", "2"), entry("b", "3")];
    let deduped = dedupe_entries_by_key(&entries);
    assert_eq!(deduped, vec![entry("a", "2"), entry("b", "3")]);
    assert_eq!(dedupe_entries_by_key(&deduped), deduped);
}
