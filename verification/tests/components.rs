use bitefluent::components::{button_class, is_external_href, link_target, page_head, ButtonSize, ButtonVariant, MetaFor};

#[test]
fn button_classes() {
    assert_eq!(
        button_class(ButtonVariant::Primary, ButtonSize::Md, false, false, &None),
        "inline-flex items-center justify-center gap-2  rounded-lg font-medium transition bg-[var(--bg-accent)] text-white hover:opacity-90 px-8 py-3 text-sm "
    );
    assert_eq!(
        button_class(ButtonVariant::Danger, ButtonSize::Lg, true, true, &Some("mt-4".to_string())),
        "grid grid-cols-[2rem_1fr_2rem] items-center w-full rounded-lg font-medium transition bg-red-500 text-white hover:bg-red-600 px-12 py-4 text-base mt-4"
    );
    assert!(button_class(ButtonVariant::Secondary, ButtonSize::Sm, false, false, &None).contains("border border-white/[0.12]"));
    assert!(button_class(ButtonVariant::Transparent, ButtonSize::Sm, false, false, &None).contains("bg-transparent"));
}

#[test]
fn link_targets() {
    assert!(is_external_href("https://github.com"));
    assert!(is_external_href("http://example.com"));
    assert!(!is_external_href("/auth/signin/github"));
    assert_eq!(link_target("https://github.com"), ("_blank", "noreferrer"));
    assert_eq!(link_target("#features"), ("_self", ""));
}

#[test]
fn page_heads() {
    let home = page_head(MetaFor::Home);
    assert_eq!(home.title, "BiteFluent: Fluent-native translation management");
    assert_eq!(home.canonical_url, "https://bitefluent.meetz.li");
    let start = page_head(MetaFor::Start);
    assert_eq!(start.title, "Get started with BiteFluent");
    assert_eq!(start.description, "Sign in to create your first BiteFluent project and connect a repository.");
    assert_eq!(start.canonical_url, "https://bitefluent.meetz.li/start");
}
