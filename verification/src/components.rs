//! What the shared page components compute: a button's classes, where a
//! link opens, and the head of each public page.
use vstd::prelude::*;

verus! {

/// The look of a button.
#[derive(Debug, Clone, Copy, PartialEq, Eq, Structural)]
pub enum ButtonVariant {
    Primary,
    Secondary,
    Transparent,
    Danger,
}

/// The size of a button.
#[derive(Debug, Clone, Copy, PartialEq, Eq, Structural)]
pub enum ButtonSize {
    Sm,
    Md,
    Lg,
}

/// The classes of a button's look.
pub open spec fn variant_class_of(variant: ButtonVariant) -> Seq<char> {
    match variant {
        ButtonVariant::Primary => "bg-[var(--bg-accent)] text-white hover:opacity-90"@,
        ButtonVariant::Secondary => "border border-white/[0.12] bg-white/[0.03] text-white hover:bg-white/[0.06] hover:border-white/[0.20]"@,
        ButtonVariant::Transparent => "bg-transparent text-[var(--text-muted)] hover:text-white hover:bg-white/5"@,
        ButtonVariant::Danger => "bg-red-500 text-white hover:bg-red-600"@,
    }
}

/// The classes of a button's size.
pub open spec fn size_class_of(size: ButtonSize) -> Seq<char> {
    match size {
        ButtonSize::Sm => "px-6 py-2 text-sm"@,
        ButtonSize::Md => "px-8 py-3 text-sm"@,
        ButtonSize::Lg => "px-12 py-4 text-base"@,
    }
}

/// The classes of a button's layout: three columns that keep the label
/// centred between icon slots, or a plain centred row.
pub open spec fn layout_class_of(balanced: bool) -> Seq<char> {
    if balanced {
        "grid grid-cols-[2rem_1fr_2rem] items-center"@
    } else {
        "inline-flex items-center justify-center gap-2"@
    }
}

/// All classes of a button, the caller's extra classes last.
pub open spec fn button_class_of(
    variant: ButtonVariant,
    size: ButtonSize,
    full_width: bool,
    balanced: bool,
    extra: Seq<char>,
) -> Seq<char> {
    layout_class_of(balanced) + " "@ + (if full_width {
        "w-full"@
    } else {
        ""@
    }) + " rounded-lg font-medium transition "@ + variant_class_of(variant) + " "@ + size_class_of(size)
        + " "@ + extra
}

/// The classes of a button's look.
fn variant_class(variant: ButtonVariant) -> (out: &'static str)
    ensures
        out@ == variant_class_of(variant),
{
    match variant {
        ButtonVariant::Primary => "bg-[var(--bg-accent)] text-white hover:opacity-90",
        ButtonVariant::Secondary => "border border-white/[0.12] bg-white/[0.03] text-white hover:bg-white/[0.06] hover:border-white/[0.20]",
        ButtonVariant::Transparent => "bg-transparent text-[var(--text-muted)] hover:text-white hover:bg-white/5",
        ButtonVariant::Danger => "bg-red-500 text-white hover:bg-red-600",
    }
}

/// The classes of a button's size.
fn size_class(size: ButtonSize) -> (out: &'static str)
    ensures
        out@ == size_class_of(size),
{
    match size {
        ButtonSize::Sm => "px-6 py-2 text-sm",
        ButtonSize::Md => "px-8 py-3 text-sm",
        ButtonSize::Lg => "px-12 py-4 text-base",
    }
}

/// All classes of a button.
pub fn button_class(
    variant: ButtonVariant,
    size: ButtonSize,
    full_width: bool,
    balanced: bool,
    extra: &Option<String>,
) -> (out: String)
    ensures
        out@ == button_class_of(
            variant,
            size,
            full_width,
            balanced,
            match *extra {
                Some(e) => e@,
                None => ""@,
            },
        ),
{
    let mut out = if balanced {
        "grid grid-cols-[2rem_1fr_2rem] items-center".to_string()
    } else {
        "inline-flex items-center justify-center gap-2".to_string()
    };
    out.append(" ");
    if full_width {
        out.append("w-full");
    }
    out.append(" rounded-lg font-medium transition ");
    out.append(variant_class(variant));
    out.append(" ");
    out.append(size_class(size));
    out.append(" ");
    match extra {
        Some(e) => out.append(e.as_str()),
        None => {},
    }
    proof {
        reveal_strlit("");
    }
    out
}

/// A link that leaves the site: its address starts with `http://` or
/// `https://`.
pub open spec fn is_external_href_of(href: Seq<char>) -> bool {
    "http://"@.is_prefix_of(href) || "https://"@.is_prefix_of(href)
}

/// Whether a link leaves the site.
pub fn is_external_href(href: &str) -> (r: bool)
    ensures
        r == is_external_href_of(href@),
{
    let hc = crate::text::chars_of(href);
    let a = crate::text::chars_of("http://");
    let b = crate::text::chars_of("https://");
    crate::text::starts_with(hc.as_slice(), a.as_slice()) || crate::text::starts_with(hc.as_slice(), b.as_slice())
}

/// Where a link opens and what it tells the page it opens: a new tab with
/// no referrer for a link that leaves the site, the same tab otherwise.
pub fn link_target(href: &str) -> (out: (&'static str, &'static str))
    ensures
        is_external_href_of(href@) ==> out.0@ == "_blank"@ && out.1@ == "noreferrer"@,
        !is_external_href_of(href@) ==> out.0@ == "_self"@ && out.1@ == ""@,
{
    if is_external_href(href) {
        ("_blank", "noreferrer")
    } else {
        ("_self", "")
    }
}

/// The public pages that carry a head of their own.
#[derive(Debug, Clone, Copy, PartialEq, Eq, Structural)]
pub enum MetaFor {
    Home,
    Start,
}

/// The head of a public page: its title, its description and its
/// canonical address.
#[derive(Debug, Clone, PartialEq)]
pub struct PageHead {
    pub title: String,
    pub description: String,
    pub canonical_url: String,
}

/// The address of the site.
pub open spec fn site_url() -> Seq<char> {
    "https://bitefluent.meetz.li"@
}

/// The title of a page.
pub open spec fn page_title(page: MetaFor) -> Seq<char> {
    match page {
        MetaFor::Home => "BiteFluent: Fluent-native translation management"@,
        MetaFor::Start => "Get started with BiteFluent"@,
    }
}

/// The description of a page.
pub open spec fn page_description(page: MetaFor) -> Seq<char> {
    match page {
        MetaFor::Home => "Sync source keys, manage translations, review changes, and publish translations with a clean workflow built for Fluent projects."@,
        MetaFor::Start => "Sign in to create your first BiteFluent project and connect a repository."@,
    }
}

/// The canonical address of a page: the site for the home page, its
/// `/start` path for the sign-in page.
pub open spec fn page_canonical(page: MetaFor) -> Seq<char> {
    match page {
        MetaFor::Home => site_url(),
        MetaFor::Start => site_url() + "/start"@,
    }
}

/// The head of a public page.
pub fn page_head(page: MetaFor) -> (out: PageHead)
    ensures
        out.title@ == page_title(page),
        out.description@ == page_description(page),
        out.canonical_url@ == page_canonical(page),
{
    let url = "https://bitefluent.meetz.li";
    match page {
        MetaFor::Home => PageHead {
            title: "BiteFluent: Fluent-native translation management".to_string(),
            description: "Sync source keys, manage translations, review changes, and publish translations with a clean workflow built for Fluent projects.".to_string(),
            canonical_url: url.to_string(),
        },
        MetaFor::Start => {
            let mut canonical = url.to_string();
            canonical.append("/start");
            PageHead {
                title: "Get started with BiteFluent".to_string(),
                description: "Sign in to create your first BiteFluent project and connect a repository.".to_string(),
                canonical_url: canonical,
            }
        },
    }
}

} // verus!
