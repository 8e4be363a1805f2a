use bitefluent::github::{
    decode_github_base64, join_repo_path, normalize_repo_path, recursive_listing_files,
    scoped_tree_path, should_skip_tree_path, subtree_sha, tree_item_to_file, tree_path_components,
    truncated_walk_text, GithubError, GithubRepository, GithubRepositoryResponse, GithubTreeItem,
    GithubTreeListing, TreeWalk, WalkKind,
};

fn item(path: &str, sha: &str, kind: &str) -> GithubTreeItem {
    GithubTreeItem { path: path.to_string(), sha: sha.to_string(), kind: kind.to_string() }
}

fn listing(items: Vec<GithubTreeItem>, truncated: bool) -> GithubTreeListing {
    GithubTreeListing { tree: items, truncated }
}

#[test]
fn tree_item_becomes_file() {
    let f = tree_item_to_file(item("a/b.ftl", "s1", "blob"));
    assert_eq!(f.path, "a/b.ftl");
    assert_eq!(f.sha, "s1");
    assert_eq!(f.kind, "blob");
}

#[test]
fn repository_from_response() {
    let r = GithubRepository::from_response(GithubRepositoryResponse {
        id: 3,
        name: "site".to_string(),
        full_name: "ada/site".to_string(),
        private: true,
        default_branch: "main".to_string(),
        owner_login: "ada".to_string(),
    });
    assert_eq!(r.id, 3);
    assert_eq!(r.owner, "ada");
    assert_eq!(r.name, "site");
    assert_eq!(r.full_name, "ada/site");
    assert!(r.private);
    assert_eq!(r.default_branch, "main");
}

#[test]
fn repo_paths_normalized() {
    assert_eq!(normalize_repo_path("  /locales/  "), "locales");
    assert_eq!(normalize_repo_path(""), ".");
    assert_eq!(normalize_repo_path(" . "), ".");
    assert_eq!(normalize_repo_path("///"), ".");
    assert_eq!(normalize_repo_path("/a/b/"), "a/b");
}

#[test]
fn repo_paths_joined() {
    assert_eq!(join_repo_path("", "a.ftl"), "a.ftl");
    assert_eq!(join_repo_path("locales", "a.ftl"), "locales/a.ftl");
}

#[test]
fn skipped_tree_paths() {
    assert!(should_skip_tree_path("node_modules"));
    assert!(should_skip_tree_path("web/node_modules/pkg"));
    assert!(should_skip_tree_path(".git"));
    assert!(!should_skip_tree_path("locales/en"));
    assert!(!should_skip_tree_path("targets"));
}

#[test]
fn scoped_paths() {
    assert_eq!(scoped_tree_path("."), None);
    assert_eq!(scoped_tree_path(" / "), None);
    assert_eq!(scoped_tree_path("/locales/"), Some("locales".to_string()));
}

#[test]
fn path_components() {
    assert_eq!(tree_path_components("a//b/c"), vec!["a".to_string(), "b".to_string(), "c".to_string()]);
    assert!(tree_path_components("").is_empty());
}

#[test]
fn recursive_listing_complete_or_cut() {
    let full = listing(vec![item("a.ftl", "1", "blob"), item("dir", "2", "tree")], false);
    let files = recursive_listing_files(full).unwrap();
    assert_eq!(files.len(), 2);
    assert_eq!(files[1].kind, "tree");
    assert!(recursive_listing_files(listing(vec![item("a.ftl", "1", "blob")], true)).is_none());
}

#[test]
fn walk_collects_blobs_and_skips_vendored_trees() {
    let mut walk = TreeWalk::new(WalkKind::Repository, "main", String::new());
    let (tree_ref, prefix) = walk.next_request().unwrap();
    assert_eq!(tree_ref, "main");
    assert_eq!(prefix, "");
    walk.apply(&prefix, &listing(vec![
        item("z.ftl", "b1", "blob"),
        item("locales", "t1", "tree"),
        item("node_modules", "t2", "tree"),
        item("sub", "c1", "commit"),
    ], false)).unwrap();
    let (tree_ref, prefix) = walk.next_request().unwrap();
    assert_eq!(tree_ref, "t1");
    assert_eq!(prefix, "locales");
    walk.apply(&prefix, &listing(vec![item("en.ftl", "b2", "blob")], false)).unwrap();
    assert!(walk.next_request().is_none());
    let files = walk.finish();
    assert_eq!(files.iter().map(|f| f.path.as_str()).collect::<Vec<_>>(), vec!["locales/en.ftl", "z.ftl"]);
    assert!(files.iter().all(|f| f.kind == "blob"));
}

#[test]
fn walk_stops_on_truncated_listing() {
    let mut walk = TreeWalk::new(WalkKind::Repository, "main", String::new());
    let (_, prefix) = walk.next_request().unwrap();
    match walk.apply(&prefix, &listing(Vec::new(), true)) {
        Err(GithubError::TruncatedTree(m)) => assert_eq!(m, "GitHub returned a truncated tree for '/'. This usually means the directory is extremely large. Try setting a narrower translations path or excluding generated/vendor folders."),
        _ => panic!("a cut listing stops the walk"),
    }
    let mut walk = TreeWalk::new(WalkKind::Subtree, "t9", "locales".to_string());
    let (_, prefix) = walk.next_request().unwrap();
    match walk.apply(&prefix, &listing(Vec::new(), true)) {
        Err(GithubError::TruncatedTree(m)) => assert_eq!(m, "GitHub returned a truncated tree for 'locales'. This directory is too large to scan safely."),
        _ => panic!("a cut listing stops the walk"),
    }
    assert_eq!(truncated_walk_text(WalkKind::Repository, "web"), "GitHub returned a truncated tree for 'web'. This usually means the directory is extremely large. Try setting a narrower translations path or excluding generated/vendor folders.");
}

#[test]
fn subtree_lookup_steps() {
    let l = listing(vec![item("locales", "b0", "blob"), item("locales", "t1", "tree"), item("locales", "t2", "tree")], false);
    assert_eq!(subtree_sha(&l, "locales", "locales/en").unwrap(), "t1");
    match subtree_sha(&l, "missing", "missing/en") {
        Err(GithubError::PathNotFound(m)) => assert_eq!(m, "translations path not found in repository: missing/en"),
        _ => panic!("a missing directory is reported"),
    }
    match subtree_sha(&listing(Vec::new(), true), "x", "x") {
        Err(GithubError::TruncatedTree(m)) => assert_eq!(m, "GitHub returned a truncated tree while resolving 'x'. Try setting a narrower translations path."),
        _ => panic!("a cut listing is reported"),
    }
}

#[test]
fn blob_contents_decode() {
    assert_eq!(decode_github_base64("aGVsbG8g\nd29ybGQ=\n".to_string(), "base64").unwrap(), "hello world");
    assert_eq!(decode_github_base64("".to_string(), "base64").unwrap(), "");
    match decode_github_base64("aGVsbG8=".to_string(), "utf-8") {
        Err(GithubError::UnsupportedEncoding(m)) => assert_eq!(m, "unsupported GitHub content encoding: utf-8"),
        _ => panic!("only base64 is read"),
    }
    assert!(matches!(decode_github_base64("!!!".to_string(), "base64"), Err(GithubError::InvalidBase64(_))));
    assert!(matches!(decode_github_base64("/w==".to_string(), "base64"), Err(GithubError::InvalidUtf8(_))));
}

#[test]
fn skipped_paths_stay_skipped_when_joined() {
    for p in ["node_modules", "a/.git/b", "target"] {
        for q in ["", "x", "x/y", "locales"] {
            assert!(should_skip_tree_path(&join_repo_path(p, q)));
            assert!(should_skip_tree_path(&join_repo_path(q, p)));
        }
    }
}

#[test]
fn normalized_paths_are_stable() {
    for p in ["", ".", "/", "//a//", "a/b/", "/./", "locales"] {
        let r = normalize_repo_path(p);
        assert!(!r.is_empty() && !r.starts_with('/') && !r.ends_with('/'));
        assert_eq!(normalize_repo_path(&r), r);
    }
}
