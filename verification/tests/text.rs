use swh_resolver::ntf::common::{
    build_qualified, canonical_github_url, normalize_path, normalize_rev_id,
    origin_swhid_from_url, path_components,
};
use swh_resolver::ntf::text::is_white_space;

#[test]
fn white_space_is_that_of_std() {
    for u in 0..=0x10ffffu32 {
        if let Some(c) = char::from_u32(u) {
            assert_eq!(is_white_space(c), c.is_whitespace(), "{u:x}");
        }
    }
}

#[test]
fn github_urls() {
    let want = "https://github.com/torvalds/linux";
    assert_eq!(canonical_github_url("torvalds/linux"), want);
    assert_eq!(canonical_github_url("  torvalds/linux.git\n"), want);
    assert_eq!(canonical_github_url("https://github.com/torvalds/linux/"), want);
    assert_eq!(canonical_github_url("github.com/torvalds/linux.git"), want);
    assert_eq!(canonical_github_url("https://github.com/github.com/torvalds/linux"), want);
    assert_eq!(canonical_github_url("//torvalds/linux//"), want);
    assert_eq!(canonical_github_url(""), "https://github.com/");
    assert_eq!(
        canonical_github_url("http://github.com/a/b"),
        "https://github.com/http://github.com/a/b"
    );
    assert_eq!(canonical_github_url("a/b.git.git"), "https://github.com/a/b.git");
    assert_eq!(canonical_github_url("a/b.git/"), "https://github.com/a/b");
}

#[test]
fn normalized_paths() {
    assert_eq!(normalize_path("src/main.rs"), "src/main.rs");
    assert_eq!(normalize_path("  ./././src\\main.rs "), "src/main.rs");
    assert_eq!(normalize_path(".//src"), "src");
    assert_eq!(normalize_path("/./src"), "./src");
    assert_eq!(normalize_path("\\src"), "/src");
    assert_eq!(normalize_path("./"), "");
    assert_eq!(normalize_path("\u{3000}\u{e9}/\u{4e2d}\u{2028}"), "\u{e9}/\u{4e2d}");
}

#[test]
fn revision_ids() {
    let hex = "0123456789abcdef0123456789abcdef01234567";
    let full = format!("swh:1:rev:{hex}");
    assert_eq!(normalize_rev_id(hex).as_ref(), full);
    assert_eq!(normalize_rev_id(&full).as_ref(), full);
    assert!(matches!(normalize_rev_id(&full), std::borrow::Cow::Borrowed(_)));
    assert!(matches!(normalize_rev_id(hex), std::borrow::Cow::Owned(_)));
    assert_eq!(normalize_rev_id("").as_ref(), "swh:1:rev:");
    assert_eq!(normalize_rev_id("swh:1:rev").as_ref(), "swh:1:rev:swh:1:rev");
}

#[test]
fn qualified_swhids() {
    assert_eq!(
        build_qualified(
            "swh:1:cnt:aa",
            "https://github.com/a/b",
            "",
            "swh:1:rev:bb",
            "./src\\main.rs"
        ),
        "swh:1:cnt:aa;origin=https://github.com/a/b;visit=;anchor=swh:1:rev:bb;path=/src/main.rs"
    );
    assert_eq!(
        build_qualified("c", "o", "s", "r", "p"),
        "c;origin=o;visit=s;anchor=r;path=/p"
    );
}

#[test]
fn components_of_paths() {
    let none: Vec<Vec<u8>> = Vec::new();
    assert_eq!(path_components(""), none);
    assert_eq!(path_components(" / "), none);
    assert_eq!(path_components("a"), vec![b"a".to_vec()]);
    assert_eq!(
        path_components("./kernel//sched\\core.c/"),
        vec![b"kernel".to_vec(), b"sched".to_vec(), b"core.c".to_vec()]
    );
    assert_eq!(path_components("\u{e9}/b"), vec![vec![0xc3, 0xa9], b"b".to_vec()]);
}

#[test]
fn origin_ids() {
    assert_eq!(
        origin_swhid_from_url("https://github.com/torvalds/linux"),
        "swh:1:ori:b63a575fe3faab7692c9f38fb09d4bb45651bb0f"
    );
}
