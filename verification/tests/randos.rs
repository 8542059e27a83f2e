use filetools::pattern::Pattern;
use filetools::randos::{
    expand, is_candidate, name_from, name_with_stem, parse_extensions, required_sources,
    sequential, symlink, with_extension, ActionKind, ActionOpts, Candidate, FilterOpts,
};

fn fixture(file: &str) -> String {
    format!("/srv/tests/resources/{}", file)
}

fn mtime_of(file: &str) -> u64 {
    match file {
        "dir_2/file_2_1.txt" => 1737100000,
        "dir_2/file_2_2.txt" => 1737200000,
        "dir_2/file_2_3.txt" => 1737300000,
        _ => 1700000000,
    }
}

fn candidate(file: &str) -> Candidate {
    Candidate { path: fixture(file), is_file: !file.contains("subdir"), mtime: mtime_of(file) }
}

fn test_candidates(good: Vec<&str>, bad: Vec<&str>, opts: &FilterOpts) {
    for c in good {
        assert!(is_candidate(&candidate(c), opts), "{} WAS BAD", c);
    }
    for c in bad {
        assert!(!is_candidate(&candidate(c), opts), "{} WAS GOOD", c);
    }
}

#[test]
fn test_is_candidates_age_filter() {
    let selector_opts =
        FilterOpts { extensions: None, older: Some(1737240000), newer: None, regex: None };

    let good_candidates = vec!["dir_2/file_2_1.txt", "dir_2/file_2_2.txt"];
    let bad_candidates = vec!["dir_2/file_2_3.txt"];

    test_candidates(good_candidates, bad_candidates, &selector_opts);

    let selector_opts =
        FilterOpts { extensions: None, older: None, newer: Some(1737240000), regex: None };

    let good_candidates = vec!["dir_2/file_2_3.txt"];
    let bad_candidates = vec!["dir_2/file_2_1.txt", "dir_2/file_2_2.txt"];

    test_candidates(good_candidates, bad_candidates, &selector_opts);

    let selector_opts = FilterOpts {
        extensions: None,
        newer: Some(1737100010),
        older: Some(1737200001),
        regex: None,
    };

    let good_candidates = vec!["dir_2/file_2_2.txt"];
    let bad_candidates = vec!["dir_2/file_2_1.txt", "dir_2/file_2_3.txt"];

    test_candidates(good_candidates, bad_candidates, &selector_opts);
}

#[test]
fn test_is_candidates_no_filter() {
    let selector_opts = FilterOpts { extensions: None, older: None, newer: None, regex: None };

    let good_candidates =
        vec!["dir_1/file_1_4", "dir_1/file_1_3.png", "dir_1/file_1_1.sfx", "dir_1/file_1_2.sfx"];

    let bad_candidates = vec!["dir_1/subdir_1_1"];

    test_candidates(good_candidates, bad_candidates, &selector_opts);
}

#[test]
fn test_is_candidates_filter_extension() {
    let selector_opts = FilterOpts {
        extensions: Some(vec!["txt".into(), "png".into()]),
        older: None,
        newer: None,
        regex: None,
    };

    let good_candidates = vec!["dir_1/file_1_3.png"];

    let bad_candidates =
        vec!["dir_1/file_1_4", "dir_1/file_1_1.sfx", "dir_1/subdir_1_1", "dir_1/file_1_2.sfx"];

    test_candidates(good_candidates, bad_candidates, &selector_opts);
}

#[test]
fn test_is_candidates_regex() {
    let selector_opts = FilterOpts {
        extensions: None,
        older: None,
        newer: None,
        regex: Some(Pattern::new("1_[23]").unwrap()),
    };

    let good_candidates = vec!["dir_1/file_1_3.png", "dir_1/file_1_2.sfx"];
    let bad_candidates = vec!["dir_1/subdir_1_1", "dir_1/file_1_1.sfx", "dir_1/file_1_4"];

    test_candidates(good_candidates, bad_candidates, &selector_opts);
}

#[test]
fn test_is_candidates_regex_and_suffix() {
    let selector_opts = FilterOpts {
        extensions: Some(vec!["png".into()]),
        older: None,
        newer: None,
        regex: Some(Pattern::new("1_[23]").unwrap()),
    };

    let good_candidates = vec!["dir_1/file_1_3.png"];
    let bad_candidates =
        vec!["dir_1/subdir_1_1", "dir_1/file_1_1.sfx", "dir_1/file_1_2.sfx", "dir_1/file_1_4"];

    test_candidates(good_candidates, bad_candidates, &selector_opts);
}

#[test]
fn test_is_candidates_no_regex_matches() {
    let selector_opts = FilterOpts {
        extensions: None,
        older: None,
        newer: None,
        regex: Some(Pattern::new("xyz]").unwrap()),
    };

    let good_candidates = Vec::new();

    let bad_candidates = vec![
        "dir_1/file_1_3.png",
        "dir_1/file_1_1.sfx",
        "dir_1/file_1_4",
        "dir_1/subdir_1_1",
        "dir_1/file_1_2.sfx",
    ];

    test_candidates(good_candidates, bad_candidates, &selector_opts);
}

#[test]
fn test_is_candidates_no_suffix_matches() {
    let selector_opts = FilterOpts {
        extensions: Some(vec!["merp".into(), "byerp".into()]),
        older: None,
        newer: None,
        regex: None,
    };

    let good_candidates = Vec::new();

    let bad_candidates = vec![
        "dir_1/file_1_3.png",
        "dir_1/file_1_1.sfx",
        "dir_1/subdir_1_1",
        "dir_1/file_1_4",
        "dir_1/file_1_2.sfx",
    ];

    test_candidates(good_candidates, bad_candidates, &selector_opts);
}

#[test]
fn test_name_from() {
    assert_eq!(
        "file_1_3.png".to_string(),
        name_from(&fixture("dir_1/file_1_3.png"), 1, &Some("plain".into())).unwrap()
    );

    let rand = name_from(&fixture("dir_1/file_1_3.png"), 1, &Some("random".into())).unwrap();
    assert!(rand.ends_with(".png"));
    assert_eq!(36, rand.len());

    let hashed = name_from(&fixture("dir_1/file_1_3.png"), 1, &Some("hash".into())).unwrap();
    assert!(hashed.ends_with(".png"));
    assert_eq!(44, hashed.len());

    assert_eq!(
        "00000015.png".to_string(),
        name_from(&fixture("dir_1/file_1_3.png"), 15, &Some("sequential".into())).unwrap()
    );

    let expand = name_from(&fixture("dir_1/file_1_3.png"), 1, &Some("expand".into())).unwrap();
    assert!(expand.ends_with(".png"));
    assert!(!expand.starts_with('-'));
    assert!(!expand.contains('/'));
}

#[test]
fn names_by_scheme() {
    assert_eq!(None, name_from("/", 1, &None));
    assert_eq!(Some("c.txt".to_string()), name_from("/a/b/c.txt", 1, &None));
    assert_eq!(Some("c.txt".to_string()), name_from("/a/b/c.txt", 1, &Some("whatever".into())));
    assert_eq!(
        Some("a9993e364706816aba3e25717850c26c9cd0d89d.".to_string()),
        name_from("abc", 1, &Some("hash".into()))
    );
    assert_eq!(
        Some("STEM.txt".to_string()),
        name_with_stem("/a/b/c.txt", 1, &Some("random".into()), "STEM")
    );
    assert_eq!("a-b-c.txt", expand("/a/b/c.txt"));
    assert_eq!("a-b--c", expand("--/a-b//c"));
    assert_eq!("", expand("///"));
    assert_eq!("00000007.", sequential("/a/b/c", 7));
    assert_eq!("123456789.gz", sequential("c.tar.gz", 123456789));
    assert_eq!("x.", with_extension("x", "/a/.hidden"));
    let random = name_from("/a/b/c.txt", 1, &Some("random".into())).unwrap();
    assert!(random[..32].chars().all(|c| c.is_ascii_alphanumeric()));
}

#[test]
fn filters_and_a_path_without_a_name() {
    let opts = FilterOpts {
        extensions: None,
        older: None,
        newer: None,
        regex: Some(Pattern::new("never").unwrap()),
    };
    let file = Candidate { path: "/a/..".to_string(), is_file: true, mtime: 0 };
    assert!(is_candidate(&file, &opts));
    assert!(Pattern::new("(").is_none());
}

#[test]
fn extension_lists() {
    assert_eq!(None, parse_extensions(None));
    assert_eq!(
        Some(vec!["jpg".to_string(), "png".to_string()]),
        parse_extensions(Some("jpg,png".to_string()))
    );
    assert_eq!(Some(vec!["".to_string()]), parse_extensions(Some("".to_string())));
    assert_eq!(
        Some(vec!["a".to_string(), "".to_string()]),
        parse_extensions(Some("a,".to_string()))
    );
}

#[test]
fn actions_by_name() {
    let mut opts = ActionOpts {
        action: "cp".to_string(),
        noop: false,
        relative_links: false,
        verbose: false,
    };
    for (name, kind) in [
        ("cp", ActionKind::Copy),
        ("copy", ActionKind::Copy),
        ("mv", ActionKind::Move),
        ("move", ActionKind::Move),
        ("mvx", ActionKind::MoveAcross),
        ("movexfs", ActionKind::MoveAcross),
        ("lnh", ActionKind::HardLink),
        ("hardlink", ActionKind::HardLink),
        ("ln", ActionKind::Symlink),
        ("anything", ActionKind::Symlink),
    ] {
        opts.action = name.to_string();
        assert_eq!(Some(kind), opts.kind());
    }
    assert!(!opts.announces());
    opts.noop = true;
    assert_eq!(None, opts.kind());
    assert!(opts.announces());
    assert_eq!(2, required_sources(2, 5));
    assert_eq!(5, required_sources(7, 5));
}

#[test]
fn what_a_link_holds() {
    assert_eq!("/a/b/c.txt", symlink("/a/b/c.txt", "/a/d/link", false));
    assert_eq!("../../b/c.txt", symlink("/a/b/c.txt", "/a/d/link", true));
    assert_eq!("b/c.txt", symlink("b/c.txt", "/a/d/link", true));
}
