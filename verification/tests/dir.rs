use filetools::dir::{
    add_file, basename, naming_pattern, pad_num, DirEntry, DirError, DirExt, DirListing,
    FilesInDir, FilesInDirSubtype,
};
use filetools::file::{PathExt, TokenError};
use filetools::file_tokens::{render_name, FileTokens, TokenizeError};

fn fixture(file: &str) -> String {
    format!("/srv/tests/resources/{}", file)
}

fn entry(path: &str, is_dir: bool, mtime: i128) -> DirEntry {
    DirEntry { path: fixture(path), canonical: fixture(path), is_dir, mtime }
}

fn some_dir() -> DirListing {
    DirListing {
        dir: fixture("some.dir"),
        entries: vec![
            entry("some.dir/random_name.jpg", false, 10),
            entry("some.dir/some.dir.0005.jpg", false, 11),
            entry("some.dir/some.dir.tag.1234.jpg", false, 12),
            entry("some.dir/some.dir.0001.jpg", false, 13),
            entry("some.dir/subdir", true, 14),
            entry("some.dir/some.dir.tag.0003.jpg", false, 15),
            entry("some.dir/other_random_name.jpg", false, 16),
            entry("some.dir/some.dir.0003.jpg", false, 17),
            entry("some.dir/random_name.tag.1234.jpg", false, 18),
            entry("some.dir/some.dir.tag.0002.jpg", false, 19),
            entry("some.dir/some.dir.0002.jpg", false, 20),
            entry("some.dir/some.dir.tag.0004.jpg", false, 21),
        ],
    }
}

#[test]
fn test_file_token_map() {
    let result = some_dir().file_token_map("tag");

    assert_eq!(5, result.tagged.len());
    assert_eq!(4, result.untagged.len());
}

#[test]
fn test_set_tag() {
    let t = some_dir().categorise_files("tag".to_string()).unwrap();

    assert_eq!(
        vec![(fixture("some.dir/some.dir.0001.jpg"), fixture("some.dir/some.dir.tag.0001.jpg"))],
        t.set_tag(fixture("some.dir/some.dir.0001.jpg"), "tag"),
    );

    assert_eq!(
        vec![(fixture("some.dir/some.dir.0004.jpg"), fixture("some.dir/some.dir.tag.0001.jpg"))],
        t.set_tag(fixture("some.dir/some.dir.0004.jpg"), "tag"),
    );

    assert_eq!(
        vec![(fixture("some.dir/whatever.JPG"), fixture("some.dir/some.dir.tag.0001.JPG"))],
        t.set_tag(fixture("some.dir/whatever.JPG"), "tag"),
    );

    assert!(t.set_tag(fixture("some.dir/some.dir.tag.0004.jpg"), "tag").is_empty());
}

#[test]
fn test_flip_tag() {
    let t = some_dir().categorise_files("tag".to_string()).unwrap();

    assert_eq!(
        vec![(fixture("some.dir/some.dir.0001.jpg"), fixture("some.dir/some.dir.tag.0001.jpg"))],
        t.flip_tag(fixture("some.dir/some.dir.0001.jpg"), "tag"),
    );

    assert_eq!(
        vec![(fixture("some.dir/some.dir.tag.0004.jpg"), fixture("some.dir/some.dir.0004.jpg"))],
        t.flip_tag(fixture("some.dir/some.dir.tag.0004.jpg"), "tag"),
    );

    assert_eq!(
        vec![(fixture("some.dir/whatever.JPG"), fixture("some.dir/some.dir.tag.0001.JPG"))],
        t.flip_tag(fixture("some.dir/whatever.JPG"), "tag"),
    );
}

#[test]
fn test_unset_tag() {
    let t = some_dir().categorise_files("tag".to_string()).unwrap();

    assert_eq!(
        vec![(fixture("some.dir/some.dir.tag.0004.jpg"), fixture("some.dir/some.dir.0004.jpg"))],
        t.unset_tag(fixture("some.dir/some.dir.tag.0004.jpg"), "tag"),
    );

    assert_eq!(
        vec![(fixture("some.dir/whatever.tag.55.JPG"), fixture("some.dir/some.dir.0004.JPG"))],
        t.unset_tag(fixture("some.dir/whatever.tag.55.JPG"), "tag"),
    );

    assert!(t.unset_tag(fixture("some.dir/some.dir.0001.jpg"), "tag").is_empty());
}

#[test]
fn test_hole_list() {
    let t = some_dir().categorise_files("tag".to_string()).unwrap();

    assert_eq!(vec![4], t.untagged.hole_list());
    assert_eq!(1230, t.tagged.hole_list().len());
    assert_eq!(1, t.tagged.hole_list()[0]);
    assert_eq!(5, t.tagged.hole_list()[1]);
}

#[test]
fn test_fname_from_stem() {
    let t = FilesInDir::new(fixture("some.dir"), "some.dir", "tag");

    assert_eq!(
        fixture("some.dir/some.dir.0045.jpg"),
        t.untagged.fname_from_stem(&fixture("rogue.jpg"), 45)
    );
}

#[test]
fn test_categorise_files() {
    let result = some_dir().categorise_files("tag".to_string()).unwrap();

    assert_eq!("some.dir", result.untagged.basename);
    assert_eq!("some.dir.tag", result.tagged.basename);

    assert_eq!(
        vec![
            fixture("some.dir/some.dir.0001.jpg"),
            fixture("some.dir/some.dir.0002.jpg"),
            fixture("some.dir/some.dir.0003.jpg"),
            fixture("some.dir/some.dir.0005.jpg"),
        ],
        result.untagged.numbered_files,
    );

    assert_eq!(vec![1, 2, 3, 5], result.untagged.numbers);

    assert_eq!(
        vec![
            fixture("some.dir/some.dir.tag.0002.jpg"),
            fixture("some.dir/some.dir.tag.0003.jpg"),
            fixture("some.dir/some.dir.tag.0004.jpg"),
            fixture("some.dir/some.dir.tag.1234.jpg"),
        ],
        result.tagged.numbered_files,
    );

    assert_eq!(vec![2, 3, 4, 1234], result.tagged.numbers);

    assert_eq!(
        vec![fixture("some.dir/other_random_name.jpg"), fixture("some.dir/random_name.jpg")],
        result.untagged.rogue_files,
    );

    assert_eq!(vec![fixture("some.dir/random_name.tag.1234.jpg")], result.tagged.rogue_files);
}

#[test]
fn test_categorise_files_2() {
    let result = some_dir().categorise_files("xx".to_string()).unwrap();

    assert_eq!("some.dir", result.untagged.basename);
    assert_eq!("some.dir.xx", result.tagged.basename);

    assert!(result.tagged.numbered_files.is_empty());
    assert!(result.tagged.numbers.is_empty());

    assert_eq!(
        vec![
            fixture("some.dir/some.dir.0001.jpg"),
            fixture("some.dir/some.dir.0002.jpg"),
            fixture("some.dir/some.dir.0003.jpg"),
            fixture("some.dir/some.dir.0005.jpg"),
        ],
        result.untagged.numbered_files,
    );
}

#[test]
fn test_pad_num() {
    assert_eq!("0001", pad_num(1));
    assert_eq!("0012", pad_num(12));
    assert_eq!("0123", pad_num(123));
    assert_eq!("1234", pad_num(1234));
}

#[test]
fn test_ext_as_string() {
    assert_eq!(Some("txt".to_string()), "/path/file.txt".to_string().ext_as_string());
}

#[test]
fn test_get_number() {
    assert_eq!(Some(1), fixture("/path/to/some.dir/some.dir.0001.jpg").get_number());
    assert_eq!(Some(99), fixture("/path/to/some.dir/some.dir.tag.0099.jpg").get_number());
    assert_eq!(None, fixture("/path/to/some.dir/some.dir.jpg").get_number());
}

#[test]
fn test_is_tagged() {
    assert!(fixture("some.dir.tag.0001.jpg").is_tagged("tag"));
    assert!(fixture("some.dir.tag.0001.jpg").is_tagged("tag"));
    assert!(fixture("/path/to/some.dir/some.dir.tag.0001.jpg").is_tagged("tag"));
    assert!(!fixture("oo.tag.oo.123.png").is_tagged("tag"));
    assert!(!fixture("/path/to/some.dir/some.dir.0001.jpg").is_tagged("tag"));
    assert!(!fixture("/path/to/some.tag.dir/some.dir.0001.jpg").is_tagged("tag"));
    assert!(!fixture("some.dir.0001.jpg").is_tagged("tag"));
    assert!(!fixture("butagy_rabbit.jpg").is_tagged("tag"));
}

fn assert_tokens(
    tokens: &FileTokens,
    dir: &str,
    num: Option<i32>,
    stem: &str,
    suffix: &str,
    is_tagged: bool,
    tag: &str,
) {
    assert_eq!(dir, tokens.dir);
    assert_eq!(num, tokens.num);
    assert_eq!(stem, tokens.stem);
    assert_eq!(suffix, tokens.suffix);
    assert_eq!(is_tagged, tokens.is_tagged);
    assert_eq!(tag, tokens.tag);
}

#[test]
fn test_file_tokens() {
    assert_tokens(
        &FileTokens::new(&fixture("some.dir/some.dir.0002.jpg"), "xxx", 0).unwrap(),
        &fixture("some.dir"),
        Some(2),
        "some.dir",
        "jpg",
        false,
        "xxx",
    );

    assert_tokens(
        &FileTokens::new(&fixture("some.dir/some.dir.tag.0002.jpg"), "tag", 0).unwrap(),
        &fixture("some.dir"),
        Some(2),
        "some.dir",
        "jpg",
        true,
        "tag",
    );

    assert_tokens(
        &FileTokens::new(&fixture("nodot/nodot.1234.sfx"), "xxx", 0).unwrap(),
        &fixture("nodot"),
        Some(1234),
        "nodot",
        "sfx",
        false,
        "xxx",
    );

    assert!(FileTokens::new(&fixture("some.dir/random_name.jpg"), "tag", 0).is_err());
}

#[test]
fn pad_num_keeps_long_numbers_and_fills_beside_the_sign() {
    assert_eq!("0000", pad_num(0));
    assert_eq!("12345", pad_num(12345));
    assert_eq!("2147483647", pad_num(i32::MAX));
    assert_eq!("00-5", pad_num(-5));
    assert_eq!("-2147483648", pad_num(i32::MIN));
}

#[test]
fn number_needs_four_digits() {
    assert_eq!(None, "dir/some.dir.55.jpg".get_number());
    assert_eq!(None, "dir/some.dir.+0055.jpg".get_number());
    assert_eq!(None, "dir/some.dir.00a5.jpg".get_number());
    assert_eq!(Some(55), "dir/some.dir.0055.jpg".get_number());
    assert_eq!(Some(12), "dir/some.dir.00012.jpg".get_number());
    assert_eq!(Some(2147483647), "dir/some.dir.2147483647.jpg".get_number());
    assert_eq!(None, "dir/some.dir.2147483648.jpg".get_number());
    assert_eq!(None, "dir/name.jpg".get_number());
    assert_eq!(None, "dir/..".get_number());
}

#[test]
fn tokens_fail_by_kind() {
    assert_eq!(Some(TokenizeError::NoBaseName), FileTokens::new("/", "tag", 0).err());
    assert_eq!(Some(TokenizeError::NoBaseName), FileTokens::new("a/..", "tag", 0).err());
    assert_eq!(Some(TokenizeError::TooFewTokens), FileTokens::new("/a/b.jpg", "tag", 0).err());
    assert!(FileTokens::new("a.0001.jpg", "tag", 0).is_ok());
    assert_eq!("", FileTokens::new("a.0001.jpg", "tag", 0).unwrap().dir);
}

#[test]
fn fname_tokens_fail_by_kind() {
    assert_eq!(Err(TokenError::InvalidFileName), "/".fname_tokens());
    assert_eq!(Err(TokenError::TooFewTokens), "/a/b.jpg".fname_tokens());
    assert_eq!(
        Ok(vec!["b".to_string(), "".to_string(), "jpg".to_string()]),
        "/a/b..jpg".fname_tokens()
    );
}

#[test]
fn render_roundtrip_on_names() {
    for (name, tag) in [
        ("some.dir.0002.jpg", "tag"),
        ("some.dir.tag.0002.jpg", "tag"),
        ("a.b.c.tag.12345.x", "tag"),
        ("nodot.1234.sfx", "xxx"),
        ("x.0000.y", "tag"),
    ] {
        let tokens = FileTokens::from_name("d".to_string(), name, tag, 0).unwrap();
        assert_eq!(name, tokens.render(tokens.num));
    }
    // A stem is needed in front of the tag, and the number must be written
    // the way numbers are written.
    let tokens = FileTokens::from_name("d".to_string(), "tag.0002.jpg", "tag", 0).unwrap();
    assert_eq!(".tag.0002.jpg", tokens.render(tokens.num));
    let tokens = FileTokens::from_name("d".to_string(), "a.00012.jpg", "tag", 0).unwrap();
    assert_eq!("a.0012.jpg", tokens.render(tokens.num));
}

#[test]
fn render_without_number_leaves_the_token_out() {
    assert_eq!("stem.tag.0007.jpg", render_name("stem", Some("tag"), Some(7), "jpg"));
    assert_eq!("stem.0007.jpg", render_name("stem", None, Some(7), "jpg"));
    assert_eq!("stem.tag.jpg", render_name("stem", Some("tag"), None, "jpg"));
    assert_eq!("stem.jpg", render_name("stem", None, None, "jpg"));
    assert_eq!("stem.12345.jpg", render_name("stem", None, Some(12345), "jpg"));
}

#[test]
fn holes_and_first_slot() {
    let mut bucket = FilesInDirSubtype::new("d".to_string(), "d");
    assert!(bucket.hole_list().is_empty());
    assert_eq!(1, bucket.first_slot());
    bucket.numbers = vec![1, 2, 3];
    assert!(bucket.hole_list().is_empty());
    assert_eq!(4, bucket.first_slot());
    bucket.numbers = vec![1, 2, 3, 5];
    assert_eq!(vec![4], bucket.hole_list());
    assert_eq!(4, bucket.first_slot());
    bucket.numbers = vec![3, 7];
    assert_eq!(vec![1, 2, 4, 5, 6], bucket.hole_list());
    assert_eq!(1, bucket.first_slot());
    bucket.numbers = vec![0];
    assert!(bucket.hole_list().is_empty());
    assert_eq!(1, bucket.first_slot());
    for h in bucket.hole_list() {
        assert!(!bucket.numbers.contains(&h));
    }
}

#[test]
fn basename_of_directory() {
    assert_eq!(Ok("some.dir".to_string()), basename("/a/some.dir/"));
    assert_eq!(Err(DirError::InvalidDirectoryName), basename("/"));
    assert_eq!(Err(DirError::InvalidDirectoryName), basename("a/.."));
}

#[test]
fn classification_fails_without_names() {
    let listing = DirListing { dir: "/".to_string(), entries: vec![] };
    assert_eq!(Some(DirError::InvalidDirectoryName), listing.categorise_files("t".to_string()).err());
    let listing = DirListing {
        dir: "/d".to_string(),
        entries: vec![DirEntry {
            path: "/d/..".to_string(),
            canonical: "/".to_string(),
            is_dir: false,
            mtime: 0,
        }],
    };
    assert_eq!(Some(DirError::InvalidFileName), listing.categorise_files("t".to_string()).err());
}

#[test]
fn digits_and_word_characters_of_any_script() {
    let listing = DirListing {
        dir: "/p/d".to_string(),
        entries: vec![
            entry("x/d.0001.jp\u{e9}", false, 0),
            entry("x/d.\u{663}.jpg", false, 0),
            entry("x/d.0002.j\u{2603}", false, 0),
            entry("x/d\u{e9}.0003.jpg", false, 0),
        ],
    };
    let files = listing.categorise_files("tag".to_string()).unwrap();
    assert_eq!(
        vec![fixture("x/d.0001.jp\u{e9}"), fixture("x/d.\u{663}.jpg")],
        files.untagged.numbered_files
    );
    assert_eq!(vec![1], files.untagged.numbers);
    assert_eq!(
        vec![fixture("x/d.0002.j\u{2603}"), fixture("x/d\u{e9}.0003.jpg")],
        files.untagged.rogue_files
    );
}

#[test]
fn base_name_and_tag_stand_for_themselves() {
    let listing = DirListing {
        dir: "/p/a+b".to_string(),
        entries: vec![
            entry("x/a+b.0001.jpg", false, 0),
            entry("x/aab.0002.jpg", false, 0),
            entry("x/a+b.t+g.0003.jpg", false, 0),
            entry("x/a+b.ttg.0004.jpg", false, 0),
        ],
    };
    let files = listing.categorise_files("t+g".to_string()).unwrap();
    assert_eq!(vec![fixture("x/a+b.0001.jpg")], files.untagged.numbered_files);
    assert_eq!(vec![fixture("x/a+b.t+g.0003.jpg")], files.tagged.numbered_files);
    assert_eq!(
        vec![fixture("x/a+b.ttg.0004.jpg"), fixture("x/aab.0002.jpg")],
        files.untagged.rogue_files
    );
}

#[test]
fn numbered_names_are_matched_whole() {
    let listing = DirListing {
        dir: "/p/some.dir".to_string(),
        entries: vec![
            entry("x/some.dir.0001.jpg", false, 0),
            entry("x/some.dir.1.j_p2", false, 0),
            entry("x/some.dir.0001.j-pg", false, 0),
            entry("x/some.dir.0001.jpg.bak", false, 0),
            entry("x/some.dir.tag.0001.jpg", false, 0),
            entry("x/some.dir.tag.tag.0001.jpg", false, 0),
            entry("x/xsome.dir.0001.jpg", false, 0),
            entry("x/some.dir.0001.", false, 0),
            entry("x/some.dir..jpg", false, 0),
        ],
    };
    let files = listing.categorise_files("tag".to_string()).unwrap();
    assert_eq!(
        vec![fixture("x/some.dir.0001.jpg"), fixture("x/some.dir.1.j_p2")],
        files.untagged.numbered_files
    );
    assert_eq!(vec![1], files.untagged.numbers);
    assert_eq!(vec![fixture("x/some.dir.tag.0001.jpg")], files.tagged.numbered_files);
    assert_eq!(vec![fixture("x/some.dir.tag.tag.0001.jpg")], files.tagged.rogue_files);
    assert_eq!(5, files.untagged.rogue_files.len());
}

#[test]
fn a_file_goes_with_its_kind() {
    let mut files = FilesInDir::new("/p/d".to_string(), "d", "tag");
    add_file(&mut files, "/p/d/d.0007.jpg".to_string(), "d.0007.jpg", "tag", true);
    add_file(&mut files, "/p/d/d.7.jpg".to_string(), "d.7.jpg", "tag", true);
    add_file(&mut files, "/p/d/d.tag.0003.jpg".to_string(), "d.tag.0003.jpg", "tag", true);
    add_file(&mut files, "/p/d/x.tag.0004.jpg".to_string(), "x.tag.0004.jpg", "tag", false);
    add_file(&mut files, "/p/d/x.jpg".to_string(), "x.jpg", "tag", false);
    assert_eq!(vec!["/p/d/d.0007.jpg", "/p/d/d.7.jpg"], files.untagged.numbered_files);
    assert_eq!(vec![7], files.untagged.numbers);
    assert_eq!(vec!["/p/d/x.jpg"], files.untagged.rogue_files);
    assert_eq!(vec!["/p/d/d.tag.0003.jpg"], files.tagged.numbered_files);
    assert_eq!(vec![3], files.tagged.numbers);
    assert_eq!(vec!["/p/d/x.tag.0004.jpg"], files.tagged.rogue_files);
    assert_eq!("d", files.untagged.basename);
    assert_eq!("d.tag", files.tagged.basename);
}

#[test]
fn the_naming_pattern_compiles() {
    assert!(naming_pattern("some.dir", "tag").is_some());
    assert!(naming_pattern("a(b", "[x").is_some());
    assert!(naming_pattern("", "").is_some());
}
