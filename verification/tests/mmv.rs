use filetools::mmv::{
    check_patterns, process, process_file, process_info, rename, target_path, try_process_file,
    try_target_path, Args, FileAction, Opts, Step, TargetError,
};
use filetools::replace::{all, first, nth, usable};

fn default_file() -> String {
    String::from("tests/data/mmv/file_file_file.txt")
}

fn default_args() -> Args {
    Args {
        pattern: String::from("file"),
        replace: String::from("new"),
        clobber: false,
        full_names: false,
        noop: true,
        verbose: true,
        replace_all: false,
        replace_nth: None,
        terse_output: false,
        files: vec![default_file()],
    }
}

#[test]
fn test_process_output() {
    assert_eq!(
        Ok(String::from("")),
        process_info(&default_file(), &default_file(), false, false)
    );

    assert_eq!(
        Ok(String::from("dir/file_a -> dir/file_b")),
        process_info("dir/file_a", "dir/file_b", true, false)
    );

    assert_eq!(
        Ok(String::from("dir/file_a -> file_b")),
        process_info("dir/file_a", "dir/file_b", true, true)
    );
}

#[test]
fn target_does_not_exist() {
    assert_eq!(
        Err(String::from("file not found")),
        target_path("/file/does/not/exist", false, &default_args())
    );
}

#[test]
fn main_target_requires_no_change() {
    let mut args = default_args();
    args.pattern = String::from("nomatch");

    assert_eq!(Ok(default_file()), target_path(&default_file(), true, &args));
}

#[test]
fn main_target_requires_change_of_first_match() {
    assert_eq!(
        Ok(String::from("tests/data/mmv/new_file_file.txt")),
        target_path(&default_file(), true, &default_args())
    );
}

#[test]
fn main_target_requires_change_of_second_match() {
    let mut args = default_args();
    args.replace_nth = Some(1);

    assert_eq!(
        Ok(String::from("tests/data/mmv/file_new_file.txt")),
        target_path(&default_file(), true, &args)
    );
}

#[test]
fn main_target_requires_change_of_all_matches() {
    let mut args = default_args();
    args.replace_all = true;

    assert_eq!(
        Ok(String::from("tests/data/mmv/new_new_new.txt")),
        target_path(&default_file(), true, &args)
    );
}

#[test]
fn main_target_requires_change_of_all_regex() {
    let mut args = default_args();
    args.pattern = String::from("f([a-z]+)e");
    args.replace = String::from("b${1}l");
    args.replace_all = true;

    assert_eq!(
        Ok(String::from("tests/data/mmv/bill_bill_bill.txt")),
        target_path(&default_file(), true, &args)
    );
}

#[test]
fn test_nth() {
    assert_eq!("no_change", nth("one", "two", "no_change", 0));
    assert_eq!("one_two_one", nth("one", "two", "one_one_one", 1));
}

#[test]
fn test_first() {
    assert_eq!("no_change", first("one", "two", "no_change"));
    assert_eq!("name_two", first("one", "two", "name_one"));
    assert_eq!("two_word_word", first("word", "two", "word_word_word"));
    assert_eq!("two_words", first("one_(\\w*)", "two_${1}s", "one_word"));
    assert_eq!(
        "two_cats_and_a_dog",
        first("(dog)(.*)(cat)", "${3}${2}${1}", "two_dogs_and_a_cat")
    );
    assert_eq!("nerd_word_word", first("wo(..)", "ne${1}", "word_word_word"));
}

#[test]
fn test_all() {
    assert_eq!("no_change", all("one", "two", "no_change"));
    assert_eq!("name_two", all("one", "two", "name_one"));
    assert_eq!("two_two_two", all("word", "two", "word_word_word"));
    assert_eq!("nerd_nerd_nerd", all("wo(..)", "ne${1}", "word_word_word"));
}

#[test]
fn nth_replaces_one_match_only() {
    assert_eq!("two_one_one", nth("one", "two", "one_one_one", 0));
    assert_eq!("one_one_two", nth("one", "two", "one_one_one", 2));
    assert_eq!("one_one_one", nth("one", "two", "one_one_one", 3));
}

#[test]
fn patterns_are_checked_before_use() {
    assert!(usable("file", "new"));
    assert!(!usable("fi(le", "new"));
    assert!(!usable("file", "ne(w"));

    let mut args = default_args();
    args.pattern = String::from("fi(le");
    assert!(!check_patterns(&args));
    assert_eq!(
        Err(String::from("invalid pattern")),
        try_target_path(&default_file(), true, &args)
    );
    assert_eq!(
        Err(String::from("file not found")),
        try_target_path(&default_file(), false, &args)
    );

    // The replacement is read as a pattern only where a later match is asked for.
    let mut args = default_args();
    args.replace = String::from("ne(w");
    assert!(check_patterns(&args));
    args.replace_nth = Some(0);
    assert!(check_patterns(&args));
    args.replace_nth = Some(1);
    assert!(!check_patterns(&args));
    args.replace_nth = Some(usize::MAX);
    args.replace = String::from("new");
    assert!(!check_patterns(&args));

    assert_eq!(
        Ok(String::from("tests/data/mmv/new_file_file.txt")),
        try_target_path(&default_file(), true, &default_args())
    );
}

#[test]
fn rename_refuses_to_overwrite() {
    assert_eq!(Ok(()), rename(false, false));
    assert_eq!(Ok(()), rename(false, true));
    assert_eq!(Ok(()), rename(true, true));
    assert_eq!(Err(String::from("filename collision")), rename(true, false));
}

#[test]
fn process_file_decides() {
    let mut args = default_args();
    match process_file(&default_file(), true, &args).unwrap() {
        FileAction::Rename { target, attempt, message } => {
            assert_eq!("tests/data/mmv/new_file_file.txt", target);
            assert!(!attempt);
            assert_eq!(
                "tests/data/mmv/file_file_file.txt -> tests/data/mmv/new_file_file.txt",
                message
            );
        }
        FileAction::NoChange(_) => panic!("a rename was expected"),
    }

    args.noop = false;
    args.verbose = false;
    match process_file(&default_file(), true, &args).unwrap() {
        FileAction::Rename { target, attempt, message } => {
            assert_eq!("tests/data/mmv/new_file_file.txt", target);
            assert!(attempt);
            assert_eq!("", message);
        }
        FileAction::NoChange(_) => panic!("a rename was expected"),
    }

    args.verbose = true;
    args.terse_output = true;
    match process_file(&default_file(), true, &args).unwrap() {
        FileAction::Rename { message, .. } => {
            assert_eq!("tests/data/mmv/file_file_file.txt -> new_file_file.txt", message);
        }
        FileAction::NoChange(_) => panic!("a rename was expected"),
    }

    args.pattern = String::from("nomatch");
    match process_file(&default_file(), true, &args).unwrap() {
        FileAction::NoChange(message) => assert_eq!(": no change", message),
        FileAction::Rename { .. } => panic!("no rename was expected"),
    }

    assert_eq!(
        Some(String::from("file not found")),
        process_file(&default_file(), false, &args).err()
    );
    args.pattern = String::from("(");
    assert_eq!(
        Some(String::from("invalid pattern")),
        try_process_file(&default_file(), true, &args).err()
    );
}

#[test]
fn terse_output_of_a_path_without_name() {
    assert_eq!(Ok(String::from("a -> ..")), process_info("a", "..", true, true));
}

fn fixture(file: &str) -> String {
    format!("/srv/tests/resources/{}", file)
}

fn default_opts() -> Opts {
    Opts {
        pattern: String::from("file"),
        replace: String::from("new"),
        clobber: false,
        full_names: false,
        git: false,
        noop: true,
        verbose: true,
        replace_all: false,
        replace_nth: None,
        terse_output: false,
    }
}

#[test]
fn target_requires_no_change() {
    let opts = Opts { pattern: String::from("does_not_match"), ..default_opts() };

    assert_eq!(
        fixture("file_file_file.txt"),
        opts.target_path(&fixture("file_file_file.txt")).unwrap()
    );
}

#[test]
fn target_requires_change_of_first_match() {
    let opts = default_opts();

    assert_eq!(
        fixture("new_file_file.txt"),
        opts.target_path(&fixture("file_file_file.txt")).unwrap()
    );
}

#[test]
fn target_requires_change_of_second_match() {
    let opts = Opts { replace_nth: Some(1), ..default_opts() };

    assert_eq!(
        fixture("file_new_file.txt"),
        opts.target_path(&fixture("file_file_file.txt")).unwrap()
    );
}

#[test]
fn target_requires_change_of_all_matches() {
    let opts = Opts { replace_all: true, ..default_opts() };

    assert_eq!(
        fixture("new_new_new.txt"),
        opts.target_path(&fixture("file_file_file.txt")).unwrap()
    );
}

#[test]
fn target_requires_change_of_all_regex() {
    let opts = Opts {
        pattern: String::from("f([a-z]+)e"),
        replace: String::from("b${1}l"),
        replace_all: true,
        ..default_opts()
    };

    assert_eq!(
        fixture("bill_bill_bill.txt"),
        opts.target_path(&fixture("file_file_file.txt")).unwrap()
    );
}

#[test]
fn the_directory_is_left_alone() {
    let opts = Opts { replace_all: true, ..default_opts() };
    assert_eq!(Ok("/file/file/new_new".to_string()), opts.target_path("/file/file/file_file"));
    assert_eq!(Err(TargetError::NoParent), opts.target_path("/"));
    assert_eq!(Err(TargetError::NoFileName), opts.target_path("a/.."));
    let broken = Opts { pattern: String::from("("), ..default_opts() };
    assert!(!broken.check_patterns());
    assert_eq!(Err(TargetError::InvalidPattern), broken.try_target_path("/a/file"));
    assert_eq!(Ok("/a/new".to_string()), opts.try_target_path("/a/file"));
}

#[test]
fn steps_of_the_renamer() {
    let mut opts = default_opts();
    match opts.process_file("d/file_a", "/p/d/file_b").unwrap() {
        Step::Rename { target, line, attempt } => {
            assert_eq!("/p/d/file_b", target);
            assert_eq!(Some("file_a -> file_b".to_string()), line);
            assert!(!attempt);
        }
        _ => panic!("a rename was expected"),
    }
    opts.full_names = true;
    opts.noop = false;
    match opts.process_file("d/file_a", "/p/d/file_b").unwrap() {
        Step::Rename { line, attempt, .. } => {
            assert_eq!(Some("d/file_a -> /p/d/file_b".to_string()), line);
            assert!(attempt);
        }
        _ => panic!("a rename was expected"),
    }
    opts.full_names = false;
    opts.verbose = false;
    match opts.process_file("d/file_a", "/p/d/file_b").unwrap() {
        Step::Rename { line, .. } => assert_eq!(None, line),
        _ => panic!("a rename was expected"),
    }
    opts.terse_output = true;
    match opts.process_file("d/file_a", "/p/d/file_b").unwrap() {
        Step::Rename { line, .. } => assert_eq!(Some("file_b".to_string()), line),
        _ => panic!("a rename was expected"),
    }
    opts.git = true;
    match opts.process_file("d/file_a", "/p/d/file_b").unwrap() {
        Step::Git { command } => assert_eq!("git mv d/file_a /p/d/file_b", command),
        _ => panic!("a command was expected"),
    }
    match opts.process_file("d/file_a", "/p/d/file_a").unwrap() {
        Step::Keep { line } => assert_eq!(None, line),
        _ => panic!("no rename was expected"),
    }
    opts.verbose = true;
    match opts.process_file("d/file_a", "/p/d/file_a").unwrap() {
        Step::Keep { line } => assert_eq!(Some("file_a: no change".to_string()), line),
        _ => panic!("no rename was expected"),
    }
    assert_eq!(Some(TargetError::NoFileName), opts.process_file("..", "/p/d/file_a").err());
    assert_eq!(Some(TargetError::NoTargetName), opts.process_file("a", "/").err());
}

#[test]
fn what_is_printed_for_a_file() {
    let mut args = default_args();
    args.noop = false;
    args.verbose = true;
    assert_eq!(
        Some("f a -> b".to_string()),
        process("f", &Ok("a -> b".to_string()), &args)
    );
    assert_eq!(None, process("f", &Ok(": no change".to_string()), &args));
    args.noop = true;
    assert_eq!(Some("f : no change".to_string()), process("f", &Ok(": no change".to_string()), &args));
    args.noop = false;
    args.verbose = false;
    assert_eq!(None, process("f", &Ok("a -> b".to_string()), &args));
    assert_eq!(
        Some("ERROR: f: file not found".to_string()),
        process("f", &Err("file not found".to_string()), &args)
    );
}
