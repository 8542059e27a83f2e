use filetools::alsort::{group_from_initial, initial, process, target_from_initial, Sorting};

#[test]
fn test_target_from_initial() {
    assert_eq!("/test/dir/wxyz", target_from_initial('x', "/test/dir", true));
    assert_eq!("/test/dir/x", target_from_initial('x', "/test/dir", false));
}

#[test]
fn test_group_from_initial() {
    assert_eq!("abc".to_string(), group_from_initial('b'));
    assert_eq!("tuv".to_string(), group_from_initial('t'));
    assert_eq!("wxyz".to_string(), group_from_initial('w'));
    assert_eq!("pqrs".to_string(), group_from_initial('p'));
    assert_eq!("pqrs".to_string(), group_from_initial('s'));
    assert_eq!("jkl".to_string(), group_from_initial('j'));
    assert_eq!("abc".to_string(), group_from_initial('b'));
    assert_eq!("def".to_string(), group_from_initial('e'));
    assert_eq!("0-9".to_string(), group_from_initial('7'));
    assert_eq!("symbols".to_string(), group_from_initial('!'));
    assert_eq!("symbols".to_string(), group_from_initial('_'));
    assert_eq!("symbols".to_string(), group_from_initial(' '));
    assert_eq!("symbols".to_string(), group_from_initial('*'));
}

#[test]
fn every_group_has_its_letters() {
    for (letters, group) in [
        ("0123456789", "0-9"),
        ("abc", "abc"),
        ("def", "def"),
        ("ghi", "ghi"),
        ("jkl", "jkl"),
        ("mno", "mno"),
        ("pqrs", "pqrs"),
        ("tuv", "tuv"),
        ("wxyz", "wxyz"),
        ("A/:@`{é", "symbols"),
    ] {
        for c in letters.chars() {
            assert_eq!(group, group_from_initial(c));
        }
    }
}

#[test]
fn initial_is_lower_case() {
    assert_eq!(Some('a'), initial("A_file.txt"));
    assert_eq!(Some('é'), initial("École"));
    assert_eq!(None, initial(""));
}

#[test]
fn files_stay_or_go() {
    assert_eq!(Sorting::Stay, process("/r/abc", "/r/abc", true, false));
    assert_eq!(
        Sorting::Go { announce: false, carry_out: true },
        process("/r/a_file.txt", "/r/abc", false, false)
    );
    assert_eq!(
        Sorting::Go { announce: true, carry_out: false },
        process("/r/a_file.txt", "/r/abc", false, true)
    );
}

#[test]
fn test_process() {
    // The file lies in the root and goes to the directory of its group.
    let root = "/tmp/sorting";
    let file_under_test = format!("{}/a_file.txt", root);
    let target_dir = target_from_initial(initial("a_file.txt").unwrap(), root, true);
    assert_eq!("/tmp/sorting/abc", target_dir);
    assert!(matches!(
        process(&file_under_test, &target_dir, false, false),
        Sorting::Go { announce: false, carry_out: true }
    ));
}

#[test]
fn test_process_ignores_target() {
    // The directory of a group is not sorted into itself.
    let root = "/tmp/sorting";
    let file_under_test = format!("{}/abc", root);
    let target_dir = target_from_initial(initial("abc").unwrap(), root, true);
    assert!(matches!(process(&file_under_test, &target_dir, false, false), Sorting::Stay));
}
