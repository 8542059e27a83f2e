use filetools::align_mtimes::{check_directories, touch_directory, verdict, Touch, TouchError};

fn stamp(path: &str, time: i128) -> (String, i128) {
    (path.to_string(), time)
}

#[test]
fn times_follow_the_source() {
    let source = vec![stamp("a.txt", 10), stamp("b/c.txt", 20), stamp("only.txt", 30)];
    let dest = vec![stamp("b/c.txt", 20), stamp("a.txt", 11), stamp("extra.txt", 5)];
    let touches = touch_directory("/dest", &source, &dest);
    assert_eq!(3, touches.len());
    match &touches[0] {
        Touch::Change(path, time) => {
            assert_eq!("/dest/a.txt", path);
            assert_eq!(10, *time);
        }
        _ => panic!("a.txt is to be changed"),
    }
    match &touches[1] {
        Touch::Correct(path) => assert_eq!("b/c.txt", path),
        _ => panic!("b/c.txt is correct"),
    }
    match &touches[2] {
        Touch::Missing(path) => assert_eq!("only.txt", path),
        _ => panic!("only.txt has no counterpart"),
    }
    assert!(touch_directory("/dest", &vec![], &dest).is_empty());
}

#[test]
fn directories_and_verdicts() {
    assert_eq!(Err(TouchError::NoSource), check_directories(false, false));
    assert_eq!(Err(TouchError::NoSource), check_directories(false, true));
    assert_eq!(Err(TouchError::NoDestination), check_directories(true, false));
    assert_eq!(Ok(()), check_directories(true, true));
    assert_eq!(Ok(()), verdict(0));
    assert_eq!(Err(TouchError::Failed(3)), verdict(3));
}
