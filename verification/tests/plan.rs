use std::collections::BTreeMap;

use filetools::common::{
    announcement, collision_report, take_actions, ActionErrors, Command, Event, Executor,
};
use filetools::dir::{DirEntry, DirError, DirExt, DirListing};
use filetools::dir_consolidate::{actions, consolidate_actions_for_base};
use filetools::dir_num_by_age::{
    find_movers, find_next_link, find_source, make_move_list, movers_for_type, next_ready,
    schedule_pending, tmp_name, TmpNameError,
};
use filetools::file_tokens::FileTokens;
use filetools::planner::{plan, Operation, PlanError};
use filetools::types::{Opts, RenameActions};

fn fixture(file: &str) -> String {
    format!("/srv/tests/resources/{}", file)
}

fn entry(path: &str, mtime: i128) -> DirEntry {
    DirEntry { path: fixture(path), canonical: fixture(path), is_dir: false, mtime }
}

fn listing(dir: &str, names: &[&str]) -> DirListing {
    DirListing {
        dir: fixture(dir),
        entries: names.iter().map(|n| entry(&format!("{}/{}", dir, n), 0)).collect(),
    }
}

fn some_dir() -> DirListing {
    listing(
        "some.dir",
        &[
            "some.dir.tag.0004.jpg",
            "random_name.jpg",
            "some.dir.0005.jpg",
            "some.dir.tag.1234.jpg",
            "some.dir.0001.jpg",
            "some.dir.tag.0003.jpg",
            "other_random_name.jpg",
            "some.dir.0003.jpg",
            "random_name.tag.1234.jpg",
            "some.dir.tag.0002.jpg",
            "some.dir.0002.jpg",
        ],
    )
}

fn plan_of(dir: &DirListing, operation: Operation) -> Result<RenameActions, PlanError> {
    plan(dir, "tag", &operation)
}

fn file_token_with_time(file: &str, ts: i128) -> (String, FileTokens) {
    let tokens = FileTokens::new(file, "tag", ts).unwrap();
    (file.to_owned(), tokens)
}

/// Carries the plan out on a model of the directory and says where each
/// file ends up. Panics where a rename finds no file or an occupied path.
fn simulate(plan: &RenameActions, files: &[&str]) -> BTreeMap<String, String> {
    let mut at: BTreeMap<String, String> =
        files.iter().map(|f| (f.to_string(), f.to_string())).collect();
    for (src, dest) in plan {
        assert!(!at.contains_key(dest), "{} is occupied", dest);
        let file = at.remove(src).expect("the source is missing");
        at.insert(dest.clone(), file);
    }
    at
}

#[test]
fn test_consolidate_actions() {
    let files = some_dir().categorise_files("tag".to_string()).unwrap();
    let needs_work = actions(files);

    let expected: RenameActions = vec![
        (fixture("some.dir/some.dir.0005.jpg"), fixture("some.dir/some.dir.0004.jpg")),
        (fixture("some.dir/other_random_name.jpg"), fixture("some.dir/some.dir.0005.jpg")),
        (fixture("some.dir/random_name.jpg"), fixture("some.dir/some.dir.0006.jpg")),
        (fixture("some.dir/some.dir.tag.1234.jpg"), fixture("some.dir/some.dir.tag.0001.jpg")),
        (fixture("some.dir/random_name.tag.1234.jpg"), fixture("some.dir/some.dir.tag.0005.jpg")),
    ];

    assert_eq!(expected, needs_work);

    let sorted = listing(
        "sorted.dir",
        &["sorted.dir.0001.jpg", "sorted.dir.0002.jpg", "sorted.dir.0003.jpg"],
    );
    let expected_empty: RenameActions = Vec::new();
    assert_eq!(expected_empty, actions(sorted.categorise_files("xx".to_string()).unwrap()));
}

#[test]
fn test_find_next_link() {
    let inputs = &vec![
        (fixture("age.dir/age.dir.0002.jpg"), fixture("age.dir/age.dir.0001.jpg")),
        (fixture("age.dir/age.dir.0003.jpg"), fixture("age.dir/age.dir.0004.jpg")),
    ];

    assert_eq!(None, find_next_link(inputs, &fixture("age.dir/age.dir.1234.jpg")));

    assert_eq!(
        Some((0, (fixture("age.dir/age.dir.0002.jpg"), fixture("age.dir/age.dir.0001.jpg")))),
        find_next_link(inputs, &fixture("age.dir/age.dir.0002.jpg"))
    );
}

#[test]
fn test_make_move_list() {
    // Nothing to do.
    let empty_vec: Vec<(String, String)> = vec![];
    assert_eq!(empty_vec.clone(), make_move_list(empty_vec).unwrap());

    // One move, to an empty slot.
    assert_eq!(
        vec![(fixture("age.dir/age.dir.0004.jpg"), fixture("age.dir/age.dir.0003.jpg"))],
        make_move_list(vec![(
            fixture("age.dir/age.dir.0004.jpg"),
            fixture("age.dir/age.dir.0003.jpg"),
        )])
        .unwrap()
    );

    // Two to swap. This needs a temp file.
    assert_eq!(
        vec![
            (fixture("age.dir/age.dir.0003.jpg"), fixture("age.dir/_age.dir.0002.jpg")),
            (fixture("age.dir/age.dir.0002.jpg"), fixture("age.dir/age.dir.0003.jpg")),
            (fixture("age.dir/_age.dir.0002.jpg"), fixture("age.dir/age.dir.0002.jpg")),
        ],
        make_move_list(vec![
            (fixture("age.dir/age.dir.0003.jpg"), fixture("age.dir/age.dir.0002.jpg")),
            (fixture("age.dir/age.dir.0002.jpg"), fixture("age.dir/age.dir.0003.jpg")),
        ])
        .unwrap()
    );

    // Reverse the order of four files
    assert_eq!(
        vec![
            (fixture("age.dir/age.dir.0001.jpg"), fixture("age.dir/_age.dir.0004.jpg")),
            (fixture("age.dir/age.dir.0002.jpg"), fixture("age.dir/_age.dir.0003.jpg")),
            (fixture("age.dir/age.dir.0003.jpg"), fixture("age.dir/age.dir.0002.jpg")),
            (fixture("age.dir/age.dir.0004.jpg"), fixture("age.dir/age.dir.0001.jpg")),
            (fixture("age.dir/_age.dir.0004.jpg"), fixture("age.dir/age.dir.0004.jpg")),
            (fixture("age.dir/_age.dir.0003.jpg"), fixture("age.dir/age.dir.0003.jpg")),
        ],
        make_move_list(vec![
            (fixture("age.dir/age.dir.0001.jpg"), fixture("age.dir/age.dir.0004.jpg")),
            (fixture("age.dir/age.dir.0002.jpg"), fixture("age.dir/age.dir.0003.jpg")),
            (fixture("age.dir/age.dir.0003.jpg"), fixture("age.dir/age.dir.0002.jpg")),
            (fixture("age.dir/age.dir.0004.jpg"), fixture("age.dir/age.dir.0001.jpg")),
        ])
        .unwrap()
    );
}

#[test]
fn test_find_movers() {
    let now: i128 = 1_700_000_000_000_000_000;
    let second: i128 = 1_000_000_000;
    assert!(find_movers(&vec![
        file_token_with_time(&fixture("age.dir/age.dir.0001.jpg"), now - 3 * second),
        file_token_with_time(&fixture("age.dir/age.dir.0002.jpg"), now - 2 * second),
        file_token_with_time(&fixture("age.dir/age.dir.0003.jpg"), now - second),
    ])
    .is_empty());

    assert_eq!(
        vec![
            (fixture("age.dir/age.dir.0003.jpg"), fixture("age.dir/age.dir.0001.jpg")),
            (fixture("age.dir/age.dir.0001.jpg"), fixture("age.dir/age.dir.0003.jpg")),
        ],
        find_movers(&vec![
            file_token_with_time(&fixture("age.dir/age.dir.0003.jpg"), now - 3 * second),
            file_token_with_time(&fixture("age.dir/age.dir.0002.jpg"), now - 2 * second),
            file_token_with_time(&fixture("age.dir/age.dir.0001.jpg"), now - second),
        ]),
    );
}

fn renames(pairs: &[(&str, &str)]) -> RenameActions {
    pairs.iter().map(|(s, d)| (s.to_string(), d.to_string())).collect()
}

#[test]
fn chain_needs_no_temporary() {
    // a4 -> a3 -> a2 -> a1, the last slot being free: three renames, from
    // the free end, whatever the order of the request.
    let from_the_end = renames(&[("d/a2", "d/a1"), ("d/a3", "d/a2"), ("d/a4", "d/a3")]);
    let orders: Vec<Vec<(&str, &str)>> = vec![
        vec![("d/a4", "d/a3"), ("d/a3", "d/a2"), ("d/a2", "d/a1")],
        vec![("d/a2", "d/a1"), ("d/a3", "d/a2"), ("d/a4", "d/a3")],
        vec![("d/a3", "d/a2"), ("d/a4", "d/a3"), ("d/a2", "d/a1")],
        vec![("d/a3", "d/a2"), ("d/a2", "d/a1"), ("d/a4", "d/a3")],
    ];
    for order in orders {
        let plan = make_move_list(renames(&order)).unwrap();
        assert_eq!(from_the_end, plan);
        let ends = simulate(&plan, &["d/a2", "d/a3", "d/a4"]);
        assert_eq!(Some(&"d/a4".to_string()), ends.get("d/a3"));
        assert_eq!(Some(&"d/a2".to_string()), ends.get("d/a1"));
        assert_eq!(3, ends.len());
    }

    // The head of a chain first.
    assert_eq!(
        Ok(renames(&[("d/a2", "d/a3"), ("d/a1", "d/a2")])),
        make_move_list(renames(&[("d/a1", "d/a2"), ("d/a2", "d/a3")]))
    );
}

#[test]
fn a_source_that_looks_like_a_temporary() {
    let plan = make_move_list(renames(&[("d/_b", "d/b"), ("d/b", "d/c")])).unwrap();
    assert_eq!(renames(&[("d/b", "d/c"), ("d/_b", "d/b")]), plan);
    let ends = simulate(&plan, &["d/_b", "d/b"]);
    assert_eq!(Some(&"d/_b".to_string()), ends.get("d/b"));
    assert_eq!(Some(&"d/b".to_string()), ends.get("d/c"));
}

#[test]
fn temporaries_are_tested() {
    // The temporary for d/b is the source of another rename.
    assert_eq!(
        Err(TmpNameError::TemporaryTaken),
        make_move_list(renames(&[("d/a", "d/b"), ("d/b", "d/a"), ("d/_b", "d/c")]))
    );
    // It is the destination of another rename.
    assert_eq!(
        Err(TmpNameError::TemporaryTaken),
        make_move_list(renames(&[("d/a", "d/b"), ("d/b", "d/a"), ("d/c", "d/_b")]))
    );
    // Without the circle no temporary is needed, and the same paths do no harm.
    assert_eq!(
        Ok(renames(&[("d/a", "d/b"), ("d/_b", "d/c")])),
        make_move_list(renames(&[("d/a", "d/b"), ("d/_b", "d/c")]))
    );
    // Two circles get two temporaries.
    let plan = make_move_list(renames(&[
        ("d/a", "d/b"),
        ("d/b", "d/a"),
        ("e/a", "e/b"),
        ("e/b", "e/a"),
    ]))
    .unwrap();
    assert_eq!(
        renames(&[
            ("d/a", "d/_b"),
            ("d/b", "d/a"),
            ("e/a", "e/_b"),
            ("e/b", "e/a"),
            ("d/_b", "d/b"),
            ("e/_b", "e/b"),
        ]),
        plan
    );
    simulate(&plan, &["d/a", "d/b", "e/a", "e/b"]);
}

#[test]
fn the_rename_to_plan_next() {
    assert_eq!(Some(0), next_ready(&renames(&[("a", "b")])));
    assert_eq!(Some(1), next_ready(&renames(&[("a", "b"), ("c", "d"), ("b", "c")])));
    assert_eq!(Some(1), next_ready(&renames(&[("a", "b"), ("b", "x"), ("c", "a")])));
    assert_eq!(None, next_ready(&renames(&[("a", "b"), ("b", "a")])));
    assert_eq!(None, next_ready(&renames(&[("a", "a")])));
    // A circle that the first rename only leads to.
    assert_eq!(None, next_ready(&renames(&[("a", "b"), ("b", "c"), ("c", "b")])));
    assert_eq!(
        Some(1),
        find_source(&renames(&[("a", "b"), ("b", "c"), ("b", "d")]), &"b".to_string())
    );
    assert_eq!(None, find_source(&renames(&[("a", "b")]), &"b".to_string()));
}

#[test]
fn plans_never_overwrite() {
    let cases: Vec<(Vec<(&str, &str)>, Vec<&str>)> = vec![
        (vec![], vec!["d/a"]),
        (vec![("d/a4", "d/a3")], vec!["d/a4", "d/x"]),
        (vec![("d/a3", "d/a2"), ("d/a2", "d/a3")], vec!["d/a2", "d/a3"]),
        (
            vec![("d/a1", "d/a4"), ("d/a2", "d/a3"), ("d/a3", "d/a2"), ("d/a4", "d/a1")],
            vec!["d/a1", "d/a2", "d/a3", "d/a4"],
        ),
        (
            vec![("d/a1", "d/a2"), ("d/a2", "d/a3"), ("d/a3", "d/a1"), ("d/b", "d/c")],
            vec!["d/a1", "d/a2", "d/a3", "d/b", "d/z"],
        ),
        (
            vec![("d/a1", "d/a2"), ("d/a2", "d/a3"), ("d/a3", "d/a4")],
            vec!["d/a1", "d/a2", "d/a3"],
        ),
    ];
    for (raw, files) in cases {
        let input: RenameActions =
            raw.iter().map(|(s, d)| (s.to_string(), d.to_string())).collect();
        let plan = make_move_list(input).unwrap();
        let ends = simulate(&plan, &files);
        assert_eq!(files.len(), ends.len());
        for (src, dest) in &raw {
            assert_eq!(Some(&src.to_string()), ends.get(*dest));
        }
        for f in &files {
            if !raw.iter().any(|(s, _)| s == f) {
                assert_eq!(Some(&f.to_string()), ends.get(*f));
            }
        }
    }
}

#[test]
fn plan_lengths() {
    let swap = make_move_list(vec![
        ("d/a3".to_string(), "d/a2".to_string()),
        ("d/a2".to_string(), "d/a3".to_string()),
    ])
    .unwrap();
    assert_eq!(3, swap.len());
    let reversal = make_move_list(vec![
        ("d/a1".to_string(), "d/a4".to_string()),
        ("d/a2".to_string(), "d/a3".to_string()),
        ("d/a3".to_string(), "d/a2".to_string()),
        ("d/a4".to_string(), "d/a1".to_string()),
    ])
    .unwrap();
    assert_eq!(6, reversal.len());
    let cycle = make_move_list(vec![
        ("d/a1".to_string(), "d/a2".to_string()),
        ("d/a2".to_string(), "d/a3".to_string()),
        ("d/a3".to_string(), "d/a1".to_string()),
    ])
    .unwrap();
    assert_eq!(
        renames(&[("d/a1", "d/_a2"), ("d/a3", "d/a1"), ("d/a2", "d/a3"), ("d/_a2", "d/a2")]),
        cycle
    );
    // Without a circle there are as many renames as were asked for.
    let plain = make_move_list(renames(&[("d/a", "d/b"), ("d/c", "d/a"), ("d/x", "d/y")])).unwrap();
    assert_eq!(renames(&[("d/a", "d/b"), ("d/c", "d/a"), ("d/x", "d/y")]), plain);
}

#[test]
fn temporary_names() {
    assert_eq!(Ok("/a/b/_c.jpg".to_string()), tmp_name("/a/b/c.jpg"));
    assert_eq!(Ok("_c".to_string()), tmp_name("c"));
    assert_eq!(Ok("a/_b".to_string()), tmp_name("a/b/"));
    assert_eq!(Err(TmpNameError::NoParent), tmp_name("/"));
    assert_eq!(Err(TmpNameError::NoParent), tmp_name(""));
    assert_eq!(Err(TmpNameError::NoFileName), tmp_name("a/.."));
}

#[test]
fn plan_fails_without_temporary() {
    assert_eq!(
        Err(TmpNameError::NoFileName),
        make_move_list(vec![
            ("d/a".to_string(), "d/..".to_string()),
            ("d/..".to_string(), "d/a".to_string()),
        ])
    );
    // A destination without a temporary does no harm where none is needed.
    assert!(make_move_list(vec![("d/a".to_string(), "d/..".to_string())]).is_ok());
}

#[test]
fn age_order_decides_the_numbers() {
    let files = vec![
        file_token_with_time("d/d.0001.jpg", 30),
        file_token_with_time("d/d.0002.jpg", 10),
        file_token_with_time("d/notes.txt.bak", 5),
        file_token_with_time("d/d.0003.jpg", 20),
    ];
    let plan = movers_for_type(files).unwrap();
    let ends = simulate(&plan, &["d/d.0001.jpg", "d/d.0002.jpg", "d/d.0003.jpg", "d/notes.txt.bak"]);
    assert_eq!(Some(&"d/d.0002.jpg".to_string()), ends.get("d/d.0001.jpg"));
    assert_eq!(Some(&"d/d.0003.jpg".to_string()), ends.get("d/d.0002.jpg"));
    assert_eq!(Some(&"d/d.0001.jpg".to_string()), ends.get("d/d.0003.jpg"));
    assert_eq!(Some(&"d/notes.txt.bak".to_string()), ends.get("d/notes.txt.bak"));

    // Files of the same age keep the order in which they came.
    let files = vec![
        file_token_with_time("d/d.0002.jpg", 7),
        file_token_with_time("d/d.0001.jpg", 7),
    ];
    let plan = movers_for_type(files).unwrap();
    let ends = simulate(&plan, &["d/d.0001.jpg", "d/d.0002.jpg"]);
    assert_eq!(Some(&"d/d.0002.jpg".to_string()), ends.get("d/d.0001.jpg"));
    assert_eq!(Some(&"d/d.0001.jpg".to_string()), ends.get("d/d.0002.jpg"));
}

#[test]
fn age_plan_of_a_directory() {
    let listing = DirListing {
        dir: "/p/d".to_string(),
        entries: vec![
            DirEntry {
                path: "/p/d/d.0001.jpg".to_string(),
                canonical: "/p/d/d.0001.jpg".to_string(),
                is_dir: false,
                mtime: 2,
            },
            DirEntry {
                path: "/p/d/d.tag.0001.jpg".to_string(),
                canonical: "/p/d/d.tag.0001.jpg".to_string(),
                is_dir: false,
                mtime: 1,
            },
            DirEntry {
                path: "/p/d/d.0002.jpg".to_string(),
                canonical: "/p/d/d.0002.jpg".to_string(),
                is_dir: false,
                mtime: 1,
            },
            DirEntry {
                path: "/p/d/sub.0003.dir".to_string(),
                canonical: "/p/d/sub.0003.dir".to_string(),
                is_dir: true,
                mtime: 0,
            },
        ],
    };
    let plan = filetools::dir_num_by_age::actions(listing.file_token_map("tag")).unwrap();
    assert_eq!(
        vec![
            ("/p/d/d.0002.jpg".to_string(), "/p/d/_d.0001.jpg".to_string()),
            ("/p/d/d.0001.jpg".to_string(), "/p/d/d.0002.jpg".to_string()),
            ("/p/d/_d.0001.jpg".to_string(), "/p/d/d.0001.jpg".to_string()),
        ],
        plan
    );
}

#[test]
fn consolidation_sorts_by_number() {
    // As text 10000 comes before 9999; as a number it comes behind.
    let listing = listing("d", &["d.10000.jpg", "d.9999.jpg", "d.0001.jpg"]);
    let files = listing.categorise_files("tag".to_string()).unwrap();
    assert_eq!(
        vec![
            (fixture("d/d.10000.jpg"), fixture("d/d.0002.jpg")),
            (fixture("d/d.9999.jpg"), fixture("d/d.0003.jpg")),
        ],
        consolidate_actions_for_base(files.untagged)
    );
}

#[test]
fn consolidation_targets_do_not_collide() {
    let files = some_dir().categorise_files("tag".to_string()).unwrap();
    let plan = actions(files);
    for (i, a) in plan.iter().enumerate() {
        for b in plan.iter().skip(i + 1) {
            assert_ne!(a.1, b.1);
        }
    }
}

fn drive(total: usize, opts: &Opts, exists: &[bool], renamed: &[bool]) -> (Vec<Command>, usize) {
    let (mut run, mut command): (Executor, Command) = take_actions(Some(total), opts);
    let mut seen = vec![command];
    loop {
        let event = match command {
            Command::Announce(_) => Event::Announced,
            Command::Probe(i) => Event::Probed(exists[i]),
            Command::ReportCollision(_) => Event::CollisionReported,
            Command::Rename(i) => Event::Renamed(renamed[i]),
            Command::Finish(failures) => return (seen, failures),
        };
        command = run.step(event);
        seen.push(command);
    }
}

#[test]
fn executor_counts_failures() {
    let quiet = Opts { noop: false, tag: "raw".to_string(), verbose: false };
    let (seen, failures) =
        drive(3, &quiet, &[false, true, false], &[true, true, false]);
    assert_eq!(
        vec![
            Command::Probe(0),
            Command::Rename(0),
            Command::Probe(1),
            Command::ReportCollision(1),
            Command::Probe(2),
            Command::Rename(2),
            Command::Finish(2),
        ],
        seen
    );
    assert_eq!(2, failures);

    let verbose = Opts { noop: false, tag: "raw".to_string(), verbose: true };
    let (seen, failures) = drive(1, &verbose, &[false], &[true]);
    assert_eq!(
        vec![Command::Announce(0), Command::Probe(0), Command::Rename(0), Command::Finish(0)],
        seen
    );
    assert_eq!(0, failures);

    let dry = Opts { noop: true, tag: "raw".to_string(), verbose: false };
    let (seen, failures) = drive(2, &dry, &[true, true], &[false, false]);
    assert_eq!(vec![Command::Announce(0), Command::Announce(1), Command::Finish(0)], seen);
    assert_eq!(0, failures);

    let (seen, _) = drive(0, &quiet, &[], &[]);
    assert_eq!(vec![Command::Finish(0)], seen);
}

#[test]
fn executor_ignores_what_it_did_not_ask_for() {
    let quiet = Opts { noop: false, tag: "raw".to_string(), verbose: false };
    let (mut run, command) = take_actions(Some(1), &quiet);
    assert_eq!(Command::Probe(0), command);
    assert_eq!(Command::Probe(0), run.step(Event::Renamed(false)));
    assert_eq!(Command::Probe(0), run.step(Event::Start));
    assert_eq!(Command::Rename(0), run.step(Event::Probed(false)));
    assert_eq!(Command::Finish(1), run.step(Event::Renamed(false)));
    assert_eq!(Command::Finish(1), run.step(Event::Announced));
    assert_eq!(Err(ActionErrors::Failed(1)), run.verdict());
    let (run, _) = take_actions(Some(0), &quiet);
    assert_eq!(Ok(()), run.verdict());
}

#[test]
fn no_plan_is_one_failure_and_no_rename() {
    for (noop, verbose) in [(false, false), (true, false), (false, true), (true, true)] {
        let opts = Opts { noop, tag: "raw".to_string(), verbose };
        let (mut run, command) = take_actions(None, &opts);
        assert_eq!(Command::Finish(1), command);
        assert_eq!(Err(ActionErrors::Failed(1)), run.verdict());
        assert_eq!(Command::Finish(1), run.step(Event::Start));
        assert_eq!(Command::Finish(1), run.step(Event::Probed(false)));
        assert_eq!(Command::Finish(1), run.step(Event::Renamed(true)));
        assert_eq!(Err(ActionErrors::Failed(1)), run.verdict());
    }
    let opts = Opts { noop: false, tag: "raw".to_string(), verbose: false };
    let (run, command) = take_actions(Some(0), &opts);
    assert_eq!(Command::Finish(0), command);
    assert_eq!(Ok(()), run.verdict());
}

#[test]
fn plans_by_operation() {
    let dir = some_dir();
    let plan = plan(&dir, "tag", &Operation::Consolidate).unwrap();
    assert_eq!(5, plan.len());
    assert_eq!(
        (fixture("some.dir/some.dir.0005.jpg"), fixture("some.dir/some.dir.0004.jpg")),
        plan[0]
    );
    assert_eq!(
        (fixture("some.dir/random_name.jpg"), fixture("some.dir/some.dir.0006.jpg")),
        plan[2]
    );

    assert_eq!(
        Ok(vec![(fixture("some.dir/whatever.JPG"), fixture("some.dir/some.dir.tag.0001.JPG"))]),
        plan_of(&dir, Operation::SetTag(fixture("some.dir/whatever.JPG")))
    );
    assert_eq!(
        Ok(vec![(fixture("some.dir/whatever.JPG"), fixture("some.dir/some.dir.tag.0001.JPG"))]),
        plan_of(&dir, Operation::Flip(fixture("some.dir/whatever.JPG")))
    );
    assert_eq!(
        Ok(vec![(fixture("some.dir/a.tag.0001.jpg"), fixture("some.dir/some.dir.0004.jpg"))]),
        plan_of(&dir, Operation::Flip(fixture("some.dir/a.tag.0001.jpg")))
    );
    assert_eq!(Ok(vec![]), plan_of(&dir, Operation::UnsetTag(fixture("some.dir/whatever.JPG"))));

    let aged = DirListing {
        dir: fixture("age.dir"),
        entries: vec![
            entry("age.dir/age.dir.0001.jpg", 1),
            entry("age.dir/age.dir.0002.jpg", 2),
            entry("age.dir/age.dir.0003.jpg", 3),
        ],
    };
    assert_eq!(Ok(vec![]), plan_of(&aged, Operation::NumByAge));
    assert_eq!(Ok(vec![]), plan_of(&aged, Operation::Consolidate));
}

#[test]
fn plans_fail_by_kind() {
    let nameless = DirListing { dir: "/".to_string(), entries: vec![] };
    assert_eq!(
        Err(PlanError::Directory(DirError::InvalidDirectoryName)),
        plan_of(&nameless, Operation::Consolidate)
    );
    assert_eq!(Ok(vec![]), plan_of(&nameless, Operation::NumByAge));

    let full = listing("d", &["d.2147483647.jpg"]);
    assert_eq!(
        Err(PlanError::NumbersExhausted),
        plan_of(&full, Operation::UnsetTag(fixture("d/x.tag.0001.jpg")))
    );
    assert_eq!(
        Ok(vec![(fixture("d/x.jpg"), fixture("d/d.tag.0001.jpg"))]),
        plan_of(&full, Operation::SetTag(fixture("d/x.jpg")))
    );
}

#[test]
fn lines_of_the_executor() {
    let action = ("d/a".to_string(), "d/b".to_string());
    assert_eq!("d/a -> d/b", announcement(&action));
    assert_eq!("ERROR: d/b exists", collision_report(&action));
}

fn pending(source: &str, dest: &str, temp: &str) -> (String, String, Result<String, TmpNameError>) {
    (source.to_string(), dest.to_string(), Ok(temp.to_string()))
}

#[test]
fn plans_with_given_temporaries() {
    // Nothing to do.
    assert_eq!(Ok(vec![]), schedule_pending(vec![]));

    // One rename, to a vacant place.
    assert_eq!(
        Ok(vec![("a4".to_string(), "a3".to_string())]),
        schedule_pending(vec![pending("a4", "a3", "_tmp_a3")])
    );

    // Two files change places.
    assert_eq!(
        Ok(vec![
            ("a3".to_string(), "_tmp_a2".to_string()),
            ("a2".to_string(), "a3".to_string()),
            ("_tmp_a2".to_string(), "a2".to_string()),
        ]),
        schedule_pending(vec![pending("a3", "a2", "_tmp_a2"), pending("a2", "a3", "_tmp_a3")])
    );

    // Four files in reversed order: two temporaries, six renames.
    let plan = schedule_pending(vec![
        pending("a1", "a4", "_tmp_a4"),
        pending("a2", "a3", "_tmp_a3"),
        pending("a3", "a2", "_tmp_a2"),
        pending("a4", "a1", "_tmp_a1"),
    ])
    .unwrap();
    assert_eq!(6, plan.len());
    assert_eq!(
        vec![
            ("a1".to_string(), "_tmp_a4".to_string()),
            ("a2".to_string(), "_tmp_a3".to_string()),
            ("a3".to_string(), "a2".to_string()),
            ("a4".to_string(), "a1".to_string()),
            ("_tmp_a4".to_string(), "a4".to_string()),
            ("_tmp_a3".to_string(), "a3".to_string()),
        ],
        plan
    );
    let ends = simulate(&plan, &["a1", "a2", "a3", "a4"]);
    assert_eq!(Some(&"a1".to_string()), ends.get("a4"));
    assert_eq!(Some(&"a3".to_string()), ends.get("a2"));

    // Where the temporary is missing and needed, there is no plan.
    assert_eq!(
        Err(TmpNameError::NoParent),
        schedule_pending(vec![
            ("a".to_string(), "b".to_string(), Err(TmpNameError::NoParent)),
            pending("b", "a", "_a"),
        ])
    );

    // A temporary that is a path of the request, or was used, is not used.
    assert_eq!(
        Err(TmpNameError::TemporaryTaken),
        schedule_pending(vec![pending("a", "b", "c"), pending("b", "a", "t"), pending("c", "d", "u")])
    );
    assert_eq!(
        Err(TmpNameError::TemporaryTaken),
        schedule_pending(vec![
            pending("a", "b", "t"),
            pending("b", "a", "u"),
            pending("c", "d", "t"),
            pending("d", "c", "v"),
        ])
    );
    // A missing temporary does no harm where none is needed.
    assert_eq!(
        Ok(vec![("b".to_string(), "c".to_string()), ("a".to_string(), "b".to_string())]),
        schedule_pending(vec![
            ("a".to_string(), "b".to_string(), Err(TmpNameError::NoFileName)),
            ("b".to_string(), "c".to_string(), Err(TmpNameError::NoParent)),
        ])
    );
}
