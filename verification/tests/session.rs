use extsweep::deleter::DeleteOutcome;
use extsweep::index::build;
use extsweep::session::{
    browse_files_by_extension, main_menu_loop, normalize_extension_input, parse_menu_choice,
    step, Command, MainMenuOption, Report, BATCH_SIZE,
};

fn b(s: &str) -> Vec<u8> {
    s.as_bytes().to_vec()
}

fn entries(names: &[&str]) -> Vec<Vec<u8>> {
    names.iter().map(|n| b(n)).collect()
}

#[test]
fn menu_choices_parse() {
    assert_eq!(parse_menu_choice(&b("1")), Some(MainMenuOption::ViewCounts));
    assert_eq!(parse_menu_choice(&b("2")), Some(MainMenuOption::BrowseFiles));
    assert_eq!(parse_menu_choice(&b("3")), Some(MainMenuOption::DeleteFiles));
    assert_eq!(
        parse_menu_choice(&b("4")),
        Some(MainMenuOption::ShowExtensions)
    );
    assert_eq!(parse_menu_choice(&b("5")), Some(MainMenuOption::Refresh));
    assert_eq!(parse_menu_choice(&b("6")), Some(MainMenuOption::Exit));
}

#[test]
fn unknown_menu_input_is_rejected() {
    assert_eq!(parse_menu_choice(&b("")), None);
    assert_eq!(parse_menu_choice(&b("0")), None);
    assert_eq!(parse_menu_choice(&b("7")), None);
    assert_eq!(parse_menu_choice(&b("12")), None);
    assert_eq!(parse_menu_choice(&b("q")), None);
}

#[test]
fn extension_input_is_trimmed_and_lowered() {
    assert_eq!(normalize_extension_input(&b("  TXT \n")), b("txt"));
    assert_eq!(normalize_extension_input(&b("md\n")), b("md"));
    assert_eq!(normalize_extension_input(&b("\t Rs \r\n")), b("rs"));
    assert_eq!(normalize_extension_input(&b("   ")), b(""));
}

#[test]
fn browsing_two_files_with_large_page_gives_one_final_page() {
    // root holds only two matching files; page size 20.
    let idx = build(&entries(&["dir/a.txt", "dir/b.txt", "dir/c.md"]));
    let shown = browse_files_by_extension(&idx, &b("txt"), 20, &Vec::new())
        .expect("txt is indexed");
    assert_eq!(shown.len(), 1);
    assert_eq!(shown[0].items, entries(&["dir/a.txt", "dir/b.txt"]));
    assert!(!shown[0].has_more, "a short page ends the browsing session");
}

#[test]
fn browsing_unknown_extension_reports_it() {
    let idx = build(&entries(&["dir/a.txt"]));
    assert!(browse_files_by_extension(&idx, &b("md"), 20, &Vec::new()).is_none());
}

#[test]
fn browsing_stops_when_operator_declines() {
    let names = [
        "f01", "f02", "f03", "f04", "f05", "f06", "f07", "f08", "f09", "f10",
    ];
    let idx = build(&entries(&names));
    // Three pages of four exist; the operator continues once, then declines.
    let shown = browse_files_by_extension(&idx, &b(""), 4, &vec![true, false])
        .expect("suffixless files are indexed");
    assert_eq!(shown.len(), 2);
    assert_eq!(shown[0].items.len(), 4);
    assert_eq!(shown[1].items.len(), 4);
    assert!(shown[1].has_more, "a third page existed but was declined");
}

#[test]
fn browsing_runs_to_the_short_final_page() {
    let names = ["g1", "g2", "g3", "g4", "g5"];
    let idx = build(&entries(&names));
    let shown = browse_files_by_extension(&idx, &b(""), 2, &vec![true, true])
        .expect("suffixless files are indexed");
    assert_eq!(shown.len(), 3);
    assert_eq!(shown[2].items.len(), 1);
    assert!(!shown[2].has_more);
}

#[test]
fn step_view_counts_leaves_index_alone() {
    let mut idx = build(&entries(&["a.txt", "b.TXT", "c.md", "README"]));
    let (rep, done) = step(&mut idx, &Command::ViewCounts, BATCH_SIZE);
    assert!(!done);
    match rep {
        Report::Counts { lines } => {
            let shown: Vec<(String, usize)> = lines
                .iter()
                .map(|(k, n)| (String::from_utf8(k.clone()).unwrap(), *n))
                .collect();
            assert_eq!(
                shown,
                vec![
                    (String::from(""), 1),
                    (String::from("md"), 1),
                    (String::from("txt"), 2)
                ]
            );
        }
        _ => panic!("a counts command must report counts"),
    }
    assert_eq!(idx.count(&b("txt")), 2);
}

#[test]
fn step_exit_ends_the_session() {
    let mut idx = build(&Vec::new());
    let (rep, done) = step(&mut idx, &Command::Exit, BATCH_SIZE);
    assert!(done);
    assert!(matches!(rep, Report::Exited));
}

#[test]
fn deleting_a_vanished_file_fails_without_harming_later_runs() {
    // c.md was removed externally after indexing: its soft delete fails,
    // and a later run for txt still yields its own outcomes.
    let mut idx = build(&entries(&[
        "/nonexistent-root-for-tests/c.md",
        "/nonexistent-root-for-tests/a.txt",
    ]));
    let (rep, _) = step(&mut idx, &Command::DeleteFiles { key: b("md") }, BATCH_SIZE);
    match rep {
        Report::Outcomes { results } => {
            assert_eq!(results.len(), 1);
            match &results[0] {
                DeleteOutcome::Failed { path, reason } => {
                    assert_eq!(*path, b("/nonexistent-root-for-tests/c.md"));
                    assert!(!reason.is_empty());
                }
                DeleteOutcome::Deleted { .. } => {
                    panic!("a vanished file cannot be moved to the trash")
                }
            }
        }
        _ => panic!("a delete command must report outcomes"),
    }
    let (rep2, _) = step(&mut idx, &Command::DeleteFiles { key: b("txt") }, BATCH_SIZE);
    match rep2 {
        Report::Outcomes { results } => {
            assert_eq!(results.len(), 1);
            match &results[0] {
                DeleteOutcome::Failed { path, .. } => {
                    assert_eq!(*path, b("/nonexistent-root-for-tests/a.txt"))
                }
                DeleteOutcome::Deleted { .. } => {
                    panic!("a vanished file cannot be moved to the trash")
                }
            }
        }
        _ => panic!("a delete command must report outcomes"),
    }
}

#[test]
fn deleting_an_unknown_extension_attempts_nothing() {
    let mut idx = build(&entries(&["a.txt"]));
    let (rep, _) = step(&mut idx, &Command::DeleteFiles { key: b("md") }, BATCH_SIZE);
    match rep {
        Report::Outcomes { results } => assert!(results.is_empty()),
        _ => panic!("a delete command must report outcomes"),
    }
}

#[test]
fn refresh_is_seen_only_after_it_happens() {
    let mut idx = build(&entries(&["a.txt"]));
    let commands = vec![
        Command::ViewCounts,
        // A file appeared on disk; browsing still answers from the snapshot.
        Command::BrowseFiles {
            key: b("txt"),
            continues: Vec::new(),
        },
        Command::Refresh {
            entries: entries(&["a.txt", "b.txt"]),
        },
        Command::ViewCounts,
        Command::Exit,
        Command::ViewCounts,
    ];
    let reports = main_menu_loop(&mut idx, &commands, BATCH_SIZE);
    assert_eq!(reports.len(), 5, "nothing runs after the exit command");
    match &reports[0] {
        Report::Counts { lines } => assert_eq!(lines[0], (b("txt"), 1)),
        _ => panic!("a counts command must report counts"),
    }
    match &reports[1] {
        Report::Pages { shown } => {
            assert_eq!(shown.len(), 1);
            assert_eq!(shown[0].items, entries(&["a.txt"]));
        }
        _ => panic!("browsing an indexed extension must show pages"),
    }
    assert!(matches!(&reports[2], Report::Refreshed));
    match &reports[3] {
        Report::Counts { lines } => assert_eq!(lines[0], (b("txt"), 2)),
        _ => panic!("a counts command must report counts"),
    }
    assert!(matches!(&reports[4], Report::Exited));
    assert_eq!(idx.count(&b("txt")), 2);
}

#[test]
fn unknown_extension_in_a_session_is_reported() {
    let mut idx = build(&entries(&["a.txt"]));
    let commands = vec![Command::BrowseFiles {
        key: b("zip"),
        continues: Vec::new(),
    }];
    let reports = main_menu_loop(&mut idx, &commands, BATCH_SIZE);
    assert_eq!(reports.len(), 1);
    match &reports[0] {
        Report::UnknownExtension { key } => assert_eq!(*key, b("zip")),
        _ => panic!("an unknown extension must be reported as such"),
    }
}

#[test]
fn listing_extensions_in_a_session() {
    let mut idx = build(&entries(&["a.txt", "c.md"]));
    let commands = vec![Command::ShowExtensions, Command::Exit];
    let reports = main_menu_loop(&mut idx, &commands, BATCH_SIZE);
    assert_eq!(reports.len(), 2);
    match &reports[0] {
        Report::Extensions { keys } => assert_eq!(*keys, entries(&["md", "txt"])),
        _ => panic!("listing extensions must report the key list"),
    }
}
