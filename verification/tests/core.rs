use extsweep::deleter::{delete_all, outcome_of, DeleteOutcome};
use extsweep::index::{build, ExtensionIndex};
use extsweep::keys::extension_key;
use extsweep::order::{bytes_eq, lex_le};
use extsweep::paginate::paginate;

fn b(s: &str) -> Vec<u8> {
    s.as_bytes().to_vec()
}

fn entries(names: &[&str]) -> Vec<Vec<u8>> {
    names.iter().map(|n| b(n)).collect()
}

#[test]
fn key_of_plain_suffix() {
    assert_eq!(extension_key(&b("a.txt")), b("txt"));
    assert_eq!(extension_key(&b("dir/sub/report.pdf")), b("pdf"));
    assert_eq!(extension_key(&b("archive.tar.gz")), b("gz"));
}

#[test]
fn key_is_case_insensitive() {
    assert_eq!(extension_key(&b("A.TXT")), b("txt"));
    assert_eq!(extension_key(&b("b.txt")), b("txt"));
    assert_eq!(extension_key(&b("A.TXT")), extension_key(&b("b.txt")));
    assert_eq!(extension_key(&b("photo.JpEg")), b("jpeg"));
}

#[test]
fn key_of_suffixless_names_is_empty() {
    assert_eq!(extension_key(&b("Makefile")), b(""));
    assert_eq!(extension_key(&b(".gitignore")), b(""));
    assert_eq!(extension_key(&b("dir/Makefile")), b(""));
    assert_eq!(extension_key(&b("dir/.bashrc")), b(""));
    assert_eq!(extension_key(&b("")), b(""));
}

#[test]
fn key_ignores_dots_in_directories() {
    assert_eq!(extension_key(&b("dir.d/file")), b(""));
    assert_eq!(extension_key(&b("dir.d/file.rs")), b("rs"));
}

#[test]
fn key_of_trailing_dot_is_empty() {
    assert_eq!(extension_key(&b("weird.")), b(""));
}

#[test]
fn lex_order_on_bytes() {
    assert!(lex_le(&b("a"), &b("b")));
    assert!(lex_le(&b("a"), &b("a")));
    assert!(!lex_le(&b("b"), &b("a")));
    assert!(lex_le(&b("a"), &b("ab")));
    assert!(!lex_le(&b("ab"), &b("a")));
    assert!(bytes_eq(&b("abc"), &b("abc")));
    assert!(!bytes_eq(&b("abc"), &b("abd")));
}

#[test]
fn build_groups_counts_and_sorts() {
    // root holds a.txt, b.TXT, c.md, README
    let idx = build(&entries(&["b.TXT", "c.md", "README", "a.txt"]));
    assert_eq!(idx.count(&b("txt")), 2);
    assert_eq!(idx.count(&b("md")), 1);
    assert_eq!(idx.count(&b("")), 1);
    assert_eq!(idx.count(&b("rs")), 0);
    let txt = idx.paths(&b("txt"));
    assert_eq!(txt, vec![b("a.txt"), b("b.TXT")]);
    assert_eq!(idx.paths(&b("md")), vec![b("c.md")]);
    assert_eq!(idx.paths(&b("")), vec![b("README")]);
    assert!(idx.paths(&b("rs")).is_empty());
}

#[test]
fn build_summary_reports_every_key_once() {
    let idx = build(&entries(&["b.TXT", "c.md", "README", "a.txt"]));
    let lines = idx.summary();
    let shown: Vec<(String, usize)> = lines
        .iter()
        .map(|(k, n)| (String::from_utf8(k.clone()).unwrap(), *n))
        .collect();
    assert_eq!(
        shown,
        vec![
            (String::from(""), 1),
            (String::from("md"), 1),
            (String::from("txt"), 2)
        ]
    );
}

#[test]
fn build_keys_are_sorted_and_complete() {
    let idx = build(&entries(&["z.b", "y.a", "x.c", "w.a"]));
    assert_eq!(idx.keys(), vec![b("a"), b("b"), b("c")]);
}

#[test]
fn build_of_empty_entry_list() {
    let idx = build(&Vec::new());
    assert!(idx.keys().is_empty());
    assert_eq!(idx.count(&b("txt")), 0);
    assert!(idx.summary().is_empty());
}

#[test]
fn paths_stable_across_repeated_calls() {
    let idx = build(&entries(&["dir/z.txt", "dir/a.txt", "dir/m.txt"]));
    let first = idx.paths(&b("txt"));
    let second = idx.paths(&b("txt"));
    assert_eq!(first, second);
    assert_eq!(first, vec![b("dir/a.txt"), b("dir/m.txt"), b("dir/z.txt")]);
}

#[test]
fn index_is_a_snapshot() {
    let scanned = entries(&["a.txt"]);
    let idx = build(&scanned);
    // A later change to the scanned list is not seen by the old index.
    let rescanned = entries(&["a.txt", "b.txt"]);
    assert_eq!(idx.count(&b("txt")), 1);
    let fresh: ExtensionIndex = build(&rescanned);
    assert_eq!(fresh.count(&b("txt")), 2);
    assert_eq!(idx.count(&b("txt")), 1);
}

#[test]
fn paginate_splits_into_ceil_pages() {
    let items = entries(&["a", "b", "c", "d", "e"]);
    let pages = paginate(&items, 2);
    assert_eq!(pages.len(), 3);
    assert_eq!(pages[0].items, entries(&["a", "b"]));
    assert_eq!(pages[1].items, entries(&["c", "d"]));
    assert_eq!(pages[2].items, entries(&["e"]));
    assert!(pages[0].has_more);
    assert!(pages[1].has_more);
    assert!(!pages[2].has_more);
}

#[test]
fn paginate_concatenation_reproduces_input() {
    let items = entries(&["p", "q", "r", "s", "t", "u", "v"]);
    let pages = paginate(&items, 3);
    let mut glued: Vec<Vec<u8>> = Vec::new();
    for page in &pages {
        for item in &page.items {
            glued.push(item.clone());
        }
    }
    assert_eq!(glued, items);
}

#[test]
fn paginate_exact_multiple_has_full_last_page() {
    let items = entries(&["a", "b", "c", "d"]);
    let pages = paginate(&items, 2);
    assert_eq!(pages.len(), 2);
    assert_eq!(pages[1].items.len(), 2);
    assert!(!pages[1].has_more);
}

#[test]
fn paginate_empty_input_yields_no_pages() {
    let pages = paginate(&Vec::new(), 20);
    assert!(pages.is_empty());
}

#[test]
fn paginate_page_size_one() {
    let items = entries(&["a", "b"]);
    let pages = paginate(&items, 1);
    assert_eq!(pages.len(), 2);
    assert_eq!(pages[0].items, entries(&["a"]));
    assert!(pages[0].has_more);
    assert!(!pages[1].has_more);
}

#[test]
fn outcome_of_maps_results() {
    match outcome_of(b("x.txt"), Ok(())) {
        DeleteOutcome::Deleted { path } => assert_eq!(path, b("x.txt")),
        DeleteOutcome::Failed { .. } => panic!("success mapped to a failure"),
    }
    match outcome_of(b("y.txt"), Err(String::from("gone"))) {
        DeleteOutcome::Deleted { .. } => panic!("failure mapped to a success"),
        DeleteOutcome::Failed { path, reason } => {
            assert_eq!(path, b("y.txt"));
            assert_eq!(reason, "gone");
        }
    }
}

#[test]
fn delete_all_reports_one_outcome_per_path_in_order() {
    // None of these paths exists, so every soft delete fails — and every
    // path still gets its own outcome, in input order.
    let paths = entries(&[
        "/nonexistent-root-for-tests/one.md",
        "/nonexistent-root-for-tests/two.md",
        "/nonexistent-root-for-tests/three.md",
    ]);
    let outcomes = delete_all(&paths);
    assert_eq!(outcomes.len(), 3);
    for (i, o) in outcomes.iter().enumerate() {
        match o {
            DeleteOutcome::Deleted { path } => assert_eq!(*path, paths[i]),
            DeleteOutcome::Failed { path, reason } => {
                assert_eq!(*path, paths[i]);
                assert!(!reason.is_empty());
            }
        }
    }
}

#[test]
fn delete_all_of_no_paths_is_empty() {
    let outcomes = delete_all(&Vec::new());
    assert!(outcomes.is_empty());
}
