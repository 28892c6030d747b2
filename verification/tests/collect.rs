//! Tests of the collection state machine: cycle safety through symbolic
//! links, the depth guard, and predicate matching.

use scanpool::collect::{collect_all, Collector, DirListing, EntryFacts, MAX_DEPTH};

fn entry(path: &str, is_symlink: bool, is_dir: bool, matches: bool) -> EntryFacts {
    EntryFacts {
        path: String::from(path),
        is_symlink,
        is_dir,
        matches_predicate: matches,
    }
}

fn listing(path: &str, entries: Vec<EntryFacts>) -> DirListing {
    DirListing { path: String::from(path), entries }
}

#[test]
fn test_symlink_cycle_terminates() {
    // A root with a subdirectory and a symbolic link back to the root.
    // The link is never followed, so the traversal visits two directories
    // and stops.
    let mut c = Collector::new(String::from("/r"));
    let mut visited: Vec<String> = Vec::new();
    while let Some(dir) = c.take_next() {
        match dir.path.as_str() {
            "/r" => {
                c.handle_entry(String::from("/r/sub"), dir.depth, false, true, false);
                // The symbolic link points back at the root.
                c.handle_entry(String::from("/r/link"), dir.depth, true, true, false);
            }
            "/r/sub" => {
                c.handle_entry(String::from("/r/sub/a.zip"), dir.depth, false, false, true);
            }
            other => panic!("traversed through the link into {}", other),
        }
        visited.push(dir.path);
        assert!(visited.len() <= 2, "collection failed to terminate");
    }
    assert_eq!(visited, vec![String::from("/r"), String::from("/r/sub")]);
    let mut queue = c.finish();
    assert_eq!(queue.len(), 1);
    assert_eq!(queue.pop().unwrap().path, "/r/sub/a.zip");
}

#[test]
fn test_depth_guard() {
    // A chain nested past the bound: every directory lists one child
    // directory. Directories up to MAX_DEPTH are visited; deeper ones are
    // dropped, and the explicit stack never grows past one entry.
    let mut c = Collector::new(String::from("d0"));
    let mut visits: usize = 0;
    while let Some(dir) = c.take_next() {
        assert!(dir.depth <= MAX_DEPTH);
        let child = format!("d{}", dir.depth + 1);
        c.handle_entry(child, dir.depth, false, true, false);
        visits += 1;
        assert!(visits <= MAX_DEPTH + 1, "traversal ran past the depth bound");
    }
    assert_eq!(visits, MAX_DEPTH + 1);
    assert_eq!(c.finish().len(), 0);
}

#[test]
fn test_depth_below_bound_unaffected() {
    // A three-level chain with one matching file at the bottom is
    // traversed in full.
    let mut c = Collector::new(String::from("a"));
    let mut visits: usize = 0;
    while let Some(dir) = c.take_next() {
        visits += 1;
        match dir.path.as_str() {
            "a" => c.handle_entry(String::from("a/b"), dir.depth, false, true, false),
            "a/b" => c.handle_entry(String::from("a/b/c"), dir.depth, false, true, false),
            "a/b/c" => {
                c.handle_entry(String::from("a/b/c/x.zip"), dir.depth, false, false, true)
            }
            other => panic!("unexpected visit to {}", other),
        }
        assert!(visits <= 3);
    }
    assert_eq!(visits, 3);
    let mut queue = c.finish();
    assert_eq!(queue.len(), 1);
    assert_eq!(queue.pop().unwrap().path, "a/b/c/x.zip");
}

#[test]
fn test_collect_all_symlink_cycle() {
    let listings = vec![
        listing(
            "/r",
            vec![
                entry("/r/sub", false, true, false),
                entry("/r/link", true, true, false),
            ],
        ),
        listing("/r/sub", vec![entry("/r/sub/a.zip", false, false, true)]),
    ];
    let mut queue = collect_all(String::from("/r"), &listings);
    assert_eq!(queue.len(), 1);
    assert_eq!(queue.pop().unwrap().path, "/r/sub/a.zip");
}

#[test]
fn test_collect_all_directory_loop() {
    // Two directories that list each other without a symbolic link: the
    // depth bound alone ends this traversal.
    let listings = vec![
        listing("/a", vec![entry("/b", false, true, false)]),
        listing("/b", vec![entry("/a", false, true, false)]),
    ];
    let queue = collect_all(String::from("/a"), &listings);
    assert_eq!(queue.len(), 0);
}

#[test]
fn test_collect_all_collects_every_match() {
    // Matches at two levels are all collected; the matched entries are
    // not descended into.
    let listings = vec![
        listing(
            "/r",
            vec![
                entry("/r/top.zip", false, false, true),
                entry("/r/sub", false, true, false),
            ],
        ),
        listing(
            "/r/sub",
            vec![
                entry("/r/sub/deep.zip", false, false, true),
                entry("/r/sub/other.txt", false, false, false),
            ],
        ),
    ];
    let mut queue = collect_all(String::from("/r"), &listings);
    let mut found: Vec<String> = Vec::new();
    while let Some(item) = queue.pop() {
        found.push(item.path);
    }
    found.sort();
    assert_eq!(
        found,
        vec![String::from("/r/sub/deep.zip"), String::from("/r/top.zip")]
    );
}

#[test]
fn test_collect_all_unreadable_root() {
    // A directory no listing describes is skipped, not fatal.
    let listings: Vec<DirListing> = Vec::new();
    let queue = collect_all(String::from("/nowhere"), &listings);
    assert_eq!(queue.len(), 0);
}

#[test]
fn test_non_matching_file_skipped() {
    let mut c = Collector::new(String::from("r"));
    while let Some(dir) = c.take_next() {
        c.handle_entry(String::from("r/readme.txt"), dir.depth, false, false, false);
        c.handle_entry(String::from("r/a.zip"), dir.depth, false, false, true);
        c.handle_entry(String::from("r/b.zip"), dir.depth, false, false, true);
    }
    let queue = c.finish();
    assert_eq!(queue.len(), 2);
}

#[test]
fn test_symlink_file_not_collected() {
    // Even a matching entry is ignored when it is a symbolic link.
    let mut c = Collector::new(String::from("r"));
    while let Some(dir) = c.take_next() {
        c.handle_entry(String::from("r/link.zip"), dir.depth, true, false, true);
    }
    assert_eq!(c.finish().len(), 0);
}
