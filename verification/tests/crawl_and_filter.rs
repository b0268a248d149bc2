use harvester::crawl::{CrawlState, EntryKind, FileEntry, ListingRow};
use harvester::dates::SimpleDate;
use harvester::filter::{contains_token, filter_entries, total_size};

fn cutoff() -> SimpleDate {
    SimpleDate {
        year: 2023,
        month: 10,
        day: 15,
    }
}

fn row(name: &str, kind: &str, size: &str, modified: &str, href: Option<&str>) -> ListingRow {
    ListingRow {
        name: name.to_string(),
        kind_text: kind.to_string(),
        size_text: size.to_string(),
        modified_text: modified.to_string(),
        href: href.map(|h| h.to_string()),
    }
}

// A synthetic listing tree of depth 3:
//   root:        new file a.jsonl.bz2, old file old.jsonl, dir sub/ (and a
//                back-link to root itself under sub/loop/)
//   root/sub:    new file b.jsonl, old dir stale/, dir deep/
//   root/sub/deep: new file c.jsonl, dir loop/ that links back to root
fn page_for(url: &str) -> Option<Vec<ListingRow>> {
    let new = "2023-Oct-16 00:00:00";
    let old = "2023-Oct-15 00:00:00";
    match url {
        "http://root/" => Some(vec![
            row("Name", "", "", "", None),
            row("../", "Directory", "-", new, Some("../")),
            row("a.jsonl.bz2", "File", "1K", new, Some("a.jsonl.bz2")),
            row("old.jsonl", "File", "1K", old, Some("old.jsonl")),
            row("sub/", "Directory", "-", new, Some("sub/")),
        ]),
        "http://root/sub/" => Some(vec![
            row("b.jsonl", "File", "2K", new, Some("b.jsonl")),
            row("stale/", "Directory", "-", old, Some("stale/")),
            row("deep/", "Directory", "-", new, Some("deep/")),
        ]),
        "http://root/sub/deep/" => Some(vec![
            row("c.jsonl", "File", "0.5K", new, Some("c.jsonl")),
            row("loop/", "Directory", "-", new, Some("loop/")),
        ]),
        // The cycle: this directory lists the root itself.
        "http://root/sub/deep/loop/" => Some(vec![row(
            "root",
            "Directory",
            "-",
            new,
            Some("back/"),
        )]),
        _ => None,
    }
}

#[test]
fn crawl_collects_exactly_the_new_files_and_survives_a_cycle() {
    let mut state = CrawlState::new("http://root/".to_string(), cutoff(), 16);
    let mut steps = 0;
    loop {
        let next = match state.take_next() {
            Some(p) => p,
            None => break,
        };
        steps += 1;
        assert!(steps < 100, "the cycle guard failed: the crawl does not end");
        match page_for(&next.url) {
            Some(rows) => {
                let url = next.url.clone();
                state.note_page(&url, next.depth, &rows);
            }
            None => {
                let url = next.url.clone();
                state.note_failure(url);
            }
        }
    }
    // "loop/back/" resolves to a URL never seen, whose fetch fails; that
    // failure must not lose any other subtree's files.
    let names: Vec<&str> = state.files.iter().map(|e| e.name.as_str()).collect();
    let mut sorted = names.clone();
    sorted.sort();
    assert_eq!(sorted, vec!["a.jsonl.bz2", "b.jsonl", "c.jsonl"]);
    assert!(state.files.iter().all(|e| e.kind == EntryKind::File));
    assert_eq!(state.failed.len(), 1);
    assert_eq!(state.failed[0], "http://root/sub/deep/loop/back/");
    let a = state
        .files
        .iter()
        .find(|e| e.name == "a.jsonl.bz2")
        .unwrap();
    assert_eq!(a.size_bytes, 1024);
    assert_eq!(a.url, "http://root/a.jsonl.bz2");
}

#[test]
fn crawl_respects_the_depth_bound() {
    let mut state = CrawlState::new("http://root/".to_string(), cutoff(), 1);
    while let Some(next) = state.take_next() {
        if let Some(rows) = page_for(&next.url) {
            let url = next.url.clone();
            state.note_page(&url, next.depth, &rows);
        }
    }
    // Depth 1 reaches root and root/sub, but never root/sub/deep.
    let names: Vec<&str> = state.files.iter().map(|e| e.name.as_str()).collect();
    let mut sorted = names.clone();
    sorted.sort();
    assert_eq!(sorted, vec!["a.jsonl.bz2", "b.jsonl"]);
}

fn entry(name: &str, size: u64) -> FileEntry {
    FileEntry {
        name: name.to_string(),
        kind: EntryKind::File,
        size_bytes: size,
        modified: harvester::dates::Timestamp {
            date: cutoff(),
            hour: 0,
            minute: 0,
            second: 0,
        },
        url: format!("http://root/{name}"),
    }
}

#[test]
fn contains_token_finds_substrings() {
    assert!(contains_token("FSSSignalDiscovered-2023.jsonl", "FSSSignalDiscovered"));
    assert!(!contains_token("FSSSignalDiscovered-2023.jsonl", "Test"));
    assert!(contains_token("abc", ""));
    assert!(!contains_token("ab", "abc"));
    assert!(contains_token("aaab", "aab"));
}

#[test]
fn filter_entries_keeps_wanted_names_only() {
    let entries = vec![
        entry("FSSSignalDiscovered-1.jsonl", 10),
        entry("FSSSignalDiscovered-Test.jsonl", 20),
        entry("Journal-1.jsonl", 30),
        entry("FSSSignalDiscovered-2.jsonl", 40),
    ];
    let kept = filter_entries(&entries, "FSSSignalDiscovered", "Test");
    let names: Vec<&str> = kept.iter().map(|e| e.name.as_str()).collect();
    assert_eq!(
        names,
        vec!["FSSSignalDiscovered-1.jsonl", "FSSSignalDiscovered-2.jsonl"]
    );
}

#[test]
fn total_size_adds_and_saturates() {
    let entries = vec![entry("a", 10), entry("b", 30), entry("c", 2)];
    assert_eq!(total_size(&entries), 42);
    let huge = vec![entry("a", u64::MAX), entry("b", 1)];
    assert_eq!(total_size(&huge), u64::MAX);
    assert_eq!(total_size(&Vec::new()), 0);
}
