use harvester::crawl::{EntryKind, FileEntry};
use harvester::dates::{SimpleDate, Timestamp};
use harvester::download::{
    build_tasks, fetch_outcome, is_success_status, summarize, task_outcome, DownloadOutcome,
    FailReason,
};
use harvester::ingest::{
    base_name, ingest_content, ingest_lines, is_compressed_name, processed_destination,
    split_records, IngestError, LineSplitter,
};
use std::io::Read;

#[test]
fn status_classification_is_2xx() {
    assert!(is_success_status(200));
    assert!(is_success_status(204));
    assert!(is_success_status(299));
    assert!(!is_success_status(199));
    assert!(!is_success_status(300));
    assert!(!is_success_status(404));
    assert!(!is_success_status(500));
}

#[test]
fn task_outcomes_follow_disk_and_status() {
    assert_eq!(task_outcome(true, Some(200), true), DownloadOutcome::Skipped);
    assert_eq!(task_outcome(true, None, false), DownloadOutcome::Skipped);
    assert_eq!(
        task_outcome(false, Some(200), true),
        DownloadOutcome::Succeeded
    );
    assert_eq!(
        task_outcome(false, Some(404), true),
        DownloadOutcome::Failed(FailReason::Status(404))
    );
    assert_eq!(
        task_outcome(false, None, true),
        DownloadOutcome::Failed(FailReason::Network)
    );
    assert_eq!(
        task_outcome(false, Some(200), false),
        DownloadOutcome::Failed(FailReason::Filesystem)
    );
    assert_eq!(
        fetch_outcome(Some(500), true),
        DownloadOutcome::Failed(FailReason::Status(500))
    );
}

#[test]
fn one_existing_destination_gives_exactly_one_skip() {
    // Ten tasks; the destination of task 6 already exists on disk.
    let n = 10;
    let existing = 6;
    let mut outcomes = Vec::new();
    for k in 0..n {
        let status = if k % 3 == 0 { Some(404) } else { Some(200) };
        outcomes.push(task_outcome(k == existing, status, true));
    }
    let tally = summarize(&outcomes);
    assert_eq!(tally.skipped, 1);
    assert_eq!(tally.succeeded + tally.failed, n - 1);
    assert_eq!(tally.succeeded + tally.skipped + tally.failed, n);
    assert_eq!(outcomes[existing], DownloadOutcome::Skipped);
}

fn entry(name: &str, url: &str) -> FileEntry {
    FileEntry {
        name: name.to_string(),
        kind: EntryKind::File,
        size_bytes: 1,
        modified: Timestamp {
            date: SimpleDate {
                year: 2023,
                month: 10,
                day: 16,
            },
            hour: 0,
            minute: 0,
            second: 0,
        },
        url: url.to_string(),
    }
}

#[test]
fn tasks_are_built_one_to_one() {
    let entries = vec![
        entry("a.jsonl", "http://root/a.jsonl"),
        entry("b.jsonl", "http://root/sub/b.jsonl"),
    ];
    let tasks = build_tasks(&entries);
    assert_eq!(tasks.len(), 2);
    assert_eq!(tasks[0].source_url, "http://root/a.jsonl");
    assert_eq!(tasks[0].destination_name, "a.jsonl");
    assert_eq!(tasks[1].source_url, "http://root/sub/b.jsonl");
    assert_eq!(tasks[1].destination_name, "b.jsonl");
}

#[test]
fn compressed_names_end_in_bz2() {
    assert!(is_compressed_name("x.jsonl.bz2"));
    assert!(is_compressed_name("bz2"));
    assert!(!is_compressed_name("x.jsonl"));
    assert!(!is_compressed_name("z2"));
    assert!(!is_compressed_name("x.bz2.jsonl"));
}

#[test]
fn split_records_drops_empty_lines() {
    let data = b"one\ntwo\n\nthree\n".to_vec();
    let lines = split_records(&data);
    let texts: Vec<&[u8]> = lines.iter().map(|l| l.as_slice()).collect();
    assert_eq!(texts, vec![b"one".as_slice(), b"two", b"three"]);
    assert_eq!(split_records(&b"".to_vec()).len(), 0);
    assert_eq!(split_records(&b"\n\n".to_vec()).len(), 0);
    assert_eq!(split_records(&b"solo".to_vec()).len(), 1);
}

const THREE_LINES: &str = "{\"key\":\"A\",\"n\":1}\n{\"key\":\"B\",\"n\":2}\n{\"key\":\"C\",\"n\":3}\n";

fn bz2_of(data: &[u8]) -> Vec<u8> {
    let mut encoder = bzip2::read::BzEncoder::new(data, bzip2::Compression::best());
    let mut out = Vec::new();
    encoder.read_to_end(&mut out).unwrap();
    out
}

#[test]
fn ingests_the_same_three_records_plain_and_compressed() {
    let plain = THREE_LINES.as_bytes().to_vec();
    let packed = bz2_of(THREE_LINES.as_bytes());

    let docs_plain = ingest_content("batch.jsonl", &plain).unwrap();
    let docs_packed = ingest_content("batch.jsonl.bz2", &packed).unwrap();
    assert_eq!(docs_plain.len(), 3);
    assert_eq!(docs_packed.len(), 3);
    assert_eq!(docs_plain, docs_packed);
    assert_eq!(docs_plain[0].get_str("key").unwrap(), "A");
    assert_eq!(docs_plain[2].get_i64("n").unwrap(), 3);

    // A crash between insert and relocation re-ingests the same payload:
    // the second pass must agree with the first, not error.
    let again = ingest_content("batch.jsonl", &plain).unwrap();
    assert_eq!(again.len(), 3);
    let again_packed = ingest_content("batch.jsonl.bz2", &packed).unwrap();
    assert_eq!(again_packed.len(), 3);
}

#[test]
fn a_malformed_line_fails_the_whole_file() {
    let data = b"{\"a\":1}\nnot json\n{\"b\":2}\n".to_vec();
    match ingest_content("batch.jsonl", &data) {
        Err(IngestError::Parse { line_index, line }) => {
            assert_eq!(line_index, 1);
            assert_eq!(line, b"not json".to_vec());
        }
        other => panic!("expected a parse failure, got {:?}", other.map(|d| d.len())),
    }
}

#[test]
fn a_later_malformed_line_is_still_a_parse_failure() {
    let data = b"{\"a\":1}\n{\"b\":2}\nnot json\n".to_vec();
    match ingest_content("batch.jsonl", &data) {
        Err(IngestError::Parse { line_index, line }) => {
            assert_eq!(line_index, 2);
            assert_eq!(line, b"not json".to_vec());
        }
        other => panic!("expected a parse failure, got {:?}", other.map(|d| d.len())),
    }
}

#[test]
fn chunked_splitting_matches_whole_payload_splitting() {
    let payload = b"alpha\nbeta\n\ngam".to_vec();
    let mut splitter = LineSplitter::new();
    splitter.push_chunk(&b"alp".to_vec());
    splitter.push_chunk(&b"ha\nbe".to_vec());
    splitter.push_chunk(&b"ta\n\ngam".to_vec());
    let lines = splitter.finish();
    assert_eq!(lines, split_records(&payload));
    assert_eq!(
        lines,
        vec![b"alpha".to_vec(), b"beta".to_vec(), b"gam".to_vec()]
    );
}

#[test]
fn ingest_lines_counts_each_line_once() {
    let lines = vec![b"{\"a\":1}".to_vec(), b"{\"b\":2}".to_vec()];
    let docs = ingest_lines(&lines).unwrap();
    assert_eq!(docs.len(), 2);
    assert_eq!(docs[1].get_i64("b").unwrap(), 2);
}

#[test]
fn a_non_document_line_fails_the_whole_file() {
    // `17` is valid JSON but has no document form.
    let data = b"{\"a\":1}\n17\n".to_vec();
    match ingest_content("batch.jsonl", &data) {
        Err(IngestError::Convert { line_index }) => assert_eq!(line_index, 1),
        other => panic!("expected a convert failure, got {:?}", other.map(|d| d.len())),
    }
}

#[test]
fn a_corrupt_compressed_payload_is_an_encoding_error() {
    let data = b"this is not a bzip2 stream".to_vec();
    match ingest_content("batch.jsonl.bz2", &data) {
        Err(IngestError::Encoding) => {}
        other => panic!("expected an encoding failure, got {:?}", other.map(|d| d.len())),
    }
    // The same bytes under a plain name are simply one malformed line.
    assert!(matches!(
        ingest_content("batch.jsonl", &data),
        Err(IngestError::Parse { .. })
    ));
}

#[test]
fn processed_destination_keeps_the_base_name() {
    assert_eq!(base_name("downloads/a.jsonl.bz2"), "a.jsonl.bz2");
    assert_eq!(base_name("a.jsonl"), "a.jsonl");
    assert_eq!(base_name("downloads/"), "");
    assert_eq!(
        processed_destination("downloads/processed", "downloads/a.jsonl.bz2"),
        "downloads/processed/a.jsonl.bz2"
    );
}
