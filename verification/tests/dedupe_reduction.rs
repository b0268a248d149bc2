use harvester::dedupe::{dedupe_latest, DedupRecord};

fn rec(key: &str, ts: &str) -> DedupRecord {
    DedupRecord {
        key: key.to_string(),
        timestamp: ts.to_string(),
    }
}

fn five_records() -> Vec<DedupRecord> {
    vec![
        rec("Alpha", "2023-10-15T10:00:00Z"),
        rec("Beta", "2023-10-15T11:00:00Z"),
        rec("Alpha", "2023-10-15T09:00:00Z"),
        rec("Beta", "2023-10-16T08:00:00Z"),
        rec("Alpha", "2023-10-15T10:00:01Z"),
    ]
}

/// The mapping as key -> timestamp text of the winning record.
fn mapping(records: &[DedupRecord], winners: &[usize]) -> Vec<(String, String)> {
    let mut m: Vec<(String, String)> = winners
        .iter()
        .map(|&i| {
            (
                records[i].key.clone(),
                records[i].timestamp.clone(),
            )
        })
        .collect();
    m.sort();
    m
}

#[test]
fn keeps_one_latest_record_per_key() {
    let records = five_records();
    let winners = dedupe_latest(&records).unwrap();
    assert_eq!(winners.len(), 2);
    assert_eq!(
        mapping(&records, &winners),
        vec![
            ("Alpha".to_string(), "2023-10-15T10:00:01Z".to_string()),
            ("Beta".to_string(), "2023-10-16T08:00:00Z".to_string()),
        ]
    );
}

#[test]
fn reverse_arrival_order_yields_the_same_mapping() {
    let records = five_records();
    let winners = dedupe_latest(&records).unwrap();
    let mut reversed = five_records();
    reversed.reverse();
    let winners_rev = dedupe_latest(&reversed).unwrap();
    assert_eq!(
        mapping(&records, &winners),
        mapping(&reversed, &winners_rev)
    );
}

#[test]
fn an_exact_tie_keeps_the_first_seen_record() {
    let records = vec![
        rec("Alpha", "2023-10-15T10:00:00Z"),
        rec("Alpha", "2023-10-15T10:00:00Z"),
    ];
    let winners = dedupe_latest(&records).unwrap();
    assert_eq!(winners, vec![0]);
}

#[test]
fn an_unparseable_timestamp_fails_the_whole_reduction() {
    let records = vec![
        rec("Alpha", "2023-10-15T10:00:00Z"),
        rec("Beta", "yesterday at noon"),
        rec("Gamma", "2023-10-15T12:00:00Z"),
    ];
    let e = dedupe_latest(&records).unwrap_err();
    assert_eq!(e.record_index, 1);
    // No partial mapping exists: the whole run failed, even though two
    // records were fine.
}

#[test]
fn dedupe_of_nothing_is_empty() {
    let winners = dedupe_latest(&Vec::new()).unwrap();
    assert!(winners.is_empty());
}
