use harvester::dates::{
    date_is_after, parse_iso_timestamp, parse_listing_timestamp, timestamp_is_after, SimpleDate,
    Timestamp,
};
use harvester::size::{bytes_value_to_size_string, string_to_bytes_value};

fn date(y: u32, m: u8, d: u8) -> SimpleDate {
    SimpleDate {
        year: y,
        month: m,
        day: d,
    }
}

#[test]
fn parses_plain_byte_counts() {
    assert_eq!(string_to_bytes_value("0"), Some(0));
    assert_eq!(string_to_bytes_value("512"), Some(512));
    assert_eq!(string_to_bytes_value("512B"), Some(512));
}

#[test]
fn parses_unit_suffixes() {
    assert_eq!(string_to_bytes_value("1K"), Some(1024));
    assert_eq!(string_to_bytes_value("1KB"), Some(1024));
    assert_eq!(string_to_bytes_value("2M"), Some(2 * 1048576));
    assert_eq!(string_to_bytes_value("3G"), Some(3 * 1073741824));
    assert_eq!(string_to_bytes_value("1T"), Some(1099511627776));
}

#[test]
fn parses_fractional_sizes_truncating_to_bytes() {
    // 12.3 * 1048576 = 12897484.8, truncated to whole bytes.
    assert_eq!(string_to_bytes_value("12.3M"), Some(12897484));
    assert_eq!(string_to_bytes_value("0.5K"), Some(512));
    assert_eq!(string_to_bytes_value("0.50000KB"), Some(512));
}

#[test]
fn rejects_malformed_size_tokens() {
    assert_eq!(string_to_bytes_value(""), None);
    assert_eq!(string_to_bytes_value("M"), None);
    assert_eq!(string_to_bytes_value("1.X"), None);
    assert_eq!(string_to_bytes_value("1.K"), None);
    assert_eq!(string_to_bytes_value("1.123456K"), None);
    assert_eq!(string_to_bytes_value("1Q"), None);
    assert_eq!(string_to_bytes_value("1KBs"), None);
    assert_eq!(string_to_bytes_value("99999999999999999999999999"), None);
}

#[test]
fn formats_exact_tokens() {
    assert_eq!(bytes_value_to_size_string(512), "0.50000KB");
    assert_eq!(bytes_value_to_size_string(1048576), "1.00000MB");
    assert_eq!(bytes_value_to_size_string(1048575), "1023.99902KB");
    assert_eq!(bytes_value_to_size_string(2 * 1048576), "2.00000MB");
    assert_eq!(bytes_value_to_size_string(3 * 1073741824), "3.00000GB");
    assert_eq!(bytes_value_to_size_string(2 * 1099511627776), "2.00000TB");
}

#[test]
fn size_round_trip_stays_within_tolerance() {
    for token in ["12.3M", "0.5K", "1G", "900", "7.25T", "1023.99902K"] {
        let bytes = string_to_bytes_value(token).unwrap();
        let rendered = bytes_value_to_size_string(bytes);
        let back = string_to_bytes_value(&rendered).unwrap();
        assert!(back <= bytes, "{token}: {back} > {bytes}");
        // One step of the five-decimal grid of the chosen unit, plus one
        // truncated byte.
        let divisor: u64 = if bytes < 1048576 {
            1024
        } else if bytes < 1073741824 {
            1048576
        } else if bytes < 1099511627776 {
            1073741824
        } else {
            1099511627776
        };
        let tolerance = divisor / 100000 + 1;
        assert!(bytes - back <= tolerance, "{token}: {bytes} - {back}");
    }
}

#[test]
fn parses_listing_timestamps() {
    let t = parse_listing_timestamp("2023-Oct-15 10:30:00").unwrap();
    assert_eq!(
        t,
        Timestamp {
            date: date(2023, 10, 15),
            hour: 10,
            minute: 30,
            second: 0
        }
    );
    assert_eq!(parse_listing_timestamp("2023-Foo-15 10:30:00"), None);
    assert_eq!(parse_listing_timestamp("2023-Oct-15"), None);
    assert_eq!(parse_listing_timestamp("2023-Oct-32 10:30:00"), None);
    assert_eq!(parse_listing_timestamp("2023-Oct-15 24:30:00"), None);
}

#[test]
fn parses_record_timestamps() {
    let t = parse_iso_timestamp("2023-10-15T10:30:00Z").unwrap();
    assert_eq!(
        t,
        Timestamp {
            date: date(2023, 10, 15),
            hour: 10,
            minute: 30,
            second: 0
        }
    );
    assert_eq!(parse_iso_timestamp("2023-10-15 10:30:00Z"), None);
    assert_eq!(parse_iso_timestamp("2023-13-15T10:30:00Z"), None);
    // February 29 exists only in leap years.
    assert!(parse_iso_timestamp("2024-02-29T00:00:00Z").is_some());
    assert_eq!(parse_iso_timestamp("2023-02-29T00:00:00Z"), None);
    assert_eq!(parse_iso_timestamp("1900-02-29T00:00:00Z"), None);
    assert!(parse_iso_timestamp("2000-02-29T00:00:00Z").is_some());
}

#[test]
fn recognizes_every_month_abbreviation() {
    let months = [
        "Jan", "Feb", "Mar", "Apr", "May", "Jun", "Jul", "Aug", "Sep", "Oct", "Nov", "Dec",
    ];
    for (i, m) in months.iter().enumerate() {
        let text = format!("2023-{}-01 00:00:00", m);
        let parsed = parse_listing_timestamp(&text).unwrap();
        assert_eq!(parsed.date.month as usize, i + 1, "{m}");
    }
}

#[test]
fn date_ordering_is_strict() {
    let d1 = date(2023, 10, 16);
    let d2 = date(2023, 10, 15);
    assert!(date_is_after(d1, d2));
    assert!(!date_is_after(d2, d1));
    assert!(!date_is_after(d1, d1));
    assert!(date_is_after(date(2024, 1, 1), date(2023, 12, 31)));
    assert!(date_is_after(date(2023, 11, 1), date(2023, 10, 31)));
}

#[test]
fn timestamp_ordering_is_strict() {
    let earlier = parse_iso_timestamp("2023-10-15T10:30:00Z").unwrap();
    let later = parse_iso_timestamp("2023-10-15T10:30:01Z").unwrap();
    assert!(timestamp_is_after(later, earlier));
    assert!(!timestamp_is_after(earlier, later));
    assert!(!timestamp_is_after(earlier, earlier));
}
