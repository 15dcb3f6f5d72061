use patent_tagger::domain::time::format_unix_timestamp;

#[test]
fn epoch_is_1970_01_01() {
    assert_eq!(format_unix_timestamp(0), "1970-01-01T00:00:00Z");
}

#[test]
fn a_known_recent_timestamp() {
    assert_eq!(format_unix_timestamp(1_767_225_600), "2026-01-01T00:00:00Z");
}

#[test]
fn time_of_day_is_formatted_with_leading_zeros() {
    assert_eq!(format_unix_timestamp(3661), "1970-01-01T01:01:01Z");
}

#[test]
fn a_leap_day() {
    assert_eq!(format_unix_timestamp(1_709_208_000), "2024-02-29T12:00:00Z");
}

#[test]
fn end_of_day_and_century_boundaries() {
    assert_eq!(format_unix_timestamp(86_399), "1970-01-01T23:59:59Z");
    assert_eq!(format_unix_timestamp(951_782_400), "2000-02-29T00:00:00Z");
    assert_eq!(format_unix_timestamp(4_107_542_400), "2100-03-01T00:00:00Z");
    assert_eq!(format_unix_timestamp(253_402_300_799), "9999-12-31T23:59:59Z");
    assert_eq!(format_unix_timestamp(253_402_300_800), "10000-01-01T00:00:00Z");
}

#[test]
fn the_largest_timestamp_does_not_overflow() {
    let s = format_unix_timestamp(u64::MAX);
    assert!(s.ends_with("T07:00:15Z"));
}

#[test]
fn the_last_second_before_the_year_ten_thousand() {
    let text = format_unix_timestamp(253_402_300_799);
    assert_eq!(text, "9999-12-31T23:59:59Z");
    assert_eq!(text.len(), 20);
}

#[test]
fn timestamp_texts_have_twenty_characters_and_sort_like_the_seconds() {
    let secs = [0u64, 59, 60, 3599, 86_399, 86_400, 951_782_400, 1_709_208_000, 4_102_444_800, 253_402_300_799];
    let texts: Vec<String> = secs.iter().map(|s| format_unix_timestamp(*s)).collect();
    for t in &texts {
        assert_eq!(t.len(), 20);
    }
    for w in texts.windows(2) {
        assert!(w[0] < w[1], "{} should sort before {}", w[0], w[1]);
    }
}
