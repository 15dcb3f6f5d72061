use patent_tagger::domain::number::{parse, ParseOutcome, ParsedNumber};

fn parsed(country: &str, number: &str, kind_code: Option<&str>) -> ParseOutcome {
    ParseOutcome::Parsed(ParsedNumber {
        country: country.to_string(),
        number: number.to_string(),
        kind_code: kind_code.map(str::to_string),
    })
}

#[test]
fn ep_with_spaces_and_kind_code() {
    assert_eq!(parse("EP 1 234 567 B1"), parsed("EP", "1234567", Some("B1")));
}

#[test]
fn ep_compact_without_kind_code() {
    assert_eq!(parse("EP1234567"), parsed("EP", "1234567", None));
}

#[test]
fn us_pre_grant_publication_with_slash() {
    assert_eq!(parse("US 2020/0123456 A1"), parsed("US", "20200123456", Some("A1")));
}

#[test]
fn us_grant_compact() {
    assert_eq!(parse("US11000000B2"), parsed("US", "11000000", Some("B2")));
}

#[test]
fn wo_compact_with_slash_no_kind_code() {
    assert_eq!(parse("WO2019/123456"), parsed("WO", "2019123456", None));
}

#[test]
fn wo_with_spaces_and_kind_code() {
    assert_eq!(parse("WO 2019123456 A1"), parsed("WO", "2019123456", Some("A1")));
}

#[test]
fn tolerates_dots_and_commas() {
    assert_eq!(parse("EP.1.234.567.B1"), parsed("EP", "1234567", Some("B1")));
    assert_eq!(parse("EP,1,234,567,B1"), parsed("EP", "1234567", Some("B1")));
}

#[test]
fn lowercase_country_and_kind_code_are_normalised() {
    assert_eq!(parse("ep1234567b1"), parsed("EP", "1234567", Some("B1")));
}

#[test]
fn unknown_country_needs_ops_normalisation() {
    assert_eq!(
        parse("GB2345678A"),
        ParseOutcome::NeedsNormalisation("GB2345678A".to_string())
    );
}

#[test]
fn empty_input_is_unparseable() {
    assert_eq!(parse(""), ParseOutcome::Unparseable("".to_string()));
    assert_eq!(parse("   "), ParseOutcome::Unparseable("".to_string()));
}

#[test]
fn garbage_is_unparseable() {
    assert_eq!(
        parse("not a number"),
        ParseOutcome::Unparseable("not a number".to_string())
    );
    assert_eq!(parse("EP-!?"), ParseOutcome::Unparseable("EP-!?".to_string()));
}

#[test]
fn pub_key_drops_kind_code() {
    let parsed = ParsedNumber {
        country: "EP".to_string(),
        number: "1234567".to_string(),
        kind_code: Some("B1".to_string()),
    };
    assert_eq!(parsed.pub_key(), "EP1234567");
}

#[test]
fn kind_code_needs_digits_before_the_letter() {
    // "EPB" is read as the country, which the local parser does not handle.
    assert_eq!(parse("EPB1"), ParseOutcome::NeedsNormalisation("EPB1".to_string()));
    assert_eq!(parse("EP12A3B4"), ParseOutcome::Unparseable("EP12A3B4".to_string()));
    assert_eq!(parse("  us 5 "), parsed("US", "5", None));
    assert_eq!(parse("EP"), ParseOutcome::Unparseable("EP".to_string()));
}

#[test]
fn a_number_reads_the_same_in_any_case_and_with_surrounding_space() {
    let raw = "Ep 1.234.567 b1";
    let expected = parsed("EP", "1234567", Some("B1"));
    assert_eq!(parse(raw), expected);
    assert_eq!(parse(&raw.to_ascii_lowercase()), expected);
    assert_eq!(parse(&raw.to_ascii_uppercase()), expected);
    assert_eq!(parse(&format!("  {raw}\t")), expected);
    assert_eq!(parse(&format!("\u{a0}{raw}\n")), expected);
}
