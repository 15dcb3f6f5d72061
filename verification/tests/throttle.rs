use patent_tagger::ops::error::OpsError;
use patent_tagger::ops::retry::should_retry;
use patent_tagger::ops::throttle::{parse, Action, CategoryStatus, Colour, ServiceState};
use std::time::Duration;

#[test]
fn parses_the_documented_example() {
    let tc = parse(
        "idle (retrieval=green:200, search=yellow:20, inpadoc=red:30, images=green:200, other=green:1000)",
    )
    .expect("should parse");
    assert_eq!(tc.state, ServiceState::Idle);
    assert_eq!(tc.categories.len(), 5);
    assert_eq!(
        tc.category("retrieval").unwrap(),
        CategoryStatus { colour: Colour::Green, limit: 200 }
    );
    assert_eq!(
        tc.category("search").unwrap(),
        CategoryStatus { colour: Colour::Yellow, limit: 20 }
    );
    assert_eq!(
        tc.category("inpadoc").unwrap(),
        CategoryStatus { colour: Colour::Red, limit: 30 }
    );
}

#[test]
fn strictest_action_is_the_worst_colour_present() {
    let tc = parse("busy (retrieval=green:200, search=red:5)").expect("should parse");
    assert_eq!(tc.strictest_action(), Action::Pause);
}

#[test]
fn black_means_stop() {
    let tc = parse("overloaded (retrieval=black:0)").expect("should parse");
    assert_eq!(tc.strictest_action(), Action::Stop);
    assert_eq!(tc.recommended_delay(), None);
}

#[test]
fn all_green_means_continue_with_no_delay() {
    let tc = parse("idle (retrieval=green:200)").expect("should parse");
    assert_eq!(tc.strictest_action(), Action::Continue);
    assert_eq!(tc.recommended_delay(), None);
}

#[test]
fn rejects_malformed_input() {
    assert!(parse("not a valid header").is_err());
    assert!(parse("idle (retrieval)").is_err());
    assert!(parse("idle (retrieval=purple:1)").is_err());
}

#[test]
fn each_error_names_what_is_wrong() {
    let msg = |h: &str| match parse(h) {
        Err(OpsError::Parse(m)) => m,
        _ => panic!("expected a parse error for {h}"),
    };
    assert_eq!(msg("  idle retrieval=green:1) "), "no '(' in throttling header: idle retrieval=green:1)");
    assert_eq!(msg("idle (retrieval=green:1"), "no ')' in throttling header: idle (retrieval=green:1");
    assert_eq!(msg("idle )x("), "malformed throttling header: idle )x(");
    assert_eq!(msg("sleepy (a=green:1)"), "unknown service state: sleepy");
    assert_eq!(msg("idle (a=green)"), "malformed category entry: a=green");
    assert_eq!(msg("idle (a=purple:1)"), "unknown colour: purple");
    assert_eq!(msg("idle (a=green:x1)"), "non-numeric limit in: a=green:x1");
    assert_eq!(msg("idle (a=green:4294967296)"), "non-numeric limit in: a=green:4294967296");
}

#[test]
fn delays_follow_the_strictest_colour_and_later_entries_replace_earlier_ones() {
    let tc = parse("busy (search=yellow:20, , search = red : +7 )").expect("should parse");
    assert_eq!(tc.categories.len(), 1);
    assert_eq!(tc.category("search").unwrap(), CategoryStatus { colour: Colour::Red, limit: 7 });
    assert_eq!(tc.recommended_delay(), Some(Duration::from_secs(30)));
    let slow = parse("idle (a=green:1, b=yellow:2)").unwrap();
    assert_eq!(slow.recommended_delay(), Some(Duration::from_secs(2)));
    assert_eq!(parse("idle ()").unwrap().strictest_action(), Action::Continue);
    assert_eq!(Colour::Yellow.action(), Action::SlowDown);
}

#[test]
fn retries_5xx_and_network_errors_only() {
    assert!(should_retry(None));
    assert!(should_retry(Some(500)));
    assert!(should_retry(Some(503)));
    assert!(!should_retry(Some(404)));
    assert!(!should_retry(Some(429)));
    assert!(!should_retry(Some(200)));
    assert!(should_retry(Some(599)));
    assert!(!should_retry(Some(600)));
}

#[test]
fn categories_come_in_the_order_of_their_names() {
    let a = parse("idle (search=yellow:20, retrieval=green:200, inpadoc=red:30)").unwrap();
    let names: Vec<&str> = a.categories.iter().map(|(n, _)| n.as_str()).collect();
    assert_eq!(names, vec!["inpadoc", "retrieval", "search"]);
    let b = parse("idle (inpadoc=red:30, search=yellow:20, retrieval=green:200)").unwrap();
    assert_eq!(a, b);
}
