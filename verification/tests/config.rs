use chrono::Duration;
use retention_sweep::config::parse_channel_retention;
use retention_sweep::errors::{ParseChannelConfigError, ParseError};

#[test]
fn test_parse_channel_retention_simple() {
    let channel_retention = parse_channel_retention("foo:1h,bar:2d,baz:3w".to_owned()).unwrap();
    assert_eq!(
        channel_retention.get("foo").unwrap().num_milliseconds(),
        Duration::hours(1).num_milliseconds()
    );
    assert_eq!(
        channel_retention.get("bar").unwrap().num_milliseconds(),
        Duration::days(2).num_milliseconds()
    );
    assert_eq!(
        channel_retention.get("baz").unwrap().num_milliseconds(),
        Duration::weeks(3).num_milliseconds()
    );
}

#[test]
fn test_parse_channel_retention_invalid_duration() {
    let result = parse_channel_retention("foo:1z".to_owned());
    if let Err(e) = result {
        match e {
            ParseError::Config(ParseChannelConfigError::InvalidDurationSuffix('z')) => {} // Ok
            _ => panic!("Expected ParseChannelConfigError::InvalidDurationSuffix"),
        };
    } else {
        panic!("Expected error");
    }
}

#[test]
fn test_parse_channel_retention_invalid_format() {
    let result = parse_channel_retention("foo".to_owned());
    if let Err(e) = result {
        match e {
            ParseError::Config(ParseChannelConfigError::InvalidFormat) => {} // Ok
            _ => panic!("Expected ParseChannelConfigError::InvalidFormat"),
        };
    } else {
        panic!("Expected error");
    }
}

#[test]
fn test_parse_channel_retention_no_duration() {
    let result = parse_channel_retention("foo:".to_owned());
    if let Err(e) = result {
        println!("{:?}", e);
        match e {
            ParseError::Config(ParseChannelConfigError::NoDuration) => {} // Ok
            _ => panic!("Expected ParseChannelConfigError::NoDurationSuffix"),
        };
    } else {
        panic!("Expected error");
    }
}

fn millis(input: &str, name: &str) -> Option<i64> {
    parse_channel_retention(input.to_owned())
        .unwrap()
        .get(name)
        .map(|d| d.num_milliseconds())
}

fn error(input: &str) -> ParseError {
    match parse_channel_retention(input.to_owned()) {
        Ok(_) => panic!("Expected error"),
        Err(e) => e,
    }
}

#[test]
fn units_are_hours_days_and_weeks() {
    assert_eq!(millis("a:1h", "a"), Some(3_600_000));
    assert_eq!(millis("a:1d", "a"), Some(86_400_000));
    assert_eq!(millis("a:1w", "a"), Some(604_800_000));
    assert_eq!(millis("a:0d", "a"), Some(0));
    assert_eq!(millis("a:10w", "a"), Some(6_048_000_000));
}

#[test]
fn number_may_carry_a_sign() {
    assert_eq!(millis("a:+2d", "a"), Some(172_800_000));
    assert_eq!(millis("a:-2d", "a"), Some(-172_800_000));
    assert_eq!(millis("a:007h", "a"), Some(25_200_000));
}

#[test]
fn wildcard_is_an_entry_like_any_other() {
    let policy = parse_channel_retention("general:1d,*:2w".to_owned()).unwrap();
    assert_eq!(policy.len(), 2);
    assert_eq!(policy.get("*").unwrap().num_milliseconds(), 1_209_600_000);
    assert_eq!(policy.get("general").unwrap().num_milliseconds(), 86_400_000);
    assert!(policy.get("random").is_none());
}

#[test]
fn later_entry_replaces_earlier_of_same_name() {
    let policy = parse_channel_retention("a:1d,b:1h,a:2d".to_owned()).unwrap();
    assert_eq!(policy.len(), 2);
    assert_eq!(policy.get("a").unwrap().num_milliseconds(), 172_800_000);
    assert_eq!(policy.get("b").unwrap().num_milliseconds(), 3_600_000);
}

#[test]
fn names_may_be_empty_or_not_ascii() {
    assert_eq!(millis(":1d", ""), Some(86_400_000));
    assert_eq!(millis("caf\u{e9}:1d,\u{1f600}:2h", "caf\u{e9}"), Some(86_400_000));
    assert_eq!(millis("caf\u{e9}:1d,\u{1f600}:2h", "\u{1f600}"), Some(7_200_000));
}

#[test]
fn entry_needs_exactly_a_name_and_a_duration() {
    let invalid = ParseError::Config(ParseChannelConfigError::InvalidFormat);
    assert_eq!(error(""), invalid);
    assert_eq!(error("foo"), invalid);
    assert_eq!(error("a:1d,"), invalid);
    assert_eq!(error(",a:1d"), invalid);
    assert_eq!(error("a:1d:2d"), invalid);
    assert_eq!(error("a:1d,b"), invalid);
}

#[test]
fn empty_duration_is_no_duration() {
    assert_eq!(error("a:"), ParseError::Config(ParseChannelConfigError::NoDuration));
    assert_eq!(error("a:1d,b:"), ParseError::Config(ParseChannelConfigError::NoDuration));
}

#[test]
fn suffix_is_checked_before_the_number() {
    assert_eq!(
        error("a:xz"),
        ParseError::Config(ParseChannelConfigError::InvalidDurationSuffix('z'))
    );
    assert_eq!(
        error("a:5"),
        ParseError::Config(ParseChannelConfigError::InvalidDurationSuffix('5'))
    );
    assert_eq!(
        error("a:1\u{e9}"),
        ParseError::Config(ParseChannelConfigError::InvalidDurationSuffix('\u{e9}'))
    );
    assert_eq!(
        error("a:1D"),
        ParseError::Config(ParseChannelConfigError::InvalidDurationSuffix('D'))
    );
}

#[test]
fn bad_number_is_invalid_number() {
    assert_eq!(error("a:d"), ParseError::InvalidNumber);
    assert_eq!(error("a:xd"), ParseError::InvalidNumber);
    assert_eq!(error("a:-d"), ParseError::InvalidNumber);
    assert_eq!(error("a:+w"), ParseError::InvalidNumber);
    assert_eq!(error("a:1 d"), ParseError::InvalidNumber);
    assert_eq!(error("a:1.5d"), ParseError::InvalidNumber);
    assert_eq!(error("a:--1d"), ParseError::InvalidNumber);
    assert_eq!(error("a:9223372036854775808h"), ParseError::InvalidNumber);
    assert_eq!(error("a:-9223372036854775809h"), ParseError::InvalidNumber);
}

#[test]
fn duration_beyond_chrono_is_out_of_range() {
    assert_eq!(error("a:9223372036854775807h"), ParseError::DurationOutOfRange);
    assert_eq!(error("a:-9223372036854775808w"), ParseError::DurationOutOfRange);
    // 2562047788015 hours are the most that fit.
    assert_eq!(millis("a:2562047788015h", "a"), Some(9_223_372_036_854_000_000));
    assert_eq!(millis("a:-2562047788015h", "a"), Some(-9_223_372_036_854_000_000));
    assert_eq!(error("a:2562047788016h"), ParseError::DurationOutOfRange);
    assert_eq!(error("a:-2562047788016h"), ParseError::DurationOutOfRange);
    assert_eq!(millis("a:106751991167d", "a"), Some(9_223_372_036_828_800_000));
    assert_eq!(error("a:106751991168d"), ParseError::DurationOutOfRange);
    assert_eq!(millis("a:15250284452w", "a"), Some(9_223_372_036_569_600_000));
    assert_eq!(error("a:15250284453w"), ParseError::DurationOutOfRange);
}

#[test]
fn first_entry_in_error_decides() {
    assert_eq!(
        error("a:1z,b"),
        ParseError::Config(ParseChannelConfigError::InvalidDurationSuffix('z'))
    );
    assert_eq!(error("a,b:1z"), ParseError::Config(ParseChannelConfigError::InvalidFormat));
    assert_eq!(error("a:xd,b:"), ParseError::InvalidNumber);
}

#[test]
fn durations_agree_with_chrono() {
    for n in [-1000i64, -1, 0, 1, 7, 52, 100_000] {
        assert_eq!(
            millis(&format!("a:{}h", n), "a"),
            Some(Duration::hours(n).num_milliseconds())
        );
        assert_eq!(
            millis(&format!("a:{}d", n), "a"),
            Some(Duration::days(n).num_milliseconds())
        );
        assert_eq!(
            millis(&format!("a:{}w", n), "a"),
            Some(Duration::weeks(n).num_milliseconds())
        );
    }
}
