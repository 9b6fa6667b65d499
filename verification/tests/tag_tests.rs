use tagging::error::TaggingError;
use tagging::tag::{Position, Tag};
use tagging::version::Version;

fn tag(raw: &str, prefix: &str) -> Tag {
    Tag::new(raw, prefix.to_string(), None, None).unwrap()
}

#[test]
fn parse_then_display_appends_prefix_to_raw_text() {
    assert_eq!(tag("1.2.3", "v").to_string(), "v1.2.3");
    assert_eq!(tag("0.1.0", "").to_string(), "0.1.0");
    assert_eq!(tag("10.20.30", "release-").to_string(), "release-10.20.30");
}

#[test]
fn parse_rejects_malformed_versions() {
    for raw in ["", "abc", "1", "1.2", "1.2.3.4", "1..2", "v1.2.3", "1.2.3 ", " 1.2.3", "1.2.x"] {
        let r = Tag::new(raw, String::new(), None, None);
        assert!(matches!(r, Err(TaggingError::VersionFormat)), "accepted {:?}", raw);
    }
}

#[test]
fn parse_rejects_leading_zeros() {
    assert!(Tag::new("01.0.0", String::new(), None, None).is_err());
    assert!(Tag::new("1.00.0", String::new(), None, None).is_err());
    assert!(Tag::new("1.0.00", String::new(), None, None).is_err());
    assert!(Tag::new("0.0.0", String::new(), None, None).is_ok());
}

#[test]
fn parse_handles_u64_range() {
    let t = tag("18446744073709551615.0.0", "");
    assert_eq!(t.version.major, u64::MAX);
    assert!(Tag::new("18446744073709551616.0.0", String::new(), None, None).is_err());
}

#[test]
fn parse_stores_fields_verbatim() {
    let t = Tag::new("1.2.3", "v".to_string(), Some(42), Some("note".to_string())).unwrap();
    assert_eq!(t.prefix, "v");
    assert_eq!(t.version, Version { major: 1, minor: 2, patch: 3 });
    assert_eq!(t.timestamp, Some(42));
    assert_eq!(t.message, Some("note".to_string()));
}

#[test]
fn increment_resets_lower_components() {
    let t = tag("1.4.7", "");
    assert_eq!(t.incremented(Position::Minor).to_string(), "1.5.0");
    assert_eq!(t.incremented(Position::Major).to_string(), "2.0.0");
    assert_eq!(t.incremented(Position::Patch).to_string(), "1.4.8");
}

#[test]
fn increment_keeps_prefix_and_clears_metadata() {
    let t = Tag::new("1.4.7", "v".to_string(), Some(7), Some("old".to_string())).unwrap();
    let bumped = t.incremented(Position::Minor);
    assert_eq!(bumped.to_string(), "v1.5.0");
    assert_eq!(bumped.timestamp, None);
    assert_eq!(bumped.message, None);
}

#[test]
fn increment_strictly_increases() {
    let t = tag("1.4.7", "");
    for p in [Position::Major, Position::Minor, Position::Patch] {
        let b = t.incremented(p);
        assert!(t.version.le(&b.version) && t.version != b.version);
    }
}

#[test]
fn display_then_parse_round_trips() {
    let t = Tag::new("0.10.2", "rel-".to_string(), Some(5), Some("hi".to_string())).unwrap();
    let shown = t.to_string();
    assert_eq!(shown, "rel-0.10.2");
    let raw = shown.strip_prefix("rel-").unwrap();
    let again = Tag::new(raw, "rel-".to_string(), Some(5), Some("hi".to_string())).unwrap();
    assert_eq!(again.prefix, t.prefix);
    assert_eq!(again.version, t.version);
    assert_eq!(again.timestamp, t.timestamp);
    assert_eq!(again.message, t.message);
}

#[test]
fn position_accepts_letters_and_words() {
    for (token, want) in [
        ("M", Position::Major),
        ("major", Position::Major),
        ("Major", Position::Major),
        ("m", Position::Minor),
        ("minor", Position::Minor),
        ("Minor", Position::Minor),
        ("p", Position::Patch),
        ("patch", Position::Patch),
        ("Patch", Position::Patch),
    ] {
        assert_eq!(Position::from_str(token).unwrap(), want, "token {:?}", token);
    }
}

#[test]
fn position_word_forms_are_case_insensitive() {
    for (token, want) in [
        ("MAJOR", Position::Major),
        ("mAjOr", Position::Major),
        ("MINOR", Position::Minor),
        ("MiNoR", Position::Minor),
        ("PATCH", Position::Patch),
        ("pAtCh", Position::Patch),
    ] {
        assert_eq!(Position::from_str(token).unwrap(), want, "token {:?}", token);
    }
}

#[test]
fn position_single_letters_are_exact() {
    // `M` and `m` must stay distinguishable, so one-letter forms are exact.
    assert_eq!(Position::from_str("M").unwrap(), Position::Major);
    assert_eq!(Position::from_str("m").unwrap(), Position::Minor);
    assert!(matches!(Position::from_str("P"), Err(TaggingError::InvalidPosition)));
}

#[test]
fn position_rejects_other_tokens() {
    for token in ["", "P", "maj", "major ", "x", "majors"] {
        let r = Position::from_str(token);
        assert!(matches!(r, Err(TaggingError::InvalidPosition)), "accepted {:?}", token);
    }
}

#[test]
fn version_order_is_major_minor_patch() {
    let a = Version { major: 1, minor: 0, patch: 0 };
    let b = Version { major: 1, minor: 1, patch: 0 };
    let c = Version { major: 1, minor: 1, patch: 5 };
    let d = Version { major: 2, minor: 0, patch: 0 };
    assert!(a.le(&b) && b.le(&c) && c.le(&d));
    assert!(!b.le(&a) && !d.le(&c));
    assert!(a.le(&a));
}

#[test]
fn error_descriptions_match_the_reported_text() {
    assert_eq!(
        TaggingError::VersionFormat.describe(),
        "Version format error! Please input according to semantic versioning like '1.0.0'."
    );
    assert_eq!(
        TaggingError::InvalidPosition.describe(),
        "Invalid position. Supported positions are major(M), minor(m), patch(p)."
    );
}
