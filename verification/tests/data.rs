use tabby::data::{digest, merge, parse_bool, parse_bytea, Data, DataKind, Readings};

fn chars(s: &str) -> Vec<char> {
    s.chars().collect()
}

#[test]
fn null_abstains_when_kinds_merge() {
    for k in [DataKind::Integer, DataKind::Text, DataKind::Json, DataKind::Null] {
        assert_eq!(merge(DataKind::Null, k), k);
        assert_eq!(merge(k, DataKind::Null), k);
    }
}

#[test]
fn whole_numbers_among_decimals_make_a_decimal_column() {
    assert_eq!(merge(DataKind::Integer, DataKind::Decimal), DataKind::Decimal);
    assert_eq!(merge(DataKind::Decimal, DataKind::Integer), DataKind::Decimal);
    assert_eq!(merge(DataKind::Decimal, DataKind::Decimal), DataKind::Decimal);
}

#[test]
fn kinds_that_disagree_make_text() {
    assert_eq!(merge(DataKind::Integer, DataKind::Boolean), DataKind::Text);
    assert_eq!(merge(DataKind::Date, DataKind::Timestamp), DataKind::Text);
}

#[test]
fn merging_does_not_depend_on_order() {
    let kinds = [
        DataKind::Null,
        DataKind::Integer,
        DataKind::Decimal,
        DataKind::Text,
        DataKind::Uuid,
    ];
    for a in kinds {
        for b in kinds {
            assert_eq!(merge(a, b), merge(b, a));
            for c in kinds {
                assert_eq!(merge(merge(a, b), c), merge(a, merge(b, c)));
            }
        }
    }
}

#[test]
fn reads_booleans_in_either_spelling() {
    assert_eq!(parse_bool(&chars("t")), Some(true));
    assert_eq!(parse_bool(&chars("f")), Some(false));
    assert_eq!(parse_bool(&chars("TRUE")), Some(true));
    assert_eq!(parse_bool(&chars("False")), Some(false));
    assert_eq!(parse_bool(&chars("yes")), None);
    assert_eq!(parse_bool(&chars("")), None);
}

#[test]
fn reads_lowercase_bytea_only() {
    assert_eq!(parse_bytea(&chars("\\x00ff1a")), Some(vec![0x00, 0xff, 0x1a]));
    assert_eq!(parse_bytea(&chars("\\x00FF")), None);
    assert_eq!(parse_bytea(&chars("\\x0")), None);
    assert_eq!(parse_bytea(&chars("\\x")), None);
    assert_eq!(parse_bytea(&chars("\\xzz")), None);
    assert_eq!(parse_bytea(&chars("00ff")), None);
}

#[test]
fn bytea_renders_back_as_it_came() {
    for text in ["\\x00000186a3", "\\xdeadbeef", "\\x00"] {
        assert_eq!(Data::parse(text).render(), text);
    }
}

#[test]
fn numbers_render_back_exactly() {
    for text in ["0", "-17", "3008", "3.00", "-1.5", "0.000"] {
        let d = Data::parse(text);
        assert!(d.kind().is_numeric(), "{text} should be a number");
        assert_eq!(d.render(), text);
    }
}

#[test]
fn integers_and_decimals_are_told_apart() {
    assert_eq!(Data::parse("42"), Data::Integer(42));
    assert_eq!(Data::parse("9223372036854775807"), Data::Integer(i64::MAX));
    // One past i64 still fits a decimal exactly.
    assert_eq!(Data::parse("9223372036854775808").kind(), DataKind::Decimal);
    assert_eq!(Data::parse("4.5").kind(), DataKind::Decimal);
}

#[test]
fn timestamps_are_written_in_one_form() {
    let d = Data::parse("2025-08-27 07:07:35+02");
    assert_eq!(d.kind(), DataKind::TimestampTz);
    assert_eq!(d.render(), "2025-08-27 07:07:35+02:00");

    let d = Data::parse("2025-08-27 07:07:35");
    assert_eq!(d.kind(), DataKind::Timestamp);
    assert_eq!(d.render(), "2025-08-27 07:07:35");

    // Fractions are written in whole milli-, micro- or nanoseconds.
    let d = Data::parse("2025-08-27 07:07:35.5");
    assert_eq!(d.kind(), DataKind::Timestamp);
    assert_eq!(d.render(), "2025-08-27 07:07:35.500");
}

#[test]
fn dates_are_written_with_two_digit_months_and_days() {
    let d = Data::parse("2025-8-7");
    assert_eq!(d.kind(), DataKind::Date);
    assert_eq!(d.render(), "2025-08-07");
}

#[test]
fn json_is_only_objects_and_arrays() {
    assert_eq!(Data::parse("[1, 2]"), Data::Json("[1,2]".to_string()));
    assert_eq!(Data::parse("\"s\"").kind(), DataKind::Text);
    assert_eq!(Data::parse("{oops").kind(), DataKind::Text);
}

#[test]
fn uuids_must_be_lowercase_and_hyphenated() {
    let text = "2b1f9c4e-0000-4a1b-8c2d-1a2b3c4d5e6f";
    assert_eq!(Data::parse(text), Data::Uuid(text.to_string()));
    assert_eq!(Data::parse(&text.to_uppercase()).kind(), DataKind::Text);
    assert_eq!(Data::parse(&text.replace('-', "")).kind(), DataKind::Text);
}

#[test]
fn a_blob_digest_is_its_size_and_checksum() {
    // MD5 of the empty input is d41d8cd98f00b204e9800998ecf8427e.
    assert_eq!(digest(&[]), "0 B  d41d8cd9");
    // MD5 of "abc" is 900150983cd24fb0d6963f7d28e17f72.
    assert_eq!(digest(b"abc"), "3 B  90015098");
    assert_eq!(digest(&[0u8; 32]).chars().count(), 14);
}

#[test]
fn only_json_and_blobs_have_a_readable_form() {
    assert!(DataKind::Json.has_readable_form());
    assert!(DataKind::Bytes.has_readable_form());
    assert!(!DataKind::Text.has_readable_form());
    assert!(!DataKind::Integer.has_readable_form());
}

/// Nothing read by any of the outside parsers.
fn nothing() -> Readings {
    Readings {
        integer: None,
        decimal: None,
        uuid: None,
        timestamptz: None,
        timestamp: None,
        date: None,
        json: None,
    }
}

#[test]
fn a_number_counts_only_when_it_writes_back_as_it_came() {
    let mut r = nothing();
    r.integer = Some(42);
    assert_eq!(Data::classify("42", &r), Data::Integer(42));
    // `+42` reads as 42 but writes back without its sign: text.
    assert_eq!(Data::classify("+42", &r), Data::Text("+42".into()));

    let mut r = nothing();
    r.decimal = Some("1.5".into());
    assert_eq!(Data::classify("1.50", &r), Data::Text("1.50".into()));
    assert_eq!(Data::classify("1.5", &r), Data::Decimal("1.5".into()));
}

#[test]
fn times_are_kept_in_the_form_they_write_back_in() {
    let mut r = nothing();
    r.timestamptz = Some("2025-08-27 07:07:35+00:00".into());
    r.date = Some("2025-08-27".into());
    assert_eq!(
        Data::classify("2025-08-27 07:07:35+00", &r),
        Data::TimestampTz("2025-08-27 07:07:35+00:00".into())
    );
    let mut r = nothing();
    r.date = Some("2025-08-07".into());
    assert_eq!(Data::classify("2025-8-7", &r), Data::Date("2025-08-07".into()));
}

#[test]
fn booleans_blobs_and_nulls_need_no_parser() {
    let mut r = nothing();
    r.integer = Some(1);
    assert_eq!(Data::classify("", &r), Data::Null);
    assert_eq!(Data::classify("t", &r), Data::Boolean(true));
    assert_eq!(Data::classify("\\x01", &r), Data::Bytes(vec![1]));
}

#[test]
fn only_objects_and_arrays_are_json() {
    let mut r = nothing();
    r.json = Some("123".into());
    assert_eq!(Data::classify("123", &r), Data::Text("123".into()));
    r.json = Some("[1]".into());
    assert_eq!(Data::classify("[ 1 ]", &r), Data::Json("[1]".into()));
}

#[test]
fn integers_write_out_in_decimal() {
    assert_eq!(Data::Integer(i64::MIN).render(), "-9223372036854775808");
    assert_eq!(Data::Integer(i64::MAX).render(), "9223372036854775807");
    assert_eq!(Data::Integer(0).render(), "0");
    assert_eq!(Data::Integer(-10).render(), "-10");
}
