use horizoncast::net::bplist::decoding_outcome;
use horizoncast::net::bplist::encoding_outcome;
use horizoncast::net::bplist::from_binary;
use horizoncast::net::bplist::to_binary;
use horizoncast::net::bplist::Dictionary;
use horizoncast::net::bplist::Value;
use horizoncast::net::bplist_dates::has_plain_dates;

#[test]
fn round_trips_a_dictionary() {
    let mut dict = Dictionary::new();
    dict.insert("method".into(), Value::String("pin".into()));
    dict.insert("user".into(), Value::String("HorizonCast".into()));
    dict.insert("count".into(), Value::Integer(3i64.into()));
    let value = Value::Dictionary(dict);

    let bytes = to_binary(&value).unwrap();
    assert_eq!(&bytes[..8], b"bplist00", "binary plist magic header");

    let decoded = from_binary(&bytes).unwrap();
    assert_eq!(decoded, value);
}

#[test]
fn rejects_garbage() {
    assert!(from_binary(b"not a property list at all").is_err());
}

#[test]
fn error_names_the_step_that_failed() {
    let text = from_binary(b"not a property list at all")
        .unwrap_err()
        .text();
    assert!(text.starts_with("protocol error: bplist decode failed: "));
}

#[test]
fn reads_xml_property_lists_too() {
    let xml = b"<?xml version=\"1.0\"?><plist version=\"1.0\"><array><true/></array></plist>";
    assert_eq!(
        from_binary(xml).unwrap(),
        Value::Array(vec![Value::Boolean(true)])
    );
}

#[test]
fn everything_but_a_date_survives_exactly() {
    let mut inner = Dictionary::new();
    inner.insert("z".into(), Value::Boolean(false));
    inner.insert("a".into(), Value::Data(vec![0, 255, 7]));
    let value = Value::Array(vec![
        Value::Dictionary(inner),
        Value::Real(-0.25),
        Value::Integer((-1i64).into()),
        Value::Integer(u64::MAX.into()),
        Value::String("grüße, 世界".into()),
        Value::Uid(plist::Uid::new(70_000)),
        Value::Array(Vec::new()),
    ]);
    let bytes = to_binary(&value).unwrap();
    assert_eq!(from_binary(&bytes).unwrap(), value);
}

#[test]
fn outcomes_of_attempts() {
    assert_eq!(encoding_outcome(Ok(vec![1, 2])).unwrap(), vec![1, 2]);
    assert_eq!(
        encoding_outcome(Err("disk full".into())).unwrap_err().text(),
        "protocol error: bplist encode failed: disk full"
    );
    assert_eq!(
        decoding_outcome(Ok(Value::Boolean(true))).unwrap(),
        Value::Boolean(true)
    );
    assert_eq!(
        decoding_outcome(Err("bad magic".into())).unwrap_err().text(),
        "protocol error: bplist decode failed: bad magic"
    );
}

fn dated(date: &str) -> Vec<u8> {
    format!("<?xml version=\"1.0\"?><plist version=\"1.0\"><date>{date}</date></plist>").into_bytes()
}

#[test]
fn dates_at_the_ends_of_the_range() {
    for date in [
        "1602-01-01T00:00:00+23:59",
        "2024-02-29T12:30:00Z",
        "9998-12-31T23:59:59-23:59",
    ] {
        let bytes = dated(date);
        assert!(has_plain_dates(&bytes), "{date}");
        assert!(matches!(from_binary(&bytes), Ok(Value::Date(_))), "{date}");
    }
    for date in [
        "1601-12-31T23:59:59Z",
        "0000-01-01T00:00:00Z",
        "9999-01-01T00:00:00Z",
        "9999-12-31T23:59:59-01:00",
    ] {
        assert!(!has_plain_dates(&dated(date)), "{date}");
    }
}

#[test]
fn years_in_pieces_are_told_apart() {
    // A year that something interrupts is not shown by the text that comes first.
    for date in [
        "9<!-- -->999-12-31T23:59:59-01:00",
        "&#57;999-12-31T23:59:59-01:00",
        "<![CDATA[]]>9999-12-31T23:59:59-01:00",
        "99<?x?>99-12-31T23:59:59-01:00",
    ] {
        assert!(!has_plain_dates(&dated(date)), "{date}");
    }
    // One that comes whole is, whatever follows.
    let bytes = dated("2024-02-29<!-- leap day -->T12:30:00Z");
    assert!(has_plain_dates(&bytes));
    assert!(from_binary(&bytes).is_ok());
}

#[test]
fn other_forms_of_date_tags() {
    for (bytes, plain) in [
        ("<p:date>9999-12-31T23:59:59-01:00</p:date>", false),
        ("<date >9999-12-31T23:59:59-01:00</date>", false),
        ("<date a='>'>2024-02-29T12:30:00Z</date>", false),
        ("<date a=1>2024-02-29T12:30:00Z</date>", true),
        ("<date/>9999", true),
        ("<date></date>", true),
        ("<date>soon</date>", true),
        ("<date", true),
        ("<update>9999-12-31T23:59:59-01:00</update>", true),
        ("{ day = 9999; }", true),
        ("", true),
    ] {
        assert_eq!(has_plain_dates(bytes.as_bytes()), plain, "{bytes}");
        if plain {
            let _ = from_binary(bytes.as_bytes());
        }
    }
    // What a binary list holds is not looked at.
    let value = Value::String("<date>9999-12-31T23:59:59-01:00</date>".into());
    let bytes = to_binary(&value).unwrap();
    assert!(has_plain_dates(&bytes));
    assert_eq!(from_binary(&bytes).unwrap(), value);
}
