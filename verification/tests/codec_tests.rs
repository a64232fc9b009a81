use skit::errors::ParseIssueKind;
use skit::errors::SkitError;
use skit::safe::Safe;

#[test]
fn test_codec_round_trip_keeps_everything_but_updated() {
    let mut safe = Safe::new_with_password("Str0ng.Pass.1", "round trip").unwrap();
    safe.add_or_update_item("ZULU".to_string(), "plain value".to_string(), false);
    safe.add_or_update_item("ALPHA".to_string(), "another".to_string(), false);
    let env = skit::crypto::encrypt_value_with_salt("Str0ng.Pass.1", "hidden").unwrap();
    safe.add_or_update_item("MIKE".to_string(), env.clone(), true);

    let text = safe.serialize("2024-01-02 03:04:05 UTC");
    let back = Safe::parse(&text).unwrap();

    assert_eq!(back.version, safe.version);
    assert_eq!(back.uuid, safe.uuid);
    assert_eq!(back.description, safe.description);
    assert_eq!(back.created, safe.created);
    assert_eq!(back.updated, "2024-01-02 03:04:05 UTC");
    assert_eq!(back.password_hash, safe.password_hash);
    assert_eq!(back.items.len(), 3);
    // items come back sorted by name
    assert_eq!(back.items[0].key, "ALPHA");
    assert_eq!(back.items[1].key, "MIKE");
    assert_eq!(back.items[1].value, env);
    assert!(back.items[1].is_encrypted);
    assert_eq!(back.items[2].key, "ZULU");
}

#[test]
fn test_parse_requires_password_hash() {
    let text = "#@VERSION=1.0\n#@UUID=u\n#@DESCRIPTION=d\n#@CREATED=c\n#@UPDATED=u2\nKEY=v\n";
    let r = Safe::parse(text);
    match r {
        Err(SkitError::ParseError(pi)) => {
            assert_eq!(pi.kind, ParseIssueKind::MissingPassHash);
            assert_eq!(pi.line, 0);
        },
        _ => panic!("expected a missing password hash error"),
    }
}

#[test]
fn test_parse_rejects_line_without_separator() {
    let text = "#@VERSION=1.0\njust some words\n";
    let r = Safe::parse(text);
    match r {
        Err(SkitError::ParseError(pi)) => {
            assert_eq!(pi.kind, ParseIssueKind::InvalidLine);
            assert_eq!(pi.line, 2);
        },
        _ => panic!("expected a line-numbered error"),
    }
}

#[test]
fn test_parse_rejects_empty_key() {
    let text = "=value\n";
    let r = Safe::parse(text);
    match r {
        Err(SkitError::ParseError(pi)) => {
            assert_eq!(pi.kind, ParseIssueKind::EmptyKey);
            assert_eq!(pi.line, 1);
        },
        _ => panic!("expected an empty key error"),
    }
}

#[test]
fn test_parse_full_file_with_comments_and_blanks() {
    let text = "# banner\n\n#@VERSION=1.0\n#@UUID=abc\n#@DESCRIPTION=demo\n#@CREATED=t1\n#@UPDATED=t2\n#@PASS_HASH=h\n#@SSM_PREFIX=/app/\n# another comment\nB_KEY=two\nA_KEY = one\n";
    let safe = Safe::parse(text).unwrap();
    assert_eq!(safe.version, "1.0");
    assert_eq!(safe.uuid, "abc");
    assert_eq!(safe.description, "demo");
    assert_eq!(safe.ssm_prefix.as_deref(), Some("/app/"));
    assert_eq!(safe.ssm_region, None);
    assert_eq!(safe.items.len(), 2);
    // keys and values are trimmed, and items are held sorted
    assert_eq!(safe.items[0].key, "A_KEY");
    assert_eq!(safe.items[0].value, "one");
    assert_eq!(safe.items[1].key, "B_KEY");
}

#[test]
fn test_parse_last_write_wins() {
    let text = "#@VERSION=1.0\n#@UUID=u\n#@DESCRIPTION=d\n#@CREATED=c\n#@UPDATED=u2\n#@PASS_HASH=h\nK=first\nK=second\n";
    let safe = Safe::parse(text).unwrap();
    assert_eq!(safe.items.len(), 1);
    assert_eq!(safe.items[0].value, "second");
}

#[test]
fn test_parse_rewrites_legacy_envelope() {
    let text = "#@VERSION=1.0\n#@UUID=u\n#@DESCRIPTION=d\n#@CREATED=c\n#@UPDATED=u2\n#@PASS_HASH=h\nOLD=ENC~somesalt~cipherdata\n";
    let safe = Safe::parse(text).unwrap();
    let item = safe.find_item("OLD").unwrap();
    assert!(item.is_encrypted);
    assert_eq!(item.value, "ENC~cipherdata");
}

#[test]
fn test_parse_ignores_unknown_metadata() {
    let text = "#@VERSION=1.0\n#@UUID=u\n#@DESCRIPTION=d\n#@CREATED=c\n#@UPDATED=u2\n#@PASS_HASH=h\n#@FUTURE_FIELD=whatever\n";
    let safe = Safe::parse(text).unwrap();
    assert_eq!(safe.items.len(), 0);
}

#[test]
fn test_new_safe_has_fresh_identity() {
    let a = Safe::new_with_password("pw one", "first").unwrap();
    let b = Safe::new_with_password("pw one", "second").unwrap();
    assert!(!a.uuid.is_empty());
    assert_ne!(a.uuid, b.uuid);
    assert_eq!(a.version, "1.0");
    assert_eq!(a.created, a.updated);
    assert!(a.verify_password("pw one").is_ok());
    assert!(a.verify_password("pw two").is_err());
}
