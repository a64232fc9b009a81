use skit::commands::EnvArgs;
use skit::commands::EnvCommand;
use skit::commands::ExportArgs;
use skit::commands::ExportCommand;
use skit::commands::ImportCommand;
use skit::commands::SetArgs;
use skit::commands::SetCommand;
use skit::commands::StatusArgs;
use skit::commands::StatusCommand;
use skit::errors::ArgIssue;
use skit::errors::ParseIssueKind;
use skit::errors::SkitError;
use skit::safe::Safe;

const PW: &str = "Str0ng.Pass.1";

#[test]
fn test_env_and_export_list_readable_values() {
    let mut safe = Safe::new_with_password(PW, "listing").unwrap();
    let set = SetCommand;
    set.execute_operation(
        &mut safe,
        None,
        SetArgs { key: "B_PLAIN".to_string(), value: "two".to_string(), is_plain: true },
    )
    .unwrap();
    set.execute_operation(
        &mut safe,
        Some(PW.to_string()),
        SetArgs { key: "A_SECRET".to_string(), value: "one".to_string(), is_plain: false },
    )
    .unwrap();

    // without a password only the plain entry is handed out
    let env = EnvCommand;
    let out = env
        .execute_operation(&mut safe, None, EnvArgs { shell_name: "bash".to_string() })
        .unwrap();
    assert_eq!(out.shell_name, "bash");
    assert_eq!(out.entries.len(), 1);
    assert_eq!(out.entries[0], ("B_PLAIN".to_string(), "two".to_string()));

    // with the password everything is handed out, decrypted, in order
    let export = ExportCommand;
    let all = export.execute_operation(&mut safe, Some(PW.to_string()), ExportArgs).unwrap();
    assert_eq!(all.entries.len(), 2);
    assert_eq!(all.entries[0], ("A_SECRET".to_string(), "one".to_string()));
    assert_eq!(all.entries[1], ("B_PLAIN".to_string(), "two".to_string()));
}

#[test]
fn test_status_counts_and_names_failures() {
    let mut safe = Safe::new_with_password(PW, "status").unwrap();
    let set = SetCommand;
    set.execute_operation(
        &mut safe,
        None,
        SetArgs { key: "P".to_string(), value: "v".to_string(), is_plain: true },
    )
    .unwrap();
    set.execute_operation(
        &mut safe,
        Some(PW.to_string()),
        SetArgs { key: "GOOD".to_string(), value: "fine".to_string(), is_plain: false },
    )
    .unwrap();
    // a legacy envelope that the current engine cannot open
    safe.add_or_update_item("BAD".to_string(), "ENC~legacydata".to_string(), true);

    let status = StatusCommand;
    let out = status.execute_operation(&mut safe, Some(PW.to_string()), StatusArgs).unwrap();
    assert_eq!(out.status_output.statistics.total_secrets, 3);
    assert_eq!(out.status_output.statistics.encrypted, 2);
    assert_eq!(out.status_output.statistics.plain_text, 1);
    assert!(out.status_output.integrity.password_hash_ok);
    assert_eq!(out.status_output.integrity.encrypted_secrets_verified, Some(false));
    let details = out.verification_details.unwrap();
    assert_eq!(details.total_encrypted, 2);
    assert_eq!(details.verified, 1);
    assert_eq!(details.failed, 1);
    assert_eq!(details.failed_keys, vec!["BAD"]);
}

#[test]
fn test_status_without_password_reports_corruption() {
    let mut safe = Safe::new_with_password(PW, "status").unwrap();
    let status = StatusCommand;
    let out = status.execute_operation(&mut safe, None, StatusArgs).unwrap();
    assert!(!out.status_output.integrity.password_hash_ok);
    assert_eq!(out.status_output.integrity.encrypted_secrets_verified, Some(false));
    assert!(out.verification_details.is_none());
}

#[test]
fn test_parse_reports_each_missing_field() {
    let mk = |lines: &str| format!("{}\nK=v\n", lines);
    let full = "#@VERSION=1.0\n#@UUID=u\n#@DESCRIPTION=d\n#@CREATED=c\n#@UPDATED=t\n#@PASS_HASH=h";
    assert!(Safe::parse(&mk(full)).is_ok());
    let cases = [
        ("#@UUID=u\n#@DESCRIPTION=d\n#@CREATED=c\n#@UPDATED=t\n#@PASS_HASH=h", ParseIssueKind::MissingVersion),
        ("#@VERSION=1.0\n#@DESCRIPTION=d\n#@CREATED=c\n#@UPDATED=t\n#@PASS_HASH=h", ParseIssueKind::MissingUuid),
        ("#@VERSION=1.0\n#@UUID=u\n#@CREATED=c\n#@UPDATED=t\n#@PASS_HASH=h", ParseIssueKind::MissingDescription),
        ("#@VERSION=1.0\n#@UUID=u\n#@DESCRIPTION=d\n#@UPDATED=t\n#@PASS_HASH=h", ParseIssueKind::MissingCreated),
        ("#@VERSION=1.0\n#@UUID=u\n#@DESCRIPTION=d\n#@CREATED=c\n#@PASS_HASH=h", ParseIssueKind::MissingUpdated),
    ];
    for (text, kind) in cases {
        match Safe::parse(&mk(text)) {
            Err(SkitError::ParseError(pi)) => {
                assert_eq!(pi.kind, kind);
                assert_eq!(pi.line, 0);
            },
            _ => panic!("expected a missing-field error"),
        }
    }
}

#[test]
fn test_import_refuses_unstorable_plain_value() {
    let mut safe = Safe::new_with_password(PW, "import").unwrap();
    let cmd = ImportCommand;
    // a quoted value with inner whitespace at its ends cannot be kept
    // verbatim by the file format
    let entries = vec![("SPACEY".to_string(), " padded ".to_string())];
    let plain = Some(vec!["SPACEY".to_string()]);
    let r = cmd.apply_entries(&mut safe, Some(PW.to_string()), entries, &plain);
    assert!(matches!(r, Err(SkitError::InvalidArgument(ArgIssue::UnstorablePlainValue))));
    // nothing was stored
    assert!(safe.find_item("SPACEY").is_none());
}
