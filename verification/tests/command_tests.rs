use skit::aws::SsmParameter;
use skit::commands::partition_key_ages;
use skit::commands::copy_items;
use skit::commands::parse_env_file;
use skit::commands::parse_key_list;
use skit::commands::safe_info_of;
use skit::commands::GetArgs;
use skit::commands::GetCommand;
use skit::commands::ImportCommand;
use skit::commands::KeysArgs;
use skit::commands::KeysCommand;
use skit::commands::PrintArgs;
use skit::commands::PrintCommand;
use skit::commands::RmArgs;
use skit::commands::RmCommand;
use skit::commands::SetArgs;
use skit::commands::SetCommand;
use skit::commands::SsmPullCommand;
use skit::errors::ArgIssue;
use skit::errors::ParseIssueKind;
use skit::errors::PasswordSource;
use skit::errors::SkitError;
use skit::safe::Safe;

const PW: &str = "Str0ng.Pass.1";

fn demo_safe() -> Safe {
    Safe::new_with_password(PW, "demo").unwrap()
}

#[test]
fn test_end_to_end_set_and_get() {
    // create a safe, store one encrypted secret, read it back
    let mut safe = Safe::new_with_password("Str0ng!Pass#1", "demo").unwrap();
    let set = SetCommand;
    let args = SetArgs { key: "API_KEY".to_string(), value: "secret123".to_string(), is_plain: false };
    assert!(set.validate_args(&args).is_ok());
    let before = safe.serialize("t");
    let msg = set
        .execute_operation(&mut safe, Some("Str0ng!Pass#1".to_string()), args)
        .unwrap();
    assert_eq!(msg.message, "Set API_KEY (encrypted) in safe");

    let get = GetCommand;
    let out = get
        .execute_operation(
            &mut safe,
            Some("Str0ng!Pass#1".to_string()),
            GetArgs { key: "API_KEY".to_string() },
        )
        .unwrap();
    assert_eq!(out.value, "secret123");

    // a wrong password is rejected at authentication and changes nothing
    let auth = safe.verify_password("Wrong!Pass#99");
    assert!(matches!(auth, Err(SkitError::InvalidPassword(PasswordSource::Caller))));
    let mut reread = Safe::parse(&before).unwrap();
    let still_there = get
        .execute_operation(
            &mut reread,
            None,
            GetArgs { key: "API_KEY".to_string() },
        );
    assert!(matches!(still_there, Err(SkitError::KeyNotFound)));
}

#[test]
fn test_import_scenario_plain_and_encrypted() {
    // import FOO=bar and BAZ=qux with BAZ kept plain
    let mut safe = demo_safe();
    let entries = parse_env_file("FOO=bar\nBAZ=qux\n").unwrap();
    assert_eq!(entries.len(), 2);
    let plain = Some(vec!["BAZ".to_string()]);
    let cmd = ImportCommand;
    let msg = cmd
        .apply_entries(&mut safe, Some(PW.to_string()), entries, &plain)
        .unwrap();
    assert_eq!(msg.message, "Imported 2 secrets: 1 encrypted, 1 plain text");

    let baz = safe.find_item("BAZ").unwrap();
    assert!(!baz.is_encrypted);
    assert_eq!(baz.value, "qux");

    let foo = safe.find_item("FOO").unwrap();
    assert!(foo.is_encrypted);
    assert!(foo.value.starts_with("ENC~v1~"));
    let get = GetCommand;
    let out = get
        .execute_operation(&mut safe, Some(PW.to_string()), GetArgs { key: "FOO".to_string() })
        .unwrap();
    assert_eq!(out.value, "bar");
}

#[test]
fn test_parse_env_file_details() {
    let entries =
        parse_env_file("# comment\n\nA=1\nB = \"quoted value\"\nC='single'\n").unwrap();
    assert_eq!(entries.len(), 3);
    assert_eq!(entries[0], ("A".to_string(), "1".to_string()));
    assert_eq!(entries[1], ("B".to_string(), "quoted value".to_string()));
    assert_eq!(entries[2], ("C".to_string(), "single".to_string()));

    let bad = parse_env_file("A=1\nnot a pair\n");
    match bad {
        Err(SkitError::ParseError(pi)) => {
            assert_eq!(pi.kind, ParseIssueKind::InvalidLine);
            assert_eq!(pi.line, 2);
        },
        _ => panic!("expected a line error"),
    }

    let bad_key = parse_env_file("9LIVES=cat\n");
    match bad_key {
        Err(SkitError::ParseError(pi)) => {
            assert_eq!(pi.kind, ParseIssueKind::InvalidKey);
            assert_eq!(pi.line, 1);
        },
        _ => panic!("expected an invalid key error"),
    }
}

#[test]
fn test_import_rejects_empty_and_missing_password() {
    let mut safe = demo_safe();
    let cmd = ImportCommand;
    let none = cmd.apply_entries(&mut safe, Some(PW.to_string()), vec![], &None);
    match none {
        Err(SkitError::ParseError(pi)) => assert_eq!(pi.kind, ParseIssueKind::NoEntries),
        _ => panic!("expected an empty import error"),
    }
    let entries = vec![("A".to_string(), "1".to_string())];
    let r = cmd.apply_entries(&mut safe, None, entries, &None);
    assert!(matches!(r, Err(SkitError::InvalidPassword(PasswordSource::Caller))));
}

#[test]
fn test_parse_key_list_trims_and_drops_empty() {
    let keys = parse_key_list("a, b,,c ,");
    assert_eq!(keys, vec!["a", "b", "c"]);
    assert_eq!(parse_key_list(""), Vec::<String>::new());
}

#[test]
fn test_rm_and_keys_commands() {
    let mut safe = demo_safe();
    let set = SetCommand;
    set.execute_operation(
        &mut safe,
        None,
        SetArgs { key: "B".to_string(), value: "two".to_string(), is_plain: true },
    )
    .unwrap();
    set.execute_operation(
        &mut safe,
        None,
        SetArgs { key: "A".to_string(), value: "one".to_string(), is_plain: true },
    )
    .unwrap();

    let keys = KeysCommand;
    let listed = keys.execute_operation(&mut safe, None, KeysArgs).unwrap();
    assert_eq!(listed.items.len(), 2);
    assert_eq!(listed.items[0].0, "A");
    assert_eq!(listed.items[1].0, "B");
    assert!(!listed.items[0].1);

    let rm = RmCommand;
    let msg = rm
        .execute_operation(&mut safe, None, RmArgs { key: "A".to_string() })
        .unwrap();
    assert_eq!(msg.message, "Removed 'A' from safe");
    assert!(safe.find_item("A").is_none());

    let missing = rm.execute_operation(&mut safe, None, RmArgs { key: "A".to_string() });
    assert!(matches!(missing, Err(SkitError::KeyNotFound)));
}

#[test]
fn test_validate_args_reject_bad_input() {
    let set = SetCommand;
    assert!(matches!(
        set.validate_args(&SetArgs { key: String::new(), value: String::new(), is_plain: true }),
        Err(SkitError::InvalidArgument(ArgIssue::EmptyKey))
    ));
    assert!(matches!(
        set.validate_args(
            &SetArgs { key: "not a name".to_string(), value: String::new(), is_plain: true }
        ),
        Err(SkitError::InvalidArgument(ArgIssue::InvalidKey))
    ));
    let print = PrintCommand;
    assert!(matches!(
        print.validate_args(&PrintArgs { plain_only: true, enc_only: true }),
        Err(SkitError::InvalidArgument(ArgIssue::ConflictingFilters))
    ));
    let ssm = SsmPullCommand;
    assert!(matches!(
        ssm.validate_args(&skit::commands::SsmPullArgs {
            prefix: Some("   ".to_string()),
            region: None,
            replace: false,
            no_overwrite: false,
            dry_run: false,
        }),
        Err(SkitError::InvalidArgument(ArgIssue::EmptySsmPrefix))
    ));
}

#[test]
fn test_print_marks_unreadable_values() {
    let mut safe = demo_safe();
    let set = SetCommand;
    set.execute_operation(
        &mut safe,
        None,
        SetArgs { key: "PLAIN".to_string(), value: "visible".to_string(), is_plain: true },
    )
    .unwrap();
    set.execute_operation(
        &mut safe,
        Some(PW.to_string()),
        SetArgs { key: "SECRET".to_string(), value: "hidden".to_string(), is_plain: false },
    )
    .unwrap();

    let print = PrintCommand;
    let shown = print
        .execute_operation(&mut safe, None, PrintArgs { plain_only: false, enc_only: false })
        .unwrap();
    assert_eq!(shown.items.len(), 2);
    assert_eq!(shown.items[0].1, "visible");
    assert_eq!(shown.items[1].1, "<Value hidden - encrypted>");

    let opened = print
        .execute_operation(
            &mut safe,
            Some(PW.to_string()),
            PrintArgs { plain_only: false, enc_only: true },
        )
        .unwrap();
    assert_eq!(opened.items.len(), 1);
    assert_eq!(opened.items[0].0, "SECRET");
    assert_eq!(opened.items[0].1, "hidden");
}

#[test]
fn test_cleanup_partition_by_age() {
    let day = 86400u64;
    let now = 100 * day;
    let entries = vec![
        ("fresh.key".to_string(), now - day),
        ("old.key".to_string(), now - 40 * day),
        ("future.key".to_string(), now + day),
    ];
    let (old, recent) = partition_key_ages(entries, now, 30).unwrap();
    assert_eq!(old.len(), 1);
    assert_eq!(old[0].0, "old.key");
    assert_eq!(old[0].1, 40);
    assert_eq!(recent.len(), 2);
    assert_eq!(recent[0], ("fresh.key".to_string(), 1));
    assert_eq!(recent[1], ("future.key".to_string(), 0));

    let too_large = partition_key_ages(vec![], now, u64::MAX / 86400 + 1);
    assert!(matches!(too_large, Err(SkitError::InvalidArgument(ArgIssue::DaysTooLarge))));
}

#[test]
fn test_safe_info_counts() {
    let mut safe = demo_safe();
    let info_empty = safe_info_of("x.safe".to_string(), &safe);
    assert_eq!(info_empty.status, "Empty");
    let set = SetCommand;
    set.execute_operation(
        &mut safe,
        None,
        SetArgs { key: "P".to_string(), value: "v".to_string(), is_plain: true },
    )
    .unwrap();
    set.execute_operation(
        &mut safe,
        Some(PW.to_string()),
        SetArgs { key: "S".to_string(), value: "v".to_string(), is_plain: false },
    )
    .unwrap();
    let info = safe_info_of("x.safe".to_string(), &safe);
    assert_eq!(info.statistics.total, 2);
    assert_eq!(info.statistics.encrypted, 1);
    assert_eq!(info.statistics.plain, 1);
    assert_eq!(info.status, "OK");
    assert_eq!(info.description, "demo");
}

#[test]
fn test_ssm_merge_respects_no_overwrite() {
    let mut safe = demo_safe();
    let set = SetCommand;
    set.execute_operation(
        &mut safe,
        None,
        SetArgs { key: "KEEP".to_string(), value: "original".to_string(), is_plain: true },
    )
    .unwrap();

    let params = vec![
        SsmParameter { key: "KEEP".to_string(), value: "pulled".to_string(), is_encrypted: false },
        SsmParameter { key: "NEW".to_string(), value: "fresh".to_string(), is_encrypted: false },
    ];
    let ssm = SsmPullCommand;
    let msg = ssm
        .apply_parameters(
            &mut safe,
            Some(PW.to_string()),
            params,
            false,
            true,
            "/app/".to_string(),
            Some("somewhere-1".to_string()),
        )
        .unwrap();
    assert!(msg.message.starts_with("Successfully pulled "));
    assert_eq!(safe.find_item("KEEP").unwrap().value, "original");
    assert_eq!(safe.find_item("NEW").unwrap().value, "fresh");
    assert_eq!(safe.ssm_prefix.as_deref(), Some("/app/"));
    assert_eq!(safe.ssm_region.as_deref(), Some("somewhere-1"));
}

#[test]
fn test_ssm_replace_drops_old_items_and_seals_secrets() {
    let mut safe = demo_safe();
    let set = SetCommand;
    set.execute_operation(
        &mut safe,
        None,
        SetArgs { key: "GONE".to_string(), value: "x".to_string(), is_plain: true },
    )
    .unwrap();
    let params = vec![
        SsmParameter { key: "TOKEN".to_string(), value: "s3cr3t".to_string(), is_encrypted: true },
    ];
    let ssm = SsmPullCommand;
    ssm.apply_parameters(
        &mut safe,
        Some(PW.to_string()),
        params,
        true,
        false,
        "/app/".to_string(),
        None,
    )
    .unwrap();
    assert!(safe.find_item("GONE").is_none());
    let token = safe.find_item("TOKEN").unwrap();
    assert!(token.is_encrypted);
    let get = GetCommand;
    let out = get
        .execute_operation(&mut safe, Some(PW.to_string()), GetArgs { key: "TOKEN".to_string() })
        .unwrap();
    assert_eq!(out.value, "s3cr3t");
}

#[test]
fn test_copy_re_encrypts_under_new_password() {
    let mut source = demo_safe();
    let set = SetCommand;
    set.execute_operation(
        &mut source,
        Some(PW.to_string()),
        SetArgs { key: "S".to_string(), value: "moved".to_string(), is_plain: false },
    )
    .unwrap();
    set.execute_operation(
        &mut source,
        None,
        SetArgs { key: "P".to_string(), value: "kept".to_string(), is_plain: true },
    )
    .unwrap();

    let mut dest = Safe::new_with_password("Other.Pass.2", "copy").unwrap();
    copy_items(&source, PW, &mut dest, "Other.Pass.2").unwrap();
    assert_eq!(dest.items.len(), 2);
    assert_eq!(dest.find_item("P").unwrap().value, "kept");
    let get = GetCommand;
    let out = get
        .execute_operation(
            &mut dest,
            Some("Other.Pass.2".to_string()),
            GetArgs { key: "S".to_string() },
        )
        .unwrap();
    assert_eq!(out.value, "moved");
}

#[test]
fn test_normalize_safe_path_forms() {
    assert_eq!(skit::commands::normalize_safe_path(".env.safe"), ".env.safe");
    assert_eq!(skit::commands::normalize_safe_path("myproject.safe"), ".myproject.safe");
    assert_eq!(skit::commands::normalize_safe_path("myproject"), ".myproject.safe");
}
