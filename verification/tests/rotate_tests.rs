use skit::commands::GetArgs;
use skit::commands::GetCommand;
use skit::commands::SetArgs;
use skit::commands::SetCommand;
use skit::errors::CryptoError;
use skit::errors::PolicyViolation;
use skit::errors::SkitError;
use skit::safe::Safe;

#[test]
fn test_rotation_new_password_opens_values() {
    let pw0 = "First.Pass.00";
    let pw1 = "Second.Pass.1";
    let mut safe = Safe::new_with_password(pw0, "rotate").unwrap();
    let set = SetCommand;
    set.execute_operation(
        &mut safe,
        Some(pw0.to_string()),
        SetArgs { key: "ONE".to_string(), value: "alpha".to_string(), is_plain: false },
    )
    .unwrap();

    let pw0_owned = pw0.to_string();
    let rotated = safe.rotate(Some(&pw0_owned), pw1).unwrap();
    assert_eq!(rotated.uuid, safe.uuid);
    assert_eq!(rotated.created, safe.created);
    assert_ne!(rotated.find_item("ONE").unwrap().value, safe.find_item("ONE").unwrap().value);
    assert!(rotated.verify_password(pw1).is_ok());
    assert!(rotated.verify_password(pw0).is_err());

    let get = GetCommand;
    let mut rotated = rotated;
    let out = get
        .execute_operation(&mut rotated, Some(pw1.to_string()), GetArgs {
            key: "ONE".to_string(),
        })
        .unwrap();
    assert_eq!(out.value, "alpha");
}

#[test]
fn test_rotation_locks_the_old_password_out() {
    let pw0 = "First.Pass.00";
    let pw1 = "Second.Pass.1";
    let mut safe = Safe::new_with_password(pw0, "rotate").unwrap();
    let set = SetCommand;
    set.execute_operation(
        &mut safe,
        Some(pw0.to_string()),
        SetArgs { key: "ONE".to_string(), value: "alpha".to_string(), is_plain: false },
    )
    .unwrap();

    let pw0_owned = pw0.to_string();
    let mut rotated = safe.rotate(Some(&pw0_owned), pw1).unwrap();
    let get = GetCommand;
    let stale = get.execute_operation(&mut rotated, Some(pw0.to_string()), GetArgs {
        key: "ONE".to_string(),
    });
    assert!(matches!(stale, Err(SkitError::Crypto(CryptoError::DecryptionFailed))));
}

#[test]
fn test_rotating_twice_leaves_only_the_newest_credentials() {
    // with no encrypted items, two rotations in sequence are cheap to run
    // whole; the same composition for encrypted values is the proved law
    // about two rotation relations
    let pw0 = "First.Pass.00";
    let pw1 = "Second.Pass.1";
    let pw2 = "Third.Pass.22";
    let mut safe = Safe::new_with_password(pw0, "rotate").unwrap();
    let set = SetCommand;
    set.execute_operation(
        &mut safe,
        None,
        SetArgs { key: "P".to_string(), value: "stays".to_string(), is_plain: true },
    )
    .unwrap();
    let once = safe.rotate(None, pw1).unwrap();
    let twice = once.rotate(None, pw2).unwrap();
    assert!(twice.verify_password(pw2).is_ok());
    assert!(twice.verify_password(pw1).is_err());
    assert!(twice.verify_password(pw0).is_err());
    assert_eq!(twice.find_item("P").unwrap().value, "stays");
    assert_eq!(twice.uuid, safe.uuid);
}

#[test]
fn test_rotation_validates_the_new_password() {
    let safe = Safe::new_with_password("First.Pass.00", "rotate").unwrap();
    let r = safe.rotate(None, "weak");
    assert!(matches!(r, Err(SkitError::WeakPassword(PolicyViolation::TooShort))));
}

#[test]
fn test_rotation_aborts_when_a_value_cannot_be_opened() {
    let pw0 = "First.Pass.00";
    let mut safe = Safe::new_with_password(pw0, "rotate").unwrap();
    // a legacy envelope cannot be opened, so rotation must fail whole
    safe.add_or_update_item("OLD".to_string(), "ENC~legacydata".to_string(), true);
    let pw0_owned = pw0.to_string();
    let r = safe.rotate(Some(&pw0_owned), "Second.Pass.1");
    assert!(matches!(r, Err(SkitError::Crypto(CryptoError::InvalidFormat))));
}

#[test]
fn test_rotation_without_encrypted_items_needs_no_old_password() {
    let mut safe = Safe::new_with_password("First.Pass.00", "rotate").unwrap();
    let set = SetCommand;
    set.execute_operation(
        &mut safe,
        None,
        SetArgs { key: "P".to_string(), value: "v".to_string(), is_plain: true },
    )
    .unwrap();
    let rotated = safe.rotate(None, "Second.Pass.1").unwrap();
    assert!(rotated.verify_password("Second.Pass.1").is_ok());
    assert_eq!(rotated.find_item("P").unwrap().value, "v");
}
