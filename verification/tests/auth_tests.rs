use skit::errors::PasswordSource;
use skit::errors::PolicyViolation;
use skit::errors::SkitError;
use skit::password::generate_secure_password;
use skit::password::get_env_var_name_for_safe;
use skit::password::resolve_stored_password;
use skit::password::validate_password_strength;
use skit::password::verify_prompt_password;
use skit::password::AuthOutcome;
use skit::safe::Safe;

#[test]
fn test_env_var_name_is_fixed() {
    assert_eq!(get_env_var_name_for_safe(".env.safe"), "SKIT_SAFEKEY");
    assert_eq!(get_env_var_name_for_safe("other"), "SKIT_SAFEKEY");
}

#[test]
fn test_policy_accepts_strong_password() {
    assert!(validate_password_strength("Abcdefgh1234.").is_ok());
}

#[test]
fn test_policy_rejects_each_rule() {
    assert!(matches!(
        validate_password_strength("Ab1."),
        Err(SkitError::WeakPassword(PolicyViolation::TooShort))
    ));
    assert!(matches!(
        validate_password_strength("Abcdefgh1234!"),
        Err(SkitError::WeakPassword(PolicyViolation::InvalidCharacter))
    ));
    assert!(matches!(
        validate_password_strength("ABCDEFGH1234."),
        Err(SkitError::WeakPassword(PolicyViolation::MissingLowercase))
    ));
    assert!(matches!(
        validate_password_strength("abcdefgh1234."),
        Err(SkitError::WeakPassword(PolicyViolation::MissingUppercase))
    ));
    assert!(matches!(
        validate_password_strength("Abcdefghijkl."),
        Err(SkitError::WeakPassword(PolicyViolation::MissingDigit))
    ));
    assert!(matches!(
        validate_password_strength("Abcdefgh1234"),
        Err(SkitError::WeakPassword(PolicyViolation::MissingSpecial))
    ));
}

#[test]
fn test_generated_password_meets_policy() {
    let pw = generate_secure_password();
    assert_eq!(pw.chars().count(), 12);
    assert!(validate_password_strength(&pw).is_ok());
}

#[test]
fn test_environment_takes_precedence_over_key_file() {
    let safe = Safe::new_with_password("Correct.Pass1", "auth").unwrap();
    let r = resolve_stored_password(
        &safe,
        Some("Correct.Pass1".to_string()),
        Some("Another.Pass9\n".to_string()),
    );
    match r {
        Ok(AuthOutcome::Authenticated(pw, src)) => {
            assert_eq!(pw, "Correct.Pass1");
            assert_eq!(src, PasswordSource::Environment);
        },
        _ => panic!("environment password must win"),
    }
}

#[test]
fn test_bad_environment_password_never_falls_through() {
    let safe = Safe::new_with_password("Correct.Pass1", "auth").unwrap();
    let r = resolve_stored_password(
        &safe,
        Some("Wrong.Pass99".to_string()),
        Some("Correct.Pass1".to_string()),
    );
    assert!(matches!(r, Err(SkitError::InvalidPassword(PasswordSource::Environment))));
}

#[test]
fn test_key_file_used_when_environment_absent() {
    let safe = Safe::new_with_password("Correct.Pass1", "auth").unwrap();
    // an empty environment value does not count, and key files are trimmed
    let r = resolve_stored_password(
        &safe,
        Some(String::new()),
        Some("  Correct.Pass1\n".to_string()),
    );
    match r {
        Ok(AuthOutcome::Authenticated(pw, src)) => {
            assert_eq!(pw, "Correct.Pass1");
            assert_eq!(src, PasswordSource::KeyFile);
        },
        _ => panic!("key file password must be used"),
    }
}

#[test]
fn test_bad_key_file_is_an_error_not_a_fallback() {
    let safe = Safe::new_with_password("Correct.Pass1", "auth").unwrap();
    let r = resolve_stored_password(&safe, None, Some("Stale.Pass77".to_string()));
    assert!(matches!(r, Err(SkitError::InvalidPassword(PasswordSource::KeyFile))));
}

#[test]
fn test_prompt_is_last_resort() {
    let safe = Safe::new_with_password("Correct.Pass1", "auth").unwrap();
    let r = resolve_stored_password(&safe, None, None);
    assert!(matches!(r, Ok(AuthOutcome::NeedPrompt)));
    let ok = verify_prompt_password(&safe, "Correct.Pass1".to_string());
    assert_eq!(ok.unwrap(), "Correct.Pass1");
    let bad = verify_prompt_password(&safe, "nope".to_string());
    assert!(matches!(bad, Err(SkitError::InvalidPassword(PasswordSource::Prompt))));
}
