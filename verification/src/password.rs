use vstd::prelude::*;

use crate::chars::trim;
use crate::chars::trim_str;
use crate::crypto;
use crate::errors::PasswordSource;
use crate::errors::PolicyViolation;
use crate::errors::SkitError;
use crate::safe::Safe;

use rand::seq::SliceRandom;
use rand::Rng;

verus! {

/// The characters a password may use: letters, digits, and the special
/// characters `. _ @ # -`.
pub open spec fn allowed_pw_char(c: char) -> bool {
    pw_lower(c) || pw_upper(c) || pw_digit(c) || pw_special(c)
}

pub open spec fn pw_lower(c: char) -> bool {
    'a' <= c && c <= 'z'
}

pub open spec fn pw_upper(c: char) -> bool {
    'A' <= c && c <= 'Z'
}

pub open spec fn pw_digit(c: char) -> bool {
    '0' <= c && c <= '9'
}

pub open spec fn pw_special(c: char) -> bool {
    c == '.' || c == '_' || c == '@' || c == '#' || c == '-'
}

/// The password policy: at least 12 characters long, only allowed characters,
/// and at least one lowercase letter, one uppercase letter, one digit
/// and one special character; the first violated rule names the error.
pub open spec fn password_policy(s: Seq<char>) -> Result<(), PolicyViolation> {
    if s.len() < 12 {
        Err(PolicyViolation::TooShort)
    } else if exists|i: int| 0 <= i < s.len() && !allowed_pw_char(#[trigger] s[i]) {
        Err(PolicyViolation::InvalidCharacter)
    } else if !(exists|i: int| 0 <= i < s.len() && pw_lower(#[trigger] s[i])) {
        Err(PolicyViolation::MissingLowercase)
    } else if !(exists|i: int| 0 <= i < s.len() && pw_upper(#[trigger] s[i])) {
        Err(PolicyViolation::MissingUppercase)
    } else if !(exists|i: int| 0 <= i < s.len() && pw_digit(#[trigger] s[i])) {
        Err(PolicyViolation::MissingDigit)
    } else if !(exists|i: int| 0 <= i < s.len() && pw_special(#[trigger] s[i])) {
        Err(PolicyViolation::MissingSpecial)
    } else {
        Ok(())
    }
}

/// Enforce the password policy on a candidate password.
pub fn validate_password_strength(password: &str) -> (r: Result<(), SkitError>)
    ensures
        r == match password_policy(password@) {
            Ok(()) => Ok::<(), SkitError>(()),
            Err(v) => Err::<(), SkitError>(SkitError::WeakPassword(v)),
        },
{
    let n = password.unicode_len();
    if n < 12 {
        return Err(SkitError::WeakPassword(PolicyViolation::TooShort));
    }
    let mut has_invalid = false;
    let mut has_lower = false;
    let mut has_upper = false;
    let mut has_digit = false;
    let mut has_special = false;
    let mut i: usize = 0;
    while i < n
        invariant
            0 <= i <= n,
            n == password@.len(),
            has_invalid == exists|j: int|
                0 <= j < i && !allowed_pw_char(#[trigger] password@[j]),
            has_lower == exists|j: int| 0 <= j < i && pw_lower(#[trigger] password@[j]),
            has_upper == exists|j: int| 0 <= j < i && pw_upper(#[trigger] password@[j]),
            has_digit == exists|j: int| 0 <= j < i && pw_digit(#[trigger] password@[j]),
            has_special == exists|j: int| 0 <= j < i && pw_special(#[trigger] password@[j]),
        decreases n - i,
    {
        let c = password.get_char(i);
        let lower = c >= 'a' && c <= 'z';
        let upper = c >= 'A' && c <= 'Z';
        let digit = c >= '0' && c <= '9';
        let special = c == '.' || c == '_' || c == '@' || c == '#' || c == '-';
        if !(lower || upper || digit || special) {
            has_invalid = true;
        }
        if lower {
            has_lower = true;
        }
        if upper {
            has_upper = true;
        }
        if digit {
            has_digit = true;
        }
        if special {
            has_special = true;
        }
        i = i + 1;
    }
    if has_invalid {
        return Err(SkitError::WeakPassword(PolicyViolation::InvalidCharacter));
    }
    if !has_lower {
        return Err(SkitError::WeakPassword(PolicyViolation::MissingLowercase));
    }
    if !has_upper {
        return Err(SkitError::WeakPassword(PolicyViolation::MissingUppercase));
    }
    if !has_digit {
        return Err(SkitError::WeakPassword(PolicyViolation::MissingDigit));
    }
    if !has_special {
        return Err(SkitError::WeakPassword(PolicyViolation::MissingSpecial));
    }
    Ok(())
}

/// Relies on `rand::thread_rng` with `Rng::gen_range`: an index below
/// `n`, however it was drawn.
#[verifier::external_body]
fn pick_index(n: usize) -> (r: usize)
    requires
        n > 0,
    ensures
        r < n,
{
    rand::thread_rng().gen_range(0..n)
}

/// Relies on `rand::seq::SliceRandom::shuffle`: a permutation, so the
/// same length and the same set of characters.
#[verifier::external_body]
fn shuffle_chars(v: &mut Vec<char>)
    ensures
        final(v)@.len() == old(v)@.len(),
        forall|c: char| final(v)@.contains(c) <==> old(v)@.contains(c),
{
    v.shuffle(&mut rand::thread_rng());
}

fn pick_lower() -> (c: char)
    ensures
        pw_lower(c),
{
    let i = pick_index(26);
    (97 + i as u8) as char
}

fn pick_upper() -> (c: char)
    ensures
        pw_upper(c),
{
    let i = pick_index(26);
    (65 + i as u8) as char
}

fn pick_digit() -> (c: char)
    ensures
        pw_digit(c),
{
    let i = pick_index(10);
    (48 + i as u8) as char
}

fn pick_special() -> (c: char)
    ensures
        pw_special(c),
{
    let i = pick_index(5);
    if i == 0 {
        '.'
    } else if i == 1 {
        '_'
    } else if i == 2 {
        '@'
    } else if i == 3 {
        '#'
    } else {
        '-'
    }
}

fn pick_any() -> (c: char)
    ensures
        allowed_pw_char(c),
{
    let i = pick_index(67);
    if i < 26 {
        (97 + i as u8) as char
    } else if i < 52 {
        (65 + (i - 26) as u8) as char
    } else if i < 62 {
        (48 + (i - 52) as u8) as char
    } else if i == 62 {
        '.'
    } else if i == 63 {
        '_'
    } else if i == 64 {
        '@'
    } else if i == 65 {
        '#'
    } else {
        '-'
    }
}

/// Draw a random password that satisfies the password policy: twelve
/// characters, one of each required class guaranteed, shuffled.
pub fn generate_secure_password() -> (r: String)
    ensures
        r@.len() == 12,
        password_policy(r@) == Ok::<(), PolicyViolation>(()),
{
    let mut chars: Vec<char> = Vec::new();
    chars.push(pick_lower());
    chars.push(pick_upper());
    chars.push(pick_digit());
    chars.push(pick_special());
    let mut j: usize = 0;
    while j < 8
        invariant
            chars@.len() == 4 + j,
            0 <= j <= 8,
            pw_lower(chars@[0]),
            pw_upper(chars@[1]),
            pw_digit(chars@[2]),
            pw_special(chars@[3]),
            forall|m: int| 0 <= m < chars@.len() ==> allowed_pw_char(#[trigger] chars@[m]),
        decreases 8 - j,
    {
        chars.push(pick_any());
        j = j + 1;
    }
    let ghost before = chars@;
    shuffle_chars(&mut chars);
    let mut out = String::new();
    let mut i: usize = 0;
    while i < 12
        invariant
            0 <= i <= 12,
            chars@.len() == 12,
            out@ == chars@.take(i as int),
        decreases 12 - i,
    {
        out.push(chars[i]);
        proof {
            assert(out@ =~= chars@.take(i + 1));
        }
        i = i + 1;
    }
    proof {
        assert(out@ =~= chars@);
        assert(before.contains(before[0]));
        assert(before.contains(before[1]));
        assert(before.contains(before[2]));
        assert(before.contains(before[3]));
        assert(chars@.contains(before[0]));
        assert(chars@.contains(before[1]));
        assert(chars@.contains(before[2]));
        assert(chars@.contains(before[3]));
        assert forall|m: int| 0 <= m < chars@.len() implies allowed_pw_char(
            #[trigger] chars@[m],
        ) by {
            assert(chars@.contains(chars@[m]));
            assert(before.contains(chars@[m]));
            let w = choose|w: int| 0 <= w < before.len() && before[w] == chars@[m];
            assert(allowed_pw_char(before[w]));
        }
        let li = choose|li: int| 0 <= li < chars@.len() && chars@[li] == before[0];
        let ui = choose|ui: int| 0 <= ui < chars@.len() && chars@[ui] == before[1];
        let di = choose|di: int| 0 <= di < chars@.len() && chars@[di] == before[2];
        let si = choose|si: int| 0 <= si < chars@.len() && chars@[si] == before[3];
        assert(pw_lower(out@[li]));
        assert(pw_upper(out@[ui]));
        assert(pw_digit(out@[di]));
        assert(pw_special(out@[si]));
    }
    out
}

/// The fixed environment variable holding the safe password.
pub fn get_env_var_name_for_safe(safe_path: &str) -> (r: String)
    ensures
        r@ == "SKIT_SAFEKEY"@,
{
    let _ = safe_path;
    String::from_str("SKIT_SAFEKEY")
}

/// What the stored tiers of the authentication chain decided.
pub enum AuthOutcome {
    /// A password was found and verified; it and its source are handed
    /// back.
    Authenticated(String, PasswordSource),
    /// Neither the environment nor a key file supplied a password: the
    /// caller must fall back to the interactive prompt.
    NeedPrompt,
}

/// A non-empty environment password is present and authoritative.
pub open spec fn env_effective(env_password: Option<String>) -> bool {
    match env_password {
        Option::Some(p) => p@.len() > 0,
        Option::None => false,
    }
}

/// The characters of an optional password, empty when absent.
pub open spec fn opt_view(p: Option<String>) -> Seq<char> {
    match p {
        Option::Some(p) => p@,
        Option::None => Seq::empty(),
    }
}

/// Decide between the stored tiers of the authentication chain, in
/// strict order. A non-empty environment password is authoritative: it
/// is verified at once and a mismatch is a hard error, never a
/// fall-through. Otherwise a key file's contents, trimmed, are verified
/// the same way, and a mismatch is again a hard error. With neither
/// present, the caller must prompt. On a key-file success the caller is
/// expected to touch the key file, so idle-key cleanup can see the use.
pub fn resolve_stored_password(
    safe: &Safe,
    env_password: Option<String>,
    key_file_password: Option<String>,
) -> (r: Result<AuthOutcome, SkitError>)
    ensures
        env_effective(env_password) ==> (if crypto::phc_verifies(
            opt_view(env_password),
            safe@.password_hash,
        ) {
            r matches Ok(o) && o matches AuthOutcome::Authenticated(q, src) && q@ == opt_view(
                env_password,
            ) && src == PasswordSource::Environment
        } else {
            r == Err::<AuthOutcome, SkitError>(
                SkitError::InvalidPassword(PasswordSource::Environment),
            )
        }),
        (!env_effective(env_password) && key_file_password is Some) ==> (if crypto::phc_verifies(
            trim(opt_view(key_file_password)),
            safe@.password_hash,
        ) {
            r matches Ok(o) && o matches AuthOutcome::Authenticated(q, src) && q@ == trim(
                opt_view(key_file_password),
            ) && src == PasswordSource::KeyFile
        } else {
            r == Err::<AuthOutcome, SkitError>(SkitError::InvalidPassword(PasswordSource::KeyFile))
        }),
        (!env_effective(env_password) && key_file_password is None) ==> (r matches Ok(o) && o
            is NeedPrompt),
{
    let env_nonempty = match &env_password {
        Option::Some(p) => p.as_str().unicode_len() > 0,
        Option::None => false,
    };
    if env_nonempty {
        let p = match env_password {
            Option::Some(p) => p,
            Option::None => {
                return Err(SkitError::InvalidPassword(PasswordSource::Environment));
            },
        };
        match crypto::verify_password(p.as_str(), safe.password_hash.as_str()) {
            Ok(()) => Ok(AuthOutcome::Authenticated(p, PasswordSource::Environment)),
            Err(_) => Err(SkitError::InvalidPassword(PasswordSource::Environment)),
        }
    } else {
        match key_file_password {
            Option::Some(kf) => {
                let trimmed = trim_str(kf.as_str());
                match crypto::verify_password(trimmed.as_str(), safe.password_hash.as_str()) {
                    Ok(()) => Ok(AuthOutcome::Authenticated(trimmed, PasswordSource::KeyFile)),
                    Err(_) => Err(SkitError::InvalidPassword(PasswordSource::KeyFile)),
                }
            },
            Option::None => Ok(AuthOutcome::NeedPrompt),
        }
    }
}

/// Verify a password typed at the interactive prompt, the chain's last
/// tier.
pub fn verify_prompt_password(safe: &Safe, password: String) -> (r: Result<String, SkitError>)
    ensures
        if crypto::phc_verifies(password@, safe@.password_hash) {
            r matches Ok(p) && p@ == password@
        } else {
            r == Err::<String, SkitError>(SkitError::InvalidPassword(PasswordSource::Prompt))
        },
{
    match crypto::verify_password(password.as_str(), safe.password_hash.as_str()) {
        Ok(()) => Ok(password),
        Err(_) => Err(SkitError::InvalidPassword(PasswordSource::Prompt)),
    }
}

} // verus!
