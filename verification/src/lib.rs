//! A local secrets store kept in a single flat file: named values, plain
//! or encrypted, under one password. The cryptographic envelope, the
//! file codec, the password authentication chain and the credential
//! rotation protocol live here, with their behavior stated in contracts;
//! the surrounding program does the terminal and network work.

pub mod aws;
pub mod chars;
pub mod codec;
pub mod commands;
pub mod crypto;
pub mod safe;
pub mod display;
pub mod errors;
pub mod password;
pub mod types;

use vstd::prelude::*;

verus! {

/// Pattern accepted for environment variable names: an ASCII letter or
/// underscore, followed by ASCII letters, digits and underscores.
pub open spec fn valid_env_key(s: Seq<char>) -> bool {
    &&& s.len() > 0
    &&& (s[0] == '_' || ('a' <= s[0] && s[0] <= 'z') || ('A' <= s[0] && s[0] <= 'Z'))
    &&& forall|i: int|
        1 <= i < s.len() ==> (#[trigger] s[i] == '_' || ('a' <= s[i] && s[i] <= 'z') || ('A'
            <= s[i] && s[i] <= 'Z') || ('0' <= s[i] && s[i] <= '9'))
}

/// Check that a key is usable as an environment variable name.
pub fn is_valid_env_key(key: &str) -> (r: bool)
    ensures
        r == valid_env_key(key@),
{
    let len: usize = key.unicode_len();
    if len == 0 {
        return false;
    }
    let first = key.get_char(0);
    if !(first == '_' || (first >= 'a' && first <= 'z') || (first >= 'A' && first <= 'Z')) {
        return false;
    }
    let mut i: usize = 1;
    while i < len
        invariant
            1 <= i <= len,
            len == key@.len(),
            forall|j: int|
                1 <= j < i ==> (#[trigger] key@[j] == '_' || ('a' <= key@[j] && key@[j] <= 'z')
                    || ('A' <= key@[j] && key@[j] <= 'Z') || ('0' <= key@[j] && key@[j] <= '9')),
        decreases len - i,
    {
        let c = key.get_char(i);
        if !(c == '_' || (c >= 'a' && c <= 'z') || (c >= 'A' && c <= 'Z') || (c >= '0' && c
            <= '9')) {
            return false;
        }
        i = i + 1;
    }
    true
}

} // verus!
