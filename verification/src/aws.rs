use vstd::prelude::*;

use crate::chars::starts_with;
use crate::chars::starts_with_str;

verus! {

/// One parameter pulled from the external parameter store: its name
/// under the prefix, its plain value, and whether the store held it as
/// a secret (so that it must be re-encrypted locally).
#[derive(Debug, Clone)]
pub struct SsmParameter {
    pub key: String,
    pub value: String,
    pub is_encrypted: bool,
}

/// A parameter-store path prefix with its leading slash restored.
pub open spec fn normalized_prefix_spec(prefix: Seq<char>) -> Seq<char> {
    if starts_with(prefix, "/"@) {
        prefix
    } else {
        "/"@ + prefix
    }
}

/// Restore the leading slash of a parameter-store path prefix.
pub fn normalize_prefix(prefix: &str) -> (r: String)
    ensures
        r@ == normalized_prefix_spec(prefix@),
{
    if starts_with_str(prefix, "/") {
        String::from_str(prefix)
    } else {
        let mut out = String::from_str("/");
        out.append(prefix);
        out
    }
}

/// The number of leading slashes of a sequence.
pub open spec fn leading_slashes(s: Seq<char>) -> int
    decreases s.len(),
{
    if s.len() > 0 && s[0] == '/' {
        1 + leading_slashes(s.drop_first())
    } else {
        0
    }
}

/// What stripping a prefix from a parameter name yields: the remainder
/// with its own leading slashes dropped when the name lies under the
/// prefix, the whole name otherwise.
pub open spec fn stripped_key_spec(name: Seq<char>, prefix: Seq<char>) -> Seq<char> {
    if starts_with(name, prefix) {
        let rest = name.skip(prefix.len() as int);
        rest.skip(leading_slashes(rest))
    } else {
        name
    }
}

/// Strip a path prefix from a parameter name, dropping any leading
/// slashes left over.
pub fn strip_parameter_prefix(name: &str, prefix: &str) -> (r: String)
    ensures
        r@ == stripped_key_spec(name@, prefix@),
{
    if !starts_with_str(name, prefix) {
        return String::from_str(name);
    }
    let n = name.unicode_len();
    let plen = prefix.unicode_len();
    let mut i: usize = plen;
    while i < n && name.get_char(i) == '/'
        invariant
            plen <= i <= n,
            n == name@.len(),
            plen == prefix@.len(),
            forall|j: int| plen <= j < i ==> name@[j] == '/',
            leading_slashes(name@.skip(plen as int)) == (i - plen) + leading_slashes(
                name@.skip(i as int),
            ),
        decreases n - i,
    {
        proof {
            assert(name@.skip(i as int)[0] == name@[i as int]);
            assert(name@.skip(i as int).drop_first() =~= name@.skip(i + 1));
        }
        i = i + 1;
    }
    proof {
        let rest_i = name@.skip(i as int);
        if i < n {
            assert(rest_i[0] == name@[i as int]);
            assert(leading_slashes(rest_i) == 0);
        } else {
            assert(rest_i.len() == 0);
            assert(leading_slashes(rest_i) == 0);
        }
        assert(name@.skip(plen as int).skip((i - plen) as int) =~= name@.skip(i as int));
    }
    String::from_str(name.substring_char(i, n))
}

} // verus!
