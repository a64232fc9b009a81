use vstd::prelude::*;

use crate::chars::lex_lt;
use crate::crypto;
use crate::errors::ArgIssue;
use crate::errors::CryptoError;
use crate::errors::PasswordSource;
use crate::errors::SkitError;
use crate::safe::enc_pred;
use crate::safe::item_value_wf;
use crate::safe::item_wf;
use crate::safe::lemma_envelope_text_item;
use crate::safe::lemma_upsert_found;
use crate::safe::meta_value_wf;
use crate::safe::upsert;
use crate::safe::ItemV;
use crate::safe::Safe;
use crate::safe::SafeItem;
use crate::safe::SafeV;
use crate::valid_env_key;

verus! {

/// Result of a command that reports one message.
#[derive(Debug)]
pub struct MessageOutput {
    pub message: String,
}

impl MessageOutput {
    pub fn new(message: String) -> (r: Self)
        ensures
            r.message@ == message@,
    {
        MessageOutput { message }
    }
}

/// No item of the safe bears this name.
pub open spec fn no_such_key(items: Seq<ItemV>, key: Seq<char>) -> bool {
    forall|i: int| 0 <= i < items.len() ==> (#[trigger] items[i]).key != key
}

/// Two items of a well-formed safe never share a name.
pub proof fn lemma_key_unique(sv: SafeV, i: int, j: int)
    requires
        sv.wf(),
        0 <= i < sv.items.len(),
        0 <= j < sv.items.len(),
        sv.items[i].key == sv.items[j].key,
    ensures
        i == j,
{
    if i < j {
        crate::chars::lemma_lex_irrefl(sv.items[i].key);
    }
    if j < i {
        crate::chars::lemma_lex_irrefl(sv.items[i].key);
    }
}

/// Arguments for reading one secret.
#[derive(Debug)]
pub struct GetArgs {
    pub key: String,
}

/// The retrieved value.
#[derive(Debug)]
pub struct GetOutput {
    pub value: String,
}

/// Read one secret, decrypting it when needed.
pub struct GetCommand;

impl GetCommand {
    /// The key must be non-empty.
    pub fn validate_args(&self, args: &GetArgs) -> (r: Result<(), SkitError>)
        ensures
            r == (if args.key@.len() == 0 {
                Err::<(), SkitError>(SkitError::InvalidArgument(ArgIssue::EmptyKey))
            } else {
                Ok::<(), SkitError>(())
            }),
    {
        if args.key.as_str().unicode_len() == 0 {
            Err(SkitError::InvalidArgument(ArgIssue::EmptyKey))
        } else {
            Ok(())
        }
    }

    /// A password is needed only to read an encrypted item that exists.
    pub fn requires_authentication(&self, safe: &Safe, args: &GetArgs) -> (r: bool)
        requires
            safe.wf(),
        ensures
            r == exists|i: int|
                0 <= i < safe@.items.len() && (#[trigger] safe@.items[i]).key == args.key@
                    && safe@.items[i].is_encrypted,
    {
        match safe.find_item(args.key.as_str()) {
            Option::Some(it) => {
                proof {
                    let fi = choose|i: int|
                        0 <= i < safe@.items.len() && safe@.items[i] == it@;
                    assert forall|i: int|
                        0 <= i < safe@.items.len() && (#[trigger] safe@.items[i]).key
                            == args.key@ implies safe@.items[i] == it@ by {
                        lemma_key_unique(safe@, i, fi);
                    }
                }
                it.is_encrypted
            },
            Option::None => false,
        }
    }

    /// Fetch the value: plain values verbatim; encrypted values opened
    /// with the password, whose absence or mismatch is an error.
    pub fn execute_operation(&self, safe: &mut Safe, password: Option<String>, args: GetArgs)
        -> (r: Result<GetOutput, SkitError>)
        requires
            old(safe).wf(),
        ensures
            final(safe)@ == old(safe)@,
            no_such_key(old(safe)@.items, args.key@) ==> r == Err::<GetOutput, SkitError>(
                SkitError::KeyNotFound,
            ),
            forall|i: int|
                0 <= i < old(safe)@.items.len() && (#[trigger] old(safe)@.items[i]).key
                    == args.key@ ==> {
                    let it = old(safe)@.items[i];
                    if !it.is_encrypted {
                        r matches Ok(o) && o.value@ == it.value
                    } else {
                        match password {
                            Option::Some(pw) => match r {
                                Ok(o) => crypto::is_envelope_for(it.value, pw@, o.value@),
                                Err(e) => (e matches SkitError::Crypto(ce) && (ce
                                    == CryptoError::InvalidFormat || ce
                                    == CryptoError::DecryptionFailed)) && forall|pt: Seq<char>|
                                    !crypto::is_envelope_for(it.value, pw@, pt),
                            },
                            Option::None => r == Err::<GetOutput, SkitError>(
                                SkitError::InvalidPassword(PasswordSource::Caller),
                            ),
                        }
                    }
                },
    {
        let found = match safe.find_item(args.key.as_str()) {
            Option::Some(it) => it,
            Option::None => {
                return Err(SkitError::KeyNotFound);
            },
        };
        let ghost fi = choose|i: int|
            0 <= i < safe@.items.len() && safe@.items[i] == found@;
        proof {
            assert forall|i: int|
                0 <= i < safe@.items.len() && (#[trigger] safe@.items[i]).key == args.key@
                    implies safe@.items[i] == found@ by {
                lemma_key_unique(safe@, i, fi);
            }
        }
        if !found.is_encrypted {
            let value = found.value.clone();
            Ok(GetOutput { value })
        } else {
            let pw = match &password {
                Option::Some(p) => p,
                Option::None => {
                    return Err(SkitError::InvalidPassword(PasswordSource::Caller));
                },
            };
            match crypto::decrypt_value_with_salt(found.value.as_str(), pw.as_str()) {
                Ok(pt) => Ok(GetOutput { value: pt }),
                Err(ce) => Err(SkitError::Crypto(ce)),
            }
        }
    }
}

/// Arguments for storing one secret.
#[derive(Debug)]
pub struct SetArgs {
    pub key: String,
    pub value: String,
    pub is_plain: bool,
}

/// Store one secret, encrypted unless plain storage was asked for.
pub struct SetCommand;

impl SetCommand {
    /// The key must be non-empty and a valid environment variable name.
    pub fn validate_args(&self, args: &SetArgs) -> (r: Result<(), SkitError>)
        ensures
            r == (if args.key@.len() == 0 {
                Err::<(), SkitError>(SkitError::InvalidArgument(ArgIssue::EmptyKey))
            } else if !valid_env_key(args.key@) {
                Err::<(), SkitError>(SkitError::InvalidArgument(ArgIssue::InvalidKey))
            } else {
                Ok::<(), SkitError>(())
            }),
    {
        if args.key.as_str().unicode_len() == 0 {
            Err(SkitError::InvalidArgument(ArgIssue::EmptyKey))
        } else if !crate::is_valid_env_key(args.key.as_str()) {
            Err(SkitError::InvalidArgument(ArgIssue::InvalidKey))
        } else {
            Ok(())
        }
    }

    /// A password is needed only to store an encrypted value.
    pub fn requires_authentication(&self, safe: &Safe, args: &SetArgs) -> (r: bool)
        ensures
            r == !args.is_plain,
    {
        let _ = safe;
        !args.is_plain
    }

    pub fn modifies_safe(&self) -> (r: bool)
        ensures
            r,
    {
        true
    }

    /// Store the value: verbatim when plain, else sealed in a fresh
    /// envelope under the password.
    pub fn execute_operation(&self, safe: &mut Safe, password: Option<String>, args: SetArgs)
        -> (r: Result<MessageOutput, SkitError>)
        requires
            old(safe).wf(),
            valid_env_key(args.key@),
            args.is_plain ==> item_value_wf(args.value@) && !crate::chars::starts_with(
                args.value@,
                "ENC~"@,
            ),
            !args.is_plain ==> vstd::utf8::encode_utf8(args.value@).len()
                <= crypto::max_plaintext_bytes(),
        ensures
            match r {
                Ok(o) => final(safe).wf() && final(safe)@ == (SafeV {
                    items: final(safe)@.items,
                    ..old(safe)@
                }) && o.message@ == "Set "@ + args.key@ + " ("@ + (if args.is_plain {
                    "plain text"@
                } else {
                    "encrypted"@
                }) + ") in safe"@ && (if args.is_plain {
                    final(safe)@.items == upsert(
                        old(safe)@.items,
                        (ItemV { key: args.key@, value: args.value@, is_encrypted: false }),
                    )
                } else {
                    exists|env: Seq<char>|
                        crypto::is_envelope_for(env, opt_pw(password), args.value@) && final(safe)@.items == upsert(
                            old(safe)@.items,
                            (ItemV { key: args.key@, value: env, is_encrypted: true }),
                        )
                }),
                Err(e) => final(safe)@ == old(safe)@ && !args.is_plain && password is None && e
                    == SkitError::InvalidPassword(PasswordSource::Caller),
            },
    {
        proof {
            lemma_env_key_item(args.key@);
        }
        let stored: String;
        let is_enc: bool;
        if args.is_plain {
            stored = args.value;
            is_enc = false;
        } else {
            let pw = match &password {
                Option::Some(p) => p,
                Option::None => {
                    return Err(SkitError::InvalidPassword(PasswordSource::Caller));
                },
            };
            stored = match crypto::encrypt_value_with_salt(pw.as_str(), args.value.as_str()) {
                Ok(env) => env,
                Err(_) => {
                    return Err(SkitError::InvalidPassword(PasswordSource::Caller));
                },
            };
            proof {
                lemma_envelope_text_item(stored@);
                assert(pw@ == opt_pw(password));
                assert(crypto::is_envelope_for(stored@, opt_pw(password), args.value@));
            }
            is_enc = true;
        }
        let mut message = String::from_str("Set ");
        message.append(args.key.as_str());
        message.append(" (");
        if is_enc {
            message.append("encrypted");
        } else {
            message.append("plain text");
        }
        message.append(") in safe");
        safe.add_or_update_item(args.key, stored, is_enc);
        Ok(MessageOutput { message })
    }
}

/// A valid environment variable name is a well-formed item key.
pub proof fn lemma_env_key_item(k: Seq<char>)
    requires
        valid_env_key(k),
    ensures
        crate::safe::item_key_wf(k),
{
    assert(k[0] != '#' && !crate::chars::is_ws(k[0]));
    assert(!crate::chars::is_ws(k.last()) && k.last() != '\n') by {
        if k.len() > 1 {
            assert(k[k.len() - 1] == '_' || ('a' <= k[k.len() - 1] && k[k.len() - 1] <= 'z') || (
            'A' <= k[k.len() - 1] && k[k.len() - 1] <= 'Z') || ('0' <= k[k.len() - 1] && k[k.len()
                - 1] <= '9'));
        }
    }
    assert forall|i: int| 0 <= i < k.len() implies #[trigger] k[i] != '\n' && k[i] != '=' by {
        if i > 0 {
            assert(k[i] == '_' || ('a' <= k[i] && k[i] <= 'z') || ('A' <= k[i] && k[i] <= 'Z') || (
            '0' <= k[i] && k[i] <= '9'));
        }
    }
}

/// The characters of an optional password, empty when absent.
pub open spec fn opt_pw(p: Option<String>) -> Seq<char> {
    match p {
        Option::Some(p) => p@,
        Option::None => Seq::empty(),
    }
}

/// Arguments for removing one secret.
#[derive(Debug)]
pub struct RmArgs {
    pub key: String,
}

/// Remove one secret.
pub struct RmCommand;

impl RmCommand {
    /// The key must be non-empty.
    pub fn validate_args(&self, args: &RmArgs) -> (r: Result<(), SkitError>)
        ensures
            r == (if args.key@.len() == 0 {
                Err::<(), SkitError>(SkitError::InvalidArgument(ArgIssue::EmptyKey))
            } else {
                Ok::<(), SkitError>(())
            }),
    {
        if args.key.as_str().unicode_len() == 0 {
            Err(SkitError::InvalidArgument(ArgIssue::EmptyKey))
        } else {
            Ok(())
        }
    }

    /// A password is needed only to remove an encrypted item that
    /// exists.
    pub fn requires_authentication(&self, safe: &Safe, args: &RmArgs) -> (r: bool)
        requires
            safe.wf(),
        ensures
            r == exists|i: int|
                0 <= i < safe@.items.len() && (#[trigger] safe@.items[i]).key == args.key@
                    && safe@.items[i].is_encrypted,
    {
        match safe.find_item(args.key.as_str()) {
            Option::Some(it) => {
                proof {
                    let fi = choose|i: int|
                        0 <= i < safe@.items.len() && safe@.items[i] == it@;
                    assert forall|i: int|
                        0 <= i < safe@.items.len() && (#[trigger] safe@.items[i]).key
                            == args.key@ implies safe@.items[i] == it@ by {
                        lemma_key_unique(safe@, i, fi);
                    }
                }
                it.is_encrypted
            },
            Option::None => false,
        }
    }

    pub fn modifies_safe(&self) -> (r: bool)
        ensures
            r,
    {
        true
    }

    /// Remove the named item; a missing name is an error.
    pub fn execute_operation(&self, safe: &mut Safe, password: Option<String>, args: RmArgs)
        -> (r: Result<MessageOutput, SkitError>)
        requires
            old(safe).wf(),
        ensures
            match r {
                Ok(o) => final(safe).wf() && final(safe)@ == (SafeV {
                    items: final(safe)@.items,
                    ..old(safe)@
                }) && final(safe)@.items == old(safe)@.items.filter(
                    crate::safe::key_differs(args.key@),
                ) && o.message@ == "Removed '"@ + args.key@ + "' from safe"@ && (exists|i: int|
                    0 <= i < old(safe)@.items.len() && (#[trigger] old(safe)@.items[i]).key
                        == args.key@),
                Err(e) => final(safe)@ == old(safe)@ && e == SkitError::KeyNotFound
                    && no_such_key(old(safe)@.items, args.key@),
            },
    {
        let _ = password;
        match safe.find_item(args.key.as_str()) {
            Option::Some(_) => {},
            Option::None => {
                return Err(SkitError::KeyNotFound);
            },
        }
        let _ = safe.remove_item(args.key.as_str());
        let mut message = String::from_str("Removed '");
        message.append(args.key.as_str());
        message.append("' from safe");
        Ok(MessageOutput { message })
    }
}

/// Arguments for listing key names (none).
#[derive(Debug)]
pub struct KeysArgs;

/// The key names with their kinds, in stored order.
#[derive(Debug)]
pub struct KeysCommandOutput {
    pub items: Vec<(String, bool)>,
}

/// List every key name and whether its value is encrypted.
pub struct KeysCommand;

impl KeysCommand {
    /// Listing names never needs the password.
    pub fn requires_authentication(&self, safe: &Safe, args: &KeysArgs) -> (r: bool)
        ensures
            !r,
    {
        let _ = safe;
        let _ = args;
        false
    }

    /// Every name with its kind, in the stored (sorted) order.
    pub fn execute_operation(&self, safe: &mut Safe, password: Option<String>, args: KeysArgs)
        -> (r: Result<KeysCommandOutput, SkitError>)
        ensures
            final(safe)@ == old(safe)@,
            r matches Ok(o) && o.items@.len() == old(safe)@.items.len() && forall|j: int|
                0 <= j < old(safe)@.items.len() ==> (#[trigger] o.items@[j]).0@ == old(
                    safe,
                )@.items[j].key && o.items@[j].1 == old(safe)@.items[j].is_encrypted,
    {
        let _ = password;
        let _ = args;
        let n = safe.items.len();
        let mut items: Vec<(String, bool)> = Vec::new();
        let mut i: usize = 0;
        while i < n
            invariant
                0 <= i <= n,
                n == safe.items@.len(),
                safe == old(safe),
                items@.len() == i,
                forall|j: int|
                    0 <= j < i ==> (#[trigger] items@[j]).0@ == safe@.items[j].key
                        && items@[j].1 == safe@.items[j].is_encrypted,
            decreases n - i,
        {
            let it = &safe.items[i];
            proof {
                assert(safe@.items[i as int] == it@);
            }
            items.push((it.key.clone(), it.is_encrypted));
            i = i + 1;
        }
        Ok(KeysCommandOutput { items })
    }
}

/// The filter a print with flags applies.
pub open spec fn keep_pred(plain_only: bool, enc_only: bool) -> spec_fn(ItemV) -> bool {
    |it: ItemV| !(plain_only && it.is_encrypted) && !(enc_only && !it.is_encrypted)
}

/// The items whose value can be handed out: plain ones and, when a
/// password is present, the encrypted ones it opens.
pub open spec fn exportable_pred(password: Option<String>) -> spec_fn(ItemV) -> bool {
    |it: ItemV|
        !it.is_encrypted || (password is Some && exists|pt: Seq<char>|
            crypto::is_envelope_for(it.value, password->0@, pt))
}

/// The encrypted items the password cannot open.
pub open spec fn undec_pred(pw: Seq<char>) -> spec_fn(ItemV) -> bool {
    |it: ItemV|
        it.is_encrypted && (forall|pt: Seq<char>| !crypto::is_envelope_for(it.value, pw, pt))
}

/// Collect `KEY=value` entries: every plain item and every encrypted
/// item the password opens, in stored order; the rest are left out, as
/// a bulk read prefers showing what it can over failing whole.
pub fn collect_entries(safe: &Safe, password: &Option<String>) -> (r: Vec<(String, String)>)
    ensures
        ({
            let flt = safe@.items.filter(exportable_pred(*password));
            &&& r@.len() == flt.len()
            &&& forall|j: int|
                0 <= j < flt.len() ==> (#[trigger] r@[j]).0@ == flt[j].key && (if flt[j].is_encrypted {
                    password is Some && crypto::is_envelope_for(
                        flt[j].value,
                        (*password)->0@,
                        r@[j].1@,
                    )
                } else {
                    r@[j].1@ == flt[j].value
                })
        }),
{
    let ghost pred = exportable_pred(*password);
    let ghost items = safe@.items;
    let n = safe.items.len();
    let mut out: Vec<(String, String)> = Vec::new();
    let mut i: usize = 0;
    proof {
        reveal(Seq::filter);
        assert(items.take(0) =~= Seq::<ItemV>::empty());
    }
    while i < n
        invariant
            0 <= i <= n,
            n == safe.items@.len(),
            items == safe@.items,
            pred == exportable_pred(*password),
            ({
                let flt = items.take(i as int).filter(pred);
                &&& out@.len() == flt.len()
                &&& forall|j: int|
                    0 <= j < flt.len() ==> (#[trigger] out@[j]).0@ == flt[j].key && (if flt[j].is_encrypted {
                        *password is Some && crypto::is_envelope_for(
                            flt[j].value,
                            (*password)->0@,
                            out@[j].1@,
                        )
                    } else {
                        out@[j].1@ == flt[j].value
                    })
            }),
        decreases n - i,
    {
        let it = &safe.items[i];
        proof {
            assert(items.take(i + 1).drop_last() =~= items.take(i as int));
            assert(items.take(i + 1).last() == items[i as int]);
            assert(items[i as int] == it@);
            reveal(Seq::filter);
        }
        let ghost pre_flt = items.take(i as int).filter(pred);
        if !it.is_encrypted {
            out.push((it.key.clone(), it.value.clone()));
            proof {
                assert(pred(items[i as int]));
                assert(items.take(i + 1).filter(pred) == pre_flt.push(items[i as int]));
            }
        } else {
            match password {
                Option::Some(pw) => {
                    match crypto::decrypt_value_with_salt(it.value.as_str(), pw.as_str()) {
                        Ok(pt) => {
                            let ghost ptv = pt@;
                            out.push((it.key.clone(), pt));
                            proof {
                                assert((*password)->0@ == pw@);
                                assert(crypto::is_envelope_for(
                                    items[i as int].value,
                                    (*password)->0@,
                                    ptv,
                                ));
                                assert(pred(items[i as int]));
                                assert(items.take(i + 1).filter(pred) == pre_flt.push(
                                    items[i as int],
                                ));
                            }
                        },
                        Err(_) => {
                            proof {
                                assert((*password)->0@ == pw@);
                                assert(!pred(items[i as int]));
                                assert(items.take(i + 1).filter(pred) == pre_flt);
                            }
                        },
                    }
                },
                Option::None => {
                    proof {
                        assert(!pred(items[i as int]));
                        assert(items.take(i + 1).filter(pred) == pre_flt);
                    }
                },
            }
        }
        i = i + 1;
    }
    proof {
        assert(items.take(n as int) =~= items);
    }
    out
}

/// Arguments for the shell-sourcing listing: which shell's syntax the
/// surrounding program detected.
#[derive(Debug)]
pub struct EnvArgs {
    pub shell_name: String,
}

/// Entries to emit for shell sourcing, with the shell's name.
#[derive(Debug)]
pub struct EnvOutput {
    pub entries: Vec<(String, String)>,
    pub shell_name: String,
}

/// List every readable value for shell sourcing.
pub struct EnvCommand;

impl EnvCommand {
    /// A password is needed whenever anything is encrypted.
    pub fn requires_authentication(&self, safe: &Safe, args: &EnvArgs) -> (r: bool)
        ensures
            r == safe@.has_encrypted(),
    {
        let _ = args;
        safe.has_encrypted_item()
    }

    /// Every plain value, and every encrypted value the password opens.
    pub fn execute_operation(&self, safe: &mut Safe, password: Option<String>, args: EnvArgs)
        -> (r: Result<EnvOutput, SkitError>)
        ensures
            final(safe)@ == old(safe)@,
            r matches Ok(o) && o.shell_name@ == args.shell_name@ && ({
                let flt = old(safe)@.items.filter(exportable_pred(password));
                &&& o.entries@.len() == flt.len()
                &&& forall|j: int|
                    0 <= j < flt.len() ==> (#[trigger] o.entries@[j]).0@ == flt[j].key && (if flt[j].is_encrypted {
                        password is Some && crypto::is_envelope_for(
                            flt[j].value,
                            password->0@,
                            o.entries@[j].1@,
                        )
                    } else {
                        o.entries@[j].1@ == flt[j].value
                    })
            }),
    {
        let entries = collect_entries(safe, &password);
        Ok(EnvOutput { entries, shell_name: args.shell_name })
    }
}

/// Arguments for the plain `KEY=value` export (none).
#[derive(Debug)]
pub struct ExportArgs;

/// Entries to emit as `KEY=value` lines.
#[derive(Debug)]
pub struct ExportOutput {
    pub entries: Vec<(String, String)>,
}

/// List every readable value for piping to other programs.
pub struct ExportCommand;

impl ExportCommand {
    /// A password is needed whenever anything is encrypted.
    pub fn requires_authentication(&self, safe: &Safe, args: &ExportArgs) -> (r: bool)
        ensures
            r == safe@.has_encrypted(),
    {
        let _ = args;
        safe.has_encrypted_item()
    }

    /// Every plain value, and every encrypted value the password opens.
    pub fn execute_operation(&self, safe: &mut Safe, password: Option<String>, args: ExportArgs)
        -> (r: Result<ExportOutput, SkitError>)
        ensures
            final(safe)@ == old(safe)@,
            r matches Ok(o) && ({
                let flt = old(safe)@.items.filter(exportable_pred(password));
                &&& o.entries@.len() == flt.len()
                &&& forall|j: int|
                    0 <= j < flt.len() ==> (#[trigger] o.entries@[j]).0@ == flt[j].key && (if flt[j].is_encrypted {
                        password is Some && crypto::is_envelope_for(
                            flt[j].value,
                            password->0@,
                            o.entries@[j].1@,
                        )
                    } else {
                        o.entries@[j].1@ == flt[j].value
                    })
            }),
    {
        let _ = args;
        let entries = collect_entries(safe, &password);
        Ok(ExportOutput { entries })
    }
}

/// Arguments for the organized display: optional one-kind filters.
#[derive(Debug)]
pub struct PrintArgs {
    pub plain_only: bool,
    pub enc_only: bool,
}

/// The rows to display: name, shown value, and whether it was
/// encrypted.
#[derive(Debug)]
pub struct PrintCommandOutput {
    pub items: Vec<(String, String, bool)>,
}

/// Display all secrets, decrypting what the password opens and marking
/// what it does not.
pub struct PrintCommand;

impl PrintCommand {
    /// The two one-kind filters exclude each other.
    pub fn validate_args(&self, args: &PrintArgs) -> (r: Result<(), SkitError>)
        ensures
            r == (if args.plain_only && args.enc_only {
                Err::<(), SkitError>(SkitError::InvalidArgument(ArgIssue::ConflictingFilters))
            } else {
                Ok::<(), SkitError>(())
            }),
    {
        if args.plain_only && args.enc_only {
            Err(SkitError::InvalidArgument(ArgIssue::ConflictingFilters))
        } else {
            Ok(())
        }
    }

    /// A password is needed when something encrypted will be shown.
    pub fn requires_authentication(&self, safe: &Safe, args: &PrintArgs) -> (r: bool)
        ensures
            r == (safe@.has_encrypted() && !args.plain_only),
    {
        safe.has_encrypted_item() && !args.plain_only
    }

    /// Every kept row: plain values verbatim; encrypted values opened
    /// with the password, a failure shown as a marker, and a missing
    /// password as a hidden-value marker.
    pub fn execute_operation(&self, safe: &mut Safe, password: Option<String>, args: PrintArgs)
        -> (r: Result<PrintCommandOutput, SkitError>)
        ensures
            final(safe)@ == old(safe)@,
            r matches Ok(o) && ({
                let flt = old(safe)@.items.filter(keep_pred(args.plain_only, args.enc_only));
                &&& o.items@.len() == flt.len()
                &&& forall|j: int|
                    0 <= j < flt.len() ==> (#[trigger] o.items@[j]).0@ == flt[j].key
                        && o.items@[j].2 == flt[j].is_encrypted && (if !flt[j].is_encrypted {
                        o.items@[j].1@ == flt[j].value
                    } else {
                        match password {
                            Option::Some(pw) => crypto::is_envelope_for(
                                flt[j].value,
                                pw@,
                                o.items@[j].1@,
                            ) || (o.items@[j].1@ == "[DECRYPTION_FAILED]"@ && forall|
                                pt: Seq<char>,
                            |
                                !crypto::is_envelope_for(flt[j].value, pw@, pt)),
                            Option::None => o.items@[j].1@ == "<Value hidden - encrypted>"@,
                        }
                    })
            }),
    {
        let ghost pred = keep_pred(args.plain_only, args.enc_only);
        let ghost items = safe@.items;
        let n = safe.items.len();
        let mut out: Vec<(String, String, bool)> = Vec::new();
        let mut i: usize = 0;
        proof {
            reveal(Seq::filter);
            assert(items.take(0) =~= Seq::<ItemV>::empty());
        }
        while i < n
            invariant
                0 <= i <= n,
                n == safe.items@.len(),
                items == safe@.items,
                safe == old(safe),
                pred == keep_pred(args.plain_only, args.enc_only),
                ({
                    let flt = items.take(i as int).filter(pred);
                    &&& out@.len() == flt.len()
                    &&& forall|j: int|
                        0 <= j < flt.len() ==> (#[trigger] out@[j]).0@ == flt[j].key
                            && out@[j].2 == flt[j].is_encrypted && (if !flt[j].is_encrypted {
                            out@[j].1@ == flt[j].value
                        } else {
                            match password {
                                Option::Some(pw) => crypto::is_envelope_for(
                                    flt[j].value,
                                    pw@,
                                    out@[j].1@,
                                ) || (out@[j].1@ == "[DECRYPTION_FAILED]"@ && forall|
                                    pt: Seq<char>,
                                |
                                    !crypto::is_envelope_for(flt[j].value, pw@, pt)),
                                Option::None => out@[j].1@ == "<Value hidden - encrypted>"@,
                            }
                        })
                }),
            decreases n - i,
        {
            let it = &safe.items[i];
            proof {
                assert(items.take(i + 1).drop_last() =~= items.take(i as int));
                assert(items.take(i + 1).last() == items[i as int]);
                assert(items[i as int] == it@);
                reveal(Seq::filter);
            }
            let ghost pre_flt = items.take(i as int).filter(pred);
            let skip_it = (args.plain_only && it.is_encrypted) || (args.enc_only
                && !it.is_encrypted);
            if skip_it {
                proof {
                    assert(!pred(items[i as int]));
                    assert(items.take(i + 1).filter(pred) == pre_flt);
                }
            } else {
                proof {
                    assert(pred(items[i as int]));
                    assert(items.take(i + 1).filter(pred) == pre_flt.push(items[i as int]));
                }
                if !it.is_encrypted {
                    out.push((it.key.clone(), it.value.clone(), false));
                } else {
                    match &password {
                        Option::Some(pw) => {
                            match crypto::decrypt_value_with_salt(
                                it.value.as_str(),
                                pw.as_str(),
                            ) {
                                Ok(pt) => {
                                    out.push((it.key.clone(), pt, true));
                                },
                                Err(_) => {
                                    out.push(
                                        (
                                            it.key.clone(),
                                            String::from_str("[DECRYPTION_FAILED]"),
                                            true,
                                        ),
                                    );
                                },
                            }
                        },
                        Option::None => {
                            out.push(
                                (
                                    it.key.clone(),
                                    String::from_str("<Value hidden - encrypted>"),
                                    true,
                                ),
                            );
                        },
                    }
                }
            }
            i = i + 1;
        }
        proof {
            assert(items.take(n as int) =~= items);
        }
        Ok(PrintCommandOutput { items: out })
    }
}

/// A field-for-field copy of verification details.
fn copy_details(d: &crate::types::StatusVerificationDetails) -> (r:
    crate::types::StatusVerificationDetails)
    ensures
        r.total_encrypted == d.total_encrypted,
        r.verified == d.verified,
        r.failed == d.failed,
        r.failed_keys@.len() == d.failed_keys@.len(),
        forall|j: int|
            0 <= j < d.failed_keys@.len() ==> (#[trigger] r.failed_keys@[j])@
                == d.failed_keys@[j]@,
{
    let n = d.failed_keys.len();
    let mut keys: Vec<String> = Vec::new();
    let mut i: usize = 0;
    while i < n
        invariant
            0 <= i <= n,
            n == d.failed_keys@.len(),
            keys@.len() == i,
            forall|j: int|
                0 <= j < i ==> (#[trigger] keys@[j])@ == d.failed_keys@[j]@,
        decreases n - i,
    {
        keys.push(d.failed_keys[i].clone());
        i = i + 1;
    }
    crate::types::StatusVerificationDetails {
        total_encrypted: d.total_encrypted,
        verified: d.verified,
        failed: d.failed,
        failed_keys: keys,
    }
}

/// Arguments for the status report (none).
#[derive(Debug)]
pub struct StatusArgs;

/// The status report, with how many encrypted values were checked.
#[derive(Debug)]
pub struct StatusCommandOutput {
    pub status_output: crate::types::StatusOutput,
    pub encrypted_count: usize,
    pub verification_details: Option<crate::types::StatusVerificationDetails>,
}

/// Report metadata, statistics, and the integrity of every encrypted
/// value under the verified password.
pub struct StatusCommand;

impl StatusCommand {
    /// Status verifies integrity, so it authenticates whenever a hash
    /// is stored.
    pub fn requires_authentication(&self, safe: &Safe, args: &StatusArgs) -> (r: bool)
        ensures
            r == (safe@.password_hash.len() > 0),
    {
        let _ = args;
        safe.password_hash.as_str().unicode_len() > 0
    }

    /// Count the items, and check that the password opens every
    /// encrypted value, naming those it does not open.
    pub fn execute_operation(&self, safe: &mut Safe, password: Option<String>, args: StatusArgs)
        -> (r: Result<StatusCommandOutput, SkitError>)
        ensures
            final(safe)@ == old(safe)@,
            r matches Ok(o) && ({
                let sv = old(safe)@;
                let enc = sv.items.filter(enc_pred()).len();
                &&& o.status_output.metadata.version@ == sv.version
                &&& o.status_output.metadata.description@ == sv.description
                &&& o.status_output.metadata.created@ == sv.created
                &&& o.status_output.metadata.updated@ == sv.updated
                &&& o.status_output.statistics.total_secrets == sv.items.len()
                &&& o.status_output.statistics.encrypted == enc
                &&& o.status_output.statistics.plain_text + enc == sv.items.len()
                &&& o.encrypted_count == enc
                &&& match password {
                    Option::Some(pw) => {
                        let bad = sv.items.filter(undec_pred(pw@));
                        &&& o.status_output.integrity.password_hash_ok
                        &&& (enc == 0 ==> o.status_output.integrity.encrypted_secrets_verified
                            == Some(true) && o.verification_details is None)
                        &&& (enc > 0 ==> (o.verification_details matches Some(d)
                            && d.total_encrypted == enc && d.failed == bad.len() && d.verified
                            + d.failed == enc && d.failed_keys@.len() == bad.len() && (forall|
                            j: int,
                        |
                            0 <= j < bad.len() ==> (#[trigger] d.failed_keys@[j])@ == bad[j].key)
                            && o.status_output.integrity.encrypted_secrets_verified == Some(
                            bad.len() == 0,
                        )))
                    },
                    Option::None => {
                        &&& !o.status_output.integrity.password_hash_ok
                        &&& o.status_output.integrity.encrypted_secrets_verified == Some(false)
                        &&& o.verification_details is None
                    },
                }
            }),
    {
        let _ = args;
        let ghost items = safe@.items;
        let n = safe.items.len();
        let mut enc_count: usize = 0;
        let mut failed: usize = 0;
        let mut failed_keys: Vec<String> = Vec::new();
        let mut i: usize = 0;
        proof {
            reveal(Seq::filter);
            assert(items.take(0) =~= Seq::<ItemV>::empty());
        }
        while i < n
            invariant
                0 <= i <= n,
                n == safe.items@.len(),
                items == safe@.items,
                safe == old(safe),
                enc_count == items.take(i as int).filter(enc_pred()).len(),
                failed <= enc_count,
                match password {
                    Option::Some(pw) => {
                        let bad = items.take(i as int).filter(undec_pred(pw@));
                        &&& failed == bad.len()
                        &&& failed_keys@.len() == bad.len()
                        &&& forall|j: int|
                            0 <= j < bad.len() ==> (#[trigger] failed_keys@[j])@ == bad[j].key
                    },
                    Option::None => failed == 0 && failed_keys@.len() == 0,
                },
            decreases n - i,
        {
            let it = &safe.items[i];
            proof {
                assert(items.take(i + 1).drop_last() =~= items.take(i as int));
                assert(items.take(i + 1).last() == items[i as int]);
                assert(items[i as int] == it@);
                reveal(Seq::filter);
                crate::safe::lemma_filter_items(items.take(i + 1), enc_pred());
                items.take(i + 1).lemma_filter_len(enc_pred());
            }
            if it.is_encrypted {
                enc_count = enc_count + 1;
                match &password {
                    Option::Some(pw) => {
                        let ghost bad_pre = items.take(i as int).filter(undec_pred(pw@));
                        match crypto::decrypt_value_with_salt(it.value.as_str(), pw.as_str()) {
                            Ok(pt) => {
                                proof {
                                    assert(crypto::is_envelope_for(
                                        items[i as int].value,
                                        pw@,
                                        pt@,
                                    ));
                                    assert(!undec_pred(pw@)(items[i as int]));
                                    assert(items.take(i + 1).filter(undec_pred(pw@)) == bad_pre);
                                }
                            },
                            Err(_) => {
                                failed = failed + 1;
                                failed_keys.push(it.key.clone());
                                proof {
                                    assert(undec_pred(pw@)(items[i as int]));
                                    assert(items.take(i + 1).filter(undec_pred(pw@))
                                        == bad_pre.push(items[i as int]));
                                }
                            },
                        }
                    },
                    Option::None => {
                        proof {
                            assert(items.take(i + 1).filter(enc_pred()).len() <= i + 1);
                        }
                    },
                }
            } else {
                proof {
                    assert(!enc_pred()(items[i as int]));
                    match &password {
                        Option::Some(pw) => {
                            assert(!undec_pred(pw@)(items[i as int]));
                            assert(items.take(i + 1).filter(undec_pred(pw@)) == items.take(
                                i as int,
                            ).filter(undec_pred(pw@)));
                        },
                        Option::None => {},
                    }
                }
            }
            i = i + 1;
        }
        proof {
            assert(items.take(n as int) =~= items);
            items.lemma_filter_len(enc_pred());
            match &password {
                Option::Some(pw) => {
                    items.lemma_filter_len(undec_pred(pw@));
                },
                Option::None => {},
            }
        }
        let total = safe.items.len();
        let plain = total - enc_count;
        let metadata = crate::types::StatusMetadata {
            version: safe.version.clone(),
            description: safe.description.clone(),
            created: safe.created.clone(),
            updated: safe.updated.clone(),
        };
        let statistics = crate::types::StatusStatistics {
            total_secrets: total,
            encrypted: enc_count,
            plain_text: plain,
        };
        let password_hash_ok: bool;
        let encrypted_secrets_verified: Option<bool>;
        let mut verification_details: Option<crate::types::StatusVerificationDetails> = None;
        match &password {
            Option::Some(_) => {
                password_hash_ok = true;
                if enc_count == 0 {
                    encrypted_secrets_verified = Some(true);
                } else {
                    encrypted_secrets_verified = Some(failed == 0);
                    verification_details = Some(
                        crate::types::StatusVerificationDetails {
                            total_encrypted: enc_count,
                            verified: enc_count - failed,
                            failed,
                            failed_keys,
                        },
                    );
                }
            },
            Option::None => {
                password_hash_ok = false;
                encrypted_secrets_verified = Some(false);
            },
        }
        let details_copy = match &verification_details {
            Option::Some(d) => Some(copy_details(d)),
            Option::None => None,
        };
        let status_output = crate::types::StatusOutput {
            safe_path: String::new(),
            metadata,
            statistics,
            integrity: crate::types::StatusIntegrity {
                password_hash_ok,
                encrypted_secrets_verified,
                verification_details,
            },
        };
        Ok(
            StatusCommandOutput {
                status_output,
                encrypted_count: enc_count,
                verification_details: details_copy,
            },
        )
    }
}

/// A quoted import value loses its matching outer quotes.
pub open spec fn unquote(raw: Seq<char>) -> Seq<char> {
    if raw.len() >= 2 && ((raw[0] == '"' && raw.last() == '"') || (raw[0] == '\'' && raw.last()
        == '\'')) {
        raw.subrange(1, raw.len() - 1)
    } else {
        raw
    }
}

/// How one line of an imported env-style file reads: blank lines and
/// comments yield nothing, `KEY=VALUE` yields a pair with quotes
/// stripped, and anything else is a line-numbered error.
pub open spec fn process_env_line(line: Seq<char>, k: int) -> Result<
    Option<(Seq<char>, Seq<char>)>,
    crate::errors::ParseIssue,
> {
    let t = crate::chars::trim(line);
    if t.len() == 0 {
        Ok(None)
    } else if t[0] == '#' {
        Ok(None)
    } else {
        match crate::chars::find_char(t, '=') {
            Option::None => Err(
                crate::errors::ParseIssue {
                    line: (k + 1) as usize,
                    kind: crate::errors::ParseIssueKind::InvalidLine,
                },
            ),
            Option::Some(e) => {
                let key = crate::chars::trim(t.take(e));
                let value = unquote(crate::chars::trim(t.skip(e + 1)));
                if key.len() == 0 {
                    Err(
                        crate::errors::ParseIssue {
                            line: (k + 1) as usize,
                            kind: crate::errors::ParseIssueKind::EmptyKey,
                        },
                    )
                } else if !valid_env_key(key) {
                    Err(
                        crate::errors::ParseIssue {
                            line: (k + 1) as usize,
                            kind: crate::errors::ParseIssueKind::InvalidKey,
                        },
                    )
                } else {
                    Ok(Some((key, value)))
                }
            },
        }
    }
}

/// Folding `process_env_line` over the remaining lines.
pub open spec fn env_rest(
    lines: Seq<Seq<char>>,
    acc: Seq<(Seq<char>, Seq<char>)>,
    k: int,
) -> Result<Seq<(Seq<char>, Seq<char>)>, crate::errors::ParseIssue>
    decreases lines.len(),
{
    if lines.len() == 0 {
        Ok(acc)
    } else {
        match process_env_line(lines[0], k) {
            Ok(Option::Some(pair)) => env_rest(lines.drop_first(), acc.push(pair), k + 1),
            Ok(Option::None) => env_rest(lines.drop_first(), acc, k + 1),
            Err(e) => Err(e),
        }
    }
}

/// What parsing an env-style import file yields.
pub open spec fn parse_env_spec(content: Seq<char>) -> Result<
    Seq<(Seq<char>, Seq<char>)>,
    crate::errors::ParseIssue,
> {
    env_rest(crate::codec::split_lines(content), Seq::empty(), 0)
}

/// The views of collected key/value pairs.
pub open spec fn pairs_view(entries: Seq<(String, String)>) -> Seq<(Seq<char>, Seq<char>)> {
    Seq::new(entries.len(), |i: int| (entries[i].0@, entries[i].1@))
}

/// Process one line of an env-style file.
fn env_line_exec(line: &str, k: usize) -> (r: Result<
    Option<(String, String)>,
    crate::errors::ParseIssue,
>)
    requires
        k < usize::MAX || crate::chars::trim(line@).len() == 0,
    ensures
        match r {
            Ok(Option::Some(pair)) => process_env_line(line@, k as int) == Ok::<
                Option<(Seq<char>, Seq<char>)>,
                crate::errors::ParseIssue,
            >(Some((pair.0@, pair.1@))),
            Ok(Option::None) => process_env_line(line@, k as int) == Ok::<
                Option<(Seq<char>, Seq<char>)>,
                crate::errors::ParseIssue,
            >(None),
            Err(e) => process_env_line(line@, k as int) == Err::<
                Option<(Seq<char>, Seq<char>)>,
                crate::errors::ParseIssue,
            >(e),
        },
{
    let t_owned = crate::chars::trim_str(line);
    let t = t_owned.as_str();
    let tlen = t.unicode_len();
    if tlen == 0 {
        return Ok(None);
    }
    if t.get_char(0) == '#' {
        return Ok(None);
    }
    match crate::chars::find_char_str(t, '=') {
        Option::None => Err(
            crate::errors::ParseIssue {
                line: k + 1,
                kind: crate::errors::ParseIssueKind::InvalidLine,
            },
        ),
        Option::Some(e) => {
            proof {
                crate::chars::lemma_find_char(t@, '=');
            }
            let key = crate::chars::trim_str(t.substring_char(0, e));
            proof {
                assert(t@.subrange(0, e as int) =~= t@.take(e as int));
            }
            let raw = crate::chars::trim_str(t.substring_char(e + 1, tlen));
            proof {
                assert(t@.subrange(e + 1, tlen as int) =~= t@.skip(e + 1));
            }
            let rawlen = raw.as_str().unicode_len();
            let value: String;
            if rawlen >= 2 {
                let c0 = raw.as_str().get_char(0);
                let cl = raw.as_str().get_char(rawlen - 1);
                if (c0 == '"' && cl == '"') || (c0 == '\'' && cl == '\'') {
                    value = String::from_str(raw.as_str().substring_char(1, rawlen - 1));
                    proof {
                        assert(value@ =~= raw@.subrange(1, raw@.len() - 1));
                    }
                } else {
                    value = raw;
                }
            } else {
                value = raw;
            }
            if key.as_str().unicode_len() == 0 {
                Err(
                    crate::errors::ParseIssue {
                        line: k + 1,
                        kind: crate::errors::ParseIssueKind::EmptyKey,
                    },
                )
            } else if !crate::is_valid_env_key(key.as_str()) {
                Err(
                    crate::errors::ParseIssue {
                        line: k + 1,
                        kind: crate::errors::ParseIssueKind::InvalidKey,
                    },
                )
            } else {
                Ok(Some((key, value)))
            }
        },
    }
}

/// Parse an env-style import file into its key/value pairs, in file
/// order; comments and blank lines are skipped, and a malformed line,
/// an empty key or an invalid key name is a line-numbered error.
pub fn parse_env_file(content: &str) -> (r: Result<Vec<(String, String)>, SkitError>)
    ensures
        match r {
            Ok(v) => parse_env_spec(content@) == Ok::<
                Seq<(Seq<char>, Seq<char>)>,
                crate::errors::ParseIssue,
            >(pairs_view(v@)),
            Err(e) => match e {
                SkitError::ParseError(pi) => parse_env_spec(content@) == Err::<
                    Seq<(Seq<char>, Seq<char>)>,
                    crate::errors::ParseIssue,
                >(pi),
                _ => false,
            },
        },
{
    let len = content.unicode_len();
    let mut out: Vec<(String, String)> = Vec::new();
    let mut start: usize = 0;
    let mut k: usize = 0;
    let mut i: usize = 0;
    proof {
        assert(content@.skip(0) =~= content@);
        assert(pairs_view(out@) =~= Seq::<(Seq<char>, Seq<char>)>::empty());
    }
    while i < len
        invariant
            0 <= start <= i <= len,
            k <= start,
            len == content@.len(),
            forall|j: int| start <= j < i ==> content@[j] != '\n',
            env_rest(crate::codec::split_lines(content@), Seq::empty(), 0) == env_rest(
                crate::codec::split_lines(content@.skip(start as int)),
                pairs_view(out@),
                k as int,
            ),
        decreases len - i,
    {
        let c = content.get_char(i);
        if c == '\n' {
            let line = content.substring_char(start, i);
            proof {
                assert(line@ =~= content@.subrange(start as int, i as int));
                crate::codec::lemma_split_lines_step(content@, start as int, i as int);
            }
            let ghost pre_acc = pairs_view(out@);
            let ghost rest0 = crate::codec::split_lines(content@.skip(start as int));
            proof {
                assert(rest0[0] == line@);
                assert(rest0.drop_first() =~= crate::codec::split_lines(content@.skip(i + 1)));
            }
            match env_line_exec(line, k) {
                Ok(Option::Some(pair)) => {
                    let ghost pv = (pair.0@, pair.1@);
                    out.push(pair);
                    proof {
                        assert(pairs_view(out@) =~= pre_acc.push(pv));
                    }
                },
                Ok(Option::None) => {},
                Err(pi) => {
                    return Err(SkitError::ParseError(pi));
                },
            }
            start = i + 1;
            k = k + 1;
        }
        i = i + 1;
    }
    let line = content.substring_char(start, len);
    proof {
        assert(line@ =~= content@.subrange(start as int, len as int));
        crate::codec::lemma_split_lines_last(content@, start as int);
        if k == usize::MAX {
            assert(start == len);
            assert(line@ =~= Seq::<char>::empty());
        }
    }
    let ghost pre_acc = pairs_view(out@);
    match env_line_exec(line, k) {
        Ok(Option::Some(pair)) => {
            let ghost pv = (pair.0@, pair.1@);
            out.push(pair);
            proof {
                assert(pairs_view(out@) =~= pre_acc.push(pv));
                assert((seq![line@]).drop_first() =~= Seq::<Seq<char>>::empty());
                assert(env_rest(Seq::<Seq<char>>::empty(), pairs_view(out@), k as int + 1)
                    == Ok::<Seq<(Seq<char>, Seq<char>)>, crate::errors::ParseIssue>(pairs_view(
                    out@,
                )));
                assert((seq![line@])[0] == line@);
            }
            Ok(out)
        },
        Ok(Option::None) => {
            proof {
                assert((seq![line@]).drop_first() =~= Seq::<Seq<char>>::empty());
                assert(env_rest(Seq::<Seq<char>>::empty(), pairs_view(out@), k as int + 1)
                    == Ok::<Seq<(Seq<char>, Seq<char>)>, crate::errors::ParseIssue>(pairs_view(
                    out@,
                )));
                assert((seq![line@])[0] == line@);
            }
            Ok(out)
        },
        Err(pi) => {
            proof {
                assert((seq![line@])[0] == line@);
            }
            Err(SkitError::ParseError(pi))
        },
    }
}

/// The comma-separated key names of a list, trimmed, with empty pieces
/// dropped.
pub open spec fn key_list_spec(s: Seq<char>) -> Seq<Seq<char>>
    decreases s.len(),
{
    match crate::chars::find_char(s, ',') {
        Option::None => if crate::chars::trim(s).len() == 0 {
            Seq::empty()
        } else {
            seq![crate::chars::trim(s)]
        },
        Option::Some(i) => if 0 <= i < s.len() {
            (if crate::chars::trim(s.take(i)).len() == 0 {
                Seq::<Seq<char>>::empty()
            } else {
                seq![crate::chars::trim(s.take(i))]
            }) + key_list_spec(s.skip(i + 1))
        } else {
            Seq::empty()
        },
    }
}

proof fn lemma_key_list_step(s: Seq<char>, start: int, i: int)
    requires
        0 <= start <= i < s.len(),
        s[i] == ',',
        forall|j: int| start <= j < i ==> s[j] != ',',
    ensures
        key_list_spec(s.skip(start)) == (if crate::chars::trim(s.subrange(start, i)).len() == 0 {
            Seq::<Seq<char>>::empty()
        } else {
            seq![crate::chars::trim(s.subrange(start, i))]
        }) + key_list_spec(s.skip(i + 1)),
{
    let t = s.skip(start);
    crate::chars::lemma_find_char(t, ',');
    assert(t[i - start] == ',');
    match crate::chars::find_char(t, ',') {
        Option::None => {
            assert(false);
        },
        Option::Some(f) => {
            if f < i - start {
                assert(t[f] == s[f + start]);
                assert(false);
            }
            if f > i - start {
                assert(false);
            }
            assert(t.take(f) =~= s.subrange(start, i));
            assert(t.skip(f + 1) =~= s.skip(i + 1));
        },
    }
}

proof fn lemma_key_list_last(s: Seq<char>, start: int)
    requires
        0 <= start <= s.len(),
        forall|j: int| start <= j < s.len() ==> s[j] != ',',
    ensures
        key_list_spec(s.skip(start)) == (if crate::chars::trim(
            s.subrange(start, s.len() as int),
        ).len() == 0 {
            Seq::<Seq<char>>::empty()
        } else {
            seq![crate::chars::trim(s.subrange(start, s.len() as int))]
        }),
{
    let t = s.skip(start);
    crate::chars::lemma_find_char(t, ',');
    match crate::chars::find_char(t, ',') {
        Option::None => {
            assert(t =~= s.subrange(start, s.len() as int));
        },
        Option::Some(f) => {
            assert(t[f] == s[f + start]);
            assert(false);
        },
    }
}

/// The views of a vector of names.
pub open spec fn names_view(v: Seq<String>) -> Seq<Seq<char>> {
    Seq::new(v.len(), |i: int| v[i]@)
}

/// Split a comma-separated key list, trimming each name and dropping
/// empty pieces.
pub fn parse_key_list(keys_str: &str) -> (r: Vec<String>)
    ensures
        names_view(r@) == key_list_spec(keys_str@),
{
    let len = keys_str.unicode_len();
    let mut out: Vec<String> = Vec::new();
    let mut start: usize = 0;
    let mut i: usize = 0;
    proof {
        assert(keys_str@.skip(0) =~= keys_str@);
        assert(names_view(out@) =~= Seq::<Seq<char>>::empty());
    }
    while i < len
        invariant
            0 <= start <= i <= len,
            len == keys_str@.len(),
            forall|j: int| start <= j < i ==> keys_str@[j] != ',',
            key_list_spec(keys_str@) == names_view(out@) + key_list_spec(
                keys_str@.skip(start as int),
            ),
        decreases len - i,
    {
        let c = keys_str.get_char(i);
        if c == ',' {
            let piece = crate::chars::trim_str(keys_str.substring_char(start, i));
            proof {
                lemma_key_list_step(keys_str@, start as int, i as int);
                assert(keys_str@.subrange(start as int, i as int) == keys_str@.subrange(
                    start as int,
                    i as int,
                ));
            }
            let ghost pre = names_view(out@);
            if piece.as_str().unicode_len() > 0 {
                out.push(piece);
                proof {
                    assert(names_view(out@) =~= pre.push(crate::chars::trim(
                        keys_str@.subrange(start as int, i as int),
                    )));
                    assert(pre + (seq![crate::chars::trim(
                        keys_str@.subrange(start as int, i as int),
                    )] + key_list_spec(keys_str@.skip(i + 1))) =~= (pre + seq![
                        crate::chars::trim(keys_str@.subrange(start as int, i as int)),
                    ]) + key_list_spec(keys_str@.skip(i + 1)));
                }
            } else {
                proof {
                    assert(pre + (Seq::<Seq<char>>::empty() + key_list_spec(keys_str@.skip(
                        i + 1,
                    ))) =~= pre + key_list_spec(keys_str@.skip(i + 1)));
                }
            }
            start = i + 1;
        }
        i = i + 1;
    }
    let piece = crate::chars::trim_str(keys_str.substring_char(start, len));
    proof {
        lemma_key_list_last(keys_str@, start as int);
    }
    let ghost pre = names_view(out@);
    if piece.as_str().unicode_len() > 0 {
        out.push(piece);
        proof {
            assert(names_view(out@) =~= pre.push(crate::chars::trim(
                keys_str@.subrange(start as int, len as int),
            )));
            assert(pre + seq![crate::chars::trim(
                keys_str@.subrange(start as int, len as int),
            )] =~= names_view(out@));
        }
    } else {
        proof {
            assert(pre + Seq::<Seq<char>>::empty() =~= pre);
        }
    }
    out
}

/// Whether an imported key is to be encrypted: every key is, except
/// those named in the plain-keys list.
pub open spec fn det_enc(key: Seq<char>, plain_keys: Option<Vec<String>>) -> bool {
    match plain_keys {
        Option::Some(pk) => !names_view(pk@).contains(key),
        Option::None => true,
    }
}

/// Decide whether an imported key is stored encrypted.
pub fn determine_encryption(key: &str, plain_keys: &Option<Vec<String>>) -> (r: bool)
    ensures
        r == det_enc(key@, *plain_keys),
{
    match plain_keys {
        Option::Some(pk) => {
            let n = pk.len();
            let mut i: usize = 0;
            while i < n
                invariant
                    0 <= i <= n,
                    n == pk@.len(),
                    *plain_keys == Option::Some(*pk),
                    forall|j: int| 0 <= j < i ==> names_view(pk@)[j] != key@,
                decreases n - i,
            {
                if crate::chars::str_eq_str(pk[i].as_str(), key) {
                    proof {
                        assert(*plain_keys == Option::Some(*pk));
                        assert(names_view(pk@)[i as int] == key@);
                        assert(names_view(pk@).contains(key@));
                    }
                    return false;
                }
                i = i + 1;
            }
            true
        },
        Option::None => true,
    }
}

/// The predicate selecting the entries that will be encrypted.
pub open spec fn det_pred(plain_keys: Option<Vec<String>>) -> spec_fn((Seq<char>, Seq<char>)) -> bool {
    |p: (Seq<char>, Seq<char>)| det_enc(p.0, plain_keys)
}

/// No key appears twice among the entries.
pub open spec fn distinct_keys(ps: Seq<(Seq<char>, Seq<char>)>) -> bool {
    forall|i: int, j: int| 0 <= i < j < ps.len() ==> (#[trigger] ps[i]).0 != (#[trigger] ps[j]).0
}

/// The entry stands in the items: under its key, with its kind, and
/// with its value verbatim or sealed under the password.
pub open spec fn imported_ok(
    items: Seq<ItemV>,
    p: (Seq<char>, Seq<char>),
    enc: bool,
    pw: Seq<char>,
) -> bool {
    exists|m: int|
        0 <= m < items.len() && (#[trigger] items[m]).key == p.0 && items[m].is_encrypted == enc
            && (if enc {
            crypto::is_envelope_for(items[m].value, pw, p.1)
        } else {
            items[m].value == p.1
        })
}

/// A value the file format can carry verbatim as plain text.
fn plain_value_ok(v: &str) -> (r: bool)
    ensures
        r == (item_value_wf(v@) && !crate::chars::starts_with(v@, "ENC~"@)),
{
    let n = v.unicode_len();
    if crate::chars::starts_with_str(v, "ENC~") {
        return false;
    }
    if n == 0 {
        return true;
    }
    if crate::chars::is_ws_char(v.get_char(0)) || crate::chars::is_ws_char(v.get_char(n - 1)) {
        return false;
    }
    let mut i: usize = 0;
    while i < n
        invariant
            0 <= i <= n,
            n == v@.len(),
            forall|j: int| 0 <= j < i ==> #[trigger] v@[j] != '\n',
        decreases n - i,
    {
        if v.get_char(i) == '\n' {
            proof {
                assert(crate::chars::is_ws(v@[i as int]));
            }
            return false;
        }
        i = i + 1;
    }
    true
}

/// Arguments for importing a cleartext file: its path, and the keys to
/// keep as plain text.
#[derive(Debug)]
pub struct ImportArgs {
    pub file_path: String,
    pub plain_keys: Option<Vec<String>>,
}

/// Import parsed entries into a safe, encrypting everything except the
/// keys marked plain.
pub struct ImportCommand;

impl ImportCommand {
    pub fn requires_authentication(&self, safe: &Safe, args: &ImportArgs) -> (r: bool)
        ensures
            r,
    {
        let _ = safe;
        let _ = args;
        true
    }

    pub fn modifies_safe(&self) -> (r: bool)
        ensures
            r,
    {
        true
    }

    /// Store every entry, each under its own fresh envelope when
    /// encrypted; the whole import is checked first, so a rejected
    /// import changes nothing.
    pub fn apply_entries(
        &self,
        safe: &mut Safe,
        password: Option<String>,
        entries: Vec<(String, String)>,
        plain_keys: &Option<Vec<String>>,
    ) -> (r: Result<MessageOutput, SkitError>)
        requires
            old(safe).wf(),
            forall|j: int|
                0 <= j < entries@.len() ==> valid_env_key((#[trigger] pairs_view(entries@)[j]).0),
        ensures
            ({
                let ps = pairs_view(entries@);
                let enc_n = ps.filter(det_pred(*plain_keys)).len();
                match r {
                    Ok(o) => {
                        &&& ps.len() > 0
                        &&& final(safe).wf()
                        &&& final(safe)@ == (SafeV {
                            items: final(safe)@.items,
                            ..old(safe)@
                        })
                        &&& o.message@ == "Imported "@ + crate::display::dec_of(ps.len())
                            + " secrets: "@ + crate::display::dec_of(enc_n) + " encrypted, "@
                            + crate::display::dec_of((ps.len() - enc_n) as nat) + " plain text"@
                        &&& (enc_n > 0 ==> password is Some)
                        &&& (distinct_keys(ps) ==> forall|j: int|
                            0 <= j < ps.len() ==> imported_ok(
                                final(safe)@.items,
                                #[trigger] ps[j],
                                det_enc(ps[j].0, *plain_keys),
                                opt_pw(password),
                            ))
                    },
                    Err(e) => final(safe)@ == old(safe)@ && match e {
                        SkitError::ParseError(pi) => ps.len() == 0 && pi
                            == (crate::errors::ParseIssue {
                            line: 0,
                            kind: crate::errors::ParseIssueKind::NoEntries,
                        }),
                        SkitError::InvalidPassword(src) => src == PasswordSource::Caller
                            && password is None && enc_n > 0,
                        SkitError::InvalidArgument(ai) => (ai == ArgIssue::ValueTooLarge
                            && exists|j: int|
                            0 <= j < ps.len() && det_enc((#[trigger] ps[j]).0, *plain_keys)
                                && ps[j].1.len() > crypto::max_plaintext_chars()) || (ai
                            == ArgIssue::UnstorablePlainValue && exists|j: int|
                            0 <= j < ps.len() && !det_enc((#[trigger] ps[j]).0, *plain_keys) && !(
                            item_value_wf(ps[j].1) && !crate::chars::starts_with(
                                ps[j].1,
                                "ENC~"@,
                            ))),
                        _ => false,
                    },
                }
            }),
    {
        let ghost ps = pairs_view(entries@);
        let ghost dpred = det_pred(*plain_keys);
        let n = entries.len();
        if n == 0 {
            return Err(
                SkitError::ParseError(
                    crate::errors::ParseIssue {
                        line: 0,
                        kind: crate::errors::ParseIssueKind::NoEntries,
                    },
                ),
            );
        }
        // first pass: count and check everything, changing nothing
        let mut enc_count: usize = 0;
        let mut i: usize = 0;
        proof {
            reveal(Seq::filter);
            assert(ps.take(0) =~= Seq::<(Seq<char>, Seq<char>)>::empty());
        }
        while i < n
            invariant
                0 <= i <= n,
                n == entries@.len(),
                ps == pairs_view(entries@),
                dpred == det_pred(*plain_keys),
                enc_count == ps.take(i as int).filter(dpred).len(),
                forall|j: int|
                    0 <= j < i && det_enc((#[trigger] ps[j]).0, *plain_keys) ==> (
                    #[trigger] ps[j]).1.len() <= crypto::max_plaintext_chars(),
                forall|j: int|
                    0 <= j < i && !det_enc((#[trigger] ps[j]).0, *plain_keys) ==> item_value_wf(
                        ps[j].1,
                    ) && !crate::chars::starts_with(ps[j].1, "ENC~"@),
            decreases n - i,
        {
            let e = &entries[i];
            proof {
                assert(ps.take(i + 1).drop_last() =~= ps.take(i as int));
                assert(ps.take(i + 1).last() == ps[i as int]);
                assert(ps[i as int] == (e.0@, e.1@));
                reveal(Seq::filter);
            }
            if determine_encryption(e.0.as_str(), plain_keys) {
                if e.1.as_str().unicode_len() > 0x03FF_FFF5 {
                    return Err(SkitError::InvalidArgument(ArgIssue::ValueTooLarge));
                }
                enc_count = enc_count + 1;
                proof {
                    assert(dpred(ps[i as int]));
                    assert(ps.take(i + 1).filter(dpred) == ps.take(i as int).filter(dpred).push(
                        ps[i as int],
                    ));
                    ps.take(i + 1).lemma_filter_len(dpred);
                }
            } else {
                if !plain_value_ok(e.1.as_str()) {
                    return Err(SkitError::InvalidArgument(ArgIssue::UnstorablePlainValue));
                }
                proof {
                    assert(!dpred(ps[i as int]));
                    assert(ps.take(i + 1).filter(dpred) == ps.take(i as int).filter(dpred));
                }
            }
            i = i + 1;
        }
        proof {
            assert(ps.take(n as int) =~= ps);
        }
        let pw_ok = match &password {
            Option::Some(_) => true,
            Option::None => false,
        };
        if enc_count > 0 && !pw_ok {
            return Err(SkitError::InvalidPassword(PasswordSource::Caller));
        }
        // second pass: store every entry
        let mut idx: usize = 0;
        while idx < n
            invariant
                0 <= idx <= n,
                n == entries@.len(),
                ps == pairs_view(entries@),
                old(safe).wf(),
                safe.wf(),
                safe@ == (SafeV { items: safe@.items, ..old(safe)@ }),
                pw_ok == (password is Some),
                enc_count == ps.filter(dpred).len(),
                enc_count > 0 ==> pw_ok,
                dpred == det_pred(*plain_keys),
                forall|j: int|
                    0 <= j < n ==> valid_env_key((#[trigger] ps[j]).0),
                forall|j: int|
                    0 <= j < n && det_enc((#[trigger] ps[j]).0, *plain_keys) ==> (
                    #[trigger] ps[j]).1.len() <= crypto::max_plaintext_chars(),
                forall|j: int|
                    0 <= j < n && !det_enc((#[trigger] ps[j]).0, *plain_keys) ==> item_value_wf(
                        ps[j].1,
                    ) && !crate::chars::starts_with(ps[j].1, "ENC~"@),
                distinct_keys(ps) ==> forall|j: int|
                    0 <= j < idx ==> imported_ok(
                        safe@.items,
                        #[trigger] ps[j],
                        det_enc(ps[j].0, *plain_keys),
                        opt_pw(password),
                    ),
            decreases n - idx,
        {
            let e = &entries[idx];
            proof {
                assert(ps[idx as int] == (e.0@, e.1@));
            }
            let key = e.0.clone();
            let enc = determine_encryption(key.as_str(), plain_keys);
            let ghost pre_items = safe@.items;
            let ghost new_itemv: ItemV;
            proof {
                lemma_env_key_item(key@);
            }
            if enc {
                proof {
                    ps.lemma_filter_contains(dpred, idx as int);
                }
                let pw = match &password {
                    Option::Some(p) => p,
                    Option::None => {
                        proof {
                            assert(false);
                        }
                        return Err(SkitError::InvalidPassword(PasswordSource::Caller));
                    },
                };
                proof {
                    crypto::lemma_utf8_len(e.1@);
                }
                let stored = match crypto::encrypt_value_with_salt(pw.as_str(), e.1.as_str()) {
                    Ok(env) => env,
                    Err(_) => {
                        return Err(SkitError::InvalidPassword(PasswordSource::Caller));
                    },
                };
                proof {
                    lemma_envelope_text_item(stored@);
                    new_itemv = ItemV { key: key@, value: stored@, is_encrypted: true };
                    assert(crypto::is_envelope_for(stored@, opt_pw(password), ps[idx as int].1));
                }
                safe.add_or_update_item(key, stored, true);
            } else {
                let stored = e.1.clone();
                proof {
                    new_itemv = ItemV { key: key@, value: stored@, is_encrypted: false };
                }
                safe.add_or_update_item(key, stored, false);
            }
            proof {
                lemma_upsert_found(pre_items, new_itemv);
                assert(safe@.items == upsert(pre_items, new_itemv));
                if distinct_keys(ps) {
                    assert forall|j: int|
                        0 <= j < idx + 1 implies imported_ok(
                        safe@.items,
                        #[trigger] ps[j],
                        det_enc(ps[j].0, *plain_keys),
                        opt_pw(password),
                    ) by {
                        if j == idx {
                            let w = choose|w: int|
                                0 <= w < safe@.items.len() && #[trigger] safe@.items[w]
                                    == new_itemv;
                            assert(safe@.items[w].key == ps[j].0);
                        } else {
                            assert(imported_ok(
                                pre_items,
                                ps[j],
                                det_enc(ps[j].0, *plain_keys),
                                opt_pw(password),
                            ));
                            let m = choose|m: int|
                                0 <= m < pre_items.len() && (#[trigger] pre_items[m]).key
                                    == ps[j].0 && pre_items[m].is_encrypted == det_enc(
                                    ps[j].0,
                                    *plain_keys,
                                ) && (if det_enc(ps[j].0, *plain_keys) {
                                    crypto::is_envelope_for(
                                        pre_items[m].value,
                                        opt_pw(password),
                                        ps[j].1,
                                    )
                                } else {
                                    pre_items[m].value == ps[j].1
                                });
                            assert(ps[j].0 != ps[idx as int].0);
                            assert(pre_items[m].key != new_itemv.key);
                            assert(safe@.items.contains(pre_items[m]));
                            let q = choose|q: int|
                                0 <= q < safe@.items.len() && safe@.items[q] == pre_items[m];
                            assert(safe@.items[q].key == ps[j].0);
                        }
                    }
                }
            }
            idx = idx + 1;
        }
        proof {
            ps.lemma_filter_len(dpred);
        }
        let mut msg = String::from_str("Imported ");
        msg.append(crate::display::usize_to_string(n).as_str());
        msg.append(" secrets: ");
        msg.append(crate::display::usize_to_string(enc_count).as_str());
        msg.append(" encrypted, ");
        msg.append(crate::display::usize_to_string(n - enc_count).as_str());
        msg.append(" plain text");
        Ok(MessageOutput { message: msg })
    }
}

/// Arguments for pulling from the external parameter store.
#[derive(Debug)]
pub struct SsmPullArgs {
    pub prefix: Option<String>,
    pub region: Option<String>,
    pub replace: bool,
    pub no_overwrite: bool,
    pub dry_run: bool,
}

/// Merge pulled parameters into the safe.
pub struct SsmPullCommand;

/// A name already stored in the safe.
pub open spec fn key_in(items: Seq<ItemV>, key: Seq<char>) -> bool {
    exists|i: int| 0 <= i < items.len() && (#[trigger] items[i]).key == key
}

impl SsmPullCommand {
    /// An explicitly given prefix must not be blank.
    pub fn validate_args(&self, args: &SsmPullArgs) -> (r: Result<(), SkitError>)
        ensures
            r == (if args.prefix matches Some(p) && crate::chars::trim(p@).len() == 0 {
                Err::<(), SkitError>(SkitError::InvalidArgument(ArgIssue::EmptySsmPrefix))
            } else {
                Ok::<(), SkitError>(())
            }),
    {
        match &args.prefix {
            Option::Some(p) => {
                let t = crate::chars::trim_str(p.as_str());
                if t.as_str().unicode_len() == 0 {
                    Err(SkitError::InvalidArgument(ArgIssue::EmptySsmPrefix))
                } else {
                    Ok(())
                }
            },
            Option::None => Ok(()),
        }
    }

    /// Re-encrypting pulled secrets always needs the password.
    pub fn requires_authentication(&self, safe: &Safe, args: &SsmPullArgs) -> (r: bool)
        ensures
            r,
    {
        let _ = safe;
        let _ = args;
        true
    }

    pub fn modifies_safe(&self) -> (r: bool)
        ensures
            r,
    {
        true
    }

    /// Merge the pulled parameters: secrets are sealed under the
    /// password, plain parameters stored verbatim; with `replace` the
    /// old items are dropped first, and with `no_overwrite` existing
    /// names are kept. The stored prefix and region are updated. The
    /// whole merge is checked first, so a rejected pull changes nothing.
    pub fn apply_parameters(
        &self,
        safe: &mut Safe,
        password: Option<String>,
        params: Vec<crate::aws::SsmParameter>,
        replace: bool,
        no_overwrite: bool,
        prefix: String,
        region: Option<String>,
    ) -> (r: Result<MessageOutput, SkitError>)
        requires
            old(safe).wf(),
            meta_value_wf(prefix@),
            crate::safe::opt_meta_wf(match region {
                Option::Some(g) => Some(g@),
                Option::None => None,
            }),
        ensures
            ({
                let pv = params_view(params@);
                match r {
                    Ok(o) => {
                        &&& final(safe).wf()
                        &&& final(safe)@.ssm_prefix == Some(prefix@)
                        &&& final(safe)@.ssm_region == (match region {
                            Option::Some(g) => Some(g@),
                            Option::None => None::<Seq<char>>,
                        })
                        &&& final(safe)@ == (SafeV {
                            items: final(safe)@.items,
                            ssm_prefix: final(safe)@.ssm_prefix,
                            ssm_region: final(safe)@.ssm_region,
                            ..old(safe)@
                        })
                        &&& crate::chars::starts_with(o.message@, "Successfully pulled "@)
                        &&& (distinct_param_keys(pv) ==> forall|j: int|
                            0 <= j < pv.len() ==> (if no_overwrite && !replace && key_in(
                                old(safe)@.items,
                                (#[trigger] pv[j]).0,
                            ) {
                                true
                            } else {
                                imported_ok(
                                    final(safe)@.items,
                                    (pv[j].0, pv[j].1),
                                    pv[j].2,
                                    opt_pw(password),
                                )
                            }))
                    },
                    Err(e) => final(safe)@ == old(safe)@ && match e {
                        SkitError::InvalidPassword(src) => src == PasswordSource::Caller
                            && password is None,
                        SkitError::InvalidArgument(ai) => ai == ArgIssue::InvalidKey || ai
                            == ArgIssue::ValueTooLarge || ai == ArgIssue::UnstorablePlainValue,
                        _ => false,
                    },
                }
            }),
    {
        let ghost pv = params_view(params@);
        let n = params.len();
        // first pass: check every parameter that will be applied
        let mut i: usize = 0;
        while i < n
            invariant
                0 <= i <= n,
                n == params@.len(),
                pv == params_view(params@),
                old(safe).wf(),
                safe == old(safe),
                forall|j: int|
                    0 <= j < i ==> applies_cleanly(
                        #[trigger] pv[j],
                        old(safe)@.items,
                        replace,
                        no_overwrite,
                    ),
            decreases n - i,
        {
            let p = &params[i];
            proof {
                assert(pv[i as int] == (p.key@, p.value@, p.is_encrypted));
            }
            let skip_it = no_overwrite && !replace && match safe.find_item(p.key.as_str()) {
                Option::Some(_) => true,
                Option::None => false,
            };
            if !skip_it {
                if !key_ok(p.key.as_str()) {
                    return Err(SkitError::InvalidArgument(ArgIssue::InvalidKey));
                }
                if p.is_encrypted {
                    if p.value.as_str().unicode_len() > 0x03FF_FFF5 {
                        return Err(SkitError::InvalidArgument(ArgIssue::ValueTooLarge));
                    }
                } else {
                    if !plain_value_ok(p.value.as_str()) {
                        return Err(SkitError::InvalidArgument(ArgIssue::UnstorablePlainValue));
                    }
                }
            }
            i = i + 1;
        }
        let pw_ok = match &password {
            Option::Some(_) => true,
            Option::None => false,
        };
        if !pw_ok {
            return Err(SkitError::InvalidPassword(PasswordSource::Caller));
        }
        let ghost old_items = safe@.items;
        if replace {
            safe.items = Vec::new();
            proof {
                assert(crate::safe::views_of(safe.items@) =~= Seq::<ItemV>::empty());
                assert(safe@ == (SafeV { items: safe@.items, ..old(safe)@ }));
            }
        }
        let mut applied: usize = 0;
        let mut added: usize = 0;
        let mut updated: usize = 0;
        let mut skipped: usize = 0;
        let mut enc_n: usize = 0;
        let mut plain_n: usize = 0;
        let mut idx: usize = 0;
        while idx < n
            invariant
                0 <= idx <= n,
                n == params@.len(),
                pv == params_view(params@),
                old(safe).wf(),
                safe.wf(),
                password is Some,
                safe@ == (SafeV { items: safe@.items, ..old(safe)@ }),
                added <= idx && updated <= idx && skipped <= idx && enc_n <= idx && plain_n
                    <= idx,
                applied <= idx,
                (no_overwrite && !replace) ==> forall|m: int|
                    0 <= m < old(safe)@.items.len() ==> key_in(
                        safe@.items,
                        (#[trigger] old(safe)@.items[m]).key,
                    ),
                forall|j: int|
                    0 <= j < n ==> applies_cleanly(
                        #[trigger] pv[j],
                        old(safe)@.items,
                        replace,
                        no_overwrite,
                    ),
                distinct_param_keys(pv) ==> forall|j: int|
                    0 <= j < idx ==> (if no_overwrite && !replace && key_in(
                        old(safe)@.items,
                        (#[trigger] pv[j]).0,
                    ) {
                        true
                    } else {
                        imported_ok(safe@.items, (pv[j].0, pv[j].1), pv[j].2, opt_pw(password))
                    }),
                distinct_param_keys(pv) ==> forall|j: int|
                    idx <= j < n && no_overwrite && !replace ==> (key_in(
                        safe@.items,
                        (#[trigger] pv[j]).0,
                    ) == key_in(old(safe)@.items, pv[j].0)),
            decreases n - idx,
        {
            let p = &params[idx];
            proof {
                assert(pv[idx as int] == (p.key@, p.value@, p.is_encrypted));
            }
            let exists_now = match safe.find_item(p.key.as_str()) {
                Option::Some(_) => true,
                Option::None => false,
            };
            if no_overwrite && !replace && exists_now {
                skipped = skipped + 1;
                proof {
                    assert(key_in(safe@.items, pv[idx as int].0));
                }
            } else {
                let ghost pre_items = safe@.items;
                let key = p.key.clone();
                proof {
                    assert(applies_cleanly(pv[idx as int], old(safe)@.items, replace,
                        no_overwrite));
                    if no_overwrite && !replace && key_in(old(safe)@.items, pv[idx as int].0) {
                        assert(key_in(safe@.items, pv[idx as int].0));
                        assert(false);
                    }
                    assert(crate::safe::item_key_wf(key@));
                }
                let ghost new_itemv: ItemV;
                if p.is_encrypted {
                    let pw = match &password {
                        Option::Some(q) => q,
                        Option::None => {
                            // the password was demanded before anything was applied
                            proof {
                                assert(false);
                            }
                            return Err(SkitError::InvalidPassword(PasswordSource::Caller));
                        },
                    };
                    proof {
                        crypto::lemma_utf8_len(p.value@);
                    }
                    let stored = match crypto::encrypt_value_with_salt(
                        pw.as_str(),
                        p.value.as_str(),
                    ) {
                        Ok(env) => env,
                        Err(_) => {
                            return Err(SkitError::InvalidPassword(PasswordSource::Caller));
                        },
                    };
                    proof {
                        lemma_envelope_text_item(stored@);
                        new_itemv = ItemV { key: key@, value: stored@, is_encrypted: true };
                        assert(crypto::is_envelope_for(stored@, opt_pw(password), p.value@));
                    }
                    safe.add_or_update_item(key, stored, true);
                    enc_n = enc_n + 1;
                } else {
                    let stored = p.value.clone();
                    proof {
                        new_itemv = ItemV { key: key@, value: stored@, is_encrypted: false };
                    }
                    safe.add_or_update_item(key, stored, false);
                    plain_n = plain_n + 1;
                }
                applied = applied + 1;
                if exists_now {
                    updated = updated + 1;
                } else {
                    added = added + 1;
                }
                proof {
                    lemma_upsert_found(pre_items, new_itemv);
                    assert(safe@.items == upsert(pre_items, new_itemv));
                    if no_overwrite && !replace {
                        assert forall|m: int|
                            0 <= m < old(safe)@.items.len() implies key_in(
                            safe@.items,
                            (#[trigger] old(safe)@.items[m]).key,
                        ) by {
                            let kk = old(safe)@.items[m].key;
                            assert(key_in(pre_items, kk));
                            let w = choose|w: int|
                                0 <= w < pre_items.len() && (#[trigger] pre_items[w]).key == kk;
                            if pre_items[w].key == new_itemv.key {
                                let z = choose|z: int|
                                    0 <= z < safe@.items.len() && #[trigger] safe@.items[z]
                                        == new_itemv;
                                assert(safe@.items[z].key == kk);
                            } else {
                                assert(safe@.items.contains(pre_items[w]));
                                let q = choose|q: int|
                                    0 <= q < safe@.items.len() && safe@.items[q]
                                        == pre_items[w];
                                assert(safe@.items[q].key == kk);
                            }
                        }
                    }
                    if distinct_param_keys(pv) {
                        assert forall|j: int|
                            0 <= j < idx + 1 && !(no_overwrite && !replace && key_in(
                                old(safe)@.items,
                                (#[trigger] pv[j]).0,
                            )) implies imported_ok(
                            safe@.items,
                            (pv[j].0, pv[j].1),
                            pv[j].2,
                            opt_pw(password),
                        ) by {
                            if j == idx {
                                let w = choose|w: int|
                                    0 <= w < safe@.items.len() && #[trigger] safe@.items[w]
                                        == new_itemv;
                                assert(safe@.items[w].key == pv[j].0);
                            } else {
                                let m = choose|m: int|
                                    0 <= m < pre_items.len() && (#[trigger] pre_items[m]).key
                                        == pv[j].0 && pre_items[m].is_encrypted == pv[j].2 && (
                                    if pv[j].2 {
                                        crypto::is_envelope_for(
                                            pre_items[m].value,
                                            opt_pw(password),
                                            pv[j].1,
                                        )
                                    } else {
                                        pre_items[m].value == pv[j].1
                                    });
                                assert(pv[j].0 != pv[idx as int].0);
                                assert(safe@.items.contains(pre_items[m]));
                                let q = choose|q: int|
                                    0 <= q < safe@.items.len() && safe@.items[q]
                                        == pre_items[m];
                                assert(safe@.items[q].key == pv[j].0);
                            }
                        }
                        assert forall|j: int|
                            idx + 1 <= j < n && no_overwrite && !replace implies (key_in(
                            safe@.items,
                            (#[trigger] pv[j]).0,
                        ) == key_in(old(safe)@.items, pv[j].0)) by {
                            assert(pv[j].0 != pv[idx as int].0);
                            if key_in(pre_items, pv[j].0) {
                                let m = choose|m: int|
                                    0 <= m < pre_items.len() && (#[trigger] pre_items[m]).key
                                        == pv[j].0;
                                assert(safe@.items.contains(pre_items[m]));
                                let q = choose|q: int|
                                    0 <= q < safe@.items.len() && safe@.items[q]
                                        == pre_items[m];
                                assert(key_in(safe@.items, pv[j].0));
                            }
                            if key_in(safe@.items, pv[j].0) {
                                let m = choose|m: int|
                                    0 <= m < safe@.items.len() && (#[trigger] safe@.items[m]).key
                                        == pv[j].0;
                                assert(safe@.items[m] == new_itemv || (pre_items.contains(
                                    safe@.items[m],
                                ) && safe@.items[m].key != new_itemv.key));
                                let q = choose|q: int|
                                    0 <= q < pre_items.len() && pre_items[q] == safe@.items[m];
                                assert(key_in(pre_items, pv[j].0));
                            }
                        }
                    }
                }
            }
            idx = idx + 1;
        }
        // update the stored association
        safe.ssm_prefix = Some(prefix);
        safe.ssm_region = region;
        let mut msg = String::from_str("Successfully pulled ");
        msg.append(crate::display::usize_to_string(applied).as_str());
        msg.append(" parameters; added ");
        msg.append(crate::display::usize_to_string(added).as_str());
        msg.append(", updated ");
        msg.append(crate::display::usize_to_string(updated).as_str());
        msg.append(", skipped ");
        msg.append(crate::display::usize_to_string(skipped).as_str());
        msg.append("; encrypted ");
        msg.append(crate::display::usize_to_string(enc_n).as_str());
        msg.append(", plain text ");
        msg.append(crate::display::usize_to_string(plain_n).as_str());
        proof {
            reveal_strlit("Successfully pulled ");
            assert(msg@.subrange(0, 20) =~= "Successfully pulled "@);
        }
        Ok(MessageOutput { message: msg })
    }
}

/// The views of pulled parameters.
pub open spec fn params_view(params: Seq<crate::aws::SsmParameter>) -> Seq<
    (Seq<char>, Seq<char>, bool),
> {
    Seq::new(params.len(), |i: int| (params[i].key@, params[i].value@, params[i].is_encrypted))
}

/// No parameter name appears twice.
pub open spec fn distinct_param_keys(pv: Seq<(Seq<char>, Seq<char>, bool)>) -> bool {
    forall|i: int, j: int| 0 <= i < j < pv.len() ==> (#[trigger] pv[i]).0 != (#[trigger] pv[j]).0
}

/// A parameter that the merge can apply or skip without fault.
pub open spec fn applies_cleanly(
    p: (Seq<char>, Seq<char>, bool),
    old_items: Seq<ItemV>,
    replace: bool,
    no_overwrite: bool,
) -> bool {
    if no_overwrite && !replace && key_in(old_items, p.0) {
        true
    } else {
        &&& crate::safe::item_key_wf(p.0)
        &&& (p.2 ==> p.1.len() <= crypto::max_plaintext_chars())
        &&& (!p.2 ==> item_value_wf(p.1) && !crate::chars::starts_with(p.1, "ENC~"@))
    }
}

/// Whether a name can stand as an item key in the file format.
fn key_ok(k: &str) -> (r: bool)
    ensures
        r == crate::safe::item_key_wf(k@),
{
    let n = k.unicode_len();
    if n == 0 {
        return false;
    }
    let c0 = k.get_char(0);
    if c0 == '#' || crate::chars::is_ws_char(c0) {
        return false;
    }
    if crate::chars::is_ws_char(k.get_char(n - 1)) {
        return false;
    }
    let mut i: usize = 0;
    while i < n
        invariant
            0 <= i <= n,
            n == k@.len(),
            forall|j: int| 0 <= j < i ==> #[trigger] k@[j] != '\n' && k@[j] != '=',
        decreases n - i,
    {
        let c = k.get_char(i);
        if c == '\n' {
            proof {
                assert(crate::chars::is_ws(k@[i as int]));
            }
            return false;
        }
        if c == '=' {
            return false;
        }
        i = i + 1;
    }
    true
}

/// A key file last used before the cutoff: older than the given number
/// of days.
pub open spec fn old_key_pred(now: u64, days: u64) -> spec_fn((String, u64)) -> bool {
    |e: (String, u64)| (e.1 as int) < now - days * 86400
}

/// Whole days since a timestamp, zero for timestamps in the future.
pub open spec fn days_ago_of(now: u64, mtime: u64) -> int {
    if mtime <= now {
        ((now - mtime) as int) / 86400
    } else {
        0
    }
}

/// Split saved key files into those older than the cutoff and those
/// used recently, each with its age in whole days, keeping their order.
/// An age in days too large to compute with is rejected.
pub fn partition_key_ages(entries: Vec<(String, u64)>, now: u64, older_than_days: u64) -> (r:
    Result<(Vec<(String, u64)>, Vec<(String, u64)>), SkitError>)
    ensures
        match r {
            Ok(parts) => {
                let old_f = key_ages_view(entries@).filter(old_key_pred(now, older_than_days));
                let recent_f = key_ages_view(entries@).filter(
                    recent_key_pred(now, older_than_days),
                );
                &&& older_than_days <= 0xFFFF_FFFF_FFFF_FFFFu64 / 86400
                &&& parts.0@.len() == old_f.len()
                &&& forall|j: int|
                    0 <= j < old_f.len() ==> (#[trigger] parts.0@[j]).0@ == (old_f[j]).0@
                        && parts.0@[j].1 == days_ago_of(now, old_f[j].1)
                &&& parts.1@.len() == recent_f.len()
                &&& forall|j: int|
                    0 <= j < recent_f.len() ==> (#[trigger] parts.1@[j]).0@ == (recent_f[j]).0@
                        && parts.1@[j].1 == days_ago_of(now, recent_f[j].1)
            },
            Err(e) => e == SkitError::InvalidArgument(ArgIssue::DaysTooLarge) && older_than_days
                > 0xFFFF_FFFF_FFFF_FFFFu64 / 86400,
        },
{
    if older_than_days > 0xFFFF_FFFF_FFFF_FFFFu64 / 86400 {
        return Err(SkitError::InvalidArgument(ArgIssue::DaysTooLarge));
    }
    let cutoff_span = older_than_days * 86400;
    let ghost ev = key_ages_view(entries@);
    let ghost op = old_key_pred(now, older_than_days);
    let ghost rp = recent_key_pred(now, older_than_days);
    let n = entries.len();
    let mut old_out: Vec<(String, u64)> = Vec::new();
    let mut recent_out: Vec<(String, u64)> = Vec::new();
    let mut i: usize = 0;
    proof {
        reveal(Seq::filter);
        assert(ev.take(0) =~= Seq::<(String, u64)>::empty());
    }
    while i < n
        invariant
            0 <= i <= n,
            n == entries@.len(),
            ev == key_ages_view(entries@),
            op == old_key_pred(now, older_than_days),
            rp == recent_key_pred(now, older_than_days),
            cutoff_span == older_than_days * 86400,
            ({
                let old_f = ev.take(i as int).filter(op);
                let recent_f = ev.take(i as int).filter(rp);
                &&& old_out@.len() == old_f.len()
                &&& forall|j: int|
                    0 <= j < old_f.len() ==> (#[trigger] old_out@[j]).0@ == (old_f[j]).0@
                        && old_out@[j].1 == days_ago_of(now, old_f[j].1)
                &&& recent_out@.len() == recent_f.len()
                &&& forall|j: int|
                    0 <= j < recent_f.len() ==> (#[trigger] recent_out@[j]).0@ == (
                    recent_f[j]).0@ && recent_out@[j].1 == days_ago_of(now, recent_f[j].1)
            }),
        decreases n - i,
    {
        let e = &entries[i];
        proof {
            assert(ev.take(i + 1).drop_last() =~= ev.take(i as int));
            assert(ev.take(i + 1).last() == ev[i as int]);
            assert(ev[i as int] == entries@[i as int]);
            reveal(Seq::filter);
        }
        let days_ago: u64 = if e.1 <= now {
            (now - e.1) / 86400
        } else {
            0
        };
        let is_old = now >= cutoff_span && e.1 < now - cutoff_span;
        proof {
            assert(is_old == op(ev[i as int]));
        }
        if is_old {
            old_out.push((e.0.clone(), days_ago));
            proof {
                assert(ev.take(i + 1).filter(op) == ev.take(i as int).filter(op).push(
                    ev[i as int],
                ));
                assert(ev.take(i + 1).filter(rp) == ev.take(i as int).filter(rp));
            }
        } else {
            recent_out.push((e.0.clone(), days_ago));
            proof {
                assert(ev.take(i + 1).filter(rp) == ev.take(i as int).filter(rp).push(
                    ev[i as int],
                ));
                assert(ev.take(i + 1).filter(op) == ev.take(i as int).filter(op));
            }
        }
        i = i + 1;
    }
    proof {
        assert(ev.take(n as int) =~= ev);
    }
    Ok((old_out, recent_out))
}

/// The identity view of key-age entries, for filtering.
pub open spec fn key_ages_view(entries: Seq<(String, u64)>) -> Seq<(String, u64)> {
    entries
}

/// A key file used at or after the cutoff.
pub open spec fn recent_key_pred(now: u64, days: u64) -> spec_fn((String, u64)) -> bool {
    |e: (String, u64)| !((e.1 as int) < now - days * 86400)
}

/// Summarize one loaded safe for the directory listing.
pub fn safe_info_of(file: String, safe: &Safe) -> (r: crate::types::SafeInfo)
    ensures
        r.file@ == file@,
        r.description@ == safe@.description,
        r.updated@ == safe@.updated,
        r.statistics.total == safe@.items.len(),
        r.statistics.encrypted == safe@.encrypted_count(),
        r.statistics.plain + r.statistics.encrypted == r.statistics.total,
        r.status@ == (if safe@.items.len() == 0 {
            "Empty"@
        } else {
            "OK"@
        }),
{
    let total = safe.items.len();
    let encrypted = count_encrypted(safe);
    let status = if total == 0 {
        String::from_str("Empty")
    } else {
        String::from_str("OK")
    };
    crate::types::SafeInfo {
        file,
        description: safe.description.clone(),
        statistics: crate::types::SafeStatistics {
            total,
            encrypted,
            plain: total - encrypted,
        },
        updated: safe.updated.clone(),
        status,
    }
}

/// Count the encrypted items.
pub fn count_encrypted(safe: &Safe) -> (r: usize)
    ensures
        r == safe@.encrypted_count(),
        r <= safe@.items.len(),
{
    let ghost items = safe@.items;
    let n = safe.items.len();
    let mut count: usize = 0;
    let mut i: usize = 0;
    proof {
        reveal(Seq::filter);
        assert(items.take(0) =~= Seq::<ItemV>::empty());
    }
    while i < n
        invariant
            0 <= i <= n,
            n == safe.items@.len(),
            items == safe@.items,
            count == items.take(i as int).filter(enc_pred()).len(),
            count <= i,
        decreases n - i,
    {
        proof {
            assert(items.take(i + 1).drop_last() =~= items.take(i as int));
            assert(items.take(i + 1).last() == items[i as int]);
            assert(items[i as int] == safe.items@[i as int]@);
            reveal(Seq::filter);
        }
        if safe.items[i].is_encrypted {
            count = count + 1;
            proof {
                assert(enc_pred()(items[i as int]));
            }
        } else {
            proof {
                assert(!enc_pred()(items[i as int]));
            }
        }
        i = i + 1;
    }
    proof {
        assert(items.take(n as int) =~= items);
    }
    count
}

/// Copy every item of a source safe into a freshly created destination:
/// encrypted values are opened with the source password and sealed anew
/// under the destination's password, plain values are copied verbatim.
/// Any single failure to decrypt aborts the copy.
pub fn copy_items(
    source: &Safe,
    source_password: &str,
    dest: &mut Safe,
    dest_password: &str,
) -> (r: Result<(), SkitError>)
    requires
        source.wf(),
        old(dest).wf(),
        old(dest)@.items.len() == 0,
    ensures
        match r {
            Ok(()) => final(dest).wf() && final(dest)@ == (SafeV {
                items: final(dest)@.items,
                ..old(dest)@
            }) && final(dest)@.items.len() == source@.items.len() && forall|i: int|
                0 <= i < source@.items.len() ==> crate::safe::rotated_item(
                    #[trigger] source@.items[i],
                    #[trigger] final(dest)@.items[i],
                    source_password@,
                    dest_password@,
                ),
            Err(e) => match e {
                SkitError::Crypto(ce) => (ce == CryptoError::DecryptionFailed || ce
                    == CryptoError::InvalidFormat) && exists|i: int|
                    0 <= i < source@.items.len() && crate::safe::undecryptable(
                        #[trigger] source@.items[i],
                        source_password@,
                    ),
                _ => false,
            },
        },
{
    let n = source.items.len();
    let mut new_items: Vec<SafeItem> = Vec::new();
    let mut idx: usize = 0;
    while idx < n
        invariant
            0 <= idx <= n,
            n == source.items@.len(),
            source.wf(),
            new_items@.len() == idx,
            forall|m: int|
                0 <= m < idx ==> crate::safe::rotated_item(
                    source@.items[m],
                    (#[trigger] crate::safe::views_of(new_items@)[m]),
                    source_password@,
                    dest_password@,
                ),
            forall|m: int|
                0 <= m < idx ==> item_wf(#[trigger] crate::safe::views_of(new_items@)[m]),
            forall|m: int|
                0 <= m < idx ==> (#[trigger] crate::safe::views_of(new_items@)[m]).key
                    == source@.items[m].key,
        decreases n - idx,
    {
        let it = &source.items[idx];
        let ghost pre_views = crate::safe::views_of(new_items@);
        proof {
            assert(source@.items[idx as int] == it@);
            assert(item_wf(source@.items[idx as int]));
        }
        if it.is_encrypted {
            let pt = match crypto::decrypt_value_with_salt(it.value.as_str(), source_password) {
                Ok(p) => p,
                Err(ce) => {
                    proof {
                        assert(crate::safe::undecryptable(
                            source@.items[idx as int],
                            source_password@,
                        ));
                        assert(exists|i: int|
                            0 <= i < source@.items.len() && crate::safe::undecryptable(
                                #[trigger] source@.items[i],
                                source_password@,
                            ));
                    }
                    return Err(SkitError::Crypto(ce));
                },
            };
            proof {
                let (s2, n2) = choose|s2: Seq<u8>, n2: Seq<u8>|
                    crypto::is_envelope(it.value@, source_password@, s2, n2, pt@);
                crypto::lemma_utf8_len(pt@);
            }
            let enc = match crypto::encrypt_value_with_salt(dest_password, pt.as_str()) {
                Ok(env) => env,
                Err(_) => {
                    return Err(SkitError::Crypto(CryptoError::EncryptionFailed));
                },
            };
            proof {
                lemma_envelope_text_item(enc@);
            }
            let nk = it.key.clone();
            new_items.push(SafeItem { key: nk, value: enc, is_encrypted: true });
            proof {
                let ghost ni = ItemV { key: it@.key, value: enc@, is_encrypted: true };
                assert(crate::safe::views_of(new_items@) =~= pre_views.push(ni));
                assert(crate::safe::rotated_item(
                    source@.items[idx as int],
                    ni,
                    source_password@,
                    dest_password@,
                )) by {
                    assert(crypto::is_envelope_for(it.value@, source_password@, pt@));
                    assert(crypto::is_envelope_for(enc@, dest_password@, pt@));
                }
            }
        } else {
            new_items.push(it.clone());
            proof {
                assert(crate::safe::views_of(new_items@) =~= pre_views.push(it@));
            }
        }
        proof {
            assert forall|m: int| 0 <= m < idx implies crate::safe::views_of(new_items@)[m]
                == pre_views[m] by {}
        }
        idx = idx + 1;
    }
    dest.items = new_items;
    proof {
        assert forall|a: int, b: int|
            0 <= a < b < dest@.items.len() implies lex_lt(
            (#[trigger] dest@.items[a]).key,
            (#[trigger] dest@.items[b]).key,
        ) by {
            assert(dest@.items[a].key == source@.items[a].key);
            assert(dest@.items[b].key == source@.items[b].key);
        }
        assert(dest@ == (SafeV { items: dest@.items, ..old(dest)@ }));
    }
    Ok(())
}

/// The canonical on-disk name of a safe: a leading dot and a `.safe`
/// suffix, added where missing.
pub open spec fn normalized_safe_path(name: Seq<char>) -> Seq<char> {
    if crate::chars::starts_with(name, "."@) && crate::chars::ends_with(name, ".safe"@) {
        name
    } else if crate::chars::ends_with(name, ".safe"@) && !crate::chars::starts_with(name, "."@) {
        "."@ + name
    } else {
        "."@ + name + ".safe"@
    }
}

/// Turn a safe name into its canonical file name.
pub fn normalize_safe_path(safe_name: &str) -> (r: String)
    ensures
        r@ == normalized_safe_path(safe_name@),
{
    let starts = crate::chars::starts_with_str(safe_name, ".");
    let ends = crate::chars::ends_with_str(safe_name, ".safe");
    if starts && ends {
        String::from_str(safe_name)
    } else if ends && !starts {
        let mut out = String::from_str(".");
        out.append(safe_name);
        out
    } else {
        let mut out = String::from_str(".");
        out.append(safe_name);
        out.append(".safe");
        out
    }
}

/// The shell a listing is formatted for.
#[derive(Debug, Clone)]
pub struct ShellInfo {
    pub name: String,
}

} // verus!