use vstd::prelude::*;

use crate::chars::find_char;
use crate::chars::is_ws;
use crate::chars::lemma_lex_irrefl;
use crate::chars::lemma_lex_total;
use crate::chars::lemma_lex_trans;
use crate::chars::lex_lt;
use crate::chars::starts_with;
use crate::chars::str_eq_str;
use crate::chars::str_lt_str;
use crate::crypto;
use crate::errors::CryptoError;
use crate::errors::PasswordSource;
use crate::errors::SkitError;

verus! {

/// One secret: a name, a stored value, and whether the value is an
/// encrypted envelope or plain text.
pub struct SafeItem {
    pub key: String,
    pub value: String,
    pub is_encrypted: bool,
}

/// Mathematical image of a `SafeItem`.
pub struct ItemV {
    pub key: Seq<char>,
    pub value: Seq<char>,
    pub is_encrypted: bool,
}

impl View for SafeItem {
    type V = ItemV;

    open spec fn view(&self) -> ItemV {
        ItemV { key: self.key@, value: self.value@, is_encrypted: self.is_encrypted }
    }
}

impl Clone for SafeItem {
    fn clone(&self) -> (r: Self)
        ensures
            r@ == self@,
    {
        SafeItem {
            key: self.key.clone(),
            value: self.value.clone(),
            is_encrypted: self.is_encrypted,
        }
    }
}

/// The whole store: metadata and the items, held sorted by key.
pub struct Safe {
    pub version: String,
    pub uuid: String,
    pub description: String,
    pub created: String,
    pub updated: String,
    pub password_hash: String,
    pub ssm_prefix: Option<String>,
    pub ssm_region: Option<String>,
    pub items: Vec<SafeItem>,
}

/// Mathematical image of a `Safe`.
pub struct SafeV {
    pub version: Seq<char>,
    pub uuid: Seq<char>,
    pub description: Seq<char>,
    pub created: Seq<char>,
    pub updated: Seq<char>,
    pub password_hash: Seq<char>,
    pub ssm_prefix: Option<Seq<char>>,
    pub ssm_region: Option<Seq<char>>,
    pub items: Seq<ItemV>,
}

impl View for Safe {
    type V = SafeV;

    open spec fn view(&self) -> SafeV {
        SafeV {
            version: self.version@,
            uuid: self.uuid@,
            description: self.description@,
            created: self.created@,
            updated: self.updated@,
            password_hash: self.password_hash@,
            ssm_prefix: match self.ssm_prefix {
                Option::Some(p) => Some(p@),
                Option::None => None,
            },
            ssm_region: match self.ssm_region {
                Option::Some(r) => Some(r@),
                Option::None => None,
            },
            items: views_of(self.items@),
        }
    }
}

/// A metadata value as the file format can carry it: non-empty, on one
/// line, with no trailing whitespace (which saving and loading would
/// strip).
pub open spec fn meta_value_wf(s: Seq<char>) -> bool {
    &&& s.len() > 0
    &&& !is_ws(s.last())
    &&& forall|i: int| 0 <= i < s.len() ==> #[trigger] s[i] != '\n'
}

/// An optional metadata value: absent, empty, or a metadata value.
pub open spec fn opt_meta_wf(s: Option<Seq<char>>) -> bool {
    match s {
        Option::Some(v) => (forall|i: int| 0 <= i < v.len() ==> #[trigger] v[i] != '\n') && (v.len()
            > 0 ==> !is_ws(v.last())),
        Option::None => true,
    }
}

/// A key as the file format can carry it: non-empty, on one line, free
/// of `=`, not opening a comment, and with no whitespace at either end.
pub open spec fn item_key_wf(k: Seq<char>) -> bool {
    &&& k.len() > 0
    &&& k[0] != '#'
    &&& !is_ws(k[0])
    &&& !is_ws(k.last())
    &&& forall|i: int| 0 <= i < k.len() ==> #[trigger] k[i] != '\n' && k[i] != '='
}

/// A stored value as the file format can carry it: one line, no
/// whitespace at either end.
pub open spec fn item_value_wf(v: Seq<char>) -> bool {
    &&& forall|i: int| 0 <= i < v.len() ==> #[trigger] v[i] != '\n'
    &&& v.len() > 0 ==> !is_ws(v[0]) && !is_ws(v.last())
}

/// How loading classifies a stored value: encrypted when it bears the
/// `ENC~` tag, with one legacy shape (a `~`-delimited salt directly
/// after the tag) rewritten to the canonical form.
pub open spec fn classify_value(v: Seq<char>) -> (bool, Seq<char>) {
    if starts_with(v, "ENC~"@) {
        let rest = v.skip(4);
        if starts_with(rest, "v1~"@) {
            (true, v)
        } else {
            match find_char(rest, '~') {
                Option::Some(p) => (true, "ENC~"@ + rest.skip(p + 1)),
                Option::None => (true, v),
            }
        }
    } else {
        (false, v)
    }
}

/// An item the file format can carry: a well-formed key and value, with
/// the stored flag agreeing with the value's tag.
pub open spec fn item_wf(it: ItemV) -> bool {
    &&& item_key_wf(it.key)
    &&& item_value_wf(it.value)
    &&& it.is_encrypted <==> starts_with(it.value, "ENC~"@)
}

/// An item whose classification is stable: loading it back neither
/// reclassifies nor rewrites it. Freshly made envelopes and plain values
/// are stable; only a legacy envelope shape is not.
pub open spec fn item_canonical(it: ItemV) -> bool {
    classify_value(it.value) == (it.is_encrypted, it.value)
}

impl SafeV {
    /// The safe's invariant: well-formed metadata, well-formed items,
    /// and items strictly sorted by key (hence unique names).
    pub open spec fn wf(self) -> bool {
        &&& meta_value_wf(self.version)
        &&& meta_value_wf(self.uuid)
        &&& meta_value_wf(self.description)
        &&& meta_value_wf(self.created)
        &&& meta_value_wf(self.updated)
        &&& meta_value_wf(self.password_hash)
        &&& opt_meta_wf(self.ssm_prefix)
        &&& opt_meta_wf(self.ssm_region)
        &&& forall|i: int| 0 <= i < self.items.len() ==> item_wf(#[trigger] self.items[i])
        &&& forall|i: int, j: int|
            0 <= i < j < self.items.len() ==> lex_lt(
                #[trigger] self.items[i].key,
                #[trigger] self.items[j].key,
            )
    }

    /// The invariant together with classification stability of every
    /// item: what a load of a save reproduces exactly.
    pub open spec fn canonical(self) -> bool {
        &&& self.wf()
        &&& forall|i: int| 0 <= i < self.items.len() ==> item_canonical(#[trigger] self.items[i])
    }

    /// How many items carry the encrypted flag.
    pub open spec fn encrypted_count(self) -> nat {
        self.items.filter(enc_pred()).len()
    }

    /// Some item carries the encrypted flag.
    pub open spec fn has_encrypted(self) -> bool {
        exists|i: int| 0 <= i < self.items.len() && (#[trigger] self.items[i]).is_encrypted
    }
}

/// The predicate selecting encrypted items.
pub open spec fn enc_pred() -> spec_fn(ItemV) -> bool {
    |it: ItemV| it.is_encrypted
}

/// The items of a vector, as their mathematical images.
pub open spec fn views_of(items: Seq<SafeItem>) -> Seq<ItemV> {
    Seq::new(items.len(), |i: int| items[i]@)
}

/// Keys strictly ascending: sorted, with no name twice.
pub open spec fn sorted_by_key(items: Seq<ItemV>) -> bool {
    forall|i: int, j: int|
        0 <= i < j < items.len() ==> lex_lt((#[trigger] items[i]).key, (#[trigger] items[j]).key)
}

/// Items after adding or replacing one entry, keeping the order by key.
pub open spec fn upsert(items: Seq<ItemV>, it: ItemV) -> Seq<ItemV>
    decreases items.len(),
{
    if items.len() == 0 {
        seq![it]
    } else if lex_lt(items[0].key, it.key) {
        seq![items[0]] + upsert(items.drop_first(), it)
    } else if items[0].key == it.key {
        seq![it] + items.drop_first()
    } else {
        seq![it] + items
    }
}

/// The shape `upsert` takes once the insertion point is known.
pub proof fn lemma_upsert_at(items: Seq<ItemV>, it: ItemV, i: int)
    requires
        0 <= i <= items.len(),
        forall|j: int| 0 <= j < i ==> lex_lt((#[trigger] items[j]).key, it.key),
        i < items.len() ==> !lex_lt(items[i].key, it.key),
    ensures
        upsert(items, it) == if i == items.len() {
            items.push(it)
        } else if items[i].key == it.key {
            items.update(i, it)
        } else {
            items.take(i) + seq![it] + items.skip(i)
        },
    decreases i,
{
    if items.len() == 0 {
        assert(upsert(items, it) =~= items.push(it));
    } else if i == 0 {
        if !lex_lt(items[0].key, it.key) {
            if items[0].key == it.key {
                assert(seq![it] + items.drop_first() =~= items.update(0, it));
            } else {
                assert(seq![it] + items =~= items.take(0) + seq![it] + items.skip(0));
            }
        }
    } else {
        assert(lex_lt(items[0].key, it.key));
        lemma_upsert_at(items.drop_first(), it, i - 1);
        let rec = upsert(items.drop_first(), it);
        if i == items.len() {
            assert(seq![items[0]] + items.drop_first().push(it) =~= items.push(it));
        } else if items[i].key == it.key {
            assert(items.drop_first()[i - 1] == items[i]);
            assert(seq![items[0]] + items.drop_first().update(i - 1, it) =~= items.update(i, it));
        } else {
            assert(items.drop_first()[i - 1] == items[i]);
            assert(seq![items[0]] + (items.drop_first().take(i - 1) + seq![it]
                + items.drop_first().skip(i - 1)) =~= items.take(i) + seq![it] + items.skip(i));
        }
    }
}


/// `upsert` keeps the keys sorted, draws every element from the old
/// items or the new one, and grows the length by at most one.
pub proof fn lemma_upsert_sorted(items: Seq<ItemV>, it: ItemV)
    requires
        sorted_by_key(items),
    ensures
        sorted_by_key(upsert(items, it)),
        forall|m: int|
            0 <= m < upsert(items, it).len() ==> (#[trigger] upsert(items, it)[m] == it
                || items.contains(upsert(items, it)[m])),
        items.len() <= upsert(items, it).len() <= items.len() + 1,
    decreases items.len(),
{
    let r = upsert(items, it);
    if items.len() == 0 {
    } else if lex_lt(items[0].key, it.key) {
        let df = items.drop_first();
        lemma_upsert_sorted(df, it);
        let rec = upsert(df, it);
        assert(r == seq![items[0]] + rec);
        assert forall|m: int| 0 <= m < r.len() implies (#[trigger] r[m] == it || items.contains(
            r[m],
        )) by {
            if m == 0 {
                assert(r[0] == items[0]);
                assert(items.contains(items[0]));
            } else {
                assert(r[m] == rec[m - 1]);
                if rec[m - 1] != it {
                    let k = choose|k: int| 0 <= k < df.len() && df[k] == rec[m - 1];
                    assert(items[k + 1] == rec[m - 1]);
                    assert(items.contains(items[k + 1]));
                }
            }
        }
        assert forall|a: int, b: int| 0 <= a < b < r.len() implies lex_lt(
            (#[trigger] r[a]).key,
            (#[trigger] r[b]).key,
        ) by {
            if a == 0 {
                assert(r[b] == rec[b - 1]);
                if rec[b - 1] == it {
                } else {
                    let k = choose|k: int| 0 <= k < df.len() && df[k] == rec[b - 1];
                    assert(items[k + 1] == rec[b - 1]);
                    assert(lex_lt(items[0].key, items[k + 1].key));
                }
            } else {
                assert(r[a] == rec[a - 1] && r[b] == rec[b - 1]);
            }
        }
    } else if items[0].key == it.key {
        assert(r == seq![it] + items.drop_first());
        assert forall|m: int| 0 <= m < r.len() implies (#[trigger] r[m] == it || items.contains(
            r[m],
        )) by {
            if m > 0 {
                assert(r[m] == items[m]);
                assert(items.contains(items[m]));
            }
        }
        assert forall|a: int, b: int| 0 <= a < b < r.len() implies lex_lt(
            (#[trigger] r[a]).key,
            (#[trigger] r[b]).key,
        ) by {
            if a == 0 {
                assert(r[b] == items[b]);
                assert(lex_lt(items[0].key, items[b].key));
            } else {
                assert(r[a] == items[a] && r[b] == items[b]);
            }
        }
    } else {
        if !lex_lt(it.key, items[0].key) {
            lemma_lex_total(items[0].key, it.key);
        }
        assert(r == seq![it] + items);
        assert forall|m: int| 0 <= m < r.len() implies (#[trigger] r[m] == it || items.contains(
            r[m],
        )) by {
            if m > 0 {
                assert(r[m] == items[m - 1]);
                assert(items.contains(items[m - 1]));
            }
        }
        assert forall|a: int, b: int| 0 <= a < b < r.len() implies lex_lt(
            (#[trigger] r[a]).key,
            (#[trigger] r[b]).key,
        ) by {
            if a == 0 {
                if b > 1 {
                    lemma_lex_trans(it.key, items[0].key, items[b - 1].key);
                }
            } else {
                assert(r[a] == items[a - 1] && r[b] == items[b - 1]);
            }
        }
    }
}


/// After `upsert`, the new entry stands in the items; every other entry
/// is an old one with a different key, and old entries with other keys
/// survive.
pub proof fn lemma_upsert_found(items: Seq<ItemV>, it: ItemV)
    requires
        sorted_by_key(items),
    ensures
        exists|i: int| 0 <= i < upsert(items, it).len() && #[trigger] upsert(items, it)[i] == it,
        forall|i: int|
            0 <= i < items.len() && (#[trigger] items[i]).key != it.key ==> upsert(
                items,
                it,
            ).contains(items[i]),
        forall|i: int|
            0 <= i < upsert(items, it).len() ==> (#[trigger] upsert(items, it)[i] == it || (
            items.contains(upsert(items, it)[i]) && upsert(items, it)[i].key != it.key)),
    decreases items.len(),
{
    let r = upsert(items, it);
    if items.len() == 0 {
        assert(r[0] == it);
    } else if lex_lt(items[0].key, it.key) {
        let df = items.drop_first();
        assert(sorted_by_key(df)) by {
            assert forall|x: int, y: int|
                0 <= x < y < df.len() implies lex_lt(
                (#[trigger] df[x]).key,
                (#[trigger] df[y]).key,
            ) by {
                assert(df[x] == items[x + 1] && df[y] == items[y + 1]);
            }
        }
        lemma_upsert_found(df, it);
        let rec = upsert(df, it);
        assert(r == seq![items[0]] + rec);
        let w = choose|i: int| 0 <= i < rec.len() && rec[i] == it;
        assert(r[w + 1] == it);
        assert forall|i: int|
            0 <= i < items.len() && (#[trigger] items[i]).key != it.key implies r.contains(
            items[i],
        ) by {
            if i == 0 {
                assert(r[0] == items[0]);
            } else {
                assert(df[i - 1] == items[i]);
                assert(rec.contains(df[i - 1]));
                let j = choose|j: int| 0 <= j < rec.len() && rec[j] == df[i - 1];
                assert(r[j + 1] == items[i]);
            }
        }
        assert forall|i: int|
            0 <= i < r.len() implies (#[trigger] r[i] == it || (items.contains(r[i]) && r[i].key
            != it.key)) by {
            if i == 0 {
                assert(r[0] == items[0]);
                assert(items.contains(items[0]));
                lemma_lex_irrefl(it.key);
            } else {
                assert(r[i] == rec[i - 1]);
                if rec[i - 1] != it {
                    let j = choose|j: int| 0 <= j < df.len() && df[j] == rec[i - 1];
                    assert(items[j + 1] == rec[i - 1]);
                    assert(items.contains(items[j + 1]));
                }
            }
        }
    } else if items[0].key == it.key {
        assert(r == seq![it] + items.drop_first());
        assert(r[0] == it);
        assert forall|i: int|
            0 <= i < items.len() && (#[trigger] items[i]).key != it.key implies r.contains(
            items[i],
        ) by {
            if i > 0 {
                assert(r[i] == items[i]);
            }
        }
        assert forall|i: int|
            0 <= i < r.len() implies (#[trigger] r[i] == it || (items.contains(r[i]) && r[i].key
            != it.key)) by {
            if i > 0 {
                assert(r[i] == items[i]);
                assert(items.contains(items[i]));
                assert(lex_lt(items[0].key, items[i].key));
                lemma_lex_irrefl(items[i].key);
            }
        }
    } else {
        assert(r == seq![it] + items);
        assert(r[0] == it);
        if !lex_lt(it.key, items[0].key) {
            lemma_lex_total(items[0].key, it.key);
        }
        assert forall|i: int|
            0 <= i < items.len() && (#[trigger] items[i]).key != it.key implies r.contains(
            items[i],
        ) by {
            assert(r[i + 1] == items[i]);
        }
        assert forall|i: int|
            0 <= i < r.len() implies (#[trigger] r[i] == it || (items.contains(r[i]) && r[i].key
            != it.key)) by {
            if i > 0 {
                assert(r[i] == items[i - 1]);
                assert(items.contains(items[i - 1]));
                if i == 1 {
                    lemma_lex_irrefl(it.key);
                } else {
                    lemma_lex_trans(it.key, items[0].key, items[i - 1].key);
                    lemma_lex_irrefl(it.key);
                }
            }
        }
    }
}

/// Add one item to a sorted vector, or replace the entry with the same
/// key, realizing `upsert`.
pub(crate) fn upsert_items(items: &mut Vec<SafeItem>, item: SafeItem)
    requires
        sorted_by_key(views_of(old(items)@)),
    ensures
        views_of(final(items)@) == upsert(views_of(old(items)@), item@),
{
    let ghost it = item@;
    let ghost old_items = views_of(items@);
    let n = items.len();
    let mut i: usize = 0;
    while i < n && str_lt_str(items[i].key.as_str(), item.key.as_str())
        invariant
            0 <= i <= n,
            n == items@.len(),
            items == old(items),
            it == item@,
            forall|j: int|
                0 <= j < i ==> lex_lt((#[trigger] views_of(items@)[j]).key, it.key),
        decreases n - i,
    {
        proof {
            assert(views_of(items@)[i as int].key == items@[i as int]@.key);
        }
        i = i + 1;
    }
    proof {
        lemma_upsert_at(old_items, it, i as int);
    }
    if i == n {
        items.push(item);
        proof {
            assert(views_of(items@) =~= old_items.push(it));
        }
    } else if str_eq_str(items[i].key.as_str(), item.key.as_str()) {
        items.remove(i);
        items.insert(i, item);
        proof {
            assert(views_of(items@) =~= old_items.update(i as int, it));
        }
    } else {
        proof {
            if !lex_lt(it.key, old_items[i as int].key) {
                lemma_lex_total(old_items[i as int].key, it.key);
            }
        }
        items.insert(i, item);
        proof {
            assert(views_of(items@) =~= old_items.take(i as int) + seq![it] + old_items.skip(
                i as int,
            ));
        }
    }
}

/// The characters of an optional password, empty when absent.
pub open spec fn old_pw_view(p: Option<&String>) -> Seq<char> {
    match p {
        Option::Some(p) => p@,
        Option::None => Seq::empty(),
    }
}

/// An encrypted item that no plaintext explains under this password:
/// opening it must fail.
pub open spec fn undecryptable(it: ItemV, pw: Seq<char>) -> bool {
    it.is_encrypted && forall|pt: Seq<char>| !crypto::is_envelope_for(it.value, pw, pt)
}

/// How one item looks after rotation: same name and kind; an encrypted
/// value is replaced by an envelope of the same plaintext under the new
/// password, a plain value is untouched.
pub open spec fn rotated_item(oi: ItemV, ni: ItemV, old_pw: Seq<char>, new_pw: Seq<char>) -> bool {
    &&& ni.key == oi.key
    &&& ni.is_encrypted == oi.is_encrypted
    &&& if oi.is_encrypted {
        exists|pt: Seq<char>|
            crypto::is_envelope_for(oi.value, old_pw, pt) && crypto::is_envelope_for(
                ni.value,
                new_pw,
                pt,
            )
    } else {
        ni.value == oi.value
    }
}

/// The whole-safe rotation relation: metadata kept, the password hash
/// replaced by one the new password verifies against, and every item
/// rotated in place.
pub open spec fn rotated_rel(
    old: SafeV,
    new: SafeV,
    old_pw: Seq<char>,
    new_pw: Seq<char>,
) -> bool {
    &&& new.items.len() == old.items.len()
    &&& forall|i: int|
        0 <= i < old.items.len() ==> rotated_item(
            #[trigger] old.items[i],
            #[trigger] new.items[i],
            old_pw,
            new_pw,
        )
    &&& crypto::phc_verifies(new_pw, new.password_hash)
    &&& new.version == old.version
    &&& new.uuid == old.uuid
    &&& new.description == old.description
    &&& new.created == old.created
    &&& new.updated == old.updated
    &&& new.ssm_prefix == old.ssm_prefix
    &&& new.ssm_region == old.ssm_region
}

/// Rotating twice leaves every item readable only through the latest
/// password: each encrypted value is an envelope, under the newest
/// password, of the very plaintext the original held, and the newest
/// password verifies against the final hash. Whether the discarded
/// passwords can still open anything is a question of key collisions,
/// which no contract here decides.
pub proof fn lemma_rotate_twice(
    a: SafeV,
    b: SafeV,
    c: SafeV,
    pw0: Seq<char>,
    pw1: Seq<char>,
    pw2: Seq<char>,
)
    requires
        rotated_rel(a, b, pw0, pw1),
        rotated_rel(b, c, pw1, pw2),
    ensures
        c.items.len() == a.items.len(),
        forall|i: int|
            0 <= i < a.items.len() ==> rotated_item(
                #[trigger] a.items[i],
                #[trigger] c.items[i],
                pw0,
                pw2,
            ),
        crypto::phc_verifies(pw2, c.password_hash),
        c.version == a.version && c.uuid == a.uuid && c.created == a.created,
{
    assert forall|i: int|
        0 <= i < a.items.len() implies rotated_item(
        #[trigger] a.items[i],
        #[trigger] c.items[i],
        pw0,
        pw2,
    ) by {
        let ai = a.items[i];
        let bi = b.items[i];
        let ci = c.items[i];
        assert(rotated_item(ai, bi, pw0, pw1));
        assert(rotated_item(bi, ci, pw1, pw2));
        if ai.is_encrypted {
            let pt1 = choose|pt: Seq<char>|
                crypto::is_envelope_for(ai.value, pw0, pt) && crypto::is_envelope_for(
                    bi.value,
                    pw1,
                    pt,
                );
            let pt2 = choose|pt: Seq<char>|
                crypto::is_envelope_for(bi.value, pw1, pt) && crypto::is_envelope_for(
                    ci.value,
                    pw2,
                    pt,
                );
            let (s1, n1) = choose|s1: Seq<u8>, n1: Seq<u8>|
                crypto::is_envelope(bi.value, pw1, s1, n1, pt1);
            let (s2, n2) = choose|s2: Seq<u8>, n2: Seq<u8>|
                crypto::is_envelope(bi.value, pw1, s2, n2, pt2);
            assert(bi.value == crypto::envelope_body(pw1, s2, n2, pt2));
            assert(pt2 == pt1);
            assert(crypto::is_envelope_for(ai.value, pw0, pt1) && crypto::is_envelope_for(
                ci.value,
                pw2,
                pt1,
            ));
        }
    }
}

/// Copy an optional string.
fn clone_opt(o: &Option<String>) -> (r: Option<String>)
    ensures
        (match o {
            Option::Some(p) => r matches Some(q) && q@ == p@,
            Option::None => r is None,
        }),
{
    match o {
        Option::Some(p) => Some(p.clone()),
        Option::None => None,
    }
}

/// A string of the envelope's textual shape is a well-formed, stable
/// encrypted value.
pub proof fn lemma_envelope_text_item(env: Seq<char>)
    requires
        crypto::envelope_text_wf(env),
    ensures
        item_value_wf(env),
        starts_with(env, "ENC~"@),
        classify_value(env) == (true, env),
{
    reveal_strlit("ENC~v1~");
    reveal_strlit("ENC~");
    reveal_strlit("v1~");
    assert(env.len() >= 7);
    assert(env.subrange(0, 7) == "ENC~v1~"@);
    assert forall|i: int| 0 <= i < 7 implies env[i] == "ENC~v1~"@[i] by {
        assert(env.subrange(0, 7)[i] == env[i]);
    }
    assert(env[0] == 'E' && env[1] == 'N' && env[2] == 'C' && env[3] == '~' && env[4] == 'v'
        && env[5] == '1' && env[6] == '~');
    assert(starts_with(env, "ENC~"@)) by {
        assert(env.subrange(0, 4) =~= "ENC~"@);
    }
    assert(item_value_wf(env)) by {
        assert forall|i: int| 0 <= i < env.len() implies #[trigger] env[i] != '\n' by {
            if i < 7 {
            } else {
                assert(crypto::is_b64_char(env[i]));
            }
        }
        assert(!is_ws(env[0]));
        if env.len() > 7 {
            assert(crypto::is_b64_char(env.last()));
            assert(!is_ws(env.last()));
        } else {
            assert(env.last() == '~');
        }
    }
    let rest = env.skip(4);
    assert(starts_with(rest, "v1~"@)) by {
        assert(rest.subrange(0, 3) =~= "v1~"@);
    }
    assert(classify_value(env) == (true, env));
}

/// The predicate that removal filters with: keep the items whose key is
/// another one.
pub open spec fn key_differs(key: Seq<char>) -> spec_fn(ItemV) -> bool {
    |it: ItemV| it.key != key
}

/// Every element of a filtered item sequence stands in the original,
/// and filtering keeps the strict key order.
pub proof fn lemma_filter_items(items: Seq<ItemV>, pred: spec_fn(ItemV) -> bool)
    ensures
        forall|a: int|
            0 <= a < items.filter(pred).len() ==> exists|b: int|
                0 <= b < items.len() && items[b] == #[trigger] items.filter(pred)[a],
        sorted_by_key(items) ==> sorted_by_key(items.filter(pred)),
    decreases items.len(),
{
    reveal(Seq::filter);
    if items.len() > 0 {
        let dl = items.drop_last();
        lemma_filter_items(dl, pred);
        let out = items.filter(pred);
        let sub = dl.filter(pred);
        assert forall|a: int|
            0 <= a < out.len() implies exists|b: int|
            0 <= b < items.len() && items[b] == #[trigger] out[a] by {
            if pred(items.last()) && a == out.len() - 1 {
                assert(items[items.len() - 1] == out[a]);
            } else {
                assert(out[a] == sub[a]);
                let b = choose|b: int| 0 <= b < dl.len() && dl[b] == sub[a];
                assert(items[b] == out[a]);
            }
        }
        if sorted_by_key(items) {
            assert(sorted_by_key(dl)) by {
                assert forall|x: int, y: int|
                    0 <= x < y < dl.len() implies lex_lt(
                    (#[trigger] dl[x]).key,
                    (#[trigger] dl[y]).key,
                ) by {
                    assert(dl[x] == items[x] && dl[y] == items[y]);
                }
            }
            assert forall|x: int, y: int|
                0 <= x < y < out.len() implies lex_lt(
                (#[trigger] out[x]).key,
                (#[trigger] out[y]).key,
            ) by {
                if pred(items.last()) && y == out.len() - 1 && out.len() == sub.len() + 1 {
                    assert(out[x] == sub[x]);
                    let b = choose|b: int| 0 <= b < dl.len() && dl[b] == sub[x];
                    assert(lex_lt(items[b].key, items.last().key));
                } else {
                    assert(out[x] == sub[x] && out[y] == sub[y]);
                }
            }
        }
    }
}

/// Relies on `chrono::Utc::now` formatted as `%Y-%m-%d %H:%M:%S UTC`:
/// whatever the clock reads, the text is non-empty, on one line, and has
/// no whitespace at either end.
#[verifier::external_body]
pub fn now_utc_string() -> (r: String)
    ensures
        r@.len() > 0,
        !is_ws(r@[0]),
        !is_ws(r@.last()),
        forall|i: int| 0 <= i < r@.len() ==> #[trigger] r@[i] != '\n',
{
    chrono::Utc::now().format("%Y-%m-%d %H:%M:%S UTC").to_string()
}

/// Relies on `uuid::Uuid::new_v4` and its `Display`: a hyphenated
/// identifier of hexadecimal digits and dashes, never empty and never
/// holding whitespace.
#[verifier::external_body]
pub fn new_uuid_string() -> (r: String)
    ensures
        r@.len() > 0,
        forall|i: int| 0 <= i < r@.len() ==> !is_ws(#[trigger] r@[i]),
{
    uuid::Uuid::new_v4().to_string()
}

impl Safe {
    /// The invariant, seen from the executable side.
    pub open spec fn wf(&self) -> bool {
        self@.wf()
    }

    /// Look an item up by its exact name.
    pub fn find_item(&self, key: &str) -> (r: Option<&SafeItem>)
        ensures
            match r {
                Option::Some(it) => it@.key == key@ && exists|i: int|
                    0 <= i < self@.items.len() && #[trigger] self@.items[i] == it@,
                Option::None => forall|i: int|
                    0 <= i < self@.items.len() ==> (#[trigger] self@.items[i]).key != key@,
            },
    {
        let n = self.items.len();
        let mut i: usize = 0;
        while i < n
            invariant
                0 <= i <= n,
                n == self.items@.len(),
                forall|j: int| 0 <= j < i ==> (#[trigger] self@.items[j]).key != key@,
            decreases n - i,
        {
            let it = &self.items[i];
            if str_eq_str(it.key.as_str(), key) {
                assert(self@.items[i as int] == it@);
                return Some(it);
            }
            i = i + 1;
        }
        None
    }

    /// Add a new item or replace the one with the same name, keeping
    /// items sorted by name.
    pub fn add_or_update_item(&mut self, key: String, value: String, is_encrypted: bool)
        requires
            old(self).wf(),
            item_wf((ItemV { key: key@, value: value@, is_encrypted })),
        ensures
            final(self).wf(),
            final(self)@.items == upsert(
                old(self)@.items,
                (ItemV { key: key@, value: value@, is_encrypted }),
            ),
            final(self)@ == (SafeV { items: final(self)@.items, ..old(self)@ }),
    {
        let ghost it = ItemV { key: key@, value: value@, is_encrypted };
        let ghost old_items = self@.items;
        proof {
            lemma_upsert_sorted(old_items, it);
        }
        let item = SafeItem { key, value, is_encrypted };
        upsert_items(&mut self.items, item);
        proof {
            assert(self@ == SafeV { items: self@.items, ..old(self)@ });
            assert forall|m: int| 0 <= m < self@.items.len() implies item_wf(
                #[trigger] self@.items[m],
            ) by {
                if self@.items[m] != it {
                    let k = choose|k: int| 0 <= k < old_items.len() && old_items[k]
                        == self@.items[m];
                    assert(item_wf(old_items[k]));
                }
            }
        }
    }

    /// Parse the textual form of a safe. Exactly the line-oriented
    /// grammar of `crate::codec::parse_spec`; the error carries the line
    /// number or the missing field.
    pub fn parse(content: &str) -> (r: Result<Safe, SkitError>)
        ensures
            match r {
                Ok(s) => crate::codec::parse_spec(content@) == Ok::<
                    SafeV,
                    crate::errors::ParseIssue,
                >(s@) && s.wf(),
                Err(e) => match e {
                    SkitError::ParseError(pi) => crate::codec::parse_spec(content@) == Err::<
                        SafeV,
                        crate::errors::ParseIssue,
                    >(pi),
                    _ => false,
                },
            },
    {
        crate::codec::parse_safe(content)
    }

    /// Write the safe out as text, refreshing the updated timestamp to
    /// `now`.
    pub fn serialize(&self, now: &str) -> (r: String)
        ensures
            r@ == crate::codec::serialize_spec(self@, now@),
    {
        crate::codec::serialize_safe(self, now)
    }

    /// Create a fresh safe: a new identifier, both timestamps set to the
    /// same current instant, no items, and the password stored only as
    /// its hash.
    pub fn new_with_password(password: &str, description: &str) -> (r: Result<Safe, SkitError>)
        requires
            meta_value_wf(description@),
        ensures
            match r {
                Ok(s) => s@.canonical() && s@.items.len() == 0 && crypto::phc_verifies(
                    password@,
                    s@.password_hash,
                ) && s@.version == "1.0"@ && s@.description == description@ && s@.created
                    == s@.updated && s@.ssm_prefix is None && s@.ssm_region is None,
                Err(e) => e == SkitError::Crypto(CryptoError::PasswordHashFailed),
            },
    {
        let hash = match crypto::hash_password(password) {
            Ok(h) => h,
            Err(_) => {
                return Err(SkitError::Crypto(CryptoError::PasswordHashFailed));
            },
        };
        let now = now_utc_string();
        let created = now.clone();
        let uuid = new_uuid_string();
        let safe = Safe {
            version: String::from_str("1.0"),
            uuid,
            description: String::from_str(description),
            created,
            updated: now,
            password_hash: hash,
            ssm_prefix: None,
            ssm_region: None,
            items: Vec::new(),
        };
        proof {
            reveal_strlit("1.0");
            assert(meta_value_wf(safe@.version)) by {
                assert(safe@.version.len() == 3);
                assert(safe@.version.last() == '0');
                assert forall|i: int| 0 <= i < 3 implies #[trigger] safe@.version[i] != '\n' by {
                    if i == 0 {
                        assert(safe@.version[0] == '1');
                    } else if i == 1 {
                        assert(safe@.version[1] == '.');
                    } else {
                        assert(safe@.version[2] == '0');
                    }
                }
            }
            assert(meta_value_wf(safe@.uuid));
            assert(meta_value_wf(safe@.password_hash));
            assert(views_of(safe.items@) =~= Seq::<ItemV>::empty());
        }
        Ok(safe)
    }

    /// Replace the safe's credentials: every encrypted value is opened
    /// with the old password and sealed again under the new one with
    /// fresh salts and nonces, the password hash is replaced, and
    /// everything else is kept. Any single failure to decrypt aborts the
    /// whole rotation before anything is changed.
    pub fn rotate(&self, old_password: Option<&String>, new_password: &str) -> (r: Result<
        Safe,
        SkitError,
    >)
        requires
            self.wf(),
            self@.has_encrypted() ==> old_password is Some,
        ensures
            match r {
                Ok(ns) => crate::password::password_policy(new_password@) == Ok::<
                    (),
                    crate::errors::PolicyViolation,
                >(()) && ns@.canonical() && rotated_rel(
                    self@,
                    ns@,
                    old_pw_view(old_password),
                    new_password@,
                ),
                Err(e) => match e {
                    SkitError::WeakPassword(v) => crate::password::password_policy(new_password@)
                        == Err::<(), crate::errors::PolicyViolation>(v),
                    SkitError::Crypto(ce) => crate::password::password_policy(new_password@)
                        == Ok::<(), crate::errors::PolicyViolation>(()) && (ce
                        == CryptoError::PasswordHashFailed || ((ce == CryptoError::DecryptionFailed
                        || ce == CryptoError::InvalidFormat) && exists|i: int|
                        0 <= i < self@.items.len() && undecryptable(
                            #[trigger] self@.items[i],
                            old_pw_view(old_password),
                        ))),
                    _ => false,
                },
            },
    {
        if let Err(e) = crate::password::validate_password_strength(new_password) {
            return Err(e);
        }
        let new_hash = match crypto::hash_password(new_password) {
            Ok(h) => h,
            Err(_) => {
                return Err(SkitError::Crypto(CryptoError::PasswordHashFailed));
            },
        };
        let n = self.items.len();
        let mut new_items: Vec<SafeItem> = Vec::new();
        let ghost old_pw = old_pw_view(old_password);
        let mut idx: usize = 0;
        while idx < n
            invariant
                0 <= idx <= n,
                n == self.items@.len(),
                self.wf(),
                self@.has_encrypted() ==> old_password is Some,
                old_pw == old_pw_view(old_password),
                crate::password::password_policy(new_password@) == Ok::<
                    (),
                    crate::errors::PolicyViolation,
                >(()),
                new_items@.len() == idx,
                forall|m: int|
                    0 <= m < idx ==> rotated_item(
                        self@.items[m],
                        (#[trigger] views_of(new_items@)[m]),
                        old_pw,
                        new_password@,
                    ),
                forall|m: int|
                    0 <= m < idx ==> item_wf(#[trigger] views_of(new_items@)[m]) && item_canonical(
                        views_of(new_items@)[m],
                    ),
                forall|m: int|
                    0 <= m < idx ==> (#[trigger] views_of(new_items@)[m]).key == self@.items[m].key,
            decreases n - idx,
        {
            let it = &self.items[idx];
            let ghost pre_views = views_of(new_items@);
            proof {
                assert(self@.items[idx as int] == it@);
                assert(item_wf(self@.items[idx as int]));
            }
            if it.is_encrypted {
                let old_pw_str = match old_password {
                    Option::Some(p) => p,
                    Option::None => {
                        // an encrypted item in hand means the old password was required
                        proof {
                            assert(self@.items[idx as int].is_encrypted);
                            assert(self@.has_encrypted());
                            assert(false);
                        }
                        return Err(SkitError::Crypto(CryptoError::DecryptionFailed));
                    },
                };
                proof {
                    assert(old_pw == old_pw_str@);
                }
                let pt = match crypto::decrypt_value_with_salt(
                    it.value.as_str(),
                    old_pw_str.as_str(),
                ) {
                    Ok(p) => p,
                    Err(ce) => {
                        proof {
                            assert(undecryptable(
                                self@.items[idx as int],
                                old_pw_view(old_password),
                            ));
                            assert(exists|i: int|
                                0 <= i < self@.items.len() && undecryptable(
                                    #[trigger] self@.items[i],
                                    old_pw_view(old_password),
                                ));
                        }
                        return Err(SkitError::Crypto(ce));
                    },
                };
                proof {
                    let (s2, n2) = choose|s2: Seq<u8>, n2: Seq<u8>|
                        crypto::is_envelope(it.value@, old_pw, s2, n2, pt@);
                    crypto::lemma_utf8_len(pt@);
                }
                let enc = match crypto::encrypt_value_with_salt(new_password, pt.as_str()) {
                    Ok(env) => env,
                    Err(_) => {
                        return Err(SkitError::Crypto(CryptoError::EncryptionFailed));
                    },
                };
                proof {
                    lemma_envelope_text_item(enc@);
                }
                let nk = it.key.clone();
                new_items.push(SafeItem { key: nk, value: enc, is_encrypted: true });
                proof {
                    let ghost ni = ItemV { key: it@.key, value: enc@, is_encrypted: true };
                    assert(views_of(new_items@) =~= pre_views.push(ni));
                    assert(item_wf(ni));
                    assert(item_canonical(ni));
                    assert(rotated_item(self@.items[idx as int], ni, old_pw, new_password@)) by {
                        assert(crypto::is_envelope_for(it.value@, old_pw, pt@));
                        assert(crypto::is_envelope_for(enc@, new_password@, pt@));
                    }
                }
            } else {
                new_items.push(it.clone());
                proof {
                    assert(views_of(new_items@) =~= pre_views.push(it@));
                    assert(item_canonical(it@));
                    assert(rotated_item(self@.items[idx as int], it@, old_pw, new_password@));
                }
            }
            proof {
                assert(views_of(new_items@).len() == idx + 1);
                assert forall|m: int| 0 <= m < idx implies views_of(new_items@)[m]
                    == pre_views[m] by {}
            }
            idx = idx + 1;
        }
        let ns = Safe {
            version: self.version.clone(),
            uuid: self.uuid.clone(),
            description: self.description.clone(),
            created: self.created.clone(),
            updated: self.updated.clone(),
            password_hash: new_hash,
            ssm_prefix: clone_opt(&self.ssm_prefix),
            ssm_region: clone_opt(&self.ssm_region),
            items: new_items,
        };
        proof {
            assert forall|a: int, b: int|
                0 <= a < b < ns@.items.len() implies lex_lt(
                (#[trigger] ns@.items[a]).key,
                (#[trigger] ns@.items[b]).key,
            ) by {
                assert(ns@.items[a].key == self@.items[a].key);
                assert(ns@.items[b].key == self@.items[b].key);
            }
            assert(ns@.canonical());
            assert(rotated_rel(self@, ns@, old_pw, new_password@));
        }
        Ok(ns)
    }

    /// Remove the item with the given name; say whether one was there.
    pub fn remove_item(&mut self, key: &str) -> (r: bool)
        requires
            old(self).wf(),
        ensures
            final(self).wf(),
            final(self)@ == (SafeV { items: final(self)@.items, ..old(self)@ }),
            final(self)@.items == old(self)@.items.filter(key_differs(key@)),
            r == (exists|i: int|
                0 <= i < old(self)@.items.len() && (#[trigger] old(self)@.items[i]).key == key@),
    {
        let ghost old_items = self@.items;
        let ghost pred = key_differs(key@);
        let n = self.items.len();
        let mut i: usize = 0;
        let mut found = false;
        let mut out: Vec<SafeItem> = Vec::new();
        proof {
            reveal(Seq::filter);
            assert(old_items.take(0) =~= Seq::<ItemV>::empty());
            assert(views_of(out@) =~= Seq::<ItemV>::empty());
        }
        while i < n
            invariant
                0 <= i <= n,
                n == self.items@.len(),
                self == old(self),
                old_items == self@.items,
                pred == key_differs(key@),
                views_of(out@) == old_items.take(i as int).filter(pred),
                found == (exists|m: int|
                    0 <= m < i && (#[trigger] old_items[m]).key == key@),
            decreases n - i,
        {
            let it = &self.items[i];
            proof {
                assert(old_items.take(i + 1).drop_last() =~= old_items.take(i as int));
                assert(old_items.take(i + 1).last() == old_items[i as int]);
                assert(old_items[i as int] == it@);
                reveal(Seq::filter);
            }
            let ghost pre = views_of(out@);
            if str_eq_str(it.key.as_str(), key) {
                found = true;
                proof {
                    assert(!pred(old_items[i as int]));
                    assert(old_items.take(i + 1).filter(pred) == pre);
                }
            } else {
                out.push(it.clone());
                proof {
                    assert(pred(old_items[i as int]));
                    assert(views_of(out@) =~= pre.push(it@));
                    assert(old_items.take(i + 1).filter(pred) == pre.push(old_items[i as int]));
                }
            }
            i = i + 1;
        }
        proof {
            assert(old_items.take(n as int) =~= old_items);
        }
        self.items = out;
        proof {
            let new_items = self@.items;
            assert(new_items == old_items.filter(pred));
            lemma_filter_items(old_items, pred);
            assert forall|a: int| 0 <= a < new_items.len() implies item_wf(
                #[trigger] new_items[a],
            ) by {
                let b = choose|b: int| 0 <= b < old_items.len() && old_items[b] == new_items[a];
                assert(item_wf(old_items[b]));
            }
            assert(sorted_by_key(old_items));
            assert(sorted_by_key(new_items));
        }
        found
    }

    /// Whether any item is encrypted.
    pub fn has_encrypted_item(&self) -> (r: bool)
        ensures
            r == self@.has_encrypted(),
    {
        let n = self.items.len();
        let mut i: usize = 0;
        while i < n
            invariant
                0 <= i <= n,
                n == self.items@.len(),
                forall|j: int| 0 <= j < i ==> !(#[trigger] self@.items[j]).is_encrypted,
            decreases n - i,
        {
            if self.items[i].is_encrypted {
                proof {
                    assert(self@.items[i as int].is_encrypted);
                }
                return true;
            }
            i = i + 1;
        }
        false
    }

    /// Check a password against the safe's stored password hash.
    pub fn verify_password(&self, password: &str) -> (r: Result<(), SkitError>)
        ensures
            r is Ok <==> crypto::phc_verifies(password@, self@.password_hash),
            r is Err ==> r == Result::<(), SkitError>::Err(
                SkitError::InvalidPassword(PasswordSource::Caller),
            ),
    {
        match crypto::verify_password(password, self.password_hash.as_str()) {
            Ok(()) => Ok(()),
            Err(_) => Err(SkitError::InvalidPassword(PasswordSource::Caller)),
        }
    }
}

} // verus!
