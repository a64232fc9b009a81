use vstd::prelude::*;

use crate::chars::find_char;
use crate::chars::find_char_str;
use crate::chars::is_ws;
use crate::chars::lemma_find_char;
use crate::chars::lemma_find_char_is;
use crate::chars::lemma_trim_noop;
use crate::chars::lemma_trim_ends_not_ws;
use crate::chars::lemma_trim_head;
use crate::chars::lemma_trim_is_subrange;
use crate::chars::lex_lt;
use crate::chars::starts_with;
use crate::chars::starts_with_str;
use crate::chars::str_eq_str;
use crate::chars::trim;
use crate::chars::trim_str;
use crate::errors::ParseIssue;
use crate::errors::ParseIssueKind;
use crate::errors::SkitError;
use crate::safe::classify_value;
use crate::safe::item_key_wf;
use crate::safe::item_value_wf;
use crate::safe::item_wf;
use crate::safe::lemma_upsert_sorted;
use crate::safe::meta_value_wf;
use crate::safe::opt_meta_wf;
use crate::safe::sorted_by_key;
use crate::safe::upsert;
use crate::safe::upsert_items;
use crate::safe::views_of;
use crate::safe::ItemV;
use crate::safe::Safe;
use crate::safe::SafeItem;
use crate::safe::SafeV;

verus! {

/// What a parse has gathered so far: metadata fields (empty means not
/// seen yet) and the items read.
pub struct PStateV {
    pub version: Seq<char>,
    pub uuid: Seq<char>,
    pub description: Seq<char>,
    pub created: Seq<char>,
    pub updated: Seq<char>,
    pub password_hash: Seq<char>,
    pub ssm_prefix: Option<Seq<char>>,
    pub ssm_region: Option<Seq<char>>,
    pub items: Seq<ItemV>,
}

pub open spec fn init_pstate() -> PStateV {
    PStateV {
        version: Seq::empty(),
        uuid: Seq::empty(),
        description: Seq::empty(),
        created: Seq::empty(),
        updated: Seq::empty(),
        password_hash: Seq::empty(),
        ssm_prefix: None,
        ssm_region: None,
        items: Seq::empty(),
    }
}

/// The lines of a text, split at every newline.
pub open spec fn split_lines(s: Seq<char>) -> Seq<Seq<char>>
    decreases s.len(),
{
    match find_char(s, '\n') {
        Option::None => seq![s],
        Option::Some(i) => if 0 <= i < s.len() {
            seq![s.take(i)] + split_lines(s.skip(i + 1))
        } else {
            seq![s]
        },
    }
}

/// One metadata line updates the field it names; unrecognized fields are
/// ignored for forward compatibility.
pub open spec fn apply_meta(st: PStateV, field: Seq<char>, value: Seq<char>) -> PStateV {
    if field == "VERSION"@ {
        PStateV { version: value, ..st }
    } else if field == "UUID"@ {
        PStateV { uuid: value, ..st }
    } else if field == "DESCRIPTION"@ {
        PStateV { description: value, ..st }
    } else if field == "CREATED"@ {
        PStateV { created: value, ..st }
    } else if field == "UPDATED"@ {
        PStateV { updated: value, ..st }
    } else if field == "PASS_HASH"@ {
        PStateV { password_hash: value, ..st }
    } else if field == "SSM_PREFIX"@ {
        PStateV { ssm_prefix: Some(value), ..st }
    } else if field == "SSM_REGION"@ {
        PStateV { ssm_region: Some(value), ..st }
    } else {
        st
    }
}

/// How one line, the `k`-th (0-based), transforms the parse state:
/// blank lines and plain comments are skipped, metadata lines update
/// their field, `KEY=VALUE` lines add an item, and anything else is a
/// line-numbered error.
pub open spec fn process_line_spec(st: PStateV, line: Seq<char>, k: int) -> Result<
    PStateV,
    ParseIssue,
> {
    let t = trim(line);
    if t.len() == 0 {
        Ok(st)
    } else if starts_with(t, "#@"@) {
        match find_char(t, '=') {
            Option::None => Ok(st),
            Option::Some(e) => Ok(apply_meta(st, t.subrange(2, e), t.skip(e + 1))),
        }
    } else if t[0] == '#' {
        Ok(st)
    } else {
        match find_char(t, '=') {
            Option::None => Err(
                ParseIssue { line: (k + 1) as usize, kind: ParseIssueKind::InvalidLine },
            ),
            Option::Some(e) => {
                let key = trim(t.take(e));
                if key.len() == 0 {
                    Err(ParseIssue { line: (k + 1) as usize, kind: ParseIssueKind::EmptyKey })
                } else {
                    let cv = classify_value(trim(t.skip(e + 1)));
                    Ok(
                        PStateV {
                            items: upsert(
                                st.items,
                                ItemV { key: key, value: cv.1, is_encrypted: cv.0 },
                            ),
                            ..st
                        },
                    )
                }
            },
        }
    }
}

/// Folding `process_line_spec` over the remaining lines.
pub open spec fn parse_rest(lines: Seq<Seq<char>>, st: PStateV, k: int) -> Result<
    PStateV,
    ParseIssue,
>
    decreases lines.len(),
{
    if lines.len() == 0 {
        Ok(st)
    } else {
        match process_line_spec(st, lines[0], k) {
            Ok(st2) => parse_rest(lines.drop_first(), st2, k + 1),
            Err(e) => Err(e),
        }
    }
}

/// The whole file is rejected when a required metadata field never
/// appeared; the password hash is checked first.
pub open spec fn finalize_spec(st: PStateV) -> Result<SafeV, ParseIssue> {
    if st.password_hash.len() == 0 {
        Err(ParseIssue { line: 0, kind: ParseIssueKind::MissingPassHash })
    } else if st.version.len() == 0 {
        Err(ParseIssue { line: 0, kind: ParseIssueKind::MissingVersion })
    } else if st.uuid.len() == 0 {
        Err(ParseIssue { line: 0, kind: ParseIssueKind::MissingUuid })
    } else if st.description.len() == 0 {
        Err(ParseIssue { line: 0, kind: ParseIssueKind::MissingDescription })
    } else if st.created.len() == 0 {
        Err(ParseIssue { line: 0, kind: ParseIssueKind::MissingCreated })
    } else if st.updated.len() == 0 {
        Err(ParseIssue { line: 0, kind: ParseIssueKind::MissingUpdated })
    } else {
        Ok(
            SafeV {
                version: st.version,
                uuid: st.uuid,
                description: st.description,
                created: st.created,
                updated: st.updated,
                password_hash: st.password_hash,
                ssm_prefix: st.ssm_prefix,
                ssm_region: st.ssm_region,
                items: st.items,
            },
        )
    }
}

/// What parsing a safe file yields: line by line, then the whole-file
/// checks.
pub open spec fn parse_spec(content: Seq<char>) -> Result<SafeV, ParseIssue> {
    match parse_rest(split_lines(content), init_pstate(), 0) {
        Ok(st) => finalize_spec(st),
        Err(e) => Err(e),
    }
}

/// One item's line in the file.
pub open spec fn item_line(it: ItemV) -> Seq<char> {
    it.key + seq!['='] + it.value + seq!['\n']
}

/// The item lines, in stored (sorted) order.
pub open spec fn items_text(items: Seq<ItemV>) -> Seq<char>
    decreases items.len(),
{
    if items.len() == 0 {
        Seq::empty()
    } else {
        item_line(items[0]) + items_text(items.drop_first())
    }
}

/// An optional metadata line.
pub open spec fn opt_line(tag: Seq<char>, v: Option<Seq<char>>) -> Seq<char> {
    match v {
        Option::Some(p) => tag + p + seq!['\n'],
        Option::None => Seq::empty(),
    }
}

/// The fixed-order metadata block, with the updated field refreshed to
/// `now`.
pub open spec fn serialize_meta(sv: SafeV, now: Seq<char>) -> Seq<char> {
    "#@VERSION="@ + sv.version + seq!['\n'] + "#@UUID="@ + sv.uuid + seq!['\n']
        + "#@DESCRIPTION="@ + sv.description + seq!['\n'] + "#@CREATED="@ + sv.created
        + seq!['\n'] + "#@UPDATED="@ + now + seq!['\n'] + "#@PASS_HASH="@ + sv.password_hash
        + seq!['\n'] + opt_line("#@SSM_PREFIX="@, sv.ssm_prefix) + opt_line(
        "#@SSM_REGION="@,
        sv.ssm_region,
    )
}

/// The full text a save writes: metadata, then every item.
pub open spec fn serialize_spec(sv: SafeV, now: Seq<char>) -> Seq<char> {
    serialize_meta(sv, now) + items_text(sv.items)
}

pub proof fn lemma_items_text_snoc(items: Seq<ItemV>, i: int)
    requires
        0 <= i < items.len(),
    ensures
        items_text(items.take(i + 1)) == items_text(items.take(i)) + item_line(items[i]),
    decreases i,
{
    if i == 0 {
        assert(items.take(1) =~= seq![items[0]]);
        assert(items.take(1).drop_first() =~= Seq::<ItemV>::empty());
        assert(items.take(0) =~= Seq::<ItemV>::empty());
        assert(item_line(items[0]) + Seq::<char>::empty() =~= item_line(items[0]));
        assert(Seq::<char>::empty() + item_line(items[0]) =~= item_line(items[0]));
    } else {
        lemma_items_text_snoc(items.drop_first(), i - 1);
        assert(items.take(i + 1)[0] == items[0]);
        assert(items.take(i)[0] == items[0]);
        assert(items.take(i + 1).drop_first() =~= items.drop_first().take(i));
        assert(items.take(i).drop_first() =~= items.drop_first().take(i - 1));
        assert(items.drop_first()[i - 1] == items[i]);
        assert(item_line(items[0]) + (items_text(items.drop_first().take(i - 1)) + item_line(
            items[i],
        )) =~= (item_line(items[0]) + items_text(items.drop_first().take(i - 1))) + item_line(
            items[i],
        ));
    }
}

/// Write the safe out as text, with the updated timestamp refreshed to
/// `now`.
pub fn serialize_safe(safe: &Safe, now: &str) -> (r: String)
    ensures
        r@ == serialize_spec(safe@, now@),
{
    let mut out = String::new();
    out.append("#@VERSION=");
    out.append(safe.version.as_str());
    out.append("\n");
    out.append("#@UUID=");
    out.append(safe.uuid.as_str());
    out.append("\n");
    out.append("#@DESCRIPTION=");
    out.append(safe.description.as_str());
    out.append("\n");
    out.append("#@CREATED=");
    out.append(safe.created.as_str());
    out.append("\n");
    out.append("#@UPDATED=");
    out.append(now);
    out.append("\n");
    out.append("#@PASS_HASH=");
    out.append(safe.password_hash.as_str());
    out.append("\n");
    match &safe.ssm_prefix {
        Option::Some(p) => {
            out.append("#@SSM_PREFIX=");
            out.append(p.as_str());
            out.append("\n");
        },
        Option::None => {},
    }
    match &safe.ssm_region {
        Option::Some(rg) => {
            out.append("#@SSM_REGION=");
            out.append(rg.as_str());
            out.append("\n");
        },
        Option::None => {},
    }
    proof {
        reveal_strlit("\n");
        assert("\n"@ =~= seq!['\n']);
        assert(out@ =~= serialize_meta(safe@, now@));
    }
    let ghost meta = out@;
    let n = safe.items.len();
    let mut idx: usize = 0;
    while idx < n
        invariant
            0 <= idx <= n,
            n == safe.items@.len(),
            out@ == meta + items_text(safe@.items.take(idx as int)),
        decreases n - idx,
    {
        let it = &safe.items[idx];
        out.append(it.key.as_str());
        out.append("=");
        out.append(it.value.as_str());
        out.append("\n");
        proof {
            reveal_strlit("\n");
            reveal_strlit("=");
            lemma_items_text_snoc(safe@.items, idx as int);
            assert(safe@.items[idx as int] == it@);
            assert(out@ =~= meta + items_text(safe@.items.take(idx + 1)));
        }
        idx = idx + 1;
    }
    proof {
        assert(safe@.items.take(n as int) =~= safe@.items);
    }
    out
}

/// A metadata field as parsing leaves it: possibly still unset (empty),
/// otherwise on one line with no trailing whitespace.
pub open spec fn meta_field_ok(s: Seq<char>) -> bool {
    &&& forall|i: int| 0 <= i < s.len() ==> #[trigger] s[i] != '\n'
    &&& s.len() > 0 ==> !is_ws(s.last())
}

/// The parse state's invariant, kept from line to line.
pub open spec fn pstate_wf(st: PStateV) -> bool {
    &&& meta_field_ok(st.version)
    &&& meta_field_ok(st.uuid)
    &&& meta_field_ok(st.description)
    &&& meta_field_ok(st.created)
    &&& meta_field_ok(st.updated)
    &&& meta_field_ok(st.password_hash)
    &&& opt_meta_wf(st.ssm_prefix)
    &&& opt_meta_wf(st.ssm_region)
    &&& sorted_by_key(st.items)
    &&& forall|i: int| 0 <= i < st.items.len() ==> item_wf(#[trigger] st.items[i])
}

/// Classification keeps a well-formed value well-formed, and tags it
/// exactly by the envelope prefix.
pub proof fn lemma_classify_wf(v: Seq<char>)
    requires
        item_value_wf(v),
    ensures
        item_value_wf(classify_value(v).1),
        classify_value(v).0 <==> starts_with(classify_value(v).1, "ENC~"@),
        classify_value(v).0 == starts_with(v, "ENC~"@),
{
    reveal_strlit("ENC~");
    if starts_with(v, "ENC~"@) {
        let rest = v.skip(4);
        if starts_with(rest, "v1~"@) {
        } else {
            match find_char(rest, '~') {
                Option::Some(p) => {
                    lemma_find_char(rest, '~');
                    let nv = "ENC~"@ + rest.skip(p + 1);
                    assert(starts_with(nv, "ENC~"@)) by {
                        assert(nv.subrange(0, 4) =~= "ENC~"@);
                    }
                    assert forall|i: int| 0 <= i < nv.len() implies #[trigger] nv[i] != '\n' by {
                        if i >= 4 {
                            assert(nv[i] == v[i + p + 1]);
                        }
                    }
                    assert(!is_ws(nv[0]));
                    if rest.skip(p + 1).len() > 0 {
                        assert(nv.last() == v.last());
                    } else {
                        assert(nv.last() == '~');
                    }
                },
                Option::None => {},
            }
        }
    }
}

/// Processing one newline-free line keeps the parse state's invariant.
pub proof fn lemma_process_line_wf(st: PStateV, line: Seq<char>, k: int)
    requires
        pstate_wf(st),
        forall|i: int| 0 <= i < line.len() ==> #[trigger] line[i] != '\n',
    ensures
        match process_line_spec(st, line, k) {
            Ok(st2) => pstate_wf(st2),
            Err(_) => true,
        },
{
    let t = trim(line);
    lemma_trim_is_subrange(line);
    let (la, lb) = choose|la: int, lb: int|
        0 <= la <= lb <= line.len() && trim(line) == #[trigger] line.subrange(la, lb);
    assert(forall|i: int| 0 <= i < t.len() ==> #[trigger] t[i] != '\n');
    lemma_trim_ends_not_ws(line);
    if t.len() == 0 {
    } else if starts_with(t, "#@"@) {
        match find_char(t, '=') {
            Option::None => {},
            Option::Some(e) => {
                lemma_find_char(t, '=');
                let value = t.skip(e + 1);
                assert(meta_field_ok(value)) by {
                    assert(forall|i: int|
                        0 <= i < value.len() ==> #[trigger] value[i] == t[i + e + 1]);
                    if value.len() > 0 {
                        assert(value.last() == t.last());
                    }
                }
            },
        }
    } else if t[0] == '#' {
    } else {
        match find_char(t, '=') {
            Option::None => {},
            Option::Some(e) => {
                lemma_find_char(t, '=');
                let key = trim(t.take(e));
                if key.len() == 0 {
                } else {
                    assert(item_key_wf(key)) by {
                        lemma_trim_is_subrange(t.take(e));
                        let (ka, kb) = choose|ka: int, kb: int|
                            0 <= ka <= kb <= t.take(e).len() && trim(t.take(e)) == #[trigger] t.take(
                                e,
                            ).subrange(ka, kb);
                        assert(forall|i: int|
                            0 <= i < key.len() ==> #[trigger] key[i] == t[i + ka]);
                        assert(forall|i: int| 0 <= i < key.len() ==> #[trigger] key[i] != '\n');
                        assert(forall|i: int| 0 <= i < key.len() ==> #[trigger] key[i] != '=');
                        lemma_trim_ends_not_ws(t.take(e));
                        if e > 0 {
                            assert(t.take(e)[0] == t[0]);
                            assert(!is_ws(t[0]));
                            lemma_trim_head(t.take(e));
                            assert(key[0] == t[0]);
                        } else {
                            assert(t.take(0) =~= Seq::<char>::empty());
                        }
                    }
                    let v = trim(t.skip(e + 1));
                    assert(item_value_wf(v)) by {
                        lemma_trim_is_subrange(t.skip(e + 1));
                        let (va, vb) = choose|va: int, vb: int|
                            0 <= va <= vb <= t.skip(e + 1).len() && trim(t.skip(e + 1)) == #[trigger] t.skip(
                                e + 1,
                            ).subrange(va, vb);
                        assert(forall|i: int|
                            0 <= i < v.len() ==> #[trigger] v[i] == t[i + va + e + 1]);
                        lemma_trim_ends_not_ws(t.skip(e + 1));
                    }
                    lemma_classify_wf(v);
                    let cv = classify_value(v);
                    let it = ItemV { key: key, value: cv.1, is_encrypted: cv.0 };
                    assert(item_wf(it));
                    lemma_upsert_sorted(st.items, it);
                    let r = upsert(st.items, it);
                    assert forall|i: int| 0 <= i < r.len() implies item_wf(#[trigger] r[i]) by {
                        if r[i] != it {
                            let m = choose|m: int|
                                0 <= m < st.items.len() && st.items[m] == r[i];
                            assert(item_wf(st.items[m]));
                        }
                    }
                }
            },
        }
    }
}

/// What a parse holds while walking the file, executably.
struct ParseSt {
    version: String,
    uuid: String,
    description: String,
    created: String,
    updated: String,
    password_hash: String,
    ssm_prefix: Option<String>,
    ssm_region: Option<String>,
    items: Vec<SafeItem>,
}

impl View for ParseSt {
    type V = PStateV;

    closed spec fn view(&self) -> PStateV {
        PStateV {
            version: self.version@,
            uuid: self.uuid@,
            description: self.description@,
            created: self.created@,
            updated: self.updated@,
            password_hash: self.password_hash@,
            ssm_prefix: match self.ssm_prefix {
                Option::Some(p) => Some(p@),
                Option::None => None,
            },
            ssm_region: match self.ssm_region {
                Option::Some(r) => Some(r@),
                Option::None => None,
            },
            items: views_of(self.items@),
        }
    }
}

impl ParseSt {
    fn new() -> (r: Self)
        ensures
            r@ == init_pstate(),
    {
        let st = ParseSt {
            version: String::new(),
            uuid: String::new(),
            description: String::new(),
            created: String::new(),
            updated: String::new(),
            password_hash: String::new(),
            ssm_prefix: None,
            ssm_region: None,
            items: Vec::new(),
        };
        proof {
            assert(views_of(st.items@) =~= Seq::<ItemV>::empty());
            assert(st@.version =~= Seq::<char>::empty());
            assert(st@.uuid =~= Seq::<char>::empty());
            assert(st@.description =~= Seq::<char>::empty());
            assert(st@.created =~= Seq::<char>::empty());
            assert(st@.updated =~= Seq::<char>::empty());
            assert(st@.password_hash =~= Seq::<char>::empty());
        }
        st
    }
}

/// Classify one stored value, rewriting the legacy envelope shape.
fn classify_exec(v: String) -> (r: (bool, String))
    ensures
        r.0 == classify_value(v@).0,
        r.1@ == classify_value(v@).1,
{
    proof {
        reveal_strlit("ENC~");
        reveal_strlit("v1~");
    }
    let len = v.as_str().unicode_len();
    if starts_with_str(v.as_str(), "ENC~") {
        let rest = v.as_str().substring_char(4, len);
        proof {
            assert(rest@ =~= v@.skip(4));
        }
        if starts_with_str(rest, "v1~") {
            (true, v)
        } else {
            match find_char_str(rest, '~') {
                Option::Some(p) => {
                    let restlen = rest.unicode_len();
                    proof {
                        lemma_find_char(rest@, '~');
                    }
                    let mut nv = String::from_str("ENC~");
                    nv.append(rest.substring_char(p + 1, restlen));
                    proof {
                        assert(rest@.subrange(p + 1, restlen as int) =~= rest@.skip(p + 1));
                    }
                    (true, nv)
                },
                Option::None => (true, v),
            }
        }
    } else {
        (false, v)
    }
}

/// Store one recognized metadata field.
fn apply_meta_exec(st: ParseSt, field: &str, value: &str) -> (r: ParseSt)
    ensures
        r@ == apply_meta(st@, field@, value@),
{
    if str_eq_str(field, "VERSION") {
        ParseSt { version: String::from_str(value), ..st }
    } else if str_eq_str(field, "UUID") {
        ParseSt { uuid: String::from_str(value), ..st }
    } else if str_eq_str(field, "DESCRIPTION") {
        ParseSt { description: String::from_str(value), ..st }
    } else if str_eq_str(field, "CREATED") {
        ParseSt { created: String::from_str(value), ..st }
    } else if str_eq_str(field, "UPDATED") {
        ParseSt { updated: String::from_str(value), ..st }
    } else if str_eq_str(field, "PASS_HASH") {
        ParseSt { password_hash: String::from_str(value), ..st }
    } else if str_eq_str(field, "SSM_PREFIX") {
        ParseSt { ssm_prefix: Some(String::from_str(value)), ..st }
    } else if str_eq_str(field, "SSM_REGION") {
        ParseSt { ssm_region: Some(String::from_str(value)), ..st }
    } else {
        st
    }
}

/// Process one line of the file.
fn process_line(st: ParseSt, line: &str, k: usize) -> (r: Result<ParseSt, ParseIssue>)
    requires
        k < usize::MAX || trim(line@).len() == 0,
        sorted_by_key(st@.items),
    ensures
        match r {
            Ok(st2) => process_line_spec(st@, line@, k as int) == Ok::<PStateV, ParseIssue>(st2@),
            Err(e) => process_line_spec(st@, line@, k as int) == Err::<PStateV, ParseIssue>(e),
        },
{
    proof {
        reveal_strlit("#@");
    }
    let t_owned = trim_str(line);
    let t = t_owned.as_str();
    let tlen = t.unicode_len();
    if tlen == 0 {
        return Ok(st);
    }
    if starts_with_str(t, "#@") {
        match find_char_str(t, '=') {
            Option::None => Ok(st),
            Option::Some(e) => {
                proof {
                    lemma_find_char(t@, '=');
                    assert(t@.subrange(0, 2)[0] == t@[0]);
                    assert(t@.subrange(0, 2)[1] == t@[1]);
                    assert(t@[0] == '#' && t@[1] == '@');
                }
                let field = t.substring_char(2, e);
                let value = t.substring_char(e + 1, tlen);
                proof {
                    assert(field@ =~= t@.subrange(2, e as int));
                    assert(value@ =~= t@.skip(e + 1));
                }
                Ok(apply_meta_exec(st, field, value))
            },
        }
    } else if t.get_char(0) == '#' {
        Ok(st)
    } else {
        match find_char_str(t, '=') {
            Option::None => Err(ParseIssue { line: k + 1, kind: ParseIssueKind::InvalidLine }),
            Option::Some(e) => {
                proof {
                    lemma_find_char(t@, '=');
                }
                let key = trim_str(t.substring_char(0, e));
                proof {
                    assert(t@.subrange(0, e as int) =~= t@.take(e as int));
                }
                if key.as_str().unicode_len() == 0 {
                    Err(ParseIssue { line: k + 1, kind: ParseIssueKind::EmptyKey })
                } else {
                    let value = trim_str(t.substring_char(e + 1, tlen));
                    proof {
                        assert(t@.subrange(e + 1, tlen as int) =~= t@.skip(e + 1));
                    }
                    let cv = classify_exec(value);
                    let ghost it = ItemV {
                        key: key@,
                        value: classify_value(trim(t@.skip(e as int + 1))).1,
                        is_encrypted: classify_value(trim(t@.skip(e as int + 1))).0,
                    };
                    let mut st2 = st;
                    let item = SafeItem { key, value: cv.1, is_encrypted: cv.0 };
                    proof {
                        assert(item@ == it);
                    }
                    upsert_items(&mut st2.items, item);
                    proof {
                        assert(st2@ == PStateV { items: upsert(st@.items, it), ..st@ });
                    }
                    Ok(st2)
                }
            },
        }
    }
}

/// One newline inside the text splits off one line.
pub proof fn lemma_split_lines_step(s: Seq<char>, start: int, i: int)
    requires
        0 <= start <= i < s.len(),
        s[i] == '\n',
        forall|j: int| start <= j < i ==> s[j] != '\n',
    ensures
        split_lines(s.skip(start)) == seq![s.subrange(start, i)] + split_lines(s.skip(i + 1)),
{
    let t = s.skip(start);
    lemma_find_char(t, '\n');
    assert(t[i - start] == '\n');
    match find_char(t, '\n') {
        Option::None => {
            assert(false);
        },
        Option::Some(f) => {
            if f < i - start {
                assert(t[f] == s[f + start]);
                assert(false);
            }
            if f > i - start {
                assert(false);
            }
            assert(f == i - start);
            assert(t.take(f) =~= s.subrange(start, i));
            assert(t.skip(f + 1) =~= s.skip(i + 1));
        },
    }
}

/// After the last newline, the remainder is the final line.
pub proof fn lemma_split_lines_last(s: Seq<char>, start: int)
    requires
        0 <= start <= s.len(),
        forall|j: int| start <= j < s.len() ==> s[j] != '\n',
    ensures
        split_lines(s.skip(start)) == seq![s.subrange(start, s.len() as int)],
{
    let t = s.skip(start);
    lemma_find_char(t, '\n');
    match find_char(t, '\n') {
        Option::None => {
            assert(t =~= s.subrange(start, s.len() as int));
        },
        Option::Some(f) => {
            assert(t[f] == s[f + start]);
            assert(false);
        },
    }
}

/// The lines a serialized safe's items occupy, one per item, without
/// their newlines.
pub open spec fn item_lines(items: Seq<ItemV>) -> Seq<Seq<char>> {
    Seq::new(items.len(), |i: int| items[i].key + seq!['='] + items[i].value)
}

/// Splitting peels off a newline-free first line.
proof fn lemma_split_concat(l: Seq<char>, rest: Seq<char>)
    requires
        forall|i: int| 0 <= i < l.len() ==> #[trigger] l[i] != '\n',
    ensures
        split_lines(l + seq!['\n'] + rest) == seq![l] + split_lines(rest),
{
    let s = l + seq!['\n'] + rest;
    assert(s[l.len() as int] == '\n');
    assert forall|j: int| 0 <= j < l.len() implies s[j] != '\n' by {
        assert(s[j] == l[j]);
    }
    lemma_split_lines_step(s, 0, l.len() as int);
    assert(s.skip(0) =~= s);
    assert(s.subrange(0, l.len() as int) =~= l);
    assert(s.skip(l.len() as int + 1) =~= rest);
}

/// A blank line leaves the parse state unchanged.
proof fn lemma_process_blank(st: PStateV, k: int)
    ensures
        process_line_spec(st, Seq::empty(), k) == Ok::<PStateV, ParseIssue>(st),
{
    assert(trim(Seq::<char>::empty()).len() == 0);
}

/// The item block splits into one line per item plus the empty tail
/// after the final newline.
proof fn lemma_split_items(items: Seq<ItemV>)
    requires
        forall|i: int| 0 <= i < items.len() ==> item_wf(#[trigger] items[i]),
    ensures
        split_lines(items_text(items)) == item_lines(items) + seq![Seq::<char>::empty()],
    decreases items.len(),
{
    if items.len() == 0 {
        assert(split_lines(Seq::<char>::empty()) == seq![Seq::<char>::empty()]);
        assert(item_lines(items) + seq![Seq::<char>::empty()] =~= seq![Seq::<char>::empty()]);
    } else {
        let it = items[0];
        let l = it.key + seq!['='] + it.value;
        assert(item_wf(it));
        assert(items_text(items) =~= l + seq!['\n'] + items_text(items.drop_first()));
        assert forall|i: int| 0 <= i < l.len() implies l[i] != '\n' by {
            if i < it.key.len() {
                assert(l[i] == it.key[i]);
            } else if i == it.key.len() {
                assert(l[i] == '=');
            } else {
                assert(l[i] == it.value[i - it.key.len() - 1]);
            }
        }
        lemma_split_concat(l, items_text(items.drop_first()));
        assert forall|i: int| 0 <= i < items.drop_first().len() implies item_wf(
            #[trigger] items.drop_first()[i],
        ) by {
            assert(items.drop_first()[i] == items[i + 1]);
        }
        lemma_split_items(items.drop_first());
        assert(item_lines(items) =~= seq![l] + item_lines(items.drop_first()));
        assert(seq![l] + (item_lines(items.drop_first()) + seq![Seq::<char>::empty()])
            =~= item_lines(items) + seq![Seq::<char>::empty()]);
    }
}

/// One serialized item line parses back to exactly that item, upserted.
proof fn lemma_process_item_line(st: PStateV, it: ItemV, k: int)
    requires
        item_wf(it),
        crate::safe::item_canonical(it),
    ensures
        process_line_spec(st, it.key + seq!['='] + it.value, k) == Ok::<PStateV, ParseIssue>(
            (PStateV { items: upsert(st.items, it), ..st }),
        ),
{
    let l = it.key + seq!['='] + it.value;
    assert(l[0] == it.key[0]);
    if it.value.len() > 0 {
        assert(l.last() == it.value.last());
    } else {
        assert(l.last() == '=');
    }
    lemma_trim_noop(l);
    assert(!starts_with(l, "#@"@)) by {
        reveal_strlit("#@");
        if starts_with(l, "#@"@) {
            assert(l.subrange(0, 2)[0] == l[0]);
            assert(l[0] == '#');
        }
    }
    assert(l[it.key.len() as int] == '=');
    assert forall|j: int| 0 <= j < it.key.len() implies l[j] != '=' by {
        assert(l[j] == it.key[j]);
    }
    lemma_find_char_is(l, '=', it.key.len() as int);
    let e = it.key.len() as int;
    assert(l.take(e) =~= it.key);
    lemma_trim_noop(it.key);
    assert(l.skip(e + 1) =~= it.value);
    lemma_trim_noop(it.value);
    assert(classify_value(it.value) == (it.is_encrypted, it.value));
    assert(ItemV { key: it.key, value: it.value, is_encrypted: it.is_encrypted } == it);
}

/// Parsing the serialized item lines appends exactly those items.
proof fn lemma_parse_items(st: PStateV, items: Seq<ItemV>, k: int)
    requires
        forall|i: int|
            0 <= i < items.len() ==> item_wf(#[trigger] items[i]) && crate::safe::item_canonical(
                items[i],
            ),
        sorted_by_key(items),
        forall|m: int, j: int|
            0 <= m < st.items.len() && 0 <= j < items.len() ==> lex_lt(
                (#[trigger] st.items[m]).key,
                (#[trigger] items[j]).key,
            ),
    ensures
        parse_rest(item_lines(items) + seq![Seq::<char>::empty()], st, k) == Ok::<
            PStateV,
            ParseIssue,
        >((PStateV { items: st.items + items, ..st })),
    decreases items.len(),
{
    let lines = item_lines(items) + seq![Seq::<char>::empty()];
    if items.len() == 0 {
        assert(lines =~= seq![Seq::<char>::empty()]);
        lemma_process_blank(st, k);
        assert(lines[0] == Seq::<char>::empty());
        assert(lines.drop_first() =~= Seq::<Seq<char>>::empty());
        assert(parse_rest(Seq::<Seq<char>>::empty(), st, k + 1) == Ok::<PStateV, ParseIssue>(st));
        assert(st.items + items =~= st.items);
        assert(PStateV { items: st.items + items, ..st } == st);
    } else {
        let it = items[0];
        lemma_process_item_line(st, it, k);
        crate::safe::lemma_upsert_at(st.items, it, st.items.len() as int);
        let st1 = PStateV { items: st.items.push(it), ..st };
        assert(upsert(st.items, it) == st.items.push(it));
        assert forall|i: int|
            0 <= i < items.drop_first().len() implies item_wf(#[trigger] items.drop_first()[i])
            && crate::safe::item_canonical(items.drop_first()[i]) by {
            assert(items.drop_first()[i] == items[i + 1]);
        }
        assert forall|m: int, j: int|
            0 <= m < st1.items.len() && 0 <= j < items.drop_first().len() implies lex_lt(
            (#[trigger] st1.items[m]).key,
            (#[trigger] items.drop_first()[j]).key,
        ) by {
            assert(items.drop_first()[j] == items[j + 1]);
            if m < st.items.len() {
                assert(st1.items[m] == st.items[m]);
            } else {
                assert(st1.items[m] == it);
                assert(lex_lt(items[0].key, items[j + 1].key));
            }
        }
        assert(sorted_by_key(items.drop_first())) by {
            assert forall|a: int, b: int|
                0 <= a < b < items.drop_first().len() implies lex_lt(
                (#[trigger] items.drop_first()[a]).key,
                (#[trigger] items.drop_first()[b]).key,
            ) by {
                assert(items.drop_first()[a] == items[a + 1]);
                assert(items.drop_first()[b] == items[b + 1]);
            }
        }
        lemma_parse_items(st1, items.drop_first(), k + 1);
        assert(lines[0] == it.key + seq!['='] + it.value);
        assert(lines.drop_first() =~= item_lines(items.drop_first()) + seq![
            Seq::<char>::empty(),
        ]) by {
            assert forall|i: int|
                0 <= i < lines.drop_first().len() implies lines.drop_first()[i] == (item_lines(
                items.drop_first(),
            ) + seq![Seq::<char>::empty()])[i] by {
                if i < items.drop_first().len() {
                    assert(items.drop_first()[i] == items[i + 1]);
                }
            }
        }
        assert(st1.items + items.drop_first() =~= st.items + items);
        assert(PStateV { items: st1.items + items.drop_first(), ..st1 } == PStateV {
            items: st.items + items,
            ..st
        });
    }
}

/// Scanning a range of a sequence for tag characters: neither `=` nor
/// whitespace. Written recursively so that a bounded unfolding settles
/// it on a literal.
spec fn tag_scan(s: Seq<char>, i: int, end: int) -> bool
    decreases end - i,
{
    if i < 0 || i >= end || i >= s.len() {
        true
    } else {
        s[i] != '=' && !is_ws(s[i]) && tag_scan(s, i + 1, end)
    }
}

proof fn lemma_tag_scan(s: Seq<char>, i: int, end: int)
    requires
        0 <= i,
        end <= s.len(),
        tag_scan(s, i, end),
    ensures
        forall|j: int| i <= j < end ==> #[trigger] s[j] != '=' && !is_ws(s[j]),
    decreases end - i,
{
    if i < end {
        lemma_tag_scan(s, i + 1, end);
    }
}

/// Element-wise comparison from an index on, recursively, so that a
/// bounded unfolding settles equality of two literals.
spec fn seq_eq_from(a: Seq<char>, b: Seq<char>, i: int) -> bool
    decreases a.len() - i,
{
    if i < 0 || i >= a.len() || i >= b.len() {
        true
    } else {
        a[i] == b[i] && seq_eq_from(a, b, i + 1)
    }
}

proof fn lemma_seq_eq_from(a: Seq<char>, b: Seq<char>)
    requires
        a.len() == b.len(),
        seq_eq_from(a, b, 0),
    ensures
        a == b,
{
    lemma_seq_eq_rec(a, b, 0);
    assert(a =~= b);
}

proof fn lemma_seq_eq_rec(a: Seq<char>, b: Seq<char>, i: int)
    requires
        0 <= i,
        a.len() == b.len(),
        seq_eq_from(a, b, i),
    ensures
        forall|j: int| i <= j < a.len() ==> a[j] == b[j],
    decreases a.len() - i,
{
    if i < a.len() {
        lemma_seq_eq_rec(a, b, i + 1);
    }
}

/// One metadata line, with its tag of the fixed shape, parses to the
/// corresponding field update.
proof fn lemma_process_meta_line(st: PStateV, tag: Seq<char>, value: Seq<char>, k: int)
    requires
        tag.len() >= 3,
        tag[0] == '#',
        tag[1] == '@',
        tag.last() == '=',
        forall|i: int| 0 <= i < tag.len() - 1 ==> #[trigger] tag[i] != '=',
        forall|i: int| 0 <= i < tag.len() ==> !is_ws(#[trigger] tag[i]),
        forall|i: int| 0 <= i < value.len() ==> #[trigger] value[i] != '\n',
        value.len() > 0 ==> !is_ws(value.last()),
    ensures
        process_line_spec(st, tag + value, k) == Ok::<PStateV, ParseIssue>(
            apply_meta(st, tag.subrange(2, tag.len() - 1), value),
        ),
        forall|i: int| 0 <= i < (tag + value).len() ==> #[trigger] (tag + value)[i] != '\n',
{
    let l = tag + value;
    assert forall|i: int| 0 <= i < l.len() implies #[trigger] l[i] != '\n' by {
        if i < tag.len() {
            assert(l[i] == tag[i]);
        } else {
            assert(l[i] == value[i - tag.len()]);
        }
    }
    assert(l[0] == tag[0]);
    if value.len() > 0 {
        assert(l.last() == value.last());
    } else {
        assert(l.last() == tag.last());
    }
    lemma_trim_noop(l);
    assert(starts_with(l, "#@"@)) by {
        reveal_strlit("#@");
        assert(l[1] == tag[1]);
        assert(l.subrange(0, 2) =~= "#@"@);
    }
    let e = tag.len() - 1;
    assert(l[e] == tag[e] && tag[e] == '=');
    assert forall|j: int| 0 <= j < e implies l[j] != '=' by {
        assert(l[j] == tag[j]);
    }
    lemma_find_char_is(l, '=', e);
    assert(l.subrange(2, e) =~= tag.subrange(2, e));
    assert(l.skip(e + 1) =~= value);
}

/// A serialized `VERSION` line parses back to that field update.
proof fn lemma_meta_version(st: PStateV, v: Seq<char>, k: int)
    requires
        forall|i: int| 0 <= i < v.len() ==> #[trigger] v[i] != '\n',
        v.len() > 0 ==> !is_ws(v.last()),
    ensures
        process_line_spec(st, "#@VERSION="@ + v, k) == Ok::<PStateV, ParseIssue>(
            (PStateV { version: v, ..st }),
        ),
        forall|i: int|
            0 <= i < ("#@VERSION="@ + v).len() ==> #[trigger] ("#@VERSION="@ + v)[i] != '\n',
{
    let tag = "#@VERSION="@;
    reveal_strlit("#@VERSION=");
    reveal_strlit("VERSION");
    assert(tag.len() == 10);
    assert(tag_scan(tag, 0, 9)) by {
        reveal_with_fuel(tag_scan, 11);
    }
    lemma_tag_scan(tag, 0, 9);
    assert(tag[9] == '=');
    assert forall|i: int| 0 <= i < tag.len() implies !is_ws(#[trigger] tag[i]) by {
        if i == 9 {
            assert(tag[9] == '=');
        }
    }
    lemma_process_meta_line(st, tag, v, k);
    assert(tag.subrange(2, 9).len() == "VERSION"@.len());
    assert(seq_eq_from(tag.subrange(2, 9), "VERSION"@, 0)) by {
        reveal_with_fuel(seq_eq_from, 9);
    }
    lemma_seq_eq_from(tag.subrange(2, 9), "VERSION"@);
}

/// A serialized `UUID` line parses back to that field update.
proof fn lemma_meta_uuid(st: PStateV, v: Seq<char>, k: int)
    requires
        forall|i: int| 0 <= i < v.len() ==> #[trigger] v[i] != '\n',
        v.len() > 0 ==> !is_ws(v.last()),
    ensures
        process_line_spec(st, "#@UUID="@ + v, k) == Ok::<PStateV, ParseIssue>(
            (PStateV { uuid: v, ..st }),
        ),
        forall|i: int|
            0 <= i < ("#@UUID="@ + v).len() ==> #[trigger] ("#@UUID="@ + v)[i] != '\n',
{
    let tag = "#@UUID="@;
    reveal_strlit("#@UUID=");
    reveal_strlit("UUID");
    assert(tag.len() == 7);
    assert(tag_scan(tag, 0, 6)) by {
        reveal_with_fuel(tag_scan, 8);
    }
    lemma_tag_scan(tag, 0, 6);
    assert(tag[6] == '=');
    assert forall|i: int| 0 <= i < tag.len() implies !is_ws(#[trigger] tag[i]) by {
        if i == 6 {
            assert(tag[6] == '=');
        }
    }
    lemma_process_meta_line(st, tag, v, k);
    assert(tag.subrange(2, 6).len() == "UUID"@.len());
    assert(seq_eq_from(tag.subrange(2, 6), "UUID"@, 0)) by {
        reveal_with_fuel(seq_eq_from, 6);
    }
    lemma_seq_eq_from(tag.subrange(2, 6), "UUID"@);
    reveal_strlit("VERSION");
    assert("VERSION"@.len() == 7);
    assert("UUID"@ != "VERSION"@);
}

/// A serialized `DESCRIPTION` line parses back to that field update.
proof fn lemma_meta_description(st: PStateV, v: Seq<char>, k: int)
    requires
        forall|i: int| 0 <= i < v.len() ==> #[trigger] v[i] != '\n',
        v.len() > 0 ==> !is_ws(v.last()),
    ensures
        process_line_spec(st, "#@DESCRIPTION="@ + v, k) == Ok::<PStateV, ParseIssue>(
            (PStateV { description: v, ..st }),
        ),
        forall|i: int|
            0 <= i < ("#@DESCRIPTION="@ + v).len() ==> #[trigger] ("#@DESCRIPTION="@ + v)[i] != '\n',
{
    let tag = "#@DESCRIPTION="@;
    reveal_strlit("#@DESCRIPTION=");
    reveal_strlit("DESCRIPTION");
    assert(tag.len() == 14);
    assert(tag_scan(tag, 0, 13)) by {
        reveal_with_fuel(tag_scan, 15);
    }
    lemma_tag_scan(tag, 0, 13);
    assert(tag[13] == '=');
    assert forall|i: int| 0 <= i < tag.len() implies !is_ws(#[trigger] tag[i]) by {
        if i == 13 {
            assert(tag[13] == '=');
        }
    }
    lemma_process_meta_line(st, tag, v, k);
    assert(tag.subrange(2, 13).len() == "DESCRIPTION"@.len());
    assert(seq_eq_from(tag.subrange(2, 13), "DESCRIPTION"@, 0)) by {
        reveal_with_fuel(seq_eq_from, 13);
    }
    lemma_seq_eq_from(tag.subrange(2, 13), "DESCRIPTION"@);
    reveal_strlit("VERSION");
    assert("VERSION"@.len() == 7);
    assert("DESCRIPTION"@ != "VERSION"@);
    reveal_strlit("UUID");
    assert("UUID"@.len() == 4);
    assert("DESCRIPTION"@ != "UUID"@);
}

/// A serialized `CREATED` line parses back to that field update.
proof fn lemma_meta_created(st: PStateV, v: Seq<char>, k: int)
    requires
        forall|i: int| 0 <= i < v.len() ==> #[trigger] v[i] != '\n',
        v.len() > 0 ==> !is_ws(v.last()),
    ensures
        process_line_spec(st, "#@CREATED="@ + v, k) == Ok::<PStateV, ParseIssue>(
            (PStateV { created: v, ..st }),
        ),
        forall|i: int|
            0 <= i < ("#@CREATED="@ + v).len() ==> #[trigger] ("#@CREATED="@ + v)[i] != '\n',
{
    let tag = "#@CREATED="@;
    reveal_strlit("#@CREATED=");
    reveal_strlit("CREATED");
    assert(tag.len() == 10);
    assert(tag_scan(tag, 0, 9)) by {
        reveal_with_fuel(tag_scan, 11);
    }
    lemma_tag_scan(tag, 0, 9);
    assert(tag[9] == '=');
    assert forall|i: int| 0 <= i < tag.len() implies !is_ws(#[trigger] tag[i]) by {
        if i == 9 {
            assert(tag[9] == '=');
        }
    }
    lemma_process_meta_line(st, tag, v, k);
    assert(tag.subrange(2, 9).len() == "CREATED"@.len());
    assert(seq_eq_from(tag.subrange(2, 9), "CREATED"@, 0)) by {
        reveal_with_fuel(seq_eq_from, 9);
    }
    lemma_seq_eq_from(tag.subrange(2, 9), "CREATED"@);
    reveal_strlit("VERSION");
    assert("CREATED"@[0] == 'C' && "VERSION"@[0] == 'V');
    assert("CREATED"@ != "VERSION"@);
    reveal_strlit("UUID");
    assert("UUID"@.len() == 4);
    assert("CREATED"@ != "UUID"@);
    reveal_strlit("DESCRIPTION");
    assert("DESCRIPTION"@.len() == 11);
    assert("CREATED"@ != "DESCRIPTION"@);
}

/// A serialized `UPDATED` line parses back to that field update.
proof fn lemma_meta_updated(st: PStateV, v: Seq<char>, k: int)
    requires
        forall|i: int| 0 <= i < v.len() ==> #[trigger] v[i] != '\n',
        v.len() > 0 ==> !is_ws(v.last()),
    ensures
        process_line_spec(st, "#@UPDATED="@ + v, k) == Ok::<PStateV, ParseIssue>(
            (PStateV { updated: v, ..st }),
        ),
        forall|i: int|
            0 <= i < ("#@UPDATED="@ + v).len() ==> #[trigger] ("#@UPDATED="@ + v)[i] != '\n',
{
    let tag = "#@UPDATED="@;
    reveal_strlit("#@UPDATED=");
    reveal_strlit("UPDATED");
    assert(tag.len() == 10);
    assert(tag_scan(tag, 0, 9)) by {
        reveal_with_fuel(tag_scan, 11);
    }
    lemma_tag_scan(tag, 0, 9);
    assert(tag[9] == '=');
    assert forall|i: int| 0 <= i < tag.len() implies !is_ws(#[trigger] tag[i]) by {
        if i == 9 {
            assert(tag[9] == '=');
        }
    }
    lemma_process_meta_line(st, tag, v, k);
    assert(tag.subrange(2, 9).len() == "UPDATED"@.len());
    assert(seq_eq_from(tag.subrange(2, 9), "UPDATED"@, 0)) by {
        reveal_with_fuel(seq_eq_from, 9);
    }
    lemma_seq_eq_from(tag.subrange(2, 9), "UPDATED"@);
    reveal_strlit("VERSION");
    assert("UPDATED"@[0] == 'U' && "VERSION"@[0] == 'V');
    assert("UPDATED"@ != "VERSION"@);
    reveal_strlit("UUID");
    assert("UUID"@.len() == 4);
    assert("UPDATED"@ != "UUID"@);
    reveal_strlit("DESCRIPTION");
    assert("DESCRIPTION"@.len() == 11);
    assert("UPDATED"@ != "DESCRIPTION"@);
    reveal_strlit("CREATED");
    assert("UPDATED"@[0] == 'U' && "CREATED"@[0] == 'C');
    assert("UPDATED"@ != "CREATED"@);
}

/// A serialized `PASS_HASH` line parses back to that field update.
proof fn lemma_meta_pass_hash(st: PStateV, v: Seq<char>, k: int)
    requires
        forall|i: int| 0 <= i < v.len() ==> #[trigger] v[i] != '\n',
        v.len() > 0 ==> !is_ws(v.last()),
    ensures
        process_line_spec(st, "#@PASS_HASH="@ + v, k) == Ok::<PStateV, ParseIssue>(
            (PStateV { password_hash: v, ..st }),
        ),
        forall|i: int|
            0 <= i < ("#@PASS_HASH="@ + v).len() ==> #[trigger] ("#@PASS_HASH="@ + v)[i] != '\n',
{
    let tag = "#@PASS_HASH="@;
    reveal_strlit("#@PASS_HASH=");
    reveal_strlit("PASS_HASH");
    assert(tag.len() == 12);
    assert(tag_scan(tag, 0, 11)) by {
        reveal_with_fuel(tag_scan, 13);
    }
    lemma_tag_scan(tag, 0, 11);
    assert(tag[11] == '=');
    assert forall|i: int| 0 <= i < tag.len() implies !is_ws(#[trigger] tag[i]) by {
        if i == 11 {
            assert(tag[11] == '=');
        }
    }
    lemma_process_meta_line(st, tag, v, k);
    assert(tag.subrange(2, 11).len() == "PASS_HASH"@.len());
    assert(seq_eq_from(tag.subrange(2, 11), "PASS_HASH"@, 0)) by {
        reveal_with_fuel(seq_eq_from, 11);
    }
    lemma_seq_eq_from(tag.subrange(2, 11), "PASS_HASH"@);
    reveal_strlit("VERSION");
    assert("VERSION"@.len() == 7);
    assert("PASS_HASH"@ != "VERSION"@);
    reveal_strlit("UUID");
    assert("UUID"@.len() == 4);
    assert("PASS_HASH"@ != "UUID"@);
    reveal_strlit("DESCRIPTION");
    assert("DESCRIPTION"@.len() == 11);
    assert("PASS_HASH"@ != "DESCRIPTION"@);
    reveal_strlit("CREATED");
    assert("CREATED"@.len() == 7);
    assert("PASS_HASH"@ != "CREATED"@);
    reveal_strlit("UPDATED");
    assert("UPDATED"@.len() == 7);
    assert("PASS_HASH"@ != "UPDATED"@);
}

/// A serialized `SSM_PREFIX` line parses back to that field update.
proof fn lemma_meta_ssm_prefix(st: PStateV, v: Seq<char>, k: int)
    requires
        forall|i: int| 0 <= i < v.len() ==> #[trigger] v[i] != '\n',
        v.len() > 0 ==> !is_ws(v.last()),
    ensures
        process_line_spec(st, "#@SSM_PREFIX="@ + v, k) == Ok::<PStateV, ParseIssue>(
            (PStateV { ssm_prefix: Some(v), ..st }),
        ),
        forall|i: int|
            0 <= i < ("#@SSM_PREFIX="@ + v).len() ==> #[trigger] ("#@SSM_PREFIX="@ + v)[i] != '\n',
{
    let tag = "#@SSM_PREFIX="@;
    reveal_strlit("#@SSM_PREFIX=");
    reveal_strlit("SSM_PREFIX");
    assert(tag.len() == 13);
    assert(tag_scan(tag, 0, 12)) by {
        reveal_with_fuel(tag_scan, 14);
    }
    lemma_tag_scan(tag, 0, 12);
    assert(tag[12] == '=');
    assert forall|i: int| 0 <= i < tag.len() implies !is_ws(#[trigger] tag[i]) by {
        if i == 12 {
            assert(tag[12] == '=');
        }
    }
    lemma_process_meta_line(st, tag, v, k);
    assert(tag.subrange(2, 12).len() == "SSM_PREFIX"@.len());
    assert(seq_eq_from(tag.subrange(2, 12), "SSM_PREFIX"@, 0)) by {
        reveal_with_fuel(seq_eq_from, 12);
    }
    lemma_seq_eq_from(tag.subrange(2, 12), "SSM_PREFIX"@);
    reveal_strlit("VERSION");
    assert("VERSION"@.len() == 7);
    assert("SSM_PREFIX"@ != "VERSION"@);
    reveal_strlit("UUID");
    assert("UUID"@.len() == 4);
    assert("SSM_PREFIX"@ != "UUID"@);
    reveal_strlit("DESCRIPTION");
    assert("DESCRIPTION"@.len() == 11);
    assert("SSM_PREFIX"@ != "DESCRIPTION"@);
    reveal_strlit("CREATED");
    assert("CREATED"@.len() == 7);
    assert("SSM_PREFIX"@ != "CREATED"@);
    reveal_strlit("UPDATED");
    assert("UPDATED"@.len() == 7);
    assert("SSM_PREFIX"@ != "UPDATED"@);
    reveal_strlit("PASS_HASH");
    assert("PASS_HASH"@.len() == 9);
    assert("SSM_PREFIX"@ != "PASS_HASH"@);
}

/// A serialized `SSM_REGION` line parses back to that field update.
proof fn lemma_meta_ssm_region(st: PStateV, v: Seq<char>, k: int)
    requires
        forall|i: int| 0 <= i < v.len() ==> #[trigger] v[i] != '\n',
        v.len() > 0 ==> !is_ws(v.last()),
    ensures
        process_line_spec(st, "#@SSM_REGION="@ + v, k) == Ok::<PStateV, ParseIssue>(
            (PStateV { ssm_region: Some(v), ..st }),
        ),
        forall|i: int|
            0 <= i < ("#@SSM_REGION="@ + v).len() ==> #[trigger] ("#@SSM_REGION="@ + v)[i] != '\n',
{
    let tag = "#@SSM_REGION="@;
    reveal_strlit("#@SSM_REGION=");
    reveal_strlit("SSM_REGION");
    assert(tag.len() == 13);
    assert(tag_scan(tag, 0, 12)) by {
        reveal_with_fuel(tag_scan, 14);
    }
    lemma_tag_scan(tag, 0, 12);
    assert(tag[12] == '=');
    assert forall|i: int| 0 <= i < tag.len() implies !is_ws(#[trigger] tag[i]) by {
        if i == 12 {
            assert(tag[12] == '=');
        }
    }
    lemma_process_meta_line(st, tag, v, k);
    assert(tag.subrange(2, 12).len() == "SSM_REGION"@.len());
    assert(seq_eq_from(tag.subrange(2, 12), "SSM_REGION"@, 0)) by {
        reveal_with_fuel(seq_eq_from, 12);
    }
    lemma_seq_eq_from(tag.subrange(2, 12), "SSM_REGION"@);
    reveal_strlit("VERSION");
    assert("VERSION"@.len() == 7);
    assert("SSM_REGION"@ != "VERSION"@);
    reveal_strlit("UUID");
    assert("UUID"@.len() == 4);
    assert("SSM_REGION"@ != "UUID"@);
    reveal_strlit("DESCRIPTION");
    assert("DESCRIPTION"@.len() == 11);
    assert("SSM_REGION"@ != "DESCRIPTION"@);
    reveal_strlit("CREATED");
    assert("CREATED"@.len() == 7);
    assert("SSM_REGION"@ != "CREATED"@);
    reveal_strlit("UPDATED");
    assert("UPDATED"@.len() == 7);
    assert("SSM_REGION"@ != "UPDATED"@);
    reveal_strlit("PASS_HASH");
    assert("PASS_HASH"@.len() == 9);
    assert("SSM_REGION"@ != "PASS_HASH"@);
    reveal_strlit("SSM_PREFIX");
    assert("SSM_REGION"@[4] == 'R' && "SSM_PREFIX"@[4] == 'P');
    assert("SSM_REGION"@ != "SSM_PREFIX"@);
}

/// A known line at the head of the fold steps the state once.
proof fn lemma_peel(l: Seq<char>, rest: Seq<Seq<char>>, st: PStateV, st2: PStateV, k: int)
    requires
        process_line_spec(st, l, k) == Ok::<PStateV, ParseIssue>(st2),
    ensures
        parse_rest(seq![l] + rest, st, k) == parse_rest(rest, st2, k + 1),
{
    assert((seq![l] + rest)[0] == l);
    assert((seq![l] + rest).drop_first() =~= rest);
}

/// Loading what saving wrote reproduces the safe exactly, except that
/// the updated timestamp reads the save time. This holds of every safe
/// satisfying the invariant whose stored values are classification
/// stable, as all values the library itself stores are.
#[verifier::rlimit(100)]
pub proof fn lemma_parse_serialize(sv: SafeV, now: Seq<char>)
    requires
        sv.canonical(),
        meta_value_wf(now),
    ensures
        parse_spec(serialize_spec(sv, now)) == Ok::<SafeV, ParseIssue>(
            (SafeV { updated: now, ..sv }),
        ),
{
    let nl = seq!['\n'];
    let l1 = "#@VERSION="@ + sv.version;
    let l2 = "#@UUID="@ + sv.uuid;
    let l3 = "#@DESCRIPTION="@ + sv.description;
    let l4 = "#@CREATED="@ + sv.created;
    let l5 = "#@UPDATED="@ + now;
    let l6 = "#@PASS_HASH="@ + sv.password_hash;
    let itext = items_text(sv.items);
    let tailp = opt_line("#@SSM_PREFIX="@, sv.ssm_prefix);
    let tailr = opt_line("#@SSM_REGION="@, sv.ssm_region);
    let r6 = tailp + (tailr + itext);
    let r5 = l6 + nl + r6;
    let r4 = l5 + nl + r5;
    let r3 = l4 + nl + r4;
    let r2 = l3 + nl + r3;
    let r1 = l2 + nl + r2;
    let s = serialize_spec(sv, now);
    assert(s =~= l1 + nl + r1);

    let st0 = init_pstate();
    lemma_meta_version(st0, sv.version, 0);
    let st1 = PStateV { version: sv.version, ..st0 };
    lemma_meta_uuid(st1, sv.uuid, 1);
    let st2 = PStateV { uuid: sv.uuid, ..st1 };
    lemma_meta_description(st2, sv.description, 2);
    let st3 = PStateV { description: sv.description, ..st2 };
    lemma_meta_created(st3, sv.created, 3);
    let st4 = PStateV { created: sv.created, ..st3 };
    lemma_meta_updated(st4, now, 4);
    let st5 = PStateV { updated: now, ..st4 };
    lemma_meta_pass_hash(st5, sv.password_hash, 5);
    let st6 = PStateV { password_hash: sv.password_hash, ..st5 };

    lemma_split_concat(l1, r1);
    lemma_split_concat(l2, r2);
    lemma_split_concat(l3, r3);
    lemma_split_concat(l4, r4);
    lemma_split_concat(l5, r5);
    lemma_split_concat(l6, r6);

    lemma_peel(l1, split_lines(r1), st0, st1, 0);
    lemma_peel(l2, split_lines(r2), st1, st2, 1);
    lemma_peel(l3, split_lines(r3), st2, st3, 2);
    lemma_peel(l4, split_lines(r4), st3, st4, 3);
    lemma_peel(l5, split_lines(r5), st4, st5, 4);
    lemma_peel(l6, split_lines(r6), st5, st6, 5);
    assert(parse_rest(split_lines(s), st0, 0) == parse_rest(split_lines(r6), st6, 6));

    assert(forall|i: int|
        0 <= i < sv.items.len() ==> item_wf(#[trigger] sv.items[i])
            && crate::safe::item_canonical(sv.items[i]));
    lemma_split_items(sv.items);

    let stf = if sv.ssm_prefix is Some {
        let p = sv.ssm_prefix->0;
        let lp = "#@SSM_PREFIX="@ + p;
        let rp = tailr + itext;
        assert(r6 =~= lp + nl + rp);
        lemma_meta_ssm_prefix(st6, p, 6);
        let st7 = PStateV { ssm_prefix: Some(p), ..st6 };
        lemma_split_concat(lp, rp);
        lemma_peel(lp, split_lines(rp), st6, st7, 6);
        if sv.ssm_region is Some {
            let q = sv.ssm_region->0;
            let lq = "#@SSM_REGION="@ + q;
            assert(rp =~= lq + nl + itext);
            lemma_meta_ssm_region(st7, q, 7);
            let st8 = PStateV { ssm_region: Some(q), ..st7 };
            lemma_split_concat(lq, itext);
            lemma_peel(lq, split_lines(itext), st7, st8, 7);
            lemma_parse_items(st8, sv.items, 8);
            st8
        } else {
            assert(rp =~= itext);
            lemma_parse_items(st7, sv.items, 7);
            st7
        }
    } else {
        assert(tailp =~= Seq::<char>::empty());
        if sv.ssm_region is Some {
            let q = sv.ssm_region->0;
            let lq = "#@SSM_REGION="@ + q;
            assert(r6 =~= lq + nl + itext);
            lemma_meta_ssm_region(st6, q, 6);
            let st7 = PStateV { ssm_region: Some(q), ..st6 };
            lemma_split_concat(lq, itext);
            lemma_peel(lq, split_lines(itext), st6, st7, 6);
            lemma_parse_items(st7, sv.items, 7);
            st7
        } else {
            assert(r6 =~= itext);
            lemma_parse_items(st6, sv.items, 6);
            st6
        }
    };

    let stz = PStateV { items: stf.items + sv.items, ..stf };
    assert(parse_rest(split_lines(s), st0, 0) == Ok::<PStateV, ParseIssue>(stz));
    assert(stz.items =~= sv.items);
    assert(parse_spec(s) == finalize_spec(stz));
    assert(finalize_spec(stz) == Ok::<SafeV, ParseIssue>((SafeV { updated: now, ..sv }))) by {
        assert(stz.password_hash.len() > 0);
        assert(stz.version.len() > 0);
        assert(stz.uuid.len() > 0);
        assert(stz.description.len() > 0);
        assert(stz.created.len() > 0);
        assert(stz.updated == now);
        assert(stz.updated.len() > 0);
        assert(stz.ssm_prefix == sv.ssm_prefix);
        assert(stz.ssm_region == sv.ssm_region);
    }
}

/// Parse a safe file. On success the result is exactly what the
/// line-oriented grammar yields, and it satisfies the safe's invariant;
/// on failure the structured error tells which line or which missing
/// field was at fault.
pub fn parse_safe(content: &str) -> (r: Result<Safe, SkitError>)
    ensures
        match r {
            Ok(s) => parse_spec(content@) == Ok::<SafeV, ParseIssue>(s@) && s.wf(),
            Err(e) => match e {
                SkitError::ParseError(pi) => parse_spec(content@) == Err::<SafeV, ParseIssue>(pi),
                _ => false,
            },
        },
{
    let len = content.unicode_len();
    let mut st = ParseSt::new();
    let mut start: usize = 0;
    let mut k: usize = 0;
    let mut i: usize = 0;
    proof {
        assert(content@.skip(0) =~= content@);
        assert(pstate_wf(init_pstate()));
    }
    while i < len
        invariant
            0 <= start <= i <= len,
            k <= start,
            len == content@.len(),
            forall|j: int| start <= j < i ==> content@[j] != '\n',
            pstate_wf(st@),
            parse_rest(split_lines(content@), init_pstate(), 0) == parse_rest(
                split_lines(content@.skip(start as int)),
                st@,
                k as int,
            ),
        decreases len - i,
    {
        let c = content.get_char(i);
        if c == '\n' {
            let line = content.substring_char(start, i);
            proof {
                assert(line@ =~= content@.subrange(start as int, i as int));
                lemma_split_lines_step(content@, start as int, i as int);
                lemma_process_line_wf(st@, line@, k as int);
                assert((seq![line@] + split_lines(content@.skip(i + 1)))[0] == line@);
                assert((seq![line@] + split_lines(content@.skip(i + 1))).drop_first()
                    =~= split_lines(content@.skip(i + 1)));
            }
            st = match process_line(st, line, k) {
                Ok(st2) => st2,
                Err(pi) => {
                    return Err(SkitError::ParseError(pi));
                },
            };
            start = i + 1;
            k = k + 1;
        }
        i = i + 1;
    }
    let line = content.substring_char(start, len);
    proof {
        assert(line@ =~= content@.subrange(start as int, len as int));
        lemma_split_lines_last(content@, start as int);
        lemma_process_line_wf(st@, line@, k as int);
        assert((seq![line@]).drop_first() =~= Seq::<Seq<char>>::empty());
        if k == usize::MAX {
            assert(start == len);
            assert(line@ =~= Seq::<char>::empty());
        }
    }
    let ghost st_pre = st@;
    let st_final = match process_line(st, line, k) {
        Ok(st2) => st2,
        Err(pi) => {
            proof {
                assert((seq![line@])[0] == line@);
                assert(parse_rest(seq![line@], st_pre, k as int) == Err::<PStateV, ParseIssue>(
                    pi,
                ));
            }
            return Err(SkitError::ParseError(pi));
        },
    };
    proof {
        assert((seq![line@])[0] == line@);
        assert(parse_rest(Seq::<Seq<char>>::empty(), st_final@, k as int + 1) == Ok::<
            PStateV,
            ParseIssue,
        >(st_final@));
        assert((seq![line@]).drop_first() =~= Seq::<Seq<char>>::empty());
        assert(parse_rest(seq![line@], st_pre, k as int) == Ok::<PStateV, ParseIssue>(st_final@));
        assert(parse_rest(split_lines(content@), init_pstate(), 0) == Ok::<
            PStateV,
            ParseIssue,
        >(st_final@));
    }
    if st_final.password_hash.as_str().unicode_len() == 0 {
        return Err(
            SkitError::ParseError(ParseIssue { line: 0, kind: ParseIssueKind::MissingPassHash }),
        );
    }
    if st_final.version.as_str().unicode_len() == 0 {
        return Err(
            SkitError::ParseError(ParseIssue { line: 0, kind: ParseIssueKind::MissingVersion }),
        );
    }
    if st_final.uuid.as_str().unicode_len() == 0 {
        return Err(
            SkitError::ParseError(ParseIssue { line: 0, kind: ParseIssueKind::MissingUuid }),
        );
    }
    if st_final.description.as_str().unicode_len() == 0 {
        return Err(
            SkitError::ParseError(
                ParseIssue { line: 0, kind: ParseIssueKind::MissingDescription },
            ),
        );
    }
    if st_final.created.as_str().unicode_len() == 0 {
        return Err(
            SkitError::ParseError(ParseIssue { line: 0, kind: ParseIssueKind::MissingCreated }),
        );
    }
    if st_final.updated.as_str().unicode_len() == 0 {
        return Err(
            SkitError::ParseError(ParseIssue { line: 0, kind: ParseIssueKind::MissingUpdated }),
        );
    }
    let safe = Safe {
        version: st_final.version,
        uuid: st_final.uuid,
        description: st_final.description,
        created: st_final.created,
        updated: st_final.updated,
        password_hash: st_final.password_hash,
        ssm_prefix: st_final.ssm_prefix,
        ssm_region: st_final.ssm_region,
        items: st_final.items,
    };
    Ok(safe)
}

} // verus!

