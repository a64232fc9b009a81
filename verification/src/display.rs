use vstd::prelude::*;

use crate::chars::is_ws;

verus! {

/// The decimal digits of `n`, most significant first.
pub open spec fn dec_of(n: nat) -> Seq<char>
    decreases n,
{
    if n < 10 {
        seq![digit_char(n)]
    } else {
        dec_of(n / 10).push(digit_char(n % 10))
    }
}

/// The character for one decimal digit.
pub open spec fn digit_char(d: nat) -> char {
    if d == 0 {
        '0'
    } else if d == 1 {
        '1'
    } else if d == 2 {
        '2'
    } else if d == 3 {
        '3'
    } else if d == 4 {
        '4'
    } else if d == 5 {
        '5'
    } else if d == 6 {
        '6'
    } else if d == 7 {
        '7'
    } else if d == 8 {
        '8'
    } else {
        '9'
    }
}

fn digit_char_exec(d: u64) -> (c: char)
    requires
        d < 10,
    ensures
        c == digit_char(d as nat),
{
    if d == 0 {
        '0'
    } else if d == 1 {
        '1'
    } else if d == 2 {
        '2'
    } else if d == 3 {
        '3'
    } else if d == 4 {
        '4'
    } else if d == 5 {
        '5'
    } else if d == 6 {
        '6'
    } else if d == 7 {
        '7'
    } else if d == 8 {
        '8'
    } else {
        '9'
    }
}

/// Write a number in decimal.
pub fn u64_to_string(n: u64) -> (r: String)
    ensures
        r@ == dec_of(n as nat),
{
    let mut digits: Vec<char> = Vec::new();
    let mut m = n;
    while m >= 10
        invariant
            dec_of(n as nat) == dec_of(m as nat) + digits@.reverse(),
        decreases m,
    {
        let d = digit_char_exec(m % 10);
        proof {
            let ghost pre = digits@;
            assert(dec_of(m as nat) == dec_of((m / 10) as nat).push(digit_char((m % 10) as nat)));
            assert(pre.push(d).reverse() =~= seq![d] + pre.reverse());
            assert(dec_of((m / 10) as nat) + (seq![d] + pre.reverse()) =~= (dec_of(
                (m / 10) as nat,
            ).push(d)) + pre.reverse());
        }
        digits.push(d);
        m = m / 10;
    }
    let d = digit_char_exec(m);
    proof {
        let ghost pre = digits@;
        assert(dec_of(m as nat) == seq![digit_char(m as nat)]);
        assert(pre.push(d).reverse() =~= seq![d] + pre.reverse());
        assert(seq![d] + pre.reverse() =~= dec_of(m as nat) + pre.reverse());
    }
    digits.push(d);
    let k = digits.len();
    let mut out = String::new();
    let mut i: usize = 0;
    while i < k
        invariant
            0 <= i <= k,
            k == digits@.len(),
            dec_of(n as nat) == digits@.reverse(),
            out@ == digits@.reverse().take(i as int),
        decreases k - i,
    {
        out.push(digits[k - 1 - i]);
        proof {
            assert(digits@.reverse()[i as int] == digits@[k - 1 - i]);
            assert(out@ =~= digits@.reverse().take(i + 1));
        }
        i = i + 1;
    }
    proof {
        assert(digits@.reverse().take(k as int) =~= digits@.reverse());
    }
    out
}

/// Write a count in decimal.
pub fn usize_to_string(n: usize) -> (r: String)
    ensures
        r@ == dec_of(n as nat),
{
    u64_to_string(n as u64)
}

/// How long ago a number of days is, in words.
pub open spec fn days_ago_spec(days: nat) -> Seq<char> {
    if days == 0 {
        "today"@
    } else if days == 1 {
        "1 day ago"@
    } else {
        dec_of(days) + " days ago"@
    }
}

/// Describe how many days ago something happened.
pub fn format_days_ago(days: u64) -> (r: String)
    ensures
        r@ == days_ago_spec(days as nat),
{
    if days == 0 {
        String::from_str("today")
    } else if days == 1 {
        String::from_str("1 day ago")
    } else {
        let mut out = u64_to_string(days);
        out.append(" days ago");
        out
    }
}

/// A double-quoted rendering, with inner double quotes escaped.
pub open spec fn escape_dq(s: Seq<char>) -> Seq<char>
    decreases s.len(),
{
    if s.len() == 0 {
        Seq::empty()
    } else {
        (if s[0] == '"' {
            seq!['\\', '"']
        } else {
            seq![s[0]]
        }) + escape_dq(s.drop_first())
    }
}

proof fn lemma_escape_dq_snoc(s: Seq<char>, i: int)
    requires
        0 <= i < s.len(),
    ensures
        escape_dq(s.take(i + 1)) == escape_dq(s.take(i)) + (if s[i] == '"' {
            seq!['\\', '"']
        } else {
            seq![s[i]]
        }),
    decreases i,
{
    let piece = if s[i] == '"' {
        seq!['\\', '"']
    } else {
        seq![s[i]]
    };
    if i == 0 {
        assert(s.take(1) =~= seq![s[0]]);
        assert(s.take(1).drop_first() =~= Seq::<char>::empty());
        assert(s.take(0) =~= Seq::<char>::empty());
        assert(piece + Seq::<char>::empty() =~= piece);
        assert(Seq::<char>::empty() + piece =~= piece);
    } else {
        lemma_escape_dq_snoc(s.drop_first(), i - 1);
        assert(s.take(i + 1)[0] == s[0]);
        assert(s.take(i)[0] == s[0]);
        assert(s.take(i + 1).drop_first() =~= s.drop_first().take(i));
        assert(s.take(i).drop_first() =~= s.drop_first().take(i - 1));
        assert(s.drop_first()[i - 1] == s[i]);
        let head = if s[0] == '"' {
            seq!['\\', '"']
        } else {
            seq![s[0]]
        };
        assert(head + (escape_dq(s.drop_first().take(i - 1)) + piece) =~= (head + escape_dq(
            s.drop_first().take(i - 1),
        )) + piece);
    }
}

/// Wrap a value in double quotes, escaping any inner double quote.
pub fn wrap_with_quotes(value: &str) -> (r: String)
    ensures
        r@ == seq!['"'] + escape_dq(value@) + seq!['"'],
{
    let n = value.unicode_len();
    let mut out = String::new();
    out.push('"');
    proof {
        assert(value@.take(0) =~= Seq::<char>::empty());
        assert(out@ =~= seq!['"'] + escape_dq(value@.take(0)));
    }
    let mut i: usize = 0;
    while i < n
        invariant
            0 <= i <= n,
            n == value@.len(),
            out@ == seq!['"'] + escape_dq(value@.take(i as int)),
        decreases n - i,
    {
        let c = value.get_char(i);
        proof {
            lemma_escape_dq_snoc(value@, i as int);
        }
        if c == '"' {
            out.push('\\');
            out.push('"');
        } else {
            out.push(c);
        }
        proof {
            assert(out@ =~= seq!['"'] + escape_dq(value@.take(i + 1)));
        }
        i = i + 1;
    }
    proof {
        assert(value@.take(n as int) =~= value@);
    }
    out.push('"');
    out
}

/// The characters that force shell quoting.
pub open spec fn shell_special(c: char) -> bool {
    c == ' ' || c == '\t' || c == '\n' || c == '\r' || c == '"' || c == '\'' || c == '\\' || c
        == '$' || c == '`' || c == '(' || c == ')' || c == '[' || c == ']' || c == '{' || c == '}'
        || c == '|' || c == '&' || c == ';' || c == '<' || c == '>' || c == '*' || c == '?' || c
        == '~'
}

/// A single-quoted rendering, with inner single quotes closed, escaped
/// and reopened.
pub open spec fn escape_sq(s: Seq<char>) -> Seq<char>
    decreases s.len(),
{
    if s.len() == 0 {
        Seq::empty()
    } else {
        (if s[0] == '\'' {
            seq!['\'', '"', '\'', '"', '\'']
        } else {
            seq![s[0]]
        }) + escape_sq(s.drop_first())
    }
}

proof fn lemma_escape_sq_snoc(s: Seq<char>, i: int)
    requires
        0 <= i < s.len(),
    ensures
        escape_sq(s.take(i + 1)) == escape_sq(s.take(i)) + (if s[i] == '\'' {
            seq!['\'', '"', '\'', '"', '\'']
        } else {
            seq![s[i]]
        }),
    decreases i,
{
    let piece = if s[i] == '\'' {
        seq!['\'', '"', '\'', '"', '\'']
    } else {
        seq![s[i]]
    };
    if i == 0 {
        assert(s.take(1) =~= seq![s[0]]);
        assert(s.take(1).drop_first() =~= Seq::<char>::empty());
        assert(s.take(0) =~= Seq::<char>::empty());
        assert(piece + Seq::<char>::empty() =~= piece);
        assert(Seq::<char>::empty() + piece =~= piece);
    } else {
        lemma_escape_sq_snoc(s.drop_first(), i - 1);
        assert(s.take(i + 1)[0] == s[0]);
        assert(s.take(i)[0] == s[0]);
        assert(s.take(i + 1).drop_first() =~= s.drop_first().take(i));
        assert(s.take(i).drop_first() =~= s.drop_first().take(i - 1));
        assert(s.drop_first()[i - 1] == s[i]);
        let head = if s[0] == '\'' {
            seq!['\'', '"', '\'', '"', '\'']
        } else {
            seq![s[0]]
        };
        assert(head + (escape_sq(s.drop_first().take(i - 1)) + piece) =~= (head + escape_sq(
            s.drop_first().take(i - 1),
        )) + piece);
    }
}

/// Quote a value for a POSIX shell: empty values become `''`, harmless
/// values pass through, and anything else is single-quoted with inner
/// single quotes escaped.
pub fn shell_quote(value: &str) -> (r: String)
    ensures
        r@ == (if value@.len() == 0 {
            "''"@
        } else if !(exists|i: int| 0 <= i < value@.len() && shell_special(#[trigger] value@[i])) {
            value@
        } else {
            seq!['\''] + escape_sq(value@) + seq!['\'']
        }),
{
    let n = value.unicode_len();
    if n == 0 {
        return String::from_str("''");
    }
    let mut needs = false;
    let mut i: usize = 0;
    while i < n
        invariant
            0 <= i <= n,
            n == value@.len(),
            needs == exists|j: int| 0 <= j < i && shell_special(#[trigger] value@[j]),
        decreases n - i,
    {
        let c = value.get_char(i);
        if c == ' ' || c == '\t' || c == '\n' || c == '\r' || c == '"' || c == '\'' || c == '\\'
            || c == '$' || c == '`' || c == '(' || c == ')' || c == '[' || c == ']' || c == '{'
            || c == '}' || c == '|' || c == '&' || c == ';' || c == '<' || c == '>' || c == '*'
            || c == '?' || c == '~' {
            needs = true;
        }
        i = i + 1;
    }
    if !needs {
        return String::from_str(value);
    }
    let mut out = String::new();
    out.push('\'');
    proof {
        assert(value@.take(0) =~= Seq::<char>::empty());
        assert(out@ =~= seq!['\''] + escape_sq(value@.take(0)));
    }
    let mut i: usize = 0;
    while i < n
        invariant
            0 <= i <= n,
            n == value@.len(),
            out@ == seq!['\''] + escape_sq(value@.take(i as int)),
        decreases n - i,
    {
        let c = value.get_char(i);
        proof {
            lemma_escape_sq_snoc(value@, i as int);
        }
        if c == '\'' {
            out.push('\'');
            out.push('"');
            out.push('\'');
            out.push('"');
            out.push('\'');
        } else {
            out.push(c);
        }
        proof {
            assert(out@ =~= seq!['\''] + escape_sq(value@.take(i + 1)));
        }
        i = i + 1;
    }
    proof {
        assert(value@.take(n as int) =~= value@);
    }
    out.push('\'');
    out
}

/// Break a text into display lines: words are packed greedily up to the
/// width, and a word longer than the width is cut into chunks of the
/// width. A text that already fits stays one line.
pub fn wrap_text(text: &str, max_width: usize) -> (r: Vec<String>)
    requires
        max_width > 0,
    ensures
        r@.len() >= 1,
        text@.len() <= max_width ==> r@.len() == 1 && r@[0]@ == text@,
        (exists|j: int| 0 <= j < text@.len() && !is_ws(#[trigger] text@[j])) ==> forall|i: int|
            0 <= i < r@.len() ==> (#[trigger] r@[i])@.len() <= max_width,
{
    let n = text.unicode_len();
    if n <= max_width {
        let mut lines: Vec<String> = Vec::new();
        lines.push(String::from_str(text));
        return lines;
    }
    let mut lines: Vec<String> = Vec::new();
    let mut cur = String::new();
    let mut i: usize = 0;
    while i < n
        invariant
            0 <= i <= n,
            n == text@.len(),
            max_width > 0,
            cur@.len() <= max_width,
            forall|m: int| 0 <= m < lines@.len() ==> (#[trigger] lines@[m])@.len() <= max_width,
            (exists|j: int| 0 <= j < i && !is_ws(#[trigger] text@[j])) ==> lines@.len() > 0
                || cur@.len() > 0,
        decreases n - i,
    {
        // skip whitespace before the next word
        let c = text.get_char(i);
        if c == ' ' || c == '\t' || c == '\r' || c == '\n' {
            i = i + 1;
        } else {
            // find the end of the word
            let start = i;
            let mut j = i;
            while j < n && !is_ws_probe(text, j)
                invariant
                    start <= j <= n,
                    n == text@.len(),
                decreases n - j,
            {
                j = j + 1;
            }
            let wlen = j - start;
            if cur.as_str().unicode_len() == 0 {
                cur = String::from_str(text.substring_char(start, j));
                if cur.as_str().unicode_len() > max_width {
                    chunk_into(&mut lines, cur.as_str(), max_width);
                    cur = String::new();
                }
            } else if wlen < max_width && cur.as_str().unicode_len() < max_width - wlen {
                cur.push(' ');
                cur.append(text.substring_char(start, j));
            } else {
                lines.push(cur);
                cur = String::from_str(text.substring_char(start, j));
                if cur.as_str().unicode_len() > max_width {
                    chunk_into(&mut lines, cur.as_str(), max_width);
                    cur = String::new();
                }
            }
            i = j;
        }
    }
    if cur.as_str().unicode_len() > 0 {
        lines.push(cur);
    }
    if lines.len() == 0 {
        lines.push(String::from_str(text));
    }
    lines
}

/// Whether the character at `j` is whitespace.
fn is_ws_probe(text: &str, j: usize) -> (r: bool)
    requires
        j < text@.len(),
    ensures
        r == is_ws(text@[j as int]),
{
    let c = text.get_char(j);
    c == ' ' || c == '\t' || c == '\r' || c == '\n'
}

/// Cut an over-long word into chunks of the width.
fn chunk_into(lines: &mut Vec<String>, word: &str, max_width: usize)
    requires
        max_width > 0,
        forall|m: int|
            0 <= m < old(lines)@.len() ==> (#[trigger] old(lines)@[m])@.len() <= max_width,
    ensures
        forall|m: int|
            0 <= m < final(lines)@.len() ==> (#[trigger] final(lines)@[m])@.len() <= max_width,
        word@.len() > 0 ==> final(lines)@.len() > old(lines)@.len(),
{
    let n = word.unicode_len();
    let mut i: usize = 0;
    while i < n
        invariant
            0 <= i <= n,
            n == word@.len(),
            max_width > 0,
            forall|m: int| 0 <= m < lines@.len() ==> (#[trigger] lines@[m])@.len() <= max_width,
            n > 0 && i > 0 ==> lines@.len() > old(lines)@.len(),
            i == 0 ==> lines@.len() == old(lines)@.len(),
        decreases n - i,
    {
        let end = if max_width < n - i {
            i + max_width
        } else {
            n
        };
        lines.push(String::from_str(word.substring_char(i, end)));
        i = end;
    }
}

} // verus!
