//! JSON text: string quoting and object framing through `serde_json`, and the
//! conversion of relaxed formula text (unquoted keys, single quotes, `nil`)
//! into JSON.
use vstd::prelude::*;
use crate::text::{
    char_is_ws, chars_eq, chars_to_string, is_ws, push_all, str_chars, sub_chars, trim_whitespace,
    trim_ws,
};

verus! {

// ---------------------------------------------------------------------------
// Outside items
// ---------------------------------------------------------------------------

#[verifier::external_type_specification]
#[verifier::external_body]
pub struct ExJsonError(serde_json::Error);

/// The lower-case hexadecimal digit of `n` (0 to 15).
pub open spec fn hex_lower(n: int) -> char {
    seq!['0', '1', '2', '3', '4', '5', '6', '7', '8', '9', 'a', 'b', 'c', 'd', 'e', 'f'][n]
}

/// How `serde_json` writes one character inside a JSON string.
pub open spec fn json_escape(c: char) -> Seq<char> {
    if c == '"' {
        seq!['\\', '"']
    } else if c == '\\' {
        seq!['\\', '\\']
    } else if c == '\x08' {
        seq!['\\', 'b']
    } else if c == '\t' {
        seq!['\\', 't']
    } else if c == '\n' {
        seq!['\\', 'n']
    } else if c == '\x0c' {
        seq!['\\', 'f']
    } else if c == '\r' {
        seq!['\\', 'r']
    } else if (c as u32) < 0x20 {
        seq!['\\', 'u', '0', '0', hex_lower((c as int) / 16), hex_lower((c as int) % 16)]
    } else {
        seq![c]
    }
}

/// The escaped characters of `s`.
pub open spec fn json_escaped(s: Seq<char>) -> Seq<char>
    decreases s.len(),
{
    if s.len() == 0 {
        Seq::empty()
    } else {
        json_escaped(s.drop_last()) + json_escape(s.last())
    }
}

/// `s` as a JSON string literal, as `serde_json` writes it.
pub open spec fn json_quoted(s: Seq<char>) -> Seq<char> {
    seq!['"'] + json_escaped(s) + seq!['"']
}

/// `serde_json::to_string` on a string slice. Its source writes a quote, each
/// byte with the escapes of its `ESCAPE` table (the two-character escapes and
/// `\u00xx` with lower-case hex for the other control characters), and a
/// quote; its documentation says it fails only for a failing `Serialize` impl
/// or a map with non-string keys, neither of which a string is.
#[verifier::external_body]
fn json_string(s: &str) -> (r: Result<String, serde_json::Error>)
    ensures
        r is Ok,
        r matches Ok(t) ==> t@ == json_quoted(s@),
{
    serde_json::to_string(s)
}

/// The text that `serde_json` gives back for `s` when `s` parses as a JSON
/// value, and `None` when it does not.
pub uninterp spec fn json_reformatted(s: Seq<char>) -> Option<Seq<char>>;

/// `serde_json::from_str::<serde_json::Value>` on `s`, the parsed value turned
/// back into text by its `Display`. Both depend on `s` alone; what they
/// compute (JSON parsing, number formatting, key order) is not stated here
/// beyond the name `json_reformatted`.
#[verifier::external_body]
fn reformat_json(s: &str) -> (r: Option<String>)
    ensures
        match r {
            Some(t) => json_reformatted(s@) == Some(t@),
            None => json_reformatted(s@) is None,
        },
{
    match serde_json::from_str::<serde_json::Value>(s) {
        Ok(v) => Some(v.to_string()),
        Err(_) => None,
    }
}

/// Whether `s` parses as a JSON value.
pub fn parses_as_json(s: &str) -> (r: bool)
    ensures
        r == json_reformatted(s@) is Some,
{
    reformat_json(s).is_some()
}

/// Whether `c` has the Unicode `Alphabetic` property (`char::is_alphabetic`).
pub uninterp spec fn char_alphabetic(c: char) -> bool;

/// Whether `c` is alphabetic or numeric (`char::is_alphanumeric`).
pub uninterp spec fn char_alphanumeric(c: char) -> bool;

/// `char::is_alphabetic`.
#[verifier::external_body]
fn is_alphabetic(c: char) -> (r: bool)
    ensures
        r == char_alphabetic(c),
{
    c.is_alphabetic()
}

/// `char::is_alphanumeric`, which its documentation defines as
/// `is_alphabetic() || is_numeric()`.
#[verifier::external_body]
fn is_alphanumeric(c: char) -> (r: bool)
    ensures
        r == char_alphanumeric(c),
        char_alphabetic(c) ==> r,
{
    c.is_alphanumeric()
}

// ---------------------------------------------------------------------------
// JSON objects of string entries
// ---------------------------------------------------------------------------

/// One `"key":"value"` member.
pub open spec fn json_member(e: (Seq<char>, Seq<char>)) -> Seq<char> {
    json_quoted(e.0) + seq![':'] + json_quoted(e.1)
}

/// The members of `entries`, in order.
pub open spec fn json_members(entries: Seq<(Seq<char>, Seq<char>)>) -> Seq<Seq<char>> {
    entries.map_values(|e: (Seq<char>, Seq<char>)| json_member(e))
}

/// A compact JSON object with the given string entries, in order.
pub open spec fn json_object(entries: Seq<(Seq<char>, Seq<char>)>) -> Seq<char> {
    seq!['{'] + crate::text::join_with(json_members(entries), ',') + seq!['}']
}

/// Appends `s` as a JSON string literal.
fn push_quoted(out: &mut Vec<char>, s: &Vec<char>)
    ensures
        final(out)@ == old(out)@ + json_quoted(s@),
{
    let st = chars_to_string(s);
    let q = json_string(st.as_str());
    match q {
        Ok(t) => {
            let tc = str_chars(t.as_str());
            push_all(out, &tc);
        },
        Err(_) => {
            proof {
                assert(false);
            }
        },
    }
}

/// The JSON object text of `entries`, members in the order of `entries`.
pub fn object_text(entries: &Vec<(Vec<char>, Vec<char>)>) -> (r: String)
    ensures
        r@ == json_object(crate::route::entry_views(entries@)),
{
    let ghost ev = crate::route::entry_views(entries@);
    let ghost ms = json_members(ev);
    let mut out: Vec<char> = vec!['{'];
    let mut i: usize = 0;
    assert(ms.take(0) =~= Seq::<Seq<char>>::empty());
    while i < entries.len()
        invariant
            ev == crate::route::entry_views(entries@),
            ms == json_members(ev),
            i <= entries.len(),
            out@ == seq!['{'] + crate::text::join_with(ms.take(i as int), ','),
        decreases entries.len() - i,
    {
        let ghost prefix = ms.take(i + 1);
        assert(prefix.drop_last() =~= ms.take(i as int));
        assert(ev[i as int] == (entries@[i as int].0@, entries@[i as int].1@));
        assert(prefix.last() == json_member(ev[i as int]));
        if i > 0 {
            out.push(',');
        } else {
            assert(prefix =~= seq![json_member(ev[0])]);
        }
        push_quoted(&mut out, &entries[i].0);
        out.push(':');
        push_quoted(&mut out, &entries[i].1);
        i = i + 1;
        assert(out@ =~= seq!['{'] + crate::text::join_with(ms.take(i as int), ','));
    }
    assert(ms.take(i as int) =~= ms);
    out.push('}');
    chars_to_string(&out)
}

// ---------------------------------------------------------------------------
// Relaxed formula text to JSON
// ---------------------------------------------------------------------------

/// An ASCII letter.
pub open spec fn ascii_letter(c: char) -> bool {
    ('a' <= c && c <= 'z') || ('A' <= c && c <= 'Z')
}

/// An ASCII digit.
pub open spec fn ascii_digit(c: char) -> bool {
    '0' <= c && c <= '9'
}

/// A character that may start a bare word: an alphabetic character or `_`.
/// Among ASCII characters the alphabetic ones are exactly the letters.
pub open spec fn word_start(c: char) -> bool {
    if c <= '\u{7f}' {
        ascii_letter(c) || c == '_'
    } else {
        char_alphabetic(c)
    }
}

/// A character that may continue a bare word: an alphanumeric character,
/// `_` or `-`. Among ASCII characters the alphanumeric ones are exactly the
/// letters and digits.
pub open spec fn word_char(c: char) -> bool {
    if c <= '\u{7f}' {
        ascii_letter(c) || ascii_digit(c) || c == '_' || c == '-'
    } else {
        char_alphanumeric(c)
    }
}

/// Whether `c` may start a bare word.
fn starts_word(c: char) -> (r: bool)
    ensures
        r == word_start(c),
{
    if c <= '\u{7f}' {
        ('a' <= c && c <= 'z') || ('A' <= c && c <= 'Z') || c == '_'
    } else {
        is_alphabetic(c)
    }
}

/// Whether `c` may continue a bare word; every character that may start one
/// may continue it.
fn continues_word(c: char) -> (r: bool)
    ensures
        r == word_char(c),
        word_start(c) ==> r,
{
    if c <= '\u{7f}' {
        ('a' <= c && c <= 'z') || ('A' <= c && c <= 'Z') || ('0' <= c && c <= '9') || c == '_'
            || c == '-'
    } else {
        is_alphanumeric(c)
    }
}

/// The length of the run of word characters that `s` begins with.
pub open spec fn word_run(s: Seq<char>) -> nat
    decreases s.len(),
{
    if s.len() > 0 && word_char(s[0]) {
        1 + word_run(s.drop_first())
    } else {
        0
    }
}

/// The length of the run of white space that `s` begins with.
pub open spec fn ws_run(s: Seq<char>) -> nat
    decreases s.len(),
{
    if s.len() > 0 && is_ws(s[0]) {
        1 + ws_run(s.drop_first())
    } else {
        0
    }
}

/// How many characters the body of a quoted literal takes: up to the closing
/// `q` or the end, a backslash taking the character after it along.
pub open spec fn quoted_len(s: Seq<char>, q: char) -> nat
    decreases s.len(),
{
    if s.len() == 0 || s[0] == q {
        0
    } else if s[0] == '\\' && s.len() > 1 {
        2 + quoted_len(s.skip(2), q)
    } else {
        1 + quoted_len(s.drop_first(), q)
    }
}

/// The JSON text of the body of a quoted literal: escape pairs kept, and in a
/// single-quoted body a double quote escaped.
pub open spec fn quoted_body(s: Seq<char>, q: char) -> Seq<char>
    decreases s.len(),
{
    if s.len() == 0 || s[0] == q {
        Seq::empty()
    } else if s[0] == '\\' && s.len() > 1 {
        seq!['\\', s[1]] + quoted_body(s.skip(2), q)
    } else if q == '\'' && s[0] == '"' {
        seq!['\\', '"'] + quoted_body(s.drop_first(), q)
    } else {
        seq![s[0]] + quoted_body(s.drop_first(), q)
    }
}

/// What follows a quoted literal whose body starts `s`: the closing quote,
/// where there is one, is dropped.
pub open spec fn after_quoted(s: Seq<char>, q: char) -> Seq<char> {
    let rest = s.skip(quoted_len(s, q) as int);
    if rest.len() > 0 {
        rest.drop_first()
    } else {
        rest
    }
}

pub open spec fn word_true() -> Seq<char> {
    seq!['t', 'r', 'u', 'e']
}

pub open spec fn word_false() -> Seq<char> {
    seq!['f', 'a', 'l', 's', 'e']
}

pub open spec fn word_null() -> Seq<char> {
    seq!['n', 'u', 'l', 'l']
}

pub open spec fn word_nil() -> Seq<char> {
    seq!['n', 'i', 'l']
}

pub open spec fn word_undefined() -> Seq<char> {
    seq!['u', 'n', 'd', 'e', 'f', 'i', 'n', 'e', 'd']
}

/// A bare word `w` followed by `after`: a key (a `:` after optional white
/// space) or an unknown word is quoted; `true`, `false`, `null` stay; `nil`
/// and `undefined` become `null`.
pub open spec fn render_word(w: Seq<char>, after: Seq<char>) -> Seq<char> {
    let j: int = ws_run(after) as int;
    if j < after.len() && after[j] == ':' {
        seq!['"'] + w + seq!['"']
    } else if w == word_true() || w == word_false() || w == word_null() {
        w
    } else if w == word_nil() || w == word_undefined() {
        word_null()
    } else {
        seq!['"'] + w + seq!['"']
    }
}

pub proof fn lemma_quoted_len_bound(s: Seq<char>, q: char)
    ensures
        quoted_len(s, q) <= s.len(),
    decreases s.len(),
{
    if s.len() == 0 || s[0] == q {
    } else if s[0] == '\\' && s.len() > 1 {
        lemma_quoted_len_bound(s.skip(2), q);
    } else {
        lemma_quoted_len_bound(s.drop_first(), q);
    }
}

pub proof fn lemma_word_run_bound(s: Seq<char>)
    ensures
        word_run(s) <= s.len(),
    decreases s.len(),
{
    if s.len() > 0 && word_char(s[0]) {
        lemma_word_run_bound(s.drop_first());
    }
}

/// Relaxed formula text rewritten token by token into JSON text: quoted
/// literals become double-quoted, bare words are rendered by `render_word`,
/// every other character is kept.
pub open spec fn relaxed_json(s: Seq<char>) -> Seq<char>
    decreases s.len(),
{
    if s.len() == 0 {
        Seq::empty()
    } else if s[0] == '\'' || s[0] == '"' {
        let q: char = s[0];
        let b = s.drop_first();
        proof {
            lemma_quoted_len_bound(b, q);
        }
        seq!['"'] + quoted_body(b, q) + seq!['"'] + relaxed_json(after_quoted(b, q))
    } else if word_start(s[0]) {
        proof {
            lemma_word_run_bound(s.drop_first());
        }
        let n: nat = 1 + word_run(s.drop_first());
        render_word(s.take(n as int), s.skip(n as int)) + relaxed_json(s.skip(n as int))
    } else {
        seq![s[0]] + relaxed_json(s.drop_first())
    }
}

/// What `convert_to_json` gives for `input`.
pub open spec fn converted_json(input: Seq<char>) -> Seq<char> {
    let t = trim_ws(input);
    if t.len() == 0 {
        seq!['{', '}']
    } else {
        match json_reformatted(t) {
            Some(v) => v,
            None => match json_reformatted(relaxed_json(t)) {
                Some(v) => v,
                None => json_quoted(t),
            },
        }
    }
}


/// Rewrites relaxed formula text into JSON text (see `relaxed_json`).
pub fn normalize_relaxed(c: &Vec<char>) -> (r: Vec<char>)
    ensures
        r@ == relaxed_json(c@),
{
    let n: usize = c.len();
    let mut out: Vec<char> = Vec::new();
    let mut i: usize = 0;
    assert(c@.skip(0) =~= c@);
    while i < n
        invariant
            n == c.len(),
            i <= n,
            relaxed_json(c@) == out@ + relaxed_json(c@.skip(i as int)),
        decreases n - i,
    {
        let ghost s = c@.skip(i as int);
        let ch: char = c[i];
        assert(s[0] == ch);
        assert(s.drop_first() =~= c@.skip(i + 1));
        if ch == '\'' || ch == '"' {
            let q: char = ch;
            let ghost b = s.drop_first();
            let mut body: Vec<char> = Vec::new();
            let mut k: usize = i + 1;
            assert(b.skip(0) =~= b);
            while k < n && c[k] != q
                invariant
                    n == c.len(),
                    i + 1 <= k <= n,
                    b == c@.skip(i + 1),
                    quoted_body(b, q) == body@ + quoted_body(c@.skip(k as int), q),
                    quoted_len(b, q) == (k - (i + 1)) + quoted_len(c@.skip(k as int), q),
                decreases n - k,
            {
                let ghost t = c@.skip(k as int);
                assert(t[0] == c@[k as int]);
                if c[k] == '\\' && k + 1 < n {
                    assert(t[1] == c@[k + 1]);
                    assert(t.skip(2) =~= c@.skip(k + 2));
                    body.push('\\');
                    body.push(c[k + 1]);
                    k = k + 2;
                } else if q == '\'' && c[k] == '"' {
                    assert(t.drop_first() =~= c@.skip(k + 1));
                    body.push('\\');
                    body.push('"');
                    k = k + 1;
                } else {
                    assert(t.drop_first() =~= c@.skip(k + 1));
                    body.push(c[k]);
                    k = k + 1;
                }
            }
            let ghost t = c@.skip(k as int);
            assert(quoted_len(t, q) == 0);
            assert(quoted_body(t, q) =~= Seq::<char>::empty());
            assert(b.skip(k - (i + 1)) =~= t);
            out.push('"');
            push_all(&mut out, &body);
            out.push('"');
            if k < n {
                assert(t.drop_first() =~= c@.skip(k + 1));
                k = k + 1;
            }
            assert(after_quoted(b, q) == c@.skip(k as int));
            i = k;
        } else if starts_word(ch) {
            let mut j: usize = i;
            while j < n && continues_word(c[j])
                invariant
                    n == c.len(),
                    i < n,
                    i <= j <= n,
                    word_start(c@[i as int]),
                    j > i ==> word_run(c@.skip(i + 1)) == (j - (i + 1)) + word_run(c@.skip(j as int)),
                decreases n - j,
            {
                let ghost t = c@.skip(j as int);
                assert(t.drop_first() =~= c@.skip(j + 1));
                if j == i {
                    assert(c@.skip(i + 1) =~= c@.skip(j + 1));
                } else {
                    assert(t[0] == c@[j as int]);
                }
                j = j + 1;
            }
            assert(j > i);
            let ghost t = c@.skip(j as int);
            if j < n {
                assert(t[0] == c@[j as int]);
            }
            assert(word_run(t) == 0);
            let ghost nw = (1 + word_run(s.drop_first())) as int;
            assert(nw == j - i);
            assert(s.take(nw) =~= c@.subrange(i as int, j as int));
            assert(s.skip(nw) =~= t);
            let w = sub_chars(c, i, j);
            let mut m: usize = j;
            assert(t.skip(0) =~= t);
            while m < n && char_is_ws(c[m])
                invariant
                    n == c.len(),
                    j <= m <= n,
                    t == c@.skip(j as int),
                    ws_run(t) == (m - j) + ws_run(c@.skip(m as int)),
                decreases n - m,
            {
                let ghost u = c@.skip(m as int);
                assert(u[0] == c@[m as int]);
                assert(u.drop_first() =~= c@.skip(m + 1));
                m = m + 1;
            }
            let ghost u = c@.skip(m as int);
            if m < n {
                assert(u[0] == c@[m as int]);
            }
            assert(ws_run(u) == 0);
            assert(m - j < t.len() ==> t[m - j] == c@[m as int]);
            let is_key = m < n && c[m] == ':';
            let t_word: Vec<char> = vec!['t', 'r', 'u', 'e'];
            let f_word: Vec<char> = vec!['f', 'a', 'l', 's', 'e'];
            let n_word: Vec<char> = vec!['n', 'u', 'l', 'l'];
            let nil_word: Vec<char> = vec!['n', 'i', 'l'];
            let u_word: Vec<char> = vec!['u', 'n', 'd', 'e', 'f', 'i', 'n', 'e', 'd'];
            assert(t_word@ =~= word_true());
            assert(f_word@ =~= word_false());
            assert(n_word@ =~= word_null());
            assert(nil_word@ =~= word_nil());
            assert(u_word@ =~= word_undefined());
            if is_key {
                out.push('"');
                push_all(&mut out, &w);
                out.push('"');
            } else if chars_eq(&w, &t_word) || chars_eq(&w, &f_word) || chars_eq(&w, &n_word) {
                push_all(&mut out, &w);
            } else if chars_eq(&w, &nil_word) || chars_eq(&w, &u_word) {
                push_all(&mut out, &n_word);
            } else {
                out.push('"');
                push_all(&mut out, &w);
                out.push('"');
            }
            i = j;
        } else {
            out.push(ch);
            i = i + 1;
        }
    }
    assert(c@.skip(i as int) =~= Seq::<char>::empty());
    assert(out@ + Seq::<char>::empty() =~= out@);
    out
}

/// A character that opens no literal and no word is copied as it stands.
proof fn lemma_relaxed_plain(c: char, rest: Seq<char>)
    requires
        c != '\'' && c != '"',
        !word_start(c),
    ensures
        relaxed_json(seq![c] + rest) == seq![c] + relaxed_json(rest),
{
    let s = seq![c] + rest;
    assert(s[0] == c);
    assert(s.drop_first() =~= rest);
}

/// A run of word characters followed by the end or a non-word character is
/// measured exactly.
proof fn lemma_word_run_of(x: Seq<char>, y: Seq<char>)
    requires
        forall|i: int| 0 <= i < x.len() ==> word_char(#[trigger] x[i]),
        y.len() == 0 || !word_char(y[0]),
    ensures
        word_run(x + y) == x.len(),
    decreases x.len(),
{
    if x.len() == 0 {
        assert(x + y =~= y);
    } else {
        let s = x + y;
        assert(s[0] == x[0]);
        assert(s.drop_first() =~= x.drop_first() + y);
        assert forall|i: int| 0 <= i < x.drop_first().len() implies word_char(
            #[trigger] x.drop_first()[i],
        ) by {
            assert(x.drop_first()[i] == x[i + 1]);
        }
        lemma_word_run_of(x.drop_first(), y);
    }
}

/// A whole bare word at the front is rendered by `render_word` against what
/// follows it.
proof fn lemma_relaxed_word(x: Seq<char>, rest: Seq<char>)
    requires
        x.len() > 0,
        word_start(x[0]),
        forall|i: int| 0 <= i < x.len() ==> word_char(#[trigger] x[i]),
        rest.len() == 0 || !word_char(rest[0]),
    ensures
        relaxed_json(x + rest) == render_word(x, rest) + relaxed_json(rest),
{
    let s = x + rest;
    assert(s[0] == x[0]);
    assert(s.drop_first() =~= x.drop_first() + rest);
    assert forall|i: int| 0 <= i < x.drop_first().len() implies word_char(
        #[trigger] x.drop_first()[i],
    ) by {
        assert(x.drop_first()[i] == x[i + 1]);
    }
    lemma_word_run_of(x.drop_first(), rest);
    assert(s.take(x.len() as int) =~= x);
    assert(s.skip(x.len() as int) =~= rest);
}

/// A bare word `w` after a bare key `k` in braces: the key is quoted and the
/// word rendered against the closing brace.
proof fn lemma_relaxed_member(k: Seq<char>, w: Seq<char>)
    requires
        k.len() > 0,
        word_start(k[0]),
        forall|i: int| 0 <= i < k.len() ==> word_char(#[trigger] k[i]),
        w.len() > 0,
        word_start(w[0]),
        forall|i: int| 0 <= i < w.len() ==> word_char(#[trigger] w[i]),
    ensures
        relaxed_json(seq!['{'] + k + seq![':', ' '] + w + seq!['}'])
            == seq!['{', '"'] + k + seq!['"', ':', ' '] + render_word(w, seq!['}']) + seq!['}'],
{
    let close: Seq<char> = seq!['}'];
    let tail = w + close;
    let after_colon = seq![' '] + tail;
    let after_key = seq![':'] + after_colon;
    // the closing brace
    lemma_relaxed_plain('}', Seq::empty());
    assert(close + Seq::<char>::empty() =~= close);
    // the value
    lemma_relaxed_word(w, close);
    // the colon and the space
    lemma_relaxed_plain(' ', tail);
    lemma_relaxed_plain(':', after_colon);
    // the key
    lemma_relaxed_word(k, after_key);
    assert(ws_run(after_key) == 0);
    assert(render_word(k, after_key) =~= seq!['"'] + k + seq!['"']);
    // the opening brace
    lemma_relaxed_plain('{', k + after_key);
    assert(seq!['{'] + k + seq![':', ' '] + w + seq!['}'] =~= seq!['{'] + (k + after_key));
    assert(seq!['{', '"'] + k + seq!['"', ':', ' '] + render_word(w, close) + seq!['}'] =~= seq!['{']
        + (seq!['"'] + k + seq!['"'] + (seq![':'] + (seq![' '] + (render_word(w, close) + close)))));
}

/// In relaxed text, a bare `true`, `false` or `null` after a key is kept as
/// the JSON literal and never quoted, while the bare key itself is quoted:
/// `{k: w}` becomes `{"k": w}` for every key name `k`.
pub proof fn law_relaxed_keeps_literals(k: Seq<char>, w: Seq<char>)
    requires
        k.len() > 0,
        word_start(k[0]),
        forall|i: int| 0 <= i < k.len() ==> word_char(#[trigger] k[i]),
        w == word_true() || w == word_false() || w == word_null(),
    ensures
        relaxed_json(seq!['{'] + k + seq![':', ' '] + w + seq!['}'])
            == seq!['{', '"'] + k + seq!['"', ':', ' '] + w + seq!['}'],
{
    assert forall|i: int| 0 <= i < w.len() implies word_char(#[trigger] w[i]) by {}
    lemma_relaxed_member(k, w);
    assert(ws_run(seq!['}']) == 0);
}

/// In relaxed text, a bare `nil` or `undefined` value becomes `null`:
/// `{k: nil}` becomes `{"k": null}` for every key name `k`.
pub proof fn law_relaxed_nil_is_null(k: Seq<char>, w: Seq<char>)
    requires
        k.len() > 0,
        word_start(k[0]),
        forall|i: int| 0 <= i < k.len() ==> word_char(#[trigger] k[i]),
        w == word_nil() || w == word_undefined(),
    ensures
        relaxed_json(seq!['{'] + k + seq![':', ' '] + w + seq!['}'])
            == seq!['{', '"'] + k + seq!['"', ':', ' ', 'n', 'u', 'l', 'l', '}'],
{
    assert forall|i: int| 0 <= i < w.len() implies word_char(#[trigger] w[i]) by {}
    lemma_relaxed_member(k, w);
    assert(ws_run(seq!['}']) == 0);
    assert(word_nil() != word_true() && word_nil() != word_false() && word_nil() != word_null()) by {
        assert(word_nil().len() == 3);
        assert(word_nil()[1] == 'i');
    }
    assert(word_undefined().len() == 9);
    assert(seq!['{', '"'] + k + seq!['"', ':', ' '] + word_null() + seq!['}'] =~= seq!['{', '"'] + k
        + seq!['"', ':', ' ', 'n', 'u', 'l', 'l', '}']);
}

/// In relaxed text, any other bare word value is quoted as a string:
/// `{k: w}` becomes `{"k": "w"}`.
pub proof fn law_relaxed_quotes_other_words(k: Seq<char>, w: Seq<char>)
    requires
        k.len() > 0,
        word_start(k[0]),
        forall|i: int| 0 <= i < k.len() ==> word_char(#[trigger] k[i]),
        w.len() > 0,
        word_start(w[0]),
        forall|i: int| 0 <= i < w.len() ==> word_char(#[trigger] w[i]),
        w != word_true() && w != word_false() && w != word_null(),
        w != word_nil() && w != word_undefined(),
    ensures
        relaxed_json(seq!['{'] + k + seq![':', ' '] + w + seq!['}'])
            == seq!['{', '"'] + k + seq!['"', ':', ' ', '"'] + w + seq!['"', '}'],
{
    lemma_relaxed_member(k, w);
    assert(ws_run(seq!['}']) == 0);
    assert(seq!['{', '"'] + k + seq!['"', ':', ' '] + (seq!['"'] + w + seq!['"']) + seq!['}']
        =~= seq!['{', '"'] + k + seq!['"', ':', ' ', '"'] + w + seq!['"', '}']);
}

proof fn lemma_quoted_plain(b: Seq<char>, q: char, rest: Seq<char>)
    requires
        forall|i: int| 0 <= i < b.len() ==> #[trigger] b[i] != q && b[i] != '\\' && b[i] != '"',
    ensures
        quoted_len(b + seq![q] + rest, q) == b.len(),
        quoted_body(b + seq![q] + rest, q) == b,
    decreases b.len(),
{
    let s = b + seq![q] + rest;
    if b.len() == 0 {
        assert(s[0] == q);
    } else {
        assert(s[0] == b[0]);
        assert(s.drop_first() =~= b.drop_first() + seq![q] + rest);
        assert forall|i: int| 0 <= i < b.drop_first().len() implies #[trigger] b.drop_first()[i] != q
            && b.drop_first()[i] != '\\' && b.drop_first()[i] != '"' by {
            assert(b.drop_first()[i] == b[i + 1]);
        }
        lemma_quoted_plain(b.drop_first(), q, rest);
        assert(seq![b[0]] + b.drop_first() =~= b);
    }
}

/// In relaxed text, a single-quoted string becomes the same string in double
/// quotes.
pub proof fn law_relaxed_single_quotes(b: Seq<char>)
    requires
        forall|i: int| 0 <= i < b.len() ==> #[trigger] b[i] != '\'' && b[i] != '\\' && b[i] != '"',
    ensures
        relaxed_json(seq!['\''] + b + seq!['\'']) == seq!['"'] + b + seq!['"'],
{
    let s = seq!['\''] + b + seq!['\''];
    let body = s.drop_first();
    assert(s[0] == '\'');
    assert(body =~= b + seq!['\''] + Seq::<char>::empty());
    lemma_quoted_plain(b, '\'', Seq::empty());
    assert(body.skip(b.len() as int) =~= seq!['\'']);
    assert(after_quoted(body, '\'') =~= Seq::<char>::empty());
    assert(quoted_body(body, '\'') == b);
    assert(relaxed_json(Seq::<char>::empty()) == Seq::<char>::empty());
    assert(relaxed_json(s) == seq!['"'] + quoted_body(body, '\'') + seq!['"'] + relaxed_json(
        after_quoted(body, '\''),
    ));
    assert(seq!['"'] + b + seq!['"'] + Seq::<char>::empty() =~= seq!['"'] + b + seq!['"']);
}

/// The JSON text for trimmed input `t`, given what `serde_json` made of `t`
/// itself (`direct`) and of its relaxed rewriting (`relaxed`): `{}` for no
/// input, else the first of the two that parsed, else `t` as a JSON string.
pub fn settle_json(t: &Vec<char>, direct: Option<String>, relaxed: Option<String>) -> (r: String)
    ensures
        r@ == (if t@.len() == 0 {
            seq!['{', '}']
        } else {
            match direct {
                Some(v) => v@,
                None => match relaxed {
                    Some(v) => v@,
                    None => json_quoted(t@),
                },
            }
        }),
{
    if t.len() == 0 {
        let empty_object: Vec<char> = vec!['{', '}'];
        return chars_to_string(&empty_object);
    }
    if let Some(v) = direct {
        return v;
    }
    if let Some(v) = relaxed {
        return v;
    }
    let mut out: Vec<char> = Vec::new();
    push_quoted(&mut out, t);
    chars_to_string(&out)
}

/// Converts any input string (including relaxed formulas with unquoted keys,
/// single quotes, or nil) into valid JSON.
pub fn convert_to_json(input: &str) -> (r: String)
    ensures
        r@ == converted_json(input@),
{
    let chars = str_chars(input);
    let t = trim_whitespace(&chars);
    if t.len() == 0 {
        return settle_json(&t, None, None);
    }
    let ts = chars_to_string(&t);
    let direct = reformat_json(ts.as_str());
    let relaxed = if direct.is_none() {
        let normalized = normalize_relaxed(&t);
        let ns = chars_to_string(&normalized);
        reformat_json(ns.as_str())
    } else {
        None
    };
    settle_json(&t, direct, relaxed)
}

/// The marker that tells the response layer a body is JSON.
pub open spec fn json_marker() -> Seq<char> {
    "<!--flamer:json-->"@
}

/// The marker that tells the response layer a body is HTML.
pub open spec fn html_marker() -> Seq<char> {
    "<!--flamer:html-->"@
}

/// Helper to construct a JSON response with explicit Flamer marker.
pub fn json_response(content: String) -> (r: String)
    ensures
        r@ == json_marker() + converted_json(content@),
{
    let valid = convert_to_json(content.as_str());
    let mut out = str_chars("<!--flamer:json-->");
    push_all(&mut out, &str_chars(valid.as_str()));
    chars_to_string(&out)
}

/// Converts any input string or formula representation into valid JSON.
pub fn to_json(content: String) -> (r: String)
    ensures
        r@ == converted_json(content@),
{
    convert_to_json(content.as_str())
}

/// Helper to construct an HTML response with explicit Flamer marker.
pub fn html_response(content: String) -> (r: String)
    ensures
        r@ == html_marker() + content@,
{
    let mut out = str_chars("<!--flamer:html-->");
    push_all(&mut out, &str_chars(content.as_str()));
    chars_to_string(&out)
}

/// Helper to construct a plain text response.
pub fn text_response(content: String) -> (r: String)
    ensures
        r@ == content@,
{
    content
}

} // verus!
