//! Steam's text VDF / ACF files (`appmanifest_*.acf`, `libraryfolders.vdf`).
//!
//! Only the flat `"key" "value"` reading that the tool needs: the first
//! occurrence of a quoted key, the next quoted string after it, and `\\`
//! escapes collapsed to `\`.

use vstd::prelude::*;

use crate::text::{
    chars_of, extend_chars, extend_range, find_char, find_chars, find_from, is_whitespace, is_ws,
    lemma_find_from, lemma_find_from_least, lemma_find_from_none, lemma_occurrence_char, lemma_occurrence_shift, occurs_at, replace_all, replace_chars, rfind_before,
    rfind_char, single, string_of, string_of_range,
};

verus! {

/// `"key"`: a key or value in quotes.
pub open spec fn quoted(s: Seq<char>) -> Seq<char> {
    seq!['"'] + s + seq!['"']
}

/// The contents of the next `"..."` at or after `start`.
pub open spec fn next_quoted_from(s: Seq<char>, start: int) -> Option<Seq<char>> {
    match find_from(s, single('"'), start) {
        None => None,
        Some(q1) => match find_from(s, single('"'), q1 + 1) {
            None => None,
            Some(q2) => Some(s.subrange(q1 + 1, q2)),
        },
    }
}

/// `\\` collapsed to `\`, left to right.
pub open spec fn unescape(s: Seq<char>) -> Seq<char> {
    replace_all(s, seq!['\\', '\\'], seq!['\\'])
}

/// The value of the first `"key" "value"` pair for `key`.
pub open spec fn kv_value(text: Seq<char>, key: Seq<char>) -> Option<Seq<char>> {
    match find_from(text, quoted(key), 0) {
        None => None,
        Some(p) => match next_quoted_from(text, p + quoted(key).len()) {
            None => None,
            Some(v) => Some(unescape(v)),
        },
    }
}

/// `"path"`.
pub open spec fn path_key() -> Seq<char> {
    seq!['"', 'p', 'a', 't', 'h', '"']
}

/// The values after each `"path"` key at or after `idx`, in order.
pub open spec fn library_paths_from(text: Seq<char>, idx: int) -> Seq<Seq<char>>
    decreases text.len() - idx,
{
    match find_from(text, path_key(), idx) {
        None => seq![],
        Some(r) => if r < idx || r + 6 > text.len() {
            seq![]
        } else {
            (match next_quoted_from(text, r + 6) {
                Some(v) => seq![unescape(v)],
                None => seq![],
            }) + library_paths_from(text, r + 6)
        },
    }
}

/// The views of a list of strings.
pub open spec fn string_views(v: Seq<String>) -> Seq<Seq<char>> {
    v.map_values(|s: String| s@)
}

/// The bounds `(q1, q2)` of the next quoted string at or after `start`.
fn next_quoted_bounds(s: &Vec<char>, start: usize) -> (r: Option<(usize, usize)>)
    ensures
        match r {
            Some((a, b)) => {
                &&& a <= b <= s@.len()
                &&& next_quoted_from(s@, start as int) == Some(s@.subrange(a as int, b as int))
            },
            None => next_quoted_from(s@, start as int).is_none(),
        },
{
    match find_char(s, '"', start) {
        None => None,
        Some(q1) => {
            proof {
                lemma_find_from(s@, single('"'), start as int);
            }
            assert(q1 < s.len());
            match find_char(s, '"', q1 + 1) {
                None => None,
                Some(q2) => {
                    proof {
                        lemma_find_from(s@, single('"'), q1 + 1);
                    }
                    Some((q1 + 1, q2))
                },
            }
        },
    }
}

/// The contents of the next `"..."` in `s`.
pub fn next_quoted(s: &str) -> (r: Option<String>)
    ensures
        match r {
            Some(v) => next_quoted_from(s@, 0) == Some(v@),
            None => next_quoted_from(s@, 0).is_none(),
        },
{
    let v = chars_of(s);
    match next_quoted_bounds(&v, 0) {
        None => None,
        Some((a, b)) => Some(string_of_range(&v, a, b)),
    }
}

fn unescape_chars(v: &Vec<char>) -> (r: Vec<char>)
    ensures
        r@ == unescape(v@),
{
    let pat: Vec<char> = vec!['\\', '\\'];
    let rep: Vec<char> = vec!['\\'];
    assert(pat@ =~= seq!['\\', '\\']);
    assert(rep@ =~= seq!['\\']);
    replace_chars(v, &pat, &rep)
}

fn quoted_chars(s: &Vec<char>) -> (r: Vec<char>)
    ensures
        r@ == quoted(s@),
{
    let mut r: Vec<char> = Vec::new();
    r.push('"');
    extend_chars(&mut r, s);
    r.push('"');
    assert(r@ =~= quoted(s@));
    r
}

/// The value of the first `"key" "value"` pair for `key` in a text VDF.
pub fn extract_kv_value(text: &str, key: &str) -> (r: Option<String>)
    ensures
        match r {
            Some(v) => kv_value(text@, key@) == Some(v@),
            None => kv_value(text@, key@).is_none(),
        },
{
    let t = chars_of(text);
    let k = chars_of(key);
    let needle = quoted_chars(&k);
    match find_chars(&t, &needle, 0) {
        None => None,
        Some(p) => {
            proof {
                lemma_find_from(t@, needle@, 0);
            }
            assert(p + needle.len() <= t.len());
            match next_quoted_bounds(&t, p + needle.len()) {
                None => None,
                Some((a, b)) => {
                    let raw: Vec<char> = range_chars(&t, a, b);
                    let un = unescape_chars(&raw);
                    Some(string_of(&un))
                },
            }
        },
    }
}

fn range_chars(v: &Vec<char>, a: usize, b: usize) -> (r: Vec<char>)
    requires
        a <= b <= v@.len(),
    ensures
        r@ == v@.subrange(a as int, b as int),
{
    let mut r: Vec<char> = Vec::new();
    extend_range(&mut r, v, a, b);
    assert(r@ =~= v@.subrange(a as int, b as int));
    r
}

/// All `"path"` values of a `libraryfolders.vdf`, in order.
pub fn extract_library_paths(text: &str) -> (r: Vec<String>)
    ensures
        string_views(r@) == library_paths_from(text@, 0),
{
    let t = chars_of(text);
    let needle: Vec<char> = vec!['"', 'p', 'a', 't', 'h', '"'];
    assert(needle@ =~= path_key());
    let mut out: Vec<String> = Vec::new();
    let mut idx: usize = 0;
    assert(string_views(out@) =~= seq![]);
    while idx <= t.len()
        invariant
            needle@ == path_key(),
            t@ == text@,
            idx <= t@.len(),
            string_views(out@) + library_paths_from(t@, idx as int)
                == library_paths_from(t@, 0),
        decreases t@.len() + 1 - idx,
    {
        match find_chars(&t, &needle, idx) {
            None => {
                assert(library_paths_from(t@, idx as int) =~= Seq::<Seq<char>>::empty());
                assert(string_views(out@) + library_paths_from(t@, idx as int)
                    =~= string_views(out@));
                return out;
            },
            Some(r) => {
                proof {
                    lemma_find_from(t@, path_key(), idx as int);
                }
                assert(r + 6 <= t.len());
                let pos = r + 6;
                let ghost prev = string_views(out@);
                match next_quoted_bounds(&t, pos) {
                    Some((a, b)) => {
                        let raw = range_chars(&t, a, b);
                        let un = unescape_chars(&raw);
                        let s = string_of(&un);
                        out.push(s);
                        assert(string_views(out@) =~= prev.push(un@));
                        assert(string_views(out@) + library_paths_from(
                            t@,
                            pos as int,
                        ) =~= prev + library_paths_from(t@, idx as int));
                    },
                    None => {
                        assert(prev + library_paths_from(t@, pos as int) =~= prev
                            + library_paths_from(t@, idx as int));
                    },
                }
                idx = pos;
            },
        }
    }
    out
}

// --- Setting a key -------------------------------------------------------------

/// `"key"\t\t"value"`.
pub open spec fn kv_line(key: Seq<char>, value: Seq<char>) -> Seq<char> {
    quoted(key) + seq!['\t', '\t'] + quoted(value)
}

/// The number of whitespace chars at the start of `s[from..to]`.
pub open spec fn indent_len(s: Seq<char>, from: int, to: int) -> int
    decreases to - from,
{
    if from < 0 || from >= to || to > s.len() {
        0
    } else if is_ws(s[from]) {
        1 + indent_len(s, from + 1, to)
    } else {
        0
    }
}

/// Start of the line holding position `p`.
pub open spec fn line_start(s: Seq<char>, p: int) -> int {
    match rfind_before(s, '\n', p) {
        Some(i) => i + 1,
        None => 0,
    }
}

/// End of the line holding position `p` (the position of its `\n`, or the end).
pub open spec fn line_end(s: Seq<char>, p: int) -> int {
    match find_from(s, single('\n'), p) {
        Some(i) => i,
        None => s.len() as int,
    }
}

/// Only whitespace stands before position `q` on its line.
pub open spec fn blank_before(c: Seq<char>, q: int) -> bool {
    indent_len(c, line_start(c, q), q) == q - line_start(c, q)
}

/// The text with `"key" "value"` set: the whole line of the first `"key"` is
/// replaced (keeping its leading whitespace); if the key is missing the pair
/// is added on a line of its own before the last `}` (a line break goes
/// first where something other than whitespace precedes that `}` on its
/// line), or appended when there is no `}`.
pub open spec fn set_kv_text(c: Seq<char>, key: Seq<char>, value: Seq<char>) -> Seq<char> {
    match find_from(c, quoted(key), 0) {
        Some(p) => {
            let ls = line_start(c, p);
            let le = line_end(c, p);
            c.subrange(0, ls) + c.subrange(ls, ls + indent_len(c, ls, p)) + kv_line(key, value)
                + c.subrange(le, c.len() as int)
        },
        None => match rfind_before(c, '}', c.len() as int) {
            Some(q) => c.subrange(0, q) + (if blank_before(c, q) {
                Seq::<char>::empty()
            } else {
                seq!['\n']
            }) + seq!['\t'] + kv_line(key, value) + seq!['\n'] + c.subrange(q, c.len() as int),
            None => c + seq!['\n'] + kv_line(key, value) + seq!['\n'],
        },
    }
}

proof fn lemma_rfind_before(s: Seq<char>, c: char, end: int)
    requires
        end <= s.len(),
    ensures
        match rfind_before(s, c, end) {
            Some(i) => 0 <= i < end && s[i] == c && forall|j: int| i < j < end ==> s[j] != c,
            None => forall|j: int| 0 <= j < end ==> s[j] != c,
        },
    decreases end,
{
    if end > 0 && s[end - 1] != c {
        lemma_rfind_before(s, c, end - 1);
    }
}

proof fn lemma_indent_len(s: Seq<char>, from: int, to: int)
    requires
        0 <= from <= to <= s.len(),
    ensures
        0 <= indent_len(s, from, to) <= to - from,
        forall|k: int| from <= k < from + indent_len(s, from, to) ==> is_ws(#[trigger] s[k]),
    decreases to - from,
{
    if from < to && is_ws(s[from]) {
        lemma_indent_len(s, from + 1, to);
    }
}

fn indent_count(s: &Vec<char>, from: usize, to: usize) -> (n: usize)
    requires
        from <= to <= s@.len(),
    ensures
        n as int == indent_len(s@, from as int, to as int),
{
    let mut k = from;
    while k < to && is_whitespace(s[k])
        invariant
            from <= k <= to <= s@.len(),
            indent_len(s@, from as int, to as int) == (k - from) + indent_len(
                s@,
                k as int,
                to as int,
            ),
        decreases to - k,
    {
        k = k + 1;
    }
    k - from
}

fn kv_line_chars(key: &Vec<char>, value: &Vec<char>) -> (r: Vec<char>)
    ensures
        r@ == kv_line(key@, value@),
{
    let mut r = quoted_chars(key);
    r.push('\t');
    r.push('\t');
    let q = quoted_chars(value);
    extend_chars(&mut r, &q);
    assert(r@ =~= kv_line(key@, value@));
    r
}

/// Replaces or adds a `"key" "value"` entry in a text VDF.
pub fn set_kv(content: &str, key: &str, value: &str) -> (r: String)
    ensures
        r@ == set_kv_text(content@, key@, value@),
{
    let c = chars_of(content);
    let k = chars_of(key);
    let v = chars_of(value);
    let needle = quoted_chars(&k);
    let line = kv_line_chars(&k, &v);
    let mut out: Vec<char> = Vec::new();
    match find_chars(&c, &needle, 0) {
        Some(p) => {
            proof {
                lemma_find_from(c@, needle@, 0);
            }
            proof {
                lemma_rfind_before(c@, '\n', p as int);
            }
            let ls = match rfind_char(&c, '\n', p) {
                Some(i) => {
                    assert(i < p);
                    i + 1
                },
                None => 0,
            };
            let le = match find_char(&c, '\n', p) {
                Some(i) => i,
                None => c.len(),
            };
            proof {
                lemma_find_from(c@, single('\n'), p as int);
            }
            let ind = indent_count(&c, ls, p);
            proof {
                lemma_indent_len(c@, ls as int, p as int);
            }
            extend_range(&mut out, &c, 0, ls);
            extend_range(&mut out, &c, ls, ls + ind);
            extend_chars(&mut out, &line);
            extend_range(&mut out, &c, le, c.len());
        },
        None => match rfind_char(&c, '}', c.len()) {
            Some(q) => {
                proof {
                    lemma_rfind_before(c@, '}', c@.len() as int);
                }
                proof {
                    lemma_rfind_before(c@, '\n', q as int);
                }
                let lq = match rfind_char(&c, '\n', q) {
                    Some(i) => i + 1,
                    None => 0,
                };
                let ind = indent_count(&c, lq, q);
                extend_range(&mut out, &c, 0, q);
                if ind != q - lq {
                    out.push('\n');
                }
                out.push('\t');
                extend_chars(&mut out, &line);
                out.push('\n');
                extend_range(&mut out, &c, q, c.len());
            },
            None => {
                extend_chars(&mut out, &c);
                out.push('\n');
                extend_chars(&mut out, &line);
                out.push('\n');
            },
        },
    }
    assert(out@ =~= set_kv_text(c@, k@, v@));
    string_of(&out)
}

pub open spec fn key_auto_update() -> Seq<char> {
    seq![
        'A', 'u', 't', 'o', 'U', 'p', 'd', 'a', 't', 'e', 'B', 'e', 'h', 'a', 'v', 'i', 'o', 'r',
    ]
}

pub open spec fn key_state_flags() -> Seq<char> {
    seq!['S', 't', 'a', 't', 'e', 'F', 'l', 'a', 'g', 's']
}

/// An appmanifest with `AutoUpdateBehavior "1"` and then `StateFlags "6"`
/// (installed, updates suspended) set.
pub open spec fn patched_acf(content: Seq<char>) -> Seq<char> {
    set_kv_text(set_kv_text(content, key_auto_update(), seq!['1']), key_state_flags(), seq!['6'])
}

/// Sets `AutoUpdateBehavior "1"` and `StateFlags "6"` in an appmanifest ACF;
/// missing keys are added.
pub fn patch_acf(content: &str) -> (r: String)
    ensures
        r@ == patched_acf(content@),
{
    let out = set_kv(content, "AutoUpdateBehavior", "1");
    let r = set_kv(out.as_str(), "StateFlags", "6");
    proof {
        reveal_strlit("AutoUpdateBehavior");
        reveal_strlit("StateFlags");
        reveal_strlit("1");
        reveal_strlit("6");
        assert("AutoUpdateBehavior"@ =~= key_auto_update());
        assert("StateFlags"@ =~= key_state_flags());
        assert("1"@ =~= seq!['1']);
        assert("6"@ =~= seq!['6']);
    }
    r
}

// --- Reading back a set key -------------------------------------------------------

/// No char of `s` is `c`.
pub open spec fn avoids(s: Seq<char>, c: char) -> bool {
    forall|k: int| 0 <= k < s.len() ==> s[k] != c
}

/// A key free of line breaks and tabs: no `"key"` can then start before the
/// line `set_kv` writes, so `extract_kv_value` finds that line.
pub open spec fn plain_key(key: Seq<char>) -> bool {
    avoids(key, '\n') && avoids(key, '\t')
}

/// A value that reads back unchanged: no quote ends it early, and no double
/// backslash is collapsed on reading.
pub open spec fn plain_value(value: Seq<char>) -> bool {
    avoids(value, '"') && forall|j: int| !occurs_at(value, seq!['\\', '\\'], j)
}

/// `kv_line(key, value)` placed at `at` in `r`, with no earlier `"key"`:
/// reading `key` gives `value`.
proof fn lemma_read_line_at(r: Seq<char>, key: Seq<char>, value: Seq<char>, at: int)
    requires
        plain_key(key),
        plain_value(value),
        0 <= at,
        at + kv_line(key, value).len() <= r.len(),
        r.subrange(at, at + kv_line(key, value).len()) == kv_line(key, value),
        forall|j: int| 0 <= j < at ==> !occurs_at(r, quoted(key), j),
    ensures
        kv_value(r, key) == Some(value),
{
    let n = quoted(key);
    let l = kv_line(key, value);
    let w = r.subrange(at, at + l.len());
    assert forall|k: int| 0 <= k < l.len() implies r[at + k] == l[k] by {
        assert(w[k] == r[at + k]);
    }
    assert(r.subrange(at, at + n.len()) =~= n) by {
        assert forall|k: int| 0 <= k < n.len() implies r.subrange(at, at + n.len())[k] == n[k] by {
            assert(r[at + k] == l[k]);
        }
    }
    lemma_find_from_least(r, n, 0, at);
    let s0 = at + n.len();
    let q1 = s0 + 2;
    let q2 = q1 + 1 + value.len();
    assert(r[s0] == '\t' && r[s0 + 1] == '\t' && r[q1] == '"') by {
        assert(r[s0] == l[n.len() as int]);
        assert(r[s0 + 1] == l[(n.len() + 1) as int]);
        assert(r[q1] == l[(n.len() + 2) as int]);
    }
    assert forall|k: int| q1 + 1 <= k < q2 implies r[k] == value[k - q1 - 1] by {
        assert(r[k] == l[k - at]);
    }
    assert(r[q2] == '"') by {
        assert(r[q2] == l[q2 - at]);
    }
    assert(r.subrange(s0, s0 + 1) =~= seq![r[s0]]);
    assert(r.subrange(s0 + 1, s0 + 2) =~= seq![r[s0 + 1]]);
    assert(!occurs_at(r, single('"'), s0)) by {
        assert(r.subrange(s0, s0 + 1)[0] != single('"')[0]);
    }
    assert(!occurs_at(r, single('"'), s0 + 1)) by {
        assert(r.subrange(s0 + 1, s0 + 2)[0] != single('"')[0]);
    }
    assert(r.subrange(q1, q1 + 1) =~= single('"'));
    lemma_find_from_least(r, single('"'), s0, q1);
    assert forall|k: int| q1 + 1 <= k < q2 implies !occurs_at(r, single('"'), k) by {
        assert(r.subrange(k, k + 1)[0] == r[k]);
    }
    assert(r.subrange(q2, q2 + 1) =~= single('"'));
    lemma_find_from_least(r, single('"'), q1 + 1, q2);
    assert(r.subrange(q1 + 1, q2) =~= value);
    crate::text::lemma_find_from_none(value, seq!['\\', '\\'], 0);
    assert(value.subrange(0, value.len() as int) =~= value);
}

/// The layout of `set_kv_text` where the key is missing and the pair is
/// added before the last `}`, at `q`.
proof fn lemma_added_layout(c: Seq<char>, key: Seq<char>, value: Seq<char>, q: int) -> (res: (int, int))
    requires
        plain_key(key),
        find_from(c, quoted(key), 0).is_none(),
        rfind_before(c, '}', c.len() as int) == Some(q),
    ensures
        ({
            let r = set_kv_text(c, key, value);
            let l = kv_line(key, value);
            let ls = res.0;
            let at = res.1;
            &&& 0 <= ls <= at
            &&& at + l.len() <= r.len()
            &&& r.subrange(at, at + l.len()) == l
            &&& forall|j: int| 0 <= j < at ==> !occurs_at(r, quoted(key), j)
            &&& (ls == 0 || r[ls - 1] == '\n')
            &&& forall|k: int| ls <= k < at ==> #[trigger] r[k] != '\n'
            &&& (at + l.len() == r.len() || r[at + l.len()] == '\n')
            &&& forall|k: int| ls <= k < at ==> is_ws(#[trigger] r[k])
        }),
{
    let n = quoted(key);
    let l = kv_line(key, value);
    let r = set_kv_text(c, key, value);
    assert(avoids(n, '\n') && avoids(n, '\t') && n[0] == '"' && n.len() >= 2) by {
        assert forall|k: int| 0 <= k < n.len() implies n[k] != '\n' && n[k] != '\t' by {
            if 0 < k < n.len() - 1 {
                assert(n[k] == key[k - 1]);
            }
        }
    }
    lemma_find_from(c, n, 0);
    lemma_rfind_before(c, '}', c.len() as int);
    lemma_rfind_before(c, '\n', q);
    let lq = line_start(c, q);
    lemma_indent_len(c, lq, q);
    let blank = blank_before(c, q);
    let lead = if blank {
        Seq::<char>::empty()
    } else {
        seq!['\n']
    };
    let at = q + lead.len() + 1;
    let ls = if blank {
        lq
    } else {
        q + 1
    };
    assert(r == c.subrange(0, q) + lead + seq!['\t'] + l + seq!['\n'] + c.subrange(
        q,
        c.len() as int,
    ));
    assert(r[at - 1] == '\t');
    if !blank {
        assert(r[q] == '\n');
    }
    assert(r.subrange(at, at + l.len()) =~= l);
    assert forall|x: int| q <= x < at implies r[x] == '\n' || r[x] == '\t' by {}
    assert forall|x: int| 0 <= x < q implies r[x] == c[x] by {}
    assert forall|j: int| 0 <= j < at implies !occurs_at(r, n, j) by {
        if occurs_at(r, n, j) {
            lemma_occurrence_char(r, n, j, j);
            if j >= q {
                assert(r[j] == '\n' || r[j] == '\t');
            } else if j + n.len() <= q {
                lemma_occurrence_shift(r, c, n, j, 0);
            } else {
                lemma_occurrence_char(r, n, j, q);
            }
        }
    }
    if ls > 0 {
        assert(r[ls - 1] == '\n');
    }
    assert(r[at + l.len()] == '\n');
    assert forall|k: int| ls <= k < at implies is_ws(#[trigger] r[k]) by {
        if k < q {
            assert(r[k] == c[k]);
        }
    }
    assert forall|k: int| ls <= k < at implies #[trigger] r[k] != '\n' by {
        if k < q {
            assert(r[k] == c[k]);
        }
    }
    (ls, at)
}

/// Where `set_kv_text` puts the new line: `(ls, at)`, the start of its text
/// line and the position of `"key"\t\t"value"`. No `"key"` comes earlier; the
/// line ends there (newline or end of text); what precedes it on its line is
/// whitespace.
proof fn lemma_set_kv_layout(c: Seq<char>, key: Seq<char>, value: Seq<char>) -> (res: (int, int))
    requires
        plain_key(key),
    ensures
        ({
            let r = set_kv_text(c, key, value);
            let l = kv_line(key, value);
            let ls = res.0;
            let at = res.1;
            &&& 0 <= ls <= at
            &&& at + l.len() <= r.len()
            &&& r.subrange(at, at + l.len()) == l
            &&& forall|j: int| 0 <= j < at ==> !occurs_at(r, quoted(key), j)
            &&& (ls == 0 || r[ls - 1] == '\n')
            &&& forall|k: int| ls <= k < at ==> #[trigger] r[k] != '\n'
            &&& (at + l.len() == r.len() || r[at + l.len()] == '\n')
            &&& forall|k: int| ls <= k < at ==> is_ws(#[trigger] r[k])
        }),
{
    let n = quoted(key);
    let l = kv_line(key, value);
    let r = set_kv_text(c, key, value);
    assert(avoids(n, '\n') && avoids(n, '\t') && n[0] == '"' && n.len() >= 2) by {
        assert forall|k: int| 0 <= k < n.len() implies n[k] != '\n' && n[k] != '\t' by {
            if 0 < k < n.len() - 1 {
                assert(n[k] == key[k - 1]);
            }
        }
    }
    lemma_find_from(c, n, 0);
    match find_from(c, n, 0) {
        Some(p) => {
            lemma_rfind_before(c, '\n', p);
            lemma_find_from(c, single('\n'), p);
            let ls = line_start(c, p);
            let le = line_end(c, p);
            if le < c.len() {
                assert(c.subrange(le, le + 1)[0] == c[le]);
            }
            lemma_indent_len(c, ls, p);
            let ind = indent_len(c, ls, p);
            let at = ls + ind;
            assert(r == c.subrange(0, ls) + c.subrange(ls, ls + ind) + l + c.subrange(
                le,
                c.len() as int,
            ));
            assert(r.subrange(at, at + l.len()) =~= l);
            assert forall|j: int| 0 <= j < at implies !occurs_at(r, n, j) by {
                if occurs_at(r, n, j) {
                    lemma_occurrence_char(r, n, j, j);
                    if j >= ls {
                        assert(r[j] == c[j]);
                        assert(is_ws(c[j]));
                    } else if j + n.len() <= ls {
                        lemma_occurrence_shift(r, c, n, j, 0);
                    } else {
                        lemma_occurrence_char(r, n, j, ls - 1);
                        assert(r[ls - 1] == c[ls - 1]);
                    }
                }
            }
            if ls > 0 {
                assert(r[ls - 1] == c[ls - 1]);
            }
            if at + l.len() < r.len() {
                assert(r[at + l.len()] == c[le]);
            }
            assert forall|k: int| ls <= k < at implies is_ws(#[trigger] r[k]) by {
                assert(r[k] == c[k]);
            }
            (ls, at)
        },
        None => {
            lemma_rfind_before(c, '}', c.len() as int);
            match rfind_before(c, '}', c.len() as int) {
                Some(q) => lemma_added_layout(c, key, value, q),
                None => {
                    let at = (c.len() + 1) as int;
                    assert(r == c + seq!['\n'] + l + seq!['\n']);
                    assert(r.subrange(at, at + l.len()) =~= l);
                    assert forall|j: int| 0 <= j < at implies !occurs_at(r, n, j) by {
                        if occurs_at(r, n, j) {
                            lemma_occurrence_char(r, n, j, j);
                            if j == c.len() {
                            } else if j + n.len() <= c.len() {
                                lemma_occurrence_shift(r, c, n, j, 0);
                            } else {
                                lemma_occurrence_char(r, n, j, c.len() as int);
                            }
                        }
                    }
                    assert(r[at - 1] == '\n');
                    assert(r[at + l.len()] == '\n');
                    (at, at)
                },
            }
        },
    }
}

/// After setting `key` to `value`, the first `"key"` of the text is the new
/// line, so reading `key` gives `value` back.
pub proof fn lemma_set_kv_then_read(c: Seq<char>, key: Seq<char>, value: Seq<char>)
    requires
        plain_key(key),
        plain_value(value),
    ensures
        kv_value(set_kv_text(c, key, value), key) == Some(value),
{
    let (ls, at) = lemma_set_kv_layout(c, key, value);
    lemma_read_line_at(set_kv_text(c, key, value), key, value, at);
}

/// After `patch_acf`, the manifest's `StateFlags` reads `6`.
pub proof fn lemma_patched_state_flags(content: Seq<char>)
    ensures
        kv_value(patched_acf(content), key_state_flags()) == Some(seq!['6']),
{
    let k = key_state_flags();
    assert(plain_key(k));
    assert(plain_value(seq!['6']));
    lemma_set_kv_then_read(set_kv_text(content, key_auto_update(), seq!['1']), k, seq!['6']);
}

/// Facts on the two lines `patch_acf` writes that the proofs below use.
proof fn lemma_patch_lines()
    ensures
        plain_key(key_auto_update()),
        plain_value(seq!['1']),
        plain_key(key_state_flags()),
        plain_value(seq!['6']),
        quoted(key_auto_update()).len() == 20,
        quoted(key_auto_update())[0] == '"',
        quoted(key_auto_update())[1] == 'A',
        avoids(quoted(key_auto_update()), '\n'),
        avoids(quoted(key_auto_update()), '\t'),
        quoted(key_state_flags()).len() == 12,
        quoted(key_state_flags())[0] == '"',
        quoted(key_state_flags())[1] == 'S',
        avoids(quoted(key_state_flags()), '\n'),
        avoids(quoted(key_state_flags()), '\t'),
        avoids(kv_line(key_auto_update(), seq!['1']), 'S'),
        avoids(kv_line(key_auto_update(), seq!['1']), '}'),
        avoids(kv_line(key_auto_update(), seq!['1']), '\n'),
        avoids(kv_line(key_state_flags(), seq!['6']), 'A'),
        avoids(kv_line(key_state_flags(), seq!['6']), '\n'),
{
    let k1 = key_auto_update();
    let k2 = key_state_flags();
    assert(avoids(k1, 'S') && avoids(k1, '}') && avoids(k1, '\n') && avoids(k1, '\t') && avoids(
        k1,
        '"',
    ));
    assert(avoids(k2, 'A') && avoids(k2, '\n') && avoids(k2, '\t') && avoids(k2, '"'));
    let n1 = quoted(k1);
    let n2 = quoted(k2);
    assert forall|k: int| 0 <= k < n1.len() implies n1[k] != '\n' && n1[k] != '\t' && n1[k] != 'S'
        && n1[k] != '}' by {
        if 0 < k < n1.len() - 1 {
            assert(n1[k] == k1[k - 1]);
        }
    }
    assert forall|k: int| 0 <= k < n2.len() implies n2[k] != '\n' && n2[k] != '\t' && n2[k] != 'A' by {
        if 0 < k < n2.len() - 1 {
            assert(n2[k] == k2[k - 1]);
        }
    }
    let l1 = kv_line(k1, seq!['1']);
    let l2 = kv_line(k2, seq!['6']);
    let q1 = quoted(seq!['1']);
    let q2 = quoted(seq!['6']);
    assert forall|k: int| 0 <= k < l1.len() implies l1[k] != 'S' && l1[k] != '}' && l1[k] != '\n' by {
        if k < n1.len() {
            assert(l1[k] == n1[k]);
        } else if k < n1.len() + 2 {
            assert(l1[k] == '\t');
        } else {
            assert(l1[k] == q1[k - n1.len() - 2]);
        }
    }
    assert forall|k: int| 0 <= k < l2.len() implies l2[k] != 'A' && l2[k] != '\n' by {
        if k < n2.len() {
            assert(l2[k] == n2[k]);
        } else if k < n2.len() + 2 {
            assert(l2[k] == '\t');
        } else {
            assert(l2[k] == q2[k - n2.len() - 2]);
        }
    }
}

/// `AutoUpdateBehavior "1"` as `patch_acf` writes it.
pub open spec fn auto_update_line() -> Seq<char> {
    kv_line(key_auto_update(), seq!['1'])
}

/// `StateFlags "6"` as `patch_acf` writes it.
pub open spec fn state_flags_line() -> Seq<char> {
    kv_line(key_state_flags(), seq!['6'])
}

/// `r` holds the `AutoUpdateBehavior` line at `at`, with no `"AutoUpdateBehavior"`
/// before it.
pub open spec fn auto_update_at(r: Seq<char>, at: int) -> bool {
    &&& 0 <= at
    &&& at + auto_update_line().len() <= r.len()
    &&& r.subrange(at, at + auto_update_line().len()) == auto_update_line()
    &&& forall|j: int| 0 <= j < at ==> !occurs_at(r, quoted(key_auto_update()), j)
}

/// Setting `StateFlags` on a later line keeps the `AutoUpdateBehavior` line.
proof fn lemma_state_on_later_line(r1: Seq<char>, at1: int, p2: int)
    requires
        auto_update_at(r1, at1),
        at1 + auto_update_line().len() < p2,
        r1[at1 + auto_update_line().len()] == '\n',
        find_from(r1, quoted(key_state_flags()), 0) == Some(p2),
    ensures
        auto_update_at(set_kv_text(r1, key_state_flags(), seq!['6']), at1),
{
    lemma_patch_lines();
    let n1 = quoted(key_auto_update());
    let n2 = quoted(key_state_flags());
    let e1 = at1 + auto_update_line().len();
    let r2 = set_kv_text(r1, key_state_flags(), seq!['6']);
    lemma_find_from(r1, n2, 0);
    lemma_rfind_before(r1, '\n', p2);
    let ls2 = line_start(r1, p2);
    assert(ls2 > e1);
    assert forall|x: int| 0 <= x < ls2 implies r2[x] == r1[x] by {}
    assert forall|j: int| 0 <= j < at1 implies !occurs_at(r2, n1, j) by {
        if occurs_at(r2, n1, j) {
            lemma_occurrence_shift(r2, r1, n1, j, 0);
        }
    }
    assert(r2.subrange(at1, e1) =~= r1.subrange(at1, e1));
}

/// Setting `StateFlags` on an earlier line keeps the `AutoUpdateBehavior`
/// line, shifted; the new position is returned.
proof fn lemma_state_on_earlier_line(r1: Seq<char>, at1: int, ls1: int, p2: int) -> (at2: int)
    requires
        auto_update_at(r1, at1),
        0 < ls1 <= at1,
        r1[ls1 - 1] == '\n',
        p2 < ls1,
        find_from(r1, quoted(key_state_flags()), 0) == Some(p2),
    ensures
        auto_update_at(set_kv_text(r1, key_state_flags(), seq!['6']), at2),
{
    lemma_patch_lines();
    let n1 = quoted(key_auto_update());
    let n2 = quoted(key_state_flags());
    let l1 = auto_update_line();
    let l2 = state_flags_line();
    let r2 = set_kv_text(r1, key_state_flags(), seq!['6']);
    lemma_find_from(r1, n2, 0);
    if p2 + n2.len() > ls1 - 1 {
        lemma_occurrence_char(r1, n2, p2, ls1 - 1);
        assert(false);
    }
    lemma_rfind_before(r1, '\n', p2);
    lemma_find_from(r1, single('\n'), p2);
    assert(r1.subrange(ls1 - 1, ls1) =~= single('\n'));
    assert(occurs_at(r1, single('\n'), ls1 - 1));
    let ls2 = line_start(r1, p2);
    let le2 = line_end(r1, p2);
    assert(le2 <= ls1 - 1);
    assert(r1[le2] == '\n') by {
        assert(r1.subrange(le2, le2 + 1)[0] == r1[le2]);
    }
    if ls2 > 0 {
        assert(r1[ls2 - 1] == '\n');
    }
    lemma_indent_len(r1, ls2, p2);
    let ind2 = indent_len(r1, ls2, p2);
    let mid = ls2 + ind2 + l2.len();
    let d = mid - le2;
    assert(r2 == r1.subrange(0, ls2) + r1.subrange(ls2, ls2 + ind2) + l2 + r1.subrange(
        le2,
        r1.len() as int,
    ));
    assert forall|x: int| mid <= x < r2.len() implies r2[x] == r1[x - d] by {}
    assert forall|x: int| ls2 + ind2 <= x < mid implies r2[x] == l2[x - ls2 - ind2] by {}
    assert forall|x: int| 0 <= x < ls2 + ind2 implies r2[x] == r1[x] by {}
    let at2 = at1 + d;
    assert forall|j: int| 0 <= j < at2 implies !occurs_at(r2, n1, j) by {
        if occurs_at(r2, n1, j) {
            lemma_occurrence_char(r2, n1, j, j);
            lemma_occurrence_char(r2, n1, j, j + 1);
            if j + n1.len() <= ls2 {
                lemma_occurrence_shift(r2, r1, n1, j, 0);
            } else if j < ls2 {
                lemma_occurrence_char(r2, n1, j, ls2 - 1);
            } else if j < ls2 + ind2 {
                assert(is_ws(r1[j]));
            } else if j < mid {
                if j + 1 < mid {
                    assert(r2[j + 1] == l2[j + 1 - ls2 - ind2]);
                } else {
                    assert(r2[j + 1] == r1[le2]);
                }
            } else {
                lemma_occurrence_shift(r2, r1, n1, j, d);
            }
        }
    }
    assert(r2.subrange(at2, at2 + l1.len()) =~= r1.subrange(at1, at1 + l1.len()));
    at2
}

/// Adding `StateFlags` (missing before) keeps the `AutoUpdateBehavior` line,
/// possibly shifted; the new position is returned.
proof fn lemma_state_added(r1: Seq<char>, at1: int) -> (at2: int)
    requires
        auto_update_at(r1, at1),
        at1 + auto_update_line().len() == r1.len() || r1[at1 + auto_update_line().len()] == '\n',
        find_from(r1, quoted(key_state_flags()), 0).is_none(),
    ensures
        auto_update_at(set_kv_text(r1, key_state_flags(), seq!['6']), at2),
{
    lemma_patch_lines();
    let n1 = quoted(key_auto_update());
    let l1 = auto_update_line();
    let l2 = state_flags_line();
    let e1 = at1 + l1.len();
    let r2 = set_kv_text(r1, key_state_flags(), seq!['6']);
    assert forall|x: int| at1 <= x < e1 implies r1[x] == l1[x - at1] by {
        assert(r1.subrange(at1, e1)[x - at1] == r1[x]);
    }
    lemma_rfind_before(r1, '}', r1.len() as int);
    match rfind_before(r1, '}', r1.len() as int) {
        Some(q2) => {
            if at1 <= q2 < e1 {
                assert(r1[q2] == l1[q2 - at1]);
                assert(false);
            }
            if q2 == e1 {
                assert(false);
            }
            let lead = if blank_before(r1, q2) {
                Seq::<char>::empty()
            } else {
                seq!['\n']
            };
            let ll = lead.len() as int;
            assert(r2 == r1.subrange(0, q2) + lead + seq!['\t'] + l2 + seq!['\n'] + r1.subrange(
                q2,
                r1.len() as int,
            ));
            if q2 > e1 {
                assert forall|x: int| 0 <= x < q2 implies r2[x] == r1[x] by {}
                assert forall|j: int| 0 <= j < at1 implies !occurs_at(r2, n1, j) by {
                    if occurs_at(r2, n1, j) {
                        lemma_occurrence_shift(r2, r1, n1, j, 0);
                    }
                }
                assert(r2.subrange(at1, e1) =~= r1.subrange(at1, e1));
                at1
            } else {
                let s2 = q2 + ll + 1;
                let mid = s2 + l2.len() + 1;
                let d = mid - q2;
                assert forall|x: int| mid <= x < r2.len() implies r2[x] == r1[x - d] by {}
                assert forall|x: int| s2 <= x < mid - 1 implies r2[x] == l2[x - s2] by {}
                assert forall|x: int| 0 <= x < q2 implies r2[x] == r1[x] by {}
                assert forall|x: int| q2 <= x < s2 implies r2[x] == '\n' || r2[x] == '\t' by {}
                let at2 = at1 + d;
                assert forall|j: int| 0 <= j < at2 implies !occurs_at(r2, n1, j) by {
                    if occurs_at(r2, n1, j) {
                        lemma_occurrence_char(r2, n1, j, j);
                        lemma_occurrence_char(r2, n1, j, j + 1);
                        if j + n1.len() <= q2 {
                            lemma_occurrence_shift(r2, r1, n1, j, 0);
                        } else if j < q2 {
                            lemma_occurrence_char(r2, n1, j, q2);
                        } else if j < s2 {
                        } else if j < mid - 2 {
                            assert(r2[j + 1] == l2[j + 1 - s2]);
                        } else if j == mid - 2 {
                            assert(r2[j + 1] == '\n');
                        } else if j == mid - 1 {
                        } else {
                            lemma_occurrence_shift(r2, r1, n1, j, d);
                        }
                    }
                }
                assert(r2.subrange(at2, at2 + l1.len()) =~= r1.subrange(at1, e1));
                at2
            }
        },
        None => {
            assert(r2 == r1 + seq!['\n'] + l2 + seq!['\n']);
            assert forall|j: int| 0 <= j < at1 implies !occurs_at(r2, n1, j) by {
                if occurs_at(r2, n1, j) {
                    lemma_occurrence_shift(r2, r1, n1, j, 0);
                }
            }
            assert(r2.subrange(at1, e1) =~= r1.subrange(at1, e1));
            at1
        },
    }
}

/// Where the first `"StateFlags"` can lie after `AutoUpdateBehavior` was set:
/// on an earlier line or on a later one, never on the same line.
proof fn lemma_state_position(r1: Seq<char>, ls1: int, at1: int, p2: int)
    requires
        0 <= ls1 <= at1,
        auto_update_at(r1, at1),
        at1 + auto_update_line().len() == r1.len() || r1[at1 + auto_update_line().len()] == '\n',
        forall|k: int| ls1 <= k < at1 ==> is_ws(#[trigger] r1[k]),
        find_from(r1, quoted(key_state_flags()), 0) == Some(p2),
    ensures
        p2 < ls1 || p2 > at1 + auto_update_line().len(),
{
    lemma_patch_lines();
    let n2 = quoted(key_state_flags());
    let l1 = auto_update_line();
    let e1 = at1 + l1.len();
    lemma_find_from(r1, n2, 0);
    lemma_occurrence_char(r1, n2, p2, p2);
    lemma_occurrence_char(r1, n2, p2, p2 + 1);
    if at1 <= p2 <= e1 {
        if p2 + 1 < e1 {
            assert(r1[p2 + 1] == r1.subrange(at1, e1)[p2 + 1 - at1]);
        }
        assert(false);
    }
    if ls1 <= p2 < at1 {
        assert(is_ws(r1[p2]));
        assert(false);
    }
}

/// After `patch_acf`, the manifest's `AutoUpdateBehavior` reads `1`.
pub proof fn lemma_patched_auto_update(content: Seq<char>)
    ensures
        kv_value(patched_acf(content), key_auto_update()) == Some(seq!['1']),
{
    lemma_patch_lines();
    let r1 = set_kv_text(content, key_auto_update(), seq!['1']);
    let r2 = set_kv_text(r1, key_state_flags(), seq!['6']);
    let (ls1, at1) = lemma_set_kv_layout(content, key_auto_update(), seq!['1']);
    assert(auto_update_at(r1, at1));
    lemma_find_from(r1, quoted(key_state_flags()), 0);
    let at2 = match find_from(r1, quoted(key_state_flags()), 0) {
        Some(p2) => {
            lemma_state_position(r1, ls1, at1, p2);
            if p2 < ls1 {
                lemma_state_on_earlier_line(r1, at1, ls1, p2)
            } else {
                lemma_state_on_later_line(r1, at1, p2);
                at1
            }
        },
        None => lemma_state_added(r1, at1),
    };
    lemma_read_line_at(r2, key_auto_update(), seq!['1'], at2);
}

// --- Setting a key twice ----------------------------------------------------------------

/// The last `c` before `end` is at `i - 1` when `s[i - 1]` is `c` and
/// `s[i..end]` holds none (or there is none when `i` is 0).
proof fn lemma_rfind_before_at(s: Seq<char>, c: char, end: int, i: int)
    requires
        0 <= i <= end <= s.len(),
        i == 0 || s[i - 1] == c,
        forall|k: int| i <= k < end ==> s[k] != c,
    ensures
        rfind_before(s, c, end) == if i == 0 {
            None::<int>
        } else {
            Some(i - 1)
        },
    decreases end,
{
    if end > i {
        lemma_rfind_before_at(s, c, end - 1, i);
    } else if i > 0 {
    } else {
        lemma_rfind_before(s, c, end);
    }
}

/// All of `s[from..to]` is whitespace: the indentation is all of it.
proof fn lemma_indent_full(s: Seq<char>, from: int, to: int)
    requires
        0 <= from <= to <= s.len(),
        forall|k: int| from <= k < to ==> is_ws(#[trigger] s[k]),
    ensures
        indent_len(s, from, to) == to - from,
    decreases to - from,
{
    if from < to {
        lemma_indent_full(s, from + 1, to);
    }
}

/// Setting a key twice to the same value is setting it once, for a key with
/// no line break or tab and a value with no line break.
pub proof fn lemma_set_kv_idempotent(c: Seq<char>, key: Seq<char>, value: Seq<char>)
    requires
        plain_key(key),
        avoids(value, '\n'),
    ensures
        set_kv_text(set_kv_text(c, key, value), key, value) == set_kv_text(c, key, value),
{
    let (ls, at) = lemma_set_kv_layout(c, key, value);
    lemma_set_again(set_kv_text(c, key, value), key, value, ls, at);
}

/// A text holding `"key"\t\t"value"` as its first `"key"`, alone on its line
/// after whitespace, is left as it is by setting `key` to `value`.
proof fn lemma_set_again(r: Seq<char>, key: Seq<char>, value: Seq<char>, ls: int, at: int)
    requires
        plain_key(key),
        avoids(value, '\n'),
        0 <= ls <= at,
        at + kv_line(key, value).len() <= r.len(),
        r.subrange(at, at + kv_line(key, value).len()) == kv_line(key, value),
        forall|j: int| 0 <= j < at ==> !occurs_at(r, quoted(key), j),
        ls == 0 || r[ls - 1] == '\n',
        forall|k: int| ls <= k < at ==> #[trigger] r[k] != '\n',
        at + kv_line(key, value).len() == r.len() || r[at + kv_line(key, value).len()] == '\n',
        forall|k: int| ls <= k < at ==> is_ws(#[trigger] r[k]),
    ensures
        set_kv_text(r, key, value) == r,
{
    let n = quoted(key);
    let l = kv_line(key, value);
    let e = at + l.len();
    assert forall|x: int| at <= x < e implies r[x] == l[x - at] by {
        assert(r.subrange(at, e)[x - at] == r[x]);
    }
    // `l` holds no line break
    assert forall|k: int| 0 <= k < l.len() implies l[k] != '\n' by {
        let qv = quoted(value);
        if k < n.len() {
            assert(l[k] == n[k]);
            if 0 < k < n.len() - 1 {
                assert(n[k] == key[k - 1]);
            }
        } else if k < n.len() + 2 {
        } else {
            assert(l[k] == qv[k - n.len() - 2]);
            if 0 < k - n.len() - 2 < qv.len() - 1 {
                assert(qv[k - n.len() - 2] == value[k - n.len() - 3]);
            }
        }
    }
    // the first "key" of `r` is at `at`
    assert(r.subrange(at, at + n.len()) =~= n) by {
        assert forall|k: int| 0 <= k < n.len() implies r.subrange(at, at + n.len())[k] == n[k] by {
            assert(r[at + k] == l[k]);
        }
    }
    lemma_find_from_least(r, n, 0, at);
    // its line starts at `ls`
    lemma_rfind_before_at(r, '\n', at, ls);
    assert(line_start(r, at) == ls);
    lemma_indent_full(r, ls, at);
    // and ends where `l` ends
    if e < r.len() {
        assert(r.subrange(e, e + 1) =~= single('\n'));
        assert forall|j: int| at <= j < e implies !occurs_at(r, single('\n'), j) by {
            assert(r.subrange(j, j + 1)[0] == r[j]);
        }
        lemma_find_from_least(r, single('\n'), at, e);
    } else {
        assert forall|j: int| at <= j implies !occurs_at(r, single('\n'), j) by {
            if j < e {
                assert(r.subrange(j, j + 1)[0] == r[j]);
            }
        }
        lemma_find_from_none(r, single('\n'), at);
    }
    assert(line_end(r, at) == e);
    assert(indent_len(r, ls, at) == at - ls);
    assert(set_kv_text(r, key, value) == r.subrange(0, ls) + r.subrange(ls, at) + l + r.subrange(
        e,
        r.len() as int,
    ));
    assert(r.subrange(0, ls) + r.subrange(ls, at) + l + r.subrange(e, r.len() as int) =~= r);
}

} // verus!
