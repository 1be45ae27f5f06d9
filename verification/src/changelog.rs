//! Steam news items as a readable update history.
//!
//! The HTTP request to the public news API is made by the caller; this
//! module turns each item into a changelog entry: a plain-text summary with
//! clan-image tokens and common BBCode tags removed, whitespace collapsed and
//! the length capped.

use vstd::prelude::*;

use crate::date::{iso_date, iso_date_of};
use crate::text::{
    chars_of, contains_text, decimal, decimal_string, extend_chars, extend_range, find_chars,
    find_from, is_whitespace, is_ws, lemma_find_from, lemma_find_from_none, lemma_occurrence_char, lemma_occurrence_shift,
    lemma_replace_keeps_absent, lemma_replace_removes, occurs_at, replace_all, replace_chars,
    string_of,
};

verus! {

// --- Summary text ----------------------------------------------------------------

/// `{STEAM_CLAN_IMAGE}`.
pub open spec fn clan_token() -> Seq<char> {
    "{STEAM_CLAN_IMAGE}"@
}

/// The first whitespace position at or after `i`, or the end of `s`.
pub open spec fn ws_from(s: Seq<char>, i: int) -> int
    decreases s.len() - i,
{
    if i < 0 || i >= s.len() {
        s.len() as int
    } else if is_ws(s[i]) {
        i
    } else {
        ws_from(s, i + 1)
    }
}

/// `s` with every clan-image token removed, each together with the rest of
/// its non-whitespace run (the image path), first occurrence first.
pub open spec fn strip_images(s: Seq<char>) -> Seq<char>
    decreases s.len(),
{
    match find_from(s, clan_token(), 0) {
        None => s,
        Some(p) => {
            let e = ws_from(s, p);
            if 0 <= p < e <= s.len() {
                strip_images(s.subrange(0, p) + s.subrange(e, s.len() as int))
            } else {
                s
            }
        },
    }
}

/// The BBCode tags that are replaced by a space, in the order applied.
pub open spec fn bbcode_tags() -> Seq<Seq<char>> {
    seq![
        "[list]"@,
        "[/list]"@,
        "[*]"@,
        "[h1]"@,
        "[/h1]"@,
        "[h2]"@,
        "[/h2]"@,
        "[h3]"@,
        "[/h3]"@,
        "[b]"@,
        "[/b]"@,
        "[i]"@,
        "[/i]"@,
        "[u]"@,
        "[/u]"@,
        "[hr][/hr]"@,
    ]
}

/// `s` with each tag of `tags[i..]` replaced by a space, one tag after the other.
pub open spec fn replace_tags(s: Seq<char>, tags: Seq<Seq<char>>, i: int) -> Seq<char>
    decreases tags.len() - i,
{
    if i < 0 || i >= tags.len() {
        s
    } else {
        replace_tags(replace_all(s, tags[i], seq![' ']), tags, i + 1)
    }
}

/// The words of `s` (maximal runs of non-whitespace) joined by single spaces.
pub open spec fn collapse_ws(s: Seq<char>) -> Seq<char>
    decreases s.len(),
{
    if s.len() == 0 {
        seq![]
    } else {
        let p = collapse_ws(s.drop_last());
        let c = s.last();
        if is_ws(c) {
            p
        } else if s.len() >= 2 && !is_ws(s[s.len() - 2]) {
            p.push(c)
        } else if p.len() == 0 {
            seq![c]
        } else {
            p.push(' ').push(c)
        }
    }
}

/// At most 400 chars; a longer text is cut to 400 chars followed by `...`.
pub open spec fn capped(s: Seq<char>) -> Seq<char> {
    if s.len() > 400 {
        s.take(400) + seq!['.', '.', '.']
    } else {
        s
    }
}

/// The plain-text preview of a news body.
pub open spec fn cleaned(raw: Seq<char>) -> Seq<char> {
    capped(collapse_ws(replace_tags(strip_images(raw), bbcode_tags(), 0)))
}

/// Not empty, and free of whitespace and of `.`: collapsing whitespace and
/// capping the length cannot make such a pattern appear.
pub open spec fn solid(q: Seq<char>) -> bool {
    &&& q.len() > 0
    &&& forall|k: int| 0 <= k < q.len() ==> !is_ws(#[trigger] q[k]) && q[k] != '.'
}

proof fn lemma_markup_solid()
    ensures
        solid(clan_token()),
        forall|k: int| 0 <= k < bbcode_tags().len() ==> solid(#[trigger] bbcode_tags()[k]),
{
    reveal_strlit("{STEAM_CLAN_IMAGE}");
    reveal_strlit("[list]");
    reveal_strlit("[/list]");
    reveal_strlit("[*]");
    reveal_strlit("[h1]");
    reveal_strlit("[/h1]");
    reveal_strlit("[h2]");
    reveal_strlit("[/h2]");
    reveal_strlit("[h3]");
    reveal_strlit("[/h3]");
    reveal_strlit("[b]");
    reveal_strlit("[/b]");
    reveal_strlit("[i]");
    reveal_strlit("[/i]");
    reveal_strlit("[u]");
    reveal_strlit("[/u]");
    reveal_strlit("[hr][/hr]");
    assert(solid(clan_token()));
    let t = bbcode_tags();
    assert(solid(t[0]));
    assert(solid(t[1]));
    assert(solid(t[2]));
    assert(solid(t[3]));
    assert(solid(t[4]));
    assert(solid(t[5]));
    assert(solid(t[6]));
    assert(solid(t[7]));
    assert(solid(t[8]));
    assert(solid(t[9]));
    assert(solid(t[10]));
    assert(solid(t[11]));
    assert(solid(t[12]));
    assert(solid(t[13]));
    assert(solid(t[14]));
    assert(solid(t[15]));
}

proof fn lemma_ws_from(s: Seq<char>, i: int)
    requires
        0 <= i,
    ensures
        i <= ws_from(s, i) || (i > s.len() && ws_from(s, i) == s.len()),
        ws_from(s, i) <= s.len(),
        i < s.len() && !is_ws(s[i]) ==> i < ws_from(s, i),
    decreases s.len() - i,
{
    if i < s.len() && !is_ws(s[i]) {
        lemma_ws_from(s, i + 1);
    }
}

fn first_ws(s: &Vec<char>, i: usize) -> (e: usize)
    requires
        i <= s@.len(),
    ensures
        e as int == ws_from(s@, i as int),
{
    let mut k = i;
    while k < s.len() && !is_whitespace(s[k])
        invariant
            i <= k <= s@.len(),
            ws_from(s@, k as int) == ws_from(s@, i as int),
        decreases s@.len() - k,
    {
        k = k + 1;
    }
    k
}

fn strip_images_chars(v: Vec<char>) -> (r: Vec<char>)
    ensures
        r@ == strip_images(v@),
{
    let token = chars_of("{STEAM_CLAN_IMAGE}");
    proof {
        reveal_strlit("{STEAM_CLAN_IMAGE}");
    }
    assert(token@[0] == '{');
    assert(token@.len() > 0);
    let mut cur = v;
    loop
        invariant
            token@ == clan_token(),
            token@[0] == '{',
            token@.len() > 0,
            strip_images(cur@) == strip_images(v@),
        decreases cur@.len(),
    {
        match find_chars(&cur, &token, 0) {
            None => {
                return cur;
            },
            Some(p) => {
                proof {
                    lemma_find_from(cur@, token@, 0);
                    assert(cur@.subrange(p as int, p + token@.len())[0] == cur@[p as int]);
                    lemma_ws_from(cur@, p as int);
                }
                let e = first_ws(&cur, p);
                let mut next: Vec<char> = Vec::new();
                extend_range(&mut next, &cur, 0, p);
                extend_range(&mut next, &cur, e, cur.len());
                assert(next@ =~= cur@.subrange(0, p as int) + cur@.subrange(
                    e as int,
                    cur@.len() as int,
                ));
                cur = next;
            },
        }
    }
}

/// The `i`-th tag of `bbcode_tags`.
fn bbcode_tag(i: usize) -> (r: &'static str)
    requires
        i < 16,
    ensures
        r@ == bbcode_tags()[i as int],
        r@.len() > 0,
{
    match i {
        0 => {
            proof {
                reveal_strlit("[list]");
            }
            "[list]"
        },
        1 => {
            proof {
                reveal_strlit("[/list]");
            }
            "[/list]"
        },
        2 => {
            proof {
                reveal_strlit("[*]");
            }
            "[*]"
        },
        3 => {
            proof {
                reveal_strlit("[h1]");
            }
            "[h1]"
        },
        4 => {
            proof {
                reveal_strlit("[/h1]");
            }
            "[/h1]"
        },
        5 => {
            proof {
                reveal_strlit("[h2]");
            }
            "[h2]"
        },
        6 => {
            proof {
                reveal_strlit("[/h2]");
            }
            "[/h2]"
        },
        7 => {
            proof {
                reveal_strlit("[h3]");
            }
            "[h3]"
        },
        8 => {
            proof {
                reveal_strlit("[/h3]");
            }
            "[/h3]"
        },
        9 => {
            proof {
                reveal_strlit("[b]");
            }
            "[b]"
        },
        10 => {
            proof {
                reveal_strlit("[/b]");
            }
            "[/b]"
        },
        11 => {
            proof {
                reveal_strlit("[i]");
            }
            "[i]"
        },
        12 => {
            proof {
                reveal_strlit("[/i]");
            }
            "[/i]"
        },
        13 => {
            proof {
                reveal_strlit("[u]");
            }
            "[u]"
        },
        14 => {
            proof {
                reveal_strlit("[/u]");
            }
            "[/u]"
        },
        _ => {
            proof {
                reveal_strlit("[hr][/hr]");
            }
            "[hr][/hr]"
        },
    }
}

fn collapse_chars(s: &Vec<char>) -> (r: Vec<char>)
    ensures
        r@ == collapse_ws(s@),
{
    let mut out: Vec<char> = Vec::new();
    let mut i: usize = 0;
    assert(s@.take(0) =~= seq![]);
    while i < s.len()
        invariant
            i <= s@.len(),
            out@ == collapse_ws(s@.take(i as int)),
        decreases s@.len() - i,
    {
        let c = s[i];
        let ghost t = s@.take(i + 1);
        assert(t.drop_last() =~= s@.take(i as int));
        assert(t.last() == c);
        if is_whitespace(c) {
        } else if i > 0 && !is_whitespace(s[i - 1]) {
            assert(t[t.len() - 2] == s@[i - 1]);
            out.push(c);
        } else if out.len() == 0 {
            if i > 0 {
                assert(t[t.len() - 2] == s@[i - 1]);
            }
            out.push(c);
            assert(out@ =~= seq![c]);
        } else {
            if i > 0 {
                assert(t[t.len() - 2] == s@[i - 1]);
            }
            out.push(' ');
            out.push(c);
        }
        i = i + 1;
    }
    assert(s@.take(s@.len() as int) =~= s@);
    out
}

/// Strips the most common Steam BBCode and clan-image artifacts from a news
/// body for a plain-text preview: whitespace collapsed to single spaces and
/// more than 400 chars cut to 400 plus `...`.
pub fn clean_contents(raw: &str) -> (r: String)
    ensures
        r@ == cleaned(raw@),
{
    let v = chars_of(raw);
    let mut s = strip_images_chars(v);
    let mut i: usize = 0;
    let sp: Vec<char> = vec![' '];
    assert(sp@ =~= seq![' ']);
    assert(bbcode_tags().len() == 16);
    while i < 16
        invariant
            sp@ == seq![' '],
            bbcode_tags().len() == 16,
            i <= 16,
            replace_tags(s@, bbcode_tags(), i as int) == replace_tags(
                strip_images(raw@),
                bbcode_tags(),
                0,
            ),
        decreases 16 - i,
    {
        let tag = chars_of(bbcode_tag(i));
        s = replace_chars(&s, &tag, &sp);
        i = i + 1;
    }
    let collapsed = collapse_chars(&s);
    if collapsed.len() > 400 {
        let mut out: Vec<char> = Vec::new();
        extend_range(&mut out, &collapsed, 0, 400);
        out.push('.');
        out.push('.');
        out.push('.');
        assert(out@ =~= capped(collapsed@));
        string_of(&out)
    } else {
        string_of(&collapsed)
    }
}

// --- What cleaning leaves out ---------------------------------------------------------

proof fn lemma_strip_removes_images(s: Seq<char>)
    ensures
        !contains_text(strip_images(s), clan_token()),
    decreases s.len(),
{
    lemma_find_from(s, clan_token(), 0);
    match find_from(s, clan_token(), 0) {
        None => {},
        Some(p) => {
            reveal_strlit("{STEAM_CLAN_IMAGE}");
            lemma_occurrence_char(s, clan_token(), p, p);
            lemma_ws_from(s, p);
            let e = ws_from(s, p);
            lemma_strip_removes_images(s.subrange(0, p) + s.subrange(e, s.len() as int));
        },
    }
}

proof fn lemma_tags_keep_and_remove(
    s: Seq<char>,
    tags: Seq<Seq<char>>,
    i: int,
    pats: Seq<Seq<char>>,
)
    requires
        0 <= i <= tags.len(),
        forall|k: int| 0 <= k < tags.len() ==> solid(#[trigger] tags[k]),
        forall|k: int| 0 <= k < pats.len() ==> solid(#[trigger] pats[k]),
        forall|k: int| 0 <= k < pats.len() ==> !contains_text(s, #[trigger] pats[k]),
    ensures
        forall|k: int| 0 <= k < pats.len() ==> !contains_text(replace_tags(s, tags, i), #[trigger] pats[k]),
        forall|k: int| i <= k < tags.len() ==> !contains_text(replace_tags(s, tags, i), #[trigger] tags[k]),
    decreases tags.len() - i,
{
    if i < tags.len() {
        let t = tags[i];
        let s1 = replace_all(s, t, seq![' ']);
        assert forall|k: int| 0 <= k < pats.len() implies !contains_text(s1, #[trigger] pats[k]) by {
            lemma_replace_keeps_absent(s, t, pats[k], 0);
        }
        lemma_replace_removes(s, t, 0);
        let pats1 = pats.push(t);
        assert forall|k: int| 0 <= k < pats1.len() implies !contains_text(s1, #[trigger] pats1[k]) by {
            if k < pats.len() {
                assert(pats1[k] == pats[k]);
            }
        }
        lemma_tags_keep_and_remove(s1, tags, i + 1, pats1);
        assert forall|k: int| 0 <= k < pats.len() implies !contains_text(
            replace_tags(s, tags, i),
            #[trigger] pats[k],
        ) by {
            assert(pats1[k] == pats[k]);
        }
        assert forall|k: int| i <= k < tags.len() implies !contains_text(
            replace_tags(s, tags, i),
            #[trigger] tags[k],
        ) by {
            if k == i {
                assert(pats1[pats.len() as int] == t);
            }
        }
    }
}

/// A whitespace-free tail of the collapsed text is the same tail of the text,
/// when the text ends in a non-whitespace char.
proof fn lemma_collapse_tail(t: Seq<char>, m: int)
    requires
        t.len() > 0,
        !is_ws(t.last()),
        0 <= m <= collapse_ws(t).len(),
        forall|x: int|
            collapse_ws(t).len() - m <= x < collapse_ws(t).len() ==> !is_ws(#[trigger] collapse_ws(t)[x]),
    ensures
        m <= t.len(),
        collapse_ws(t).subrange(collapse_ws(t).len() - m, collapse_ws(t).len() as int) == t.subrange(
            t.len() - m,
            t.len() as int,
        ),
    decreases t.len(),
{
    let r = collapse_ws(t);
    let p = collapse_ws(t.drop_last());
    let c = t.last();
    if m == 0 {
        assert(r.subrange(r.len() - m, r.len() as int) =~= t.subrange(t.len() - m, t.len() as int));
    } else if t.len() >= 2 && !is_ws(t[t.len() - 2]) {
        assert(r == p.push(c));
        let u = t.drop_last();
        assert(u.last() == t[t.len() - 2]);
        assert forall|x: int| p.len() - (m - 1) <= x < p.len() implies !is_ws(#[trigger] p[x]) by {
            assert(r[x] == p[x]);
        }
        lemma_collapse_tail(u, m - 1);
        assert(r.subrange(r.len() - m, r.len() as int) =~= p.subrange(p.len() - (m - 1), p.len() as int).push(c));
        assert(t.subrange(t.len() - m, t.len() as int) =~= u.subrange(u.len() - (m - 1), u.len() as int).push(c));
    } else if p.len() == 0 {
        assert(r == seq![c]);
        assert(r.subrange(r.len() - m, r.len() as int) =~= t.subrange(t.len() - m, t.len() as int));
    } else {
        assert(r == p.push(' ').push(c));
        if m >= 2 {
            assert(!is_ws(r[r.len() - 2]));
            assert(false);
        }
        assert(r.subrange(r.len() - m, r.len() as int) =~= t.subrange(t.len() - m, t.len() as int));
    }
}

/// A whitespace-free piece of the collapsed text is a piece of the text.
proof fn lemma_collapse_window(t: Seq<char>, j: int, k: int)
    requires
        0 <= j,
        0 < k,
        j + k <= collapse_ws(t).len(),
        forall|x: int| j <= x < j + k ==> !is_ws(#[trigger] collapse_ws(t)[x]),
    ensures
        contains_text(t, collapse_ws(t).subrange(j, j + k)),
    decreases t.len(),
{
    let r = collapse_ws(t);
    let w = r.subrange(j, j + k);
    let p = collapse_ws(t.drop_last());
    let c = t.last();
    let u = t.drop_last();
    if is_ws(c) {
        assert(r == p);
        lemma_collapse_window(u, j, k);
        let i = choose|i: int| occurs_at(u, w, i);
        assert(u.subrange(i, i + k) =~= t.subrange(i, i + k));
        assert(occurs_at(t, w, i));
    } else if j + k <= r.len() - 1 {
        // the window lies in the collapse of `t` without its last char
        if t.len() >= 2 && !is_ws(t[t.len() - 2]) {
            assert(r == p.push(c));
        } else if p.len() == 0 {
            assert(r == seq![c]);
        } else {
            assert(r == p.push(' ').push(c));
            if j + k > p.len() {
                assert(r[p.len() as int] == ' ');
                assert(!is_ws(r[p.len() as int]));
            }
        }
        assert(j + k <= p.len());
        assert forall|x: int| j <= x < j + k implies !is_ws(#[trigger] p[x]) by {
            assert(r[x] == p[x]);
        }
        lemma_collapse_window(u, j, k);
        assert(w =~= p.subrange(j, j + k));
        let i = choose|i: int| occurs_at(u, w, i);
        assert(u.subrange(i, i + k) =~= t.subrange(i, i + k));
        assert(occurs_at(t, w, i));
    } else {
        // the window ends with the last char
        lemma_collapse_tail(t, k);
        let i = t.len() - k;
        assert(w =~= r.subrange(r.len() - k, r.len() as int));
        assert(occurs_at(t, w, i));
    }
}

proof fn lemma_collapse_keeps_absent(t: Seq<char>, pat: Seq<char>)
    requires
        solid(pat),
        !contains_text(t, pat),
    ensures
        !contains_text(collapse_ws(t), pat),
{
    let r = collapse_ws(t);
    assert forall|j: int| !occurs_at(r, pat, j) by {
        if occurs_at(r, pat, j) {
            assert forall|x: int| j <= x < j + pat.len() implies !is_ws(#[trigger] r[x]) by {
                lemma_occurrence_char(r, pat, j, x);
            }
            lemma_collapse_window(t, j, pat.len() as int);
            assert(r.subrange(j, j + pat.len()) == pat);
        }
    }
}

proof fn lemma_capped_keeps_absent(s: Seq<char>, pat: Seq<char>)
    requires
        solid(pat),
        !contains_text(s, pat),
    ensures
        !contains_text(capped(s), pat),
{
    if s.len() > 400 {
        let r = capped(s);
        assert forall|j: int| !occurs_at(r, pat, j) by {
            if occurs_at(r, pat, j) {
                if j + pat.len() <= 400 {
                    lemma_occurrence_shift(r, s, pat, j, 0);
                } else {
                    lemma_occurrence_char(r, pat, j, j + pat.len() - 1);
                    assert(r[j + pat.len() - 1] == '.');
                }
            }
        }
    }
}

/// Cleaning leaves no clan-image token and none of the BBCode tags it
/// removes: a summary holds no such markup, whatever the news body was.
pub proof fn lemma_cleaned_has_no_markup(raw: Seq<char>)
    ensures
        !contains_text(cleaned(raw), clan_token()),
        forall|k: int|
            0 <= k < bbcode_tags().len() ==> !contains_text(cleaned(raw), #[trigger] bbcode_tags()[k]),
{
    lemma_markup_solid();
    let s0 = strip_images(raw);
    lemma_strip_removes_images(raw);
    let pats = seq![clan_token()];
    lemma_tags_keep_and_remove(s0, bbcode_tags(), 0, pats);
    let s1 = replace_tags(s0, bbcode_tags(), 0);
    assert(pats[0] == clan_token());
    lemma_collapse_keeps_absent(s1, clan_token());
    lemma_capped_keeps_absent(collapse_ws(s1), clan_token());
    assert forall|k: int| 0 <= k < bbcode_tags().len() implies !contains_text(
        cleaned(raw),
        #[trigger] bbcode_tags()[k],
    ) by {
        lemma_collapse_keeps_absent(s1, bbcode_tags()[k]);
        lemma_capped_keeps_absent(collapse_ws(s1), bbcode_tags()[k]);
    }
}

/// A summary holds none of the BBCode list, heading, bold, italic,
/// underline and rule tags, nor a clan-image token, whatever the news body.
pub proof fn lemma_summary_tags_gone(raw: Seq<char>)
    ensures
        !contains_text(cleaned(raw), "{STEAM_CLAN_IMAGE}"@),
        !contains_text(cleaned(raw), "[list]"@),
        !contains_text(cleaned(raw), "[/list]"@),
        !contains_text(cleaned(raw), "[*]"@),
        !contains_text(cleaned(raw), "[h1]"@),
        !contains_text(cleaned(raw), "[/h1]"@),
        !contains_text(cleaned(raw), "[h2]"@),
        !contains_text(cleaned(raw), "[/h2]"@),
        !contains_text(cleaned(raw), "[h3]"@),
        !contains_text(cleaned(raw), "[/h3]"@),
        !contains_text(cleaned(raw), "[b]"@),
        !contains_text(cleaned(raw), "[/b]"@),
        !contains_text(cleaned(raw), "[i]"@),
        !contains_text(cleaned(raw), "[/i]"@),
        !contains_text(cleaned(raw), "[u]"@),
        !contains_text(cleaned(raw), "[/u]"@),
        !contains_text(cleaned(raw), "[hr][/hr]"@),
{
    lemma_cleaned_has_no_markup(raw);
    reveal_strlit("{STEAM_CLAN_IMAGE}");
    assert(clan_token() =~= "{STEAM_CLAN_IMAGE}"@);
    assert(bbcode_tags()[0] == "[list]"@);
    assert(bbcode_tags()[1] == "[/list]"@);
    assert(bbcode_tags()[2] == "[*]"@);
    assert(bbcode_tags()[3] == "[h1]"@);
    assert(bbcode_tags()[4] == "[/h1]"@);
    assert(bbcode_tags()[5] == "[h2]"@);
    assert(bbcode_tags()[6] == "[/h2]"@);
    assert(bbcode_tags()[7] == "[h3]"@);
    assert(bbcode_tags()[8] == "[/h3]"@);
    assert(bbcode_tags()[9] == "[b]"@);
    assert(bbcode_tags()[10] == "[/b]"@);
    assert(bbcode_tags()[11] == "[i]"@);
    assert(bbcode_tags()[12] == "[/i]"@);
    assert(bbcode_tags()[13] == "[u]"@);
    assert(bbcode_tags()[14] == "[/u]"@);
    assert(bbcode_tags()[15] == "[hr][/hr]"@);
}

/// The shape of a summary, whatever the news body: at most 400 chars, or
/// exactly 400 chars followed by `...`; it starts with no whitespace, and
/// its only whitespace is single spaces between words.
pub proof fn lemma_summary_shape(raw: Seq<char>)
    ensures
        cleaned(raw).len() <= 403,
        cleaned(raw).len() > 400 ==> cleaned(raw).len() == 403 && cleaned(raw)[400] == '.'
            && cleaned(raw)[401] == '.' && cleaned(raw)[402] == '.',
        cleaned(raw).len() > 0 ==> !is_ws(cleaned(raw)[0]),
        forall|k: int|
            0 <= k < cleaned(raw).len() && is_ws(#[trigger] cleaned(raw)[k]) ==> cleaned(raw)[k]
                == ' ' && k + 1 < cleaned(raw).len() && !is_ws(cleaned(raw)[k + 1]),
{
    let s1 = replace_tags(strip_images(raw), bbcode_tags(), 0);
    lemma_collapse_spaced(s1);
    lemma_capped_spaced(collapse_ws(s1));
}

// --- Cleaning twice ---------------------------------------------------------------------

/// Words separated by single spaces: no whitespace at the start, and each
/// whitespace char is a space followed by a non-whitespace char (so none at
/// the end either).
pub open spec fn spaced(s: Seq<char>) -> bool {
    &&& (s.len() > 0 ==> !is_ws(s[0]))
    &&& forall|k: int|
        0 <= k < s.len() && is_ws(#[trigger] s[k]) ==> s[k] == ' ' && k + 1 < s.len() && !is_ws(s[k + 1])
}

/// Like `spaced`, but a single space may end the text.
pub open spec fn spaced_but_last(s: Seq<char>) -> bool {
    &&& (s.len() > 0 ==> !is_ws(s[0]))
    &&& forall|k: int|
        0 <= k < s.len() && is_ws(#[trigger] s[k]) ==> s[k] == ' ' && (k + 1 < s.len() ==> !is_ws(
            s[k + 1],
        ))
}

proof fn lemma_collapse_spaced(s: Seq<char>)
    ensures
        spaced(collapse_ws(s)),
    decreases s.len(),
{
    if s.len() > 0 {
        let u = s.drop_last();
        let p = collapse_ws(u);
        let c = s.last();
        lemma_collapse_spaced(u);
        let r = collapse_ws(s);
        if is_ws(c) {
        } else if s.len() >= 2 && !is_ws(s[s.len() - 2]) {
            assert(r == p.push(c));
            assert forall|k: int| 0 <= k < r.len() && is_ws(#[trigger] r[k]) implies r[k] == ' ' && k
                + 1 < r.len() && !is_ws(r[k + 1]) by {
                assert(k < p.len());
                assert(r[k] == p[k]);
                if k + 1 < p.len() {
                    assert(r[k + 1] == p[k + 1]);
                }
            }
        } else if p.len() == 0 {
            assert(r == seq![c]);
        } else {
            assert(r == p.push(' ').push(c));
            assert forall|k: int| 0 <= k < r.len() && is_ws(#[trigger] r[k]) implies r[k] == ' ' && k
                + 1 < r.len() && !is_ws(r[k + 1]) by {
                if k < p.len() {
                    assert(r[k] == p[k]);
                    if k + 1 < p.len() {
                        assert(r[k + 1] == p[k + 1]);
                    } else {
                        assert(!is_ws(p[k]));
                    }
                }
            }
        }
    }
}

proof fn lemma_collapse_of_spaced(s: Seq<char>)
    requires
        spaced_but_last(s),
    ensures
        collapse_ws(s) == if s.len() > 0 && is_ws(s.last()) {
            s.drop_last()
        } else {
            s
        },
    decreases s.len(),
{
    if s.len() > 0 {
        let u = s.drop_last();
        let p = collapse_ws(u);
        let c = s.last();
        assert(spaced_but_last(u)) by {
            assert forall|k: int| 0 <= k < u.len() && is_ws(#[trigger] u[k]) implies u[k] == ' ' && (k
                + 1 < u.len() ==> !is_ws(u[k + 1])) by {
                assert(u[k] == s[k]);
                if k + 1 < u.len() {
                    assert(u[k + 1] == s[k + 1]);
                }
            }
        }
        lemma_collapse_of_spaced(u);
        if is_ws(c) {
            assert(s.len() >= 2);
            assert(u.last() == s[s.len() - 2]);
            assert(!is_ws(s[s.len() - 2]));
        } else if s.len() >= 2 && !is_ws(s[s.len() - 2]) {
            assert(u.last() == s[s.len() - 2]);
            assert(u.push(c) =~= s);
        } else if p.len() == 0 {
            if u.len() > 0 {
                assert(u.last() == s[s.len() - 2]);
                assert(u.len() == 1);
                assert(is_ws(s[0]));
            }
            assert(s =~= seq![c]);
        } else {
            assert(u.last() == s[s.len() - 2]);
            assert(u.last() == ' ');
            assert(p == u.drop_last());
            assert(p.push(' ').push(c) =~= s);
        }
    }
}

proof fn lemma_capped_spaced(s: Seq<char>)
    requires
        spaced(s),
    ensures
        spaced(capped(s)),
        capped(capped(s)) == capped(s),
{
    if s.len() > 400 {
        let t = capped(s);
        assert(t == s.take(400) + seq!['.', '.', '.']);
        assert forall|k: int| 0 <= k < t.len() && is_ws(#[trigger] t[k]) implies t[k] == ' ' && k + 1
            < t.len() && !is_ws(t[k + 1]) by {
            if k < 400 {
                assert(t[k] == s[k]);
                if k + 1 < 400 {
                    assert(t[k + 1] == s[k + 1]);
                }
            }
        }
        assert(t[0] == s[0]);
        assert(t.take(400) =~= s.take(400));
    }
}

proof fn lemma_tags_absent_keep(s: Seq<char>, tags: Seq<Seq<char>>, i: int)
    requires
        0 <= i <= tags.len(),
        forall|k: int| 0 <= k < tags.len() ==> solid(#[trigger] tags[k]),
        forall|k: int| 0 <= k < tags.len() ==> !contains_text(s, #[trigger] tags[k]),
    ensures
        replace_tags(s, tags, i) == s,
    decreases tags.len() - i,
{
    if i < tags.len() {
        let t = tags[i];
        assert forall|j: int| 0 <= j implies !occurs_at(s, t, j) by {}
        lemma_find_from_none(s, t, 0);
        assert(replace_all(s, t, seq![' ']) =~= s);
        lemma_tags_absent_keep(s, tags, i + 1);
    }
}

/// Cleaning is idempotent: cleaning a cleaned summary gives it back.
pub proof fn lemma_clean_twice(raw: Seq<char>)
    ensures
        cleaned(cleaned(raw)) == cleaned(raw),
{
    let y = collapse_ws(replace_tags(strip_images(raw), bbcode_tags(), 0));
    let x = cleaned(raw);
    assert(x == capped(y));
    lemma_markup_solid();
    lemma_cleaned_has_no_markup(raw);
    assert forall|j: int| 0 <= j implies !occurs_at(x, clan_token(), j) by {}
    lemma_find_from_none(x, clan_token(), 0);
    assert(strip_images(x) == x);
    lemma_tags_absent_keep(x, bbcode_tags(), 0);
    lemma_collapse_spaced(replace_tags(strip_images(raw), bbcode_tags(), 0));
    lemma_capped_spaced(y);
    lemma_collapse_of_spaced(x);
    assert(collapse_ws(x) == x);
}

/// A body that is already plain text, with no `[` or `{`, no whitespace at
/// the start and only single spaces between words, is its own summary when
/// at most 400 chars long, and otherwise its first 400 chars followed by
/// `...`.
pub proof fn lemma_plain_text_summary(raw: Seq<char>)
    requires
        forall|k: int| 0 <= k < raw.len() ==> raw[k] != '[' && raw[k] != '{',
        raw.len() > 0 ==> !is_ws(raw[0]),
        forall|k: int|
            0 <= k < raw.len() && is_ws(#[trigger] raw[k]) ==> raw[k] == ' ' && k + 1 < raw.len()
                && !is_ws(raw[k + 1]),
    ensures
        cleaned(raw) == if raw.len() <= 400 {
            raw
        } else {
            raw.take(400) + seq!['.', '.', '.']
        },
{
    lemma_markup_solid();
    reveal_strlit("{STEAM_CLAN_IMAGE}");
    assert(clan_token()[0] == '{');
    assert forall|j: int| 0 <= j implies !occurs_at(raw, clan_token(), j) by {
        if occurs_at(raw, clan_token(), j) {
            lemma_occurrence_char(raw, clan_token(), j, j);
        }
    }
    lemma_find_from_none(raw, clan_token(), 0);
    assert(strip_images(raw) == raw);
    assert forall|k: int| 0 <= k < bbcode_tags().len() implies (#[trigger] bbcode_tags()[k]).len() > 0
        && bbcode_tags()[k][0] == '[' by {
        reveal_strlit("[list]");
        reveal_strlit("[/list]");
        reveal_strlit("[*]");
        reveal_strlit("[h1]");
        reveal_strlit("[/h1]");
        reveal_strlit("[h2]");
        reveal_strlit("[/h2]");
        reveal_strlit("[h3]");
        reveal_strlit("[/h3]");
        reveal_strlit("[b]");
        reveal_strlit("[/b]");
        reveal_strlit("[i]");
        reveal_strlit("[/i]");
        reveal_strlit("[u]");
        reveal_strlit("[/u]");
        reveal_strlit("[hr][/hr]");
    }
    assert forall|k: int| 0 <= k < bbcode_tags().len() implies !contains_text(
        raw,
        #[trigger] bbcode_tags()[k],
    ) by {
        let t = bbcode_tags()[k];
        if contains_text(raw, t) {
            let j = choose|j: int| occurs_at(raw, t, j);
            lemma_occurrence_char(raw, t, j, j);
        }
    }
    lemma_tags_absent_keep(raw, bbcode_tags(), 0);
    lemma_collapse_of_spaced(raw);
}

// --- Entries -------------------------------------------------------------------------

/// One item of the Steam news API response.
#[derive(Debug, Clone)]
pub struct NewsItem {
    pub gid: String,
    pub title: String,
    pub url: String,
    pub author: String,
    pub contents: String,
    pub feedlabel: String,
    /// Unix timestamp (seconds) of publication.
    pub date: i64,
    pub feedname: String,
    pub tags: Vec<String>,
}

/// Changelog entry prepared for display.
#[derive(Debug, Clone)]
pub struct ChangelogEntry {
    pub gid: String,
    pub title: String,
    pub url: String,
    pub author: String,
    /// Cleaned plain-text excerpt (BBCode / clan-image tokens removed).
    pub summary: String,
    /// Unix seconds, same time base as manifest timestamps.
    pub date: i64,
    /// `YYYY-MM-DD` for display.
    pub date_iso: String,
    pub feed: String,
    pub tags: Vec<String>,
}

/// `e` is the entry made from the news item `raw`: the feed label, or the
/// feed name where the label is empty; the cleaned summary; the ISO date.
pub open spec fn entry_of(raw: NewsItem, e: ChangelogEntry) -> bool {
    &&& e.gid@ == raw.gid@
    &&& e.title@ == raw.title@
    &&& e.url@ == raw.url@
    &&& e.author@ == raw.author@
    &&& e.summary@ == cleaned(raw.contents@)
    &&& e.date == raw.date
    &&& e.date_iso@ == iso_date_of(raw.date)
    &&& e.feed@ == (if raw.feedlabel@.len() == 0 {
        raw.feedname@
    } else {
        raw.feedlabel@
    })
    &&& e.tags@ == raw.tags@
}

/// Turns a news item into a changelog entry.
pub fn changelog_entry(raw: NewsItem) -> (e: ChangelogEntry)
    ensures
        entry_of(raw, e),
{
    let summary = clean_contents(raw.contents.as_str());
    let date_iso = iso_date(raw.date);
    let feed = if raw.feedlabel.as_str().is_empty() {
        raw.feedname
    } else {
        raw.feedlabel
    };
    ChangelogEntry {
        gid: raw.gid,
        title: raw.title,
        url: raw.url,
        author: raw.author,
        summary,
        date: raw.date,
        date_iso,
        feed,
        tags: raw.tags,
    }
}

/// Turns each news item, in order, into a changelog entry.
pub fn changelog_entries(items: Vec<NewsItem>) -> (r: Vec<ChangelogEntry>)
    ensures
        r@.len() == items@.len(),
        forall|i: int| 0 <= i < items@.len() ==> entry_of(items@[i], #[trigger] r@[i]),
{
    let mut items = items;
    let ghost orig = items@;
    let mut rev: Vec<ChangelogEntry> = Vec::new();
    while items.len() > 0
        invariant
            items@.len() + rev@.len() == orig.len(),
            forall|k: int| 0 <= k < items@.len() ==> items@[k] == orig[k],
            forall|k: int|
                0 <= k < rev@.len() ==> entry_of(
                    orig[orig.len() - 1 - k],
                    #[trigger] rev@[k],
                ),
        decreases items@.len(),
    {
        let item = items.pop().unwrap();
        rev.push(changelog_entry(item));
    }
    let mut out: Vec<ChangelogEntry> = Vec::new();
    while rev.len() > 0
        invariant
            out@.len() + rev@.len() == orig.len(),
            forall|k: int|
                0 <= k < rev@.len() ==> entry_of(orig[orig.len() - 1 - k], #[trigger] rev@[k]),
            forall|k: int| 0 <= k < out@.len() ==> entry_of(orig[k], #[trigger] out@[k]),
        decreases rev@.len(),
    {
        let e = rev.pop().unwrap();
        out.push(e);
    }
    out
}

// --- Request URL -----------------------------------------------------------------------

/// The parts joined with `sep` between them.
pub open spec fn joined(parts: Seq<Seq<char>>, sep: Seq<char>) -> Seq<char>
    decreases parts.len(),
{
    if parts.len() == 0 {
        seq![]
    } else if parts.len() == 1 {
        parts[0]
    } else {
        joined(parts.drop_last(), sep) + sep + parts.last()
    }
}

/// The views of a list of string slices.
pub open spec fn str_views(v: Seq<&str>) -> Seq<Seq<char>> {
    v.map_values(|s: &str| s@)
}

/// The news API request for an app: `count` entries of at most 600 chars,
/// restricted to `feeds` unless that list is empty.
pub open spec fn news_url_text(app_id: u32, count: u32, feeds: Seq<Seq<char>>) -> Seq<char> {
    "https://api.steampowered.com/ISteamNews/GetNewsForApp/v2/?appid="@ + decimal(
        app_id as nat,
    ) + "&count="@ + decimal(count as nat) + "&maxlength=600"@ + (if feeds.len() == 0 {
        seq![]
    } else {
        "&feeds="@ + joined(feeds, seq![','])
    })
}

/// The news API request URL for an app.
pub fn news_url(app_id: u32, count: u32, feeds: &[&str]) -> (r: String)
    ensures
        r@ == news_url_text(app_id, count, str_views(feeds@)),
{
    let mut out: Vec<char> = chars_of(
        "https://api.steampowered.com/ISteamNews/GetNewsForApp/v2/?appid=",
    );
    extend_chars(&mut out, &decimal_string(app_id as u64));
    extend_chars(&mut out, &chars_of("&count="));
    extend_chars(&mut out, &decimal_string(count as u64));
    extend_chars(&mut out, &chars_of("&maxlength=600"));
    if feeds.len() > 0 {
        extend_chars(&mut out, &chars_of("&feeds="));
        let ghost base = out@;
        let mut i: usize = 0;
        while i < feeds.len()
            invariant
                i <= feeds@.len(),
                feeds@.len() > 0,
                out@ == base + joined(str_views(feeds@).take(i as int), seq![',']),
            decreases feeds@.len() - i,
        {
            let ghost before = out@;
            if i > 0 {
                out.push(',');
            }
            extend_chars(&mut out, &chars_of(feeds[i]));
            proof {
                let t = str_views(feeds@).take(i + 1);
                assert(t.drop_last() =~= str_views(feeds@).take(i as int));
                if i == 0 {
                    assert(out@ =~= base + joined(t, seq![',']));
                } else {
                    assert(out@ =~= base + joined(t, seq![',']));
                }
            }
            i = i + 1;
        }
        assert(str_views(feeds@).take(feeds@.len() as int) =~= str_views(feeds@));
    }
    let r = string_of(&out);
    assert(r@ =~= news_url_text(app_id, count, str_views(feeds@)));
    r
}

} // verus!
