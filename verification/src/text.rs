//! Character-level text helpers shared by the VDF, ACF and changelog code.
//!
//! Text is modelled as `Seq<char>` (the view of `String` / `str`). Searches
//! are stated over char positions; each search is defined as "the first (or
//! last) position at which the pattern occurs".

use vstd::prelude::*;

verus! {

// --- Whitespace ---------------------------------------------------------------

/// The Unicode `White_Space` property (what `char::is_whitespace` tests).
pub open spec fn is_ws(c: char) -> bool {
    let u = c as u32;
    ||| (0x09 <= u && u <= 0x0D)
    ||| u == 0x20
    ||| u == 0x85
    ||| u == 0xA0
    ||| u == 0x1680
    ||| (0x2000 <= u && u <= 0x200A)
    ||| u == 0x2028
    ||| u == 0x2029
    ||| u == 0x202F
    ||| u == 0x205F
    ||| u == 0x3000
}

/// Executable whitespace test (Unicode `White_Space`).
pub fn is_whitespace(c: char) -> (r: bool)
    ensures
        r == is_ws(c),
{
    let u = c as u32;
    (0x09 <= u && u <= 0x0D) || u == 0x20 || u == 0x85 || u == 0xA0 || u == 0x1680 || (0x2000
        <= u && u <= 0x200A) || u == 0x2028 || u == 0x2029 || u == 0x202F || u == 0x205F || u
        == 0x3000
}

// --- Conversions between strings and char vectors ------------------------------

/// `String::push`: appends one char at the end.
#[verifier::external_body]
pub(crate) fn push_char(s: &mut String, c: char)
    ensures
        final(s)@ == old(s)@.push(c),
{
    s.push(c);
}

/// The chars of a string slice, in order.
pub fn chars_of(s: &str) -> (v: Vec<char>)
    ensures
        v@ == s@,
{
    let n = s.unicode_len();
    let mut v: Vec<char> = Vec::new();
    let mut i: usize = 0;
    while i < n
        invariant
            n == s@.len(),
            i <= n,
            v@ == s@.subrange(0, i as int),
        decreases n - i,
    {
        let c = s.get_char(i);
        v.push(c);
        i = i + 1;
        assert(v@ =~= s@.subrange(0, i as int));
    }
    assert(v@ =~= s@);
    v
}

/// The string made of the chars `v[from..to]`.
pub fn string_of_range(v: &Vec<char>, from: usize, to: usize) -> (s: String)
    requires
        from <= to <= v@.len(),
    ensures
        s@ == v@.subrange(from as int, to as int),
{
    let mut s = String::new();
    let mut i: usize = from;
    while i < to
        invariant
            from <= i <= to <= v@.len(),
            s@ == v@.subrange(from as int, i as int),
        decreases to - i,
    {
        push_char(&mut s, v[i]);
        i = i + 1;
        assert(s@ =~= v@.subrange(from as int, i as int));
    }
    s
}

/// The string made of all chars of `v`.
pub fn string_of(v: &Vec<char>) -> (s: String)
    ensures
        s@ == v@,
{
    let s = string_of_range(v, 0, v.len());
    assert(v@.subrange(0, v@.len() as int) =~= v@);
    s
}

/// Appends the chars of `src` to `dst`.
pub fn extend_chars(dst: &mut Vec<char>, src: &Vec<char>)
    ensures
        final(dst)@ == old(dst)@ + src@,
{
    let mut i: usize = 0;
    while i < src.len()
        invariant
            i <= src@.len(),
            dst@ == old(dst)@ + src@.subrange(0, i as int),
        decreases src@.len() - i,
    {
        dst.push(src[i]);
        i = i + 1;
        assert(dst@ =~= old(dst)@ + src@.subrange(0, i as int));
    }
    assert(src@.subrange(0, src@.len() as int) =~= src@);
}

/// Appends `v[from..to]` to `dst`.
pub fn extend_range(dst: &mut Vec<char>, v: &Vec<char>, from: usize, to: usize)
    requires
        from <= to <= v@.len(),
    ensures
        final(dst)@ == old(dst)@ + v@.subrange(from as int, to as int),
{
    let mut i: usize = from;
    while i < to
        invariant
            from <= i <= to <= v@.len(),
            dst@ == old(dst)@ + v@.subrange(from as int, i as int),
        decreases to - i,
    {
        dst.push(v[i]);
        i = i + 1;
        assert(dst@ =~= old(dst)@ + v@.subrange(from as int, i as int));
    }
}

// --- Searching -------------------------------------------------------------------

/// `pat` occurs in `s` starting at position `i`.
pub open spec fn occurs_at(s: Seq<char>, pat: Seq<char>, i: int) -> bool {
    &&& 0 <= i
    &&& i + pat.len() <= s.len()
    &&& s.subrange(i, i + pat.len()) == pat
}

/// Where an occurrence of `n` covers position `x`, the chars agree.
pub proof fn lemma_occurrence_char(r: Seq<char>, n: Seq<char>, j: int, x: int)
    requires
        occurs_at(r, n, j),
        j <= x < j + n.len(),
    ensures
        r[x] == n[x - j],
{
    assert(r.subrange(j, j + n.len())[x - j] == r[x]);
}

/// An occurrence inside a window where `r` agrees with `c` (shifted by `d`)
/// is an occurrence in `c`.
pub proof fn lemma_occurrence_shift(r: Seq<char>, c: Seq<char>, n: Seq<char>, j: int, d: int)
    requires
        occurs_at(r, n, j),
        0 <= j - d,
        j - d + n.len() <= c.len(),
        forall|k: int| j <= k < j + n.len() ==> r[k] == c[k - d],
    ensures
        occurs_at(c, n, j - d),
{
    assert forall|k: int| 0 <= k < n.len() implies c.subrange(j - d, j - d + n.len())[k] == n[k] by {
        lemma_occurrence_char(r, n, j, j + k);
    }
    assert(c.subrange(j - d, j - d + n.len()) =~= n);
}

/// The first position `>= start` at which `pat` occurs in `s`.
pub open spec fn find_from(s: Seq<char>, pat: Seq<char>, start: int) -> Option<int>
    decreases s.len() - start,
{
    if start < 0 || start + pat.len() > s.len() {
        None
    } else if occurs_at(s, pat, start) {
        Some(start)
    } else if start >= s.len() {
        None
    } else {
        find_from(s, pat, start + 1)
    }
}

/// What `find_from` returns: the least occurrence position at or after `start`.
pub proof fn lemma_find_from(s: Seq<char>, pat: Seq<char>, start: int)
    requires
        0 <= start,
    ensures
        match find_from(s, pat, start) {
            Some(p) => start <= p && occurs_at(s, pat, p) && forall|j: int|
                start <= j < p ==> !occurs_at(s, pat, j),
            None => forall|j: int| start <= j ==> !occurs_at(s, pat, j),
        },
    decreases s.len() - start,
{
    if start + pat.len() > s.len() {
    } else if occurs_at(s, pat, start) {
    } else if start >= s.len() {
    } else {
        lemma_find_from(s, pat, start + 1);
    }
}

/// A position characterised as the least occurrence at or after `start` is
/// what `find_from` returns.
pub proof fn lemma_find_from_least(s: Seq<char>, pat: Seq<char>, start: int, p: int)
    requires
        0 <= start <= p,
        occurs_at(s, pat, p),
        forall|j: int| start <= j < p ==> !occurs_at(s, pat, j),
    ensures
        find_from(s, pat, start) == Some(p),
    decreases p - start,
{
    if start < p {
        lemma_find_from_least(s, pat, start + 1, p);
    }
}

/// No occurrence at or after `start`: `find_from` gives `None`.
pub proof fn lemma_find_from_none(s: Seq<char>, pat: Seq<char>, start: int)
    requires
        0 <= start,
        forall|j: int| start <= j ==> !occurs_at(s, pat, j),
    ensures
        find_from(s, pat, start).is_none(),
{
    lemma_find_from(s, pat, start);
}

/// Whether `pat` occurs at position `i` of `s` (executable).
pub fn matches_at(s: &Vec<char>, pat: &Vec<char>, i: usize) -> (r: bool)
    ensures
        r == occurs_at(s@, pat@, i as int),
{
    if i > s.len() || pat.len() > s.len() - i {
        return false;
    }
    let mut k: usize = 0;
    while k < pat.len()
        invariant
            i <= s@.len(),
            i + pat@.len() <= s@.len(),
            k <= pat@.len(),
            forall|m: int| 0 <= m < k ==> s@[i + m] == pat@[m],
        decreases pat@.len() - k,
    {
        assert(i + k < s.len());
        if s[i + k] != pat[k] {
            assert(s@.subrange(i as int, i + pat@.len())[k as int] != pat@[k as int]);
            return false;
        }
        k = k + 1;
    }
    assert(s@.subrange(i as int, i + pat@.len()) =~= pat@);
    true
}

/// The first position `>= start` at which `pat` occurs in `s` (executable).
pub fn find_chars(s: &Vec<char>, pat: &Vec<char>, start: usize) -> (r: Option<usize>)
    ensures
        match r {
            Some(p) => find_from(s@, pat@, start as int) == Some(p as int),
            None => find_from(s@, pat@, start as int).is_none(),
        },
{
    if start > s.len() {
        return None;
    }
    let mut i = start;
    while pat.len() <= s.len() - i
        invariant
            start <= i <= s@.len(),
            find_from(s@, pat@, start as int) == find_from(s@, pat@, i as int),
        decreases s@.len() - i,
    {
        if matches_at(s, pat, i) {
            return Some(i);
        }
        if i == s.len() {
            return None;
        }
        i = i + 1;
    }
    None
}

/// A one-char pattern.
pub open spec fn single(c: char) -> Seq<char> {
    seq![c]
}

/// The first position `>= start` holding the char `c` (executable).
pub fn find_char(s: &Vec<char>, c: char, start: usize) -> (r: Option<usize>)
    ensures
        match r {
            Some(p) => find_from(s@, single(c), start as int) == Some(p as int),
            None => find_from(s@, single(c), start as int).is_none(),
        },
{
    let mut i = start;
    while i < s.len()
        invariant
            start <= i,
            find_from(s@, single(c), start as int) == find_from(s@, single(c), i as int),
        decreases s@.len() - i,
    {
        if s[i] == c {
            assert(s@.subrange(i as int, i + 1) =~= single(c));
            return Some(i);
        }
        assert(s@.subrange(i as int, i + 1)[0] == s@[i as int]);
        i = i + 1;
    }
    None
}

/// The last position `< end` holding the char `c`.
pub open spec fn rfind_before(s: Seq<char>, c: char, end: int) -> Option<int>
    decreases end,
{
    if end <= 0 {
        None
    } else if s[end - 1] == c {
        Some(end - 1)
    } else {
        rfind_before(s, c, end - 1)
    }
}

/// The last position `< end` holding the char `c` (executable).
pub fn rfind_char(s: &Vec<char>, c: char, end: usize) -> (r: Option<usize>)
    requires
        end <= s@.len(),
    ensures
        match r {
            Some(p) => rfind_before(s@, c, end as int) == Some(p as int),
            None => rfind_before(s@, c, end as int).is_none(),
        },
{
    let mut i = end;
    while i > 0
        invariant
            i <= end <= s@.len(),
            rfind_before(s@, c, end as int) == rfind_before(s@, c, i as int),
        decreases i,
    {
        if s[i - 1] == c {
            return Some(i - 1);
        }
        i = i - 1;
    }
    None
}

// --- Replacement -------------------------------------------------------------------

/// Replaces every occurrence of `pat` in `s[i..]`, scanning left to right
/// without overlaps (what `str::replace` does), by `rep`.
pub open spec fn replace_from(s: Seq<char>, pat: Seq<char>, rep: Seq<char>, i: int) -> Seq<char>
    decreases s.len() - i,
{
    if i < 0 || i > s.len() || pat.len() == 0 {
        s.subrange(i, s.len() as int)
    } else {
        match find_from(s, pat, i) {
            None => s.subrange(i, s.len() as int),
            Some(p) => if i <= p && p + pat.len() <= s.len() {
                s.subrange(i, p) + rep + replace_from(s, pat, rep, p + pat.len())
            } else {
                s.subrange(i, s.len() as int)
            },
        }
    }
}

/// All non-overlapping occurrences of a non-empty `pat` in `s` replaced by `rep`.
pub open spec fn replace_all(s: Seq<char>, pat: Seq<char>, rep: Seq<char>) -> Seq<char> {
    replace_from(s, pat, rep, 0)
}

/// Replacing `t` by a space cannot make a pattern appear that has no space.
pub proof fn lemma_replace_keeps_absent(s: Seq<char>, t: Seq<char>, pat: Seq<char>, i: int)
    requires
        0 <= i <= s.len(),
        t.len() > 0,
        pat.len() > 0,
        forall|k: int| 0 <= k < pat.len() ==> pat[k] != ' ',
        !contains_text(s, pat),
    ensures
        !contains_text(replace_from(s, t, seq![' '], i), pat),
    decreases s.len() - i,
{
    lemma_find_from(s, t, i);
    match find_from(s, t, i) {
        None => {
            let x = s.subrange(i, s.len() as int);
            assert(replace_from(s, t, seq![' '], i) == x);
            assert forall|j: int| !occurs_at(x, pat, j) by {
                if occurs_at(x, pat, j) {
                    lemma_occurrence_shift(x, s, pat, j, -i);
                }
            }
        },
        Some(p) => {
            let a = s.subrange(i, p);
            let b = replace_from(s, t, seq![' '], p + t.len());
            lemma_replace_keeps_absent(s, t, pat, p + t.len());
            let x = a + seq![' '] + b;
            assert(replace_from(s, t, seq![' '], i) == x);
            assert forall|j: int| !occurs_at(x, pat, j) by {
                if occurs_at(x, pat, j) {
                    if j + pat.len() <= a.len() {
                        lemma_occurrence_shift(x, s, pat, j, -i);
                    } else if j <= a.len() {
                        lemma_occurrence_char(x, pat, j, a.len() as int);
                    } else {
                        lemma_occurrence_shift(x, b, pat, j, (a.len() + 1) as int);
                    }
                }
            }
        },
    }
}

/// Replacing every `t` by a space (left to right) leaves no `t`, when `t`
/// has no space.
pub proof fn lemma_replace_removes(s: Seq<char>, t: Seq<char>, i: int)
    requires
        0 <= i <= s.len(),
        t.len() > 0,
        forall|k: int| 0 <= k < t.len() ==> t[k] != ' ',
    ensures
        !contains_text(replace_from(s, t, seq![' '], i), t),
    decreases s.len() - i,
{
    lemma_find_from(s, t, i);
    match find_from(s, t, i) {
        None => {
            let x = s.subrange(i, s.len() as int);
            assert(replace_from(s, t, seq![' '], i) == x);
            assert forall|j: int| !occurs_at(x, t, j) by {
                if occurs_at(x, t, j) {
                    lemma_occurrence_shift(x, s, t, j, -i);
                }
            }
        },
        Some(p) => {
            let a = s.subrange(i, p);
            let b = replace_from(s, t, seq![' '], p + t.len());
            lemma_replace_removes(s, t, p + t.len());
            let x = a + seq![' '] + b;
            assert(replace_from(s, t, seq![' '], i) == x);
            assert forall|j: int| !occurs_at(x, t, j) by {
                if occurs_at(x, t, j) {
                    if j + t.len() <= a.len() {
                        lemma_occurrence_shift(x, s, t, j, -i);
                    } else if j <= a.len() {
                        lemma_occurrence_char(x, t, j, a.len() as int);
                    } else {
                        lemma_occurrence_shift(x, b, t, j, (a.len() + 1) as int);
                    }
                }
            }
        },
    }
}

/// Replaces every occurrence of the non-empty `pat` in `s` by `rep` (executable).
pub fn replace_chars(s: &Vec<char>, pat: &Vec<char>, rep: &Vec<char>) -> (r: Vec<char>)
    requires
        pat@.len() > 0,
    ensures
        r@ == replace_all(s@, pat@, rep@),
{
    let mut out: Vec<char> = Vec::new();
    let mut i: usize = 0;
    assert(s@.subrange(0, 0) =~= Seq::<char>::empty());
    while i <= s.len()
        invariant
            pat@.len() > 0,
            i <= s@.len(),
            out@ + replace_from(s@, pat@, rep@, i as int) == replace_all(s@, pat@, rep@),
        decreases s@.len() + 1 - i,
    {
        match find_chars(s, pat, i) {
            None => {
                extend_range(&mut out, s, i, s.len());
                return out;
            },
            Some(p) => {
                proof {
                    lemma_find_from(s@, pat@, i as int);
                }
                let ghost prev = out@;
                extend_range(&mut out, s, i, p);
                extend_chars(&mut out, rep);
                assert(out@ + replace_from(s@, pat@, rep@, p + pat@.len()) =~= prev
                    + replace_from(s@, pat@, rep@, i as int));
                i = p + pat.len();
            },
        }
    }
    out
}

// --- Decimal numbers ---------------------------------------------------------------

/// The decimal digits of `n` (no sign, no leading zeros; `0` is `"0"`).
pub open spec fn decimal(n: nat) -> Seq<char>
    decreases n,
{
    if n < 10 {
        seq![digit_char(n)]
    } else {
        decimal(n / 10).push(digit_char(n % 10))
    }
}

/// The ASCII digit for a value below ten.
pub open spec fn digit_char(d: nat) -> char {
    (('0' as u32) + d) as char
}

/// `n` written in decimal, as `Display` writes an unsigned integer.
pub fn decimal_string(n: u64) -> (s: Vec<char>)
    ensures
        s@ == decimal(n as nat),
    decreases n,
{
    if n < 10 {
        let c = char_of_digit(n);
        let mut v = Vec::new();
        v.push(c);
        assert(v@ =~= decimal(n as nat));
        v
    } else {
        let mut v = decimal_string(n / 10);
        v.push(char_of_digit(n % 10));
        v
    }
}

fn char_of_digit(d: u64) -> (c: char)
    requires
        d < 10,
    ensures
        c == digit_char(d as nat),
{
    if d == 0 {
        '0'
    } else if d == 1 {
        '1'
    } else if d == 2 {
        '2'
    } else if d == 3 {
        '3'
    } else if d == 4 {
        '4'
    } else if d == 5 {
        '5'
    } else if d == 6 {
        '6'
    } else if d == 7 {
        '7'
    } else if d == 8 {
        '8'
    } else {
        '9'
    }
}

// --- Parsing decimal integers --------------------------------------------------------

/// An ASCII digit.
pub open spec fn is_digit(c: char) -> bool {
    '0' <= c && c <= '9'
}

/// Every char of `s` is an ASCII digit.
pub open spec fn all_digits(s: Seq<char>) -> bool {
    forall|k: int| 0 <= k < s.len() ==> is_digit(s[k])
}

/// The value of a string of ASCII digits.
pub open spec fn digits_value(s: Seq<char>) -> nat
    decreases s.len(),
{
    if s.len() == 0 {
        0
    } else {
        digits_value(s.drop_last()) * 10 + ((s.last() as u32) - ('0' as u32)) as nat
    }
}

/// `s` without a leading sign char `sign`, if it has one.
pub open spec fn unsigned_body(s: Seq<char>) -> Seq<char> {
    if s.len() > 0 && s[0] == '+' {
        s.drop_first()
    } else {
        s
    }
}

/// What `str::parse` gives for an unsigned integer type whose largest value
/// is `max`: an optional `+` then one or more ASCII digits, within range.
pub open spec fn parse_unsigned(s: Seq<char>, max: nat) -> Option<nat> {
    let body = unsigned_body(s);
    if body.len() > 0 && all_digits(body) && digits_value(body) <= max {
        Some(digits_value(body))
    } else {
        None
    }
}

/// What `str::parse::<i64>` gives: an optional `+` or `-` then one or more
/// ASCII digits, within range.
pub open spec fn parse_signed_i64(s: Seq<char>) -> Option<int> {
    if s.len() > 0 && s[0] == '-' {
        let body = s.drop_first();
        if body.len() > 0 && all_digits(body) && digits_value(body) <= 0x8000_0000_0000_0000 {
            Some(-(digits_value(body) as int))
        } else {
            None
        }
    } else {
        match parse_unsigned(s, 0x7FFF_FFFF_FFFF_FFFF) {
            Some(v) => Some(v as int),
            None => None,
        }
    }
}

/// The digit value `min(digits_value(v[from..]), 2^64)`, or `None` where a
/// char is not a digit or the range is empty.
fn digits_capped(v: &Vec<char>, from: usize) -> (r: Option<u128>)
    requires
        from <= v@.len(),
    ensures
        match r {
            Some(x) => {
                let body = v@.subrange(from as int, v@.len() as int);
                &&& body.len() > 0
                &&& all_digits(body)
                &&& x as int == if digits_value(body) < 0x1_0000_0000_0000_0000 {
                    digits_value(body) as int
                } else {
                    0x1_0000_0000_0000_0000
                }
            },
            None => {
                let body = v@.subrange(from as int, v@.len() as int);
                body.len() == 0 || !all_digits(body)
            },
        },
{
    if from == v.len() {
        return None;
    }
    let cap: u128 = 0x1_0000_0000_0000_0000;
    let mut acc: u128 = 0;
    let mut i = from;
    while i < v.len()
        invariant
            from <= i <= v@.len(),
            cap == 0x1_0000_0000_0000_0000,
            all_digits(v@.subrange(from as int, i as int)),
            acc as int == if digits_value(v@.subrange(from as int, i as int)) < cap {
                digits_value(v@.subrange(from as int, i as int)) as int
            } else {
                cap as int
            },
        decreases v@.len() - i,
    {
        let c = v[i];
        let ghost prefix = v@.subrange(from as int, i as int);
        let ghost next = v@.subrange(from as int, i + 1);
        assert(next.drop_last() =~= prefix);
        assert(next.last() == c);
        if c < '0' || c > '9' {
            assert(!is_digit(v@.subrange(from as int, v@.len() as int)[i - from]));
            return None;
        }
        let d = (c as u32 - '0' as u32) as u128;
        let grown = acc * 10 + d;
        acc = if grown < cap {
            grown
        } else {
            cap
        };
        i = i + 1;
        assert(all_digits(v@.subrange(from as int, i as int))) by {
            assert forall|k: int| 0 <= k < next.len() implies is_digit(next[k]) by {
                if k < prefix.len() {
                    assert(next[k] == prefix[k]);
                }
            }
        }
    }
    Some(acc)
}

/// `str::parse::<u64>`.
pub fn parse_u64(s: &str) -> (r: Option<u64>)
    ensures
        match r {
            Some(x) => parse_unsigned(s@, u64::MAX as nat) == Some(x as nat),
            None => parse_unsigned(s@, u64::MAX as nat).is_none(),
        },
{
    let v = chars_of(s);
    let from: usize = if v.len() > 0 && v[0] == '+' {
        1
    } else {
        0
    };
    assert(v@.subrange(from as int, v@.len() as int) =~= unsigned_body(s@));
    match digits_capped(&v, from) {
        None => None,
        Some(x) => if x <= u64::MAX as u128 {
            Some(x as u64)
        } else {
            None
        },
    }
}

/// `str::parse::<u32>`.
pub fn parse_u32(s: &str) -> (r: Option<u32>)
    ensures
        match r {
            Some(x) => parse_unsigned(s@, u32::MAX as nat) == Some(x as nat),
            None => parse_unsigned(s@, u32::MAX as nat).is_none(),
        },
{
    let v = chars_of(s);
    let from: usize = if v.len() > 0 && v[0] == '+' {
        1
    } else {
        0
    };
    assert(v@.subrange(from as int, v@.len() as int) =~= unsigned_body(s@));
    match digits_capped(&v, from) {
        None => None,
        Some(x) => if x <= u32::MAX as u128 {
            Some(x as u32)
        } else {
            None
        },
    }
}

/// `str::parse::<i64>`.
pub fn parse_i64(s: &str) -> (r: Option<i64>)
    ensures
        match r {
            Some(x) => parse_signed_i64(s@) == Some(x as int),
            None => parse_signed_i64(s@).is_none(),
        },
{
    let v = chars_of(s);
    if v.len() > 0 && v[0] == '-' {
        assert(v@.subrange(1, v@.len() as int) =~= s@.drop_first());
        match digits_capped(&v, 1) {
            None => None,
            Some(x) => if x <= 0x8000_0000_0000_0000u128 {
                Some((0i128 - (x as i128)) as i64)
            } else {
                None
            },
        }
    } else {
        let from: usize = if v.len() > 0 && v[0] == '+' {
            1
        } else {
            0
        };
        assert(v@.subrange(from as int, v@.len() as int) =~= unsigned_body(s@));
        match digits_capped(&v, from) {
            None => None,
            Some(x) => if x <= 0x7FFF_FFFF_FFFF_FFFFu128 {
                Some(x as i64)
            } else {
                None
            },
        }
    }
}

// --- Containment, prefixes and suffixes ---------------------------------------------

/// `pat` occurs somewhere in `s` (what `str::contains` tests).
pub open spec fn contains_text(s: Seq<char>, pat: Seq<char>) -> bool {
    exists|i: int| occurs_at(s, pat, i)
}

/// Whether `pat` occurs in `s` (executable).
pub fn contains_chars(s: &Vec<char>, pat: &Vec<char>) -> (r: bool)
    ensures
        r == contains_text(s@, pat@),
{
    proof {
        lemma_find_from(s@, pat@, 0);
    }
    match find_chars(s, pat, 0) {
        Some(p) => {
            assert(occurs_at(s@, pat@, p as int));
            true
        },
        None => {
            assert forall|i: int| !occurs_at(s@, pat@, i) by {
                if 0 <= i {
                }
            }
            false
        },
    }
}

/// `str::contains` with a string pattern.
pub fn contains_str(s: &str, pat: &str) -> (r: bool)
    ensures
        r == contains_text(s@, pat@),
{
    contains_chars(&chars_of(s), &chars_of(pat))
}

/// `s` starts with `p`.
pub open spec fn has_prefix(s: Seq<char>, p: Seq<char>) -> bool {
    p.len() <= s.len() && s.subrange(0, p.len() as int) == p
}

/// `s` ends with `p`.
pub open spec fn has_suffix(s: Seq<char>, p: Seq<char>) -> bool {
    p.len() <= s.len() && s.subrange(s.len() - p.len(), s.len() as int) == p
}

/// `str::starts_with` with a string pattern.
pub fn starts_with_str(s: &str, p: &str) -> (r: bool)
    ensures
        r == has_prefix(s@, p@),
{
    let v = chars_of(s);
    let w = chars_of(p);
    matches_at(&v, &w, 0)
}

/// `str::ends_with` with a string pattern.
pub fn ends_with_str(s: &str, p: &str) -> (r: bool)
    ensures
        r == has_suffix(s@, p@),
{
    let v = chars_of(s);
    let w = chars_of(p);
    if w.len() > v.len() {
        return false;
    }
    matches_at(&v, &w, v.len() - w.len())
}

/// `str::strip_suffix`: `s` without the suffix `p`, if it ends with it.
pub fn strip_suffix_str(s: &str, p: &str) -> (r: Option<String>)
    ensures
        match r {
            Some(t) => has_suffix(s@, p@) && t@ == s@.subrange(0, s@.len() - p@.len()),
            None => !has_suffix(s@, p@),
        },
{
    let v = chars_of(s);
    let w = chars_of(p);
    if w.len() > v.len() {
        return None;
    }
    if matches_at(&v, &w, v.len() - w.len()) {
        Some(string_of_range(&v, 0, v.len() - w.len()))
    } else {
        None
    }
}

// --- Case ------------------------------------------------------------------------

/// The lowercase of a text by the Unicode case tables (`str::to_lowercase`).
pub uninterp spec fn lowercase_of(s: Seq<char>) -> Seq<char>;

/// `str::to_lowercase`; its result is named `lowercase_of`, as the Unicode
/// mapping (which may change a char into several) is not restated here.
#[verifier::external_body]
pub(crate) fn to_lowercase(s: &str) -> (r: String)
    ensures
        r@ == lowercase_of(s@),
{
    s.to_lowercase()
}

} // verus!
