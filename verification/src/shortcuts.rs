//! Steam's `shortcuts.vdf` (binary VDF) for non-Steam game entries.
//!
//! Layout written here:
//! `MAP "shortcuts" { MAP "0" { STRING "AppName" .. STRING "Exe" .. STRING "StartDir" .. END } .. END } END`
//! where every string is UTF-8 followed by a NUL byte. The reader accepts the
//! fields in any order and any case, skips nested maps and int32 fields, and
//! ignores unknown keys.

use vstd::prelude::*;
use vstd::utf8::*;

use crate::text::{chars_of, decimal, decimal_string, string_of};

verus! {

broadcast use {encode_utf8_valid_utf8, encode_utf8_decode_utf8};

/// Type tag: start of a nested map.
pub const VDF_MAP: u8 = 0x00;

/// Type tag: a string field.
pub const VDF_STRING: u8 = 0x01;

/// Type tag: a 32-bit integer field.
pub const VDF_INT32: u8 = 0x02;

/// Type tag: end of the current map.
pub const VDF_END: u8 = 0x08;

/// A non-Steam shortcut entry.
#[derive(Debug, Clone, PartialEq)]
pub struct Shortcut {
    pub app_name: String,
    pub exe: String,
    pub start_dir: String,
}

impl View for Shortcut {
    /// `(app_name, exe, start_dir)`.
    type V = (Seq<char>, Seq<char>, Seq<char>);

    open spec fn view(&self) -> Self::V {
        (self.app_name@, self.exe@, self.start_dir@)
    }
}

/// The views of a list of shortcuts.
pub open spec fn views(s: Seq<Shortcut>) -> Seq<(Seq<char>, Seq<char>, Seq<char>)> {
    s.map_values(|x: Shortcut| x@)
}

// --- Writing -------------------------------------------------------------------

/// A NUL-terminated UTF-8 string.
pub open spec fn cstr(s: Seq<char>) -> Seq<u8> {
    encode_utf8(s).push(0u8)
}

pub open spec fn key_root() -> Seq<char> {
    seq!['s', 'h', 'o', 'r', 't', 'c', 'u', 't', 's']
}

pub open spec fn key_app_name() -> Seq<char> {
    seq!['A', 'p', 'p', 'N', 'a', 'm', 'e']
}

pub open spec fn key_exe() -> Seq<char> {
    seq!['E', 'x', 'e']
}

pub open spec fn key_start_dir() -> Seq<char> {
    seq!['S', 't', 'a', 'r', 't', 'D', 'i', 'r']
}

/// A string field: tag, key, value.
pub open spec fn string_field(key: Seq<char>, value: Seq<char>) -> Seq<u8> {
    seq![VDF_STRING] + cstr(key) + cstr(value)
}

/// The bytes of the `i`-th entry.
pub open spec fn entry_bytes(i: nat, sc: (Seq<char>, Seq<char>, Seq<char>)) -> Seq<u8> {
    seq![VDF_MAP] + cstr(decimal(i)) + string_field(key_app_name(), sc.0) + string_field(
        key_exe(),
        sc.1,
    ) + string_field(key_start_dir(), sc.2) + seq![VDF_END]
}

/// The bytes of the first `n` entries.
pub open spec fn entries_bytes(list: Seq<(Seq<char>, Seq<char>, Seq<char>)>, n: int) -> Seq<u8>
    decreases n,
{
    if n <= 0 {
        seq![]
    } else {
        entries_bytes(list, n - 1) + entry_bytes((n - 1) as nat, list[n - 1])
    }
}

/// The whole `shortcuts.vdf` document for a list of entries.
pub open spec fn shortcuts_bytes(list: Seq<(Seq<char>, Seq<char>, Seq<char>)>) -> Seq<u8> {
    seq![VDF_MAP] + cstr(key_root()) + entries_bytes(list, list.len() as int) + seq![
        VDF_END,
        VDF_END,
    ]
}

/// Appends `s` as a NUL-terminated UTF-8 string.
pub fn push_cstr(b: &mut Vec<u8>, s: &str)
    ensures
        final(b)@ == old(b)@ + cstr(s@),
{
    let bytes = s.as_bytes();
    let mut i: usize = 0;
    while i < bytes.len()
        invariant
            bytes@ == encode_utf8(s@),
            i <= bytes@.len(),
            b@ == old(b)@ + bytes@.subrange(0, i as int),
        decreases bytes@.len() - i,
    {
        b.push(bytes[i]);
        i = i + 1;
        assert(b@ =~= old(b)@ + bytes@.subrange(0, i as int));
    }
    b.push(0u8);
    assert(bytes@.subrange(0, bytes@.len() as int) =~= bytes@);
    assert(b@ =~= old(b)@ + cstr(s@));
}

/// Appends a string field.
pub fn push_string_field(b: &mut Vec<u8>, key: &str, value: &str)
    ensures
        final(b)@ == old(b)@ + string_field(key@, value@),
{
    b.push(VDF_STRING);
    push_cstr(b, key);
    push_cstr(b, value);
    assert(b@ =~= old(b)@ + string_field(key@, value@));
}

/// Serializes the shortcut list into the `shortcuts.vdf` layout.
pub fn serialize_shortcuts(shortcuts: &[Shortcut]) -> (b: Vec<u8>)
    ensures
        b@ == shortcuts_bytes(views(shortcuts@)),
{
    let ghost list = views(shortcuts@);
    let mut b: Vec<u8> = Vec::new();
    b.push(VDF_MAP);
    push_cstr(&mut b, "shortcuts");
    proof {
        reveal_strlit("shortcuts");
        assert("shortcuts"@ =~= key_root());
    }
    let ghost header = b@;
    assert(header =~= seq![VDF_MAP] + cstr(key_root()));
    let mut i: usize = 0;
    while i < shortcuts.len()
        invariant
            list == views(shortcuts@),
            i <= shortcuts@.len(),
            header == seq![VDF_MAP] + cstr(key_root()),
            b@ == header + entries_bytes(list, i as int),
        decreases shortcuts@.len() - i,
    {
        let sc = &shortcuts[i];
        let ghost before = b@;
        b.push(VDF_MAP);
        let digits = decimal_string(i as u64);
        let index = string_of(&digits);
        push_cstr(&mut b, index.as_str());
        push_string_field(&mut b, "AppName", sc.app_name.as_str());
        push_string_field(&mut b, "Exe", sc.exe.as_str());
        push_string_field(&mut b, "StartDir", sc.start_dir.as_str());
        b.push(VDF_END);
        proof {
            reveal_strlit("AppName");
            reveal_strlit("Exe");
            reveal_strlit("StartDir");
            assert("AppName"@ =~= key_app_name());
            assert("Exe"@ =~= key_exe());
            assert("StartDir"@ =~= key_start_dir());
            assert(list[i as int] == sc@);
            assert(b@ =~= before + entry_bytes(i as nat, list[i as int]));
        }
        i = i + 1;
        assert(b@ =~= header + entries_bytes(list, i as int));
    }
    b.push(VDF_END);
    b.push(VDF_END);
    assert(b@ =~= shortcuts_bytes(list));
    b
}

// --- Reading -------------------------------------------------------------------

/// The text of string bytes that are not valid UTF-8, with invalid sequences
/// replaced (what `String::from_utf8_lossy` produces).
pub uninterp spec fn utf8_lossy_text(bytes: Seq<u8>) -> Seq<char>;

/// The text of the bytes of a string field.
pub open spec fn cstr_text(bytes: Seq<u8>) -> Seq<char> {
    if valid_utf8(bytes) {
        decode_utf8(bytes)
    } else {
        utf8_lossy_text(bytes)
    }
}

/// `String::from_utf8_lossy`: valid UTF-8 is decoded as is; for other input
/// the result is named `utf8_lossy_text`. std replaces each invalid sequence
/// by U+FFFD and decodes the valid ones, so a NUL char comes only from a zero
/// byte: bytes without one give text without a NUL. Which chars replace which
/// bytes is not stated further.
#[verifier::external_body]
fn utf8_lossy(bytes: &[u8]) -> (s: String)
    ensures
        valid_utf8(bytes@) ==> s@ == decode_utf8(bytes@),
        !valid_utf8(bytes@) ==> s@ == utf8_lossy_text(bytes@),
        (forall|k: int| 0 <= k < bytes@.len() ==> bytes@[k] != 0u8) ==> nul_free(s@),
{
    String::from_utf8_lossy(bytes).into_owned()
}

/// The first NUL byte at or after `i`.
pub open spec fn nul_from(b: Seq<u8>, i: int) -> Option<int>
    decreases b.len() - i,
{
    if i < 0 || i >= b.len() {
        None
    } else if b[i] == 0 {
        Some(i)
    } else {
        nul_from(b, i + 1)
    }
}

/// The NUL-terminated string at `i` and the position after its NUL.
pub open spec fn read_cstr_at(b: Seq<u8>, i: int) -> Option<(Seq<char>, int)> {
    match nul_from(b, i) {
        Some(z) => Some((cstr_text(b.subrange(i, z)), z + 1)),
        None => None,
    }
}

/// ASCII lowercase of one char.
pub open spec fn ascii_lower(c: char) -> char {
    if 'A' <= c && c <= 'Z' {
        ((c as u32) + 32) as char
    } else {
        c
    }
}

/// `a` equals `b` up to ASCII case.
pub open spec fn same_ignoring_ascii_case(a: Seq<char>, b: Seq<char>) -> bool {
    &&& a.len() == b.len()
    &&& forall|k: int| 0 <= k < a.len() ==> ascii_lower(a[k]) == ascii_lower(b[k])
}

pub open spec fn lower_app_name() -> Seq<char> {
    seq!['a', 'p', 'p', 'n', 'a', 'm', 'e']
}

pub open spec fn lower_exe() -> Seq<char> {
    seq!['e', 'x', 'e']
}

pub open spec fn lower_start_dir() -> Seq<char> {
    seq!['s', 't', 'a', 'r', 't', 'd', 'i', 'r']
}

/// The entry after reading the string field `key = val`: the three known
/// keys (matched without regard to case) set their field, others are ignored.
pub open spec fn set_field(
    acc: (Seq<char>, Seq<char>, Seq<char>),
    key: Seq<char>,
    val: Seq<char>,
) -> (Seq<char>, Seq<char>, Seq<char>) {
    if same_ignoring_ascii_case(key, lower_app_name()) {
        (val, acc.1, acc.2)
    } else if same_ignoring_ascii_case(key, lower_exe()) {
        (acc.0, val, acc.2)
    } else if same_ignoring_ascii_case(key, lower_start_dir()) {
        (acc.0, acc.1, val)
    } else {
        acc
    }
}

/// Skips the rest of a nested map starting at `i`; the position after its END.
pub open spec fn skip_map_at(b: Seq<u8>, i: int) -> Option<int>
    decreases b.len() + 5 - i,
{
    if i < 0 || i >= b.len() {
        None
    } else if b[i] == VDF_END {
        Some(i + 1)
    } else if b[i] == VDF_STRING {
        match read_cstr_at(b, i + 1) {
            None => None,
            Some((_, j)) => if j <= i || j > b.len() {
                None
            } else {
                match read_cstr_at(b, j) {
                    None => None,
                    Some((_, k)) => if k <= j || k > b.len() {
                        None
                    } else {
                        skip_map_at(b, k)
                    },
                }
            },
        }
    } else if b[i] == VDF_MAP {
        match read_cstr_at(b, i + 1) {
            None => None,
            Some((_, j)) => if j <= i || j > b.len() {
                None
            } else {
                match skip_map_at(b, j) {
                    None => None,
                    Some(m) => if m <= i || m > b.len() {
                        None
                    } else {
                        skip_map_at(b, m)
                    },
                }
            },
        }
    } else if b[i] == VDF_INT32 {
        match read_cstr_at(b, i + 1) {
            None => None,
            Some((_, j)) => if j <= i || j > b.len() {
                None
            } else {
                skip_map_at(b, j + 4)
            },
        }
    } else {
        None
    }
}

/// Reads the fields of one entry starting at `i` into `acc`; the entry and
/// the position after its END.
pub open spec fn parse_entry_at(b: Seq<u8>, i: int, acc: (Seq<char>, Seq<char>, Seq<char>)) -> Option<
    ((Seq<char>, Seq<char>, Seq<char>), int),
>
    decreases b.len() + 5 - i,
{
    if i < 0 || i >= b.len() {
        None
    } else if b[i] == VDF_END {
        Some((acc, i + 1))
    } else if b[i] == VDF_STRING {
        match read_cstr_at(b, i + 1) {
            None => None,
            Some((key, j)) => if j <= i || j > b.len() {
                None
            } else {
                match read_cstr_at(b, j) {
                    None => None,
                    Some((val, k)) => if k <= j || k > b.len() {
                        None
                    } else {
                        parse_entry_at(b, k, set_field(acc, key, val))
                    },
                }
            },
        }
    } else if b[i] == VDF_MAP {
        match read_cstr_at(b, i + 1) {
            None => None,
            Some((_, j)) => if j <= i || j > b.len() {
                None
            } else {
                match skip_map_at(b, j) {
                    None => None,
                    Some(m) => if m <= i || m > b.len() {
                        None
                    } else {
                        parse_entry_at(b, m, acc)
                    },
                }
            },
        }
    } else if b[i] == VDF_INT32 {
        match read_cstr_at(b, i + 1) {
            None => None,
            Some((_, j)) => if j <= i || j > b.len() {
                None
            } else {
                parse_entry_at(b, j + 4, acc)
            },
        }
    } else {
        None
    }
}

/// An entry with all three fields empty.
pub open spec fn empty_entry() -> (Seq<char>, Seq<char>, Seq<char>) {
    (seq![], seq![], seq![])
}

/// Reads entries starting at `i` (after `acc`) up to the END of the list.
pub open spec fn parse_list_at(b: Seq<u8>, i: int, acc: Seq<(Seq<char>, Seq<char>, Seq<char>)>) -> Option<
    Seq<(Seq<char>, Seq<char>, Seq<char>)>,
>
    decreases b.len() + 5 - i,
{
    if i < 0 || i >= b.len() {
        None
    } else if b[i] == VDF_END {
        Some(acc)
    } else if b[i] == VDF_MAP {
        match read_cstr_at(b, i + 1) {
            None => None,
            Some((_, j)) => if j <= i || j > b.len() {
                None
            } else {
                match parse_entry_at(b, j, empty_entry()) {
                    None => None,
                    Some((sc, k)) => if k <= i || k > b.len() {
                        None
                    } else {
                        parse_list_at(b, k, acc.push(sc))
                    },
                }
            },
        }
    } else {
        None
    }
}

/// The entries of a `shortcuts.vdf` document: a root map tag and key, then
/// entries until the END of the list. `None` where the bytes do not follow
/// that layout.
pub open spec fn parse_shortcuts_bytes(b: Seq<u8>) -> Option<Seq<(Seq<char>, Seq<char>, Seq<char>)>> {
    if b.len() == 0 || b[0] != VDF_MAP {
        None
    } else {
        match read_cstr_at(b, 1) {
            None => None,
            Some((_, j)) => parse_list_at(b, j, seq![]),
        }
    }
}

proof fn lemma_nul_from(b: Seq<u8>, i: int)
    ensures
        nul_from(b, i) matches Some(z) ==> 0 <= i <= z < b.len() && b[z] == 0,
    decreases b.len() - i,
{
    if !(i < 0 || i >= b.len()) && b[i] != 0 {
        lemma_nul_from(b, i + 1);
    }
}

proof fn lemma_read_cstr_at(b: Seq<u8>, i: int)
    ensures
        read_cstr_at(b, i) matches Some((_, j)) ==> 0 <= i < j <= b.len(),
{
    lemma_nul_from(b, i);
}

proof fn lemma_skip_map_at(b: Seq<u8>, i: int)
    ensures
        skip_map_at(b, i) matches Some(m) ==> i < m <= b.len(),
    decreases b.len() + 5 - i,
{
    if i < 0 || i >= b.len() {
    } else if b[i] == VDF_END {
    } else if b[i] == VDF_STRING {
        lemma_read_cstr_at(b, i + 1);
        if let Some((_, j)) = read_cstr_at(b, i + 1) {
            lemma_read_cstr_at(b, j);
            if let Some((_, k)) = read_cstr_at(b, j) {
                if k > j && k <= b.len() {
                    lemma_skip_map_at(b, k);
                }
            }
        }
    } else if b[i] == VDF_MAP {
        lemma_read_cstr_at(b, i + 1);
        if let Some((_, j)) = read_cstr_at(b, i + 1) {
            if j > i && j <= b.len() {
                lemma_skip_map_at(b, j);
                if let Some(m) = skip_map_at(b, j) {
                    lemma_skip_map_at(b, m);
                }
            }
        }
    } else if b[i] == VDF_INT32 {
        lemma_read_cstr_at(b, i + 1);
        if let Some((_, j)) = read_cstr_at(b, i + 1) {
            if j > i && j <= b.len() {
                lemma_skip_map_at(b, j + 4);
            }
        }
    }
}

proof fn lemma_parse_entry_at(b: Seq<u8>, i: int, acc: (Seq<char>, Seq<char>, Seq<char>))
    ensures
        parse_entry_at(b, i, acc) matches Some((_, m)) ==> i < m <= b.len(),
    decreases b.len() + 5 - i,
{
    if i < 0 || i >= b.len() {
    } else if b[i] == VDF_END {
    } else if b[i] == VDF_STRING {
        if let Some((key, j)) = read_cstr_at(b, i + 1) {
            if let Some((val, k)) = read_cstr_at(b, j) {
                if j > i && j <= b.len() && k > j && k <= b.len() {
                    lemma_parse_entry_at(b, k, set_field(acc, key, val));
                }
            }
        }
    } else if b[i] == VDF_MAP {
        if let Some((_, j)) = read_cstr_at(b, i + 1) {
            if j > i && j <= b.len() {
                if let Some(m) = skip_map_at(b, j) {
                    if m > i && m <= b.len() {
                        lemma_parse_entry_at(b, m, acc);
                    }
                }
            }
        }
    } else if b[i] == VDF_INT32 {
        if let Some((_, j)) = read_cstr_at(b, i + 1) {
            if j > i && j <= b.len() {
                lemma_parse_entry_at(b, j + 4, acc);
            }
        }
    }
}

/// The NUL-terminated string at `i`: its text and the position after it.
fn read_cstr(bytes: &[u8], i: usize) -> (r: Option<(String, usize)>)
    ensures
        match r {
            Some((s, j)) => read_cstr_at(bytes@, i as int) == Some((s@, j as int)) && nul_free(s@),
            None => read_cstr_at(bytes@, i as int).is_none(),
        },
{
    let mut z = i;
    while z < bytes.len()
        invariant
            i <= z,
            nul_from(bytes@, i as int) == nul_from(bytes@, z as int),
            forall|k: int| i <= k < z ==> bytes@[k] != 0u8,
        decreases bytes@.len() - z,
    {
        if bytes[z] == 0 {
            let ghost sub = bytes@.subrange(i as int, z as int);
            assert forall|k: int| 0 <= k < sub.len() implies sub[k] != 0u8 by {
                assert(sub[k] == bytes@[i + k]);
            }
            let s = utf8_lossy(&bytes[i..z]);
            return Some((s, z + 1));
        }
        z = z + 1;
    }
    None
}

/// Whether the chars of `key` equal the lowercase name `name` up to ASCII case.
pub(crate) fn key_is(key: &Vec<char>, name: &Vec<char>) -> (r: bool)
    ensures
        r == same_ignoring_ascii_case(key@, name@),
{
    if key.len() != name.len() {
        return false;
    }
    let mut k: usize = 0;
    while k < key.len()
        invariant
            key@.len() == name@.len(),
            k <= key@.len(),
            forall|m: int| 0 <= m < k ==> ascii_lower(key@[m]) == ascii_lower(name@[m]),
        decreases key@.len() - k,
    {
        if lower_char(key[k]) != lower_char(name[k]) {
            return false;
        }
        k = k + 1;
    }
    true
}

fn lower_char(c: char) -> (r: char)
    ensures
        r == ascii_lower(c),
{
    if 'A' <= c && c <= 'Z' {
        ((c as u8) + 32) as char
    } else {
        c
    }
}

/// Reads one entry starting at `i`: the entry and the position after its END.
fn parse_entry(bytes: &[u8], i: usize) -> (r: Option<(Shortcut, usize)>)
    requires
        i <= bytes@.len(),
    ensures
        match r {
            Some((sc, m)) => parse_entry_at(bytes@, i as int, empty_entry()) == Some(
                (sc@, m as int),
            ) && entry_nul_free(sc@),
            None => parse_entry_at(bytes@, i as int, empty_entry()).is_none(),
        },
{
    let name_app: Vec<char> = vec!['a', 'p', 'p', 'n', 'a', 'm', 'e'];
    let name_exe: Vec<char> = vec!['e', 'x', 'e'];
    let name_dir: Vec<char> = vec!['s', 't', 'a', 'r', 't', 'd', 'i', 'r'];
    assert(name_app@ =~= lower_app_name());
    assert(name_exe@ =~= lower_exe());
    assert(name_dir@ =~= lower_start_dir());
    let mut app_name = String::new();
    let mut exe = String::new();
    let mut start_dir = String::new();
    let mut pos = i;
    assert((app_name@, exe@, start_dir@) =~= empty_entry());
    loop
        invariant
            name_app@ == lower_app_name(),
            name_exe@ == lower_exe(),
            name_dir@ == lower_start_dir(),
            pos <= bytes@.len() + 4,
            entry_nul_free((app_name@, exe@, start_dir@)),
            parse_entry_at(bytes@, pos as int, (app_name@, exe@, start_dir@)) == parse_entry_at(
                bytes@,
                i as int,
                empty_entry(),
            ),
        decreases bytes@.len() + 5 - pos,
    {
        if pos >= bytes.len() {
            return None;
        }
        let tag = bytes[pos];
        if tag == VDF_END {
            return Some((Shortcut { app_name, exe, start_dir }, pos + 1));
        } else if tag == VDF_STRING {
            let (key, j) = match read_cstr(bytes, pos + 1) {
                Some(x) => x,
                None => return None,
            };
            proof {
                lemma_read_cstr_at(bytes@, pos + 1);
            }
            let (val, k) = match read_cstr(bytes, j) {
                Some(x) => x,
                None => return None,
            };
            proof {
                lemma_read_cstr_at(bytes@, j as int);
            }
            let key_chars = chars_of(key.as_str());
            if key_is(&key_chars, &name_app) {
                app_name = val;
            } else if key_is(&key_chars, &name_exe) {
                exe = val;
            } else if key_is(&key_chars, &name_dir) {
                start_dir = val;
            }
            pos = k;
        } else if tag == VDF_MAP {
            let (_, j) = match read_cstr(bytes, pos + 1) {
                Some(x) => x,
                None => return None,
            };
            proof {
                lemma_read_cstr_at(bytes@, pos + 1);
            }
            let m = match skip_map(bytes, j) {
                Some(m) => m,
                None => return None,
            };
            proof {
                lemma_skip_map_at(bytes@, j as int);
            }
            pos = m;
        } else if tag == VDF_INT32 {
            let (_, j) = match read_cstr(bytes, pos + 1) {
                Some(x) => x,
                None => return None,
            };
            proof {
                lemma_read_cstr_at(bytes@, pos + 1);
            }
            if bytes.len() - j <= 4 {
                assert(parse_entry_at(bytes@, j + 4, (app_name@, exe@, start_dir@)).is_none());
                return None;
            }
            pos = j + 4;
        } else {
            return None;
        }
    }
}

/// Skips the rest of a nested map starting at `i`; the position after its END.
fn skip_map(bytes: &[u8], i: usize) -> (r: Option<usize>)
    requires
        i <= bytes@.len(),
    ensures
        match r {
            Some(m) => skip_map_at(bytes@, i as int) == Some(m as int),
            None => skip_map_at(bytes@, i as int).is_none(),
        },
    decreases bytes@.len() + 5 - i,
{
    let mut pos = i;
    loop
        invariant
            i <= pos <= bytes@.len() + 4,
            skip_map_at(bytes@, pos as int) == skip_map_at(bytes@, i as int),
        decreases bytes@.len() + 5 - pos,
    {
        if pos >= bytes.len() {
            return None;
        }
        let tag = bytes[pos];
        if tag == VDF_END {
            return Some(pos + 1);
        } else if tag == VDF_STRING {
            let (_, j) = match read_cstr(bytes, pos + 1) {
                Some(x) => x,
                None => return None,
            };
            proof {
                lemma_read_cstr_at(bytes@, pos + 1);
            }
            let (_, k) = match read_cstr(bytes, j) {
                Some(x) => x,
                None => return None,
            };
            proof {
                lemma_read_cstr_at(bytes@, j as int);
            }
            pos = k;
        } else if tag == VDF_MAP {
            let (_, j) = match read_cstr(bytes, pos + 1) {
                Some(x) => x,
                None => return None,
            };
            proof {
                lemma_read_cstr_at(bytes@, pos + 1);
            }
            let m = match skip_map(bytes, j) {
                Some(m) => m,
                None => return None,
            };
            proof {
                lemma_skip_map_at(bytes@, j as int);
            }
            pos = m;
        } else if tag == VDF_INT32 {
            let (_, j) = match read_cstr(bytes, pos + 1) {
                Some(x) => x,
                None => return None,
            };
            proof {
                lemma_read_cstr_at(bytes@, pos + 1);
            }
            if bytes.len() - j <= 4 {
                assert(skip_map_at(bytes@, j + 4).is_none());
                return None;
            }
            pos = j + 4;
        } else {
            return None;
        }
    }
}

/// Reads a `shortcuts.vdf` document: the entries' AppName, Exe and StartDir
/// fields, or `None` where the bytes do not follow the layout.
pub fn parse_shortcuts(bytes: &[u8]) -> (r: Option<Vec<Shortcut>>)
    ensures
        match r {
            Some(v) => parse_shortcuts_bytes(bytes@) == Some(views(v@)) && forall|k: int|
                0 <= k < v@.len() ==> entry_nul_free(#[trigger] views(v@)[k]),
            None => parse_shortcuts_bytes(bytes@).is_none(),
        },
{
    if bytes.len() == 0 || bytes[0] != VDF_MAP {
        return None;
    }
    let (_, start) = match read_cstr(bytes, 1) {
        Some(x) => x,
        None => return None,
    };
    proof {
        lemma_read_cstr_at(bytes@, 1);
    }
    let mut out: Vec<Shortcut> = Vec::new();
    let mut pos = start;
    assert(views(out@) =~= seq![]);
    loop
        invariant
            pos <= bytes@.len(),
            parse_list_at(bytes@, pos as int, views(out@)) == parse_shortcuts_bytes(bytes@),
            forall|k: int| 0 <= k < out@.len() ==> entry_nul_free(#[trigger] views(out@)[k]),
        decreases bytes@.len() + 5 - pos,
    {
        if pos >= bytes.len() {
            return None;
        }
        let tag = bytes[pos];
        if tag == VDF_END {
            return Some(out);
        } else if tag == VDF_MAP {
            let (_, j) = match read_cstr(bytes, pos + 1) {
                Some(x) => x,
                None => return None,
            };
            proof {
                lemma_read_cstr_at(bytes@, pos + 1);
            }
            let (sc, k) = match parse_entry(bytes, j) {
                Some(x) => x,
                None => return None,
            };
            proof {
                lemma_parse_entry_at(bytes@, j as int, empty_entry());
            }
            let ghost prev = out@;
            out.push(sc);
            assert(views(out@) =~= views(prev).push(sc@));
            pos = k;
        } else {
            return None;
        }
    }
}

// --- Round trip ----------------------------------------------------------------

/// No char of `s` is NUL.
pub open spec fn nul_free(s: Seq<char>) -> bool {
    forall|k: int| 0 <= k < s.len() ==> s[k] != '\0'
}

/// No field of the entry holds a NUL char.
pub open spec fn entry_nul_free(sc: (Seq<char>, Seq<char>, Seq<char>)) -> bool {
    nul_free(sc.0) && nul_free(sc.1) && nul_free(sc.2)
}

proof fn lemma_scalar_bytes_nonzero(c: char)
    requires
        c != '\0',
    ensures
        forall|k: int|
            0 <= k < encode_scalar(c as u32).len() ==> #[trigger] encode_scalar(c as u32)[k]
                != 0u8,
{
    let u = c as u32;
    char_is_scalar(c);
    char_u32_cast(c, u);
    assert(u != 0);
    if has_width_1_encoding(u) {
        assert(leading_byte_width_1(u) != 0u8) by (bit_vector)
            requires
                u <= 0x7F,
                u != 0,
        ;
    } else if has_width_2_encoding(u) {
        assert(leading_byte_width_2(u) != 0u8 && last_continuation_byte(u) != 0u8) by (bit_vector);
    } else if has_width_3_encoding(u) {
        assert(leading_byte_width_3(u) != 0u8 && second_last_continuation_byte(u) != 0u8
            && last_continuation_byte(u) != 0u8) by (bit_vector);
    } else {
        assert(leading_byte_width_4(u) != 0u8 && third_last_continuation_byte(u) != 0u8
            && second_last_continuation_byte(u) != 0u8 && last_continuation_byte(u) != 0u8)
            by (bit_vector);
    }
}

/// The UTF-8 encoding of NUL-free text holds no zero byte.
proof fn lemma_encode_no_nul(s: Seq<char>)
    requires
        nul_free(s),
    ensures
        forall|k: int| 0 <= k < encode_utf8(s).len() ==> encode_utf8(s)[k] != 0u8,
    decreases s.len(),
{
    if s.len() > 0 {
        lemma_scalar_bytes_nonzero(s[0]);
        lemma_encode_no_nul(s.drop_first());
        let head = encode_scalar(s[0] as u32);
        let tail = encode_utf8(s.drop_first());
        assert(encode_utf8(s) == head + tail);
        assert forall|k: int| 0 <= k < encode_utf8(s).len() implies encode_utf8(s)[k] != 0u8 by {
            if k < head.len() {
                assert(encode_utf8(s)[k] == head[k]);
            } else {
                assert(encode_utf8(s)[k] == tail[k - head.len()]);
            }
        }
    }
}

proof fn lemma_nul_from_least(b: Seq<u8>, i: int, z: int)
    requires
        0 <= i <= z < b.len(),
        b[z] == 0,
        forall|k: int| i <= k < z ==> b[k] != 0,
    ensures
        nul_from(b, i) == Some(z),
    decreases z - i,
{
    if i < z {
        lemma_nul_from_least(b, i + 1, z);
    }
}

/// Splits a known window of `b` that holds `x + y`.
proof fn lemma_window_split(b: Seq<u8>, p: int, x: Seq<u8>, y: Seq<u8>)
    requires
        0 <= p,
        p + x.len() + y.len() <= b.len(),
        b.subrange(p, p + x.len() + y.len()) == x + y,
    ensures
        b.subrange(p, p + x.len()) == x,
        b.subrange(p + x.len(), p + x.len() + y.len()) == y,
{
    assert forall|k: int| 0 <= k < x.len() implies b.subrange(p, p + x.len())[k] == x[k] by {
        assert(b.subrange(p, p + x.len() + y.len())[k] == (x + y)[k]);
    }
    assert forall|k: int| 0 <= k < y.len() implies b.subrange(
        p + x.len(),
        p + x.len() + y.len(),
    )[k] == y[k] by {
        assert(b.subrange(p, p + x.len() + y.len())[x.len() + k] == (x + y)[x.len() + k]);
        assert(b.subrange(p, p + x.len() + y.len())[x.len() + k] == b[p + x.len() + k]);
        assert(b.subrange(p + x.len(), p + x.len() + y.len())[k] == b[p + x.len() + k]);
        assert((x + y)[x.len() + k] == y[k]);
    }
    assert(b.subrange(p, p + x.len()) =~= x);
    assert(b.subrange(p + x.len(), p + x.len() + y.len()) =~= y);
}

/// A NUL-free string written at `p` reads back, ending after its NUL.
proof fn lemma_read_back_cstr(b: Seq<u8>, p: int, s: Seq<char>)
    requires
        nul_free(s),
        0 <= p,
        p + cstr(s).len() <= b.len(),
        b.subrange(p, p + cstr(s).len()) == cstr(s),
    ensures
        read_cstr_at(b, p) == Some((s, p + cstr(s).len())),
{
    let e = encode_utf8(s);
    let z = p + e.len();
    lemma_encode_no_nul(s);
    assert forall|k: int| p <= k < z implies b[k] != 0 by {
        assert(b.subrange(p, p + cstr(s).len())[k - p] == cstr(s)[k - p]);
    }
    assert(b.subrange(p, p + cstr(s).len())[e.len() as int] == cstr(s)[e.len() as int]);
    lemma_nul_from_least(b, p, z);
    assert(b.subrange(p, z) =~= e) by {
        assert forall|k: int| 0 <= k < e.len() implies b.subrange(p, z)[k] == e[k] by {
            assert(b.subrange(p, p + cstr(s).len())[k] == cstr(s)[k]);
        }
    }
}

proof fn lemma_upper(c: char, l: char)
    requires
        'A' <= c <= 'Z',
        l as u32 == (c as u32) + 32,
    ensures
        ascii_lower(c) == l,
{
    char_u32_cast(l, l as u32);
}

proof fn lemma_keys_match()
    ensures
        same_ignoring_ascii_case(key_app_name(), lower_app_name()),
        same_ignoring_ascii_case(key_exe(), lower_exe()),
        !same_ignoring_ascii_case(key_exe(), lower_app_name()),
        same_ignoring_ascii_case(key_start_dir(), lower_start_dir()),
        !same_ignoring_ascii_case(key_start_dir(), lower_app_name()),
        !same_ignoring_ascii_case(key_start_dir(), lower_exe()),
{
    lemma_upper('A', 'a');
    lemma_upper('N', 'n');
    lemma_upper('E', 'e');
    lemma_upper('S', 's');
    lemma_upper('D', 'd');
    let a = key_app_name();
    let la = lower_app_name();
    assert forall|k: int| 0 <= k < a.len() implies ascii_lower(a[k]) == ascii_lower(la[k]) by {
        if k == 0 {
        } else if k == 3 {
        } else {
        }
    }
    let e = key_exe();
    let le = lower_exe();
    assert forall|k: int| 0 <= k < e.len() implies ascii_lower(e[k]) == ascii_lower(le[k]) by {}
    let d = key_start_dir();
    let ld = lower_start_dir();
    assert forall|k: int| 0 <= k < d.len() implies ascii_lower(d[k]) == ascii_lower(ld[k]) by {}
}

proof fn lemma_decimal_nul_free(n: nat)
    ensures
        nul_free(decimal(n)),
    decreases n,
{
    if n >= 10 {
        lemma_decimal_nul_free(n / 10);
        let d = decimal(n);
        assert(d == decimal(n / 10).push(crate::text::digit_char(n % 10)));
        assert(crate::text::digit_char(n % 10) != '\0') by {
            let c = crate::text::digit_char(n % 10);
            char_u32_cast(c, (('0' as u32) + n % 10) as u32);
        }
    } else {
        assert(crate::text::digit_char(n) != '\0') by {
            let c = crate::text::digit_char(n);
            char_u32_cast(c, (('0' as u32) + n) as u32);
        }
    }
}

/// One string field written at `p` is read into the entry.
proof fn lemma_read_back_field(
    b: Seq<u8>,
    p: int,
    key: Seq<char>,
    val: Seq<char>,
    acc: (Seq<char>, Seq<char>, Seq<char>),
)
    requires
        nul_free(key),
        nul_free(val),
        0 <= p,
        p + string_field(key, val).len() <= b.len(),
        b.subrange(p, p + string_field(key, val).len()) == string_field(key, val),
    ensures
        parse_entry_at(b, p, acc) == parse_entry_at(
            b,
            p + string_field(key, val).len(),
            set_field(acc, key, val),
        ),
{
    let t = seq![VDF_STRING];
    let ck = cstr(key);
    let cv = cstr(val);
    assert(string_field(key, val) == (t + ck) + cv);
    lemma_window_split(b, p, t + ck, cv);
    lemma_window_split(b, p, t, ck);
    assert(b.subrange(p, p + 1)[0] == b[p]);
    lemma_read_back_cstr(b, p + 1, key);
    lemma_read_back_cstr(b, p + 1 + ck.len(), val);
}

/// One entry written at `p` is read into the list.
proof fn lemma_read_back_entry(
    b: Seq<u8>,
    p: int,
    n: nat,
    sc: (Seq<char>, Seq<char>, Seq<char>),
    acc: Seq<(Seq<char>, Seq<char>, Seq<char>)>,
)
    requires
        entry_nul_free(sc),
        0 <= p,
        p + entry_bytes(n, sc).len() <= b.len(),
        b.subrange(p, p + entry_bytes(n, sc).len()) == entry_bytes(n, sc),
    ensures
        parse_list_at(b, p, acc) == parse_list_at(b, p + entry_bytes(n, sc).len(), acc.push(sc)),
{
    let t = seq![VDF_MAP];
    let cd = cstr(decimal(n));
    let f1 = string_field(key_app_name(), sc.0);
    let f2 = string_field(key_exe(), sc.1);
    let f3 = string_field(key_start_dir(), sc.2);
    let end = seq![VDF_END];
    let e = entry_bytes(n, sc);
    assert(e == ((((t + cd) + f1) + f2) + f3) + end);
    lemma_window_split(b, p, (((t + cd) + f1) + f2) + f3, end);
    lemma_window_split(b, p, ((t + cd) + f1) + f2, f3);
    lemma_window_split(b, p, (t + cd) + f1, f2);
    lemma_window_split(b, p, t + cd, f1);
    lemma_window_split(b, p, t, cd);
    assert(b.subrange(p, p + 1)[0] == b[p]);
    lemma_decimal_nul_free(n);
    lemma_read_back_cstr(b, p + 1, decimal(n));
    let p1 = p + 1 + cd.len();
    let p2 = p1 + f1.len();
    let p3 = p2 + f2.len();
    let p4 = p3 + f3.len();
    lemma_keys_match();
    assert(nul_free(key_app_name()));
    assert(nul_free(key_exe()));
    assert(nul_free(key_start_dir()));
    lemma_read_back_field(b, p1, key_app_name(), sc.0, empty_entry());
    let a1 = set_field(empty_entry(), key_app_name(), sc.0);
    lemma_read_back_field(b, p2, key_exe(), sc.1, a1);
    let a2 = set_field(a1, key_exe(), sc.1);
    lemma_read_back_field(b, p3, key_start_dir(), sc.2, a2);
    let a3 = set_field(a2, key_start_dir(), sc.2);
    assert(a3 == sc);
    assert(b.subrange(p4, p4 + 1)[0] == b[p4]);
    assert(parse_entry_at(b, p4, a3) == Some((sc, p4 + 1)));
    assert(parse_entry_at(b, p1, empty_entry()) == Some((sc, p4 + 1)));
    lemma_read_cstr_at(b, p + 1);
}

proof fn lemma_entries_prefix(list: Seq<(Seq<char>, Seq<char>, Seq<char>)>, m: int, m2: int)
    requires
        0 <= m <= m2,
    ensures
        entries_bytes(list, m).len() <= entries_bytes(list, m2).len(),
        entries_bytes(list, m2).subrange(0, entries_bytes(list, m).len() as int)
            == entries_bytes(list, m),
    decreases m2 - m,
{
    if m < m2 {
        lemma_entries_prefix(list, m, m2 - 1);
        let a = entries_bytes(list, m);
        let c = entries_bytes(list, m2 - 1);
        let d = entries_bytes(list, m2);
        assert(d == c + entry_bytes((m2 - 1) as nat, list[m2 - 1]));
        assert(d.subrange(0, a.len() as int) =~= c.subrange(0, a.len() as int));
    } else {
        assert(entries_bytes(list, m).subrange(0, entries_bytes(list, m).len() as int)
            =~= entries_bytes(list, m));
    }
}

/// The window of the document that holds the `n`-th entry.
proof fn lemma_entry_window(list: Seq<(Seq<char>, Seq<char>, Seq<char>)>, n: int)
    requires
        0 <= n < list.len(),
    ensures
        ({
            let b = shortcuts_bytes(list);
            let pos = ((seq![VDF_MAP] + cstr(key_root())).len() + entries_bytes(list, n).len()) as int;
            let eb = entry_bytes(n as nat, list[n]);
            &&& pos + eb.len() <= b.len()
            &&& b.subrange(pos, pos + eb.len()) == eb
            &&& pos + eb.len() == (seq![VDF_MAP] + cstr(key_root())).len() + entries_bytes(
                list,
                n + 1,
            ).len()
        }),
{
    let b = shortcuts_bytes(list);
    let h = seq![VDF_MAP] + cstr(key_root());
    let all = entries_bytes(list, list.len() as int);
    let tail = seq![VDF_END, VDF_END];
    assert(b == (h + all) + tail);
    let pos = (h.len() + entries_bytes(list, n).len()) as int;
    lemma_entries_prefix(list, n + 1, list.len() as int);
    let eb = entry_bytes(n as nat, list[n]);
    let before = entries_bytes(list, n);
    let upto = entries_bytes(list, n + 1);
    assert(upto == before + eb);
    assert forall|k: int| 0 <= k < eb.len() implies b.subrange(pos, pos + eb.len())[k]
        == eb[k] by {
        assert(all.subrange(0, upto.len() as int)[before.len() + k] == upto[before.len() + k]);
        assert(b[pos + k] == all[before.len() + k]);
    }
    assert(b.subrange(pos, pos + eb.len()) =~= eb);
}

/// The byte after the last entry ends the list.
proof fn lemma_list_end(list: Seq<(Seq<char>, Seq<char>, Seq<char>)>)
    ensures
        ({
            let b = shortcuts_bytes(list);
            let pos = ((seq![VDF_MAP] + cstr(key_root())).len() + entries_bytes(
                list,
                list.len() as int,
            ).len()) as int;
            pos < b.len() && b[pos] == VDF_END
        }),
{
    let b = shortcuts_bytes(list);
    let h = seq![VDF_MAP] + cstr(key_root());
    let all = entries_bytes(list, list.len() as int);
    let tail = seq![VDF_END, VDF_END];
    assert(b == (h + all) + tail);
}

proof fn lemma_read_back_from(list: Seq<(Seq<char>, Seq<char>, Seq<char>)>, n: int)
    requires
        0 <= n <= list.len(),
        forall|i: int| 0 <= i < list.len() ==> entry_nul_free(#[trigger] list[i]),
    ensures
        parse_list_at(
            shortcuts_bytes(list),
            ((seq![VDF_MAP] + cstr(key_root())).len() + entries_bytes(list, n).len()) as int,
            list.take(n),
        ) == Some(list),
    decreases list.len() - n,
{
    let b = shortcuts_bytes(list);
    let pos = ((seq![VDF_MAP] + cstr(key_root())).len() + entries_bytes(list, n).len()) as int;
    if n == list.len() {
        lemma_list_end(list);
        assert(list.take(n) =~= list);
    } else {
        lemma_entry_window(list, n);
        lemma_read_back_entry(b, pos, n as nat, list[n], list.take(n));
        assert(list.take(n).push(list[n]) =~= list.take(n + 1));
        lemma_read_back_from(list, n + 1);
    }
}

/// Reading back what `serialize_shortcuts` writes gives the same entries,
/// provided no field holds a NUL char (NUL ends a string in this format).
pub proof fn lemma_shortcuts_roundtrip(list: Seq<(Seq<char>, Seq<char>, Seq<char>)>)
    requires
        forall|i: int| 0 <= i < list.len() ==> entry_nul_free(#[trigger] list[i]),
    ensures
        parse_shortcuts_bytes(shortcuts_bytes(list)) == Some(list),
{
    let b = shortcuts_bytes(list);
    let h = seq![VDF_MAP] + cstr(key_root());
    assert(b == h + (entries_bytes(list, list.len() as int) + seq![VDF_END, VDF_END]));
    assert(b.subrange(0, h.len() as int) =~= h);
    lemma_window_split(b, 0, seq![VDF_MAP], cstr(key_root()));
    assert(nul_free(key_root()));
    lemma_read_back_cstr(b, 1, key_root());
    assert(entries_bytes(list, 0) == Seq::<u8>::empty());
    assert(list.take(0) =~= seq![]);
    lemma_read_back_from(list, 0);
}

} // verus!
