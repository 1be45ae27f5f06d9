//! Stable sorting, stated as the order of positions it produces.
//!
//! A stable sort of `n` items is fully described by the sequence `perm` of
//! input positions in output order: each position is in range, and any
//! two output items are either strictly ordered by their keys or have equal
//! keys and keep their relative input order. That condition also makes
//! `perm` repetition-free, so it is a permutation of `0..n`.
//!
//! Two orders are provided: descending by `i64` key, and ascending by an
//! optional text key (absent first, then texts in lexicographic char order,
//! which is the order of `String`).

use vstd::prelude::*;

verus! {

/// `perm` lists the positions of `keys` from the largest key down, equal
/// keys in their input order.
pub open spec fn stable_desc(keys: Seq<i64>, perm: Seq<usize>) -> bool {
    &&& perm.len() == keys.len()
    &&& forall|k: int| 0 <= k < perm.len() ==> #[trigger] perm[k] < keys.len()
    &&& forall|k: int, l: int|
        0 <= k < l < perm.len() ==> (keys[#[trigger] perm[k] as int] > keys[#[trigger] perm[l] as int]
            || (keys[perm[k] as int] == keys[perm[l] as int] && perm[k] < perm[l]))
}

/// The positions of `keys` from the largest key down, equal keys in their
/// input order (what a stable sort by descending key produces).
pub fn order_desc_stable(keys: &Vec<i64>) -> (perm: Vec<usize>)
    ensures
        stable_desc(keys@, perm@),
{
    let mut perm: Vec<usize> = Vec::new();
    let mut i: usize = 0;
    while i < keys.len()
        invariant
            i <= keys@.len(),
            perm@.len() == i,
            forall|k: int| 0 <= k < perm@.len() ==> #[trigger] perm@[k] < i,
            forall|k: int, l: int|
                0 <= k < l < perm@.len() ==> (keys@[#[trigger] perm@[k] as int]
                    > keys@[#[trigger] perm@[l] as int] || (keys@[perm@[k] as int]
                    == keys@[perm@[l] as int] && perm@[k] < perm@[l])),
        decreases keys@.len() - i,
    {
        let key = keys[i];
        let mut pos: usize = 0;
        while pos < perm.len() && keys[perm[pos]] >= key
            invariant
                pos <= perm@.len(),
                perm@.len() == i,
                i < keys@.len(),
                key == keys@[i as int],
                forall|k: int| 0 <= k < perm@.len() ==> #[trigger] perm@[k] < i,
                forall|k: int| 0 <= k < pos ==> keys@[#[trigger] perm@[k] as int] >= key,
            decreases perm@.len() - pos,
        {
            pos = pos + 1;
        }
        let ghost old_perm = perm@;
        perm.insert(pos, i);
        assert forall|k: int, l: int| 0 <= k < l < perm@.len() implies (keys@[#[trigger] perm@[
            k] as int] > keys@[#[trigger] perm@[l] as int] || (keys@[perm@[k] as int]
            == keys@[perm@[l] as int] && perm@[k] < perm@[l])) by {
            if l < pos {
                assert(perm@[k] == old_perm[k] && perm@[l] == old_perm[l]);
            } else if l == pos {
                assert(perm@[k] == old_perm[k]);
            } else if k == pos {
                assert(perm@[l] == old_perm[l - 1]);
                if l - 1 >= pos + 0 && pos < old_perm.len() {
                    assert(keys@[old_perm[pos as int] as int] < key);
                    if l - 1 > pos {
                        assert(keys@[old_perm[pos as int] as int] >= keys@[old_perm[l - 1] as int]);
                    }
                }
            } else if k < pos {
                assert(perm@[k] == old_perm[k] && perm@[l] == old_perm[l - 1]);
            } else {
                assert(perm@[k] == old_perm[k - 1] && perm@[l] == old_perm[l - 1]);
            }
        }
        i = i + 1;
    }
    perm
}

// --- Ascending order of optional texts ------------------------------------------

/// `a` comes no later than `b` in the lexicographic order of their chars
/// (code point by code point; a proper prefix comes first), looking at
/// positions from `k` on.
pub open spec fn text_le_from(a: Seq<char>, b: Seq<char>, k: int) -> bool
    decreases a.len() - k,
{
    if k < 0 || k >= a.len() {
        true
    } else if k >= b.len() {
        false
    } else if a[k] != b[k] {
        a[k] < b[k]
    } else {
        text_le_from(a, b, k + 1)
    }
}

/// `a` comes no later than `b` in lexicographic char order, which is also
/// the byte order of their UTF-8 encodings (the order of `String`).
pub open spec fn text_le(a: Seq<char>, b: Seq<char>) -> bool {
    text_le_from(a, b, 0)
}

/// The order of optional texts: `None` first, then the texts in order.
pub open spec fn key_le(a: Option<Seq<char>>, b: Option<Seq<char>>) -> bool {
    match (a, b) {
        (None, _) => true,
        (Some(_), None) => false,
        (Some(x), Some(y)) => text_le(x, y),
    }
}

proof fn lemma_text_le_from_total(a: Seq<char>, b: Seq<char>, k: int)
    requires
        0 <= k,
    ensures
        text_le_from(a, b, k) || text_le_from(b, a, k),
    decreases a.len() - k,
{
    if k < a.len() && k < b.len() {
        if a[k] == b[k] {
            lemma_text_le_from_total(a, b, k + 1);
        }
    }
}

proof fn lemma_text_le_from_trans(a: Seq<char>, b: Seq<char>, c: Seq<char>, k: int)
    requires
        0 <= k,
        text_le_from(a, b, k),
        text_le_from(b, c, k),
    ensures
        text_le_from(a, c, k),
    decreases a.len() - k,
{
    if k < a.len() && a[k] == b[k] && b[k] == c[k] {
        lemma_text_le_from_trans(a, b, c, k + 1);
    }
}

proof fn lemma_text_le_from_refl(a: Seq<char>, k: int)
    requires
        0 <= k,
    ensures
        text_le_from(a, a, k),
    decreases a.len() - k,
{
    if k < a.len() {
        lemma_text_le_from_refl(a, k + 1);
    }
}

/// `key_le` is reflexive.
pub proof fn lemma_key_le_refl(a: Option<Seq<char>>)
    ensures
        key_le(a, a),
{
    if let Some(x) = a {
        lemma_text_le_from_refl(x, 0);
    }
}

/// The positions a stable ascending order lists are all different.
pub proof fn lemma_stable_asc_distinct(keys: Seq<Option<Seq<char>>>, perm: Seq<usize>)
    requires
        stable_asc(keys, perm),
    ensures
        forall|k: int, l: int| 0 <= k < l < perm.len() ==> perm[k] != perm[l],
{
    assert forall|k: int, l: int| 0 <= k < l < perm.len() implies perm[k] != perm[l] by {
        if perm[k] == perm[l] {
            lemma_key_le_refl(keys[perm[k] as int]);
        }
    }
}

/// `key_le` is total.
pub proof fn lemma_key_le_total(a: Option<Seq<char>>, b: Option<Seq<char>>)
    ensures
        key_le(a, b) || key_le(b, a),
{
    if let (Some(x), Some(y)) = (a, b) {
        lemma_text_le_from_total(x, y, 0);
    }
}

/// `key_le` is transitive.
pub proof fn lemma_key_le_trans(a: Option<Seq<char>>, b: Option<Seq<char>>, c: Option<Seq<char>>)
    requires
        key_le(a, b),
        key_le(b, c),
    ensures
        key_le(a, c),
{
    if let (Some(x), Some(y), Some(z)) = (a, b, c) {
        lemma_text_le_from_trans(x, y, z, 0);
    }
}

/// The view of an optional char vector.
pub open spec fn key_view(k: Option<Vec<char>>) -> Option<Seq<char>> {
    match k {
        Some(v) => Some(v@),
        None => None,
    }
}

/// The views of optional char vectors.
pub open spec fn key_views(keys: Seq<Option<Vec<char>>>) -> Seq<Option<Seq<char>>> {
    keys.map_values(|k: Option<Vec<char>>| key_view(k))
}

/// `perm` lists the positions of `keys` from the smallest key up, equal keys
/// in their input order.
pub open spec fn stable_asc(keys: Seq<Option<Seq<char>>>, perm: Seq<usize>) -> bool {
    &&& perm.len() == keys.len()
    &&& forall|k: int| 0 <= k < perm.len() ==> #[trigger] perm[k] < keys.len()
    &&& forall|k: int, l: int|
        0 <= k < l < perm.len() ==> key_le(keys[#[trigger] perm[k] as int], keys[#[trigger] perm[l] as int])
            && (key_le(keys[perm[l] as int], keys[perm[k] as int]) ==> perm[k] < perm[l])
}

/// Whether `a` comes no later than `b` (executable `text_le`).
pub fn text_le_exec(a: &Vec<char>, b: &Vec<char>) -> (r: bool)
    ensures
        r == text_le(a@, b@),
{
    let mut k: usize = 0;
    while k < a.len()
        invariant
            k <= a@.len(),
            text_le_from(a@, b@, k as int) == text_le(a@, b@),
        decreases a@.len() - k,
    {
        if k >= b.len() {
            return false;
        }
        if a[k] != b[k] {
            return a[k] < b[k];
        }
        k = k + 1;
    }
    true
}

/// Whether `a` comes no later than `b` (executable `key_le`).
pub fn key_le_exec(a: &Option<Vec<char>>, b: &Option<Vec<char>>) -> (r: bool)
    ensures
        r == key_le(key_view(*a), key_view(*b)),
{
    match (a, b) {
        (None, _) => true,
        (Some(_), None) => false,
        (Some(x), Some(y)) => text_le_exec(x, y),
    }
}

/// The positions of `keys` from the smallest key up, equal keys in their
/// input order (what a stable ascending sort produces).
pub fn order_asc_stable(keys: &Vec<Option<Vec<char>>>) -> (perm: Vec<usize>)
    ensures
        stable_asc(key_views(keys@), perm@),
{
    let ghost kv = key_views(keys@);
    let mut perm: Vec<usize> = Vec::new();
    let mut i: usize = 0;
    while i < keys.len()
        invariant
            kv == key_views(keys@),
            i <= keys@.len(),
            perm@.len() == i,
            forall|k: int| 0 <= k < perm@.len() ==> #[trigger] perm@[k] < i,
            forall|k: int, l: int|
                0 <= k < l < perm@.len() ==> key_le(kv[#[trigger] perm@[k] as int], kv[#[trigger] perm@[l] as int])
                    && (key_le(kv[perm@[l] as int], kv[perm@[k] as int]) ==> perm@[k] < perm@[l]),
        decreases keys@.len() - i,
    {
        let mut pos: usize = 0;
        while pos < perm.len() && key_le_exec(&keys[perm[pos]], &keys[i])
            invariant
                kv == key_views(keys@),
                pos <= perm@.len(),
                perm@.len() == i,
                i < keys@.len(),
                forall|k: int| 0 <= k < perm@.len() ==> #[trigger] perm@[k] < i,
                forall|k: int| 0 <= k < pos ==> key_le(kv[#[trigger] perm@[k] as int], kv[i as int]),
            decreases perm@.len() - pos,
        {
            pos = pos + 1;
        }
        proof {
            if pos < perm@.len() {
                assert(!key_le(kv[perm@[pos as int] as int], kv[i as int]));
            }
        }
        let ghost old_perm = perm@;
        perm.insert(pos, i);
        assert forall|k: int, l: int| 0 <= k < l < perm@.len() implies key_le(
            kv[#[trigger] perm@[k] as int],
            kv[#[trigger] perm@[l] as int],
        ) && (key_le(kv[perm@[l] as int], kv[perm@[k] as int]) ==> perm@[k] < perm@[l]) by {
            let x = kv[i as int];
            if l < pos {
                assert(perm@[k] == old_perm[k] && perm@[l] == old_perm[l]);
            } else if l == pos {
                assert(perm@[k] == old_perm[k]);
                assert(perm@[l] == i);
            } else if k == pos {
                assert(perm@[k] == i);
                assert(perm@[l] == old_perm[l - 1]);
                let g = kv[old_perm[pos as int] as int];
                let y = kv[old_perm[l - 1] as int];
                assert(!key_le(g, x));
                if l - 1 > pos {
                    assert(key_le(g, y));
                }
                lemma_key_le_total(x, y);
                if key_le(y, x) {
                    lemma_key_le_trans(g, y, x);
                }
            } else if k < pos {
                assert(perm@[k] == old_perm[k] && perm@[l] == old_perm[l - 1]);
            } else {
                assert(perm@[k] == old_perm[k - 1] && perm@[l] == old_perm[l - 1]);
            }
        }
        i = i + 1;
    }
    perm
}

/// Position `v` is listed in `perm`.
pub open spec fn lists(perm: Seq<usize>, v: int) -> bool {
    exists|k: int| 0 <= k < perm.len() && perm[k] as int == v
}

/// An order of `n` different positions, each below `n`, lists every
/// position below `n`: nothing is lost.
pub proof fn lemma_perm_covers(perm: Seq<usize>, n: int)
    requires
        perm.len() == n,
        forall|k: int| 0 <= k < n ==> #[trigger] perm[k] < n,
        forall|k: int, l: int| 0 <= k < l < n ==> #[trigger] perm[k] != #[trigger] perm[l],
    ensures
        forall|v: int| 0 <= v < n ==> #[trigger] lists(perm, v),
{
    let s = perm.map_values(|x: usize| x as int);
    assert forall|a: int, b: int| 0 <= a < s.len() && 0 <= b < s.len() && a != b implies s[a] != s[b] by {
        if a < b {
            assert(perm[a] != perm[b]);
        } else {
            assert(perm[b] != perm[a]);
        }
    }
    assert(s.no_duplicates());
    s.unique_seq_to_set();
    let r = vstd::set_lib::set_int_range(0, n);
    vstd::set_lib::lemma_int_range(0, n);
    assert(s.to_set().subset_of(r)) by {
        assert forall|x: int| s.to_set().contains(x) implies r.contains(x) by {
            let k = choose|k: int| 0 <= k < s.len() && s[k] == x;
            assert(perm[k] < n);
        }
    }
    vstd::set_lib::lemma_len_subset(s.to_set(), r);
    vstd::set_lib::lemma_subset_equality(s.to_set(), r);
    assert forall|v: int| 0 <= v < n implies #[trigger] lists(perm, v) by {
        assert(r.contains(v));
        assert(s.to_set().contains(v));
        let k = choose|k: int| 0 <= k < s.len() && s[k] == v;
        assert(perm[k] as int == v);
    }
}

} // verus!
