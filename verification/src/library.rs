//! The games owned by the signed-in account, as the helper reports them. Only
//! owned games may be downloaded: a hard boundary of this tool.

use vstd::prelude::*;

use crate::order::{key_views, order_asc_stable, stable_asc};
use crate::text::chars_of;

verus! {

/// A game owned by the signed-in account.
#[derive(Debug, Clone)]
pub struct OwnedGame {
    pub app_id: u32,
    pub name: Option<String>,
}

/// The view of an optional string.
pub open spec fn opt_text(o: Option<String>) -> Option<Seq<char>> {
    match o {
        Some(s) => Some(s@),
        None => None,
    }
}

/// The app id a reported game gets: its number cut to 32 bits, 0 when missing.
pub open spec fn owned_id(raw: (Option<u64>, Option<String>)) -> u32 {
    match raw.0 {
        Some(x) => x as u32,
        None => 0,
    }
}

/// The positions of the reported games that are listed: those whose app id
/// is not 0.
pub open spec fn owned_positions(raw: Seq<(Option<u64>, Option<String>)>) -> Seq<int>
    decreases raw.len(),
{
    if raw.len() == 0 {
        Seq::empty()
    } else {
        let prev = owned_positions(raw.drop_last());
        if owned_id(raw.last()) == 0 {
            prev
        } else {
            prev.push(raw.len() - 1)
        }
    }
}

proof fn lemma_owned_positions(raw: Seq<(Option<u64>, Option<String>)>)
    ensures
        forall|k: int|
            0 <= k < owned_positions(raw).len() ==> 0 <= #[trigger] owned_positions(raw)[k] < raw.len(),
    decreases raw.len(),
{
    if raw.len() > 0 {
        let prev = owned_positions(raw.drop_last());
        lemma_owned_positions(raw.drop_last());
        let l = owned_positions(raw);
        assert forall|k: int| 0 <= k < l.len() implies 0 <= #[trigger] l[k] < raw.len() by {
            if k < prev.len() {
                assert(l[k] == prev[k]);
            }
        }
    }
}

proof fn lemma_owned_ids(raw: Seq<(Option<u64>, Option<String>)>)
    ensures
        forall|k: int|
            0 <= k < owned_positions(raw).len() ==> owned_id(raw[#[trigger] owned_positions(raw)[k]]) != 0,
    decreases raw.len(),
{
    if raw.len() > 0 {
        let u = raw.drop_last();
        let prev = owned_positions(u);
        lemma_owned_ids(u);
        lemma_owned_positions(u);
        let l = owned_positions(raw);
        assert forall|k: int| 0 <= k < l.len() implies owned_id(raw[#[trigger] l[k]]) != 0 by {
            if k < prev.len() {
                assert(l[k] == prev[k]);
                assert(raw[prev[k]] == u[prev[k]]);
            }
        }
    }
}

/// No listed game has the app id 0.
pub proof fn lemma_owned_nonzero(out: Seq<OwnedGame>, raw: Seq<(Option<u64>, Option<String>)>)
    requires
        owned_list(out, raw),
    ensures
        forall|k: int| 0 <= k < out.len() ==> (#[trigger] out[k]).app_id != 0,
{
    let pos = owned_positions(raw);
    let perm = choose|perm: Seq<usize>|
        {
            &&& stable_asc(owned_keys(raw), perm)
            &&& out.len() == pos.len()
            &&& forall|k: int|
                0 <= k < out.len() ==> {
                    &&& (#[trigger] out[k]).app_id == owned_id(raw[pos[perm[k] as int]])
                    &&& opt_text(out[k].name) == opt_text(raw[pos[perm[k] as int]].1)
                }
        };
    lemma_owned_ids(raw);
    assert forall|k: int| 0 <= k < out.len() implies (#[trigger] out[k]).app_id != 0 by {
        assert(out[k].app_id == owned_id(raw[pos[perm[k] as int]]));
        assert(perm[k] < pos.len());
    }
}

/// The sort keys of the listed games: their names.
pub open spec fn owned_keys(raw: Seq<(Option<u64>, Option<String>)>) -> Seq<Option<Seq<char>>> {
    owned_positions(raw).map_values(|p: int| opt_text(raw[p].1))
}

/// `out` lists the reported games with a non-zero app id, sorted by name
/// (unnamed first; games of the same name keep the reported order).
pub open spec fn owned_list(out: Seq<OwnedGame>, raw: Seq<(Option<u64>, Option<String>)>) -> bool {
    let pos = owned_positions(raw);
    exists|perm: Seq<usize>|
        {
            &&& stable_asc(owned_keys(raw), perm)
            &&& out.len() == pos.len()
            &&& forall|k: int|
                0 <= k < out.len() ==> {
                    &&& (#[trigger] out[k]).app_id == owned_id(raw[pos[perm[k] as int]])
                    &&& opt_text(out[k].name) == opt_text(raw[pos[perm[k] as int]].1)
                }
        }
}

fn copy_name(o: &Option<String>) -> (r: Option<String>)
    ensures
        opt_text(r) == opt_text(*o),
{
    match o {
        Some(s) => Some(s.clone()),
        None => None,
    }
}

/// The owned games from the helper's report, given as `(app id, name)` per
/// game: each app id is cut to 32 bits, games whose id is then 0 are dropped,
/// and the list is sorted by name.
pub fn owned_games(raw: &Vec<(Option<u64>, Option<String>)>) -> (r: Vec<OwnedGame>)
    ensures
        owned_list(r@, raw@),
{
    let mut games: Vec<OwnedGame> = Vec::new();
    let mut keys: Vec<Option<Vec<char>>> = Vec::new();
    let mut i: usize = 0;
    assert(raw@.subrange(0, 0) =~= Seq::<(Option<u64>, Option<String>)>::empty());
    while i < raw.len()
        invariant
            i <= raw@.len(),
            games@.len() == owned_positions(raw@.subrange(0, i as int)).len(),
            keys@.len() == games@.len(),
            forall|j: int|
                0 <= j < games@.len() ==> 0 <= #[trigger] owned_positions(raw@.subrange(0, i as int))[j] < i,
            forall|j: int|
                0 <= j < games@.len() ==> {
                    &&& (#[trigger] games@[j]).app_id == owned_id(
                        raw@[owned_positions(raw@.subrange(0, i as int))[j]],
                    )
                    &&& opt_text(games@[j].name) == opt_text(
                        raw@[owned_positions(raw@.subrange(0, i as int))[j]].1,
                    )
                },
            key_views(keys@) == owned_keys(raw@.subrange(0, i as int)),
        decreases raw@.len() - i,
    {
        let ghost sub = raw@.subrange(0, i as int);
        let ghost sub1 = raw@.subrange(0, i + 1);
        assert(sub1.drop_last() =~= sub);
        assert(sub1.last() == raw@[i as int]);
        proof {
            lemma_owned_positions(sub);
        }
        let ghost prev_pos = owned_positions(sub);
        assert(forall|j: int| 0 <= j < prev_pos.len() ==> #[trigger] sub1[prev_pos[j]] == raw@[prev_pos[j]]);
        assert(forall|j: int| 0 <= j < prev_pos.len() ==> #[trigger] sub[prev_pos[j]] == raw@[prev_pos[j]]);
        let app_id: u32 = match raw[i].0 {
            Some(x) => x as u32,
            None => 0,
        };
        if app_id != 0 {
            let name = copy_name(&raw[i].1);
            let key = match &name {
                Some(n) => Some(chars_of(n.as_str())),
                None => None,
            };
            keys.push(key);
            games.push(OwnedGame { app_id, name });
            proof {
                assert(owned_positions(sub1) == prev_pos.push(i as int));
                assert(owned_keys(sub1) =~= owned_keys(sub).push(opt_text(raw@[i as int].1)));
                assert(key_views(keys@) =~= owned_keys(sub1));
            }
        } else {
            proof {
                assert(owned_positions(sub1) == prev_pos);
                assert(owned_keys(sub1) =~= owned_keys(sub));
            }
        }
        i = i + 1;
    }
    assert(raw@.subrange(0, raw@.len() as int) =~= raw@);
    let perm = order_asc_stable(&keys);
    let mut out: Vec<OwnedGame> = Vec::new();
    let mut k: usize = 0;
    while k < perm.len()
        invariant
            k <= perm@.len(),
            stable_asc(key_views(keys@), perm@),
            keys@.len() == games@.len(),
            out@.len() == k,
            forall|j: int|
                0 <= j < k ==> {
                    &&& (#[trigger] out@[j]).app_id == owned_id(raw@[owned_positions(raw@)[perm@[j] as int]])
                    &&& opt_text(out@[j].name) == opt_text(raw@[owned_positions(raw@)[perm@[j] as int]].1)
                },
            forall|j: int|
                0 <= j < games@.len() ==> {
                    &&& (#[trigger] games@[j]).app_id == owned_id(raw@[owned_positions(raw@)[j]])
                    &&& opt_text(games@[j].name) == opt_text(raw@[owned_positions(raw@)[j]].1)
                },
        decreases perm@.len() - k,
    {
        let g = &games[perm[k]];
        out.push(OwnedGame { app_id: g.app_id, name: copy_name(&g.name) });
        k = k + 1;
    }
    out
}

} // verus!
