//! The rollback library: every finished download, newest first, keyed by a
//! stable id (app id plus the sorted depot:manifest list). Loading and saving
//! `rollbacks.json` and deleting folders are done by the caller; these are
//! the list operations.

use vstd::prelude::*;

use crate::paths::{join, joined_path_of, store_dir, store_dir_of};

verus! {

/// One downloaded depot manifest.
#[derive(Debug, Clone)]
pub struct RollbackDepot {
    pub depot_id: u32,
    pub manifest_id: String,
}

/// Where and how a download was applied.
#[derive(Debug, Clone)]
pub struct AppliedInfo {
    pub model: String,
    pub path: String,
    pub at: i64,
}

/// One downloaded build.
#[derive(Debug, Clone)]
pub struct RollbackEntry {
    /// Stable key: app_id plus the sorted depot:manifest list.
    pub id: String,
    pub app_id: u32,
    pub game_name: String,
    pub target_label: String,
    pub target_date: String,
    pub depots: Vec<RollbackDepot>,
    pub download_dir: String,
    pub bytes: u64,
    pub downloaded_at: i64,
    pub applied: Option<AppliedInfo>,
}

/// The entries of `list` whose id is not `id`, in order.
pub open spec fn without_id(list: Seq<RollbackEntry>, id: Seq<char>) -> Seq<RollbackEntry>
    decreases list.len(),
{
    if list.len() == 0 {
        seq![]
    } else {
        let prev = without_id(list.drop_last(), id);
        if list.last().id@ == id {
            prev
        } else {
            prev.push(list.last())
        }
    }
}

/// The position of the first entry at or after `i` with id `id`.
pub open spec fn first_with_id_from(list: Seq<RollbackEntry>, id: Seq<char>, i: int) -> Option<int>
    decreases list.len() - i,
{
    if i < 0 || i >= list.len() {
        None
    } else if list[i].id@ == id {
        Some(i)
    } else {
        first_with_id_from(list, id, i + 1)
    }
}

/// The position of the first entry with id `id`.
pub open spec fn first_with_id(list: Seq<RollbackEntry>, id: Seq<char>) -> Option<int> {
    first_with_id_from(list, id, 0)
}

/// What `first_with_id_from` gives: the least matching position.
pub proof fn lemma_first_with_id_from(list: Seq<RollbackEntry>, id: Seq<char>, i: int)
    requires
        0 <= i,
    ensures
        match first_with_id_from(list, id, i) {
            Some(k) => i <= k < list.len() && list[k].id@ == id && forall|j: int|
                i <= j < k ==> list[j].id@ != id,
            None => forall|j: int| i <= j < list.len() ==> list[j].id@ != id,
        },
    decreases list.len() - i,
{
    if i < list.len() && list[i].id@ != id {
        lemma_first_with_id_from(list, id, i + 1);
    }
}

/// No two entries share an id.
pub open spec fn ids_unique(list: Seq<RollbackEntry>) -> bool {
    forall|a: int, b: int| 0 <= a < b < list.len() ==> list[a].id@ != list[b].id@
}

/// The list after adding `entry` in front, replacing entries with its id.
pub open spec fn added(list: Seq<RollbackEntry>, entry: RollbackEntry) -> Seq<RollbackEntry> {
    seq![entry] + without_id(list, entry.id@)
}

/// The list with the first entry of id `id` (if any) given `applied`.
pub open spec fn with_applied(
    list: Seq<RollbackEntry>,
    id: Seq<char>,
    applied: Option<AppliedInfo>,
) -> Seq<RollbackEntry> {
    match first_with_id(list, id) {
        Some(i) => list.update(i, RollbackEntry { applied, ..list[i] }),
        None => list,
    }
}

fn remove_all_with_id(list: Vec<RollbackEntry>, id: &String) -> (r: Vec<RollbackEntry>)
    ensures
        r@ == without_id(list@, id@),
{
    let ghost orig = list@;
    let mut rest = list;
    let mut out: Vec<RollbackEntry> = Vec::new();
    let ghost mut n: int = 0;
    while rest.len() > 0
        invariant
            0 <= n <= orig.len(),
            rest@ == orig.skip(n),
            out@ == without_id(orig.take(n), id@),
        decreases rest@.len(),
    {
        let e = rest.remove(0);
        proof {
            assert(e == orig[n]);
            assert(orig.take(n + 1).drop_last() =~= orig.take(n));
            assert(orig.take(n + 1).last() == orig[n]);
        }
        if e.id != *id {
            out.push(e);
        }
        proof {
            n = n + 1;
            assert(rest@ =~= orig.skip(n));
        }
    }
    assert(orig.take(orig.len() as int) =~= orig);
    out
}

/// Adds an entry in front, replacing any existing one with the same id.
pub fn add(list: Vec<RollbackEntry>, entry: RollbackEntry) -> (r: Vec<RollbackEntry>)
    ensures
        r@ == added(list@, entry),
{
    let mut out = remove_all_with_id(list, &entry.id);
    out.insert(0, entry);
    assert(out@ =~= added(list@, entry));
    out
}

fn first_index(list: &Vec<RollbackEntry>, id: &String) -> (r: Option<usize>)
    ensures
        match r {
            Some(i) => i < list@.len() && first_with_id(list@, id@) == Some(i as int),
            None => first_with_id(list@, id@).is_none(),
        },
{
    let mut k: usize = 0;
    while k < list.len()
        invariant
            k <= list@.len(),
            forall|j: int| 0 <= j < k ==> list@[j].id@ != id@,
            first_with_id(list@, id@) == first_with_id_from(list@, id@, k as int),
        decreases list@.len() - k,
    {
        if list[k].id == *id {
            proof {
                lemma_first_with_id_from(list@, id@, 0);
            }
            return Some(k);
        }
        k = k + 1;
    }
    None
}

/// Removes every entry with id `id`. When `delete_files` is set, also gives
/// the download folder of the first such entry, for the caller to delete.
pub fn remove(list: Vec<RollbackEntry>, id: &str, delete_files: bool) -> (r: (
    Vec<RollbackEntry>,
    Option<String>,
))
    ensures
        r.0@ == without_id(list@, id@),
        match r.1 {
            Some(dir) => delete_files && (first_with_id(list@, id@) matches Some(i) && dir@
                == list@[i].download_dir@),
            None => !delete_files || first_with_id(list@, id@).is_none(),
        },
{
    let key = String::from_str(id);
    let dir = if delete_files {
        match first_index(&list, &key) {
            Some(i) => Some(list[i].download_dir.clone()),
            None => None,
        }
    } else {
        None
    };
    (remove_all_with_id(list, &key), dir)
}

/// Sets (or clears) the applied state of the first entry with id `id`.
pub fn set_applied(list: Vec<RollbackEntry>, id: &str, applied: Option<AppliedInfo>) -> (r: Vec<
    RollbackEntry,
>)
    ensures
        r@ == with_applied(list@, id@, applied),
{
    let key = String::from_str(id);
    let mut list = list;
    match first_index(&list, &key) {
        Some(i) => {
            let ghost before = list@;
            let mut e = list.remove(i);
            e.applied = applied;
            list.insert(i, e);
            assert(list@ =~= with_applied(before, id@, applied));
        },
        None => {},
    }
    list
}

// --- Laws ------------------------------------------------------------------------

proof fn lemma_without_id_members(list: Seq<RollbackEntry>, id: Seq<char>)
    ensures
        forall|k: int|
            0 <= k < without_id(list, id).len() ==> (#[trigger] without_id(list, id)[k]).id@ != id,
        forall|k: int|
            0 <= k < without_id(list, id).len() ==> list.contains(
                #[trigger] without_id(list, id)[k],
            ),
        forall|k: int|
            0 <= k < list.len() && (#[trigger] list[k]).id@ != id ==> without_id(list, id).contains(
                list[k],
            ),
    decreases list.len(),
{
    if list.len() > 0 {
        let rest = list.drop_last();
        lemma_without_id_members(rest, id);
        let w = without_id(list, id);
        let p = without_id(rest, id);
        assert forall|k: int| 0 <= k < w.len() implies list.contains(#[trigger] w[k]) by {
            if k < p.len() {
                assert(w[k] == p[k]);
                let j = choose|j: int| 0 <= j < rest.len() && rest[j] == p[k];
                assert(list[j] == rest[j]);
            } else {
                assert(list[list.len() - 1] == w[k]);
            }
        }
        assert forall|k: int| 0 <= k < list.len() && (#[trigger] list[k]).id@ != id implies w.contains(
            list[k],
        ) by {
            if k < rest.len() {
                assert(rest[k] == list[k]);
                let j = choose|j: int| 0 <= j < p.len() && p[j] == rest[k];
                assert(w[j] == p[j]);
            } else {
                assert(w[w.len() - 1] == list[k]);
            }
        }
    }
}

proof fn lemma_without_id_unique(list: Seq<RollbackEntry>, id: Seq<char>)
    requires
        ids_unique(list),
    ensures
        ids_unique(without_id(list, id)),
    decreases list.len(),
{
    if list.len() > 0 {
        let rest = list.drop_last();
        lemma_without_id_unique(rest, id);
        lemma_without_id_members(rest, id);
        let w = without_id(list, id);
        let p = without_id(rest, id);
        if list.last().id@ != id {
            assert forall|a: int, b: int| 0 <= a < b < w.len() implies w[a].id@ != w[b].id@ by {
                if b == w.len() - 1 {
                    assert(w[a] == p[a]);
                    let j = choose|j: int| 0 <= j < rest.len() && rest[j] == p[a];
                    assert(list[j] == rest[j]);
                    assert(list[j].id@ != list[list.len() - 1].id@);
                } else {
                    assert(w[a] == p[a] && w[b] == p[b]);
                }
            }
        }
    }
}

/// After adding an entry it comes first, it is the only entry with its id,
/// and every other entry of the old list is kept; ids stay unique.
pub proof fn lemma_add_replaces(list: Seq<RollbackEntry>, entry: RollbackEntry)
    ensures
        added(list, entry)[0] == entry,
        first_with_id(added(list, entry), entry.id@) == Some(0int),
        forall|k: int|
            1 <= k < added(list, entry).len() ==> (#[trigger] added(list, entry)[k]).id@
                != entry.id@,
        forall|k: int|
            0 <= k < list.len() && (#[trigger] list[k]).id@ != entry.id@ ==> added(
                list,
                entry,
            ).contains(list[k]),
        ids_unique(list) ==> ids_unique(added(list, entry)),
{
    let r = added(list, entry);
    let w = without_id(list, entry.id@);
    lemma_without_id_members(list, entry.id@);
    assert forall|k: int| 1 <= k < r.len() implies (#[trigger] r[k]).id@ != entry.id@ by {
        assert(r[k] == w[k - 1]);
    }
    assert(r[0].id@ == entry.id@);
    assert forall|k: int| 0 <= k < list.len() && (#[trigger] list[k]).id@ != entry.id@ implies r.contains(
        list[k],
    ) by {
        let j = choose|j: int| 0 <= j < w.len() && w[j] == list[k];
        assert(r[j + 1] == w[j]);
    }
    if ids_unique(list) {
        lemma_without_id_unique(list, entry.id@);
        assert forall|a: int, b: int| 0 <= a < b < r.len() implies r[a].id@ != r[b].id@ by {
            if a > 0 {
                assert(r[a] == w[a - 1] && r[b] == w[b - 1]);
            }
        }
    }
}

proof fn lemma_without_id_twice(list: Seq<RollbackEntry>, id: Seq<char>)
    ensures
        without_id(without_id(list, id), id) == without_id(list, id),
    decreases list.len(),
{
    if list.len() > 0 {
        lemma_without_id_twice(list.drop_last(), id);
        let p = without_id(list.drop_last(), id);
        if list.last().id@ != id {
            assert(p.push(list.last()).drop_last() =~= p);
        }
    }
}

/// Removing an entry that was just added gives the old list without that id.
pub proof fn lemma_remove_after_add(list: Seq<RollbackEntry>, entry: RollbackEntry)
    ensures
        without_id(added(list, entry), entry.id@) == without_id(list, entry.id@),
{
    let w = without_id(list, entry.id@);
    lemma_remove_front(entry, w, entry.id@);
    lemma_without_id_twice(list, entry.id@);
}

/// `without_id` of a list whose first entry has the id drops that entry.
proof fn lemma_remove_front(first: RollbackEntry, rest: Seq<RollbackEntry>, id: Seq<char>)
    requires
        first.id@ == id,
    ensures
        without_id(seq![first] + rest, id) == without_id(rest, id),
    decreases rest.len(),
{
    if rest.len() == 0 {
        assert(seq![first] + rest =~= seq![first]);
        assert(seq![first].drop_last() =~= Seq::<RollbackEntry>::empty());
        assert(without_id(Seq::<RollbackEntry>::empty(), id) == Seq::<RollbackEntry>::empty());
        assert(without_id(seq![first], id) == without_id(seq![first].drop_last(), id));
    } else {
        lemma_remove_front(first, rest.drop_last(), id);
        assert((seq![first] + rest).drop_last() =~= seq![first] + rest.drop_last());
        assert((seq![first] + rest).last() == rest.last());
        assert((seq![first] + rest).len() > 0);
    }
}

/// After removing an id no entry has it, and every entry with another id is kept.
pub proof fn lemma_remove_drops(list: Seq<RollbackEntry>, id: Seq<char>)
    ensures
        first_with_id(without_id(list, id), id).is_none(),
        forall|k: int|
            0 <= k < list.len() && (#[trigger] list[k]).id@ != id ==> without_id(list, id).contains(
                list[k],
            ),
        ids_unique(list) ==> ids_unique(without_id(list, id)),
{
    lemma_without_id_members(list, id);
    lemma_first_with_id_from(without_id(list, id), id, 0);
    if ids_unique(list) {
        lemma_without_id_unique(list, id);
    }
}

/// Setting the applied state changes only that field of that entry: the ids,
/// in order, and every other entry stay the same.
pub proof fn lemma_set_applied_only_applied(
    list: Seq<RollbackEntry>,
    id: Seq<char>,
    applied: Option<AppliedInfo>,
)
    ensures
        with_applied(list, id, applied).len() == list.len(),
        forall|k: int|
            0 <= k < list.len() ==> (#[trigger] with_applied(list, id, applied)[k]).id@
                == list[k].id@,
        forall|k: int|
            0 <= k < list.len() && first_with_id(list, id) != Some(k) ==> #[trigger] with_applied(
                list,
                id,
                applied,
            )[k] == list[k],
        first_with_id(list, id) matches Some(i) ==> with_applied(list, id, applied)[i].applied
            == applied,
        ids_unique(list) ==> ids_unique(with_applied(list, id, applied)),
{
    lemma_first_with_id_from(list, id, 0);
}

/// The file the rollback library is kept in.
pub fn store_file(appdata: Option<&str>) -> (r: String)
    ensures
        r@ == joined_path_of(
            store_dir_of(
                match appdata {
                    Some(a) => Some(a@),
                    None => None,
                },
            ),
            "rollbacks.json"@,
        ),
{
    let dir = store_dir(appdata);
    join(dir.as_str(), "rollbacks.json")
}

} // verus!
