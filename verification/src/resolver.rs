//! Resolution: a date to depot + manifest ids via timestamp alignment.
//!
//! Every manifest has a timestamp. Given a target date, the manifest whose
//! timestamp falls directly before it is chosen per depot ("the version
//! before that"). The manifest list comes from PICS plus any history the
//! caller supplies.

use vstd::prelude::*;

use crate::changelog::joined;
use crate::error::SteamError;
use crate::text::{
    chars_of, decimal, decimal_string, extend_chars, parse_i64, parse_u64,
    parse_unsigned, string_of,
};

verus! {

/// Where a manifest mapping came from.
#[derive(Debug, Clone, Copy, PartialEq, Eq)]
pub enum ManifestSource {
    Pics,
    CommunityArchive,
    SteamDb,
    Manual,
}

/// A known build of a depot at a point in time.
#[derive(Debug, Clone, Copy)]
pub struct DepotManifest {
    pub depot_id: u32,
    pub manifest_id: u64,
    /// Unix seconds, same time base as changelog dates.
    pub timestamp: i64,
    /// Optional associated Steam build id.
    pub build_id: Option<u64>,
    /// Where the mapping came from.
    pub source: ManifestSource,
}

/// Which depots and manifests make up "the version before" a date.
#[derive(Debug, Clone)]
pub struct ResolvedVersion {
    pub app_id: u32,
    /// Target time (Unix seconds) to roll back to.
    pub target_timestamp: i64,
    /// Per relevant depot, the manifest that was active at that time.
    pub depots: Vec<DepotManifest>,
    pub source: ManifestSource,
}

// --- The manifest active before a time ----------------------------------------------

/// `history[i]` is the manifest active directly before `before_ts`: it is
/// older than `before_ts`, no older manifest is newer, and no later position
/// holds one of the same time (the last of equally new ones wins).
pub open spec fn is_active_before(history: Seq<DepotManifest>, before_ts: i64, i: int) -> bool {
    &&& 0 <= i < history.len()
    &&& history[i].timestamp < before_ts
    &&& forall|j: int|
        0 <= j < history.len() && (#[trigger] history[j]).timestamp < before_ts
            ==> history[j].timestamp <= history[i].timestamp && (i < j ==> history[j].timestamp
            < history[i].timestamp)
}

/// The manifest active directly before `before_ts`, if any.
pub open spec fn active_before(history: Seq<DepotManifest>, before_ts: i64) -> Option<DepotManifest> {
    if exists|i: int| is_active_before(history, before_ts, i) {
        Some(history[choose|i: int| is_active_before(history, before_ts, i)])
    } else {
        None
    }
}

proof fn lemma_active_unique(history: Seq<DepotManifest>, before_ts: i64, i: int, k: int)
    requires
        is_active_before(history, before_ts, i),
        is_active_before(history, before_ts, k),
    ensures
        i == k,
{
    assert(history[k].timestamp < before_ts);
    assert(history[i].timestamp < before_ts);
}

fn active_index(history: &[DepotManifest], before_ts: i64) -> (r: Option<usize>)
    ensures
        match r {
            Some(i) => is_active_before(history@, before_ts, i as int),
            None => forall|j: int|
                0 <= j < history@.len() ==> (#[trigger] history@[j]).timestamp >= before_ts,
        },
{
    let mut best: Option<usize> = None;
    let mut k: usize = 0;
    while k < history.len()
        invariant
            k <= history@.len(),
            match best {
                Some(b) => {
                    &&& b < k
                    &&& history@[b as int].timestamp < before_ts
                    &&& forall|j: int|
                        0 <= j < k && (#[trigger] history@[j]).timestamp < before_ts
                            ==> history@[j].timestamp <= history@[b as int].timestamp && (b < j
                            ==> history@[j].timestamp < history@[b as int].timestamp)
                },
                None => forall|j: int|
                    0 <= j < k ==> (#[trigger] history@[j]).timestamp >= before_ts,
            },
        decreases history@.len() - k,
    {
        let t = history[k].timestamp;
        if t < before_ts {
            match best {
                None => {
                    best = Some(k);
                },
                Some(b) => {
                    if t >= history[b].timestamp {
                        best = Some(k);
                    }
                },
            }
        }
        k = k + 1;
    }
    best
}

/// From a manifest history, the manifest active directly before `before_ts`:
/// the newest one older than it (the last of equally new ones).
pub fn manifest_active_before(history: &[DepotManifest], before_ts: i64) -> (r: Option<
    &DepotManifest,
>)
    ensures
        match r {
            Some(m) => active_before(history@, before_ts) == Some(*m),
            None => active_before(history@, before_ts).is_none(),
        },
        r is None <==> forall|j: int|
            0 <= j < history@.len() ==> (#[trigger] history@[j]).timestamp >= before_ts,
{
    match active_index(history, before_ts) {
        Some(i) => {
            proof {
                let c = choose|j: int| is_active_before(history@, before_ts, j);
                lemma_active_unique(history@, before_ts, i as int, c);
            }
            Some(&history[i])
        },
        None => {
            assert(!exists|i: int| is_active_before(history@, before_ts, i));
            None
        },
    }
}

// --- PICS answer -------------------------------------------------------------------------

/// The manifests of the PICS answer: each depot with a numeric depot id
/// (as `u32`, truncating) and a manifest id text that parses as `u64`, in
/// order, dated by `time_updated` (or 0) and tagged with the parsed build id.
pub open spec fn pics_manifests_of(
    time_updated: Option<String>,
    build_id: Option<String>,
    depots: Seq<(Option<u64>, Option<String>)>,
) -> Seq<DepotManifest>
    decreases depots.len(),
{
    if depots.len() == 0 {
        seq![]
    } else {
        let prev = pics_manifests_of(time_updated, build_id, depots.drop_last());
        match depots.last() {
            (Some(d), Some(m)) => match parse_unsigned(m@, u64::MAX as nat) {
                Some(mid) => prev.push(
                    DepotManifest {
                        depot_id: d as u32,
                        manifest_id: mid as u64,
                        timestamp: crate::timeline::current_ts_of(time_updated),
                        build_id: crate::timeline::current_build_of(build_id),
                        source: ManifestSource::Pics,
                    },
                ),
                None => prev,
            },
            _ => prev,
        }
    }
}

/// The current depot manifests of an app from the PICS answer.
pub fn pics_manifests(
    time_updated: Option<String>,
    build_id: Option<String>,
    depots: Vec<(Option<u64>, Option<String>)>,
) -> (r: Vec<DepotManifest>)
    ensures
        r@ == pics_manifests_of(time_updated, build_id, depots@),
{
    let ts = match &time_updated {
        Some(t) => match parse_i64(t.as_str()) {
            Some(v) => v,
            None => 0,
        },
        None => 0,
    };
    let build = match &build_id {
        Some(b) => parse_u64(b.as_str()),
        None => None,
    };
    let mut out: Vec<DepotManifest> = Vec::new();
    let mut k: usize = 0;
    while k < depots.len()
        invariant
            k <= depots@.len(),
            ts == crate::timeline::current_ts_of(time_updated),
            build == crate::timeline::current_build_of(build_id),
            out@ == pics_manifests_of(time_updated, build_id, depots@.take(k as int)),
        decreases depots@.len() - k,
    {
        assert(depots@.take(k + 1).drop_last() =~= depots@.take(k as int));
        match &depots[k] {
            (Some(d), Some(m)) => match parse_u64(m.as_str()) {
                Some(mid) => {
                    out.push(
                        DepotManifest {
                            depot_id: *d as u32,
                            manifest_id: mid,
                            timestamp: ts,
                            build_id: build,
                            source: ManifestSource::Pics,
                        },
                    );
                },
                None => {},
            },
            _ => {},
        }
        k = k + 1;
    }
    assert(depots@.take(depots@.len() as int) =~= depots@);
    out
}

// --- Resolving all depots ------------------------------------------------------------

/// The depot ids of `all[..n]`, first appearance first.
pub open spec fn depot_order(all: Seq<DepotManifest>, n: int) -> Seq<u32>
    decreases n,
{
    if n <= 0 {
        seq![]
    } else {
        let prev = depot_order(all, n - 1);
        if prev.contains(all[n - 1].depot_id) {
            prev
        } else {
            prev.push(all[n - 1].depot_id)
        }
    }
}

/// The manifests of depot `id` in `all[..n]`, in order.
pub open spec fn history_of(all: Seq<DepotManifest>, n: int, id: u32) -> Seq<DepotManifest>
    decreases n,
{
    if n <= 0 {
        seq![]
    } else {
        let prev = history_of(all, n - 1, id);
        if all[n - 1].depot_id == id {
            prev.push(all[n - 1])
        } else {
            prev
        }
    }
}

/// The manifest chosen for depot `id`.
pub open spec fn chosen_for(all: Seq<DepotManifest>, id: u32, before_ts: i64) -> Option<DepotManifest> {
    active_before(history_of(all, all.len() as int, id), before_ts)
}

/// `v` is strictly increasing.
pub open spec fn strictly_increasing(v: Seq<u32>) -> bool {
    forall|a: int, b: int| 0 <= a < b < v.len() ==> v[a] < v[b]
}

/// The depots without an older manifest, in increasing order.
pub open spec fn missing_depots(all: Seq<DepotManifest>, before_ts: i64, v: Seq<u32>) -> bool {
    &&& strictly_increasing(v)
    &&& forall|id: u32|
        v.contains(id) <==> (depot_order(all, all.len() as int).contains(id) && chosen_for(
            all,
            id,
            before_ts,
        ).is_none())
}

/// The error text for depots without an older manifest.
pub open spec fn unresolved_text(missing: Seq<u32>) -> Seq<char> {
    "No older version is available in the sources for these depots: ["@ + joined(
        missing.map_values(|d: u32| decimal(d as nat)),
        seq![',', ' '],
    ) + "]. Enter a manifest id manually, or pick a later version."@
}

/// The chosen manifests, one per depot in order of first appearance.
pub open spec fn chosen_list(all: Seq<DepotManifest>, before_ts: i64) -> Seq<DepotManifest> {
    let order = depot_order(all, all.len() as int);
    Seq::new(order.len(), |k: int| chosen_for(all, order[k], before_ts).unwrap())
}

/// PICS if every chosen manifest came from PICS, otherwise manual.
pub open spec fn overall_source(chosen: Seq<DepotManifest>) -> ManifestSource {
    if forall|k: int| 0 <= k < chosen.len() ==> (#[trigger] chosen[k]).source == ManifestSource::Pics {
        ManifestSource::Pics
    } else {
        ManifestSource::Manual
    }
}

/// The positions in `all[..n]` of the manifests of depot `id`, in order.
spec fn history_index(all: Seq<DepotManifest>, n: int, id: u32) -> Seq<int>
    decreases n,
{
    if n <= 0 {
        seq![]
    } else {
        let prev = history_index(all, n - 1, id);
        if all[n - 1].depot_id == id {
            prev.push(n - 1)
        } else {
            prev
        }
    }
}

proof fn lemma_history_index(all: Seq<DepotManifest>, n: int, id: u32)
    requires
        0 <= n <= all.len(),
    ensures
        ({
            let h = history_of(all, n, id);
            let x = history_index(all, n, id);
            &&& x.len() == h.len()
            &&& forall|t: int| 0 <= t < x.len() ==> 0 <= #[trigger] x[t] < n && all[x[t]] == h[t] && h[t].depot_id == id
            &&& forall|t: int, u: int| 0 <= t < u < x.len() ==> #[trigger] x[t] < #[trigger] x[u]
            &&& forall|i: int| 0 <= i < n && (#[trigger] all[i]).depot_id == id ==> exists|t: int|
                0 <= t < x.len() && x[t] == i
        }),
    decreases n,
{
    if n > 0 {
        lemma_history_index(all, n - 1, id);
        let h = history_of(all, n, id);
        let x = history_index(all, n, id);
        let hp = history_of(all, n - 1, id);
        let xp = history_index(all, n - 1, id);
        if all[n - 1].depot_id == id {
            assert(h == hp.push(all[n - 1]));
            assert(x == xp.push(n - 1));
            assert forall|i: int| 0 <= i < n && (#[trigger] all[i]).depot_id == id implies exists|t: int|
                0 <= t < x.len() && x[t] == i by {
                if i < n - 1 {
                    let t = choose|t: int| 0 <= t < xp.len() && xp[t] == i;
                    assert(x[t] == xp[t]);
                } else {
                    assert(x[xp.len() as int] == n - 1);
                }
            }
        } else {
            assert(h == hp);
            assert(x == xp);
        }
    }
}

/// Among `h[..n]`, position `i` is the newest manifest older than `ts`, the
/// last of equally new ones.
spec fn newest_older_in(h: Seq<DepotManifest>, ts: i64, i: int, n: int) -> bool {
    &&& 0 <= i < n
    &&& h[i].timestamp < ts
    &&& forall|j: int|
        0 <= j < n && (#[trigger] h[j]).timestamp < ts ==> h[j].timestamp <= h[i].timestamp && (i < j
            ==> h[j].timestamp < h[i].timestamp)
}

proof fn lemma_newest_older_exists(h: Seq<DepotManifest>, ts: i64, n: int)
    requires
        0 <= n <= h.len(),
        exists|j: int| 0 <= j < n && (#[trigger] h[j]).timestamp < ts,
    ensures
        exists|i: int| newest_older_in(h, ts, i, n),
    decreases n,
{
    let l = n - 1;
    if exists|j: int| 0 <= j < l && (#[trigger] h[j]).timestamp < ts {
        lemma_newest_older_exists(h, ts, l);
        let i = choose|i: int| newest_older_in(h, ts, i, l);
        if h[l].timestamp < ts && h[l].timestamp >= h[i].timestamp {
            assert(newest_older_in(h, ts, l, n));
        } else {
            assert(newest_older_in(h, ts, i, n));
        }
    } else {
        assert(newest_older_in(h, ts, l, n));
    }
}

/// The manifest chosen for a depot, in terms of all manifests: none exactly
/// when no manifest of the depot is older than the target time; otherwise
/// one of the given manifests of that depot, older than the target time,
/// at least as new as every other such manifest of the depot and newer than
/// every such one given after it (the last of equally new ones wins).
pub proof fn lemma_chosen_for(all: Seq<DepotManifest>, id: u32, before_ts: i64)
    ensures
        chosen_for(all, id, before_ts) is None <==> forall|i: int|
            0 <= i < all.len() && (#[trigger] all[i]).depot_id == id ==> all[i].timestamp >= before_ts,
        chosen_for(all, id, before_ts) matches Some(c) ==> exists|i: int|
            {
                &&& 0 <= i < all.len()
                &&& all[i] == c
                &&& c.depot_id == id
                &&& c.timestamp < before_ts
                &&& forall|j: int|
                    0 <= j < all.len() && (#[trigger] all[j]).depot_id == id && all[j].timestamp < before_ts
                        ==> all[j].timestamp <= c.timestamp && (i < j ==> all[j].timestamp < c.timestamp)
            },
{
    let n = all.len() as int;
    let h = history_of(all, n, id);
    let x = history_index(all, n, id);
    lemma_history_index(all, n, id);
    if exists|i: int| 0 <= i < all.len() && (#[trigger] all[i]).depot_id == id && all[i].timestamp < before_ts {
        let i = choose|i: int| 0 <= i < all.len() && (#[trigger] all[i]).depot_id == id && all[i].timestamp < before_ts;
        let t = choose|t: int| 0 <= t < x.len() && x[t] == i;
        assert(h[t].timestamp < before_ts);
        lemma_newest_older_exists(h, before_ts, h.len() as int);
        let a = choose|a: int| newest_older_in(h, before_ts, a, h.len() as int);
        assert(is_active_before(h, before_ts, a));
        let c = choose|c: int| is_active_before(h, before_ts, c);
        lemma_active_unique(h, before_ts, a, c);
        assert(chosen_for(all, id, before_ts) == Some(h[a]));
        assert forall|j: int|
            0 <= j < all.len() && (#[trigger] all[j]).depot_id == id && all[j].timestamp < before_ts implies
            all[j].timestamp <= h[a].timestamp && (x[a] < j ==> all[j].timestamp < h[a].timestamp) by {
            let u = choose|u: int| 0 <= u < x.len() && x[u] == j;
            assert(h[u] == all[j]);
            if x[a] < j {
                if u <= a {
                    if u < a {
                        assert(x[u] < x[a]);
                    }
                }
            }
        }
        assert(all[x[a]] == h[a]);
    } else {
        assert forall|a: int| !is_active_before(h, before_ts, a) by {
            if is_active_before(h, before_ts, a) {
                assert(all[x[a]] == h[a]);
            }
        }
    }
}

/// The depot of `all[i]` is in the depot order.
proof fn lemma_depot_order_has(all: Seq<DepotManifest>, n: int, i: int)
    requires
        0 <= i < n <= all.len(),
    ensures
        depot_order(all, n).contains(all[i].depot_id),
    decreases n,
{
    let prev = depot_order(all, n - 1);
    let d = all[i].depot_id;
    if i < n - 1 {
        lemma_depot_order_has(all, n - 1, i);
        let k = choose|k: int| 0 <= k < prev.len() && prev[k] == d;
        if prev.contains(all[n - 1].depot_id) {
        } else {
            assert(depot_order(all, n)[k] == d);
        }
    } else if prev.contains(d) {
    } else {
        assert(depot_order(all, n)[prev.len() as int] == d);
    }
}

/// A depot in the depot order is the depot of some manifest.
proof fn lemma_depot_order_from(all: Seq<DepotManifest>, n: int, d: u32)
    requires
        0 <= n <= all.len(),
        depot_order(all, n).contains(d),
    ensures
        exists|i: int| 0 <= i < n && all[i].depot_id == d,
    decreases n,
{
    let prev = depot_order(all, n - 1);
    let o = depot_order(all, n);
    if prev.contains(all[n - 1].depot_id) {
        lemma_depot_order_from(all, n - 1, d);
    } else {
        let k = choose|k: int| 0 <= k < o.len() && o[k] == d;
        if k < prev.len() {
            assert(prev[k] == d);
            lemma_depot_order_from(all, n - 1, d);
        } else {
            assert(all[n - 1].depot_id == d);
        }
    }
}

/// Depot `d` has a manifest older than `before_ts`.
#[verifier::opaque]
pub open spec fn has_older(all: Seq<DepotManifest>, d: u32, before_ts: i64) -> bool {
    exists|j: int| 0 <= j < all.len() && all[j].depot_id == d && all[j].timestamp < before_ts
}

/// Every depot that occurs has a manifest older than `before_ts`.
pub open spec fn every_depot_has_older(all: Seq<DepotManifest>, before_ts: i64) -> bool {
    forall|i: int| 0 <= i < all.len() ==> has_older(all, (#[trigger] all[i]).depot_id, before_ts)
}

proof fn lemma_chosen_if_older(all: Seq<DepotManifest>, before_ts: i64, id: u32)
    requires
        every_depot_has_older(all, before_ts),
        depot_order(all, all.len() as int).contains(id),
    ensures
        chosen_for(all, id, before_ts).is_some(),
{
    lemma_depot_order_from(all, all.len() as int, id);
    let i = choose|i: int| 0 <= i < all.len() && all[i].depot_id == id;
    assert(has_older(all, all[i].depot_id, before_ts));
    reveal(has_older);
    lemma_chosen_for(all, id, before_ts);
}

proof fn lemma_older_if_chosen(all: Seq<DepotManifest>, before_ts: i64, i: int)
    requires
        0 <= i < all.len(),
        chosen_for(all, all[i].depot_id, before_ts).is_some(),
    ensures
        has_older(all, all[i].depot_id, before_ts),
{
    reveal(has_older);
    lemma_chosen_for(all, all[i].depot_id, before_ts);
}

/// A version can be resolved (every depot that occurs has a manifest chosen)
/// when every depot that occurs has a manifest older than the target time.
pub proof fn lemma_resolvable_if_older(all: Seq<DepotManifest>, before_ts: i64)
    requires
        every_depot_has_older(all, before_ts),
    ensures
        forall|id: u32|
            depot_order(all, all.len() as int).contains(id) ==> #[trigger] chosen_for(all, id, before_ts).is_some(),
{
    assert forall|id: u32| depot_order(all, all.len() as int).contains(id) implies #[trigger] chosen_for(
        all,
        id,
        before_ts,
    ).is_some() by {
        lemma_chosen_if_older(all, before_ts, id);
    }
}

/// A version can be resolved only when every depot that occurs has a
/// manifest older than the target time.
pub proof fn lemma_older_if_resolvable(all: Seq<DepotManifest>, before_ts: i64)
    requires
        forall|id: u32|
            depot_order(all, all.len() as int).contains(id) ==> #[trigger] chosen_for(all, id, before_ts).is_some(),
    ensures
        every_depot_has_older(all, before_ts),
{
    assert forall|i: int| 0 <= i < all.len() implies has_older(all, (#[trigger] all[i]).depot_id, before_ts) by {
        lemma_depot_order_has(all, all.len() as int, i);
        lemma_older_if_chosen(all, before_ts, i);
    }
}

/// The chosen manifest for depot `order[k]`.
proof fn lemma_chosen_entry(all: Seq<DepotManifest>, before_ts: i64, k: int)
    requires
        every_depot_has_older(all, before_ts),
        0 <= k < depot_order(all, all.len() as int).len(),
    ensures
        chosen_list(all, before_ts)[k].depot_id == depot_order(all, all.len() as int)[k],
        exists|i: int|
            {
                &&& 0 <= i < all.len()
                &&& all[i] == chosen_list(all, before_ts)[k]
                &&& all[i].timestamp < before_ts
                &&& forall|j: int|
                    0 <= j < all.len() && (#[trigger] all[j]).depot_id == all[i].depot_id
                        && all[j].timestamp < before_ts ==> all[j].timestamp <= all[i].timestamp && (i
                        < j ==> all[j].timestamp < all[i].timestamp)
            },
{
    let order = depot_order(all, all.len() as int);
    assert(order.contains(order[k]));
    lemma_chosen_if_older(all, before_ts, order[k]);
    lemma_chosen_for(all, order[k], before_ts);
}

proof fn lemma_resolved_distinct(all: Seq<DepotManifest>, before_ts: i64, k: int, l: int)
    requires
        every_depot_has_older(all, before_ts),
        0 <= k < l < chosen_list(all, before_ts).len(),
    ensures
        chosen_list(all, before_ts)[k].depot_id != chosen_list(all, before_ts)[l].depot_id,
{
    lemma_depot_order(all, all.len() as int);
    lemma_chosen_entry(all, before_ts, k);
    lemma_chosen_entry(all, before_ts, l);
}

proof fn lemma_resolved_covers(all: Seq<DepotManifest>, before_ts: i64, i: int)
    requires
        every_depot_has_older(all, before_ts),
        0 <= i < all.len(),
    ensures
        exists|k: int|
            0 <= k < chosen_list(all, before_ts).len() && chosen_list(all, before_ts)[k].depot_id
                == all[i].depot_id,
{
    let order = depot_order(all, all.len() as int);
    lemma_depot_order_has(all, all.len() as int, i);
    let k = choose|k: int| 0 <= k < order.len() && order[k] == all[i].depot_id;
    lemma_chosen_entry(all, before_ts, k);
}

/// A resolved version (which exists when every depot that occurs has a
/// manifest older than the target time) holds no depot twice.
pub proof fn lemma_resolved_distinct_depots(all: Seq<DepotManifest>, before_ts: i64)
    requires
        every_depot_has_older(all, before_ts),
    ensures
        forall|k: int, l: int|
            0 <= k < l < chosen_list(all, before_ts).len() ==> (#[trigger] chosen_list(all, before_ts)[k]).depot_id
                != (#[trigger] chosen_list(all, before_ts)[l]).depot_id,
{
    assert forall|k: int, l: int| 0 <= k < l < chosen_list(all, before_ts).len() implies (#[trigger] chosen_list(
        all,
        before_ts,
    )[k]).depot_id != (#[trigger] chosen_list(all, before_ts)[l]).depot_id by {
        lemma_resolved_distinct(all, before_ts, k, l);
    }
}

/// A resolved version holds a manifest for every depot that occurs.
pub proof fn lemma_resolved_all_depots(all: Seq<DepotManifest>, before_ts: i64)
    requires
        every_depot_has_older(all, before_ts),
    ensures
        forall|i: int|
            0 <= i < all.len() ==> exists|k: int|
                0 <= k < chosen_list(all, before_ts).len() && chosen_list(all, before_ts)[k].depot_id
                    == (#[trigger] all[i]).depot_id,
{
    assert forall|i: int| 0 <= i < all.len() implies exists|k: int|
        0 <= k < chosen_list(all, before_ts).len() && chosen_list(all, before_ts)[k].depot_id
            == (#[trigger] all[i]).depot_id by {
        lemma_resolved_covers(all, before_ts, i);
    }
}

/// Each manifest of a resolved version is a given manifest older than the
/// target time, at least as new as every other such manifest of its depot
/// and newer than every such one given after it.
pub proof fn lemma_resolved_newest_older(all: Seq<DepotManifest>, before_ts: i64)
    requires
        every_depot_has_older(all, before_ts),
    ensures
        forall|k: int|
            0 <= k < chosen_list(all, before_ts).len() ==> exists|i: int|
                {
                    &&& 0 <= i < all.len()
                    &&& all[i] == #[trigger] chosen_list(all, before_ts)[k]
                    &&& all[i].timestamp < before_ts
                    &&& forall|j: int|
                        0 <= j < all.len() && (#[trigger] all[j]).depot_id == all[i].depot_id
                            && all[j].timestamp < before_ts ==> all[j].timestamp <= all[i].timestamp && (i
                            < j ==> all[j].timestamp < all[i].timestamp)
                },
{
    assert forall|k: int| 0 <= k < chosen_list(all, before_ts).len() implies exists|i: int|
        {
            &&& 0 <= i < all.len()
            &&& all[i] == #[trigger] chosen_list(all, before_ts)[k]
            &&& all[i].timestamp < before_ts
            &&& forall|j: int|
                0 <= j < all.len() && (#[trigger] all[j]).depot_id == all[i].depot_id && all[j].timestamp
                    < before_ts ==> all[j].timestamp <= all[i].timestamp && (i < j ==> all[j].timestamp
                    < all[i].timestamp)
        } by {
        lemma_chosen_entry(all, before_ts, k);
    }
}

/// The source of a resolved version: PICS exactly when every chosen
/// manifest came from PICS (so also for none), manual otherwise, whatever
/// the others' sources are and wherever the first non-PICS one stands.
pub proof fn lemma_overall_source(chosen: Seq<DepotManifest>)
    ensures
        (forall|k: int| 0 <= k < chosen.len() ==> (#[trigger] chosen[k]).source == ManifestSource::Pics)
            ==> overall_source(chosen) == ManifestSource::Pics,
        (exists|k: int| 0 <= k < chosen.len() && (#[trigger] chosen[k]).source != ManifestSource::Pics)
            ==> overall_source(chosen) == ManifestSource::Manual,
{
}

fn contains_u32(v: &Vec<u32>, x: u32) -> (r: bool)
    ensures
        r == v@.contains(x),
{
    let mut k: usize = 0;
    while k < v.len()
        invariant
            k <= v@.len(),
            forall|j: int| 0 <= j < k ==> v@[j] != x,
        decreases v@.len() - k,
    {
        if v[k] == x {
            return true;
        }
        k = k + 1;
    }
    false
}

fn history_for(all: &Vec<DepotManifest>, id: u32) -> (r: Vec<DepotManifest>)
    ensures
        r@ == history_of(all@, all@.len() as int, id),
{
    let mut out: Vec<DepotManifest> = Vec::new();
    let mut k: usize = 0;
    while k < all.len()
        invariant
            k <= all@.len(),
            out@ == history_of(all@, k as int, id),
        decreases all@.len() - k,
    {
        if all[k].depot_id == id {
            out.push(all[k]);
        }
        k = k + 1;
    }
    out
}

/// Inserts `x` into the strictly increasing `v` (which does not hold it).
fn insert_sorted(v: &mut Vec<u32>, x: u32)
    requires
        strictly_increasing(old(v)@),
        !old(v)@.contains(x),
    ensures
        strictly_increasing(final(v)@),
        forall|y: u32| final(v)@.contains(y) <==> (old(v)@.contains(y) || y == x),
{
    let mut pos: usize = 0;
    while pos < v.len() && v[pos] < x
        invariant
            pos <= v@.len(),
            v@ == old(v)@,
            forall|k: int| 0 <= k < pos ==> v@[k] < x,
        decreases v@.len() - pos,
    {
        pos = pos + 1;
    }
    let ghost before = v@;
    v.insert(pos, x);
    assert forall|a: int, b: int| 0 <= a < b < v@.len() implies v@[a] < v@[b] by {
        if b < pos {
            assert(v@[a] == before[a] && v@[b] == before[b]);
        } else if b == pos {
            assert(v@[a] == before[a]);
        } else if a == pos {
            assert(v@[b] == before[b - 1]);
            assert(before[pos as int] != x);
            assert(before[pos as int] >= x);
            if b - 1 > pos {
                assert(before[pos as int] < before[b - 1]);
            }
        } else if a < pos {
            assert(v@[a] == before[a] && v@[b] == before[b - 1]);
        } else {
            assert(v@[a] == before[a - 1] && v@[b] == before[b - 1]);
        }
    }
    assert forall|y: u32| v@.contains(y) <==> (before.contains(y) || y == x) by {
        if v@.contains(y) {
            let k = choose|k: int| 0 <= k < v@.len() && v@[k] == y;
            if k < pos {
                assert(before[k] == y);
            } else if k > pos {
                assert(before[k - 1] == y);
            }
        }
        if before.contains(y) {
            let k = choose|k: int| 0 <= k < before.len() && before[k] == y;
            if k < pos {
                assert(v@[k] == y);
            } else {
                assert(v@[k + 1] == y);
            }
        }
        if y == x {
            assert(v@[pos as int] == x);
        }
    }
}

/// The message for the depots without an older manifest.
fn unresolved_message(missing: &Vec<u32>) -> (r: String)
    ensures
        r@ == unresolved_text(missing@),
{
    let mut out = chars_of("No older version is available in the sources for these depots: [");
    let ghost base = out@;
    let ghost parts = missing@.map_values(|d: u32| decimal(d as nat));
    let mut k: usize = 0;
    while k < missing.len()
        invariant
            k <= missing@.len(),
            parts == missing@.map_values(|d: u32| decimal(d as nat)),
            out@ == base + joined(parts.take(k as int), seq![',', ' ']),
        decreases missing@.len() - k,
    {
        if k > 0 {
            out.push(',');
            out.push(' ');
        }
        extend_chars(&mut out, &decimal_string(missing[k] as u64));
        proof {
            let t = parts.take(k + 1);
            assert(t.drop_last() =~= parts.take(k as int));
            assert(out@ =~= base + joined(t, seq![',', ' ']));
        }
        k = k + 1;
    }
    assert(parts.take(missing@.len() as int) =~= parts);
    extend_chars(&mut out, &chars_of("]. Enter a manifest id manually, or pick a later version."));
    let r = string_of(&out);
    assert(r@ =~= unresolved_text(missing@));
    r
}

/// Every depot of the order has a manifest in its history.
proof fn lemma_depot_order(all: Seq<DepotManifest>, n: int)
    requires
        0 <= n <= all.len(),
    ensures
        forall|a: int, b: int|
            0 <= a < b < depot_order(all, n).len() ==> depot_order(all, n)[a] != depot_order(
                all,
                n,
            )[b],
    decreases n,
{
    if n > 0 {
        lemma_depot_order(all, n - 1);
        let prev = depot_order(all, n - 1);
        if !prev.contains(all[n - 1].depot_id) {
            assert forall|a: int| 0 <= a < prev.len() implies prev[a] != all[n - 1].depot_id by {}
        }
    }
}

/// Resolves the target version ("the version before `before_ts`") from all
/// known manifests: per depot, in order of first appearance, the manifest
/// active directly before `before_ts`. Fails, listing the depots in
/// increasing order, where a depot has no older manifest.
pub fn resolve_from(app_id: u32, before_ts: i64, all: Vec<DepotManifest>) -> (r: Result<
    ResolvedVersion,
    SteamError,
>)
    ensures
        match r {
            Ok(v) => {
                &&& forall|id: u32|
                    depot_order(all@, all@.len() as int).contains(id) ==> chosen_for(
                        all@,
                        id,
                        before_ts,
                    ).is_some()
                &&& v.app_id == app_id
                &&& v.target_timestamp == before_ts
                &&& v.depots@ == chosen_list(all@, before_ts)
                &&& v.source == overall_source(chosen_list(all@, before_ts))
            },
            Err(e) => exists|missing: Seq<u32>|
                {
                    &&& missing_depots(all@, before_ts, missing)
                    &&& missing.len() > 0
                    &&& e matches SteamError::Unresolved(m) && m@ == unresolved_text(missing)
                },
        },
{
    let mut order: Vec<u32> = Vec::new();
    let mut k: usize = 0;
    while k < all.len()
        invariant
            k <= all@.len(),
            order@ == depot_order(all@, k as int),
        decreases all@.len() - k,
    {
        if !contains_u32(&order, all[k].depot_id) {
            order.push(all[k].depot_id);
        }
        k = k + 1;
    }
    proof {
        lemma_depot_order(all@, all@.len() as int);
    }
    let ghost ord = order@;
    let mut chosen: Vec<DepotManifest> = Vec::new();
    let mut missing: Vec<u32> = Vec::new();
    let mut i: usize = 0;
    while i < order.len()
        invariant
            i <= order@.len(),
            order@ == ord,
            ord == depot_order(all@, all@.len() as int),
            forall|a: int, b: int| 0 <= a < b < ord.len() ==> ord[a] != ord[b],
            strictly_increasing(missing@),
            forall|id: u32|
                missing@.contains(id) <==> (exists|j: int|
                    0 <= j < i && ord[j] == id && chosen_for(all@, id, before_ts).is_none()),
            missing@.len() == 0 ==> {
                &&& chosen@.len() == i
                &&& forall|j: int|
                    0 <= j < i ==> chosen_for(all@, ord[j], before_ts) == Some(
                        #[trigger] chosen@[j],
                    )
            },
        decreases order@.len() - i,
    {
        let id = order[i];
        let hist = history_for(&all, id);
        match manifest_active_before(hist.as_slice(), before_ts) {
            Some(m) => {
                let ghost before = chosen@;
                chosen.push(*m);
                assert(chosen_for(all@, ord[i as int], before_ts) == Some(*m));
            },
            None => {
                proof {
                    assert forall|j: int|
                        0 <= j < i && ord[j] == id implies false by {
                        assert(ord[j] != ord[i as int]);
                    }
                }
                insert_sorted(&mut missing, id);
                assert(missing@.contains(id));
            },
        }
        i = i + 1;
    }
    if missing.len() > 0 {
        let msg = unresolved_message(&missing);
        proof {
            assert forall|id: u32|
                missing@.contains(id) <==> (depot_order(all@, all@.len() as int).contains(id)
                    && chosen_for(all@, id, before_ts).is_none()) by {
                if depot_order(all@, all@.len() as int).contains(id) && chosen_for(
                    all@,
                    id,
                    before_ts,
                ).is_none() {
                    let j = choose|j: int| 0 <= j < ord.len() && ord[j] == id;
                    assert(0 <= j < i && ord[j] == id && chosen_for(all@, id, before_ts).is_none());
                }
            }
            assert(missing_depots(all@, before_ts, missing@));
        }
        return Err(SteamError::Unresolved(msg));
    }
    assert(chosen@ =~= chosen_list(all@, before_ts));
    let mut all_pics = true;
    let mut j: usize = 0;
    while j < chosen.len()
        invariant
            j <= chosen@.len(),
            all_pics == forall|q: int|
                0 <= q < j ==> (#[trigger] chosen@[q]).source == ManifestSource::Pics,
        decreases chosen@.len() - j,
    {
        match chosen[j].source {
            ManifestSource::Pics => {},
            _ => {
                all_pics = false;
            },
        }
        j = j + 1;
    }
    let source = if all_pics {
        ManifestSource::Pics
    } else {
        ManifestSource::Manual
    };
    proof {
        assert forall|id: u32|
            depot_order(all@, all@.len() as int).contains(id) implies chosen_for(
            all@,
            id,
            before_ts,
        ).is_some() by {
            let q = choose|q: int| 0 <= q < ord.len() && ord[q] == id;
            assert(chosen_for(all@, ord[q], before_ts) == Some(chosen@[q]));
        }
    }
    Ok(ResolvedVersion { app_id, target_timestamp: before_ts, depots: chosen, source })
}

} // verus!
