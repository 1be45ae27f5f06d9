//! In-app build timeline: pick an older build by date.
//!
//! Merges three sources for one game: the current public build (PICS), the
//! builds still cached on this PC (depotcache) and the public news feed,
//! which labels a build with the patch that shipped right after it ("the
//! build before <patch>"). The requests themselves are made by the caller.

use vstd::prelude::*;

use crate::changelog::ChangelogEntry;
use crate::date::{iso_date, iso_date_of};
use crate::order::{order_desc_stable, stable_desc};
use crate::text::{parse_i64, parse_signed_i64, parse_u64, parse_unsigned};

verus! {

/// One build of one depot, dated and optionally labelled with a patch note.
#[derive(Debug, Clone)]
pub struct BuildEntry {
    /// Manifest id (64-bit, kept as text).
    pub manifest_id: String,
    /// Build creation time, Unix seconds.
    pub timestamp: i64,
    /// `YYYY-MM-DD` for display.
    pub date_iso: String,
    /// True for the current public build (the "you are here" anchor).
    pub is_current: bool,
    /// Where the build came from: `pics` (current) or `depotcache` (cached).
    pub source: String,
    /// Title of the update that shipped right after this build, if known.
    pub patch_title: Option<String>,
}

/// The dated build list for one depot, newest first.
#[derive(Debug, Clone)]
pub struct DepotTimeline {
    pub depot_id: u32,
    pub builds: Vec<BuildEntry>,
}

/// A patch note, kept for context next to the builds.
#[derive(Debug, Clone)]
pub struct PatchEntry {
    pub title: String,
    pub date: i64,
    pub date_iso: String,
    pub url: String,
}

/// Everything the timeline view needs for one game.
#[derive(Debug, Clone)]
pub struct BuildTimeline {
    pub app_id: u32,
    pub current_build_id: Option<u64>,
    pub current_ts: i64,
    pub depots: Vec<DepotTimeline>,
    pub patches: Vec<PatchEntry>,
}

// --- Labelling a build with the next patch ----------------------------------------

/// 45 days in seconds: a patch further away does not label a build.
pub open spec fn patch_window() -> int {
    3_888_000
}

/// The patch shipped after `ts`, within the window.
pub open spec fn follows_within(date: i64, ts: i64) -> bool {
    date > ts && date - ts <= patch_window()
}

/// No gap between a later patch date and `ts` leaves the `i64` range.
pub open spec fn gaps_fit(patches: Seq<PatchEntry>, ts: i64) -> bool {
    forall|j: int| 0 <= j < patches.len() && patches[j].date > ts ==> #[trigger] patches[j].date - ts <= i64::MAX
}

/// Patch `i` is the next one after `ts`: it follows within the window, no
/// such patch is earlier, and earlier positions hold no patch of that date.
pub open spec fn is_next_patch(patches: Seq<PatchEntry>, ts: i64, i: int) -> bool {
    &&& 0 <= i < patches.len()
    &&& follows_within(patches[i].date, ts)
    &&& forall|j: int|
        0 <= j < patches.len() && follows_within(#[trigger] patches[j].date, ts) ==> patches[i].date
            <= patches[j].date && (j < i ==> patches[i].date < patches[j].date)
}

/// The title of the next patch after `ts`, if any.
pub open spec fn next_patch_title(patches: Seq<PatchEntry>, ts: i64) -> Option<Seq<char>> {
    if exists|i: int| is_next_patch(patches, ts, i) {
        Some(patches[choose|i: int| is_next_patch(patches, ts, i)].title@)
    } else {
        None
    }
}

/// The next patch after `ts` is unique.
proof fn lemma_next_patch_unique(patches: Seq<PatchEntry>, ts: i64, i: int, k: int)
    requires
        is_next_patch(patches, ts, i),
        is_next_patch(patches, ts, k),
    ensures
        i == k,
{
    assert(follows_within(patches[k].date, ts));
    assert(follows_within(patches[i].date, ts));
}

/// The position of the patch that shipped right after `ts` (first of the
/// earliest ones), within 45 days.
fn next_patch_index(patches: &[PatchEntry], ts: i64) -> (r: Option<usize>)
    requires
        gaps_fit(patches@, ts),
    ensures
        match r {
            Some(i) => is_next_patch(patches@, ts, i as int),
            None => forall|j: int|
                0 <= j < patches@.len() ==> !follows_within(#[trigger] patches@[j].date, ts),
        },
{
    let mut best: Option<usize> = None;
    let mut k: usize = 0;
    while k < patches.len()
        invariant
            k <= patches@.len(),
            gaps_fit(patches@, ts),
            match best {
                Some(b) => {
                    &&& b < k
                    &&& follows_within(patches@[b as int].date, ts)
                    &&& forall|j: int|
                        0 <= j < k && follows_within(#[trigger] patches@[j].date, ts)
                            ==> patches@[b as int].date <= patches@[j].date && (j < b
                            ==> patches@[b as int].date < patches@[j].date)
                },
                None => forall|j: int|
                    0 <= j < k ==> !follows_within(#[trigger] patches@[j].date, ts),
            },
        decreases patches@.len() - k,
    {
        let d = patches[k].date;
        if d > ts && d - ts <= 45 * 24 * 3600 {
            match best {
                None => {
                    best = Some(k);
                },
                Some(b) => {
                    if d - ts < patches[b].date - ts {
                        best = Some(k);
                    }
                },
            }
        }
        k = k + 1;
    }
    best
}

/// The title of the update that shipped right after `ts` (within 45 days, so
/// an old build is not labelled with a much later patch): this build
/// predates that patch.
pub fn next_patch_after<'a>(patches: &'a [PatchEntry], ts: i64) -> (r: Option<&'a str>)
    requires
        gaps_fit(patches@, ts),
    ensures
        match r {
            Some(t) => next_patch_title(patches@, ts) == Some(t@),
            None => next_patch_title(patches@, ts).is_none(),
        },
{
    match next_patch_index(patches, ts) {
        Some(i) => {
            proof {
                let c = choose|j: int| is_next_patch(patches@, ts, j);
                lemma_next_patch_unique(patches@, ts, i as int, c);
            }
            Some(patches[i].title.as_str())
        },
        None => {
            assert(!exists|i: int| is_next_patch(patches@, ts, i));
            None
        },
    }
}

// --- Assembling one depot's builds -------------------------------------------------

/// `pics`.
pub open spec fn source_pics() -> Seq<char> {
    seq!['p', 'i', 'c', 's']
}

/// `depotcache`.
pub open spec fn source_depotcache() -> Seq<char> {
    seq!['d', 'e', 'p', 'o', 't', 'c', 'a', 'c', 'h', 'e']
}

/// The builds before sorting: the current build, then each cached build whose
/// manifest id was not seen before (as `(manifest id, timestamp, is_current)`).
pub open spec fn merged_builds(current: Option<(Seq<char>, i64)>, cached: Seq<(Seq<char>, i64)>) -> Seq<
    (Seq<char>, i64, bool),
>
    decreases cached.len(),
{
    if cached.len() == 0 {
        match current {
            Some((mid, ts)) => seq![(mid, ts, true)],
            None => seq![],
        }
    } else {
        let prev = merged_builds(current, cached.drop_last());
        let (mid, ts) = cached.last();
        if exists|k: int| 0 <= k < prev.len() && (#[trigger] prev[k]).0 == mid {
            prev
        } else {
            prev.push((mid, ts, false))
        }
    }
}

/// `e` is the dated, labelled entry for a build.
pub open spec fn entry_for(
    e: BuildEntry,
    b: (Seq<char>, i64, bool),
    patches: Seq<PatchEntry>,
) -> bool {
    &&& e.manifest_id@ == b.0
    &&& e.timestamp == b.1
    &&& e.date_iso@ == iso_date_of(b.1)
    &&& e.is_current == b.2
    &&& e.source@ == (if b.2 {
        source_pics()
    } else {
        source_depotcache()
    })
    &&& match e.patch_title {
        Some(t) => next_patch_title(patches, b.1) == Some(t@),
        None => next_patch_title(patches, b.1).is_none(),
    }
}

/// The timestamps of the merged builds.
pub open spec fn merged_keys(m: Seq<(Seq<char>, i64, bool)>) -> Seq<i64> {
    m.map_values(|b: (Seq<char>, i64, bool)| b.1)
}

/// Patch gaps fit for every build time that can appear.
pub open spec fn all_gaps_fit(
    current: Option<(Seq<char>, i64)>,
    cached: Seq<(Seq<char>, i64)>,
    patches: Seq<PatchEntry>,
) -> bool {
    &&& (current matches Some((_, ts)) ==> gaps_fit(patches, ts))
    &&& forall|k: int| 0 <= k < cached.len() ==> gaps_fit(patches, (#[trigger] cached[k]).1)
}

/// `out` is the merged build list of one depot sorted newest first (stable:
/// builds of the same time keep the merged order), each dated and labelled.
pub open spec fn assembled(
    out: Seq<BuildEntry>,
    current: Option<(Seq<char>, i64)>,
    cached: Seq<(Seq<char>, i64)>,
    patches: Seq<PatchEntry>,
) -> bool {
    let m = merged_builds(current, cached);
    exists|perm: Seq<usize>|
        {
            &&& stable_desc(merged_keys(m), perm)
            &&& out.len() == m.len()
            &&& forall|k: int|
                0 <= k < out.len() ==> entry_for(#[trigger] out[k], m[perm[k] as int], patches)
        }
}

/// Every merged build time comes from the current build or a cached one, so
/// the patch gaps fit for it.
proof fn lemma_merged_gaps(
    current: Option<(Seq<char>, i64)>,
    cached: Seq<(Seq<char>, i64)>,
    patches: Seq<PatchEntry>,
)
    requires
        all_gaps_fit(current, cached, patches),
    ensures
        forall|j: int|
            0 <= j < merged_builds(current, cached).len() ==> gaps_fit(
                patches,
                (#[trigger] merged_builds(current, cached)[j]).1,
            ),
    decreases cached.len(),
{
    if cached.len() > 0 {
        let rest = cached.drop_last();
        assert forall|k: int| 0 <= k < rest.len() implies gaps_fit(patches, (#[trigger] rest[k]).1) by {
            assert(rest[k] == cached[k]);
        }
        lemma_merged_gaps(current, rest, patches);
        assert(gaps_fit(patches, cached[cached.len() - 1].1));
        let prev = merged_builds(current, rest);
        let m = merged_builds(current, cached);
        assert forall|j: int| 0 <= j < m.len() implies gaps_fit(patches, (#[trigger] m[j]).1) by {
            if j < prev.len() {
                assert(m[j] == prev[j]);
            }
        }
    } else {
        let m = merged_builds(current, cached);
        assert forall|j: int| 0 <= j < m.len() implies gaps_fit(patches, (#[trigger] m[j]).1) by {
            if let Some((mid, ts)) = current {
                assert(m[j] == (mid, ts, true));
            }
        }
    }
}

/// The view of the current build.
pub open spec fn current_view(current: Option<(String, i64)>) -> Option<(Seq<char>, i64)> {
    match current {
        Some((m, t)) => Some((m@, t)),
        None => None,
    }
}

/// The views of the cached builds.
pub open spec fn cached_view(cached: Seq<(String, i64)>) -> Seq<(Seq<char>, i64)> {
    cached.map_values(|c: (String, i64)| (c.0@, c.1))
}

fn contains_string(v: &Vec<String>, s: &String) -> (r: bool)
    ensures
        r == exists|k: int| 0 <= k < v@.len() && (#[trigger] v@[k])@ == s@,
{
    let mut k: usize = 0;
    while k < v.len()
        invariant
            k <= v@.len(),
            forall|j: int| 0 <= j < k ==> (#[trigger] v@[j])@ != s@,
        decreases v@.len() - k,
    {
        if v[k] == *s {
            return true;
        }
        k = k + 1;
    }
    false
}

fn copy_string(s: &String) -> (r: String)
    ensures
        r@ == s@,
{
    s.clone()
}

fn source_text(current: bool) -> (r: String)
    ensures
        r@ == (if current {
            source_pics()
        } else {
            source_depotcache()
        }),
{
    if current {
        let s = String::from_str("pics");
        proof {
            reveal_strlit("pics");
        }
        assert(s@ =~= source_pics());
        s
    } else {
        let s = String::from_str("depotcache");
        proof {
            reveal_strlit("depotcache");
        }
        assert(s@ =~= source_depotcache());
        s
    }
}

/// Merges the current build with the cached builds of one depot into a dated
/// list: duplicates by manifest id are dropped (the current build wins, as
/// does the first cached copy), each build is labelled with the next patch,
/// and the list is sorted newest first.
pub fn assemble(
    current: Option<(String, i64)>,
    cached: &[(String, i64)],
    patches: &[PatchEntry],
) -> (r: Vec<BuildEntry>)
    requires
        all_gaps_fit(
            current_view(current),
            cached_view(cached@),
            patches@,
        ),
    ensures
        assembled(
            r@,
            current_view(current),
            cached_view(cached@),
            patches@,
        ),
{
    let ghost cur_v = current_view(current);
    let ghost cached_v = cached_view(cached@);
    let mut ids: Vec<String> = Vec::new();
    let mut stamps: Vec<i64> = Vec::new();
    let mut flags: Vec<bool> = Vec::new();
    match current {
        Some((mid, ts)) => {
            ids.push(mid);
            stamps.push(ts);
            flags.push(true);
        },
        None => {},
    }
    let mut i: usize = 0;
    assert(cached_v.take(0) =~= seq![]);
    while i < cached.len()
        invariant
            i <= cached@.len(),
            cached_v == cached_view(cached@),
            ids@.len() == stamps@.len() == flags@.len(),
            forall|k: int|
                0 <= k < ids@.len() ==> (#[trigger] merged_builds(cur_v, cached_v.take(i as int))[k])
                    == (ids@[k]@, stamps@[k], flags@[k]),
            merged_builds(cur_v, cached_v.take(i as int)).len() == ids@.len(),
        decreases cached@.len() - i,
    {
        let ghost prev = merged_builds(cur_v, cached_v.take(i as int));
        assert(cached_v.take(i + 1).drop_last() =~= cached_v.take(i as int));
        assert(cached_v.take(i + 1).last() == (cached@[i as int].0@, cached@[i as int].1));
        let seen = contains_string(&ids, &cached[i].0);
        if !seen {
            ids.push(copy_string(&cached[i].0));
            stamps.push(cached[i].1);
            flags.push(false);
            assert(!exists|k: int| 0 <= k < prev.len() && (#[trigger] prev[k]).0 == cached@[i as int].0@) by {
                if exists|k: int| 0 <= k < prev.len() && (#[trigger] prev[k]).0 == cached@[i as int].0@ {
                    let k = choose|k: int| 0 <= k < prev.len() && (#[trigger] prev[k]).0 == cached@[i as int].0@;
                    assert(ids@[k]@ == prev[k].0);
                }
            }
        } else {
            let ghost k = choose|k: int| 0 <= k < ids@.len() && (#[trigger] ids@[k])@ == cached@[i as int].0@;
            assert(prev[k].0 == ids@[k]@);
        }
        i = i + 1;
    }
    assert(cached_v.take(cached@.len() as int) =~= cached_v);
    let ghost m = merged_builds(cur_v, cached_v);
    proof {
        lemma_merged_gaps(cur_v, cached_v, patches@);
    }
    let perm = order_desc_stable(&stamps);
    assert(merged_keys(m) =~= stamps@);
    let mut out: Vec<BuildEntry> = Vec::new();
    let mut k: usize = 0;
    while k < perm.len()
        invariant
            k <= perm@.len(),
            stable_desc(stamps@, perm@),
            merged_keys(m) == stamps@,
            m.len() == ids@.len() == stamps@.len() == flags@.len(),
            forall|j: int| 0 <= j < ids@.len() ==> (#[trigger] m[j]) == (ids@[j]@, stamps@[j], flags@[j]),
            all_gaps_fit(cur_v, cached_v, patches@),
            forall|j: int| 0 <= j < m.len() ==> gaps_fit(patches@, (#[trigger] m[j]).1),
            out@.len() == k,
            forall|j: int| 0 <= j < k ==> entry_for(#[trigger] out@[j], m[perm@[j] as int], patches@),
        decreases perm@.len() - k,
    {
        let p = perm[k];
        let ts = stamps[p];
        assert(m[p as int].1 == ts);
        let title = match next_patch_after(patches, ts) {
            Some(t) => Some(String::from_str(t)),
            None => None,
        };
        let e = BuildEntry {
            manifest_id: copy_string(&ids[p]),
            timestamp: ts,
            date_iso: iso_date(ts),
            is_current: flags[p],
            source: source_text(flags[p]),
            patch_title: title,
        };
        out.push(e);
        k = k + 1;
    }
    out
}

// --- What a build is labelled with ----------------------------------------------------

/// Among `patches[..n]`, patch `i` ships within 45 days after `ts`, no other
/// such patch ships earlier, and none of the same date stands before it.
spec fn first_next_in(patches: Seq<PatchEntry>, ts: i64, i: int, n: int) -> bool {
    &&& 0 <= i < n
    &&& patches[i].date > ts && patches[i].date - ts <= 45 * 86400
    &&& forall|j: int|
        0 <= j < n && (#[trigger] patches[j]).date > ts && patches[j].date - ts <= 45 * 86400
            ==> patches[i].date <= patches[j].date && (j < i ==> patches[i].date < patches[j].date)
}

/// Where some patch of `patches[..n]` ships within 45 days after `ts`, one of
/// them is the first earliest.
proof fn lemma_first_next_exists(patches: Seq<PatchEntry>, ts: i64, n: int)
    requires
        0 <= n <= patches.len(),
        exists|j: int| 0 <= j < n && (#[trigger] patches[j]).date > ts && patches[j].date - ts <= 45 * 86400,
    ensures
        exists|i: int| first_next_in(patches, ts, i, n),
    decreases n,
{
    let l = n - 1;
    let fl = patches[l].date > ts && patches[l].date - ts <= 45 * 86400;
    if exists|j: int| 0 <= j < l && (#[trigger] patches[j]).date > ts && patches[j].date - ts <= 45 * 86400 {
        lemma_first_next_exists(patches, ts, l);
        let i = choose|i: int| first_next_in(patches, ts, i, l);
        if fl && patches[l].date < patches[i].date {
            assert(first_next_in(patches, ts, l, n));
        } else {
            assert(first_next_in(patches, ts, i, n));
        }
    } else {
        assert(fl);
        assert(first_next_in(patches, ts, l, n));
    }
}

/// The label of a build at `ts`, in terms of the patches themselves: `None`
/// exactly when no patch ships within 45 days after `ts`; otherwise the title
/// of the earliest such patch (the first listed of equally early ones).
pub proof fn lemma_next_patch_title(patches: Seq<PatchEntry>, ts: i64)
    ensures
        next_patch_title(patches, ts) is None <==> forall|j: int|
            0 <= j < patches.len() ==> !((#[trigger] patches[j]).date > ts && patches[j].date - ts
                <= 45 * 86400),
        next_patch_title(patches, ts) matches Some(t) ==> exists|i: int|
            {
                &&& 0 <= i < patches.len()
                &&& patches[i].title@ == t
                &&& patches[i].date > ts && patches[i].date - ts <= 45 * 86400
                &&& forall|j: int|
                    0 <= j < patches.len() && (#[trigger] patches[j]).date > ts && patches[j].date
                        - ts <= 45 * 86400 ==> patches[i].date <= patches[j].date && (j < i
                        ==> patches[i].date < patches[j].date)
            },
{
    if exists|j: int|
        0 <= j < patches.len() && (#[trigger] patches[j]).date > ts && patches[j].date - ts <= 45 * 86400 {
        lemma_first_next_exists(patches, ts, patches.len() as int);
        let i = choose|i: int| first_next_in(patches, ts, i, patches.len() as int);
        assert(is_next_patch(patches, ts, i));
        let c = choose|c: int| is_next_patch(patches, ts, c);
        lemma_next_patch_unique(patches, ts, i, c);
    } else {
        assert forall|i: int| !is_next_patch(patches, ts, i) by {
            if is_next_patch(patches, ts, i) {
                assert(patches[i].date > ts && patches[i].date - ts <= 45 * 86400);
            }
        }
    }
}

/// Every build of an assembled timeline, the current one as much as a cached
/// one, is labelled with the next patch after its own time: no label exactly
/// when no patch ships within 45 days after it, else the title of the
/// earliest patch that does (the first listed of equally early ones).
pub proof fn lemma_assembled_labels(
    out: Seq<BuildEntry>,
    current: Option<(Seq<char>, i64)>,
    cached: Seq<(Seq<char>, i64)>,
    patches: Seq<PatchEntry>,
)
    requires
        assembled(out, current, cached, patches),
    ensures
        forall|k: int|
            0 <= k < out.len() ==> ((#[trigger] out[k]).patch_title is None <==> forall|j: int|
                0 <= j < patches.len() ==> !((#[trigger] patches[j]).date > out[k].timestamp
                    && patches[j].date - out[k].timestamp <= 45 * 86400)),
        forall|k: int|
            0 <= k < out.len() ==> ((#[trigger] out[k]).patch_title matches Some(t) ==> exists|i: int|
                {
                    &&& 0 <= i < patches.len()
                    &&& patches[i].title@ == t@
                    &&& patches[i].date > out[k].timestamp && patches[i].date - out[k].timestamp
                        <= 45 * 86400
                    &&& forall|j: int|
                        0 <= j < patches.len() && (#[trigger] patches[j]).date > out[k].timestamp
                            && patches[j].date - out[k].timestamp <= 45 * 86400 ==> patches[i].date
                            <= patches[j].date && (j < i ==> patches[i].date < patches[j].date)
                }),
{
    let m = merged_builds(current, cached);
    let perm = choose|perm: Seq<usize>|
        {
            &&& stable_desc(merged_keys(m), perm)
            &&& out.len() == m.len()
            &&& forall|k: int|
                0 <= k < out.len() ==> entry_for(#[trigger] out[k], m[perm[k] as int], patches)
        };
    assert forall|k: int| 0 <= k < out.len() implies ((#[trigger] out[k]).patch_title is None
        <==> forall|j: int|
        0 <= j < patches.len() ==> !((#[trigger] patches[j]).date > out[k].timestamp
            && patches[j].date - out[k].timestamp <= 45 * 86400)) && (out[k].patch_title matches Some(
        t,
    ) ==> exists|i: int|
        {
            &&& 0 <= i < patches.len()
            &&& patches[i].title@ == t@
            &&& patches[i].date > out[k].timestamp && patches[i].date - out[k].timestamp <= 45 * 86400
            &&& forall|j: int|
                0 <= j < patches.len() && (#[trigger] patches[j]).date > out[k].timestamp
                    && patches[j].date - out[k].timestamp <= 45 * 86400 ==> patches[i].date
                    <= patches[j].date && (j < i ==> patches[i].date < patches[j].date)
        }) by {
        assert(entry_for(out[k], m[perm[k] as int], patches));
        lemma_next_patch_title(patches, out[k].timestamp);
    }
}

/// What the merged builds are: the current build first, no manifest id
/// twice, each other build the first cached copy of its manifest id (one
/// that is not the current build's), and every cached manifest id present.
proof fn lemma_merged_facts(current: Option<(Seq<char>, i64)>, cached: Seq<(Seq<char>, i64)>)
    ensures
        ({
            let m = merged_builds(current, cached);
            &&& forall|a: int, b: int| 0 <= a < b < m.len() ==> (#[trigger] m[a]).0 != (#[trigger] m[b]).0
            &&& forall|a: int|
                0 <= a < m.len() && (#[trigger] m[a]).2 ==> a == 0 && current == Some((m[a].0, m[a].1))
            &&& forall|a: int|
                0 <= a < m.len() && !(#[trigger] m[a]).2 ==> (exists|j: int|
                    0 <= j < cached.len() && cached[j] == (m[a].0, m[a].1) && forall|i: int|
                        0 <= i < j ==> (#[trigger] cached[i]).0 != m[a].0) && (current matches Some(c)
                    ==> c.0 != m[a].0)
            &&& current matches Some(c) ==> m.len() > 0 && m[0] == (c.0, c.1, true)
            &&& forall|j: int|
                0 <= j < cached.len() ==> exists|a: int| 0 <= a < m.len() && (#[trigger] m[a]).0 == (
                #[trigger] cached[j]).0
        }),
    decreases cached.len(),
{
    if cached.len() > 0 {
        let u = cached.drop_last();
        lemma_merged_facts(current, u);
        let prev = merged_builds(current, u);
        let m = merged_builds(current, cached);
        let n = cached.len() - 1;
        let (mid, ts) = cached.last();
        assert forall|x: int| 0 <= x < n implies #[trigger] cached[x] == u[x] by {}
        let seen = exists|k: int| 0 <= k < prev.len() && (#[trigger] prev[k]).0 == mid;
        if seen {
            assert(m == prev);
        } else {
            assert(m == prev.push((mid, ts, false)));
            assert forall|a: int| 0 <= a < prev.len() implies #[trigger] m[a] == prev[a] by {}
        }
        assert forall|a: int|
            0 <= a < m.len() && !(#[trigger] m[a]).2 implies (exists|j: int|
            0 <= j < cached.len() && cached[j] == (m[a].0, m[a].1) && forall|i: int|
                0 <= i < j ==> (#[trigger] cached[i]).0 != m[a].0) && (current matches Some(c) ==> c.0
            != m[a].0) by {
            if a < prev.len() {
                assert(m[a] == prev[a]);
                let j = choose|j: int|
                    0 <= j < u.len() && u[j] == (prev[a].0, prev[a].1) && forall|i: int|
                        0 <= i < j ==> (#[trigger] u[i]).0 != prev[a].0;
                assert(cached[j] == u[j]);
                assert forall|i: int| 0 <= i < j implies (#[trigger] cached[i]).0 != m[a].0 by {
                    assert(cached[i] == u[i]);
                }
            } else {
                assert(m[a] == (mid, ts, false));
                assert(cached[n] == (mid, ts));
                assert forall|i: int| 0 <= i < n implies (#[trigger] cached[i]).0 != mid by {
                    assert(cached[i] == u[i]);
                    let a2 = choose|a2: int| 0 <= a2 < prev.len() && (#[trigger] prev[a2]).0 == u[i].0;
                }
                if let Some(c) = current {
                    assert(prev[0].0 == c.0);
                }
            }
        }
        assert forall|j: int| 0 <= j < cached.len() implies exists|a: int|
            0 <= a < m.len() && (#[trigger] m[a]).0 == (#[trigger] cached[j]).0 by {
            if j < n {
                assert(cached[j] == u[j]);
                let a = choose|a: int| 0 <= a < prev.len() && (#[trigger] prev[a]).0 == u[j].0;
                assert(m[a] == prev[a]);
            } else if seen {
                let a = choose|a: int| 0 <= a < prev.len() && (#[trigger] prev[a]).0 == mid;
                assert(m[a] == prev[a]);
            } else {
                assert(m[prev.len() as int] == (mid, ts, false));
            }
        }
    }
}

/// The shape of an assembled timeline: newest first, no manifest id twice,
/// the current build (if any) present and marked current with source
/// `pics`, every other build the first cached copy of its manifest id with
/// source `depotcache`, every cached manifest present, and each build dated
/// by its own time.
pub proof fn lemma_assembled_builds(
    out: Seq<BuildEntry>,
    current: Option<(Seq<char>, i64)>,
    cached: Seq<(Seq<char>, i64)>,
    patches: Seq<PatchEntry>,
)
    requires
        assembled(out, current, cached, patches),
    ensures
        forall|k: int, l: int| 0 <= k < l < out.len() ==> (#[trigger] out[k]).timestamp >= (#[trigger] out[l]).timestamp,
        forall|k: int, l: int|
            0 <= k < l < out.len() ==> (#[trigger] out[k]).manifest_id@ != (#[trigger] out[l]).manifest_id@,
        current matches Some(c) ==> exists|k: int|
            0 <= k < out.len() && (#[trigger] out[k]).is_current && out[k].manifest_id@ == c.0
                && out[k].timestamp == c.1,
        forall|k: int|
            0 <= k < out.len() && (#[trigger] out[k]).is_current ==> current == Some(
                (out[k].manifest_id@, out[k].timestamp),
            ) && out[k].source@ == "pics"@,
        forall|k: int|
            0 <= k < out.len() && !(#[trigger] out[k]).is_current ==> out[k].source@ == "depotcache"@
                && (exists|j: int|
                0 <= j < cached.len() && cached[j] == (out[k].manifest_id@, out[k].timestamp) && forall|
                    i: int,
                | 0 <= i < j ==> (#[trigger] cached[i]).0 != out[k].manifest_id@) && (current matches Some(
                c,
            ) ==> c.0 != out[k].manifest_id@),
        forall|j: int|
            0 <= j < cached.len() ==> exists|k: int|
                0 <= k < out.len() && (#[trigger] out[k]).manifest_id@ == (#[trigger] cached[j]).0,
        forall|k: int| 0 <= k < out.len() ==> (#[trigger] out[k]).date_iso@ == iso_date_of(out[k].timestamp),
{
    reveal_strlit("pics");
    reveal_strlit("depotcache");
    assert(source_pics() =~= "pics"@);
    assert(source_depotcache() =~= "depotcache"@);
    let m = merged_builds(current, cached);
    let keys = merged_keys(m);
    let perm = choose|perm: Seq<usize>|
        {
            &&& stable_desc(merged_keys(m), perm)
            &&& out.len() == m.len()
            &&& forall|k: int|
                0 <= k < out.len() ==> entry_for(#[trigger] out[k], m[perm[k] as int], patches)
        };
    lemma_merged_facts(current, cached);
    assert(keys.len() == m.len());
    assert forall|k: int| 0 <= k < out.len() implies #[trigger] out[k] == out[k] && entry_for(
        out[k],
        m[perm[k] as int],
        patches,
    ) && perm[k] < m.len() && keys[perm[k] as int] == m[perm[k] as int].1 by {}
    assert forall|k: int, l: int| 0 <= k < l < out.len() implies perm[k] != perm[l] by {
        assert(keys[perm[k] as int] > keys[perm[l] as int] || perm[k] < perm[l]);
    }
    assert forall|k: int, l: int| 0 <= k < l < out.len() implies (#[trigger] out[k]).timestamp >= (
    #[trigger] out[l]).timestamp by {
        assert(entry_for(out[k], m[perm[k] as int], patches));
        assert(entry_for(out[l], m[perm[l] as int], patches));
    }
    assert forall|k: int, l: int| 0 <= k < l < out.len() implies (#[trigger] out[k]).manifest_id@
        != (#[trigger] out[l]).manifest_id@ by {
        assert(entry_for(out[k], m[perm[k] as int], patches));
        assert(entry_for(out[l], m[perm[l] as int], patches));
        let a = perm[k] as int;
        let b = perm[l] as int;
        assert(a != b);
        if a < b {
            assert(m[a].0 != m[b].0);
        } else {
            assert(m[b].0 != m[a].0);
        }
    }
    assert(forall|a: int| 0 <= a < m.len() ==> #[trigger] perm[a] < m.len());
    crate::order::lemma_perm_covers(perm, m.len() as int);
    if let Some(c) = current {
        assert(crate::order::lists(perm, 0));
        let k = choose|k: int| 0 <= k < perm.len() && perm[k] as int == 0;
        assert(entry_for(out[k], m[0], patches));
    }
    assert forall|k: int|
        0 <= k < out.len() && (#[trigger] out[k]).is_current implies current == Some(
        (out[k].manifest_id@, out[k].timestamp),
    ) && out[k].source@ == "pics"@ by {
        assert(entry_for(out[k], m[perm[k] as int], patches));
    }
    assert forall|k: int|
        0 <= k < out.len() && !(#[trigger] out[k]).is_current implies out[k].source@ == "depotcache"@
        && (exists|j: int|
        0 <= j < cached.len() && cached[j] == (out[k].manifest_id@, out[k].timestamp) && forall|i: int|
            0 <= i < j ==> (#[trigger] cached[i]).0 != out[k].manifest_id@) && (current matches Some(c)
        ==> c.0 != out[k].manifest_id@) by {
        assert(entry_for(out[k], m[perm[k] as int], patches));
        assert(!m[perm[k] as int].2);
    }
    assert forall|j: int| 0 <= j < cached.len() implies exists|k: int|
        0 <= k < out.len() && (#[trigger] out[k]).manifest_id@ == (#[trigger] cached[j]).0 by {
        let a = choose|a: int| 0 <= a < m.len() && (#[trigger] m[a]).0 == cached[j].0;
        assert(crate::order::lists(perm, a));
        let k = choose|k: int| 0 <= k < perm.len() && perm[k] as int == a;
        assert(entry_for(out[k], m[a], patches));
    }
    assert forall|k: int| 0 <= k < out.len() implies (#[trigger] out[k]).date_iso@ == iso_date_of(
        out[k].timestamp,
    ) by {
        assert(entry_for(out[k], m[perm[k] as int], patches));
    }
}

// --- The whole timeline ------------------------------------------------------------

/// The patch notes of changelog entries, in order.
pub fn patch_entries(entries: Vec<ChangelogEntry>) -> (r: Vec<PatchEntry>)
    ensures
        r@.len() == entries@.len(),
        forall|k: int|
            0 <= k < r@.len() ==> {
                &&& (#[trigger] r@[k]).title@ == entries@[k].title@
                &&& r@[k].date == entries@[k].date
                &&& r@[k].date_iso@ == entries@[k].date_iso@
                &&& r@[k].url@ == entries@[k].url@
            },
{
    let mut out: Vec<PatchEntry> = Vec::new();
    let mut k: usize = 0;
    while k < entries.len()
        invariant
            k <= entries@.len(),
            out@.len() == k,
            forall|j: int|
                0 <= j < k ==> {
                    &&& (#[trigger] out@[j]).title@ == entries@[j].title@
                    &&& out@[j].date == entries@[j].date
                    &&& out@[j].date_iso@ == entries@[j].date_iso@
                    &&& out@[j].url@ == entries@[j].url@
                },
        decreases entries@.len() - k,
    {
        let e = &entries[k];
        out.push(
            PatchEntry {
                title: copy_string(&e.title),
                date: e.date,
                date_iso: copy_string(&e.date_iso),
                url: copy_string(&e.url),
            },
        );
        k = k + 1;
    }
    out
}

/// A depot of the PICS answer: its depot id (if it is a number) and its
/// manifest id (if it is text).
pub type PicsDepot = (Option<u64>, Option<String>);

/// A manifest found in a depotcache: depot id (if a number), manifest id (if
/// text), creation time (if a number).
pub type CachedManifest = (Option<u64>, Option<String>, Option<i64>);

/// The depot ids of the first `n` PICS depots that have both ids, first
/// appearance first (as `u32`, truncating).
pub open spec fn pics_ids(pics: Seq<PicsDepot>, n: int) -> Seq<u32>
    decreases n,
{
    if n <= 0 {
        seq![]
    } else {
        let prev = pics_ids(pics, n - 1);
        match pics[n - 1] {
            (Some(d), Some(_)) => if prev.contains(d as u32) {
                prev
            } else {
                prev.push(d as u32)
            },
            _ => prev,
        }
    }
}

/// The current manifest of depot `id` among the first `n` PICS depots: the
/// last one given for it.
pub open spec fn pics_manifest(pics: Seq<PicsDepot>, n: int, id: u32) -> Option<Seq<char>>
    decreases n,
{
    if n <= 0 {
        None
    } else {
        match pics[n - 1] {
            (Some(d), Some(m)) => if d as u32 == id {
                Some(m@)
            } else {
                pics_manifest(pics, n - 1, id)
            },
            _ => pics_manifest(pics, n - 1, id),
        }
    }
}

/// The cached builds of depot `id` among the first `n` cached manifests, in
/// order: those with a depot id and a non-empty manifest id, dated by their
/// creation time or 0.
pub open spec fn cached_for(cached: Seq<CachedManifest>, n: int, id: u32) -> Seq<(Seq<char>, i64)>
    decreases n,
{
    if n <= 0 {
        seq![]
    } else {
        let prev = cached_for(cached, n - 1, id);
        match cached[n - 1] {
            (Some(d), Some(m), ct) => if d as u32 == id && m@.len() > 0 {
                prev.push(
                    (
                        m@,
                        match ct {
                            Some(t) => t,
                            None => 0,
                        },
                    ),
                )
            } else {
                prev
            },
            _ => prev,
        }
    }
}

/// The build time of the current build: `time_updated` parsed, or 0.
pub open spec fn current_ts_of(time_updated: Option<String>) -> i64 {
    match time_updated {
        Some(t) => match parse_signed_i64(t@) {
            Some(v) => v as i64,
            None => 0,
        },
        None => 0,
    }
}

/// The current build id: `build_id` parsed, if it is a `u64`.
pub open spec fn current_build_of(build_id: Option<String>) -> Option<u64> {
    match build_id {
        Some(b) => match parse_unsigned(b@, u64::MAX as nat) {
            Some(v) => Some(v as u64),
            None => None,
        },
        None => None,
    }
}

/// No patch date is so far after a build time that their gap leaves `i64`.
pub open spec fn timeline_gaps_fit(
    time_updated: Option<String>,
    cached: Seq<CachedManifest>,
    patches: Seq<PatchEntry>,
) -> bool {
    &&& gaps_fit(patches, current_ts_of(time_updated))
    &&& forall|k: int|
        0 <= k < cached.len() ==> gaps_fit(
            patches,
            match (#[trigger] cached[k]).2 {
                Some(t) => t,
                None => 0,
            },
        )
}

fn find_id(ids: &Vec<u32>, id: u32) -> (r: Option<usize>)
    ensures
        match r {
            Some(k) => k < ids@.len() && ids@[k as int] == id,
            None => !ids@.contains(id),
        },
{
    let mut k: usize = 0;
    while k < ids.len()
        invariant
            k <= ids@.len(),
            forall|j: int| 0 <= j < k ==> ids@[j] != id,
        decreases ids@.len() - k,
    {
        if ids[k] == id {
            return Some(k);
        }
        k = k + 1;
    }
    None
}

/// The depots whose cached manifests are asked for: the ids of the PICS
/// depots that have a manifest id, each once, first appearance first (as
/// `u32`, truncating).
pub fn pics_depot_ids(pics: &Vec<PicsDepot>) -> (r: Vec<u32>)
    ensures
        r@ == pics_ids(pics@, pics@.len() as int),
        forall|a: int, b: int| 0 <= a < b < r@.len() ==> r@[a] != r@[b],
{
    let mut ids: Vec<u32> = Vec::new();
    let mut i: usize = 0;
    while i < pics.len()
        invariant
            i <= pics@.len(),
            ids@ == pics_ids(pics@, i as int),
            forall|a: int, b: int| 0 <= a < b < ids@.len() ==> ids@[a] != ids@[b],
        decreases pics@.len() - i,
    {
        match &pics[i] {
            (Some(d), Some(_)) => {
                let id = *d as u32;
                match find_id(&ids, id) {
                    Some(k) => {
                        assert(ids@.contains(id));
                    },
                    None => {
                        ids.push(id);
                    },
                }
            },
            _ => {},
        }
        i = i + 1;
    }
    ids
}

/// `t` is the timeline assembled from the sources: each PICS depot, in order
/// of first appearance, with its current build (at the PICS time) and its
/// cached builds.
pub open spec fn timeline_of(
    t: BuildTimeline,
    app_id: u32,
    time_updated: Option<String>,
    build_id: Option<String>,
    pics: Seq<PicsDepot>,
    cached: Seq<CachedManifest>,
    patches: Seq<PatchEntry>,
) -> bool {
    let ids = pics_ids(pics, pics.len() as int);
    let ts = current_ts_of(time_updated);
    &&& t.app_id == app_id
    &&& t.current_ts == ts
    &&& t.current_build_id == current_build_of(build_id)
    &&& t.patches@ == patches
    &&& t.depots@.len() == ids.len()
    &&& forall|k: int|
        0 <= k < ids.len() ==> {
            &&& (#[trigger] t.depots@[k]).depot_id == ids[k]
            &&& assembled(
                t.depots@[k].builds@,
                Some((pics_manifest(pics, pics.len() as int, ids[k]).unwrap(), ts)),
                cached_for(cached, cached.len() as int, ids[k]),
                patches,
            )
        }
}

/// The cached builds of one depot (executable `cached_for`).
fn cached_builds(cached: &Vec<CachedManifest>, id: u32) -> (r: Vec<(String, i64)>)
    ensures
        cached_view(r@) == cached_for(cached@, cached@.len() as int, id),
{
    let mut out: Vec<(String, i64)> = Vec::new();
    let mut k: usize = 0;
    while k < cached.len()
        invariant
            k <= cached@.len(),
            cached_view(out@) == cached_for(cached@, k as int, id),
        decreases cached@.len() - k,
    {
        let ghost prev = out@;
        match &cached[k] {
            (Some(d), Some(m), ct) => {
                if *d as u32 == id && m.as_str().unicode_len() > 0 {
                    let t = match ct {
                        Some(t) => *t,
                        None => 0,
                    };
                    out.push((copy_string(m), t));
                    assert(cached_view(out@) =~= cached_view(prev).push((m@, t)));
                }
            },
            _ => {},
        }
        k = k + 1;
    }
    out
}

/// Assembles the full build timeline of an app from the PICS answer
/// (`time_updated`, `build_id`, depots), the manifests found in the
/// depotcaches and the patch notes.
pub fn timeline_from_sources(
    app_id: u32,
    time_updated: Option<String>,
    build_id: Option<String>,
    pics: Vec<PicsDepot>,
    cached: Vec<CachedManifest>,
    patches: Vec<PatchEntry>,
) -> (t: BuildTimeline)
    requires
        timeline_gaps_fit(time_updated, cached@, patches@),
    ensures
        timeline_of(t, app_id, time_updated, build_id, pics@, cached@, patches@),
{
    let current_ts = match &time_updated {
        Some(t) => match parse_i64(t.as_str()) {
            Some(v) => v,
            None => 0,
        },
        None => 0,
    };
    let current_build_id = match &build_id {
        Some(b) => parse_u64(b.as_str()),
        None => None,
    };
    let mut ids: Vec<u32> = Vec::new();
    let mut mids: Vec<String> = Vec::new();
    let mut i: usize = 0;
    while i < pics.len()
        invariant
            i <= pics@.len(),
            ids@ == pics_ids(pics@, i as int),
            mids@.len() == ids@.len(),
            forall|a: int, b: int| 0 <= a < b < ids@.len() ==> ids@[a] != ids@[b],
            forall|k: int|
                0 <= k < ids@.len() ==> pics_manifest(pics@, i as int, #[trigger] ids@[k]) == Some(
                    mids@[k]@,
                ),
        decreases pics@.len() - i,
    {
        match &pics[i] {
            (Some(d), Some(m)) => {
                let id = *d as u32;
                match find_id(&ids, id) {
                    Some(k) => {
                        mids.set(k, copy_string(m));
                        assert(pics_ids(pics@, i + 1) == pics_ids(pics@, i as int));
                        assert forall|j: int| 0 <= j < ids@.len() implies pics_manifest(
                            pics@,
                            i + 1,
                            #[trigger] ids@[j],
                        ) == Some(mids@[j]@) by {
                            if j != k {
                                assert(ids@[j] != ids@[k as int]);
                            }
                        }
                    },
                    None => {
                        ids.push(id);
                        mids.push(copy_string(m));
                        assert(pics_ids(pics@, i + 1) == pics_ids(pics@, i as int).push(id));
                        assert forall|j: int| 0 <= j < ids@.len() implies pics_manifest(
                            pics@,
                            i + 1,
                            #[trigger] ids@[j],
                        ) == Some(mids@[j]@) by {
                            if j < ids@.len() - 1 {
                                assert(ids@[j] != id);
                            }
                        }
                    },
                }
            },
            _ => {},
        }
        i = i + 1;
    }
    let mut depots: Vec<DepotTimeline> = Vec::new();
    let mut k: usize = 0;
    while k < ids.len()
        invariant
            k <= ids@.len(),
            ids@ == pics_ids(pics@, pics@.len() as int),
            mids@.len() == ids@.len(),
            forall|j: int|
                0 <= j < ids@.len() ==> pics_manifest(pics@, pics@.len() as int, #[trigger] ids@[j])
                    == Some(mids@[j]@),
            current_ts == current_ts_of(time_updated),
            timeline_gaps_fit(time_updated, cached@, patches@),
            depots@.len() == k,
            forall|j: int|
                0 <= j < k ==> {
                    &&& (#[trigger] depots@[j]).depot_id == ids@[j]
                    &&& assembled(
                        depots@[j].builds@,
                        Some((pics_manifest(pics@, pics@.len() as int, ids@[j]).unwrap(), current_ts)),
                        cached_for(cached@, cached@.len() as int, ids@[j]),
                        patches@,
                    )
                },
        decreases ids@.len() - k,
    {
        let id = ids[k];
        let hist = cached_builds(&cached, id);
        let cur = Some((copy_string(&mids[k]), current_ts));
        proof {
            lemma_cached_for_gaps(cached@, cached@.len() as int, id, patches@);
            assert(current_view(cur) == Some((mids@[k as int]@, current_ts)));
        }
        let builds = assemble(cur, hist.as_slice(), patches.as_slice());
        depots.push(DepotTimeline { depot_id: id, builds });
        k = k + 1;
    }
    BuildTimeline { app_id, current_build_id, current_ts, depots, patches }
}

proof fn lemma_cached_for_gaps(cached: Seq<CachedManifest>, n: int, id: u32, patches: Seq<PatchEntry>)
    requires
        0 <= n <= cached.len(),
        forall|k: int|
            0 <= k < cached.len() ==> gaps_fit(
                patches,
                match (#[trigger] cached[k]).2 {
                    Some(t) => t,
                    None => 0,
                },
            ),
    ensures
        forall|j: int|
            0 <= j < cached_for(cached, n, id).len() ==> gaps_fit(
                patches,
                (#[trigger] cached_for(cached, n, id)[j]).1,
            ),
    decreases n,
{
    if n > 0 {
        lemma_cached_for_gaps(cached, n - 1, id, patches);
        let prev = cached_for(cached, n - 1, id);
        let cur = cached_for(cached, n, id);
        assert(gaps_fit(
            patches,
            match cached[n - 1].2 {
                Some(t) => t,
                None => 0,
            },
        ));
        assert forall|j: int| 0 <= j < cur.len() implies gaps_fit(patches, (#[trigger] cur[j]).1) by {
            if j < prev.len() {
                assert(cur[j] == prev[j]);
            }
        }
    }
}

} // verus!
