//! The community manifest archive (opt-in): which manifests are sent, the keys
//! under which this machine remembers what it sent, and the service's
//! addresses. Talking to the service and storing the sent keys is the
//! caller's part; only public manifest metadata is ever sent, and any failure
//! there only yields an empty result.

use vstd::prelude::*;

use crate::paths::{join, joined_path_of, store_dir, store_dir_of};
use crate::text::{decimal, decimal_string, string_of};
use crate::vdf::string_views;

verus! {

/// The archive service. An empty address switches the archive off.
pub const ARCHIVE_BASE_URL: &'static str = "https://steam-downgrader-archive.benow.workers.dev";

/// A manifest as the archive stores it.
#[derive(Debug, Clone)]
pub struct ArchiveManifest {
    pub depot_id: u32,
    pub manifest_id: String,
    pub build_id: Option<u64>,
    pub timestamp: Option<i64>,
    /// An objective, patch-derived description ("the build before X"),
    /// never a user's own name for a version.
    pub label: Option<String>,
}

/// The archive's address, as text.
pub open spec fn base_url() -> Seq<char> {
    ARCHIVE_BASE_URL@
}

/// Whether an archive address is set (it is).
pub fn is_configured() -> (r: bool)
    ensures
        r == (base_url().len() > 0),
        r,
{
    proof {
        reveal_strlit("https://steam-downgrader-archive.benow.workers.dev");
    }
    !ARCHIVE_BASE_URL.is_empty()
}

/// The address listing the manifests the archive knows for an app.
pub fn manifests_url(app_id: u32) -> (r: String)
    ensures
        r@ == base_url() + "/v1/manifests/"@ + decimal(app_id as nat),
{
    let mut s = String::from_str(ARCHIVE_BASE_URL);
    s.append("/v1/manifests/");
    let digits = string_of(&decimal_string(app_id as u64));
    s.append(digits.as_str());
    s
}

/// The address manifests are sent to.
pub fn contribute_url() -> (r: String)
    ensures
        r@ == base_url() + "/v1/contribute"@,
{
    let mut s = String::from_str(ARCHIVE_BASE_URL);
    s.append("/v1/contribute");
    s
}

/// The key under which a sent manifest is remembered: `app:depot:manifest`.
pub open spec fn key_text(app_id: u32, depot_id: u32, manifest_id: Seq<char>) -> Seq<char> {
    decimal(app_id as nat) + ":"@ + decimal(depot_id as nat) + ":"@ + manifest_id
}

/// The key under which a sent manifest is remembered.
pub fn key(app_id: u32, depot_id: u32, manifest_id: &str) -> (r: String)
    ensures
        r@ == key_text(app_id, depot_id, manifest_id@),
{
    let mut s = string_of(&decimal_string(app_id as u64));
    s.append(":");
    let depot = string_of(&decimal_string(depot_id as u64));
    s.append(depot.as_str());
    s.append(":");
    s.append(manifest_id);
    s
}

/// The key of an archive manifest of `app_id`.
pub open spec fn manifest_key(app_id: u32, m: ArchiveManifest) -> Seq<char> {
    key_text(app_id, m.depot_id, m.manifest_id@)
}

fn contains_text_value(v: &Vec<String>, s: &String) -> (r: bool)
    ensures
        r == string_views(v@).contains(s@),
{
    let mut i: usize = 0;
    while i < v.len()
        invariant
            i <= v@.len(),
            forall|j: int| 0 <= j < i ==> v@[j]@ != s@,
        decreases v@.len() - i,
    {
        if v[i] == *s {
            assert(string_views(v@)[i as int] == s@);
            return true;
        }
        i = i + 1;
    }
    assert forall|j: int| 0 <= j < string_views(v@).len() implies string_views(v@)[j] != s@ by {
        assert(string_views(v@)[j] == v@[j]@);
    }
    false
}

fn copy_manifest(m: &ArchiveManifest) -> (r: ArchiveManifest)
    ensures
        r.depot_id == m.depot_id,
        r.manifest_id@ == m.manifest_id@,
        r.build_id == m.build_id,
        r.timestamp == m.timestamp,
        r.label == m.label,
{
    ArchiveManifest {
        depot_id: m.depot_id,
        manifest_id: m.manifest_id.clone(),
        build_id: m.build_id,
        timestamp: m.timestamp,
        label: match &m.label {
            Some(l) => Some(l.clone()),
            None => None,
        },
    }
}

/// The manifests not sent before: those whose key is not among `sent`, in order.
pub open spec fn fresh_of(app_id: u32, depots: Seq<ArchiveManifest>, sent: Seq<Seq<char>>) -> Seq<
    ArchiveManifest,
>
    decreases depots.len(),
{
    if depots.len() == 0 {
        Seq::empty()
    } else {
        let prev = fresh_of(app_id, depots.drop_last(), sent);
        if sent.contains(manifest_key(app_id, depots.last())) {
            prev
        } else {
            prev.push(depots.last())
        }
    }
}

/// Equal manifests up to the views of their text fields.
pub open spec fn same_manifests(a: Seq<ArchiveManifest>, b: Seq<ArchiveManifest>) -> bool {
    &&& a.len() == b.len()
    &&& forall|k: int|
        0 <= k < a.len() ==> {
            &&& (#[trigger] a[k]).depot_id == b[k].depot_id
            &&& a[k].manifest_id@ == b[k].manifest_id@
            &&& a[k].build_id == b[k].build_id
            &&& a[k].timestamp == b[k].timestamp
            &&& a[k].label == b[k].label
        }
}

/// The manifests of `app_id` that this machine has not sent before (`sent`
/// holds the remembered keys), in their order.
pub fn fresh_manifests(app_id: u32, depots: &[ArchiveManifest], sent: &Vec<String>) -> (r: Vec<
    ArchiveManifest,
>)
    ensures
        same_manifests(r@, fresh_of(app_id, depots@, string_views(sent@))),
{
    let ghost sv = string_views(sent@);
    let mut out: Vec<ArchiveManifest> = Vec::new();
    let mut i: usize = 0;
    while i < depots.len()
        invariant
            i <= depots@.len(),
            sv == string_views(sent@),
            same_manifests(out@, fresh_of(app_id, depots@.subrange(0, i as int), sv)),
        decreases depots@.len() - i,
    {
        let ghost sub = depots@.subrange(0, i + 1);
        assert(sub.drop_last() =~= depots@.subrange(0, i as int));
        assert(sub.last() == depots@[i as int]);
        let k = key(app_id, depots[i].depot_id, depots[i].manifest_id.as_str());
        if !contains_text_value(sent, &k) {
            out.push(copy_manifest(&depots[i]));
        }
        i = i + 1;
    }
    assert(depots@.subrange(0, depots@.len() as int) =~= depots@);
    out
}

/// The keys of manifests.
pub open spec fn keys_of(app_id: u32, depots: Seq<ArchiveManifest>) -> Seq<Seq<char>> {
    depots.map_values(|m: ArchiveManifest| manifest_key(app_id, m))
}

/// The keys to remember after sending `depots`.
pub fn manifest_keys(app_id: u32, depots: &Vec<ArchiveManifest>) -> (r: Vec<String>)
    ensures
        string_views(r@) == keys_of(app_id, depots@),
{
    let mut out: Vec<String> = Vec::new();
    let mut i: usize = 0;
    while i < depots.len()
        invariant
            i <= depots@.len(),
            string_views(out@) == keys_of(app_id, depots@.subrange(0, i as int)),
        decreases depots@.len() - i,
    {
        let k = key(app_id, depots[i].depot_id, depots[i].manifest_id.as_str());
        let ghost prev = string_views(out@);
        out.push(k);
        assert(string_views(out@) =~= prev.push(k@));
        assert(keys_of(app_id, depots@.subrange(0, i + 1)) =~= keys_of(
            app_id,
            depots@.subrange(0, i as int),
        ).push(k@));
        i = i + 1;
    }
    assert(depots@.subrange(0, depots@.len() as int) =~= depots@);
    out
}

/// The remembered keys after adding `keys`: `sent` followed by each key not
/// in it yet, once.
pub open spec fn merged_of(sent: Seq<Seq<char>>, keys: Seq<Seq<char>>) -> Seq<Seq<char>>
    decreases keys.len(),
{
    if keys.len() == 0 {
        sent
    } else {
        let prev = merged_of(sent, keys.drop_last());
        if prev.contains(keys.last()) {
            prev
        } else {
            prev.push(keys.last())
        }
    }
}

/// Adds `keys` to the remembered keys; `None` when nothing changed, so there
/// is nothing to store.
pub fn merge_keys(sent: Vec<String>, keys: &Vec<String>) -> (r: Option<Vec<String>>)
    ensures
        merged_of(string_views(sent@), string_views(keys@)).len() == sent@.len() ==> r is None,
        merged_of(string_views(sent@), string_views(keys@)).len() != sent@.len() ==> (r matches Some(
            v,
        ) && string_views(v@) == merged_of(string_views(sent@), string_views(keys@))),
{
    let ghost s0 = string_views(sent@);
    let ghost kv = string_views(keys@);
    let before = sent.len();
    let mut out = sent;
    let mut i: usize = 0;
    while i < keys.len()
        invariant
            i <= keys@.len(),
            kv == string_views(keys@),
            before == s0.len(),
            string_views(out@) == merged_of(s0, kv.subrange(0, i as int)),
        decreases keys@.len() - i,
    {
        let ghost sub = kv.subrange(0, i + 1);
        assert(sub.drop_last() =~= kv.subrange(0, i as int));
        assert(sub.last() == keys@[i as int]@);
        if !contains_text_value(&out, &keys[i]) {
            let ghost prev = string_views(out@);
            out.push(keys[i].clone());
            assert(string_views(out@) =~= prev.push(keys@[i as int]@));
        }
        i = i + 1;
    }
    assert(kv.subrange(0, kv.len() as int) =~= kv);
    if out.len() == before {
        None
    } else {
        Some(out)
    }
}

// --- Sending once -------------------------------------------------------------------

proof fn lemma_merged_contains(sent: Seq<Seq<char>>, keys: Seq<Seq<char>>)
    ensures
        forall|x: Seq<char>| sent.contains(x) ==> #[trigger] merged_of(sent, keys).contains(x),
        forall|x: Seq<char>| keys.contains(x) ==> #[trigger] merged_of(sent, keys).contains(x),
    decreases keys.len(),
{
    if keys.len() > 0 {
        let prev = merged_of(sent, keys.drop_last());
        lemma_merged_contains(sent, keys.drop_last());
        let m = merged_of(sent, keys);
        assert forall|x: Seq<char>| prev.contains(x) implies m.contains(x) by {
            if !prev.contains(keys.last()) {
                let j = choose|j: int| 0 <= j < prev.len() && prev[j] == x;
                assert(m[j] == prev[j]);
            }
        }
        assert forall|x: Seq<char>| keys.contains(x) implies m.contains(x) by {
            let j = choose|j: int| 0 <= j < keys.len() && keys[j] == x;
            if j < keys.len() - 1 {
                assert(keys.drop_last()[j] == x);
            } else if !prev.contains(keys.last()) {
                assert(m[m.len() - 1] == x);
            }
        }
    }
}

proof fn lemma_fresh_contains(app_id: u32, depots: Seq<ArchiveManifest>, sent: Seq<Seq<char>>)
    ensures
        forall|k: int|
            0 <= k < depots.len() && !sent.contains(manifest_key(app_id, #[trigger] depots[k]))
                ==> fresh_of(app_id, depots, sent).contains(depots[k]),
    decreases depots.len(),
{
    if depots.len() > 0 {
        let prev = fresh_of(app_id, depots.drop_last(), sent);
        lemma_fresh_contains(app_id, depots.drop_last(), sent);
        let f = fresh_of(app_id, depots, sent);
        assert forall|k: int|
            0 <= k < depots.len() && !sent.contains(manifest_key(app_id, #[trigger] depots[k]))
                implies f.contains(depots[k]) by {
            if k < depots.len() - 1 {
                assert(depots.drop_last()[k] == depots[k]);
                let j = choose|j: int| 0 <= j < prev.len() && prev[j] == depots[k];
                assert(f[j] == prev[j]);
            } else {
                assert(f[f.len() - 1] == depots[k]);
            }
        }
    }
}

proof fn lemma_fresh_empty(app_id: u32, depots: Seq<ArchiveManifest>, sent: Seq<Seq<char>>)
    requires
        forall|k: int| 0 <= k < depots.len() ==> sent.contains(manifest_key(app_id, #[trigger] depots[k])),
    ensures
        fresh_of(app_id, depots, sent).len() == 0,
    decreases depots.len(),
{
    if depots.len() > 0 {
        assert(depots.last() == depots[depots.len() - 1]);
        assert forall|k: int| 0 <= k < depots.drop_last().len() implies sent.contains(
            manifest_key(app_id, #[trigger] depots.drop_last()[k]),
        ) by {
            assert(depots.drop_last()[k] == depots[k]);
        }
        lemma_fresh_empty(app_id, depots.drop_last(), sent);
    }
}

/// Manifests are sent once: after the fresh manifests' keys are added to the
/// remembered keys, none of the same manifests is fresh any more.
pub proof fn lemma_sent_once(app_id: u32, depots: Seq<ArchiveManifest>, sent: Seq<Seq<char>>)
    ensures
        fresh_of(
            app_id,
            depots,
            merged_of(sent, keys_of(app_id, fresh_of(app_id, depots, sent))),
        ).len() == 0,
{
    let f = fresh_of(app_id, depots, sent);
    let s2 = merged_of(sent, keys_of(app_id, f));
    lemma_merged_contains(sent, keys_of(app_id, f));
    lemma_fresh_contains(app_id, depots, sent);
    assert forall|k: int| 0 <= k < depots.len() implies s2.contains(
        manifest_key(app_id, #[trigger] depots[k]),
    ) by {
        let x = manifest_key(app_id, depots[k]);
        if !sent.contains(x) {
            let j = choose|j: int| 0 <= j < f.len() && f[j] == depots[k];
            assert(keys_of(app_id, f)[j] == x);
            assert(keys_of(app_id, f).contains(x));
        }
    }
    lemma_fresh_empty(app_id, depots, s2);
}

/// The file the keys of sent manifests are kept in.
pub fn cache_file(appdata: Option<&str>) -> (r: String)
    ensures
        r@ == joined_path_of(
            store_dir_of(
                match appdata {
                    Some(a) => Some(a@),
                    None => None,
                },
            ),
            "contributed.json"@,
        ),
{
    let dir = store_dir(appdata);
    join(dir.as_str(), "contributed.json")
}

} // verus!
