//! Downloading an old build through the download engine built into the
//! helper process. The exchange with the helper is the caller's part; this is
//! what is sent and what comes back.

use vstd::prelude::*;

use crate::resolver::{DepotManifest, ResolvedVersion};
use crate::text::{decimal, decimal_string, string_of};

verus! {

/// How long a download may take, in seconds (four hours).
pub const DOWNLOAD_TIMEOUT_SECS: u64 = 4 * 3600;

/// Where a download went and how much it fetched.
#[derive(Debug, Clone)]
pub struct DownloadResult {
    pub output_dir: String,
    pub bytes_total: u64,
}

/// Whether the download engine is available; it is compiled in, so always.
pub fn is_available() -> (r: bool)
    ensures
        r,
{
    true
}

/// The depots of a download request: each depot id with its manifest id as
/// decimal text (manifest ids exceed what a JSON number holds exactly).
pub fn download_depots(version: &ResolvedVersion) -> (r: Vec<(u32, String)>)
    ensures
        r@.len() == version.depots@.len(),
        forall|k: int|
            0 <= k < r@.len() ==> (#[trigger] r@[k]).0 == version.depots@[k].depot_id && r@[k].1@
                == decimal(version.depots@[k].manifest_id as nat),
{
    let mut out: Vec<(u32, String)> = Vec::new();
    let mut i: usize = 0;
    while i < version.depots.len()
        invariant
            i <= version.depots@.len(),
            out@.len() == i,
            forall|k: int|
                0 <= k < i ==> (#[trigger] out@[k]).0 == version.depots@[k].depot_id && out@[k].1@
                    == decimal(version.depots@[k].manifest_id as nat),
        decreases version.depots@.len() - i,
    {
        let d: &DepotManifest = &version.depots[i];
        let id = string_of(&decimal_string(d.manifest_id));
        out.push((d.depot_id, id));
        i = i + 1;
    }
    out
}

/// The result of a finished download: the folder it went to and the byte
/// count the engine reported (0 when it reported none).
pub fn download_result(output_dir: String, bytes_total: Option<u64>) -> (r: DownloadResult)
    ensures
        r.output_dir@ == output_dir@,
        r.bytes_total == match bytes_total {
            Some(b) => b,
            None => 0,
        },
{
    DownloadResult {
        output_dir,
        bytes_total: match bytes_total {
            Some(b) => b,
            None => 0,
        },
    }
}

} // verus!
