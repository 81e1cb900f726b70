//! The one-shot update decision: hold the descriptor's recorded version
//! against the latest release and decide which descriptor rewrites to
//! perform, in which order.

use vstd::prelude::*;

use crate::digest::{opt_string_view, select_checksums, selected_checksums, Asset};
use crate::text::{starts_with, str_eq, str_starts_with};
use crate::versions::{semver_cmp, semver_compare, semver_is_valid, semver_ok};

verus! {

/// Prefix of a release tag that names a release of the command-line tool.
pub open spec fn spec_release_tag_prefix() -> Seq<char> {
    "@biomejs/biome@"@
}

/// The latest release, as fetched: tag, prerelease flag, and assets.
#[derive(Clone, Debug)]
pub struct Release {
    pub tag_name: String,
    pub prerelease: bool,
    pub assets: Vec<Asset>,
}

/// What one run decides to do with the descriptor.
#[derive(Debug)]
pub enum UpdatePlan {
    /// The tag does not carry the expected release prefix: abort.
    NotProjectRelease,
    /// The release is marked as a prerelease: abort.
    Prerelease,
    /// The tag's version text equals the descriptor's: nothing to do.
    AlreadyCurrent,
    /// The descriptor's version is not a semantic version: fatal.
    CurrentVersionInvalid,
    /// The release's version is not a semantic version: fatal.
    LatestVersionInvalid,
    /// The texts differ but the versions compare equal: attempt the revision
    /// reset, then stop without touching the version or checksum lines.
    UpToDateAfterReset,
    /// The versions differ: rewrite the descriptor.
    Update {
        /// The release's version is lower than the descriptor's: the anomaly
        /// is reported and the revision is not reset, but the rewrite
        /// still happens.
        downgrade: bool,
        /// Version text to write into the descriptor's version line.
        new_version: String,
        /// Hash for the x86_64 checksum line, when a kept asset carries one.
        x64_sum: Option<String>,
        /// Hash for the aarch64 checksum line, when a kept asset carries one.
        arm64_sum: Option<String>,
    },
}

/// Decide what to do, given the descriptor's version text and the latest
/// release.
pub fn plan_update(current: &str, release: &Release) -> (r: UpdatePlan)
    ensures
        ({
            let tag = release.tag_name@;
            let pfx = spec_release_tag_prefix();
            let latest = tag.skip(pfx.len() as int);
            let both_valid = semver_ok(current@) && semver_ok(latest);
            let c = semver_cmp(current@, latest);
            &&& (!starts_with(tag, pfx) ==> r == UpdatePlan::NotProjectRelease)
            &&& (starts_with(tag, pfx) && release.prerelease ==> r == UpdatePlan::Prerelease)
            &&& (starts_with(tag, pfx) && !release.prerelease && latest == current@ ==> r
                == UpdatePlan::AlreadyCurrent)
            &&& (starts_with(tag, pfx) && !release.prerelease && latest != current@ && !semver_ok(
                current@,
            ) ==> r == UpdatePlan::CurrentVersionInvalid)
            &&& (starts_with(tag, pfx) && !release.prerelease && latest != current@ && semver_ok(
                current@,
            ) && !semver_ok(latest) ==> r == UpdatePlan::LatestVersionInvalid)
            &&& (starts_with(tag, pfx) && !release.prerelease && latest != current@ && both_valid
                && c == 0 ==> r == UpdatePlan::UpToDateAfterReset)
            &&& (starts_with(tag, pfx) && !release.prerelease && latest != current@ && both_valid
                && c != 0 ==> (r matches UpdatePlan::Update {
                downgrade,
                new_version,
                x64_sum,
                arm64_sum,
            } && downgrade == (c > 0) && new_version@ == latest && opt_string_view(x64_sum)
                == selected_checksums(release.assets@).0 && opt_string_view(arm64_sum)
                == selected_checksums(release.assets@).1))
        }),
{
    let prefix = "@biomejs/biome@";
    if !str_starts_with(release.tag_name.as_str(), prefix) {
        return UpdatePlan::NotProjectRelease;
    }
    if release.prerelease {
        return UpdatePlan::Prerelease;
    }
    let plen = prefix.unicode_len();
    let tlen = release.tag_name.unicode_len();
    let latest = release.tag_name.as_str().substring_char(plen, tlen);
    proof {
        assert(latest@ =~= release.tag_name@.skip(plen as int));
    }
    if str_eq(latest, current) {
        return UpdatePlan::AlreadyCurrent;
    }
    if !semver_is_valid(current) {
        return UpdatePlan::CurrentVersionInvalid;
    }
    if !semver_is_valid(latest) {
        return UpdatePlan::LatestVersionInvalid;
    }
    let c = semver_compare(current, latest);
    if c == 0 {
        return UpdatePlan::UpToDateAfterReset;
    }
    let sums = select_checksums(&release.assets);
    UpdatePlan::Update {
        downgrade: c > 0,
        new_version: String::from_str(latest),
        x64_sum: sums.0,
        arm64_sum: sums.1,
    }
}

} // verus!
