//! Digest extraction and asset selection: pick out the per-architecture
//! content hashes from a release's downloadable assets.

use vstd::prelude::*;

use crate::text::{
    ends_with, find_char, find_char_at, find_sub, find_substr, has_sub,
    lemma_find_char_from_correct, lemma_find_char_skip, lemma_find_sub_from_correct, match_at,
    starts_with, str_ends_with, str_starts_with,
};

verus! {

/// Marker that introduces the hash value inside an asset digest string.
pub open spec fn spec_sha256_prefix() -> Seq<char> {
    "sha256:"@
}

/// The hash in a digest string: the text between the first `sha256:` marker
/// and the next space; absent when either delimiter is missing.
pub open spec fn sha256_of_digest(d: Seq<char>) -> Option<Seq<char>> {
    match find_sub(d, spec_sha256_prefix()) {
        None => None,
        Some(i) => {
            let rest = d.skip(i + spec_sha256_prefix().len());
            match find_char(rest, ' ') {
                None => None,
                Some(k) => Some(rest.take(k)),
            }
        },
    }
}

/// Extract the hash value from an asset digest string.
pub fn get_sha256(digest: &str) -> (r: Option<String>)
    ensures
        match r {
            Some(h) => sha256_of_digest(digest@) == Some(h@),
            None => sha256_of_digest(digest@) is None,
        },
{
    let marker = "sha256:";
    match find_substr(digest, marker) {
        None => None,
        Some(i) => {
            let n = digest.unicode_len();
            let mlen = marker.unicode_len();
            proof {
                lemma_find_sub_from_correct(digest@, marker@, 0);
                assert(i + mlen <= n);
            }
            let from = i + mlen;
            proof {
                lemma_find_char_skip(digest@, ' ', from as int);
            }
            match find_char_at(digest, from, ' ') {
                None => None,
                Some(k) => {
                    proof {
                        lemma_find_char_from_correct(digest@, ' ', from as int);
                        assert(from <= k < n);
                    }
                    let h = String::from_str(digest.substring_char(from, k));
                    proof {
                        assert(h@ =~= digest@.skip(from as int).take(k - from));
                    }
                    Some(h)
                },
            }
        },
    }
}

/// A digest in which the hash marker does not occur yields no hash — an
/// absent value, not an error.
pub proof fn lemma_no_marker_no_hash(d: Seq<char>)
    requires
        !has_sub(d, spec_sha256_prefix()),
    ensures
        sha256_of_digest(d) is None,
{
    lemma_find_sub_from_correct(d, spec_sha256_prefix(), 0);
    if find_sub(d, spec_sha256_prefix()) is Some {
        let j = find_sub(d, spec_sha256_prefix())->0;
        assert(match_at(d, spec_sha256_prefix(), j));
    }
}

/// Architecture a release asset is built for.
#[derive(Clone, Copy, Debug, PartialEq, Eq, Hash, Structural)]
pub enum ArchType {
    Arm64,
    X64,
}

impl Default for ArchType {
    /// The default classification, as for any asset name without the ARM64
    /// suffix.
    fn default() -> (r: Self)
        ensures
            r == ArchType::X64,
    {
        ArchType::X64
    }
}

/// The architecture an asset name classifies as: ARM64 for the fixed name
/// suffix, X64 for every other name.
pub open spec fn arch_of_name_spec(name: Seq<char>) -> ArchType {
    if ends_with(name, "-arm64"@) {
        ArchType::Arm64
    } else {
        ArchType::X64
    }
}

/// Classify an asset name by its architecture suffix.
pub fn arch_of_name(name: &str) -> (r: ArchType)
    ensures
        r == arch_of_name_spec(name@),
{
    if str_ends_with(name, "-arm64") {
        ArchType::Arm64
    } else {
        ArchType::X64
    }
}

/// One downloadable artifact of a release: a name and an optional digest.
#[derive(Clone, Debug)]
pub struct Asset {
    pub name: String,
    pub digest: Option<String>,
}

impl Asset {
    /// The view of the optional digest.
    pub open spec fn digest_view(&self) -> Option<Seq<char>> {
        match self.digest {
            Some(d) => Some(d@),
            None => None,
        }
    }
}

/// Whether an asset is considered for checksums: it carries a digest, is a
/// Linux build of the tool, and is not the C-library variant.
pub open spec fn asset_relevant(name: Seq<char>, digest: Option<Seq<char>>) -> bool {
    digest is Some && starts_with(name, "biome-linux-"@) && !ends_with(name, "-musl"@)
}

/// One selection step: fold an asset into the per-architecture hashes. A
/// later asset wins over an earlier one of the same architecture.
pub open spec fn select_step(
    name: Seq<char>,
    digest: Option<Seq<char>>,
    acc: (Option<Seq<char>>, Option<Seq<char>>),
) -> (Option<Seq<char>>, Option<Seq<char>>) {
    if asset_relevant(name, digest) {
        match sha256_of_digest(digest->0) {
            Some(h) => if arch_of_name_spec(name) is Arm64 {
                (acc.0, Some(h))
            } else {
                (Some(h), acc.1)
            },
            None => acc,
        }
    } else {
        acc
    }
}

/// Fold the selection over the assets, from the given accumulator.
pub open spec fn select_from(
    assets: Seq<Asset>,
    acc: (Option<Seq<char>>, Option<Seq<char>>),
) -> (Option<Seq<char>>, Option<Seq<char>>)
    decreases assets.len(),
{
    if assets.len() == 0 {
        acc
    } else {
        select_from(
            assets.drop_first(),
            select_step(assets[0].name@, assets[0].digest_view(), acc),
        )
    }
}

/// The per-architecture hashes selected from a release's assets: x86_64
/// first, aarch64 second.
pub open spec fn selected_checksums(assets: Seq<Asset>) -> (
    Option<Seq<char>>,
    Option<Seq<char>>,
) {
    select_from(assets, (None, None))
}

/// The view of an optional owned hash.
pub open spec fn opt_string_view(o: Option<String>) -> Option<Seq<char>> {
    match o {
        Some(s) => Some(s@),
        None => None,
    }
}

/// Select the x86_64 and aarch64 hashes from a release's assets.
pub fn select_checksums(assets: &Vec<Asset>) -> (r: (Option<String>, Option<String>))
    ensures
        opt_string_view(r.0) == selected_checksums(assets@).0,
        opt_string_view(r.1) == selected_checksums(assets@).1,
{
    let mut x64: Option<String> = None;
    let mut arm: Option<String> = None;
    let mut i: usize = 0;
    proof {
        assert(assets@.skip(0) =~= assets@);
    }
    while i < assets.len()
        invariant
            i <= assets@.len(),
            select_from(assets@.skip(i as int), (opt_string_view(x64), opt_string_view(arm)))
                == selected_checksums(assets@),
        decreases assets@.len() - i,
    {
        let ghost prev = (opt_string_view(x64), opt_string_view(arm));
        let a = &assets[i];
        proof {
            assert(assets@.skip(i as int)[0] == assets@[i as int]);
            assert(assets@.skip(i as int).drop_first() =~= assets@.skip(i + 1));
        }
        let relevant = match &a.digest {
            Some(_) => str_starts_with(a.name.as_str(), "biome-linux-") && !str_ends_with(
                a.name.as_str(),
                "-musl",
            ),
            None => false,
        };
        if relevant {
            let d = a.digest.as_ref().unwrap();
            match get_sha256(d.as_str()) {
                Some(h) => {
                    if str_ends_with(a.name.as_str(), "-arm64") {
                        arm = Some(h);
                    } else {
                        x64 = Some(h);
                    }
                },
                None => {},
            }
        }
        proof {
            assert((opt_string_view(x64), opt_string_view(arm)) == select_step(
                assets@[i as int].name@,
                assets@[i as int].digest_view(),
                prev,
            ));
        }
        i += 1;
    }
    proof {
        assert(assets@.skip(assets@.len() as int).len() == 0);
    }
    (x64, arm)
}

} // verus!
