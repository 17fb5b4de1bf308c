use vstd::prelude::*;
use crate::error::YoinkError;
use crate::platform::{texts, PlatformProfile};
use crate::text::{contains, contains_text, ends_with, ends_with_text, lower_of, to_lowercase};

verus! {

/// A downloadable file attached to a release.
pub struct Asset {
    pub name: String,
    pub browser_download_url: String,
}

/// The latest release of a project, as the release query describes it.
pub struct Release {
    pub tag_name: Option<String>,
    pub assets: Vec<Asset>,
}

/// Some token of `tokens` occurs in `h`.
pub open spec fn contains_any_text(h: Seq<char>, tokens: Seq<Seq<char>>) -> bool {
    exists|k: int| 0 <= k < tokens.len() && contains_text(h, #[trigger] tokens[k])
}

/// A lower-cased name with the suffix of a recognised archive.
pub open spec fn has_archive_suffix(lower: Seq<char>) -> bool {
    ends_with_text(lower, ".zip"@) || ends_with_text(lower, ".tar.gz"@) || ends_with_text(
        lower,
        ".tgz"@,
    ) || ends_with_text(lower, ".tar.xz"@) || ends_with_text(lower, ".tar.bz2"@)
}

pub open spec fn is_archive_text(name: Seq<char>) -> bool {
    has_archive_suffix(lower_of(name))
}

/// A single gzip-compressed file, not a gzip-compressed tar archive.
pub open spec fn is_gzip_text(name: Seq<char>) -> bool {
    ends_with_text(lower_of(name), ".gz"@) && !ends_with_text(lower_of(name), ".tar.gz"@)
}

/// A name that marks a checksum, a signature or a bill of materials.
pub open spec fn is_ignored_text(name: Seq<char>) -> bool {
    is_noise_text(lower_of(name))
}

/// A lower-cased name that marks a checksum, a signature or a bill of materials.
pub open spec fn is_noise_text(l: Seq<char>) -> bool {
    ends_with_text(l, ".sha256"@) || ends_with_text(l, ".sha256sum"@) || ends_with_text(
        l,
        ".sha512"@,
    ) || ends_with_text(l, ".sig"@) || ends_with_text(l, ".asc"@) || ends_with_text(l, ".md5"@)
        || contains_text(l, "checksum"@) || contains_text(l, "checksums"@) || contains_text(
        l,
        "sbom"@,
    )
}

/// The score of an asset name against the host's tokens.
pub open spec fn score_text(name: Seq<char>, os: Seq<Seq<char>>, arch: Seq<Seq<char>>) -> int {
    lowered_score(lower_of(name), os, arch)
}

/// The score of a lower-cased asset name against the host's tokens.
pub open spec fn lowered_score(l: Seq<char>, os: Seq<Seq<char>>, arch: Seq<Seq<char>>) -> int {
    (if contains_any_text(l, os) {
        2int
    } else {
        0int
    }) + (if contains_any_text(l, arch) {
        2int
    } else {
        0int
    }) + (if has_archive_suffix(l) {
        1int
    } else {
        0int
    }) + (if ends_with_text(l, ".exe"@) {
        1int
    } else {
        0int
    })
}

/// Every asset of the list looks like a checksum or a signature.
pub open spec fn all_ignored(assets: Seq<Asset>) -> bool {
    forall|i: int| 0 <= i < assets.len() ==> is_ignored_text(#[trigger] assets[i].name@)
}

/// The asset at `i` takes part in the ranking: it is not noise, or everything is.
pub open spec fn is_candidate(assets: Seq<Asset>, i: int) -> bool {
    0 <= i < assets.len() && (!is_ignored_text(assets[i].name@) || all_ignored(assets))
}

pub open spec fn rank_of(assets: Seq<Asset>, platform: PlatformProfile, i: int) -> int {
    score_text(assets[i].name@, texts(platform.os_tokens@), texts(platform.arch_tokens@))
}

/// The asset at `i` is the first candidate with the highest score.
pub open spec fn is_best_pick(assets: Seq<Asset>, platform: PlatformProfile, i: int) -> bool {
    &&& is_candidate(assets, i)
    &&& forall|j: int|
        is_candidate(assets, j) ==> #[trigger] rank_of(assets, platform, j) <= rank_of(
            assets,
            platform,
            i,
        )
    &&& forall|j: int|
        is_candidate(assets, j) && j < i ==> #[trigger] rank_of(assets, platform, j) < rank_of(
            assets,
            platform,
            i,
        )
}

/// Whether some token occurs in `haystack`.
pub fn contains_any(haystack: &str, tokens: &[String]) -> (r: bool)
    ensures
        r == contains_any_text(haystack@, texts(tokens@)),
{
    let n = tokens.len();
    let mut k: usize = 0;
    while k < n
        invariant
            n == tokens@.len(),
            k <= n,
            forall|j: int| 0 <= j < k ==> !contains_text(haystack@, #[trigger] texts(tokens@)[j]),
        decreases n - k,
    {
        if contains(haystack, tokens[k].as_str()) {
            assert(contains_text(haystack@, texts(tokens@)[k as int]));
            return true;
        }
        k += 1;
    }
    false
}

/// Whether a lower-cased name ends in the suffix of a recognised archive.
pub fn ends_in_archive_suffix(lower: &str) -> (r: bool)
    ensures
        r == has_archive_suffix(lower@),
{
    ends_with(lower, ".zip") || ends_with(lower, ".tar.gz") || ends_with(lower, ".tgz")
        || ends_with(lower, ".tar.xz") || ends_with(lower, ".tar.bz2")
}

/// Whether the name, in any case, ends in the suffix of a recognised archive.
pub fn is_archive_name(name: &str) -> (r: bool)
    ensures
        r == is_archive_text(name@),
{
    let lower = to_lowercase(name);
    ends_in_archive_suffix(lower.as_str())
}

/// Whether a lower-cased name ends in `.gz` but not in `.tar.gz`.
pub fn is_gzip_lowered(lower: &str) -> (r: bool)
    ensures
        r == (ends_with_text(lower@, ".gz"@) && !ends_with_text(lower@, ".tar.gz"@)),
{
    ends_with(lower, ".gz") && !ends_with(lower, ".tar.gz")
}

/// Whether the name, in any case, ends in `.gz` but not in `.tar.gz`.
pub fn is_gzip_name(name: &str) -> (r: bool)
    ensures
        r == is_gzip_text(name@),
{
    let lower = to_lowercase(name);
    is_gzip_lowered(lower.as_str())
}

/// Whether the name marks a checksum, signature or bill-of-materials file.
pub fn is_ignored_asset(name: &str) -> (r: bool)
    ensures
        r == is_ignored_text(name@),
{
    let lower = to_lowercase(name);
    is_noise_lowered(lower.as_str())
}

/// Whether a lower-cased name marks a checksum, signature or bill-of-materials
/// file.
pub fn is_noise_lowered(l: &str) -> (r: bool)
    ensures
        r == is_noise_text(l@),
{
    ends_with(l, ".sha256") || ends_with(l, ".sha256sum") || ends_with(l, ".sha512") || ends_with(
        l,
        ".sig",
    ) || ends_with(l, ".asc") || ends_with(l, ".md5") || contains(l, "checksum") || contains(
        l,
        "checksums",
    ) || contains(l, "sbom")
}

/// The score of an asset name: 2 for an OS token, 2 for an architecture token,
/// 1 for an archive suffix and 1 for `.exe`.
pub fn asset_score(name: &str, os_tokens: &[String], arch_tokens: &[String]) -> (r: i32)
    ensures
        r == score_text(name@, texts(os_tokens@), texts(arch_tokens@)),
        0 <= r <= 6,
{
    let lower = to_lowercase(name);
    score_lowered(lower.as_str(), os_tokens, arch_tokens)
}

/// The score of a lower-cased asset name, as `asset_score` counts it.
pub fn score_lowered(l: &str, os_tokens: &[String], arch_tokens: &[String]) -> (r: i32)
    ensures
        r == lowered_score(l@, texts(os_tokens@), texts(arch_tokens@)),
        0 <= r <= 6,
{
    let mut score: i32 = 0;
    if contains_any(l, os_tokens) {
        score += 2;
    }
    if contains_any(l, arch_tokens) {
        score += 2;
    }
    if ends_in_archive_suffix(l) {
        score += 1;
    }
    if ends_with(l, ".exe") {
        score += 1;
    }
    score
}

/// Every entry of a ranking is marked as noise.
pub open spec fn all_noise(ranked: Seq<(bool, i32)>) -> bool {
    forall|i: int| 0 <= i < ranked.len() ==> (#[trigger] ranked[i]).0
}

/// Entry `i` of a ranking takes part: it is not noise, or everything is.
pub open spec fn ranked_candidate(ranked: Seq<(bool, i32)>, i: int) -> bool {
    0 <= i < ranked.len() && (!ranked[i].0 || all_noise(ranked))
}

/// Entry `i` is the first candidate with the highest score.
pub open spec fn is_first_best(ranked: Seq<(bool, i32)>, i: int) -> bool {
    &&& ranked_candidate(ranked, i)
    &&& forall|j: int| ranked_candidate(ranked, j) ==> (#[trigger] ranked[j]).1 <= ranked[i].1
    &&& forall|j: int| ranked_candidate(ranked, j) && j < i ==> (#[trigger] ranked[j]).1 < ranked[i].1
}

/// Picks from a ranking, given for each asset in order whether it is noise and
/// its score: noise is left out unless everything is noise, and the first of the
/// highest scores wins.
pub fn pick_ranked(ranked: &[(bool, i32)]) -> (r: Result<usize, YoinkError>)
    ensures
        ranked@.len() > 0 <==> r is Ok,
        match r {
            Ok(i) => is_first_best(ranked@, i as int),
            Err(e) => e == YoinkError::NoAssets,
        },
{
    let n = ranked.len();
    if n == 0 {
        return Err(YoinkError::NoAssets);
    }
    let mut any_kept = false;
    let mut i: usize = 0;
    while i < n
        invariant
            n == ranked@.len(),
            i <= n,
            any_kept == exists|j: int| 0 <= j < i && !(#[trigger] ranked@[j]).0,
        decreases n - i,
    {
        if !ranked[i].0 {
            any_kept = true;
        }
        i += 1;
    }
    assert(any_kept == !all_noise(ranked@));
    let mut best: Option<(usize, i32)> = None;
    let mut i: usize = 0;
    while i < n
        invariant
            n == ranked@.len(),
            i <= n,
            any_kept == !all_noise(ranked@),
            match best {
                None => forall|j: int| 0 <= j < i ==> !ranked_candidate(ranked@, j),
                Some((b, s)) => {
                    &&& b < i
                    &&& ranked_candidate(ranked@, b as int)
                    &&& s == ranked@[b as int].1
                    &&& forall|j: int|
                        0 <= j < i && ranked_candidate(ranked@, j) ==> (#[trigger] ranked@[j]).1 <= s
                    &&& forall|j: int|
                        0 <= j < b && ranked_candidate(ranked@, j) ==> (#[trigger] ranked@[j]).1 < s
                },
            },
        decreases n - i,
    {
        let (noise, score) = ranked[i];
        if !noise || !any_kept {
            let better = match best {
                None => true,
                Some((_, s)) => score > s,
            };
            if better {
                best = Some((i, score));
            }
        }
        i += 1;
    }
    match best {
        Some((b, _)) => Ok(b),
        None => {
            proof {
                if all_noise(ranked@) {
                    assert(ranked_candidate(ranked@, 0));
                } else {
                    let j = choose|j: int| 0 <= j < ranked@.len() && !(#[trigger] ranked@[j]).0;
                    assert(ranked_candidate(ranked@, j));
                }
            }
            Err(YoinkError::NoSuitableAsset)
        },
    }
}

/// Picks the asset meant for the host: noise (checksums, signatures) is left out
/// unless nothing else is there, and the first of the highest-scoring assets wins.
pub fn pick_asset(assets: &[Asset], platform: &PlatformProfile) -> (r: Result<Asset, YoinkError>)
    ensures
        assets@.len() > 0 <==> r is Ok,
        match r {
            Ok(a) => exists|i: int| is_best_pick(assets@, *platform, i) && a == assets@[i],
            Err(e) => e == YoinkError::NoAssets,
        },
{
    let n = assets.len();
    let mut ranked: Vec<(bool, i32)> = Vec::new();
    let mut i: usize = 0;
    while i < n
        invariant
            n == assets@.len(),
            i <= n,
            ranked@.len() == i,
            forall|j: int|
                0 <= j < i ==> (#[trigger] ranked@[j]).0 == is_ignored_text(assets@[j].name@)
                    && ranked@[j].1 as int == rank_of(assets@, *platform, j),
        decreases n - i,
    {
        let noise = is_ignored_asset(assets[i].name.as_str());
        let score = asset_score(
            assets[i].name.as_str(),
            platform.os_tokens.as_slice(),
            platform.arch_tokens.as_slice(),
        );
        ranked.push((noise, score));
        i += 1;
    }
    let b = pick_ranked(ranked.as_slice())?;
    proof {
        let rk = ranked@;
        assert(all_noise(rk) == all_ignored(assets@)) by {
            if !all_ignored(assets@) {
                let j = choose|j: int| 0 <= j < n && !is_ignored_text(#[trigger] assets@[j].name@);
                assert(!rk[j].0);
            }
            if !all_noise(rk) {
                let j = choose|j: int| 0 <= j < n && !(#[trigger] rk[j]).0;
                assert(!is_ignored_text(assets@[j].name@));
            }
        }
        assert forall|j: int| #[trigger] is_candidate(assets@, j) == ranked_candidate(rk, j) by {
            if 0 <= j < n {
                assert(rk[j].0 == is_ignored_text(assets@[j].name@));
            }
        }
        assert forall|j: int| is_candidate(assets@, j) implies #[trigger] rank_of(assets@, *platform, j)
            <= rank_of(assets@, *platform, b as int) by {
            assert(ranked_candidate(rk, j));
            assert(rk[j].1 <= rk[b as int].1);
        }
        assert forall|j: int| is_candidate(assets@, j) && j < b implies #[trigger] rank_of(
            assets@,
            *platform,
            j,
        ) < rank_of(assets@, *platform, b as int) by {
            assert(ranked_candidate(rk, j));
            assert(rk[j].1 < rk[b as int].1);
        }
        assert(is_best_pick(assets@, *platform, b as int));
    }
    Ok(
        Asset {
            name: assets[b].name.clone(),
            browser_download_url: assets[b].browser_download_url.clone(),
        },
    )
}

/// The name carries a token of the host's OS and one of its architecture.
pub open spec fn names_platform(name: Seq<char>, platform: PlatformProfile) -> bool {
    contains_any_text(lower_of(name), texts(platform.os_tokens@)) && contains_any_text(
        lower_of(name),
        texts(platform.arch_tokens@),
    )
}

/// A name cannot end both in `.exe` and in an archive suffix.
proof fn lemma_exe_is_no_archive(l: Seq<char>)
    ensures
        !(ends_with_text(l, ".exe"@) && has_archive_suffix(l)),
{
    reveal_strlit(".exe");
    reveal_strlit(".zip");
    reveal_strlit(".tar.gz");
    reveal_strlit(".tgz");
    reveal_strlit(".tar.xz");
    reveal_strlit(".tar.bz2");
    let n = l.len() as int;
    if ends_with_text(l, ".exe"@) {
        assert(l[n - 1] == 'e') by {
            assert(l.subrange(n - 4, n)[3] == ".exe"@[3]);
        }
        if ends_with_text(l, ".zip"@) {
            assert(l.subrange(n - 4, n)[3] == ".zip"@[3]);
        }
        if ends_with_text(l, ".tar.gz"@) {
            assert(l.subrange(n - 7, n)[6] == ".tar.gz"@[6]);
        }
        if ends_with_text(l, ".tgz"@) {
            assert(l.subrange(n - 4, n)[3] == ".tgz"@[3]);
        }
        if ends_with_text(l, ".tar.xz"@) {
            assert(l.subrange(n - 7, n)[6] == ".tar.xz"@[6]);
        }
        if ends_with_text(l, ".tar.bz2"@) {
            assert(l.subrange(n - 8, n)[7] == ".tar.bz2"@[7]);
        }
    }
}

/// When some candidate names both the host's OS and its architecture, the picked
/// asset names both as well; and it is the first of the highest-scoring ones.
pub proof fn lemma_platform_match_wins(
    assets: Seq<Asset>,
    platform: PlatformProfile,
    i: int,
    k: int,
)
    requires
        is_candidate(assets, i),
        names_platform(assets[i].name@, platform),
        is_best_pick(assets, platform, k),
    ensures
        names_platform(assets[k].name@, platform),
        forall|j: int|
            is_candidate(assets, j) && j < k ==> #[trigger] rank_of(assets, platform, j) < rank_of(
                assets,
                platform,
                k,
            ),
{
    lemma_exe_is_no_archive(lower_of(assets[k].name@));
    assert(rank_of(assets, platform, i) <= rank_of(assets, platform, k));
}

/// At most one asset is the best pick: the selection is deterministic.
pub proof fn lemma_best_pick_unique(assets: Seq<Asset>, platform: PlatformProfile, i: int, k: int)
    requires
        is_best_pick(assets, platform, i),
        is_best_pick(assets, platform, k),
    ensures
        i == k,
{
    if i < k {
        assert(rank_of(assets, platform, i) < rank_of(assets, platform, k));
        assert(rank_of(assets, platform, k) <= rank_of(assets, platform, i));
    } else if k < i {
        assert(rank_of(assets, platform, k) < rank_of(assets, platform, i));
        assert(rank_of(assets, platform, i) <= rank_of(assets, platform, k));
    }
}

} // verus!
