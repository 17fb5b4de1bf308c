use vstd::prelude::*;
use crate::error::YoinkError;
use crate::platform::PlatformProfile;
use crate::repo::{is_repo_key, parse_repo, splits_repo_key};
use crate::select::{is_best_pick, pick_asset, Asset, Release};

verus! {

/// What a release query resolves to: the project, the release tag and the
/// asset chosen for the host.
pub struct ReleaseInfo {
    pub owner: String,
    pub name: String,
    pub tag: String,
    pub asset_name: String,
    pub asset_url: String,
}

/// The tag of a release, with "unknown" for a release without one.
pub open spec fn tag_text(tag: Option<String>) -> Seq<char> {
    match tag {
        Some(t) => t@,
        None => "unknown"@,
    }
}

/// `info` describes the release of `owner/name` and the asset at position `i`.
pub open spec fn describes(
    info: ReleaseInfo,
    owner: Seq<char>,
    name: Seq<char>,
    release: Release,
    platform: PlatformProfile,
) -> bool {
    &&& info.owner@ == owner
    &&& info.name@ == name
    &&& info.tag@ == tag_text(release.tag_name)
    &&& exists|i: int|
        is_best_pick(release.assets@, platform, i) && info.asset_name
            == release.assets@[i].name && info.asset_url == release.assets@[i].browser_download_url
}

/// Resolves the release of `owner/name`: its tag, and the asset for the host.
pub fn resolve_release_info(owner: &str, name: &str, release: &Release, platform: &PlatformProfile) -> (r:
    Result<ReleaseInfo, YoinkError>)
    ensures
        release.assets@.len() > 0 <==> r is Ok,
        match r {
            Ok(info) => describes(info, owner@, name@, *release, *platform),
            Err(e) => e == YoinkError::NoAssets,
        },
{
    let asset = pick_asset(release.assets.as_slice(), platform)?;
    let tag = match &release.tag_name {
        Some(t) => t.clone(),
        None => "unknown".to_owned(),
    };
    Ok(
        ReleaseInfo {
            owner: owner.to_owned(),
            name: name.to_owned(),
            tag,
            asset_name: asset.name,
            asset_url: asset.browser_download_url,
        },
    )
}

/// Resolves the release of the project `repo` (`owner/name`), as the release
/// query returned it.
pub fn release_info(repo: &str, release: &Release, platform: &PlatformProfile) -> (r: Result<
    ReleaseInfo,
    YoinkError,
>)
    ensures
        r is Ok <==> is_repo_key(repo@) && release.assets@.len() > 0,
        match r {
            Ok(info) => repo@ == info.owner@ + seq!['/'] + info.name@ && splits_repo_key(
                repo@,
                info.owner@.len() as int,
            ) && describes(info, info.owner@, info.name@, *release, *platform),
            Err(e) => if is_repo_key(repo@) {
                e == YoinkError::NoAssets
            } else {
                e == YoinkError::InvalidProjectKey
            },
        },
{
    let (owner, name) = parse_repo(repo)?;
    resolve_release_info(owner.as_str(), name.as_str(), release, platform)
}

} // verus!
