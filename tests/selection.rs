use yoink::{
    arch_tokens, asset_score, classify_asset, is_archive_name, is_gzip_name, is_ignored_asset,
    os_tokens, pick_asset, release_info, Asset, PayloadKind, PlatformProfile, Release, YoinkError,
};

const HOST_OS: &str = "linux";
const HOST_ARCH: &str = "x86_64";

fn host() -> PlatformProfile {
    PlatformProfile::for_host(HOST_OS, HOST_ARCH)
}

fn asset(name: &str, url: &str) -> Asset {
    Asset {
        name: name.to_string(),
        browser_download_url: url.to_string(),
    }
}

fn names(assets: &[&str]) -> Vec<Asset> {
    assets
        .iter()
        .map(|n| asset(n, &format!("http://example.com/{n}")))
        .collect()
}

#[test]
fn token_helpers_include_expected_tokens() {
    for host_os in ["macos", "linux", "windows", "freebsd"] {
        let os = os_tokens(host_os);
        match host_os {
            "macos" => assert!(os.contains(&"macos".to_string())),
            "linux" => assert!(os.contains(&"linux".to_string())),
            "windows" => assert!(os.contains(&"windows".to_string())),
            other => assert!(os.contains(&other.to_string())),
        }
    }

    for host_arch in ["x86_64", "aarch64", "arm", "riscv64"] {
        let arch = arch_tokens(host_arch);
        match host_arch {
            "x86_64" => assert!(arch.contains(&"x86_64".to_string())),
            "aarch64" => assert!(arch.contains(&"aarch64".to_string())),
            "arm" => assert!(arch.contains(&"arm".to_string())),
            other => assert!(arch.contains(&other.to_string())),
        }
    }
}

#[test]
fn token_lists_are_exact() {
    assert_eq!(
        os_tokens("macos"),
        vec!["darwin", "macos", "osx", "mac", "apple-darwin"]
    );
    assert_eq!(os_tokens("linux"), vec!["linux", "gnu", "unknown-linux"]);
    assert_eq!(os_tokens("windows"), vec!["windows", "win", "mingw", "msvc"]);
    assert_eq!(os_tokens("freebsd"), vec!["freebsd"]);
    assert_eq!(arch_tokens("x86_64"), vec!["x86_64", "amd64", "x64"]);
    assert_eq!(arch_tokens("aarch64"), vec!["aarch64", "arm64"]);
    assert_eq!(arch_tokens("arm"), vec!["armv7", "armv7l", "armv6", "arm"]);
    assert_eq!(arch_tokens("riscv64"), vec!["riscv64"]);
    assert!(PlatformProfile::for_host("windows", "x86_64").windows);
    assert!(!PlatformProfile::for_host("linux", "x86_64").windows);
}

#[test]
fn asset_helpers_prefer_best_match() {
    let platform = host();
    let os = os_tokens(HOST_OS);
    let arch = arch_tokens(HOST_ARCH);
    let best_name = format!("tool-{}-{}.tar.gz", os[0], arch[0]);
    let assets = vec![
        asset("tool.sig", "http://example.com/tool.sig"),
        asset(&format!("tool-{}", os[0]), "http://example.com/tool-os"),
        asset(&best_name, "http://example.com/tool-best"),
    ];
    let picked = pick_asset(&assets, &platform).expect("pick asset");
    assert_eq!(picked.name, best_name);
    assert!(is_ignored_asset("foo.sha256"));
    assert!(is_archive_name("foo.tar.gz"));
    assert!(is_gzip_name("foo.gz"));
    assert!(!is_gzip_name("foo.tar.gz"));
}

#[test]
fn pick_asset_errors_on_empty_assets() {
    assert!(pick_asset(&[], &host()).is_err());
}

#[test]
fn pick_asset_falls_back_to_ignored_assets() {
    let assets = vec![
        asset("tool.sha256", "http://example.com/tool.sha256"),
        asset("tool.sig", "http://example.com/tool.sig"),
    ];
    let picked = pick_asset(&assets, &host()).expect("pick asset");
    assert!(picked.name.ends_with(".sha256") || picked.name.ends_with(".sig"));
}

#[test]
fn asset_score_counts_exe() {
    assert_eq!(asset_score("tool.exe", &[], &[]), 1);
}

#[test]
fn empty_asset_list_fails_with_no_assets() {
    assert_eq!(
        pick_asset(&[], &host()).err(),
        Some(YoinkError::NoAssets)
    );
}

#[test]
fn noise_only_list_returns_first_of_them() {
    let platform = PlatformProfile::for_host("linux", "x86_64");
    let assets = names(&["checksums.txt", "tool.sig", "SBOM.json"]);
    let picked = pick_asset(&assets, &platform).expect("pick asset");
    assert_eq!(picked.name, "checksums.txt");
    assert_eq!(picked.browser_download_url, "http://example.com/checksums.txt");
}

#[test]
fn linux_x86_64_release_selects_tarball_over_checksum() {
    let platform = PlatformProfile::for_host("linux", "x86_64");
    let assets = names(&["tool-linux-x86_64.tar.gz", "tool-linux-x86_64.tar.gz.sha256"]);
    let picked = pick_asset(&assets, &platform).expect("pick asset");
    assert_eq!(picked.name, "tool-linux-x86_64.tar.gz");
    assert_eq!(
        asset_score(
            "tool-linux-x86_64.tar.gz",
            &platform.os_tokens,
            &platform.arch_tokens
        ),
        5
    );
}

#[test]
fn platform_match_beats_partial_matches() {
    let platform = PlatformProfile::for_host("macos", "aarch64");
    let assets = names(&[
        "tool-darwin.zip",
        "tool-arm64.tar.gz",
        "tool-apple-darwin-arm64",
        "tool-linux-amd64.tar.gz",
    ]);
    let picked = pick_asset(&assets, &platform).expect("pick asset");
    assert_eq!(picked.name, "tool-apple-darwin-arm64");
}

#[test]
fn ties_go_to_the_first_asset() {
    let platform = PlatformProfile::for_host("linux", "x86_64");
    let assets = names(&["a-linux-amd64.zip", "b-linux-x86_64.tgz", "c-gnu-x64.tar.xz"]);
    let picked = pick_asset(&assets, &platform).expect("pick asset");
    assert_eq!(picked.name, "a-linux-amd64.zip");
}

#[test]
fn asset_score_formula() {
    let os = vec!["linux".to_string()];
    let arch = vec!["x86_64".to_string()];
    assert_eq!(asset_score("tool", &os, &arch), 0);
    assert_eq!(asset_score("tool-linux", &os, &arch), 2);
    assert_eq!(asset_score("tool-x86_64", &os, &arch), 2);
    assert_eq!(asset_score("TOOL-LINUX-X86_64.ZIP", &os, &arch), 5);
    assert_eq!(asset_score("tool-linux-x86_64.exe", &os, &arch), 5);
    assert_eq!(asset_score("tool.tar.bz2", &os, &arch), 1);
}

#[test]
fn noise_names_are_recognised_in_any_case() {
    assert!(is_ignored_asset("TOOL.SHA256"));
    assert!(is_ignored_asset("tool.sha256sum"));
    assert!(is_ignored_asset("tool.SHA512"));
    assert!(is_ignored_asset("tool.asc"));
    assert!(is_ignored_asset("tool.md5"));
    assert!(is_ignored_asset("Checksums.txt"));
    assert!(is_ignored_asset("tool.sbom.json"));
    assert!(!is_ignored_asset("tool-linux.tar.gz"));
}

#[test]
fn archive_and_gzip_names() {
    assert!(is_archive_name("TOOL.ZIP"));
    assert!(is_archive_name("tool.tgz"));
    assert!(is_archive_name("tool.tar.xz"));
    assert!(is_archive_name("tool.tar.bz2"));
    assert!(!is_archive_name("tool.gz"));
    assert!(is_gzip_name("TOOL.GZ"));
    assert_eq!(classify_asset("tool.tar.gz"), PayloadKind::Archive);
    assert_eq!(classify_asset("tool.gz"), PayloadKind::Gzip);
    assert_eq!(classify_asset("tool"), PayloadKind::Raw);
    assert_eq!(classify_asset("tool.rar"), PayloadKind::Raw);
}

#[test]
fn release_info_resolves_tag_and_asset() {
    let release = Release {
        tag_name: Some("v1.0.0".to_string()),
        assets: names(&["tool"]),
    };
    let info = release_info("mxcl/tool", &release, &host()).expect("release info");
    assert_eq!(info.owner, "mxcl");
    assert_eq!(info.name, "tool");
    assert_eq!(info.tag, "v1.0.0");
    assert_eq!(info.asset_name, "tool");
    assert_eq!(info.asset_url, "http://example.com/tool");
}

#[test]
fn release_info_defaults_tag_and_reports_errors() {
    let release = Release {
        tag_name: None,
        assets: names(&["tool"]),
    };
    let info = release_info("mxcl/tool", &release, &host()).expect("release info");
    assert_eq!(info.tag, "unknown");
    assert_eq!(
        release_info("mxcl", &release, &host()).err(),
        Some(YoinkError::InvalidProjectKey)
    );
    let empty = Release {
        tag_name: None,
        assets: Vec::new(),
    };
    assert_eq!(
        release_info("mxcl/tool", &empty, &host()).err(),
        Some(YoinkError::NoAssets)
    );
}

#[test]
fn lowered_helpers_expect_lower_case_text() {
    assert!(!yoink::is_noise_lowered("TOOL.SHA256"));
    assert!(yoink::is_noise_lowered("tool.sha256"));
    assert!(is_ignored_asset("TOOL.SHA256"));
    assert!(!yoink::ends_in_archive_suffix("TOOL.ZIP"));
    assert!(yoink::ends_in_archive_suffix("tool.zip"));
    assert!(!yoink::is_gzip_lowered("tool.tar.gz"));
    assert!(yoink::is_gzip_lowered("tool.gz"));
    let os = vec!["linux".to_string()];
    let arch = vec!["x86_64".to_string()];
    assert_eq!(yoink::score_lowered("TOOL-LINUX-X86_64.ZIP", &os, &arch), 0);
    assert_eq!(yoink::score_lowered("tool-linux-x86_64.zip", &os, &arch), 5);
}

#[test]
fn pick_ranked_prefers_first_best_candidate() {
    assert_eq!(yoink::pick_ranked(&[]), Err(YoinkError::NoAssets));
    assert_eq!(yoink::pick_ranked(&[(true, 6), (false, 3), (false, 5), (false, 5)]), Ok(2));
    assert_eq!(yoink::pick_ranked(&[(true, 1), (true, 4), (true, 4)]), Ok(1));
}
