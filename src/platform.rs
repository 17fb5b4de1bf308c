use vstd::prelude::*;
use crate::text::same_text;

verus! {

/// The texts that a vector of strings holds.
pub open spec fn texts(v: Seq<String>) -> Seq<Seq<char>> {
    v.map_values(|s: String| s@)
}

pub proof fn lemma_texts_push(v: Seq<String>, s: String)
    ensures
        texts(v.push(s)) == texts(v).push(s@),
{
    assert(texts(v.push(s)) =~= texts(v).push(s@));
}

/// What the host looks like to the asset selector and the locator.
pub struct PlatformProfile {
    /// Fragments of an asset name that mark the host's operating system.
    pub os_tokens: Vec<String>,
    /// Fragments of an asset name that mark the host's CPU architecture.
    pub arch_tokens: Vec<String>,
    /// Executables carry the `.exe` suffix on this host.
    pub windows: bool,
}

pub open spec fn os_token_list(os: Seq<char>) -> Seq<Seq<char>> {
    if os == "macos"@ {
        seq!["darwin"@, "macos"@, "osx"@, "mac"@, "apple-darwin"@]
    } else if os == "linux"@ {
        seq!["linux"@, "gnu"@, "unknown-linux"@]
    } else if os == "windows"@ {
        seq!["windows"@, "win"@, "mingw"@, "msvc"@]
    } else {
        seq![os]
    }
}

pub open spec fn arch_token_list(arch: Seq<char>) -> Seq<Seq<char>> {
    if arch == "x86_64"@ {
        seq!["x86_64"@, "amd64"@, "x64"@]
    } else if arch == "aarch64"@ {
        seq!["aarch64"@, "arm64"@]
    } else if arch == "arm"@ {
        seq!["armv7"@, "armv7l"@, "armv6"@, "arm"@]
    } else {
        seq![arch]
    }
}

fn push_text(v: &mut Vec<String>, s: &str)
    ensures
        texts(final(v)@) == texts(old(v)@).push(s@),
{
    let t = s.to_owned();
    proof {
        lemma_texts_push(v@, t);
    }
    v.push(t);
}

/// The name fragments that mark the operating system `os` (as `std::env::consts::OS`
/// spells it).
pub fn os_tokens(os: &str) -> (r: Vec<String>)
    ensures
        texts(r@) == os_token_list(os@),
{
    let mut v: Vec<String> = Vec::new();
    if same_text(os, "macos") {
        push_text(&mut v, "darwin");
        push_text(&mut v, "macos");
        push_text(&mut v, "osx");
        push_text(&mut v, "mac");
        push_text(&mut v, "apple-darwin");
    } else if same_text(os, "linux") {
        push_text(&mut v, "linux");
        push_text(&mut v, "gnu");
        push_text(&mut v, "unknown-linux");
    } else if same_text(os, "windows") {
        push_text(&mut v, "windows");
        push_text(&mut v, "win");
        push_text(&mut v, "mingw");
        push_text(&mut v, "msvc");
    } else {
        push_text(&mut v, os);
    }
    assert(texts(v@) =~= os_token_list(os@));
    v
}

/// The name fragments that mark the CPU architecture `arch` (as
/// `std::env::consts::ARCH` spells it).
pub fn arch_tokens(arch: &str) -> (r: Vec<String>)
    ensures
        texts(r@) == arch_token_list(arch@),
{
    let mut v: Vec<String> = Vec::new();
    if same_text(arch, "x86_64") {
        push_text(&mut v, "x86_64");
        push_text(&mut v, "amd64");
        push_text(&mut v, "x64");
    } else if same_text(arch, "aarch64") {
        push_text(&mut v, "aarch64");
        push_text(&mut v, "arm64");
    } else if same_text(arch, "arm") {
        push_text(&mut v, "armv7");
        push_text(&mut v, "armv7l");
        push_text(&mut v, "armv6");
        push_text(&mut v, "arm");
    } else {
        push_text(&mut v, arch);
    }
    assert(texts(v@) =~= arch_token_list(arch@));
    v
}

impl PlatformProfile {
    /// The profile of a host with operating system `os` and architecture `arch`.
    pub fn for_host(os: &str, arch: &str) -> (r: PlatformProfile)
        ensures
            texts(r.os_tokens@) == os_token_list(os@),
            texts(r.arch_tokens@) == arch_token_list(arch@),
            r.windows == (os@ == "windows"@),
    {
        PlatformProfile {
            os_tokens: os_tokens(os),
            arch_tokens: arch_tokens(arch),
            windows: same_text(os, "windows"),
        }
    }
}

} // verus!
