use vstd::prelude::*;
use vstd::string::StrSliceExecFns;
use crate::error::YoinkError;
use crate::locate::as_ints;
use crate::platform::{lemma_texts_push, texts};
use crate::select::{is_archive_name, is_archive_text, is_gzip_name, is_gzip_text};
use crate::text::{
    eq_ignore_ascii_case, eq_ignore_ascii_case_text, ends_with, ends_with_text, lower_of, same_text,
    to_lowercase,
};

verus! {

/// What a downloaded asset is, going by its name.
#[derive(Debug, Clone, Copy, PartialEq, Eq, Structural)]
pub enum PayloadKind {
    /// An archive to unpack.
    Archive,
    /// A single gzip-compressed file.
    Gzip,
    /// The executable itself.
    Raw,
}

/// The decoders that an archive can go through.
#[derive(Debug, Clone, Copy, PartialEq, Eq, Structural)]
pub enum ArchiveFormat {
    Zip,
    TarGz,
    TarXz,
    TarBz2,
}

pub open spec fn payload_kind_of(name: Seq<char>) -> PayloadKind {
    if is_archive_text(name) {
        PayloadKind::Archive
    } else if is_gzip_text(name) {
        PayloadKind::Gzip
    } else {
        PayloadKind::Raw
    }
}

/// The decoder for a lower-cased archive file name, if it has one.
pub open spec fn archive_format_of(lower: Seq<char>) -> Option<ArchiveFormat> {
    if ends_with_text(lower, ".zip"@) {
        Some(ArchiveFormat::Zip)
    } else if ends_with_text(lower, ".tar.gz"@) || ends_with_text(lower, ".tgz"@) {
        Some(ArchiveFormat::TarGz)
    } else if ends_with_text(lower, ".tar.xz"@) {
        Some(ArchiveFormat::TarXz)
    } else if ends_with_text(lower, ".tar.bz2"@) {
        Some(ArchiveFormat::TarBz2)
    } else {
        None
    }
}

/// The name with its `.gz` suffix, in any case, taken off once.
pub open spec fn strip_gz(s: Seq<char>) -> Seq<char> {
    if s.len() >= 3 && eq_ignore_ascii_case_text(s.subrange(s.len() - 3, s.len() as int), ".gz"@) {
        s.subrange(0, s.len() - 3)
    } else {
        s
    }
}

/// The names that a list of optional names holds, in order.
pub open spec fn present_names(s: Seq<Option<String>>) -> Seq<Seq<char>>
    decreases s.len(),
{
    if s.len() == 0 {
        Seq::empty()
    } else {
        match s.last() {
            Some(n) => present_names(s.drop_last()).push(n@),
            None => present_names(s.drop_last()),
        }
    }
}

/// The extra at `k` gets installed: it has a name, and neither the primary nor an
/// earlier extra has that name.
pub open spec fn is_fresh_extra(primary: Seq<char>, extras: Seq<Option<String>>, k: int) -> bool {
    match extras[k] {
        Some(n) => n@ != primary && !present_names(extras.take(k)).contains(n@),
        None => false,
    }
}

/// The positions among the first `n` extras that get installed, in order.
pub open spec fn fresh_extras(primary: Seq<char>, extras: Seq<Option<String>>, n: int) -> Seq<int>
    decreases n,
{
    if n <= 0 {
        Seq::empty()
    } else if is_fresh_extra(primary, extras, n - 1) {
        fresh_extras(primary, extras, n - 1).push(n - 1)
    } else {
        fresh_extras(primary, extras, n - 1)
    }
}

/// What to do with a downloaded asset called `asset_name`: unpack it, decompress
/// it, or take it as it is.
pub fn classify_asset(asset_name: &str) -> (r: PayloadKind)
    ensures
        r == payload_kind_of(asset_name@),
{
    if is_archive_name(asset_name) {
        PayloadKind::Archive
    } else if is_gzip_name(asset_name) {
        PayloadKind::Gzip
    } else {
        PayloadKind::Raw
    }
}

/// The decoder for an archive file, going by its name in any case.
pub fn archive_format(file_name: Option<&str>) -> (r: Result<ArchiveFormat, YoinkError>)
    ensures
        ({
            let lower = match file_name {
                Some(n) => lower_of(n@),
                None => Seq::empty(),
            };
            match r {
                Ok(f) => archive_format_of(lower) == Some(f),
                Err(e) => e == YoinkError::UnsupportedArchiveFormat && archive_format_of(lower)
                    is None,
            }
        }),
{
    let lower = match file_name {
        Some(n) => to_lowercase(n),
        None => String::new(),
    };
    archive_format_lowered(lower.as_str())
}

/// The decoder for an archive whose lower-cased file name is `lower`.
pub fn archive_format_lowered(lower: &str) -> (r: Result<ArchiveFormat, YoinkError>)
    ensures
        match r {
            Ok(f) => archive_format_of(lower@) == Some(f),
            Err(e) => e == YoinkError::UnsupportedArchiveFormat && archive_format_of(lower@)
                is None,
        },
{
    let l = lower;
    if ends_with(l, ".zip") {
        Ok(ArchiveFormat::Zip)
    } else if ends_with(l, ".tar.gz") || ends_with(l, ".tgz") {
        Ok(ArchiveFormat::TarGz)
    } else if ends_with(l, ".tar.xz") {
        Ok(ArchiveFormat::TarXz)
    } else if ends_with(l, ".tar.bz2") {
        Ok(ArchiveFormat::TarBz2)
    } else {
        Err(YoinkError::UnsupportedArchiveFormat)
    }
}

/// The name of the file that a single gzip-compressed download unpacks to: its
/// own name (or "download" where it has none) without its `.gz` suffix, which
/// may be in any case; `tool.gz.gz` gives `tool.gz`.
pub fn gzip_output_name(file_name: Option<&str>) -> (r: String)
    ensures
        r@ == strip_gz(
            match file_name {
                Some(n) => n@,
                None => "download"@,
            },
        ),
{
    let name: &str = match file_name {
        Some(n) => n,
        None => "download",
    };
    let n = name.unicode_len();
    if n >= 3 && eq_ignore_ascii_case(name.substring_char(n - 3, n), ".gz") {
        name.substring_char(0, n - 3).to_owned()
    } else {
        name.to_owned()
    }
}

/// Whether the file that a gzip download unpacked to is taken as the executable
/// at once: its name is exactly the project's.
pub fn gzip_fast_path(output_name: &str, repo_name: &str) -> (r: bool)
    ensures
        r == (output_name@ == repo_name@),
{
    same_text(output_name, repo_name)
}

fn holds_name(names: &Vec<String>, name: &str) -> (r: bool)
    ensures
        r == texts(names@).contains(name@),
{
    let n = names.len();
    let mut k: usize = 0;
    while k < n
        invariant
            n == names@.len(),
            k <= n,
            forall|j: int| 0 <= j < k ==> texts(names@)[j] != name@,
        decreases n - k,
    {
        if same_text(names[k].as_str(), name) {
            assert(texts(names@)[k as int] == name@);
            return true;
        }
        k += 1;
    }
    false
}

proof fn lemma_push_contains(s: Seq<Seq<char>>, a: Seq<char>)
    ensures
        forall|x: Seq<char>| #[trigger] s.push(a).contains(x) <==> (s.contains(x) || x == a),
{
    assert forall|x: Seq<char>| #[trigger] s.push(a).contains(x) <==> (s.contains(x) || x == a) by {
        if s.push(a).contains(x) && x != a {
            let i = choose|i: int| 0 <= i < s.len() + 1 && #[trigger] s.push(a)[i] == x;
            assert(s[i] == x);
        }
        if s.contains(x) {
            let i = choose|i: int| 0 <= i < s.len() && #[trigger] s[i] == x;
            assert(s.push(a)[i] == x);
        }
        if x == a {
            assert(s.push(a)[s.len() as int] == x);
        }
    }
}

/// Which companion executables to install into a directory that receives the
/// primary one under the name `primary`: each extra that has a file name not yet
/// taken, by position, in order.
pub fn plan_extra_installs(primary: &str, extras: &[Option<String>]) -> (r: Vec<usize>)
    ensures
        as_ints(r@) == fresh_extras(primary@, extras@, extras@.len() as int),
{
    let mut taken: Vec<String> = Vec::new();
    let first = primary.to_owned();
    proof {
        lemma_texts_push(taken@, first);
    }
    taken.push(first);
    proof {
        lemma_push_contains(Seq::empty(), primary@);
        assert(texts(taken@) == Seq::<Seq<char>>::empty().push(primary@));
    }
    let mut chosen: Vec<usize> = Vec::new();
    let n = extras.len();
    let mut k: usize = 0;
    assert(present_names(extras@.take(0)) =~= Seq::<Seq<char>>::empty());
    while k < n
        invariant
            n == extras@.len(),
            k <= n,
            forall|x: Seq<char>|
                texts(taken@).contains(x) <==> (x == primary@ || present_names(
                    extras@.take(k as int),
                ).contains(x)),
            as_ints(chosen@) == fresh_extras(primary@, extras@, k as int),
        decreases n - k,
    {
        let ghost before = present_names(extras@.take(k as int));
        assert(extras@.take(k as int + 1).drop_last() =~= extras@.take(k as int));
        assert(extras@.take(k as int + 1).last() == extras@[k as int]);
        match &extras[k] {
            Some(name) => {
                assert(present_names(extras@.take(k as int + 1)) == before.push(name@));
                let ghost old_taken = texts(taken@);
                proof {
                    lemma_push_contains(before, name@);
                    lemma_push_contains(old_taken, name@);
                }
                if !holds_name(&taken, name.as_str()) {
                    chosen.push(k);
                    let t = name.clone();
                    proof {
                        lemma_texts_push(taken@, t);
                    }
                    taken.push(t);
                }
            },
            None => {
                assert(present_names(extras@.take(k as int + 1)) == before);
            },
        }
        assert(as_ints(chosen@) =~= fresh_extras(primary@, extras@, k as int + 1));
        k += 1;
    }
    chosen
}

} // verus!
