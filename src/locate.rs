use vstd::prelude::*;
use vstd::string::StrSliceExecFns;
use vstd::utf8::encode_utf8;
use crate::error::YoinkError;
use crate::platform::{lemma_texts_push, texts, PlatformProfile};
use crate::text::{
    eq_ignore_ascii_case, eq_ignore_ascii_case_text, lower_of, same_text, starts_with,
    starts_with_text, to_lowercase,
};

verus! {

/// A regular file met while walking an unpacked tree.
pub struct FoundFile {
    /// The whole path, as text.
    pub path: String,
    /// The last component, where the path has one that is valid text.
    pub name: Option<String>,
    /// Every component of the path, first to last, as text.
    pub components: Vec<String>,
}

/// Which of the walked files were chosen, by position in the walk.
pub struct Located {
    /// The executable to install.
    pub primary: usize,
    /// Companion executables, shortest path first.
    pub extras: Vec<usize>,
}

pub open spec fn as_ints(v: Seq<usize>) -> Seq<int> {
    v.map_values(|x: usize| x as int)
}

/// Every position of `s` names a file among the first `n`.
pub open spec fn within(s: Seq<int>, n: int) -> bool {
    forall|k: int| 0 <= k < s.len() ==> 0 <= #[trigger] s[k] < n
}

pub open spec fn increasing(s: Seq<int>) -> bool {
    forall|a: int, b: int| 0 <= a < b < s.len() ==> s[a] < s[b]
}

/// The file's lower-cased name, or the empty text where it has none.
pub open spec fn name_key(f: FoundFile) -> Seq<char> {
    match f.name {
        Some(n) => lower_of(n@),
        None => Seq::empty(),
    }
}

/// The length of the path in bytes of UTF-8, as `str::len` gives it.
pub open spec fn path_len(f: FoundFile) -> usize {
    encode_utf8(f.path@).len() as usize
}

/// Some component of the path equals `needle` up to ASCII case.
pub open spec fn has_component(f: FoundFile, needle: Seq<char>) -> bool {
    exists|k: int|
        0 <= k < f.components@.len() && eq_ignore_ascii_case_text(
            #[trigger] f.components@[k]@,
            needle,
        )
}

/// The position of the last `.` among the first `n` characters, or -1.
pub open spec fn last_dot(name: Seq<char>, n: int) -> int
    decreases n,
{
    if n <= 0 {
        -1
    } else if name[n - 1] == '.' {
        n - 1
    } else {
        last_dot(name, n - 1)
    }
}

/// The extension of a file name that does not start with `.`: what follows its
/// last `.`, if it has one.
pub open spec fn extension_text(name: Seq<char>) -> Option<Seq<char>> {
    let d = last_dot(name, name.len() as int);
    if d < 0 {
        None
    } else {
        Some(name.subrange(d + 1, name.len() as int))
    }
}

pub open spec fn is_doc_extension(e: Seq<char>) -> bool {
    e == "md"@ || e == "txt"@ || e == "rst"@ || e == "json"@ || e == "yaml"@ || e == "yml"@ || e
        == "toml"@ || e == "ini"@ || e == "cfg"@ || e == "conf"@ || e == "1"@ || e == "2"@ || e
        == "3"@ || e == "4"@ || e == "5"@ || e == "6"@ || e == "7"@ || e == "8"@ || e == "9"@
        || e == "asc"@ || e == "sig"@ || e == "sha256"@ || e == "sha512"@ || e == "md5"@
}

/// A lower-cased name that marks documentation or hidden files.
pub open spec fn is_doc_name(lname: Seq<char>) -> bool {
    starts_with_text(lname, "."@) || starts_with_text(lname, "readme"@) || starts_with_text(
        lname,
        "license"@,
    ) || starts_with_text(lname, "changelog"@) || starts_with_text(lname, "notice"@)
        || starts_with_text(lname, "copying"@)
}

/// A path that runs through a documentation or completion directory.
pub open spec fn in_doc_dir(f: FoundFile) -> bool {
    has_component(f, "share"@) || has_component(f, "doc"@) || has_component(f, "docs"@)
        || has_component(f, "man"@) || has_component(f, "completions"@) || has_component(
        f,
        "completion"@,
    )
}

pub open spec fn has_doc_extension(lname: Seq<char>) -> bool {
    match extension_text(lname) {
        Some(e) => is_doc_extension(lower_of(e)),
        None => false,
    }
}

/// A file that survives the documentation and metadata filter.
pub open spec fn is_probable_binary(f: FoundFile) -> bool {
    match f.name {
        None => false,
        Some(n) => !is_doc_name(lower_of(n@)) && !in_doc_dir(f) && !has_doc_extension(
            lower_of(n@),
        ),
    }
}

/// The executable's file name for a project on a host.
pub open spec fn binary_name_text(repo_name: Seq<char>, windows: bool) -> Seq<char> {
    if windows {
        repo_name + ".exe"@
    } else {
        repo_name
    }
}

/// A lower-cased file name that is the expected one.
pub open spec fn is_exact_key(key: Seq<char>, target: Seq<char>, fallback: Seq<char>) -> bool {
    key == target || key == fallback
}

/// Positions among the first `n` lower-cased names that are the expected one.
pub open spec fn exact_positions(
    keys: Seq<Seq<char>>,
    target: Seq<char>,
    fallback: Seq<char>,
    n: int,
) -> Seq<int>
    decreases n,
{
    if n <= 0 {
        Seq::empty()
    } else if is_exact_key(keys[n - 1], target, fallback) {
        exact_positions(keys, target, fallback, n - 1).push(n - 1)
    } else {
        exact_positions(keys, target, fallback, n - 1)
    }
}

/// Positions among the first `n` flags that are set.
pub open spec fn flagged_positions(flags: Seq<bool>, n: int) -> Seq<int>
    decreases n,
{
    if n <= 0 {
        Seq::empty()
    } else if flags[n - 1] {
        flagged_positions(flags, n - 1).push(n - 1)
    } else {
        flagged_positions(flags, n - 1)
    }
}

/// The lower-cased name of each file.
pub open spec fn name_keys(files: Seq<FoundFile>) -> Seq<Seq<char>> {
    Seq::new(files.len(), |i: int| name_key(files[i]))
}

/// Whether each file passes the probable-binary filter.
pub open spec fn probable_flags(files: Seq<FoundFile>) -> Seq<bool> {
    Seq::new(files.len(), |i: int| is_probable_binary(files[i]))
}

/// The positions of `s` whose file has a `bin` component, in order.
pub open spec fn bin_positions(files: Seq<FoundFile>, s: Seq<int>) -> Seq<int>
    decreases s.len(),
{
    if s.len() == 0 {
        Seq::empty()
    } else if has_component(files[s.last()], "bin"@) {
        bin_positions(files, s.drop_last()).push(s.last())
    } else {
        bin_positions(files, s.drop_last())
    }
}

/// The positions of `s` whose file has a path other than `path`, in order.
pub open spec fn other_paths(files: Seq<FoundFile>, s: Seq<int>, path: Seq<char>) -> Seq<int>
    decreases s.len(),
{
    if s.len() == 0 {
        Seq::empty()
    } else if files[s.last()].path@ != path {
        other_paths(files, s.drop_last(), path).push(s.last())
    } else {
        other_paths(files, s.drop_last(), path)
    }
}

/// The first of the positions in `s` whose path is shortest.
pub open spec fn first_shortest(files: Seq<FoundFile>, s: Seq<int>) -> int
    decreases s.len(),
{
    if s.len() <= 1 {
        s[0]
    } else {
        let best = first_shortest(files, s.drop_last());
        if path_len(files[s.last()]) < path_len(files[best]) {
            s.last()
        } else {
            best
        }
    }
}

/// The file that the locator picks as the executable, if any, given each file's
/// lower-cased name (`keys`) and whether it is a probable binary (`flags`).
pub open spec fn keyed_choice(
    files: Seq<FoundFile>,
    keys: Seq<Seq<char>>,
    flags: Seq<bool>,
    target: Seq<char>,
    fallback: Seq<char>,
) -> Option<int> {
    let exact = exact_positions(keys, target, fallback, files.len() as int);
    let probable = flagged_positions(flags, files.len() as int);
    if exact.len() == 1 {
        Some(exact[0])
    } else if exact.len() > 1 {
        Some(first_shortest(files, exact))
    } else if probable.len() == 1 {
        Some(probable[0])
    } else if probable.len() > 1 {
        let bins = bin_positions(files, probable);
        if bins.len() == 1 {
            Some(bins[0])
        } else {
            Some(first_shortest(files, probable))
        }
    } else if files.len() == 1 {
        Some(0)
    } else {
        None
    }
}

/// The file that the locator picks as the executable, if any.
pub open spec fn primary_choice(files: Seq<FoundFile>, target: Seq<char>, fallback: Seq<char>) -> Option<int> {
    keyed_choice(files, name_keys(files), probable_flags(files), target, fallback)
}

/// The flagged files other than the one at `primary` (by path).
pub open spec fn keyed_companions(files: Seq<FoundFile>, flags: Seq<bool>, primary: int) -> Seq<int> {
    other_paths(files, flagged_positions(flags, files.len() as int), files[primary].path@)
}

/// The probable binaries other than the one at `primary` (by path).
pub open spec fn companions(files: Seq<FoundFile>, primary: int) -> Seq<int> {
    keyed_companions(files, probable_flags(files), primary)
}

/// `a` comes before `b` when its path is shorter, or as long and met earlier.
pub open spec fn ranks_before(files: Seq<FoundFile>, a: int, b: int) -> bool {
    path_len(files[a]) < path_len(files[b]) || (path_len(files[a]) == path_len(files[b]) && a
        < b)
}

/// `listing` holds the positions of `members`, each once, in the order of `ranks_before`.
pub open spec fn is_ranked_listing(files: Seq<FoundFile>, members: Seq<int>, listing: Seq<int>) -> bool {
    &&& listing.len() == members.len()
    &&& forall|x: int| listing.contains(x) <==> members.contains(x)
    &&& forall|a: int, b: int|
        0 <= a < b < listing.len() ==> ranks_before(files, #[trigger] listing[a], #[trigger] listing[b])
}

proof fn lemma_exact_positions(keys: Seq<Seq<char>>, target: Seq<char>, fallback: Seq<char>, n: int)
    requires
        0 <= n <= keys.len(),
    ensures
        within(exact_positions(keys, target, fallback, n), n),
        increasing(exact_positions(keys, target, fallback, n)),
        forall|x: int|
            #[trigger] exact_positions(keys, target, fallback, n).contains(x) <==> (0 <= x < n
                && is_exact_key(keys[x], target, fallback)),
    decreases n,
{
    if n > 0 {
        lemma_exact_positions(keys, target, fallback, n - 1);
        let prev = exact_positions(keys, target, fallback, n - 1);
        assert forall|x: int|
            #[trigger] exact_positions(keys, target, fallback, n).contains(x) <==> (0 <= x < n
                && is_exact_key(keys[x], target, fallback)) by {
            if x == n - 1 && is_exact_key(keys[x], target, fallback) {
                assert(prev.push(x)[prev.len() as int] == x);
            }
            if prev.contains(x) {
                let k = choose|k: int| 0 <= k < prev.len() && prev[k] == x;
                assert(prev.push(n - 1)[k] == x);
            }
        }
    }
}

proof fn lemma_flagged_positions(flags: Seq<bool>, n: int)
    requires
        0 <= n <= flags.len(),
    ensures
        within(flagged_positions(flags, n), n),
        increasing(flagged_positions(flags, n)),
        forall|x: int|
            #[trigger] flagged_positions(flags, n).contains(x) <==> (0 <= x < n && flags[x]),
    decreases n,
{
    if n > 0 {
        lemma_flagged_positions(flags, n - 1);
        let prev = flagged_positions(flags, n - 1);
        assert forall|x: int|
            #[trigger] flagged_positions(flags, n).contains(x) <==> (0 <= x < n && flags[x]) by {
            if x == n - 1 && flags[x] {
                assert(prev.push(x)[prev.len() as int] == x);
            }
            if prev.contains(x) {
                let k = choose|k: int| 0 <= k < prev.len() && prev[k] == x;
                assert(prev.push(n - 1)[k] == x);
            }
        }
    }
}

proof fn lemma_bin_positions(files: Seq<FoundFile>, s: Seq<int>)
    requires
        increasing(s),
    ensures
        increasing(bin_positions(files, s)),
        forall|x: int|
            bin_positions(files, s).contains(x) <==> (s.contains(x) && has_component(
                files[x],
                "bin"@,
            )),
    decreases s.len(),
{
    if s.len() > 0 {
        let init = s.drop_last();
        lemma_bin_positions(files, init);
        let prev = bin_positions(files, init);
        assert forall|x: int|
            bin_positions(files, s).contains(x) <==> (s.contains(x) && has_component(
                files[x],
                "bin"@,
            )) by {
            if s.contains(x) {
                let k = choose|k: int| 0 <= k < s.len() && s[k] == x;
                if k < s.len() - 1 {
                    assert(init[k] == x);
                }
            }
            if init.contains(x) {
                let k = choose|k: int| 0 <= k < init.len() && init[k] == x;
                assert(s[k] == x);
            }
            if x == s.last() && has_component(files[x], "bin"@) {
                assert(prev.push(x)[prev.len() as int] == x);
            }
            if prev.contains(x) {
                let k = choose|k: int| 0 <= k < prev.len() && prev[k] == x;
                assert(prev.push(s.last())[k] == x);
            }
        }
        if has_component(files[s.last()], "bin"@) {
            assert forall|a: int, b: int|
                0 <= a < b < prev.len() + 1 implies #[trigger] prev.push(s.last())[a] < #[trigger] prev.push(
                    s.last(),
                )[b] by {
                if b == prev.len() {
                    assert(prev.contains(prev[a]));
                    assert(init.contains(prev[a]));
                    let k = choose|k: int| 0 <= k < init.len() && init[k] == prev[a];
                    assert(init[k] == s[k]);
                    assert(s[k] < s[s.len() - 1]);
                } else {
                    assert(prev[a] < prev[b]);
                }
            }
        }
    }
}

proof fn lemma_other_paths(files: Seq<FoundFile>, s: Seq<int>, path: Seq<char>)
    requires
        increasing(s),
    ensures
        increasing(other_paths(files, s, path)),
        forall|x: int|
            #[trigger] other_paths(files, s, path).contains(x) <==> (s.contains(x) && files[x].path@
                != path),
    decreases s.len(),
{
    if s.len() > 0 {
        let init = s.drop_last();
        lemma_other_paths(files, init, path);
        let prev = other_paths(files, init, path);
        assert forall|x: int|
            other_paths(files, s, path).contains(x) <==> (s.contains(x) && files[x].path@
                != path) by {
            if s.contains(x) {
                let k = choose|k: int| 0 <= k < s.len() && s[k] == x;
                if k < s.len() - 1 {
                    assert(init[k] == x);
                }
            }
            if init.contains(x) {
                let k = choose|k: int| 0 <= k < init.len() && init[k] == x;
                assert(s[k] == x);
            }
            if x == s.last() && files[x].path@ != path {
                assert(prev.push(x)[prev.len() as int] == x);
            }
            if prev.contains(x) {
                let k = choose|k: int| 0 <= k < prev.len() && prev[k] == x;
                assert(prev.push(s.last())[k] == x);
            }
        }
        if files[s.last()].path@ != path {
            assert forall|a: int, b: int|
                0 <= a < b < prev.len() + 1 implies #[trigger] prev.push(s.last())[a] < #[trigger] prev.push(
                    s.last(),
                )[b] by {
                if b == prev.len() {
                    assert(prev.contains(prev[a]));
                    assert(init.contains(prev[a]));
                    let k = choose|k: int| 0 <= k < init.len() && init[k] == prev[a];
                    assert(init[k] == s[k]);
                    assert(s[k] < s[s.len() - 1]);
                } else {
                    assert(prev[a] < prev[b]);
                }
            }
        }
    }
}

/// The first of `s` whose path is shortest is one of `s`.
proof fn lemma_first_shortest(files: Seq<FoundFile>, s: Seq<int>)
    requires
        s.len() > 0,
    ensures
        s.contains(first_shortest(files, s)),
    decreases s.len(),
{
    if s.len() > 1 {
        lemma_first_shortest(files, s.drop_last());
        let best = first_shortest(files, s.drop_last());
        let k = choose|k: int| 0 <= k < s.len() - 1 && s.drop_last()[k] == best;
        assert(s[k] == best);
        assert(s[s.len() - 1] == s.last());
    } else {
        assert(s[0] == s[0]);
    }
}

/// The executable's file name for `repo_name` on a host (with `.exe` on Windows).
pub fn binary_name(repo_name: &str, windows: bool) -> (r: String)
    ensures
        r@ == binary_name_text(repo_name@, windows),
{
    let mut name = repo_name.to_owned();
    if windows {
        name.append(".exe");
    }
    name
}

/// Whether some component of the file's path equals `needle`, up to ASCII case.
pub fn path_has_component(file: &FoundFile, needle: &str) -> (r: bool)
    ensures
        r == has_component(*file, needle@),
{
    let n = file.components.len();
    let mut k: usize = 0;
    while k < n
        invariant
            n == file.components@.len(),
            k <= n,
            forall|j: int|
                0 <= j < k ==> !eq_ignore_ascii_case_text(#[trigger] file.components@[j]@, needle@),
        decreases n - k,
    {
        if eq_ignore_ascii_case(file.components[k].as_str(), needle) {
            return true;
        }
        k += 1;
    }
    false
}

/// The extension of a file name that does not start with `.`.
fn extension(name: &str) -> (r: Option<&str>)
    ensures
        match r {
            Some(e) => extension_text(name@) == Some(e@),
            None => extension_text(name@) is None,
        },
{
    let n = name.unicode_len();
    let mut i: usize = n;
    while i > 0
        invariant
            n == name@.len(),
            i <= n,
            last_dot(name@, n as int) == last_dot(name@, i as int),
        decreases i,
    {
        if name.get_char(i - 1) == '.' {
            return Some(name.substring_char(i, n));
        }
        i -= 1;
    }
    None
}

/// Whether a lower-cased extension is one of documentation, metadata or checksums.
pub fn is_doc_extension_lowered(e: &str) -> (r: bool)
    ensures
        r == is_doc_extension(e@),
{
    same_text(e, "md") || same_text(e, "txt") || same_text(e, "rst") || same_text(e, "json")
        || same_text(e, "yaml") || same_text(e, "yml") || same_text(e, "toml") || same_text(
        e,
        "ini",
    ) || same_text(e, "cfg") || same_text(e, "conf") || same_text(e, "1") || same_text(e, "2")
        || same_text(e, "3") || same_text(e, "4") || same_text(e, "5") || same_text(e, "6")
        || same_text(e, "7") || same_text(e, "8") || same_text(e, "9") || same_text(e, "asc")
        || same_text(e, "sig") || same_text(e, "sha256") || same_text(e, "sha512") || same_text(
        e,
        "md5",
    )
}

/// Whether a lower-cased file name marks documentation or a hidden file.
pub fn is_doc_name_lowered(lname: &str) -> (r: bool)
    ensures
        r == is_doc_name(lname@),
{
    starts_with(lname, ".") || starts_with(lname, "readme") || starts_with(lname, "license")
        || starts_with(lname, "changelog") || starts_with(lname, "notice") || starts_with(
        lname,
        "copying",
    )
}

/// Whether the file passes the probable-binary filter: it has a name, that name
/// marks no documentation, no directory on its path is a documentation one, and
/// its extension is not one of documentation, metadata or checksums.
pub fn is_probable_binary_candidate(file: &FoundFile) -> (r: bool)
    ensures
        r == is_probable_binary(*file),
{
    let name = match &file.name {
        Some(n) => to_lowercase(n.as_str()),
        None => {
            return false;
        },
    };
    let name = name.as_str();
    if is_doc_name_lowered(name) {
        return false;
    }
    if path_has_component(file, "share") || path_has_component(file, "doc") || path_has_component(
        file,
        "docs",
    ) || path_has_component(file, "man") || path_has_component(file, "completions")
        || path_has_component(file, "completion") {
        return false;
    }
    if let Some(ext) = extension(name) {
        let ext = to_lowercase(ext);
        if is_doc_extension_lowered(ext.as_str()) {
            return false;
        }
    }
    true
}

fn path_length(file: &FoundFile) -> (r: usize)
    ensures
        r == path_len(*file),
{
    file.path.as_str().len()
}

/// The first of `positions` whose path is shortest.
fn shortest_of(files: &[FoundFile], positions: &Vec<usize>) -> (r: usize)
    requires
        positions@.len() > 0,
        within(as_ints(positions@), files@.len() as int),
    ensures
        r as int == first_shortest(files@, as_ints(positions@)),
{
    let ghost s = as_ints(positions@);
    let mut best: usize = positions[0];
    assert(0 <= s[0] < files@.len());
    let mut j: usize = 1;
    assert(s.take(1).len() == 1);
    while j < positions.len()
        invariant
            s == as_ints(positions@),
            within(s, files@.len() as int),
            1 <= j <= positions@.len(),
            best < files@.len(),
            best as int == first_shortest(files@, s.take(j as int)),
        decreases positions@.len() - j,
    {
        let p = positions[j];
        assert(s.take(j as int + 1).drop_last() =~= s.take(j as int));
        assert(s.take(j as int + 1).last() == p as int);
        assert(0 <= s[j as int] < files@.len());
        if path_length(&files[p]) < path_length(&files[best]) {
            best = p;
        }
        j += 1;
    }
    assert(s.take(positions@.len() as int) =~= s);
    best
}

/// The positions among `positions` whose file has a `bin` component.
fn in_bin_dir(files: &[FoundFile], positions: &Vec<usize>) -> (r: Vec<usize>)
    requires
        within(as_ints(positions@), files@.len() as int),
    ensures
        as_ints(r@) == bin_positions(files@, as_ints(positions@)),
{
    let ghost s = as_ints(positions@);
    let mut out: Vec<usize> = Vec::new();
    let mut j: usize = 0;
    while j < positions.len()
        invariant
            s == as_ints(positions@),
            within(s, files@.len() as int),
            j <= positions@.len(),
            as_ints(out@) == bin_positions(files@, s.take(j as int)),
        decreases positions@.len() - j,
    {
        let p = positions[j];
        assert(s.take(j as int + 1).drop_last() =~= s.take(j as int));
        assert(s.take(j as int + 1).last() == p as int);
        assert(0 <= s[j as int] < files@.len());
        if path_has_component(&files[p], "bin") {
            out.push(p);
        }
        assert(as_ints(out@) =~= bin_positions(files@, s.take(j as int + 1)));
        j += 1;
    }
    assert(s.take(positions@.len() as int) =~= s);
    out
}

/// The positions among `positions` whose path differs from that of `primary`.
fn other_than(files: &[FoundFile], positions: &Vec<usize>, primary: usize) -> (r: Vec<usize>)
    requires
        within(as_ints(positions@), files@.len() as int),
        primary < files@.len(),
    ensures
        as_ints(r@) == other_paths(files@, as_ints(positions@), files@[primary as int].path@),
{
    let ghost s = as_ints(positions@);
    let ghost path = files@[primary as int].path@;
    let mut out: Vec<usize> = Vec::new();
    let mut j: usize = 0;
    while j < positions.len()
        invariant
            s == as_ints(positions@),
            within(s, files@.len() as int),
            primary < files@.len(),
            path == files@[primary as int].path@,
            j <= positions@.len(),
            as_ints(out@) == other_paths(files@, s.take(j as int), path),
        decreases positions@.len() - j,
    {
        let p = positions[j];
        assert(s.take(j as int + 1).drop_last() =~= s.take(j as int));
        assert(s.take(j as int + 1).last() == p as int);
        assert(0 <= s[j as int] < files@.len());
        if files[p].path != files[primary].path {
            out.push(p);
        }
        assert(as_ints(out@) =~= other_paths(files@, s.take(j as int + 1), path));
        j += 1;
    }
    assert(s.take(positions@.len() as int) =~= s);
    out
}

/// Where a file whose path is `len` bytes long goes in `listing`: after every
/// file whose path is no longer.
fn insertion_point(files: &[FoundFile], listing: &Vec<usize>, len: usize) -> (p: usize)
    requires
        within(as_ints(listing@), files@.len() as int),
    ensures
        p <= listing@.len(),
        forall|q: int| 0 <= q < p ==> path_len(files@[#[trigger] as_ints(listing@)[q]]) <= len,
        p < listing@.len() ==> path_len(files@[as_ints(listing@)[p as int]]) > len,
{
    let ghost o = as_ints(listing@);
    let mut p: usize = 0;
    while p < listing.len()
        invariant
            o == as_ints(listing@),
            within(o, files@.len() as int),
            p <= listing@.len(),
            forall|q: int| 0 <= q < p ==> path_len(files@[#[trigger] o[q]]) <= len,
        decreases listing@.len() - p,
    {
        assert(0 <= o[p as int] < files@.len());
        if path_length(&files[listing[p]]) > len {
            return p;
        }
        p += 1;
    }
    p
}

/// Orders the files at `positions` by the length of their path, shortest first;
/// files with paths of one length keep the order of `positions`.
pub fn rank_by_path_length(files: &[FoundFile], positions: &Vec<usize>) -> (r: Vec<usize>)
    requires
        increasing(as_ints(positions@)),
        within(as_ints(positions@), files@.len() as int),
    ensures
        is_ranked_listing(files@, as_ints(positions@), as_ints(r@)),
        within(as_ints(r@), files@.len() as int),
{
    let ghost s = as_ints(positions@);
    let mut out: Vec<usize> = Vec::new();
    let mut j: usize = 0;
    while j < positions.len()
        invariant
            s == as_ints(positions@),
            increasing(s),
            within(s, files@.len() as int),
            j <= positions@.len(),
            is_ranked_listing(files@, s.take(j as int), as_ints(out@)),
            within(as_ints(out@), files@.len() as int),
        decreases positions@.len() - j,
    {
        let m = positions[j];
        assert(0 <= s[j as int] < files@.len());
        let lm = path_length(&files[m]);
        let ghost o = as_ints(out@);
        // Every position placed so far comes before `m` in the walk.
        assert forall|q: int| 0 <= q < o.len() implies o[q] < m by {
            assert(o.contains(o[q]));
            assert(s.take(j as int).contains(o[q]));
            let k = choose|k: int| 0 <= k < j && s.take(j as int)[k] == o[q];
            assert(s[k] < s[j as int]);
        }
        let p = insertion_point(files, &out, lm);
        // Past `p` every path is longer than that of `m`.
        assert forall|q: int| p <= q < o.len() implies path_len(files@[#[trigger] o[q]]) > lm by {
            assert(0 <= o[p as int] < files@.len());
            if q > p {
                assert(ranks_before(files@, o[p as int], o[q]));
            }
        }
        out.insert(p, m);
        let ghost n = as_ints(out@);
        assert(n =~= o.insert(p as int, m as int));
        assert(s.take(j as int + 1) =~= s.take(j as int).push(m as int));
        assert forall|x: int| n.contains(x) <==> s.take(j as int + 1).contains(x) by {
            if n.contains(x) {
                let k = choose|k: int| 0 <= k < n.len() && n[k] == x;
                if k == p {
                    assert(s.take(j as int + 1)[j as int] == x);
                } else {
                    if k < p {
                        assert(o[k] == x);
                    } else {
                        assert(o[k - 1] == x);
                    }
                    assert(o.contains(x));
                    assert(s.take(j as int).contains(x));
                    let i = choose|i: int| 0 <= i < j && #[trigger] s.take(j as int)[i] == x;
                    assert(s.take(j as int + 1)[i] == x);
                }
            }
            if s.take(j as int + 1).contains(x) {
                if x == m {
                    assert(n[p as int] == x);
                } else {
                    let k = choose|k: int| 0 <= k < j + 1 && #[trigger] s.take(j as int + 1)[k] == x;
                    assert(s.take(j as int).contains(x)) by {
                        assert(s.take(j as int)[k] == x);
                    }
                    assert(o.contains(x));
                    let i = choose|i: int| 0 <= i < o.len() && o[i] == x;
                    if i < p {
                        assert(n[i] == x);
                    } else {
                        assert(n[i + 1] == x);
                    }
                }
            }
        }
        assert forall|a: int, b: int| 0 <= a < b < n.len() implies ranks_before(
            files@,
            #[trigger] n[a],
            #[trigger] n[b],
        ) by {
            if b < p {
                assert(ranks_before(files@, o[a], o[b]));
            } else if b == p {
                assert(path_len(files@[o[a]]) <= lm);
                assert(o[a] < m);
            } else if a == p {
                assert(path_len(files@[o[b - 1]]) > lm);
            } else if a < p {
                assert(ranks_before(files@, o[a], o[b - 1]));
            } else {
                assert(ranks_before(files@, o[a - 1], o[b - 1]));
            }
        }
        j += 1;
    }
    assert(s.take(positions@.len() as int) =~= s);
    out
}

/// The locator's decision, given each file's lower-cased name in `keys`, whether
/// it is a probable binary in `flags`, and the expected names, lower-cased.
///
/// A file with an expected name wins, the one with the shortest path among
/// several; else a single probable binary; else, among several, the single one
/// under a `bin` directory, or the one with the shortest path; else the tree's only
/// file. The companions are the other probable binaries, shortest path first.
pub fn locate_keyed(
    files: &[FoundFile],
    keys: &[String],
    flags: &[bool],
    target: &str,
    fallback: &str,
) -> (r: Result<Located, YoinkError>)
    requires
        keys@.len() == files@.len(),
        flags@.len() == files@.len(),
    ensures
        ({
            let choice = keyed_choice(files@, texts(keys@), flags@, target@, fallback@);
            match r {
                Ok(found) => {
                    &&& choice == Some(found.primary as int)
                    &&& found.primary < files@.len()
                    &&& is_ranked_listing(
                        files@,
                        keyed_companions(files@, flags@, found.primary as int),
                        as_ints(found.extras@),
                    )
                    &&& within(as_ints(found.extras@), files@.len() as int)
                    &&& !as_ints(found.extras@).contains(found.primary as int)
                },
                Err(e) => e == YoinkError::BinaryNotFound && choice is None,
            }
        }),
{
    let n = files.len();
    let mut exact: Vec<usize> = Vec::new();
    let mut probable: Vec<usize> = Vec::new();
    let mut i: usize = 0;
    while i < n
        invariant
            n == files@.len(),
            n == keys@.len(),
            n == flags@.len(),
            i <= n,
            as_ints(exact@) == exact_positions(texts(keys@), target@, fallback@, i as int),
            as_ints(probable@) == flagged_positions(flags@, i as int),
        decreases n - i,
    {
        if same_text(keys[i].as_str(), target) || same_text(keys[i].as_str(), fallback) {
            exact.push(i);
        }
        if flags[i] {
            probable.push(i);
        }
        assert(as_ints(exact@) =~= exact_positions(texts(keys@), target@, fallback@, i as int + 1));
        assert(as_ints(probable@) =~= flagged_positions(flags@, i as int + 1));
        i += 1;
    }
    proof {
        lemma_exact_positions(texts(keys@), target@, fallback@, n as int);
        lemma_flagged_positions(flags@, n as int);
        lemma_bin_positions(files@, as_ints(probable@));
    }
    let primary: usize;
    if exact.len() == 1 {
        primary = exact[0];
        assert(0 <= as_ints(exact@)[0] < n);
    } else if exact.len() > 1 {
        primary = shortest_of(files, &exact);
        proof {
            lemma_first_shortest(files@, as_ints(exact@));
        }
    } else if probable.len() == 1 {
        primary = probable[0];
        assert(0 <= as_ints(probable@)[0] < n);
    } else if probable.len() > 1 {
        let bins = in_bin_dir(files, &probable);
        if bins.len() == 1 {
            primary = bins[0];
            assert(as_ints(bins@).contains(as_ints(bins@)[0]));
            assert(as_ints(probable@).contains(bins@[0] as int));
        } else {
            primary = shortest_of(files, &probable);
            proof {
                lemma_first_shortest(files@, as_ints(probable@));
            }
        }
    } else if n == 1 {
        primary = 0;
    } else {
        return Err(YoinkError::BinaryNotFound);
    }
    let others = other_than(files, &probable, primary);
    proof {
        lemma_other_paths(files@, as_ints(probable@), files@[primary as int].path@);
        assert forall|k: int| 0 <= k < as_ints(others@).len() implies 0 <= #[trigger] as_ints(
            others@,
        )[k] < n by {
            assert(as_ints(others@).contains(as_ints(others@)[k]));
            assert(as_ints(probable@).contains(as_ints(others@)[k]));
        }
    }
    let extras = rank_by_path_length(files, &others);
    proof {
        let t = other_paths(files@, as_ints(probable@), files@[primary as int].path@);
        if t.contains(primary as int) {
            assert(files@[primary as int].path@ != files@[primary as int].path@);
        }
    }
    Ok(Located { primary, extras })
}

/// Finds the executable, and its companions, among the regular files of an
/// unpacked tree, given in the order of the walk: `locate_keyed` on the files'
/// lower-cased names and the probable-binary filter.
pub fn find_binaries(files: &[FoundFile], repo_name: &str, platform: &PlatformProfile) -> (r: Result<
    Located,
    YoinkError,
>)
    ensures
        ({
            let target = lower_of(binary_name_text(repo_name@, platform.windows));
            let fallback = lower_of(repo_name@);
            match r {
                Ok(found) => {
                    &&& primary_choice(files@, target, fallback) == Some(found.primary as int)
                    &&& found.primary < files@.len()
                    &&& is_ranked_listing(
                        files@,
                        companions(files@, found.primary as int),
                        as_ints(found.extras@),
                    )
                    &&& within(as_ints(found.extras@), files@.len() as int)
                    &&& !as_ints(found.extras@).contains(found.primary as int)
                },
                Err(e) => e == YoinkError::BinaryNotFound && primary_choice(files@, target, fallback)
                    is None,
            }
        }),
{
    let target = to_lowercase(binary_name(repo_name, platform.windows).as_str());
    let fallback = to_lowercase(repo_name);
    let n = files.len();
    let mut keys: Vec<String> = Vec::new();
    let mut flags: Vec<bool> = Vec::new();
    let mut i: usize = 0;
    while i < n
        invariant
            n == files@.len(),
            i <= n,
            keys@.len() == i,
            flags@.len() == i,
            forall|j: int| 0 <= j < i ==> #[trigger] texts(keys@)[j] == name_key(files@[j]),
            forall|j: int| 0 <= j < i ==> #[trigger] flags@[j] == is_probable_binary(files@[j]),
        decreases n - i,
    {
        let key = match &files[i].name {
            Some(name) => to_lowercase(name.as_str()),
            None => String::new(),
        };
        assert(key@ == name_key(files@[i as int]));
        proof {
            lemma_texts_push(keys@, key);
        }
        keys.push(key);
        flags.push(is_probable_binary_candidate(&files[i]));
        i += 1;
    }
    assert(texts(keys@) =~= name_keys(files@));
    assert(flags@ =~= probable_flags(files@));
    locate_keyed(files, keys.as_slice(), flags.as_slice(), target.as_str(), fallback.as_str())
}

} // verus!
