use vstd::prelude::*;
use vstd::string::StrSliceExecFns;
use crate::error::YoinkError;

verus! {

/// `s` splits at `i` into a non-empty owner and a non-empty name, and `i` holds
/// the only `/` of `s`.
pub open spec fn splits_repo_key(s: Seq<char>, i: int) -> bool {
    &&& 0 < i < s.len() - 1
    &&& s[i] == '/'
    &&& forall|j: int| 0 <= j < s.len() && j != i ==> #[trigger] s[j] != '/'
}

/// A project key of the form `owner/name`.
pub open spec fn is_repo_key(s: Seq<char>) -> bool {
    exists|i: int| splits_repo_key(s, i)
}

/// The version as it is shown: a leading `v` is dropped when a digit follows it.
pub open spec fn display_version_text(v: Seq<char>) -> Seq<char> {
    if v.len() >= 2 && v[0] == 'v' && '0' <= v[1] && v[1] <= '9' {
        v.subrange(1, v.len() as int)
    } else {
        v
    }
}

/// Splits a project key `owner/name` into its owner and its name.
pub fn parse_repo(repo: &str) -> (r: Result<(String, String), YoinkError>)
    ensures
        r is Ok <==> is_repo_key(repo@),
        match r {
            Ok((owner, name)) => {
                &&& repo@ == owner@ + seq!['/'] + name@
                &&& splits_repo_key(repo@, owner@.len() as int)
            },
            Err(e) => e == YoinkError::InvalidProjectKey,
        },
{
    let n = repo.unicode_len();
    let mut p: usize = 0;
    while p < n && repo.get_char(p) != '/'
        invariant
            n == repo@.len(),
            p <= n,
            forall|j: int| 0 <= j < p ==> repo@[j] != '/',
        decreases n - p,
    {
        p += 1;
    }
    // `p` is the first slash, or `n` when there is none.
    if p == n || p == 0 || p + 1 == n {
        proof {
            assert forall|i: int| !splits_repo_key(repo@, i) by {
                if splits_repo_key(repo@, i) && p < n {
                    assert(repo@[p as int] == '/');
                }
            }
        }
        return Err(YoinkError::InvalidProjectKey);
    }
    assert(repo@[p as int] == '/');
    let mut j: usize = p + 1;
    while j < n
        invariant
            n == repo@.len(),
            p < j <= n,
            0 < p,
            p + 1 < n,
            repo@[p as int] == '/',
            forall|k: int| 0 <= k < p ==> repo@[k] != '/',
            forall|k: int| p < k < j ==> repo@[k] != '/',
        decreases n - j,
    {
        if repo.get_char(j) == '/' {
            proof {
                assert forall|i: int| !splits_repo_key(repo@, i) by {
                    if splits_repo_key(repo@, i) {
                        assert(repo@[p as int] == '/');
                        assert(repo@[j as int] == '/');
                    }
                }
            }
            return Err(YoinkError::InvalidProjectKey);
        }
        j += 1;
    }
    let owner = repo.substring_char(0, p).to_owned();
    let name = repo.substring_char(p + 1, n).to_owned();
    assert(repo@ =~= owner@ + seq!['/'] + name@);
    assert(splits_repo_key(repo@, p as int));
    Ok((owner, name))
}

/// Whether the input is a project key of the form `owner/name`.
pub fn is_repo_shape(input: &str) -> (r: bool)
    ensures
        r == is_repo_key(input@),
{
    parse_repo(input).is_ok()
}

/// The version as it is shown to users: `v1.2.3` becomes `1.2.3`, while `vbeta`
/// and `1.2.3` stay as they are.
pub fn display_version(version: &str) -> (r: &str)
    ensures
        r@ == display_version_text(version@),
{
    let n = version.unicode_len();
    if n >= 2 && version.get_char(0) == 'v' {
        let c = version.get_char(1);
        if '0' <= c && c <= '9' {
            return version.substring_char(1, n);
        }
    }
    version
}

} // verus!
