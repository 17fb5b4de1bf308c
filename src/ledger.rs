use vstd::prelude::*;
use crate::error::YoinkError;
use crate::platform::{lemma_texts_push, texts};
use crate::repo::{display_version, display_version_text, is_repo_key, parse_repo};
use crate::text::{
    lemma_text_lt_irreflexive, lemma_text_lt_total, lemma_text_lt_transitive, same_text, text_less,
    text_lt,
};

verus! {

/// One installed project: its version and the paths of its executables.
pub struct InstallEntry {
    pub version: String,
    /// The primary executable.
    pub bin: String,
    /// Companion executables.
    pub bins: Vec<String>,
}

/// What an entry holds, as texts.
pub struct EntryModel {
    pub version: Seq<char>,
    pub bin: Seq<char>,
    pub bins: Seq<Seq<char>>,
}

impl View for InstallEntry {
    type V = EntryModel;

    open spec fn view(&self) -> EntryModel {
        EntryModel { version: self.version@, bin: self.bin@, bins: texts(self.bins@) }
    }
}

impl InstallEntry {
    /// The executables of an entry, primary first.
    pub fn all_bins(&self) -> (r: Vec<String>)
        ensures
            texts(r@) == seq![self.bin@] + texts(self.bins@),
    {
        let mut r: Vec<String> = Vec::new();
        let t = self.bin.clone();
        proof {
            lemma_texts_push(r@, t);
        }
        r.push(t);
        let n = self.bins.len();
        let mut k: usize = 0;
        while k < n
            invariant
                n == self.bins@.len(),
                k <= n,
                texts(r@) == seq![self.bin@] + texts(self.bins@).take(k as int),
            decreases n - k,
        {
            let t = self.bins[k].clone();
            proof {
                lemma_texts_push(r@, t);
            }
            r.push(t);
            assert(texts(r@) =~= seq![self.bin@] + texts(self.bins@).take(k as int + 1));
            k += 1;
        }
        assert(texts(self.bins@).take(n as int) =~= texts(self.bins@));
        r
    }
}

/// The install ledger: project keys (`owner/name`) with their entries. Its
/// invariant, `keys_ascending`, is that keys ascend strictly (so each occurs
/// once): `new` establishes it and every change keeps it.
pub struct InstallState {
    pub installs: Vec<(String, InstallEntry)>,
}

impl View for InstallState {
    type V = Seq<(Seq<char>, EntryModel)>;

    open spec fn view(&self) -> Seq<(Seq<char>, EntryModel)> {
        self.installs@.map_values(|p: (String, InstallEntry)| (p.0@, p.1@))
    }
}

/// A listed install: the project key and its version as shown to users.
pub struct InstallSummary {
    pub repo: String,
    pub version: String,
}

/// Every key occurs at most once.
pub open spec fn keys_unique(s: Seq<(Seq<char>, EntryModel)>) -> bool {
    forall|i: int, j: int| 0 <= i < j < s.len() ==> s[i].0 != s[j].0
}

/// The first position at or after `from` whose key is `key`, or -1.
pub open spec fn find_key_from(s: Seq<(Seq<char>, EntryModel)>, key: Seq<char>, from: int) -> int
    decreases s.len() - from,
{
    if from < 0 || from >= s.len() {
        -1
    } else if s[from].0 == key {
        from
    } else {
        find_key_from(s, key, from + 1)
    }
}

/// The position of `key` in the ledger, or -1 when it has no entry.
pub open spec fn key_index(s: Seq<(Seq<char>, EntryModel)>, key: Seq<char>) -> int {
    find_key_from(s, key, 0)
}

/// The keys ascend strictly, in the order of `str`: the ledger's invariant.
pub open spec fn keys_ascending(s: Seq<(Seq<char>, EntryModel)>) -> bool {
    forall|i: int, j: int| 0 <= i < j < s.len() ==> text_lt(#[trigger] s[i].0, #[trigger] s[j].0)
}

/// The first position at or after `from` whose key does not sort before `key`,
/// or the length of the ledger.
pub open spec fn insert_position_from(s: Seq<(Seq<char>, EntryModel)>, key: Seq<char>, from: int) -> int
    decreases s.len() - from,
{
    if from < 0 || from >= s.len() {
        s.len() as int
    } else if text_lt(s[from].0, key) {
        insert_position_from(s, key, from + 1)
    } else {
        from
    }
}

/// Where `key` belongs in the ledger.
pub open spec fn insert_position(s: Seq<(Seq<char>, EntryModel)>, key: Seq<char>) -> int {
    insert_position_from(s, key, 0)
}

/// The ledger with `key` mapped to `e`: an entry already there for `key` is
/// replaced, a new one goes where its key belongs.
pub open spec fn upsert(s: Seq<(Seq<char>, EntryModel)>, key: Seq<char>, e: EntryModel) -> Seq<
    (Seq<char>, EntryModel),
> {
    let p = insert_position(s, key);
    if p < s.len() && s[p].0 == key {
        s.update(p, (key, e))
    } else {
        s.insert(p, (key, e))
    }
}

proof fn lemma_insert_position_from(s: Seq<(Seq<char>, EntryModel)>, key: Seq<char>, from: int)
    requires
        0 <= from <= s.len(),
    ensures
        from <= insert_position_from(s, key, from) <= s.len(),
        forall|j: int| from <= j < insert_position_from(s, key, from) ==> text_lt(s[j].0, key),
        insert_position_from(s, key, from) < s.len() ==> !text_lt(
            s[insert_position_from(s, key, from)].0,
            key,
        ),
    decreases s.len() - from,
{
    if from < s.len() && text_lt(s[from].0, key) {
        lemma_insert_position_from(s, key, from + 1);
    }
}

/// Ascending keys are unique keys.
pub proof fn lemma_ascending_keys_unique(s: Seq<(Seq<char>, EntryModel)>)
    requires
        keys_ascending(s),
    ensures
        keys_unique(s),
{
    assert forall|i: int, j: int| 0 <= i < j < s.len() implies s[i].0 != s[j].0 by {
        lemma_text_lt_irreflexive(s[i].0);
    }
}

/// Putting an entry keeps the keys ascending.
pub proof fn lemma_upsert_keeps_order(s: Seq<(Seq<char>, EntryModel)>, key: Seq<char>, e: EntryModel)
    requires
        keys_ascending(s),
    ensures
        keys_ascending(upsert(s, key, e)),
{
    lemma_insert_position_from(s, key, 0);
    let p = insert_position(s, key);
    let t = upsert(s, key, e);
    if p < s.len() && s[p].0 == key {
        assert forall|i: int, j: int| 0 <= i < j < t.len() implies text_lt(
            #[trigger] t[i].0,
            #[trigger] t[j].0,
        ) by {
            assert(t[i].0 == s[i].0 && t[j].0 == s[j].0);
        }
    } else {
        if p < s.len() {
            lemma_text_lt_total(s[p].0, key);
        }
        assert forall|i: int, j: int| 0 <= i < j < t.len() implies text_lt(
            #[trigger] t[i].0,
            #[trigger] t[j].0,
        ) by {
            if j < p {
                assert(text_lt(s[i].0, s[j].0));
            } else if j == p {
                assert(t[i] == s[i]);
            } else if i == p {
                assert(t[j] == s[j - 1]);
                if j - 1 > p {
                    assert(text_lt(s[p].0, s[j - 1].0));
                    lemma_text_lt_transitive(key, s[p].0, s[j - 1].0);
                }
            } else if i < p {
                assert(t[i] == s[i] && t[j] == s[j - 1]);
                assert(text_lt(s[i].0, s[j - 1].0));
            } else {
                assert(t[i] == s[i - 1] && t[j] == s[j - 1]);
                assert(text_lt(s[i - 1].0, s[j - 1].0));
            }
        }
    }
}

/// Taking an entry out keeps the keys ascending.
pub proof fn lemma_remove_keeps_order(s: Seq<(Seq<char>, EntryModel)>, i: int)
    requires
        keys_ascending(s),
        0 <= i < s.len(),
    ensures
        keys_ascending(s.remove(i)),
{
    let t = s.remove(i);
    assert forall|a: int, b: int| 0 <= a < b < t.len() implies text_lt(
        #[trigger] t[a].0,
        #[trigger] t[b].0,
    ) by {
        let a2 = if a < i { a } else { a + 1 };
        let b2 = if b < i { b } else { b + 1 };
        assert(t[a] == s[a2] && t[b] == s[b2]);
        assert(text_lt(s[a2].0, s[b2].0));
    }
}

proof fn lemma_find_key_from(s: Seq<(Seq<char>, EntryModel)>, key: Seq<char>, from: int)
    requires
        0 <= from,
    ensures
        ({
            let i = find_key_from(s, key, from);
            &&& -1 <= i < s.len()
            &&& i >= 0 ==> from <= i && s[i].0 == key
            &&& forall|j: int| from <= j < s.len() && (i < 0 || j < i) ==> s[j].0 != key
        }),
    decreases s.len() - from,
{
    if from < s.len() && s[from].0 != key {
        lemma_find_key_from(s, key, from + 1);
    }
}

/// `key_index` finds the first position with the key, and -1 only where none has it.
pub proof fn lemma_key_index(s: Seq<(Seq<char>, EntryModel)>, key: Seq<char>)
    ensures
        -1 <= key_index(s, key) < s.len(),
        key_index(s, key) >= 0 ==> s[key_index(s, key)].0 == key,
        forall|j: int|
            0 <= j < s.len() && (key_index(s, key) < 0 || j < key_index(s, key)) ==> s[j].0
                != key,
{
    lemma_find_key_from(s, key, 0);
}

impl InstallState {
    /// The ledger with no installs, which is also what a blank ledger file holds.
    pub fn new() -> (r: InstallState)
        ensures
            r@.len() == 0,
            keys_ascending(r@),
    {
        InstallState { installs: Vec::new() }
    }

    /// The position of `key` among the installs, if it has an entry.
    pub fn position(&self, key: &str) -> (r: Option<usize>)
        ensures
            match r {
                Some(i) => i as int == key_index(self@, key@) && i < self@.len(),
                None => key_index(self@, key@) < 0,
            },
    {
        proof {
            lemma_key_index(self@, key@);
        }
        let n = self.installs.len();
        let mut i: usize = 0;
        while i < n
            invariant
                n == self@.len(),
                i <= n,
                forall|j: int| 0 <= j < i ==> self@[j].0 != key@,
                -1 <= key_index(self@, key@) < self@.len(),
                key_index(self@, key@) >= 0 ==> self@[key_index(self@, key@)].0 == key@,
                forall|j: int|
                    0 <= j < self@.len() && (key_index(self@, key@) < 0 || j < key_index(
                        self@,
                        key@,
                    )) ==> self@[j].0 != key@,
            decreases n - i,
        {
            if same_text(self.installs[i].0.as_str(), key) {
                assert(self@[i as int].0 == key@);
                return Some(i);
            }
            i += 1;
        }
        None
    }

    /// Maps `key` to `entry`: an entry already there for `key` is replaced, a new
    /// one goes where its key belongs, so that keys keep ascending.
    pub fn put(&mut self, key: String, entry: InstallEntry)
        ensures
            final(self)@ == upsert(old(self)@, key@, entry@),
            keys_ascending(old(self)@) ==> keys_ascending(final(self)@) && keys_unique(
                final(self)@,
            ),
    {
        let n = self.installs.len();
        let mut p: usize = 0;
        while p < n && text_less(self.installs[p].0.as_str(), key.as_str())
            invariant
                n == self@.len(),
                p <= n,
                insert_position(self@, key@) == insert_position_from(self@, key@, p as int),
            decreases n - p,
        {
            p += 1;
        }
        assert(p as int == insert_position(self@, key@));
        if p < n && same_text(self.installs[p].0.as_str(), key.as_str()) {
            self.installs.set(p, (key, entry));
        } else {
            self.installs.insert(p, (key, entry));
        }
        assert(final(self)@ =~= upsert(old(self)@, key@, entry@));
        proof {
            if keys_ascending(old(self)@) {
                lemma_upsert_keeps_order(old(self)@, key@, entry@);
                lemma_ascending_keys_unique(final(self)@);
            }
        }
    }
}

fn copy_texts_from(v: &[String], start: usize) -> (r: Vec<String>)
    requires
        start <= v@.len(),
    ensures
        texts(r@) == texts(v@).skip(start as int),
{
    let mut r: Vec<String> = Vec::new();
    let n = v.len();
    let mut k: usize = start;
    while k < n
        invariant
            n == v@.len(),
            start <= k <= n,
            texts(r@) == texts(v@).subrange(start as int, k as int),
        decreases n - k,
    {
        let t = v[k].clone();
        proof {
            lemma_texts_push(r@, t);
        }
        r.push(t);
        assert(texts(r@) =~= texts(v@).subrange(start as int, k as int + 1));
        k += 1;
    }
    assert(texts(v@).subrange(start as int, n as int) =~= texts(v@).skip(start as int));
    r
}

/// Records that `repo` is installed at `version` with the executables `bins`,
/// the first of them primary; an entry already there is replaced.
pub fn record_install(state: &mut InstallState, repo: &str, version: &str, bins: &[String]) -> (r:
    Result<(), YoinkError>)
    ensures
        bins@.len() == 0 <==> r is Err,
        match r {
            Ok(()) => final(state)@ == upsert(
                old(state)@,
                repo@,
                EntryModel { version: version@, bin: bins@[0]@, bins: texts(bins@).skip(1) },
            ),
            Err(e) => e == YoinkError::EmptyInstallSet && final(state)@ == old(state)@,
        },
        keys_ascending(old(state)@) ==> keys_ascending(final(state)@) && keys_unique(
            final(state)@,
        ),
{
    proof {
        if keys_ascending(old(state)@) {
            lemma_ascending_keys_unique(old(state)@);
        }
    }
    if bins.len() == 0 {
        return Err(YoinkError::EmptyInstallSet);
    }
    let primary = bins[0].clone();
    let extras = copy_texts_from(bins, 1);
    state.put(repo.to_owned(), InstallEntry { version: version.to_owned(), bin: primary, bins: extras });
    Ok(())
}

/// Takes the entry of `repo` out of the ledger and returns it.
pub fn remove_install(state: &mut InstallState, repo: &str) -> (r: Result<InstallEntry, YoinkError>)
    ensures
        key_index(old(state)@, repo@) >= 0 <==> r is Ok,
        match r {
            Ok(entry) => {
                &&& entry@ == old(state)@[key_index(old(state)@, repo@)].1
                &&& final(state)@ == old(state)@.remove(key_index(old(state)@, repo@))
            },
            Err(e) => e == YoinkError::LedgerEntryMissing && final(state)@ == old(state)@,
        },
        keys_ascending(old(state)@) ==> keys_ascending(final(state)@) && keys_unique(
            final(state)@,
        ),
{
    proof {
        if keys_ascending(old(state)@) {
            lemma_ascending_keys_unique(old(state)@);
        }
    }
    match state.position(repo) {
        Some(i) => {
            let (_, entry) = state.installs.remove(i);
            assert(final(state)@ =~= old(state)@.remove(i as int));
            proof {
                if keys_ascending(old(state)@) {
                    lemma_remove_keeps_order(old(state)@, i as int);
                    lemma_ascending_keys_unique(final(state)@);
                }
            }
            Ok(entry)
        },
        None => Err(YoinkError::LedgerEntryMissing),
    }
}

/// Uninstalls the project `repo` (`owner/name`) from the ledger, returning the
/// entry whose files are to be deleted.
pub fn uninstall(state: &mut InstallState, repo: &str) -> (r: Result<InstallEntry, YoinkError>)
    ensures
        r is Ok <==> is_repo_key(repo@) && key_index(old(state)@, repo@) >= 0,
        match r {
            Ok(entry) => {
                &&& entry@ == old(state)@[key_index(old(state)@, repo@)].1
                &&& final(state)@ == old(state)@.remove(key_index(old(state)@, repo@))
            },
            Err(e) => final(state)@ == old(state)@ && if is_repo_key(repo@) {
                e == YoinkError::LedgerEntryMissing
            } else {
                e == YoinkError::InvalidProjectKey
            },
        },
        keys_ascending(old(state)@) ==> keys_ascending(final(state)@) && keys_unique(
            final(state)@,
        ),
{
    proof {
        if keys_ascending(old(state)@) {
            lemma_ascending_keys_unique(old(state)@);
        }
    }
    // The key `owner/name` that the parse confirms is `repo` itself.
    let _ = parse_repo(repo)?;
    remove_install(state, repo)
}

/// The installs in ledger order, which is ascending order of their keys, each
/// with its version as shown to users.
pub fn list_installs(state: &InstallState) -> (r: Vec<InstallSummary>)
    ensures
        r@.len() == state@.len(),
        forall|i: int|
            0 <= i < r@.len() ==> (#[trigger] r@[i]).repo@ == state@[i].0 && r@[i].version@
                == display_version_text(state@[i].1.version),
        keys_ascending(state@) ==> forall|i: int, j: int|
            0 <= i < j < r@.len() ==> text_lt(#[trigger] r@[i].repo@, #[trigger] r@[j].repo@),
{
    let mut out: Vec<InstallSummary> = Vec::new();
    let n = state.installs.len();
    let mut k: usize = 0;
    while k < n
        invariant
            n == state@.len(),
            k <= n,
            out@.len() == k,
            forall|i: int|
                0 <= i < k ==> (#[trigger] out@[i]).repo@ == state@[i].0 && out@[i].version@
                    == display_version_text(state@[i].1.version),
        decreases n - k,
    {
        let (repo, entry) = &state.installs[k];
        out.push(
            InstallSummary {
                repo: repo.clone(),
                version: display_version(entry.version.as_str()).to_owned(),
            },
        );
        k += 1;
    }
    proof {
        if keys_ascending(state@) {
            assert forall|i: int, j: int| 0 <= i < j < out@.len() implies text_lt(
                #[trigger] out@[i].repo@,
                #[trigger] out@[j].repo@,
            ) by {
                assert(text_lt(state@[i].0, state@[j].0));
            }
        }
    }
    out
}

/// How deleting one recorded file ended.
#[derive(Debug, Clone, Copy, PartialEq, Eq, Structural)]
pub enum RemovalOutcome {
    Deleted,
    /// The file was not there any more.
    AlreadyGone,
    Failed,
}

/// Whether uninstalling goes on after deleting one file ended this way: a file
/// that is already gone counts as deleted, any other failure stops it before the
/// ledger is rewritten.
pub fn removal_continues(outcome: RemovalOutcome) -> (r: bool)
    ensures
        r == (outcome != RemovalOutcome::Failed),
{
    match outcome {
        RemovalOutcome::Failed => false,
        _ => true,
    }
}

/// Removing an entry keeps keys unique.
pub proof fn lemma_remove_keeps_keys_unique(s: Seq<(Seq<char>, EntryModel)>, i: int)
    requires
        keys_unique(s),
        0 <= i < s.len(),
    ensures
        keys_unique(s.remove(i)),
{
    let t = s.remove(i);
    assert forall|a: int, b: int| 0 <= a < b < t.len() implies t[a].0 != t[b].0 by {
        let a2 = if a < i { a } else { a + 1 };
        let b2 = if b < i { b } else { b + 1 };
        assert(t[a] == s[a2]);
        assert(t[b] == s[b2]);
    }
}

/// Removing a key twice: once its entry is taken out, the ledger has no entry for
/// it, so a second removal fails with `LedgerEntryMissing`; and the ledger still
/// has unique keys.
pub proof fn lemma_remove_twice(s: Seq<(Seq<char>, EntryModel)>, key: Seq<char>)
    requires
        keys_unique(s),
        key_index(s, key) >= 0,
    ensures
        key_index(s.remove(key_index(s, key)), key) < 0,
        keys_unique(s.remove(key_index(s, key))),
{
    lemma_key_index(s, key);
    let i = key_index(s, key);
    let t = s.remove(i);
    lemma_key_index(t, key);
    lemma_remove_keeps_keys_unique(s, i);
    if key_index(t, key) >= 0 {
        let j = key_index(t, key);
        if j < i {
            assert(t[j] == s[j]);
        } else {
            assert(t[j] == s[j + 1]);
            assert(s[i].0 != s[j + 1].0);
        }
    }
}

/// The ledger that loading builds from a list of entries, putting each in turn.
pub open spec fn rebuilt(entries: Seq<(Seq<char>, EntryModel)>) -> Seq<(Seq<char>, EntryModel)>
    decreases entries.len(),
{
    if entries.len() == 0 {
        Seq::empty()
    } else {
        upsert(rebuilt(entries.drop_last()), entries.last().0, entries.last().1)
    }
}

/// Loading gives back what was written: putting the entries of a ledger with
/// ascending keys into an empty one, in their order, yields that same ledger.
pub proof fn lemma_rebuilt_is_identity(s: Seq<(Seq<char>, EntryModel)>)
    requires
        keys_ascending(s),
    ensures
        rebuilt(s) == s,
    decreases s.len(),
{
    if s.len() > 0 {
        let init = s.drop_last();
        let last = s.last();
        assert(keys_ascending(init)) by {
            assert forall|i: int, j: int| 0 <= i < j < init.len() implies text_lt(
                #[trigger] init[i].0,
                #[trigger] init[j].0,
            ) by {
                assert(init[i] == s[i] && init[j] == s[j]);
            }
        }
        lemma_rebuilt_is_identity(init);
        lemma_insert_position_from(init, last.0, 0);
        let p = insert_position(init, last.0);
        if p < init.len() {
            assert(init[p] == s[p]);
            assert(text_lt(s[p].0, s[s.len() - 1].0));
        }
        assert(p == init.len());
        assert(init.insert(p, last) =~= s);
    }
}

} // verus!
