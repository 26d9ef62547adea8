//! The lockfile and the reconciliation of one install run.
//!
//! Each dependency of the manifest ends a run in one outcome: installed, with
//! the lock entry it earns; failed, for this dependency only; or an integrity
//! failure, when the version already locked came back with other bytes. The
//! outcomes are reduced once, at the end: any integrity failure aborts the
//! run and nothing is written; otherwise every installed entry replaces the
//! entry of the same name (up to case and surrounding whitespace, as in the
//! manifest), or joins the lockfile.

use vstd::prelude::*;
use vstd::string::StringExecFns;
use crate::archive::ArchiveError;
use crate::fetch::{content_hash, content_hash_of, FetchError};
use crate::text::{copy_opt, opt_view, string_of};
use crate::manifest::{github_word, source_kind_of, SourceKind, has_key, key_of, keys_unique, name_key, without_key, Dependency, DependencyView, Manifest, ManifestError};
use crate::resolve::ResolveError;

verus! {

pub struct LockEntry {
    pub name: String,
    /// The resolved exact version.
    pub version: String,
    pub repo: String,
    /// Hexadecimal SHA-256 digest of the archive's bytes.
    pub hash: String,
    /// The kind of source the archive came from (`github`).
    pub source: Option<String>,
}

pub ghost struct LockEntryView {
    pub name: Seq<char>,
    pub version: Seq<char>,
    pub repo: Seq<char>,
    pub hash: Seq<char>,
    pub source: Option<Seq<char>>,
}

impl View for LockEntry {
    type V = LockEntryView;

    open spec fn view(&self) -> LockEntryView {
        LockEntryView {
            name: self.name@,
            version: self.version@,
            repo: self.repo@,
            hash: self.hash@,
            source: opt_view(self.source),
        }
    }
}

impl LockEntry {
    pub fn copy(&self) -> (r: LockEntry)
        ensures
            r@ == self@,
    {
        LockEntry {
            name: self.name.clone(),
            version: self.version.clone(),
            repo: self.repo.clone(),
            hash: self.hash.clone(),
            source: copy_opt(&self.source),
        }
    }
}

pub struct Lockfile {
    pub entries: Vec<LockEntry>,
}

pub open spec fn entry_views(v: Seq<LockEntry>) -> Seq<LockEntryView> {
    Seq::new(v.len(), |i: int| v[i]@)
}

impl View for Lockfile {
    type V = Seq<LockEntryView>;

    open spec fn view(&self) -> Seq<LockEntryView> {
        entry_views(self.entries@)
    }
}

/// One entry per key.
pub open spec fn entry_keys_unique(es: Seq<LockEntryView>) -> bool {
    forall|i: int, j: int|
        0 <= i < es.len() && 0 <= j < es.len() && i != j ==> entry_key(#[trigger] es[i]) != entry_key(
        #[trigger] es[j])
}

/// The key under which an entry is locked: its name, trimmed and in lower
/// case, as the manifest keys dependencies.
pub open spec fn entry_key(e: LockEntryView) -> Seq<char> {
    name_key(e.name)
}

pub open spec fn has_name(es: Seq<LockEntryView>, key: Seq<char>) -> bool {
    exists|i: int| 0 <= i < es.len() && entry_key(#[trigger] es[i]) == key
}

pub open spec fn position(es: Seq<LockEntryView>, key: Seq<char>) -> int {
    choose|i: int| 0 <= i < es.len() && entry_key(#[trigger] es[i]) == key
}

/// The entry locked under a key.
pub open spec fn entry_named(es: Seq<LockEntryView>, key: Seq<char>) -> Option<LockEntryView> {
    if has_name(es, key) {
        Some(es[position(es, key)])
    } else {
        None
    }
}

/// `es` with `e` in place of the entry of its key, or with `e` added.
pub open spec fn upsert(es: Seq<LockEntryView>, e: LockEntryView) -> Seq<LockEntryView> {
    if has_name(es, entry_key(e)) {
        es.update(position(es, entry_key(e)), e)
    } else {
        es.push(e)
    }
}

#[derive(Clone, Copy, Debug, PartialEq, Eq, Structural)]
pub enum StepError {
    Resolve(ResolveError),
    Fetch(FetchError),
    Archive(ArchiveError),
    /// The dependency names a kind of source that is not supported.
    UnsupportedSource,
    /// Reading or writing the cache or the destination failed.
    Io,
}

/// How one dependency ended in a run.
pub enum Outcome {
    Installed(LockEntry),
    /// This dependency failed; the others go on.
    Failed(String, StepError),
    /// The version already locked for this dependency came with other bytes.
    Mismatch(String),
}

pub ghost enum OutcomeView {
    Installed(LockEntryView),
    Failed(Seq<char>, StepError),
    Mismatch(Seq<char>),
}

impl View for Outcome {
    type V = OutcomeView;

    open spec fn view(&self) -> OutcomeView {
        match self {
            Outcome::Installed(e) => OutcomeView::Installed(e@),
            Outcome::Failed(n, e) => OutcomeView::Failed(n@, *e),
            Outcome::Mismatch(n) => OutcomeView::Mismatch(n@),
        }
    }
}

pub open spec fn outcome_views(v: Seq<Outcome>) -> Seq<OutcomeView> {
    Seq::new(v.len(), |i: int| v[i]@)
}

#[derive(Debug, PartialEq, Eq)]
pub enum RunError {
    /// The named dependency failed its integrity check; nothing was written.
    Integrity(String),
}

/// The source that a lock entry records: the name of the kind for a
/// supported source (also when the dependency names none), otherwise what
/// the dependency names.
pub open spec fn recorded_source(source: Option<Seq<char>>) -> Option<Seq<char>> {
    match source_kind_of(source) {
        Some(SourceKind::Github) => Some(github_word()),
        None => source,
    }
}

fn record_source(dep: &Dependency) -> (r: Option<String>)
    ensures
        opt_view(r) == recorded_source(dep@.source),
{
    match dep.source_kind() {
        Some(SourceKind::Github) => {
            let word = vec!['g', 'i', 't', 'h', 'u', 'b'];
            Some(string_of(word.as_slice()))
        },
        None => copy_opt(&dep.source),
    }
}

/// The lock entry agrees with what was just resolved.
pub open spec fn is_current(locked: Option<LockEntryView>, repo: Seq<char>, version: Seq<char>) -> bool {
    locked matches Some(e) && e.version == version && e.repo == repo
}

/// The outcome of a dependency whose requirement resolved to `version` and
/// whose archive came as `bytes`, against the lock entries of the run's start.
pub open spec fn settled(
    dep: DependencyView,
    es: Seq<LockEntryView>,
    version: Seq<char>,
    bytes: Seq<u8>,
) -> OutcomeView {
    let hash = content_hash_of(bytes);
    let locked = entry_named(es, name_key(dep.name));
    if is_current(locked, dep.repo, version) && locked->0.hash != hash {
        OutcomeView::Mismatch(dep.name)
    } else {
        OutcomeView::Installed(
            LockEntryView { name: dep.name, version, repo: dep.repo, hash, source: recorded_source(dep.source) },
        )
    }
}

/// The lock entries after the installed outcomes, in order.
pub open spec fn apply_outcomes(es: Seq<LockEntryView>, outs: Seq<OutcomeView>) -> Seq<LockEntryView>
    decreases outs.len(),
{
    if outs.len() == 0 {
        es
    } else {
        let prev = apply_outcomes(es, outs.drop_last());
        match outs.last() {
            OutcomeView::Installed(e) => upsert(prev, e),
            _ => prev,
        }
    }
}

/// The first dependency that failed its integrity check.
pub open spec fn first_mismatch(outs: Seq<OutcomeView>) -> Option<Seq<char>>
    decreases outs.len(),
{
    if outs.len() == 0 {
        None
    } else {
        match first_mismatch(outs.drop_last()) {
            Some(n) => Some(n),
            None => match outs.last() {
                OutcomeView::Mismatch(n) => Some(n),
                _ => None,
            },
        }
    }
}

/// The lockfile that a run ends with, or the dependency that aborts it.
pub open spec fn run_result(es: Seq<LockEntryView>, outs: Seq<OutcomeView>) -> Result<
    Seq<LockEntryView>,
    Seq<char>,
> {
    match first_mismatch(outs) {
        Some(n) => Err(n),
        None => Ok(apply_outcomes(es, outs)),
    }
}

proof fn lemma_position(es: Seq<LockEntryView>, i: int)
    requires
        entry_keys_unique(es),
        0 <= i < es.len(),
    ensures
        has_name(es, entry_key(es[i])),
        position(es, entry_key(es[i])) == i,
{
    assert(has_name(es, entry_key(es[i])));
    let p = position(es, entry_key(es[i]));
    if p != i {
        assert(entry_key(es[p]) != entry_key(es[i]));
    }
}

proof fn lemma_upsert(es: Seq<LockEntryView>, e: LockEntryView)
    requires
        entry_keys_unique(es),
    ensures
        entry_keys_unique(upsert(es, e)),
        entry_named(upsert(es, e), entry_key(e)) == Some(e),
        forall|n: Seq<char>| n != entry_key(e) ==> #[trigger] entry_named(upsert(es, e), n) == entry_named(es, n),
        entry_named(es, entry_key(e)) == Some(e) ==> upsert(es, e) == es,
{
    let u = upsert(es, e);
    if has_name(es, entry_key(e)) {
        let p = position(es, entry_key(e));
        assert forall|i: int, j: int|
            0 <= i < u.len() && 0 <= j < u.len() && i != j implies entry_key(#[trigger] u[i]) != entry_key(
            #[trigger] u[j]) by {
            if i != p && j != p {
                assert(entry_key(es[i]) != entry_key(es[j]));
            } else if i == p {
                assert(entry_key(es[p]) != entry_key(es[j]));
            } else {
                assert(entry_key(es[i]) != entry_key(es[p]));
            }
        }
        lemma_position(u, p);
        assert forall|n: Seq<char>| n != entry_key(e) implies #[trigger] entry_named(u, n) == entry_named(es, n) by {
            if has_name(es, n) {
                let q = position(es, n);
                assert(q != p);
                assert(u[q] == es[q]);
                lemma_position(u, q);
            }
            if has_name(u, n) {
                let q = position(u, n);
                assert(entry_key(es[q]) == n);
            }
        }
        if entry_named(es, entry_key(e)) == Some(e) {
            assert(u =~= es);
        }
    } else {
        assert forall|i: int, j: int|
            0 <= i < u.len() && 0 <= j < u.len() && i != j implies entry_key(#[trigger] u[i]) != entry_key(
            #[trigger] u[j]) by {
            if i < es.len() && j < es.len() {
                assert(entry_key(es[i]) != entry_key(es[j]));
            }
        }
        lemma_position(u, es.len() as int);
        assert forall|n: Seq<char>| n != entry_key(e) implies #[trigger] entry_named(u, n) == entry_named(es, n) by {
            if has_name(es, n) {
                let q = position(es, n);
                assert(u[q] == es[q]);
                lemma_position(u, q);
            }
            if has_name(u, n) {
                let q = position(u, n);
                assert(q < es.len());
                assert(entry_key(es[q]) == n);
            }
        }
    }
}

impl Lockfile {
    pub open spec fn wf(&self) -> bool {
        entry_keys_unique(self@)
    }

    pub fn new() -> (r: Lockfile)
        ensures
            r@.len() == 0,
            r.wf(),
    {
        Lockfile { entries: Vec::new() }
    }

    /// Whether no two entries share a key: what every other operation of a
    /// lockfile relies on.
    pub fn keys_are_unique(&self) -> (r: bool)
        ensures
            r == self.wf(),
    {
        let n = self.entries.len();
        let mut keys: Vec<String> = Vec::new();
        let mut i: usize = 0;
        while i < n
            invariant
                i <= n,
                n == self.entries.len(),
                keys.len() == i,
                forall|k: int| 0 <= k < i ==> (#[trigger] keys@[k])@ == entry_key(self@[k]),
            decreases n - i,
        {
            keys.push(key_of(self.entries[i].name.as_str()));
            i = i + 1;
        }
        let mut a: usize = 0;
        while a < n
            invariant
                a <= n,
                n == self.entries.len(),
                keys.len() == n,
                forall|k: int| 0 <= k < n ==> (#[trigger] keys@[k])@ == entry_key(self@[k]),
                forall|x: int, y: int|
                    0 <= x < a && 0 <= y < n && x != y ==> entry_key(#[trigger] self@[x]) != entry_key(
                        #[trigger] self@[y],
                    ),
            decreases n - a,
        {
            let mut b: usize = 0;
            while b < n
                invariant
                    a < n,
                    b <= n,
                    n == self.entries.len(),
                    keys.len() == n,
                    forall|k: int| 0 <= k < n ==> (#[trigger] keys@[k])@ == entry_key(self@[k]),
                    forall|x: int, y: int|
                        0 <= x < a && 0 <= y < n && x != y ==> entry_key(#[trigger] self@[x]) != entry_key(
                            #[trigger] self@[y],
                        ),
                    forall|y: int| 0 <= y < b && a != y ==> entry_key(self@[a as int]) != entry_key(#[trigger] self@[y]),
                decreases n - b,
            {
                if a != b && keys[a] == keys[b] {
                    assert(entry_key(self@[a as int]) == entry_key(self@[b as int]));
                    return false;
                }
                b = b + 1;
            }
            a = a + 1;
        }
        true
    }

    /// The index of the entry locked under the key of `name`.
    pub fn find(&self, name: &str) -> (r: Option<usize>)
        requires
            self.wf(),
        ensures
            r is None <==> !has_name(self@, name_key(name@)),
            r matches Some(i) ==> i < self@.len() && position(self@, name_key(name@)) == i
                && entry_named(self@, name_key(name@)) == Some(self@[i as int]),
    {
        let wanted = key_of(name);
        let mut i: usize = 0;
        while i < self.entries.len()
            invariant
                i <= self.entries.len(),
                self.wf(),
                wanted@ == name_key(name@),
                forall|k: int| 0 <= k < i ==> entry_key(#[trigger] self@[k]) != wanted@,
            decreases self.entries.len() - i,
        {
            if key_of(self.entries[i].name.as_str()) == wanted {
                proof {
                    lemma_position(self@, i as int);
                }
                return Some(i);
            }
            i = i + 1;
        }
        None
    }
}

/// The outcome of a dependency whose requirement resolved to `version` and
/// whose archive came as `bytes`, judged against the lock of the run's start:
/// a mismatch when the lock already holds this version from this repository
/// with another hash.
pub fn settle(dep: &Dependency, lock: &Lockfile, version: &str, bytes: &[u8]) -> (r: Outcome)
    requires
        lock.wf(),
    ensures
        r@ == settled(dep@, lock@, version@, bytes@),
{
    let hash = content_hash(bytes);
    let v = String::from_str(version);
    match lock.find(dep.name.as_str()) {
        Some(i) => {
            let e = &lock.entries[i];
            if e.version == v && e.repo == dep.repo && e.hash != hash {
                return Outcome::Mismatch(dep.name.clone());
            }
        },
        None => {},
    }
    Outcome::Installed(
        LockEntry {
            name: dep.name.clone(),
            version: v,
            repo: dep.repo.clone(),
            hash,
            source: record_source(dep),
        },
    )
}

proof fn lemma_first_mismatch_extends(outs: Seq<OutcomeView>, k: int)
    requires
        0 <= k <= outs.len(),
        first_mismatch(outs.take(k)) is Some,
    ensures
        first_mismatch(outs) == first_mismatch(outs.take(k)),
    decreases outs.len() - k,
{
    if k < outs.len() {
        assert(outs.take(k + 1).drop_last() =~= outs.take(k));
        lemma_first_mismatch_extends(outs, k + 1);
    } else {
        assert(outs.take(k) =~= outs);
    }
}

proof fn lemma_no_mismatch(outs: Seq<OutcomeView>, i: int)
    requires
        first_mismatch(outs) is None,
        0 <= i < outs.len(),
    ensures
        !(outs[i] is Mismatch),
    decreases outs.len(),
{
    if i < outs.len() - 1 {
        lemma_no_mismatch(outs.drop_last(), i);
    }
}

/// Ends a run: the lockfile to write, or the first dependency whose
/// integrity check failed, in which case nothing is to be written.
pub fn finish(lock: Lockfile, outcomes: &Vec<Outcome>) -> (r: Result<Lockfile, RunError>)
    requires
        lock.wf(),
    ensures
        match r {
            Ok(l) => l.wf() && run_result(lock@, outcome_views(outcomes@)) == Ok::<
                Seq<LockEntryView>,
                Seq<char>,
            >(l@),
            Err(RunError::Integrity(n)) => run_result(lock@, outcome_views(outcomes@)) == Err::<
                Seq<LockEntryView>,
                Seq<char>,
            >(n@),
        },
{
    let ghost outs = outcome_views(outcomes@);
    let mut k: usize = 0;
    assert(outs.take(0) =~= Seq::<OutcomeView>::empty());
    while k < outcomes.len()
        invariant
            k <= outcomes.len(),
            outs == outcome_views(outcomes@),
            first_mismatch(outs.take(k as int)) is None,
        decreases outcomes.len() - k,
    {
        assert(outs.take(k as int + 1).drop_last() =~= outs.take(k as int));
        match &outcomes[k] {
            Outcome::Mismatch(n) => {
                proof {
                    lemma_first_mismatch_extends(outs, k as int + 1);
                }
                return Err(RunError::Integrity(n.clone()));
            },
            _ => {},
        }
        k = k + 1;
    }
    assert(outs.take(outcomes.len() as int) =~= outs);
    let ghost start = lock@;
    let mut l = lock;
    let mut j: usize = 0;
    while j < outcomes.len()
        invariant
            j <= outcomes.len(),
            outs == outcome_views(outcomes@),
            l.wf(),
            l@ == apply_outcomes(start, outs.take(j as int)),
        decreases outcomes.len() - j,
    {
        assert(outs.take(j as int + 1).drop_last() =~= outs.take(j as int));
        match &outcomes[j] {
            Outcome::Installed(e) => {
                proof {
                    lemma_upsert(l@, e@);
                }
                let ghost before = l@;
                match l.find(e.name.as_str()) {
                    Some(i) => {
                        l.entries.set(i, e.copy());
                        assert(l@ =~= before.update(i as int, e@));
                    },
                    None => {
                        l.entries.push(e.copy());
                        assert(l@ =~= before.push(e@));
                    },
                }
            },
            _ => {},
        }
        j = j + 1;
    }
    assert(outs.take(outcomes.len() as int) =~= outs);
    Ok(l)
}

/// What to do with a dependency's destination directory.
#[derive(Clone, Copy, Debug, PartialEq, Eq, Structural)]
pub enum DirAction {
    /// Installed and locked at this version: leave the files as they are.
    Keep,
    /// Not there: extract into a new directory.
    Create,
    /// There, but for another version: remove it and extract anew.
    Recreate,
}

/// The directory action for a dependency resolved to `version`: the files
/// stay only when the lock already records that version from that repository.
pub open spec fn dir_action(current: bool, present: bool) -> DirAction {
    if !present {
        DirAction::Create
    } else if current {
        DirAction::Keep
    } else {
        DirAction::Recreate
    }
}

pub fn plan_directory(lock: &Lockfile, dep: &Dependency, version: &str, present: bool) -> (r: DirAction)
    requires
        lock.wf(),
    ensures
        r == dir_action(is_current(entry_named(lock@, name_key(dep.name@)), dep.repo@, version@), present),
{
    let v = String::from_str(version);
    let current = match lock.find(dep.name.as_str()) {
        Some(i) => lock.entries[i].version == v && lock.entries[i].repo == dep.repo,
        None => false,
    };
    if !present {
        DirAction::Create
    } else if current {
        DirAction::Keep
    } else {
        DirAction::Recreate
    }
}

/// What one dependency's attempt came to: the resolved version and the
/// archive's bytes, or the step that failed.
pub open spec fn attempt_outcome(
    dep: DependencyView,
    es: Seq<LockEntryView>,
    attempt: Result<(Seq<char>, Seq<u8>), StepError>,
) -> OutcomeView {
    match attempt {
        Ok((version, bytes)) => settled(dep, es, version, bytes),
        Err(e) => OutcomeView::Failed(dep.name, e),
    }
}

/// The outcomes of a run over `deps` against the lock entries `es`.
pub open spec fn run_outcomes(
    deps: Seq<DependencyView>,
    es: Seq<LockEntryView>,
    attempts: Seq<Result<(Seq<char>, Seq<u8>), StepError>>,
) -> Seq<OutcomeView> {
    Seq::new(deps.len(), |i: int| attempt_outcome(deps[i], es, attempts[i]))
}

proof fn lemma_installed_name(
    deps: Seq<DependencyView>,
    es: Seq<LockEntryView>,
    attempts: Seq<Result<(Seq<char>, Seq<u8>), StepError>>,
    i: int,
)
    requires
        0 <= i < deps.len(),
    ensures
        run_outcomes(deps, es, attempts)[i] matches OutcomeView::Installed(e) ==> e.name
            == deps[i].name,
{
}

proof fn lemma_applied_entries(
    deps: Seq<DependencyView>,
    es: Seq<LockEntryView>,
    attempts: Seq<Result<(Seq<char>, Seq<u8>), StepError>>,
    k: int,
)
    requires
        entry_keys_unique(es),
        keys_unique(deps),
        0 <= k <= deps.len(),
    ensures
        entry_keys_unique(apply_outcomes(es, run_outcomes(deps, es, attempts).take(k))),
        forall|i: int|
            0 <= i < k ==> match #[trigger] run_outcomes(deps, es, attempts)[i] {
                OutcomeView::Installed(e) => entry_named(
                    apply_outcomes(es, run_outcomes(deps, es, attempts).take(k)),
                    entry_key(e),
                ) == Some(e),
                _ => true,
            },
    decreases k,
{
    let outs = run_outcomes(deps, es, attempts);
    if k > 0 {
        lemma_applied_entries(deps, es, attempts, k - 1);
        let prev = apply_outcomes(es, outs.take(k - 1));
        assert(outs.take(k).drop_last() =~= outs.take(k - 1));
        assert(outs.take(k).last() == outs[k - 1]);
        match outs[k - 1] {
            OutcomeView::Installed(ek) => {
                lemma_upsert(prev, ek);
                lemma_installed_name(deps, es, attempts, k - 1);
                assert forall|i: int| 0 <= i < k implies match #[trigger] outs[i] {
                    OutcomeView::Installed(e) => entry_named(apply_outcomes(es, outs.take(k)), entry_key(e))
                        == Some(e),
                    _ => true,
                } by {
                    lemma_installed_name(deps, es, attempts, i);
                    if i < k - 1 {
                        assert(name_key(deps[i].name) != name_key(deps[k - 1].name));
                    }
                }
            },
            _ => {},
        }
    } else {
        assert(outs.take(0) =~= Seq::<OutcomeView>::empty());
    }
}

proof fn lemma_apply_fixed(es: Seq<LockEntryView>, outs: Seq<OutcomeView>, k: int)
    requires
        entry_keys_unique(es),
        0 <= k <= outs.len(),
        forall|i: int|
            0 <= i < outs.len() ==> match #[trigger] outs[i] {
                OutcomeView::Installed(e) => entry_named(es, entry_key(e)) == Some(e),
                _ => true,
            },
    ensures
        apply_outcomes(es, outs.take(k)) == es,
    decreases k,
{
    if k > 0 {
        lemma_apply_fixed(es, outs, k - 1);
        assert(outs.take(k).drop_last() =~= outs.take(k - 1));
        assert(outs.take(k).last() == outs[k - 1]);
        match outs[k - 1] {
            OutcomeView::Installed(e) => {
                lemma_upsert(es, e);
            },
            _ => {},
        }
    } else {
        assert(outs.take(0) =~= Seq::<OutcomeView>::empty());
    }
}

/// Installing again, with the same resolutions and the same archive bytes
/// for every dependency, meets the lockfile that the first run wrote with
/// the very same outcomes: the same content hashes, no integrity failure,
/// and the identical lockfile.
pub proof fn rerun_is_stable(
    deps: Seq<DependencyView>,
    es0: Seq<LockEntryView>,
    attempts: Seq<Result<(Seq<char>, Seq<u8>), StepError>>,
    es1: Seq<LockEntryView>,
)
    requires
        entry_keys_unique(es0),
        keys_unique(deps),
        attempts.len() == deps.len(),
        run_result(es0, run_outcomes(deps, es0, attempts)) == Ok::<Seq<LockEntryView>, Seq<char>>(
            es1,
        ),
    ensures
        run_outcomes(deps, es1, attempts) == run_outcomes(deps, es0, attempts),
        run_result(es1, run_outcomes(deps, es1, attempts)) == Ok::<Seq<LockEntryView>, Seq<char>>(
            es1,
        ),
{
    let outs = run_outcomes(deps, es0, attempts);
    lemma_applied_entries(deps, es0, attempts, deps.len() as int);
    assert(outs.take(deps.len() as int) =~= outs);
    assert(es1 == apply_outcomes(es0, outs));
    let outs2 = run_outcomes(deps, es1, attempts);
    assert forall|i: int| 0 <= i < deps.len() implies #[trigger] outs2[i] == outs[i] by {
        lemma_no_mismatch(outs, i);
        match attempts[i] {
            Ok((version, bytes)) => {
                let hash = content_hash_of(bytes);
                assert(outs[i] == OutcomeView::Installed(
                    LockEntryView { name: deps[i].name, version, repo: deps[i].repo, hash, source: recorded_source(deps[i].source) },
                ));
            },
            Err(e) => {},
        }
    }
    assert(outs2 =~= outs);
    lemma_apply_fixed(es1, outs, deps.len() as int);
}

/// The entries whose name has not the key `key`, in order.
pub open spec fn entries_without_key(es: Seq<LockEntryView>, key: Seq<char>) -> Seq<LockEntryView>
    decreases es.len(),
{
    if es.len() == 0 {
        Seq::empty()
    } else {
        let prev = entries_without_key(es.drop_last(), key);
        if name_key(es.last().name) == key {
            prev
        } else {
            prev.push(es.last())
        }
    }
}

proof fn lemma_entries_without_key(es: Seq<LockEntryView>, key: Seq<char>)
    ensures
        forall|e: LockEntryView| #[trigger] entries_without_key(es, key).contains(e) ==> es.contains(e),
        entry_keys_unique(es) ==> entry_keys_unique(entries_without_key(es, key)),
    decreases es.len(),
{
    if es.len() > 0 {
        let rest = es.drop_last();
        lemma_entries_without_key(rest, key);
        let w = entries_without_key(es, key);
        let pw = entries_without_key(rest, key);
        assert forall|e: LockEntryView| #[trigger] w.contains(e) implies es.contains(e) by {
            let k = choose|k: int| 0 <= k < w.len() && w[k] == e;
            if k < pw.len() {
                assert(pw.contains(e));
                let m = choose|m: int| 0 <= m < rest.len() && rest[m] == e;
                assert(es[m] == e);
            } else {
                assert(es[es.len() - 1] == e);
            }
        }
        if entry_keys_unique(es) {
            assert(entry_keys_unique(rest));
            assert forall|i: int, j: int|
                0 <= i < w.len() && 0 <= j < w.len() && i != j implies entry_key(#[trigger] w[i]) != entry_key(
                #[trigger] w[j]) by {
                if i < pw.len() && j < pw.len() {
                } else if i == pw.len() {
                    assert(pw.contains(w[j]));
                    let m = choose|m: int| 0 <= m < rest.len() && rest[m] == w[j];
                    assert(es[m] == w[j]);
                    assert(entry_key(es[m]) != entry_key(es[es.len() - 1]));
                } else {
                    assert(pw.contains(w[i]));
                    let m = choose|m: int| 0 <= m < rest.len() && rest[m] == w[i];
                    assert(es[m] == w[i]);
                    assert(entry_key(es[m]) != entry_key(es[es.len() - 1]));
                }
            }
        }
    }
}

fn keep_other_entries(entries: &Vec<LockEntry>, key: &String) -> (r: Vec<LockEntry>)
    ensures
        entry_views(r@) == entries_without_key(entry_views(entries@), key@),
{
    let ghost es = entry_views(entries@);
    let mut out: Vec<LockEntry> = Vec::new();
    let mut i: usize = 0;
    assert(es.take(0) =~= Seq::<LockEntryView>::empty());
    while i < entries.len()
        invariant
            i <= entries.len(),
            es == entry_views(entries@),
            entry_views(out@) == entries_without_key(es.take(i as int), key@),
        decreases entries.len() - i,
    {
        assert(es.take(i as int + 1).drop_last() =~= es.take(i as int));
        assert(es.take(i as int + 1).last() == entries@[i as int]@);
        let k = key_of(entries[i].name.as_str());
        if k != *key {
            let ghost before = out@;
            let e = entries[i].copy();
            out.push(e);
            assert(entry_views(out@) =~= entry_views(before).push(entries@[i as int]@));
        }
        i = i + 1;
    }
    assert(es.take(entries.len() as int) =~= es);
    out
}

/// Removes a dependency from the manifest and its entry from the lockfile.
/// When the manifest has no dependency of that name, the result is
/// `NotFound` and neither changes.
pub fn remove_dependency(manifest: &mut Manifest, lock: &mut Lockfile, name: &str) -> (r: Result<
    (),
    ManifestError,
>)
    requires
        old(manifest).wf(),
        old(lock).wf(),
    ensures
        final(manifest).wf(),
        final(lock).wf(),
        r is Err <==> !has_key(old(manifest)@.dependencies, name_key(name@)),
        r is Err ==> r == Err::<(), ManifestError>(ManifestError::NotFound) && final(manifest)@
            == old(manifest)@ && final(lock)@ == old(lock)@,
        r is Ok ==> final(manifest)@.install_path == old(manifest)@.install_path,
        r is Ok ==> final(manifest)@.dependencies == without_key(old(manifest)@.dependencies, name_key(name@)),
        r is Ok ==> final(lock)@ == entries_without_key(old(lock)@, name_key(name@)),
{
    match manifest.remove(name) {
        Err(e) => Err(e),
        Ok(()) => {
            let key = key_of(name);
            let kept = keep_other_entries(&lock.entries, &key);
            proof {
                lemma_entries_without_key(old(lock)@, key@);
            }
            lock.entries = kept;
            Ok(())
        },
    }
}

} // verus!
