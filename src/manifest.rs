//! The manifest: the dependencies to install and where to install them.
//!
//! Dependency names are unique without regard to surrounding whitespace or
//! letter case: `add` updates a dependency of the same name in place,
//! `remove` drops it.

use vstd::prelude::*;
use crate::text::{copy_opt, opt_view};

verus! {

/// The characters of the Unicode property White_Space.
pub open spec fn is_white_space(c: char) -> bool {
    let u = c as u32;
    ||| 0x09 <= u <= 0x0d
    ||| u == 0x20
    ||| u == 0x85
    ||| u == 0xa0
    ||| u == 0x1680
    ||| 0x2000 <= u <= 0x200a
    ||| u == 0x2028
    ||| u == 0x2029
    ||| u == 0x202f
    ||| u == 0x205f
    ||| u == 0x3000
}

pub open spec fn trim_start(s: Seq<char>) -> Seq<char>
    decreases s.len(),
{
    if s.len() > 0 && is_white_space(s[0]) {
        trim_start(s.drop_first())
    } else {
        s
    }
}

pub open spec fn trim_end(s: Seq<char>) -> Seq<char>
    decreases s.len(),
{
    if s.len() > 0 && is_white_space(s.last()) {
        trim_end(s.drop_last())
    } else {
        s
    }
}

/// A text without its leading and trailing white space.
pub open spec fn trimmed(s: Seq<char>) -> Seq<char> {
    trim_end(trim_start(s))
}

proof fn lemma_trim_start(s: Seq<char>)
    ensures
        trim_start(s).len() == 0 || !is_white_space(trim_start(s)[0]),
    decreases s.len(),
{
    if s.len() > 0 && is_white_space(s[0]) {
        lemma_trim_start(s.drop_first());
    }
}

proof fn lemma_trim_end(s: Seq<char>)
    ensures
        trim_end(s).len() <= s.len(),
        trim_end(s) == s.take(trim_end(s).len() as int),
        trim_end(s).len() == 0 || !is_white_space(trim_end(s).last()),
    decreases s.len(),
{
    if s.len() > 0 && is_white_space(s.last()) {
        lemma_trim_end(s.drop_last());
        let t = trim_end(s.drop_last());
        assert(s.drop_last().take(t.len() as int) =~= s.take(t.len() as int));
    } else {
        assert(s.take(s.len() as int) =~= s);
    }
}

/// Trimming twice is trimming once.
pub proof fn lemma_trimmed_idempotent(s: Seq<char>)
    ensures
        trimmed(trimmed(s)) == trimmed(s),
{
    let t = trim_start(s);
    let u = trim_end(t);
    lemma_trim_start(s);
    lemma_trim_end(t);
    if u.len() > 0 {
        assert(u[0] == t[0]);
    }
    assert(trim_start(u) == u);
    assert(trim_end(u) == u);
}

/// What `str::to_lowercase` makes of a text.
pub uninterp spec fn lowercased(s: Seq<char>) -> Seq<char>;

/// Relies on `str::trim`: leading and trailing white space removed, white
/// space being the Unicode property White_Space.
#[verifier::external_body]
pub(crate) fn trim(s: &str) -> (r: String)
    ensures
        r@ == trimmed(s@),
{
    s.trim().to_string()
}

/// Relies on `str::to_lowercase`.
#[verifier::external_body]
fn lowercase(s: &str) -> (r: String)
    ensures
        r@ == lowercased(s@),
{
    s.to_lowercase()
}

/// The key under which a name is unique: trimmed and in lower case.
pub open spec fn name_key(name: Seq<char>) -> Seq<char> {
    lowercased(trimmed(name))
}

/// The key of a name.
pub fn key_of(name: &str) -> (r: String)
    ensures
        r@ == name_key(name@),
{
    let t = trim(name);
    lowercase(t.as_str())
}

pub struct Dependency {
    pub name: String,
    /// `latest`, an exact semantic version, or a range expression.
    pub version: String,
    /// The repository, as `owner/name`.
    pub repo: String,
    /// The environment variable that holds a credential, if one is needed.
    pub token_env: Option<String>,
    /// The kind of source; absent means the only kind there is.
    pub source: Option<String>,
}

pub ghost struct DependencyView {
    pub name: Seq<char>,
    pub version: Seq<char>,
    pub repo: Seq<char>,
    pub token_env: Option<Seq<char>>,
    pub source: Option<Seq<char>>,
}

impl View for Dependency {
    type V = DependencyView;

    open spec fn view(&self) -> DependencyView {
        DependencyView {
            name: self.name@,
            version: self.version@,
            repo: self.repo@,
            token_env: opt_view(self.token_env),
            source: opt_view(self.source),
        }
    }
}

impl Dependency {
    pub fn copy(&self) -> (r: Dependency)
        ensures
            r@ == self@,
    {
        Dependency {
            name: self.name.clone(),
            version: self.version.clone(),
            repo: self.repo.clone(),
            token_env: copy_opt(&self.token_env),
            source: copy_opt(&self.source),
        }
    }
}

pub struct Manifest {
    /// Where plugins are installed; absent means the project root.
    pub install_path: Option<String>,
    pub dependencies: Vec<Dependency>,
}

pub ghost struct ManifestView {
    pub install_path: Option<Seq<char>>,
    pub dependencies: Seq<DependencyView>,
}

pub open spec fn dependency_views(v: Seq<Dependency>) -> Seq<DependencyView> {
    Seq::new(v.len(), |i: int| v[i]@)
}

impl View for Manifest {
    type V = ManifestView;

    open spec fn view(&self) -> ManifestView {
        ManifestView {
            install_path: opt_view(self.install_path),
            dependencies: dependency_views(self.dependencies@),
        }
    }
}

/// No two dependencies share a key.
pub open spec fn keys_unique(deps: Seq<DependencyView>) -> bool {
    forall|i: int, j: int|
        0 <= i < deps.len() && 0 <= j < deps.len() && i != j ==> name_key(#[trigger] deps[i].name)
            != name_key(#[trigger] deps[j].name)
}

/// The dependencies whose key is not `key`, in order.
pub open spec fn without_key(deps: Seq<DependencyView>, key: Seq<char>) -> Seq<DependencyView>
    decreases deps.len(),
{
    if deps.len() == 0 {
        Seq::empty()
    } else {
        let prev = without_key(deps.drop_last(), key);
        if name_key(deps.last().name) == key {
            prev
        } else {
            prev.push(deps.last())
        }
    }
}

pub open spec fn has_key(deps: Seq<DependencyView>, key: Seq<char>) -> bool {
    exists|i: int| 0 <= i < deps.len() && name_key(#[trigger] deps[i].name) == key
}

/// The dependency that `add` records: its texts trimmed, no source kind.
pub open spec fn added_dependency(
    name: Seq<char>,
    version: Seq<char>,
    repo: Seq<char>,
    token_env: Option<Seq<char>>,
) -> DependencyView {
    DependencyView {
        name: trimmed(name),
        version: trimmed(version),
        repo: trimmed(repo),
        token_env,
        source: None,
    }
}

/// Where the dependency under a key stands.
pub open spec fn key_position(deps: Seq<DependencyView>, key: Seq<char>) -> int {
    choose|i: int| 0 <= i < deps.len() && name_key(#[trigger] deps[i].name) == key
}

/// The dependency of a manifest under a key.
pub open spec fn lookup(deps: Seq<DependencyView>, key: Seq<char>) -> Option<DependencyView> {
    if has_key(deps, key) {
        Some(deps[key_position(deps, key)])
    } else {
        None
    }
}

/// `deps` with `d` in place of the dependency under `key`, or with `d` appended.
pub open spec fn put_dependency(deps: Seq<DependencyView>, key: Seq<char>, d: DependencyView) -> Seq<
    DependencyView,
> {
    if has_key(deps, key) {
        deps.update(key_position(deps, key), d)
    } else {
        deps.push(d)
    }
}

proof fn lemma_without_key(deps: Seq<DependencyView>, key: Seq<char>)
    ensures
        !has_key(without_key(deps, key), key),
        forall|d: DependencyView| #[trigger] without_key(deps, key).contains(d) ==> deps.contains(d),
        without_key(deps, key).len() <= deps.len(),
        !has_key(deps, key) ==> without_key(deps, key) == deps,
        keys_unique(deps) ==> keys_unique(without_key(deps, key)),
    decreases deps.len(),
{
    if deps.len() > 0 {
        let rest = deps.drop_last();
        lemma_without_key(rest, key);
        let w = without_key(deps, key);
        let pw = without_key(rest, key);
        assert forall|d: DependencyView| #[trigger] w.contains(d) implies deps.contains(d) by {
            let k = choose|k: int| 0 <= k < w.len() && w[k] == d;
            if k < pw.len() {
                assert(pw.contains(d));
                let m = choose|m: int| 0 <= m < rest.len() && rest[m] == d;
                assert(deps[m] == d);
            } else {
                assert(deps[deps.len() - 1] == d);
            }
        }
        if has_key(w, key) {
            let k = choose|k: int| 0 <= k < w.len() && name_key(#[trigger] w[k].name) == key;
            if k < pw.len() {
                assert(name_key(pw[k].name) == key);
            }
        }
        if !has_key(deps, key) {
            assert(!has_key(rest, key)) by {
                if has_key(rest, key) {
                    let k = choose|k: int| 0 <= k < rest.len() && name_key(#[trigger] rest[k].name) == key;
                    assert(name_key(deps[k].name) == key);
                }
            }
            assert(name_key(deps[deps.len() - 1].name) != key);
            assert(deps =~= rest.push(deps.last()));
        }
        if keys_unique(deps) {
            assert(keys_unique(rest));
            assert forall|i: int, j: int|
                0 <= i < w.len() && 0 <= j < w.len() && i != j implies name_key(#[trigger] w[i].name)
                != name_key(#[trigger] w[j].name) by {
                if i < pw.len() && j < pw.len() {
                } else if i == pw.len() {
                    assert(pw.contains(w[j]));
                    let m = choose|m: int| 0 <= m < rest.len() && rest[m] == w[j];
                    assert(deps[m] == w[j]);
                    assert(name_key(deps[m].name) != name_key(deps[deps.len() - 1].name));
                } else {
                    assert(pw.contains(w[i]));
                    let m = choose|m: int| 0 <= m < rest.len() && rest[m] == w[i];
                    assert(deps[m] == w[i]);
                    assert(name_key(deps[m].name) != name_key(deps[deps.len() - 1].name));
                }
            }
        }
    }
}

proof fn lemma_lookup_at(deps: Seq<DependencyView>, i: int)
    requires
        keys_unique(deps),
        0 <= i < deps.len(),
    ensures
        has_key(deps, name_key(deps[i].name)),
        key_position(deps, name_key(deps[i].name)) == i,
        lookup(deps, name_key(deps[i].name)) == Some(deps[i]),
{
    let key = name_key(deps[i].name);
    assert(has_key(deps, key));
    let c = key_position(deps, key);
    if c != i {
        assert(name_key(deps[c].name) != name_key(deps[i].name));
    }
}

/// Adding a dependency and reading the manifest back: under its name the
/// dependency has exactly the fields given, and every other name reads as
/// before.
pub proof fn added_dependency_reads_back(
    before: Seq<DependencyView>,
    name: Seq<char>,
    version: Seq<char>,
    repo: Seq<char>,
    token_env: Option<Seq<char>>,
)
    requires
        keys_unique(before),
    ensures
        ({
            let added = added_dependency(name, version, repo, token_env);
            let after = put_dependency(before, name_key(name), added);
            &&& keys_unique(after)
            &&& lookup(after, name_key(name)) == Some(added)
            &&& forall|k: Seq<char>| k != name_key(name) ==> #[trigger] lookup(after, k) == lookup(before, k)
        }),
{
    lemma_trimmed_idempotent(name);
    let key = name_key(name);
    let added = added_dependency(name, version, repo, token_env);
    let after = put_dependency(before, key, added);
    let p = if has_key(before, key) { key_position(before, key) } else { before.len() as int };
    assert(forall|i: int| 0 <= i < after.len() && i != p ==> after[i] == before[i]);
    assert(after[p] == added);
    assert forall|i: int, j: int|
        0 <= i < after.len() && 0 <= j < after.len() && i != j implies name_key(#[trigger] after[i].name)
        != name_key(#[trigger] after[j].name) by {
        if i != p && j != p {
            assert(name_key(before[i].name) != name_key(before[j].name));
        } else if i == p {
            if has_key(before, key) {
                assert(name_key(before[p].name) != name_key(before[j].name));
            } else {
                assert(name_key(before[j].name) != key);
            }
        } else {
            if has_key(before, key) {
                assert(name_key(before[i].name) != name_key(before[p].name));
            } else {
                assert(name_key(before[i].name) != key);
            }
        }
    }
    lemma_lookup_at(after, p);
    assert forall|k: Seq<char>| k != key implies #[trigger] lookup(after, k) == lookup(before, k) by {
        if has_key(before, k) {
            let c = key_position(before, k);
            assert(c != p);
            lemma_lookup_at(before, c);
            lemma_lookup_at(after, c);
        } else if has_key(after, k) {
            let c = key_position(after, k);
            assert(c != p);
            assert(name_key(before[c].name) == k);
        }
    }
}

/// Keeps the dependencies whose key is not `key`.
fn keep_other_keys(deps: &Vec<Dependency>, key: &String) -> (r: Vec<Dependency>)
    ensures
        dependency_views(r@) == without_key(dependency_views(deps@), key@),
{
    let ghost ds = dependency_views(deps@);
    let mut out: Vec<Dependency> = Vec::new();
    let mut i: usize = 0;
    assert(ds.take(0) =~= Seq::<DependencyView>::empty());
    while i < deps.len()
        invariant
            i <= deps.len(),
            ds == dependency_views(deps@),
            dependency_views(out@) == without_key(ds.take(i as int), key@),
        decreases deps.len() - i,
    {
        assert(ds.take(i as int + 1).drop_last() =~= ds.take(i as int));
        assert(ds.take(i as int + 1).last() == deps@[i as int]@);
        let k = key_of(deps[i].name.as_str());
        if k != *key {
            let ghost before = out@;
            let d = deps[i].copy();
            out.push(d);
            assert(dependency_views(out@) =~= dependency_views(before).push(deps@[i as int]@));
        }
        i = i + 1;
    }
    assert(ds.take(deps.len() as int) =~= ds);
    out
}

fn holds_key(deps: &Vec<Dependency>, key: &String) -> (r: bool)
    ensures
        r == has_key(dependency_views(deps@), key@),
{
    let mut i: usize = 0;
    while i < deps.len()
        invariant
            i <= deps.len(),
            forall|k: int| 0 <= k < i ==> name_key(#[trigger] dependency_views(deps@)[k].name) != key@,
        decreases deps.len() - i,
    {
        let k = key_of(deps[i].name.as_str());
        if k == *key {
            assert(name_key(dependency_views(deps@)[i as int].name) == key@);
            return true;
        }
        i = i + 1;
    }
    false
}

/// The kinds of source that archives can come from.
#[derive(Clone, Copy, Debug, PartialEq, Eq, Structural)]
pub enum SourceKind {
    /// Tagged releases of a GitHub repository.
    Github,
}

pub open spec fn github_word() -> Seq<char> {
    seq!['g', 'i', 't', 'h', 'u', 'b']
}

/// The source kind that a dependency names: none named means GitHub; any
/// other name than `github` is not supported.
pub open spec fn source_kind_of(source: Option<Seq<char>>) -> Option<SourceKind> {
    match source {
        None => Some(SourceKind::Github),
        Some(s) => if s == github_word() {
            Some(SourceKind::Github)
        } else {
            None
        },
    }
}

impl Dependency {
    /// The kind of source this dependency comes from, if it is supported.
    pub fn source_kind(&self) -> (r: Option<SourceKind>)
        ensures
            r == source_kind_of(self@.source),
    {
        match &self.source {
            None => Some(SourceKind::Github),
            Some(s) => {
                let chars = crate::text::chars_of(s.as_str());
                let word = vec!['g', 'i', 't', 'h', 'u', 'b'];
                if crate::text::same_chars(&chars, &word) {
                    Some(SourceKind::Github)
                } else {
                    None
                }
            },
        }
    }
}

#[derive(Clone, Copy, Debug, PartialEq, Eq, Structural)]
pub enum ManifestError {
    /// No dependency of that name.
    NotFound,
}

impl Manifest {
    pub open spec fn wf(&self) -> bool {
        keys_unique(self@.dependencies)
    }

    /// Whether no two dependencies share a name (up to case and surrounding
    /// whitespace): what every other operation of a manifest relies on.
    pub fn keys_are_unique(&self) -> (r: bool)
        ensures
            r == self.wf(),
    {
        let n = self.dependencies.len();
        let mut keys: Vec<String> = Vec::new();
        let mut i: usize = 0;
        while i < n
            invariant
                i <= n,
                n == self.dependencies.len(),
                keys.len() == i,
                forall|k: int| 0 <= k < i ==> (#[trigger] keys@[k])@ == name_key(self@.dependencies[k].name),
            decreases n - i,
        {
            keys.push(key_of(self.dependencies[i].name.as_str()));
            i = i + 1;
        }
        let mut a: usize = 0;
        while a < n
            invariant
                a <= n,
                n == self.dependencies.len(),
                keys.len() == n,
                forall|k: int| 0 <= k < n ==> (#[trigger] keys@[k])@ == name_key(self@.dependencies[k].name),
                forall|x: int, y: int|
                    0 <= x < a && 0 <= y < n && x != y ==> name_key(#[trigger] self@.dependencies[x].name)
                        != name_key(#[trigger] self@.dependencies[y].name),
            decreases n - a,
        {
            let mut b: usize = 0;
            while b < n
                invariant
                    a < n,
                    b <= n,
                    n == self.dependencies.len(),
                    keys.len() == n,
                    forall|k: int| 0 <= k < n ==> (#[trigger] keys@[k])@ == name_key(self@.dependencies[k].name),
                    forall|x: int, y: int|
                        0 <= x < a && 0 <= y < n && x != y ==> name_key(#[trigger] self@.dependencies[x].name)
                            != name_key(#[trigger] self@.dependencies[y].name),
                    forall|y: int|
                        0 <= y < b && a != y ==> name_key(self@.dependencies[a as int].name) != name_key(
                            #[trigger] self@.dependencies[y].name,
                        ),
                decreases n - b,
            {
                if a != b && keys[a] == keys[b] {
                    assert(name_key(self@.dependencies[a as int].name) == name_key(self@.dependencies[b as int].name));
                    return false;
                }
                b = b + 1;
            }
            a = a + 1;
        }
        true
    }

    /// An empty manifest that installs into the project root.
    pub fn new() -> (r: Manifest)
        ensures
            r@.install_path == Some("."@),
            r@.dependencies.len() == 0,
            r.wf(),
    {
        Manifest { install_path: Some(String::from_str(".")), dependencies: Vec::new() }
    }

    /// Adds a dependency, or updates in place the one of the same name;
    /// true when one was updated.
    pub fn add(
        &mut self,
        name: &str,
        version: &str,
        repo: &str,
        token_env: Option<String>,
    ) -> (r: bool)
        requires
            old(self).wf(),
        ensures
            final(self).wf(),
            name_key(trimmed(name@)) == name_key(name@),
            r == has_key(old(self)@.dependencies, name_key(name@)),
            final(self)@.install_path == old(self)@.install_path,
            final(self)@.dependencies == put_dependency(
                old(self)@.dependencies,
                name_key(name@),
                added_dependency(name@, version@, repo@, opt_view(token_env)),
            ),
    {
        let dep = Dependency {
            name: trim(name),
            version: trim(version),
            repo: trim(repo),
            token_env,
            source: None,
        };
        let ghost ds = old(self)@.dependencies;
        let ghost d = dep@;
        proof {
            lemma_trimmed_idempotent(name@);
        }
        assert(name_key(d.name) == name_key(name@));
        match self.find(name) {
            Some(i) => {
                self.dependencies.set(i, dep);
                assert(self@.dependencies =~= ds.update(i as int, d));
                proof {
                    assert forall|a: int, b: int|
                        0 <= a < ds.len() && 0 <= b < ds.len() && a != b implies name_key(
                        #[trigger] self@.dependencies[a].name,
                    ) != name_key(#[trigger] self@.dependencies[b].name) by {
                        assert(name_key(ds[a].name) != name_key(ds[b].name));
                    }
                }
                true
            },
            None => {
                self.dependencies.push(dep);
                assert(self@.dependencies =~= ds.push(d));
                proof {
                    assert forall|a: int, b: int|
                        0 <= a < ds.len() + 1 && 0 <= b < ds.len() + 1 && a != b implies name_key(
                        #[trigger] self@.dependencies[a].name,
                    ) != name_key(#[trigger] self@.dependencies[b].name) by {
                        if a < ds.len() && b < ds.len() {
                            assert(name_key(ds[a].name) != name_key(ds[b].name));
                        } else if a < ds.len() {
                            assert(name_key(ds[a].name) != name_key(name@));
                        } else {
                            assert(name_key(ds[b].name) != name_key(name@));
                        }
                    }
                }
                false
            },
        }
    }

    /// Removes the dependency of that name; `NotFound`, with nothing
    /// changed, when there is none.
    pub fn remove(&mut self, name: &str) -> (r: Result<(), ManifestError>)
        requires
            old(self).wf(),
        ensures
            final(self).wf(),
            final(self)@.install_path == old(self)@.install_path,
            r is Err <==> !has_key(old(self)@.dependencies, name_key(name@)),
            r is Err ==> r == Err::<(), ManifestError>(ManifestError::NotFound) && final(self)@
                == old(self)@,
            r is Ok ==> final(self)@.dependencies == without_key(
                old(self)@.dependencies,
                name_key(name@),
            ),
    {
        let key = key_of(name);
        if !holds_key(&self.dependencies, &key) {
            return Err(ManifestError::NotFound);
        }
        let kept = keep_other_keys(&self.dependencies, &key);
        proof {
            lemma_without_key(old(self)@.dependencies, key@);
        }
        self.dependencies = kept;
        Ok(())
    }

    /// The dependency of that name, if any.
    pub fn find(&self, name: &str) -> (r: Option<usize>)
        requires
            self.wf(),
        ensures
            r is None <==> !has_key(self@.dependencies, name_key(name@)),
            r matches Some(i) ==> i < self.dependencies.len() && key_position(
                self@.dependencies,
                name_key(name@),
            ) == i && lookup(self@.dependencies, name_key(name@)) == Some(self@.dependencies[i as int]),
    {
        let key = key_of(name);
        let mut i: usize = 0;
        while i < self.dependencies.len()
            invariant
                i <= self.dependencies.len(),
                self.wf(),
                key@ == name_key(name@),
                forall|k: int|
                    0 <= k < i ==> name_key(#[trigger] self@.dependencies[k].name) != key@,
            decreases self.dependencies.len() - i,
        {
            let k = key_of(self.dependencies[i].name.as_str());
            if k == key {
                let ghost ds = self@.dependencies;
                assert(name_key(ds[i as int].name) == key@);
                assert(has_key(ds, key@));
                let ghost c = choose|c: int| 0 <= c < ds.len() && name_key(#[trigger] ds[c].name) == key@;
                assert(c == i) by {
                    if c != i {
                        assert(name_key(ds[c].name) != name_key(ds[i as int].name));
                    }
                }
                return Some(i);
            }
            i = i + 1;
        }
        None
    }
}

} // verus!
