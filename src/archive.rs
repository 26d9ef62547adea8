//! Planning the extraction of an archive.
//!
//! Archives generated from a tagged source tree put every entry under one
//! synthetic root folder (`<repo>-<version>/`). Each entry's stored path loses
//! its first segment; what remains says where it goes below the destination.

use vstd::prelude::*;
use crate::text::{after_first, opt_view, chars_of, rest_after_first, segments, slice, string_of};

verus! {

/// The archive reader of the `zip` crate, carried through opaque.
#[verifier::external_type_specification]
#[verifier::external_body]
#[verifier::reject_recursive_types(R)]
pub struct ExZipArchive<R>(zip::ZipArchive<R>);

/// The error type of the `zip` crate, carried through opaque.
#[verifier::external_type_specification]
#[verifier::external_body]
pub struct ExZipError(zip::result::ZipError);

/// `std::io::Cursor`, the in-memory reader that the archive is read through.
#[verifier::external_type_specification]
#[verifier::external_body]
#[verifier::reject_recursive_types(T)]
pub struct ExCursor<T>(std::io::Cursor<T>);

#[derive(Clone, Copy, Debug, PartialEq, Eq, Structural)]
pub enum ArchiveError {
    /// The bytes are not a readable ZIP archive.
    Malformed,
}

/// Where one archive entry goes, relative to the destination directory.
#[derive(Debug, PartialEq, Eq)]
pub enum EntryPlan {
    /// The root marker or an entry with nothing below the root: nothing to write.
    Skip,
    /// An entry that cannot be read or placed safely; it is left out.
    Invalid,
    /// A directory to create, with every missing parent.
    Directory(String),
    /// A file to write, after creating its parent directories.
    File(String),
}

pub ghost enum EntryPlanView {
    Skip,
    Invalid,
    Directory(Seq<char>),
    File(Seq<char>),
}

impl View for EntryPlan {
    type V = EntryPlanView;

    open spec fn view(&self) -> EntryPlanView {
        match self {
            EntryPlan::Skip => EntryPlanView::Skip,
            EntryPlan::Invalid => EntryPlanView::Invalid,
            EntryPlan::Directory(p) => EntryPlanView::Directory(p@),
            EntryPlan::File(p) => EntryPlanView::File(p@),
        }
    }
}

pub open spec fn parent_segment() -> Seq<char> {
    seq!['.', '.']
}

/// Both `/` and `\` separate path segments on some platform.
pub open spec fn is_separator(c: char) -> bool {
    c == '/' || c == '\\'
}

/// `s` has a `..` segment starting at `k`, either character read as a separator.
pub open spec fn parent_at(s: Seq<char>, k: int) -> bool {
    &&& 0 <= k && k + 2 <= s.len()
    &&& s[k] == '.' && s[k + 1] == '.'
    &&& (k == 0 || is_separator(s[k - 1]))
    &&& (k + 2 == s.len() || is_separator(s[k + 2]))
}

pub open spec fn climbs(s: Seq<char>) -> bool {
    exists|k: int| parent_at(s, k)
}

/// A path that could leave the destination or cannot be written: absolute,
/// climbing with a `..` segment, or holding a NUL character.
pub open spec fn unsafe_path(s: Seq<char>) -> bool {
    ||| (s.len() > 0 && is_separator(s[0]))
    ||| climbs(s)
    ||| s.contains('\0')
}

/// The plan for what remains of an entry's path once its root folder is gone.
pub open spec fn rest_plan(rest: Seq<char>) -> EntryPlanView {
    if rest.len() == 0 {
        EntryPlanView::Skip
    } else if unsafe_path(rest) {
        EntryPlanView::Invalid
    } else if rest.last() == '/' {
        EntryPlanView::Directory(rest.drop_last())
    } else {
        EntryPlanView::File(rest)
    }
}

/// The plan for an entry stored under `name`: invalid when the stored path
/// as a whole is unsafe, otherwise decided by what follows its first segment.
pub open spec fn entry_plan(name: Seq<char>) -> EntryPlanView {
    if unsafe_path(name) {
        EntryPlanView::Invalid
    } else {
        match after_first(name, '/') {
            Some(rest) => rest_plan(rest),
            None => EntryPlanView::Skip,
        }
    }
}

/// The plan for an entry that may not have been readable.
pub open spec fn read_entry_plan(name: Option<Seq<char>>) -> EntryPlanView {
    match name {
        Some(n) => entry_plan(n),
        None => EntryPlanView::Invalid,
    }
}

fn holds_char(s: &Vec<char>, c: char) -> (r: bool)
    ensures
        r == s@.contains(c),
{
    let mut i: usize = 0;
    while i < s.len()
        invariant
            i <= s.len(),
            forall|k: int| 0 <= k < i ==> s@[k] != c,
        decreases s.len() - i,
    {
        if s[i] == c {
            assert(s@[i as int] == c);
            return true;
        }
        i = i + 1;
    }
    false
}

fn is_unsafe(s: &Vec<char>) -> (r: bool)
    ensures
        r == unsafe_path(s@),
{
    if s.len() > 0 && (s[0] == '/' || s[0] == '\\') {
        return true;
    }
    if holds_char(s, '\0') {
        return true;
    }
    let mut k: usize = 0;
    while k < s.len() && s.len() - k >= 2
        invariant
            k <= s.len(),
            forall|j: int| 0 <= j < k ==> !parent_at(s@, j),
        decreases s.len() - k,
    {
        if s[k] == '.' && s[k + 1] == '.' && (k == 0 || s[k - 1] == '/' || s[k - 1] == '\\') && (k
            + 2 == s.len() || s[k + 2] == '/' || s[k + 2] == '\\') {
            assert(parent_at(s@, k as int));
            return true;
        }
        k = k + 1;
    }
    assert(!climbs(s@));
    false
}

/// The plan for an entry stored under `name`.
pub fn plan_entry(name: &str) -> (r: EntryPlan)
    ensures
        r@ == entry_plan(name@),
{
    let chars = chars_of(name);
    if is_unsafe(&chars) {
        return EntryPlan::Invalid;
    }
    match rest_after_first(&chars, '/') {
        None => EntryPlan::Skip,
        Some(rest) => {
            if rest.len() == 0 {
                EntryPlan::Skip
            } else if is_unsafe(&rest) {
                EntryPlan::Invalid
            } else if rest[rest.len() - 1] == '/' {
                let dir = slice(&rest, 0, rest.len() - 1);
                assert(dir@ =~= rest@.drop_last());
                EntryPlan::Directory(string_of(dir.as_slice()))
            } else {
                EntryPlan::File(string_of(rest.as_slice()))
            }
        },
    }
}

/// The plans `p` are those of the entry names `ns`, one for one.
pub open spec fn plans_of(p: Seq<EntryPlan>, ns: Seq<Option<Seq<char>>>) -> bool {
    &&& p.len() == ns.len()
    &&& forall|i: int| 0 <= i < ns.len() ==> (#[trigger] p[i])@ == read_entry_plan(ns[i])
}

/// The stored names of a vector of possibly unreadable entries.
pub open spec fn name_views(v: Seq<Option<String>>) -> Seq<Option<Seq<char>>> {
    Seq::new(v.len(), |i: int| opt_view(v[i]))
}

/// The plans for the entries of an archive, in the archive's order; an entry
/// that could not be read is planned as invalid.
pub fn plan_extraction(names: &Vec<Option<String>>) -> (r: Vec<EntryPlan>)
    ensures
        plans_of(r@, name_views(names@)),
{
    let mut out: Vec<EntryPlan> = Vec::new();
    let mut i: usize = 0;
    while i < names.len()
        invariant
            i <= names.len(),
            out.len() == i,
            forall|k: int| 0 <= k < i ==> (#[trigger] out@[k])@ == read_entry_plan(opt_view(names@[k])),
        decreases names.len() - i,
    {
        let plan = match &names[i] {
            Some(n) => plan_entry(n.as_str()),
            None => EntryPlan::Invalid,
        };
        out.push(plan);
        i = i + 1;
    }
    out
}

/// What the `zip` crate reads from an archive's bytes: nothing when
/// `ZipArchive::new` rejects them, otherwise each entry's stored name, or
/// `None` for an entry whose local header cannot be reached.
pub uninterp spec fn zip_entries(bytes: Seq<u8>) -> Option<Seq<Option<Seq<char>>>>;

/// The entries that an opened archive holds, as `zip_entries` describes them.
pub uninterp spec fn archive_names(archive: zip::ZipArchive<std::io::Cursor<Vec<u8>>>) -> Seq<
    Option<Seq<char>>,
>;

/// Relies on `zip::ZipArchive::new` over an in-memory cursor: it reads the
/// central directory, or reports why it cannot.
#[verifier::external_body]
fn open_archive(bytes: &[u8]) -> (r: Result<
    zip::ZipArchive<std::io::Cursor<Vec<u8>>>,
    zip::result::ZipError,
>)
    ensures
        match r {
            Ok(a) => zip_entries(bytes@) == Some(archive_names(a)),
            Err(_) => zip_entries(bytes@) is None,
        },
{
    zip::ZipArchive::new(std::io::Cursor::new(bytes.to_vec()))
}

/// Relies on `zip::ZipArchive::len`: the number of entries.
#[verifier::external_body]
fn entry_count(archive: &zip::ZipArchive<std::io::Cursor<Vec<u8>>>) -> (r: usize)
    ensures
        r == archive_names(*archive).len(),
{
    archive.len()
}

/// Relies on `zip::ZipArchive::by_index_raw` and `ZipFile::name`: the stored
/// path of an entry, or the error met on the way to its local header. It
/// reads no content and leaves the entries as they are.
#[verifier::external_body]
fn entry_name(archive: &mut zip::ZipArchive<std::io::Cursor<Vec<u8>>>, index: usize) -> (r: Result<
    String,
    zip::result::ZipError,
>)
    requires
        index < archive_names(*old(archive)).len(),
    ensures
        archive_names(*final(archive)) == archive_names(*old(archive)),
        match r {
            Ok(s) => archive_names(*old(archive))[index as int] == Some(s@),
            Err(_) => archive_names(*old(archive))[index as int] is None,
        },
{
    match archive.by_index_raw(index) {
        Ok(f) => Ok(f.name().to_string()),
        Err(e) => Err(e),
    }
}

/// The stored paths of an archive's entries in order, `None` for an entry
/// that cannot be read; `Malformed` when the bytes are no archive.
pub fn archive_entry_names(bytes: &[u8]) -> (r: Result<Vec<Option<String>>, ArchiveError>)
    ensures
        match zip_entries(bytes@) {
            None => r == Err::<Vec<Option<String>>, ArchiveError>(ArchiveError::Malformed),
            Some(ns) => r matches Ok(v) && name_views(v@) == ns,
        },
{
    let mut archive = match open_archive(bytes) {
        Ok(a) => a,
        Err(_) => return Err(ArchiveError::Malformed),
    };
    let ghost ns = archive_names(archive);
    let n = entry_count(&archive);
    let mut names: Vec<Option<String>> = Vec::new();
    let mut i: usize = 0;
    while i < n
        invariant
            i <= n,
            n == ns.len(),
            archive_names(archive) == ns,
            zip_entries(bytes@) == Some(ns),
            names.len() == i,
            forall|k: int| 0 <= k < i ==> opt_view(#[trigger] names@[k]) == ns[k],
        decreases n - i,
    {
        let name = match entry_name(&mut archive, i) {
            Ok(s) => Some(s),
            Err(_) => None,
        };
        names.push(name);
        i = i + 1;
    }
    assert(name_views(names@) =~= ns);
    Ok(names)
}

/// The extraction plan of an archive's bytes.
pub fn archive_plan(bytes: &[u8]) -> (r: Result<Vec<EntryPlan>, ArchiveError>)
    ensures
        match zip_entries(bytes@) {
            None => r == Err::<Vec<EntryPlan>, ArchiveError>(ArchiveError::Malformed),
            Some(ns) => r matches Ok(p) && plans_of(p@, ns),
        },
{
    match archive_entry_names(bytes) {
        Ok(names) => Ok(plan_extraction(&names)),
        Err(e) => Err(e),
    }
}

proof fn lemma_after_root(x: Seq<char>, rest: Seq<char>)
    requires
        !x.contains('/'),
    ensures
        after_first(x + seq!['/'] + rest, '/') == Some(rest),
    decreases x.len(),
{
    let name = x + seq!['/'] + rest;
    if x.len() == 0 {
        assert(name.drop_first() =~= rest);
    } else {
        assert(name[0] == x[0]);
        assert(!x.drop_first().contains('/')) by {
            if x.drop_first().contains('/') {
                let k = choose|k: int| 0 <= k < x.drop_first().len() && x.drop_first()[k] == '/';
                assert(x[k + 1] == '/');
            }
        }
        lemma_after_root(x.drop_first(), rest);
        assert(name.drop_first() =~= x.drop_first() + seq!['/'] + rest);
    }
}

/// The path that a plan places something at, if any.
pub open spec fn planned_path(p: EntryPlanView) -> Option<Seq<char>> {
    match p {
        EntryPlanView::Directory(d) => Some(d),
        EntryPlanView::File(f) => Some(f),
        _ => None,
    }
}

/// A root folder name: one non-empty segment that is not `..`, holding no
/// separator and no NUL character.
pub open spec fn plain_segment(x: Seq<char>) -> bool {
    &&& x.len() > 0
    &&& !x.contains('/')
    &&& !x.contains('\\')
    &&& !x.contains('\0')
    &&& x != parent_segment()
}

proof fn lemma_unsafe_in_rest(x: Seq<char>, rest: Seq<char>)
    requires
        plain_segment(x),
        unsafe_path(x + seq!['/'] + rest),
    ensures
        rest.len() > 0,
        unsafe_path(rest),
{
    let name = x + seq!['/'] + rest;
    let n = x.len() as int;
    assert(forall|i: int| 0 <= i < n ==> name[i] == x[i]);
    assert(name[n] == '/');
    assert(forall|j: int| 0 <= j < rest.len() ==> name[n + 1 + j] == rest[j]);
    assert(!is_separator(name[0])) by {
        if is_separator(name[0]) {
            assert(x.contains(x[0]));
        }
    }
    if name.contains('\0') {
        let k = choose|k: int| 0 <= k < name.len() && name[k] == '\0';
        if k < n {
            assert(x.contains(x[k]));
        }
        assert(rest[k - n - 1] == '\0');
        assert(rest.contains('\0'));
    } else {
        let k = choose|k: int| parent_at(name, k);
        if k < n {
            assert(k + 1 != n);
            if k > 0 {
                assert(x.contains(x[k - 1]));
            }
            if k + 2 < n {
                assert(x.contains(x[k + 2]));
            }
            assert(k == 0 && n == 2);
            assert(x =~= parent_segment());
        } else {
            assert(k > n);
            assert(parent_at(rest, k - n - 1));
        }
    }
}

/// A stored path that is absolute, climbs with `..` (either separator), or
/// holds a NUL character is skipped, whatever its first segment.
pub proof fn unsafe_entries_are_skipped(name: Seq<char>)
    requires
        unsafe_path(name),
    ensures
        entry_plan(name) == EntryPlanView::Invalid,
{
}

/// Stripping the root folder: for an entry stored as `x/rest`, where `x` is
/// one plain segment, the plan depends on `rest` alone: `x/` itself writes
/// nothing, a safe non-empty `rest` is placed at `rest` (a directory when it
/// ends with `/`), and a placed path holds no segment that `rest` lacks, so
/// `x` appears in it only where `rest` names it again.
pub proof fn root_prefix_is_stripped(x: Seq<char>, rest: Seq<char>)
    requires
        plain_segment(x),
    ensures
        entry_plan(x + seq!['/'] + rest) == rest_plan(rest),
        rest.len() == 0 ==> entry_plan(x + seq!['/'] + rest) == EntryPlanView::Skip,
        rest.len() > 0 && !unsafe_path(rest) ==> planned_path(entry_plan(x + seq!['/'] + rest)) == Some(
            if rest.last() == '/' { rest.drop_last() } else { rest },
        ),
        planned_path(entry_plan(x + seq!['/'] + rest)) matches Some(p) ==> forall|s: Seq<char>|
            #[trigger] segments(p, '/').contains(s) ==> segments(rest, '/').contains(s),
{
    lemma_after_root(x, rest);
    if unsafe_path(x + seq!['/'] + rest) {
        lemma_unsafe_in_rest(x, rest);
    }
    if rest.len() > 0 && !unsafe_path(rest) && rest.last() == '/' {
        let p = rest.drop_last();
        assert(segments(rest, '/') == segments(p, '/').push(Seq::<char>::empty()));
        assert forall|s: Seq<char>| #[trigger] segments(p, '/').contains(s) implies segments(
            rest,
            '/',
        ).contains(s) by {
            let k = choose|k: int| 0 <= k < segments(p, '/').len() && segments(p, '/')[k] == s;
            assert(segments(rest, '/')[k] == s);
        }
    }
}

/// Extraction of a whole archive whose entries all sit under `x/`: the entry
/// `x/` itself writes nothing, and no placed path holds the segment `x`
/// unless the entry names it again below the root.
pub proof fn archive_root_never_installed(x: Seq<char>, rests: Seq<Seq<char>>, names: Seq<Seq<char>>)
    requires
        plain_segment(x),
        names.len() == rests.len(),
        forall|i: int| 0 <= i < names.len() ==> #[trigger] names[i] == x + seq!['/'] + rests[i],
    ensures
        forall|i: int| 0 <= i < names.len() && rests[i].len() == 0 ==> #[trigger] entry_plan(names[i]) == EntryPlanView::Skip,
        forall|i: int|
            0 <= i < names.len() && !segments(rests[i], '/').contains(x) ==> match planned_path(
                #[trigger] entry_plan(names[i]),
            ) {
                Some(p) => !segments(p, '/').contains(x),
                None => true,
            },
{
    assert forall|i: int| 0 <= i < names.len() implies {
        &&& rests[i].len() == 0 ==> #[trigger] entry_plan(names[i]) == EntryPlanView::Skip
        &&& !segments(rests[i], '/').contains(x) ==> match planned_path(entry_plan(names[i])) {
            Some(p) => !segments(p, '/').contains(x),
            None => true,
        }
    } by {
        root_prefix_is_stripped(x, rests[i]);
    }
}

} // verus!
