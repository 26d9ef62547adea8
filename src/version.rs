//! Semantic versions and their precedence.
//!
//! Parsing and comparison are done by the `semver` crate. This module keeps
//! what the resolver reads as plain values, states SemVer precedence (major,
//! minor and patch numerically, then the pre-release, where a version without
//! a pre-release ranks above every version with one) and proves it a total
//! preorder, which the resolver's laws rest on.

use vstd::prelude::*;
use crate::text::{chars_of, same_chars, segments, split_on, views};

verus! {

/// A parsed semantic version. `pre` holds the dot-separated pre-release
/// identifiers (none for a release), `build` the build metadata text.
pub struct Version {
    pub major: u64,
    pub minor: u64,
    pub patch: u64,
    pub pre: Vec<Vec<char>>,
    pub build: Vec<char>,
}

pub ghost struct VersionView {
    pub major: nat,
    pub minor: nat,
    pub patch: nat,
    pub pre: Seq<Seq<char>>,
    pub build: Seq<char>,
}

impl View for Version {
    type V = VersionView;

    open spec fn view(&self) -> VersionView {
        VersionView {
            major: self.major as nat,
            minor: self.minor as nat,
            patch: self.patch as nat,
            pre: views(self.pre@),
            build: self.build@,
        }
    }
}

/// What `semver::Version::parse` makes of a text: major, minor, patch,
/// pre-release text and build metadata text, or nothing when it rejects it.
pub uninterp spec fn semver_parse(text: Seq<char>) -> Option<(nat, nat, nat, Seq<char>, Seq<char>)>;

/// Relies on `semver::Version::parse`; the pre-release and build metadata are
/// handed back as the texts that `Prerelease::as_str` and `BuildMetadata::as_str` give.
#[verifier::external_body]
fn parse_semver(text: &str) -> (r: Option<(u64, u64, u64, String, String)>)
    ensures
        r is None <==> semver_parse(text@) is None,
        r matches Some(p) ==> semver_parse(text@) == Some(
            (p.0 as nat, p.1 as nat, p.2 as nat, p.3@, p.4@),
        ),
{
    match semver::Version::parse(text) {
        Ok(v) => Some((v.major, v.minor, v.patch, v.pre.as_str().to_string(), v.build.as_str().to_string())),
        Err(_) => None,
    }
}

/// The identifiers of a pre-release text: none for the empty text.
pub open spec fn pre_identifiers(pre: Seq<char>) -> Seq<Seq<char>> {
    if pre.len() == 0 {
        Seq::empty()
    } else {
        segments(pre, '.')
    }
}

/// The version that a text denotes, if it is a valid semantic version.
pub open spec fn version_of_text(text: Seq<char>) -> Option<VersionView> {
    match semver_parse(text) {
        Some(p) => Some(
            VersionView {
                major: p.0,
                minor: p.1,
                patch: p.2,
                pre: pre_identifiers(p.3),
                build: p.4,
            },
        ),
        None => None,
    }
}

/// Comparison results are -1, 0 or 1.
pub open spec fn sign(x: int) -> bool {
    x == -1 || x == 0 || x == 1
}

pub open spec fn num_cmp(a: int, b: int) -> int {
    if a < b {
        -1
    } else if a > b {
        1
    } else {
        0
    }
}

/// Lexical order of character sequences by character code.
pub open spec fn text_cmp(a: Seq<char>, b: Seq<char>) -> int
    decreases a.len(),
{
    if a.len() == 0 {
        if b.len() == 0 {
            0
        } else {
            -1
        }
    } else if b.len() == 0 {
        1
    } else if a[0] != b[0] {
        num_cmp(a[0] as int, b[0] as int)
    } else {
        text_cmp(a.drop_first(), b.drop_first())
    }
}

pub open spec fn is_digit(c: char) -> bool {
    '0' <= c && c <= '9'
}

/// An identifier made of ASCII digits only.
pub open spec fn is_numeric(id: Seq<char>) -> bool {
    forall|i: int| 0 <= i < id.len() ==> is_digit(#[trigger] id[i])
}

/// Order of two pre-release identifiers: numeric ones by value (for digit
/// strings without leading zeros: by length, then lexically), below every
/// non-numeric one; non-numeric ones lexically.
pub open spec fn id_cmp(a: Seq<char>, b: Seq<char>) -> int {
    if is_numeric(a) && is_numeric(b) {
        if a.len() != b.len() {
            num_cmp(a.len() as int, b.len() as int)
        } else {
            text_cmp(a, b)
        }
    } else if is_numeric(a) {
        -1
    } else if is_numeric(b) {
        1
    } else {
        text_cmp(a, b)
    }
}

/// Identifier lists compared field by field; a longer list wins when one is
/// a prefix of the other.
pub open spec fn ids_cmp(a: Seq<Seq<char>>, b: Seq<Seq<char>>) -> int
    decreases a.len(),
{
    if a.len() == 0 {
        if b.len() == 0 {
            0
        } else {
            -1
        }
    } else if b.len() == 0 {
        1
    } else if id_cmp(a[0], b[0]) != 0 {
        id_cmp(a[0], b[0])
    } else {
        ids_cmp(a.drop_first(), b.drop_first())
    }
}

/// Pre-release order: no pre-release ranks highest.
pub open spec fn pre_cmp(a: Seq<Seq<char>>, b: Seq<Seq<char>>) -> int {
    if a.len() == 0 && b.len() == 0 {
        0
    } else if a.len() == 0 {
        1
    } else if b.len() == 0 {
        -1
    } else {
        ids_cmp(a, b)
    }
}

/// SemVer precedence; build metadata takes no part in it.
pub open spec fn precedence(a: VersionView, b: VersionView) -> int {
    if a.major != b.major {
        num_cmp(a.major as int, b.major as int)
    } else if a.minor != b.minor {
        num_cmp(a.minor as int, b.minor as int)
    } else if a.patch != b.patch {
        num_cmp(a.patch as int, b.patch as int)
    } else {
        pre_cmp(a.pre, b.pre)
    }
}

pub proof fn lemma_text_cmp_basics(a: Seq<char>, b: Seq<char>)
    ensures
        sign(text_cmp(a, b)),
        text_cmp(a, b) == -text_cmp(b, a),
        text_cmp(a, b) == 0 <==> a == b,
    decreases a.len(),
{
    if a.len() > 0 && b.len() > 0 && a[0] == b[0] {
        lemma_text_cmp_basics(a.drop_first(), b.drop_first());
        if a.drop_first() == b.drop_first() {
            assert(a =~= seq![a[0]] + a.drop_first());
            assert(b =~= seq![b[0]] + b.drop_first());
        }
    }
    if a.len() == 0 && b.len() == 0 {
        assert(a =~= b);
    }
}

pub proof fn lemma_text_cmp_trans(a: Seq<char>, b: Seq<char>, c: Seq<char>)
    requires
        text_cmp(a, b) <= 0,
        text_cmp(b, c) <= 0,
    ensures
        text_cmp(a, c) <= 0,
    decreases a.len(),
{
    if a.len() > 0 && b.len() > 0 && c.len() > 0 && a[0] == b[0] && b[0] == c[0] {
        lemma_text_cmp_trans(a.drop_first(), b.drop_first(), c.drop_first());
    }
}

pub proof fn lemma_id_cmp_basics(a: Seq<char>, b: Seq<char>)
    ensures
        sign(id_cmp(a, b)),
        id_cmp(a, b) == -id_cmp(b, a),
        id_cmp(a, b) == 0 <==> a == b,
{
    lemma_text_cmp_basics(a, b);
}

pub proof fn lemma_id_cmp_trans(a: Seq<char>, b: Seq<char>, c: Seq<char>)
    requires
        id_cmp(a, b) <= 0,
        id_cmp(b, c) <= 0,
    ensures
        id_cmp(a, c) <= 0,
{
    if is_numeric(a) && is_numeric(b) && is_numeric(c) {
        if a.len() == b.len() && b.len() == c.len() {
            lemma_text_cmp_trans(a, b, c);
        }
    } else if !is_numeric(a) && !is_numeric(b) && !is_numeric(c) {
        lemma_text_cmp_trans(a, b, c);
    }
}

pub proof fn lemma_ids_cmp_basics(a: Seq<Seq<char>>, b: Seq<Seq<char>>)
    ensures
        sign(ids_cmp(a, b)),
        ids_cmp(a, b) == -ids_cmp(b, a),
        ids_cmp(a, b) == 0 <==> a == b,
    decreases a.len(),
{
    if a.len() > 0 && b.len() > 0 {
        lemma_id_cmp_basics(a[0], b[0]);
        lemma_ids_cmp_basics(a.drop_first(), b.drop_first());
        if a[0] == b[0] && a.drop_first() == b.drop_first() {
            assert(a =~= seq![a[0]] + a.drop_first());
            assert(b =~= seq![b[0]] + b.drop_first());
        }
    }
    if a.len() == 0 && b.len() == 0 {
        assert(a =~= b);
    }
}

pub proof fn lemma_ids_cmp_trans(a: Seq<Seq<char>>, b: Seq<Seq<char>>, c: Seq<Seq<char>>)
    requires
        ids_cmp(a, b) <= 0,
        ids_cmp(b, c) <= 0,
    ensures
        ids_cmp(a, c) <= 0,
    decreases a.len(),
{
    if a.len() > 0 && b.len() > 0 && c.len() > 0 {
        lemma_id_cmp_basics(a[0], b[0]);
        lemma_id_cmp_basics(b[0], c[0]);
        lemma_id_cmp_basics(a[0], c[0]);
        lemma_id_cmp_trans(a[0], b[0], c[0]);
        if id_cmp(a[0], b[0]) == 0 && id_cmp(b[0], c[0]) == 0 {
            lemma_ids_cmp_trans(a.drop_first(), b.drop_first(), c.drop_first());
        } else if id_cmp(a[0], c[0]) == 0 {
            // a[0] == c[0] squeezes b[0] between equal identifiers
            lemma_id_cmp_trans(b[0], c[0], a[0]);
            lemma_id_cmp_trans(c[0], a[0], b[0]);
        }
    }
}

/// Precedence is a total preorder: it is antisymmetric in sign, reflexive
/// and transitive, and it ignores nothing but the build metadata.
pub proof fn lemma_precedence_basics(a: VersionView, b: VersionView)
    ensures
        sign(precedence(a, b)),
        precedence(a, b) == -precedence(b, a),
        precedence(a, a) == 0,
        precedence(a, b) == 0 <==> (a.major == b.major && a.minor == b.minor && a.patch
            == b.patch && a.pre == b.pre),
{
    lemma_ids_cmp_basics(a.pre, b.pre);
    lemma_ids_cmp_basics(a.pre, a.pre);
}

pub proof fn lemma_precedence_trans(a: VersionView, b: VersionView, c: VersionView)
    requires
        precedence(a, b) <= 0,
        precedence(b, c) <= 0,
    ensures
        precedence(a, c) <= 0,
        precedence(a, b) < 0 || precedence(b, c) < 0 ==> precedence(a, c) < 0,
{
    lemma_precedence_basics(a, b);
    lemma_precedence_basics(b, c);
    lemma_precedence_basics(a, c);
    if a.major == b.major && b.major == c.major && a.minor == b.minor && b.minor == c.minor
        && a.patch == b.patch && b.patch == c.patch {
        if a.pre.len() > 0 && b.pre.len() > 0 && c.pre.len() > 0 {
            lemma_ids_cmp_trans(a.pre, b.pre, c.pre);
        }
    }
}

pub fn compare_text(a: &Vec<char>, b: &Vec<char>) -> (r: i8)
    ensures
        r as int == text_cmp(a@, b@),
{
    let mut i: usize = 0;
    assert(a@.skip(0) =~= a@);
    assert(b@.skip(0) =~= b@);
    while i < a.len() && i < b.len()
        invariant
            i <= a.len(),
            i <= b.len(),
            text_cmp(a@, b@) == text_cmp(a@.skip(i as int), b@.skip(i as int)),
        decreases a.len() - i,
    {
        assert(a@.skip(i as int).drop_first() =~= a@.skip(i as int + 1));
        assert(b@.skip(i as int).drop_first() =~= b@.skip(i as int + 1));
        if a[i] != b[i] {
            return if a[i] < b[i] {
                -1
            } else {
                1
            };
        }
        i = i + 1;
    }
    if i < a.len() {
        1
    } else if i < b.len() {
        -1
    } else {
        0
    }
}

/// Relies on `semver::Version::cmp_precedence`, both versions handed over as
/// texts that `Version::parse` accepts. Its documentation (and `Ord for
/// Prerelease`) gives the order that `precedence` states: major, minor and
/// patch numerically; a release above its pre-releases; pre-release
/// identifiers field by field, digit-only ones by value and below the others,
/// the others in ASCII order, a longer list above its own prefix.
#[verifier::external_body]
pub(crate) fn semver_precedence(a: &str, b: &str) -> (r: i8)
    requires
        version_of_text(a@) is Some,
        version_of_text(b@) is Some,
    ensures
        r as int == precedence(version_of_text(a@)->0, version_of_text(b@)->0),
{
    match (semver::Version::parse(a), semver::Version::parse(b)) {
        (Ok(x), Ok(y)) => x.cmp_precedence(&y) as i8,
        _ => 0,
    }
}

/// SemVer precedence of two version texts: -1, 0 or 1, or nothing when
/// either is not a semantic version.
pub fn precedence_of(a: &str, b: &str) -> (r: Option<i8>)
    ensures
        match (version_of_text(a@), version_of_text(b@)) {
            (Some(x), Some(y)) => r == Some(precedence(x, y) as i8),
            _ => r is None,
        },
{
    if Version::parse(a).is_none() || Version::parse(b).is_none() {
        return None;
    }
    Some(semver_precedence(a, b))
}

fn same_identifiers(a: &Vec<Vec<char>>, b: &Vec<Vec<char>>) -> (r: bool)
    ensures
        r == (views(a@) == views(b@)),
{
    if a.len() != b.len() {
        assert(views(a@).len() != views(b@).len());
        return false;
    }
    let mut i: usize = 0;
    while i < a.len()
        invariant
            i <= a.len(),
            a.len() == b.len(),
            forall|k: int| 0 <= k < i ==> a@[k]@ == b@[k]@,
        decreases a.len() - i,
    {
        if !same_chars(&a[i], &b[i]) {
            assert(views(a@)[i as int] != views(b@)[i as int]);
            return false;
        }
        i = i + 1;
    }
    assert(views(a@) =~= views(b@));
    true
}

impl Version {
    /// Parses a semantic version such as `1.2.3-rc.1+build.5`.
    pub fn parse(text: &str) -> (r: Option<Version>)
        ensures
            r is None <==> version_of_text(text@) is None,
            r matches Some(v) ==> version_of_text(text@) == Some(v@),
    {
        match parse_semver(text) {
            None => None,
            Some(p) => {
                let pre_chars = chars_of(p.3.as_str());
                let pre = if pre_chars.len() == 0 {
                    Vec::new()
                } else {
                    split_on(&pre_chars, '.')
                };
                let build = chars_of(p.4.as_str());
                let v = Version { major: p.0, minor: p.1, patch: p.2, pre, build };
                assert(v@.pre =~= pre_identifiers(p.3@));
                Some(v)
            },
        }
    }

    /// Whether the two versions are identical, build metadata included.
    pub fn same_as(&self, other: &Version) -> (r: bool)
        ensures
            r == (self@ == other@),
    {
        self.major == other.major && self.minor == other.minor && self.patch == other.patch
            && same_identifiers(&self.pre, &other.pre) && same_chars(&self.build, &other.build)
    }
}

} // verus!
