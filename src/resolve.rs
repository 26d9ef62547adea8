//! Mapping a version requirement to one published version.
//!
//! A requirement is `latest`, an exact semantic version, or a range
//! expression in the syntax of the `semver` crate. Among the eligible
//! candidates the one of highest precedence wins; between candidates of equal
//! precedence the build metadata decides, then the version text, so that the
//! pick depends on which versions are published and not on their order.

use vstd::prelude::*;
use crate::tags::{candidate_ok, lemma_candidates_ok, listing_tags, candidate_views, candidates_from_listing, listing_candidates, Candidate, CandidateView};
use crate::text::{chars_of, same_chars};
use crate::version::{semver_precedence, compare_text, lemma_text_cmp_basics, lemma_text_cmp_trans, sign, text_cmp};
use crate::version::{lemma_precedence_basics, lemma_precedence_trans, precedence, version_of_text, Version, VersionView};

verus! {

#[derive(Clone, Copy, Debug, PartialEq, Eq, Structural)]
pub enum ResolveError {
    /// The tag listing could not be obtained.
    Transport,
    /// No tag of the repository names a semantic version.
    NoValidVersions,
    /// The exact version asked for is not among the tags.
    VersionNotFound,
    /// No tag satisfies the range asked for.
    NoMatchingVersion,
    /// The requirement is neither `latest`, a version, nor a valid range.
    InvalidRequirement,
}

/// Whether `semver::VersionReq::parse` accepts a requirement text.
pub uninterp spec fn requirement_valid(req: Seq<char>) -> bool;

/// Whether the requirement text, parsed by `semver::VersionReq::parse`,
/// matches the version text, parsed by `semver::Version::parse`.
pub uninterp spec fn requirement_admits(req: Seq<char>, version: Seq<char>) -> bool;

/// Relies on `semver::VersionReq::parse`: whether it accepts the text.
#[verifier::external_body]
fn requirement_parses(req: &str) -> (r: bool)
    ensures
        r == requirement_valid(req@),
{
    semver::VersionReq::parse(req).is_ok()
}

/// Relies on `semver::VersionReq::matches`, with the requirement and the
/// version handed over as texts and parsed by `VersionReq::parse` and
/// `Version::parse`; a text that does not parse matches nothing.
#[verifier::external_body]
fn requirement_matches(req: &str, version: &str) -> (r: bool)
    ensures
        r == requirement_admits(req@, version@),
{
    match (semver::VersionReq::parse(req), semver::Version::parse(version)) {
        (Ok(q), Ok(v)) => q.matches(&v),
        _ => false,
    }
}

pub open spec fn latest_word() -> Seq<char> {
    seq!['l', 'a', 't', 'e', 's', 't']
}

/// The version that an exact requirement names.
pub open spec fn exact_request(req: Seq<char>) -> Option<VersionView> {
    if req == latest_word() {
        None
    } else {
        version_of_text(req)
    }
}

/// Whether a candidate may be picked for a requirement: every candidate for
/// `latest`, those of the very version for an exact requirement, otherwise
/// those that the range admits.
pub open spec fn eligible(c: CandidateView, req: Seq<char>) -> bool {
    if req == latest_word() {
        true
    } else {
        match exact_request(req) {
            Some(v) => c.version == v,
            None => requirement_admits(req, c.text),
        }
    }
}

/// The order in which candidates compete: precedence, then build metadata,
/// then the version text, each lexically where it is text.
pub open spec fn rank(a: CandidateView, b: CandidateView) -> int {
    if precedence(a.version, b.version) != 0 {
        precedence(a.version, b.version)
    } else if text_cmp(a.version.build, b.version.build) != 0 {
        text_cmp(a.version.build, b.version.build)
    } else {
        text_cmp(a.text, b.text)
    }
}

/// `i` ranks highest among the eligible candidates, and is the first of its
/// rank (candidates of equal rank differ in their tag alone).
pub open spec fn is_best(cs: Seq<CandidateView>, req: Seq<char>, i: int) -> bool {
    &&& 0 <= i < cs.len()
    &&& eligible(cs[i], req)
    &&& forall|j: int|
        0 <= j < cs.len() && #[trigger] eligible(cs[j], req) ==> rank(cs[j], cs[i]) <= 0 && (j < i
            ==> rank(cs[j], cs[i]) < 0)
}

/// Resolution of `req` over `cs` yields candidate `i`.
pub open spec fn resolves_to(cs: Seq<CandidateView>, req: Seq<char>, i: int) -> bool {
    &&& cs.len() > 0
    &&& req == latest_word() || exact_request(req) is Some || requirement_valid(req)
    &&& is_best(cs, req, i)
}

/// Resolution of `req` over `cs` fails with `e`.
pub open spec fn fails_with(cs: Seq<CandidateView>, req: Seq<char>, e: ResolveError) -> bool {
    if cs.len() == 0 {
        e == ResolveError::NoValidVersions
    } else if req == latest_word() {
        false
    } else if let Some(v) = exact_request(req) {
        e == ResolveError::VersionNotFound && forall|j: int|
            0 <= j < cs.len() ==> (#[trigger] cs[j]).version != v
    } else if !requirement_valid(req) {
        e == ResolveError::InvalidRequirement
    } else {
        e == ResolveError::NoMatchingVersion && forall|j: int|
            0 <= j < cs.len() ==> !eligible(#[trigger] cs[j], req)
    }
}

pub proof fn lemma_rank_basics(a: CandidateView, b: CandidateView)
    ensures
        sign(rank(a, b)),
        rank(a, b) == -rank(b, a),
        rank(a, b) == 0 <==> (a.text == b.text && a.version == b.version),
        rank(a, b) <= 0 ==> precedence(a.version, b.version) <= 0,
{
    lemma_precedence_basics(a.version, b.version);
    lemma_text_cmp_basics(a.version.build, b.version.build);
    lemma_text_cmp_basics(a.text, b.text);
}

pub proof fn lemma_rank_trans(a: CandidateView, b: CandidateView, c: CandidateView)
    requires
        rank(a, b) <= 0,
        rank(b, c) <= 0,
    ensures
        rank(a, c) <= 0,
        rank(a, b) < 0 || rank(b, c) < 0 ==> rank(a, c) < 0,
{
    lemma_rank_basics(a, b);
    lemma_rank_basics(b, c);
    lemma_rank_basics(a, c);
    lemma_precedence_basics(a.version, b.version);
    lemma_precedence_basics(b.version, c.version);
    lemma_precedence_basics(a.version, c.version);
    lemma_precedence_trans(a.version, b.version, c.version);
    if precedence(a.version, b.version) == 0 && precedence(b.version, c.version) == 0 {
        lemma_precedence_trans(c.version, b.version, a.version);
        lemma_text_cmp_basics(a.version.build, b.version.build);
        lemma_text_cmp_basics(b.version.build, c.version.build);
        lemma_text_cmp_basics(a.version.build, c.version.build);
        lemma_text_cmp_basics(a.text, b.text);
        lemma_text_cmp_basics(b.text, c.text);
        lemma_text_cmp_basics(a.text, c.text);
        lemma_text_cmp_trans(a.version.build, b.version.build, c.version.build);
        if text_cmp(a.version.build, b.version.build) == 0 && text_cmp(b.version.build, c.version.build)
            == 0 {
            lemma_text_cmp_trans(a.text, b.text, c.text);
        }
    }
}

/// Which candidates a scan admits.
enum Wanted {
    Any,
    Exactly(Version),
    Admitted,
}

fn rank_of(a: &Candidate, b: &Candidate) -> (r: i8)
    requires
        candidate_ok(a@),
        candidate_ok(b@),
    ensures
        r as int == rank(a@, b@),
{
    let p = semver_precedence(a.text.as_str(), b.text.as_str());
    if p != 0 {
        return p;
    }
    let q = compare_text(&a.version.build, &b.version.build);
    if q != 0 {
        return q;
    }
    compare_text(&chars_of(a.text.as_str()), &chars_of(b.text.as_str()))
}

fn best_eligible(cands: &Vec<Candidate>, req: &str, wanted: &Wanted) -> (r: Option<usize>)
    requires
        forall|k: int| 0 <= k < cands.len() ==> candidate_ok(#[trigger] candidate_views(cands@)[k]),
        match *wanted {
            Wanted::Any => req@ == latest_word(),
            Wanted::Exactly(v) => req@ != latest_word() && exact_request(req@) == Some(v@),
            Wanted::Admitted => req@ != latest_word() && exact_request(req@) is None,
        },
    ensures
        r matches Some(i) ==> is_best(candidate_views(cands@), req@, i as int),
        r is None ==> forall|j: int|
            0 <= j < cands.len() ==> !eligible(#[trigger] candidate_views(cands@)[j], req@),
{
    let ghost cs = candidate_views(cands@);
    let mut best: Option<usize> = None;
    let mut k: usize = 0;
    while k < cands.len()
        invariant
            k <= cands.len(),
            cs == candidate_views(cands@),
            forall|j: int| 0 <= j < cands.len() ==> candidate_ok(#[trigger] cs[j]),
            match *wanted {
                Wanted::Any => req@ == latest_word(),
                Wanted::Exactly(v) => req@ != latest_word() && exact_request(req@) == Some(v@),
                Wanted::Admitted => req@ != latest_word() && exact_request(req@) is None,
            },
            best is None ==> forall|j: int| 0 <= j < k ==> !eligible(#[trigger] cs[j], req@),
            best matches Some(b) ==> {
                &&& b < k
                &&& eligible(cs[b as int], req@)
                &&& forall|j: int|
                    0 <= j < k && #[trigger] eligible(cs[j], req@) ==> rank(cs[j], cs[b as int]) <= 0
                        && (j < b ==> rank(cs[j], cs[b as int]) < 0)
            },
        decreases cands.len() - k,
    {
        let ok = match wanted {
            Wanted::Any => true,
            Wanted::Exactly(v) => cands[k].version.same_as(v),
            Wanted::Admitted => requirement_matches(req, cands[k].text.as_str()),
        };
        assert(ok == eligible(cs[k as int], req@));
        if ok {
            match best {
                None => {
                    best = Some(k);
                    proof {
                        lemma_rank_basics(cs[k as int], cs[k as int]);
                    }
                },
                Some(b) => {
                    let c = rank_of(&cands[k], &cands[b]);
                    proof {
                        lemma_rank_basics(cs[k as int], cs[b as int]);
                        lemma_rank_basics(cs[k as int], cs[k as int]);
                    }
                    if c > 0 {
                        assert forall|j: int|
                            0 <= j < k + 1 && #[trigger] eligible(cs[j], req@) implies rank(
                            cs[j],
                            cs[k as int],
                        ) <= 0 && (j < k ==> rank(cs[j], cs[k as int]) < 0) by {
                            if j < k {
                                lemma_rank_trans(cs[j], cs[b as int], cs[k as int]);
                            }
                        }
                        best = Some(k);
                    }
                },
            }
        }
        k = k + 1;
    }
    best
}

/// Picks the candidate that `req` resolves to: its index, or why there is none.
pub fn resolve_index(cands: &Vec<Candidate>, req: &str) -> (r: Result<usize, ResolveError>)
    requires
        forall|k: int| 0 <= k < cands.len() ==> candidate_ok(#[trigger] candidate_views(cands@)[k]),
    ensures
        match r {
            Ok(i) => resolves_to(candidate_views(cands@), req@, i as int),
            Err(e) => fails_with(candidate_views(cands@), req@, e),
        },
{
    if cands.len() == 0 {
        return Err(ResolveError::NoValidVersions);
    }
    let req_chars = chars_of(req);
    let latest = vec!['l', 'a', 't', 'e', 's', 't'];
    if same_chars(&req_chars, &latest) {
        return match best_eligible(cands, req, &Wanted::Any) {
            Some(i) => Ok(i),
            None => {
                assert(eligible(candidate_views(cands@)[0], req@));
                Err(ResolveError::NoMatchingVersion)
            },
        };
    }
    match Version::parse(req) {
        Some(v) => {
            let wanted = Wanted::Exactly(v);
            match best_eligible(cands, req, &wanted) {
                Some(i) => Ok(i),
                None => Err(ResolveError::VersionNotFound),
            }
        },
        None => {
            if !requirement_parses(req) {
                return Err(ResolveError::InvalidRequirement);
            }
            match best_eligible(cands, req, &Wanted::Admitted) {
                Some(i) => Ok(i),
                None => Err(ResolveError::NoMatchingVersion),
            }
        },
    }
}

/// Resolves `req` against the tags of a listing.
pub fn resolve(listing: &str, req: &str) -> (r: Result<Candidate, ResolveError>)
    ensures
        match r {
            Ok(c) => exists|i: int|
                resolves_to(listing_candidates(listing@), req@, i) && #[trigger] listing_candidates(
                    listing@,
                )[i] == c@,
            Err(e) => fails_with(listing_candidates(listing@), req@, e),
        },
{
    let mut cands = candidates_from_listing(listing);
    proof {
        lemma_candidates_ok(listing_tags(listing@));
    }
    match resolve_index(&cands, req) {
        Ok(i) => {
            let ghost cs = candidate_views(cands@);
            let c = cands.remove(i);
            assert(cs[i as int] == c@);
            Ok(c)
        },
        Err(e) => Err(e),
    }
}

/// Resolution is deterministic: a requirement resolves to at most one candidate.
pub proof fn resolution_unique(cs: Seq<CandidateView>, req: Seq<char>, i: int, k: int)
    requires
        resolves_to(cs, req, i),
        resolves_to(cs, req, k),
    ensures
        i == k,
{
    lemma_rank_basics(cs[i], cs[k]);
    assert(eligible(cs[i], req));
    assert(eligible(cs[k], req));
}

/// `cs` offers a candidate with version text `t` and version `v`.
pub open spec fn offers(cs: Seq<CandidateView>, t: Seq<char>, v: VersionView) -> bool {
    exists|j: int| 0 <= j < cs.len() && (#[trigger] cs[j]).text == t && cs[j].version == v
}

/// Resolution depends on the versions published, not on the order or the
/// repetition of their tags: two listings that offer the same versions
/// resolve a requirement to the same version, and one cannot succeed where
/// the other fails.
pub proof fn resolution_ignores_listing_order(
    cs1: Seq<CandidateView>,
    cs2: Seq<CandidateView>,
    req: Seq<char>,
    i: int,
    k: int,
    e: ResolveError,
)
    requires
        forall|t: Seq<char>, v: VersionView| #[trigger] offers(cs1, t, v) == offers(cs2, t, v),
    ensures
        resolves_to(cs1, req, i) && resolves_to(cs2, req, k) ==> cs1[i].text == cs2[k].text
            && cs1[i].version == cs2[k].version,
        resolves_to(cs1, req, i) ==> !fails_with(cs2, req, e),
{
    if resolves_to(cs1, req, i) {
        assert(offers(cs1, cs1[i].text, cs1[i].version));
        assert(offers(cs2, cs1[i].text, cs1[i].version));
        let m = choose|m: int|
            0 <= m < cs2.len() && (#[trigger] cs2[m]).text == cs1[i].text && cs2[m].version
                == cs1[i].version;
        assert(eligible(cs1[i], req));
        assert(eligible(cs2[m], req));
        if resolves_to(cs2, req, k) {
            assert(offers(cs2, cs2[k].text, cs2[k].version));
            assert(offers(cs1, cs2[k].text, cs2[k].version));
            let n = choose|n: int|
                0 <= n < cs1.len() && (#[trigger] cs1[n]).text == cs2[k].text && cs1[n].version
                    == cs2[k].version;
            assert(eligible(cs2[k], req));
            assert(eligible(cs1[n], req));
            assert(rank(cs2[m], cs2[k]) <= 0);
            assert(rank(cs1[n], cs1[i]) <= 0);
            lemma_rank_basics(cs1[i], cs2[k]);
        }
    }
}

/// `latest` picks a candidate that ranks at least as high, by precedence,
/// as every candidate.
pub proof fn latest_is_highest(cs: Seq<CandidateView>, i: int)
    requires
        resolves_to(cs, latest_word(), i),
    ensures
        forall|j: int| 0 <= j < cs.len() ==> precedence(#[trigger] cs[j].version, cs[i].version) <= 0,
{
    assert forall|j: int| 0 <= j < cs.len() implies precedence(
        #[trigger] cs[j].version,
        cs[i].version,
    ) <= 0 by {
        assert(eligible(cs[j], latest_word()));
        lemma_rank_basics(cs[j], cs[i]);
    }
}

/// With at least one candidate, `latest` does not fail.
pub proof fn latest_always_resolves(cs: Seq<CandidateView>, e: ResolveError)
    requires
        cs.len() > 0,
    ensures
        !fails_with(cs, latest_word(), e),
{
}

/// An exact version resolves to a candidate of that very version when one
/// is present, and fails with `VersionNotFound` exactly when none is.
pub proof fn exact_resolves_iff_present(
    cs: Seq<CandidateView>,
    req: Seq<char>,
    v: VersionView,
    i: int,
    e: ResolveError,
)
    requires
        cs.len() > 0,
        exact_request(req) == Some(v),
    ensures
        resolves_to(cs, req, i) ==> cs[i].version == v,
        fails_with(cs, req, e) <==> (e == ResolveError::VersionNotFound && forall|j: int|
            0 <= j < cs.len() ==> (#[trigger] cs[j]).version != v),
{
}

/// A valid range resolves to an admitted candidate that ranks at least as
/// high, by precedence, as every admitted candidate; it fails with
/// `NoMatchingVersion` exactly when no candidate is admitted.
pub proof fn range_resolves_to_highest_match(
    cs: Seq<CandidateView>,
    req: Seq<char>,
    i: int,
    e: ResolveError,
)
    requires
        cs.len() > 0,
        req != latest_word(),
        exact_request(req) is None,
        requirement_valid(req),
    ensures
        resolves_to(cs, req, i) ==> requirement_admits(req, cs[i].text) && forall|j: int|
            0 <= j < cs.len() && requirement_admits(req, #[trigger] cs[j].text) ==> precedence(
                cs[j].version,
                cs[i].version,
            ) <= 0,
        fails_with(cs, req, e) <==> (e == ResolveError::NoMatchingVersion && forall|j: int|
            0 <= j < cs.len() ==> !requirement_admits(req, #[trigger] cs[j].text)),
{
    if resolves_to(cs, req, i) {
        assert forall|j: int|
            0 <= j < cs.len() && requirement_admits(req, #[trigger] cs[j].text) implies precedence(
            cs[j].version,
            cs[i].version,
        ) <= 0 by {
            assert(eligible(cs[j], req));
            lemma_rank_basics(cs[j], cs[i]);
        }
    }
    assert((forall|j: int| 0 <= j < cs.len() ==> !requirement_admits(req, #[trigger] cs[j].text))
        <==> (forall|j: int| 0 <= j < cs.len() ==> !eligible(#[trigger] cs[j], req)));
}

} // verus!
