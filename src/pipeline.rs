//! One dependency's way through an install run.
//!
//! The outside work (listing tags, fetching the archive, touching the
//! destination) happens between two decisions: `begin` turns the tag listing
//! into the request for one archive, and `conclude` turns the archive's bytes
//! into the dependency's outcome and what to do with its directory.

use vstd::prelude::*;
use crate::archive::{archive_plan, plans_of, zip_entries, ArchiveError, EntryPlan};
use crate::fetch::{archive_url, archive_url_of, cache_file_name, cache_name_of};
use crate::lock::{dir_action, entry_named, is_current, plan_directory, settle, settled, DirAction, Lockfile, Outcome, OutcomeView, StepError};
use crate::manifest::{name_key, source_kind_of, Dependency};
use crate::resolve::{fails_with, resolve, resolves_to, ResolveError};
use crate::tags::{listing_candidates, Candidate};

verus! {

/// The archive to obtain for a resolved dependency.
pub struct FetchRequest {
    pub candidate: Candidate,
    /// Where to download it from.
    pub url: String,
    /// Its file name in the cache.
    pub cache_name: String,
}

/// The failure of a dependency whose kind of source is not supported, before
/// any outside work is done for it.
pub fn unsupported(dep: &Dependency) -> (r: Option<Outcome>)
    ensures
        r is Some <==> source_kind_of(dep@.source) is None,
        r matches Some(o) ==> o@ == OutcomeView::Failed(dep@.name, StepError::UnsupportedSource),
{
    if dep.source_kind().is_none() {
        Some(Outcome::Failed(dep.name.clone(), StepError::UnsupportedSource))
    } else {
        None
    }
}

/// From the repository's tag listing (or why it could not be had) to the
/// archive to fetch, or to the dependency's failure.
pub fn begin(dep: &Dependency, listing: Result<String, ResolveError>) -> (r: Result<FetchRequest, Outcome>)
    ensures
        source_kind_of(dep@.source) is None ==> (r matches Err(o) && o@ == OutcomeView::Failed(
            dep@.name,
            StepError::UnsupportedSource,
        )),
        source_kind_of(dep@.source) is Some ==> match listing {
            Err(e) => (r matches Err(o) && o@ == OutcomeView::Failed(dep@.name, StepError::Resolve(e))),
            Ok(l) => match r {
                Ok(q) => {
                    &&& exists|i: int|
                        resolves_to(listing_candidates(l@), dep@.version, i) && #[trigger] listing_candidates(
                            l@,
                        )[i] == q.candidate@
                    &&& q.url@ == archive_url_of(dep@.repo, q.candidate.tag@)
                    &&& q.cache_name@ == cache_name_of(dep@.name, q.candidate.text@)
                },
                Err(o) => exists|e: ResolveError|
                    #[trigger] fails_with(listing_candidates(l@), dep@.version, e) && o@ == OutcomeView::Failed(
                        dep@.name,
                        StepError::Resolve(e),
                    ),
            },
        },
{
    if dep.source_kind().is_none() {
        return Err(Outcome::Failed(dep.name.clone(), StepError::UnsupportedSource));
    }
    let l = match listing {
        Ok(l) => l,
        Err(e) => return Err(Outcome::Failed(dep.name.clone(), StepError::Resolve(e))),
    };
    match resolve(l.as_str(), dep.version.as_str()) {
        Ok(candidate) => {
            let url = archive_url(dep.repo.as_str(), candidate.tag.as_str());
            let cache_name = cache_file_name(dep.name.as_str(), candidate.text.as_str());
            Ok(FetchRequest { candidate, url, cache_name })
        },
        Err(e) => {
            let o = Outcome::Failed(dep.name.clone(), StepError::Resolve(e));
            assert(fails_with(listing_candidates(l@), dep@.version, e));
            assert(o@ == OutcomeView::Failed(dep@.name, StepError::Resolve(e)));
            Err(o)
        },
    }
}

/// What becomes of a dependency once its archive was fetched, or failed to be.
pub struct Conclusion {
    pub outcome: Outcome,
    /// What to do with the destination directory; `Keep` means touch nothing.
    pub directory: DirAction,
    /// Where each archive entry goes, when the directory is to be filled.
    pub plan: Vec<EntryPlan>,
}

/// From the fetched bytes to the outcome: the lock decides whether the bytes
/// are new or must match the locked hash; the directory is left alone when
/// it already holds the locked version, and otherwise filled from the
/// archive, whose entries are planned here. An archive that cannot be read
/// fails the dependency.
pub fn conclude(
    dep: &Dependency,
    lock: &Lockfile,
    req: &FetchRequest,
    fetched: &Result<Vec<u8>, StepError>,
    present: bool,
) -> (r: Conclusion)
    requires
        lock.wf(),
    ensures
        match *fetched {
            Err(e) => r.outcome@ == OutcomeView::Failed(dep@.name, e) && r.directory == DirAction::Keep
                && r.plan.len() == 0,
            Ok(b) => {
                let s = settled(dep@, lock@, req.candidate.text@, b@);
                let a = dir_action(
                    is_current(entry_named(lock@, name_key(dep@.name)), dep@.repo, req.candidate.text@),
                    present,
                );
                if !(s is Installed) || a == DirAction::Keep {
                    r.outcome@ == s && r.directory == DirAction::Keep && r.plan.len() == 0
                } else {
                    match zip_entries(b@) {
                        Some(ns) => r.outcome@ == s && r.directory == a && plans_of(r.plan@, ns),
                        None => r.outcome@ == OutcomeView::Failed(
                            dep@.name,
                            StepError::Archive(ArchiveError::Malformed),
                        ) && r.directory == DirAction::Keep && r.plan.len() == 0,
                    }
                }
            },
        },
{
    let bytes = match fetched {
        Err(e) => {
            return Conclusion {
                outcome: Outcome::Failed(dep.name.clone(), *e),
                directory: DirAction::Keep,
                plan: Vec::new(),
            };
        },
        Ok(b) => b,
    };
    let outcome = settle(dep, lock, req.candidate.text.as_str(), bytes.as_slice());
    let installed = match &outcome {
        Outcome::Installed(_) => true,
        _ => false,
    };
    if !installed {
        return Conclusion { outcome, directory: DirAction::Keep, plan: Vec::new() };
    }
    let action = plan_directory(lock, dep, req.candidate.text.as_str(), present);
    if action == DirAction::Keep {
        return Conclusion { outcome, directory: DirAction::Keep, plan: Vec::new() };
    }
    match archive_plan(bytes.as_slice()) {
        Ok(plan) => Conclusion { outcome, directory: action, plan },
        Err(_) => Conclusion {
            outcome: Outcome::Failed(dep.name.clone(), StepError::Archive(ArchiveError::Malformed)),
            directory: DirAction::Keep,
            plan: Vec::new(),
        },
    }
}

} // verus!
