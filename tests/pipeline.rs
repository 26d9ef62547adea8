use std::io::Write;

use wdm::archive::{ArchiveError, EntryPlan};
use wdm::fetch::content_hash;
use wdm::lock::{DirAction, LockEntry, Lockfile, Outcome, StepError};
use wdm::manifest::Dependency;
use wdm::pipeline::{begin, conclude, unsupported};
use wdm::resolve::ResolveError;

fn dep(name: &str, version: &str, repo: &str) -> Dependency {
    Dependency { name: name.to_string(), version: version.to_string(), repo: repo.to_string(), token_env: None, source: None }
}

fn listing(tags: &[&str]) -> String {
    tags.iter().map(|t| format!("0000\trefs/tags/{}\n", t)).collect()
}

fn small_zip() -> Vec<u8> {
    let mut w = zip::ZipWriter::new(std::io::Cursor::new(Vec::new()));
    let opts = zip::write::FileOptions::default().compression_method(zip::CompressionMethod::Stored);
    w.add_directory("theme-2.5.0/", opts).unwrap();
    w.start_file("theme-2.5.0/style.css", opts).unwrap();
    w.write_all(b"body{}").unwrap();
    w.finish().unwrap().into_inner()
}

fn failure(o: &Outcome) -> Option<StepError> {
    match o {
        Outcome::Failed(_, e) => Some(*e),
        _ => None,
    }
}

#[test]
fn begin_builds_the_fetch_request() {
    let d = dep("theme", "^2", "WordPress/theme");
    let q = begin(&d, Ok(listing(&["v1.8.0", "v2.5.0", "v2.4.0"]))).ok().unwrap();
    assert_eq!(q.candidate.tag, "v2.5.0");
    assert_eq!(q.candidate.text, "2.5.0");
    assert_eq!(q.url, "https://github.com/WordPress/theme/archive/refs/tags/v2.5.0.zip");
    assert_eq!(q.cache_name, "theme@2.5.0.zip");
}

#[test]
fn begin_reports_failures() {
    let d = dep("theme", "^3", "o/theme");
    let o = begin(&d, Ok(listing(&["v2.5.0"]))).err().unwrap();
    assert_eq!(failure(&o), Some(StepError::Resolve(ResolveError::NoMatchingVersion)));
    let o = begin(&d, Err(ResolveError::Transport)).err().unwrap();
    assert_eq!(failure(&o), Some(StepError::Resolve(ResolveError::Transport)));
    let other = Dependency { source: Some("svn".to_string()), ..dep("theme", "latest", "o/theme") };
    let o = begin(&other, Ok(listing(&["v2.5.0"]))).err().unwrap();
    assert_eq!(failure(&o), Some(StepError::UnsupportedSource));
    assert_eq!(unsupported(&other).map(|o| failure(&o)), Some(Some(StepError::UnsupportedSource)));
    assert!(unsupported(&d).is_none());
}

#[test]
fn conclude_fresh_install_plans_the_archive() {
    let d = dep("theme", "latest", "o/theme");
    let q = begin(&d, Ok(listing(&["v2.5.0"]))).ok().unwrap();
    let bytes = small_zip();
    let c = conclude(&d, &Lockfile::new(), &q, &Ok(bytes.clone()), false);
    assert_eq!(c.directory, DirAction::Create);
    assert_eq!(c.plan, vec![EntryPlan::Skip, EntryPlan::File("style.css".to_string())]);
    match c.outcome {
        Outcome::Installed(e) => {
            assert_eq!(e.version, "2.5.0");
            assert_eq!(e.hash, content_hash(&bytes));
        }
        _ => panic!("expected an installed outcome"),
    }
}

#[test]
fn conclude_keeps_current_install() {
    let d = dep("theme", "latest", "o/theme");
    let q = begin(&d, Ok(listing(&["v2.5.0"]))).ok().unwrap();
    let bytes = small_zip();
    let mut lock = Lockfile::new();
    lock.entries.push(LockEntry { name: "theme".to_string(), version: "2.5.0".to_string(), repo: "o/theme".to_string(), hash: content_hash(&bytes), source: None });
    let c = conclude(&d, &lock, &q, &Ok(bytes), true);
    assert_eq!(c.directory, DirAction::Keep);
    assert!(c.plan.is_empty());
    assert!(matches!(c.outcome, Outcome::Installed(_)));
}

#[test]
fn conclude_detects_changed_bytes() {
    let d = dep("theme", "latest", "o/theme");
    let q = begin(&d, Ok(listing(&["v2.5.0"]))).ok().unwrap();
    let mut lock = Lockfile::new();
    lock.entries.push(LockEntry { name: "theme".to_string(), version: "2.5.0".to_string(), repo: "o/theme".to_string(), hash: content_hash(b"other"), source: None });
    let c = conclude(&d, &lock, &q, &Ok(small_zip()), true);
    assert!(matches!(c.outcome, Outcome::Mismatch(ref n) if n == "theme"));
    assert_eq!(c.directory, DirAction::Keep);
}

#[test]
fn conclude_replaces_other_version() {
    let d = dep("theme", "latest", "o/theme");
    let q = begin(&d, Ok(listing(&["v1.8.0", "v2.5.0"]))).ok().unwrap();
    let mut lock = Lockfile::new();
    lock.entries.push(LockEntry { name: "theme".to_string(), version: "1.8.0".to_string(), repo: "o/theme".to_string(), hash: "h".to_string(), source: None });
    let c = conclude(&d, &lock, &q, &Ok(small_zip()), true);
    assert_eq!(c.directory, DirAction::Recreate);
    assert_eq!(c.plan.len(), 2);
}

#[test]
fn conclude_reports_fetch_and_archive_failures() {
    let d = dep("theme", "latest", "o/theme");
    let q = begin(&d, Ok(listing(&["v2.5.0"]))).ok().unwrap();
    let c = conclude(&d, &Lockfile::new(), &q, &Err(StepError::Fetch(wdm::fetch::FetchError::Forbidden)), false);
    assert_eq!(failure(&c.outcome), Some(StepError::Fetch(wdm::fetch::FetchError::Forbidden)));
    assert_eq!(c.directory, DirAction::Keep);
    let c = conclude(&d, &Lockfile::new(), &q, &Ok(b"garbage".to_vec()), false);
    assert_eq!(failure(&c.outcome), Some(StepError::Archive(ArchiveError::Malformed)));
    assert_eq!(c.directory, DirAction::Keep);
}
