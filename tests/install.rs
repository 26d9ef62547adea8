use std::io::Write;

use wdm::archive::{archive_plan, plan_entry, plan_extraction, ArchiveError, EntryPlan};
use wdm::fetch::{archive_url, bearer, cache_file_name, classify_status, content_hash, repository_url, to_hex, FetchError};
use wdm::lock::{finish, plan_directory, remove_dependency, settle, DirAction, LockEntry, Lockfile, Outcome, RunError, StepError};
use wdm::manifest::{key_of, Dependency, Manifest, ManifestError, SourceKind};
use wdm::resolve::resolve;

fn zip_bytes(entries: &[(&str, Option<&[u8]>)]) -> Vec<u8> {
    let mut w = zip::ZipWriter::new(std::io::Cursor::new(Vec::new()));
    let opts = zip::write::FileOptions::default().compression_method(zip::CompressionMethod::Stored);
    for (name, data) in entries {
        match data {
            Some(d) => {
                w.start_file(*name, opts).unwrap();
                w.write_all(d).unwrap();
            }
            None => w.add_directory(*name, opts).unwrap(),
        }
    }
    w.finish().unwrap().into_inner()
}

fn dep(name: &str, version: &str, repo: &str) -> Dependency {
    Dependency { name: name.to_string(), version: version.to_string(), repo: repo.to_string(), token_env: None, source: None }
}

fn listing(tags: &[&str]) -> String {
    tags.iter().map(|t| format!("0000\trefs/tags/{}\n", t)).collect()
}

/// One run over the manifest: resolve each dependency and settle it against
/// the lock of the run's start, with archive bytes picked by version.
fn run(manifest: &Manifest, lock: Lockfile, tags: &[&str], bytes_for: &dyn Fn(&str) -> Vec<u8>) -> Result<Lockfile, RunError> {
    let l = listing(tags);
    let mut outs = Vec::new();
    for d in &manifest.dependencies {
        match resolve(&l, &d.version) {
            Ok(c) => outs.push(settle(d, &lock, &c.text, &bytes_for(&c.text))),
            Err(e) => outs.push(Outcome::Failed(d.name.clone(), StepError::Resolve(e))),
        }
    }
    finish(lock, &outs)
}

fn versions(lock: &Lockfile) -> Vec<(String, String)> {
    lock.entries.iter().map(|e| (e.name.clone(), e.version.clone())).collect()
}

fn same_lock(a: &Lockfile, b: &Lockfile) -> bool {
    a.entries.len() == b.entries.len()
        && a.entries.iter().zip(b.entries.iter()).all(|(x, y)| {
            x.name == y.name && x.version == y.version && x.repo == y.repo && x.hash == y.hash && x.source == y.source
        })
}

#[test]
fn test_init_command() {
    let m = Manifest::new();
    assert_eq!(m.install_path.as_deref(), Some("."));
    assert!(m.dependencies.is_empty());
}

#[test]
fn test_add_command() {
    let mut m = Manifest::new();
    let replaced = m.add("create-block-theme", "2.5.0", "WordPress/create-block-theme", None);
    assert!(!replaced);
    assert!(m.find("create-block-theme").is_some());
    let d = &m.dependencies[0];
    assert_eq!(d.name, "create-block-theme");
    assert_eq!(d.version, "2.5.0");
    assert_eq!(d.repo, "WordPress/create-block-theme");
}

#[test]
fn test_install_command() {
    let mut m = Manifest::new();
    m.add("create-block-theme", "2.5.0", "WordPress/create-block-theme", None);
    let lock = run(&m, Lockfile::new(), &["v1.8.0", "v2.5.0"], &|v| v.as_bytes().to_vec()).unwrap();
    assert_eq!(versions(&lock), vec![("create-block-theme".to_string(), "2.5.0".to_string())]);
    assert_eq!(lock.entries[0].hash, content_hash(b"2.5.0"));
}

#[test]
fn test_remove_command() {
    let mut m = Manifest::new();
    m.add("create-block-theme", "2.5.0", "WordPress/create-block-theme", None);
    let mut lock = run(&m, Lockfile::new(), &["v2.5.0"], &|v| v.as_bytes().to_vec()).unwrap();
    assert_eq!(remove_dependency(&mut m, &mut lock, "create-block-theme"), Ok(()));
    assert!(m.dependencies.is_empty());
    assert!(lock.entries.is_empty());
}

#[test]
fn test_version_change_updates_lockfile_and_reinstalls_plugin() {
    let mut m = Manifest::new();
    m.add("create-block-theme", "1.8.0", "WordPress/create-block-theme", None);
    let tags = ["v1.8.0", "v2.5.0"];
    let lock = run(&m, Lockfile::new(), &tags, &|v| v.as_bytes().to_vec()).unwrap();
    assert_eq!(lock.entries[0].version, "1.8.0");
    m.add("create-block-theme", "latest", "WordPress/create-block-theme", None);
    let c = resolve(&listing(&tags), "latest").unwrap();
    assert_eq!(plan_directory(&lock, &m.dependencies[0], &c.text, true), DirAction::Recreate);
    let lock = run(&m, lock, &tags, &|v| v.as_bytes().to_vec()).unwrap();
    assert_eq!(lock.entries[0].version, "2.5.0");
    assert_ne!(lock.entries[0].version, "1.8.0");
}

#[test]
fn repeated_latest_installs_give_identical_lockfiles() {
    let mut m = Manifest::new();
    m.add("alpha", "latest", "o/alpha", None);
    m.add("beta", "^1", "o/beta", None);
    let tags = ["0.9.0", "1.0.0", "1.2.3", "2.0.0"];
    let first = run(&m, Lockfile::new(), &tags, &|v| format!("zip of {}", v).into_bytes()).unwrap();
    let again = run(&m, Lockfile { entries: first.entries.iter().map(|e| e.copy()).collect() }, &tags, &|v| format!("zip of {}", v).into_bytes()).unwrap();
    assert!(same_lock(&first, &again));
    assert_eq!(versions(&again), vec![("alpha".to_string(), "2.0.0".to_string()), ("beta".to_string(), "1.2.3".to_string())]);
}

#[test]
fn changed_bytes_for_locked_version_abort_the_run() {
    let mut m = Manifest::new();
    m.add("alpha", "1.0.0", "o/alpha", None);
    let lock = run(&m, Lockfile::new(), &["1.0.0"], &|_| b"first bytes".to_vec()).unwrap();
    let r = run(&m, lock, &["1.0.0"], &|_| b"tampered".to_vec());
    assert_eq!(r.err(), Some(RunError::Integrity("alpha".to_string())));
}

#[test]
fn failed_dependency_keeps_its_old_entry() {
    let mut m = Manifest::new();
    m.add("alpha", "1.0.0", "o/alpha", None);
    let lock = run(&m, Lockfile::new(), &["1.0.0"], &|_| b"x".to_vec()).unwrap();
    let lock = run(&m, lock, &["0.1.0"], &|_| b"x".to_vec()).unwrap();
    assert_eq!(versions(&lock), vec![("alpha".to_string(), "1.0.0".to_string())]);
}

#[test]
fn renamed_case_replaces_its_lock_entry() {
    let mut m = Manifest::new();
    m.add("alpha", "1.0.0", "o/alpha", None);
    let lock = run(&m, Lockfile::new(), &["1.0.0"], &|_| b"x".to_vec()).unwrap();
    assert!(m.add("Alpha", "1.0.0", "o/alpha", None));
    let lock = run(&m, lock, &["1.0.0"], &|_| b"x".to_vec()).unwrap();
    assert_eq!(versions(&lock), vec![("Alpha".to_string(), "1.0.0".to_string())]);
    let r = run(&m, lock, &["1.0.0"], &|_| b"y".to_vec());
    assert_eq!(r.err(), Some(RunError::Integrity("Alpha".to_string())));
}

#[test]
fn uniqueness_checks() {
    let mut m = Manifest::new();
    m.add("alpha", "1", "o/a", None);
    m.add("beta", "1", "o/b", None);
    assert!(m.keys_are_unique());
    m.dependencies.push(dep(" ALPHA", "2", "o/a"));
    assert!(!m.keys_are_unique());
    let mut lock = Lockfile::new();
    lock.entries.push(LockEntry { name: "a".to_string(), version: "1.0.0".to_string(), repo: "o/a".to_string(), hash: "h".to_string(), source: None });
    assert!(lock.keys_are_unique());
    lock.entries.push(LockEntry { name: "A".to_string(), version: "1.0.0".to_string(), repo: "o/a".to_string(), hash: "h".to_string(), source: None });
    assert!(!lock.keys_are_unique());
}

#[test]
fn directory_kept_when_lock_is_current() {
    let mut lock = Lockfile::new();
    lock.entries.push(LockEntry { name: "a".to_string(), version: "1.0.0".to_string(), repo: "o/a".to_string(), hash: "h".to_string(), source: None });
    let d = dep("a", "1.0.0", "o/a");
    assert_eq!(plan_directory(&lock, &d, "1.0.0", true), DirAction::Keep);
    assert_eq!(plan_directory(&lock, &d, "1.0.0", false), DirAction::Create);
    assert_eq!(plan_directory(&lock, &d, "1.1.0", true), DirAction::Recreate);
    assert_eq!(plan_directory(&lock, &dep("a", "1.0.0", "other/a"), "1.0.0", true), DirAction::Recreate);
}

#[test]
fn settle_records_exact_fields() {
    let lock = Lockfile::new();
    let d = Dependency { source: Some("github".to_string()), ..dep("a", "^1", "o/a") };
    match settle(&d, &lock, "1.2.3", b"abc") {
        Outcome::Installed(e) => {
            assert_eq!(e.name, "a");
            assert_eq!(e.version, "1.2.3");
            assert_eq!(e.repo, "o/a");
            assert_eq!(e.hash, "ba7816bf8f01cfea414140de5dae2223b00361a396177a9cb410ff61f20015ad");
            assert_eq!(e.source.as_deref(), Some("github"));
        }
        _ => panic!("expected an installed outcome"),
    }
}

#[test]
fn lock_entries_record_the_source_kind() {
    match settle(&dep("a", "1", "o/a"), &Lockfile::new(), "1.0.0", b"x") {
        Outcome::Installed(e) => {
            assert_eq!(e.source.as_deref(), Some("github"));
            assert_eq!(e.hash.len(), 64);
        }
        _ => panic!("expected an installed outcome"),
    }
}

#[test]
fn cache_names_keep_name_and_version_apart() {
    assert_ne!(cache_file_name("a", "1.0.0-1.0.0"), cache_file_name("a-1.0.0", "1.0.0"));
}

#[test]
fn remove_of_absent_name_changes_nothing() {
    let mut m = Manifest::new();
    m.add("alpha", "1.0.0", "o/alpha", None);
    let mut lock = run(&m, Lockfile::new(), &["1.0.0"], &|_| b"x".to_vec()).unwrap();
    let before_lock = lock.entries.iter().map(|e| e.copy()).collect::<Vec<_>>();
    assert_eq!(remove_dependency(&mut m, &mut lock, "gamma"), Err(ManifestError::NotFound));
    assert_eq!(m.dependencies.len(), 1);
    assert_eq!(m.dependencies[0].name, "alpha");
    assert!(same_lock(&lock, &Lockfile { entries: before_lock }));
    assert_eq!(m.remove("gamma"), Err(ManifestError::NotFound));
}

#[test]
fn add_updates_same_name_in_place_ignoring_case_and_spaces() {
    let mut m = Manifest::new();
    assert!(!m.add("Alpha", "1.0.0", "o/alpha", None));
    assert!(!m.add("beta", "2.0.0", "o/beta", None));
    assert!(m.add("  alpha ", " ^1.1 ", " o/alpha2 ", Some("TOKEN_VAR".to_string())));
    assert_eq!(m.dependencies.len(), 2);
    assert_eq!(m.dependencies[1].name, "beta");
    let d = &m.dependencies[0];
    assert_eq!((d.name.as_str(), d.version.as_str(), d.repo.as_str()), ("alpha", "^1.1", "o/alpha2"));
    assert_eq!(d.token_env.as_deref(), Some("TOKEN_VAR"));
    assert_eq!(m.find("ALPHA"), Some(0));
    assert_eq!(m.find("gamma"), None);
    assert_eq!(m.remove("ALPHA "), Ok(()));
    assert_eq!(m.dependencies.len(), 1);
}

#[test]
fn name_keys() {
    assert_eq!(key_of("  Create-Block-Theme\t"), "create-block-theme");
}

#[test]
fn source_kinds() {
    assert_eq!(dep("a", "1", "o/a").source_kind(), Some(SourceKind::Github));
    let g = Dependency { source: Some("github".to_string()), ..dep("a", "1", "o/a") };
    assert_eq!(g.source_kind(), Some(SourceKind::Github));
    let other = Dependency { source: Some("gitlab".to_string()), ..dep("a", "1", "o/a") };
    assert_eq!(other.source_kind(), None);
}

#[test]
fn addresses_and_cache_names() {
    assert_eq!(archive_url("WordPress/create-block-theme", "v2.5.0"), "https://github.com/WordPress/create-block-theme/archive/refs/tags/v2.5.0.zip");
    assert_eq!(repository_url("o/r"), "https://github.com/o/r.git");
    assert_eq!(bearer("abc"), "Bearer abc");
    assert_eq!(cache_file_name("create-block-theme", "2.5.0"), "create-block-theme@2.5.0.zip");
}

#[test]
fn status_codes() {
    assert_eq!(classify_status(200), Ok(()));
    assert_eq!(classify_status(204), Ok(()));
    assert_eq!(classify_status(401), Err(FetchError::Unauthorized));
    assert_eq!(classify_status(403), Err(FetchError::Forbidden));
    assert_eq!(classify_status(404), Err(FetchError::NotFound));
    assert_eq!(classify_status(500), Err(FetchError::Transport(Some(500))));
    assert_eq!(classify_status(302), Err(FetchError::Transport(Some(302))));
}

#[test]
fn digests() {
    assert_eq!(to_hex(&[0x00, 0xff, 0x1a]), "00ff1a");
    assert_eq!(content_hash(b""), "e3b0c44298fc1c149afbf4c8996fb92427ae41e4649b934ca495991b7852b855");
    assert_eq!(content_hash(b"abc"), "ba7816bf8f01cfea414140de5dae2223b00361a396177a9cb410ff61f20015ad");
}

#[test]
fn entry_plans() {
    assert_eq!(plan_entry("X/"), EntryPlan::Skip);
    assert_eq!(plan_entry("X"), EntryPlan::Skip);
    assert_eq!(plan_entry("X/a/b.txt"), EntryPlan::File("a/b.txt".to_string()));
    assert_eq!(plan_entry("X/dir/sub/"), EntryPlan::Directory("dir/sub".to_string()));
    assert_eq!(plan_entry("X/a/X/b"), EntryPlan::File("a/X/b".to_string()));
    assert_eq!(plan_entry("X/../etc/passwd"), EntryPlan::Invalid);
    assert_eq!(plan_entry("X//abs"), EntryPlan::Invalid);
    assert_eq!(plan_entry("X/a\\b"), EntryPlan::File("a\\b".to_string()));
    assert_eq!(plan_entry("/a"), EntryPlan::Invalid);
    assert_eq!(plan_entry("../a"), EntryPlan::Invalid);
    assert_eq!(plan_entry("X/..\\etc"), EntryPlan::Invalid);
    assert_eq!(plan_entry("X/\\abs"), EntryPlan::Invalid);
    assert_eq!(plan_entry("X/a\0b"), EntryPlan::Invalid);
    assert_eq!(plan_entry("X/a..b/c"), EntryPlan::File("a..b/c".to_string()));
    assert_eq!(plan_entry("\\X/a"), EntryPlan::Invalid);
    assert_eq!(plan_extraction(&vec![None, Some("r/f".to_string())]), vec![EntryPlan::Invalid, EntryPlan::File("f".to_string())]);
}

#[test]
fn archive_root_folder_is_stripped() {
    let bytes = zip_bytes(&[
        ("create-block-theme-2.5.0/", None),
        ("create-block-theme-2.5.0/readme.txt", Some(b"hello")),
        ("create-block-theme-2.5.0/src/", None),
        ("create-block-theme-2.5.0/src/main.php", Some(b"<?php")),
    ]);
    let plan = archive_plan(&bytes).unwrap();
    assert_eq!(
        plan,
        vec![
            EntryPlan::Skip,
            EntryPlan::File("readme.txt".to_string()),
            EntryPlan::Directory("src".to_string()),
            EntryPlan::File("src/main.php".to_string()),
        ]
    );
}

#[test]
fn malformed_archive() {
    assert_eq!(archive_plan(b"not a zip at all").err(), Some(ArchiveError::Malformed));
    assert_eq!(archive_plan(&[]).err(), Some(ArchiveError::Malformed));
}
