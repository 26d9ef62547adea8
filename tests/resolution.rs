use wdm::resolve::{resolve, resolve_index, ResolveError};
use wdm::tags::{candidates_from_listing, tags_of_listing, Candidate};
use wdm::version::{precedence_of, Version};

fn listing(tags: &[&str]) -> String {
    let mut out = String::new();
    for (i, t) in tags.iter().enumerate() {
        out.push_str(&format!("{:040x}\trefs/tags/{}\n", i, t));
    }
    out
}

fn text_of(c: &Candidate) -> String {
    c.text.clone()
}

#[test]
fn caret_range_picks_highest_match() {
    let l = listing(&["0.9.0", "1.0.0", "1.2.3", "2.0.0"]);
    let c = resolve(&l, "^1.0.0").unwrap();
    assert_eq!(text_of(&c), "1.2.3");
    assert_eq!(c.tag, "1.2.3");
}

#[test]
fn latest_picks_highest_version() {
    let l = listing(&["v1.8.0", "v2.5.0", "v2.4.9", "v0.1.0"]);
    let c = resolve(&l, "latest").unwrap();
    assert_eq!(c.text, "2.5.0");
    assert_eq!(c.tag, "v2.5.0");
}

#[test]
fn latest_ranks_release_above_prerelease() {
    let l = listing(&["v1.0.0-rc.1", "v1.0.0", "v1.0.0-beta.11"]);
    let c = resolve(&l, "latest").unwrap();
    assert_eq!(c.text, "1.0.0");
}

#[test]
fn latest_over_prereleases_only() {
    let l = listing(&["1.0.0-alpha", "1.0.0-alpha.1", "1.0.0-beta.2", "1.0.0-beta.11", "1.0.0-alpha.beta"]);
    let c = resolve(&l, "latest").unwrap();
    assert_eq!(c.text, "1.0.0-beta.11");
}

#[test]
fn exact_version_present() {
    let l = listing(&["v1.8.0", "v2.5.0"]);
    let c = resolve(&l, "1.8.0").unwrap();
    assert_eq!(c.text, "1.8.0");
    assert_eq!(c.tag, "v1.8.0");
}

#[test]
fn exact_version_absent() {
    let l = listing(&["v1.8.0", "v2.5.0"]);
    assert_eq!(resolve(&l, "1.9.0").err(), Some(ResolveError::VersionNotFound));
}

#[test]
fn range_without_match() {
    let l = listing(&["0.9.0", "1.0.0", "1.2.3", "2.0.0"]);
    assert_eq!(resolve(&l, "^3.0.0").err(), Some(ResolveError::NoMatchingVersion));
}

#[test]
fn invalid_requirement() {
    let l = listing(&["1.0.0"]);
    assert_eq!(resolve(&l, "@@not a range").err(), Some(ResolveError::InvalidRequirement));
}

#[test]
fn no_valid_versions() {
    let l = listing(&["nightly", "release-candidate"]);
    assert_eq!(resolve(&l, "latest").err(), Some(ResolveError::NoValidVersions));
    assert_eq!(resolve("", "latest").err(), Some(ResolveError::NoValidVersions));
}

#[test]
fn tilde_and_comparison_ranges() {
    let l = listing(&["1.2.0", "1.2.9", "1.3.0", "2.0.0"]);
    assert_eq!(resolve(&l, "~1.2").unwrap().text, "1.2.9");
    assert_eq!(resolve(&l, ">=1.0.0, <2.0.0").unwrap().text, "1.3.0");
}

#[test]
fn equal_precedence_broken_by_build_metadata() {
    let l = listing(&["v1.0.0+a", "v1.0.0+b", "v0.5.0"]);
    let cands = candidates_from_listing(&l);
    assert_eq!(resolve_index(&cands, "latest"), Ok(1));
    let reordered = listing(&["v0.5.0", "v1.0.0+b", "v1.0.0+a"]);
    assert_eq!(resolve(&reordered, "latest").unwrap().text, "1.0.0+b");
    assert_eq!(resolve(&l, "latest").unwrap().text, "1.0.0+b");
}

#[test]
fn listing_order_and_repetition_do_not_matter() {
    let a = listing(&["0.9.0", "1.0.0", "1.2.3", "2.0.0"]);
    let b = listing(&["2.0.0", "1.2.3", "1.2.3", "0.9.0", "1.0.0"]);
    for req in ["latest", "^1.0.0", "1.0.0", "~0.9", "^5", "1.1.1"] {
        assert_eq!(resolve(&a, req).map(|c| c.text), resolve(&b, req).map(|c| c.text), "{}", req);
    }
}

#[test]
fn exact_version_with_repeated_tags_picks_the_first_tag() {
    let l = listing(&["v1.0.0", "release-1.0.0"]);
    let c = resolve(&l, "1.0.0").unwrap();
    assert_eq!(c.tag, "v1.0.0");
}

#[test]
fn listing_reads_annotated_and_crlf_lines() {
    let l = "aaa\trefs/tags/v1.0.0\r\nbbb\trefs/tags/v1.0.0^{}\nccc\trefs/heads/main\nno tab here\n";
    let tags: Vec<String> = tags_of_listing(l).iter().map(|t| t.iter().collect()).collect();
    assert_eq!(tags, vec!["v1.0.0".to_string(), "v1.0.0".to_string()]);
}

#[test]
fn leading_non_digits_are_dropped() {
    let l = listing(&["release-2.1.0", "v2.0.0", "junk"]);
    let cands = candidates_from_listing(&l);
    let texts: Vec<String> = cands.iter().map(|c| c.text.clone()).collect();
    assert_eq!(texts, vec!["2.1.0".to_string(), "2.0.0".to_string()]);
}

#[test]
fn version_parse_and_precedence() {
    let a = Version::parse("1.0.0-alpha.1").unwrap();
    assert_eq!(precedence_of("1.0.0-alpha.1", "1.0.0-alpha.beta"), Some(-1));
    assert_eq!(precedence_of("1.0.0-alpha.beta", "1.0.0-beta.2"), Some(-1));
    assert_eq!(precedence_of("1.0.0-beta.2", "1.0.0-beta.11"), Some(-1));
    assert_eq!(precedence_of("1.0.0-beta.11", "1.0.0"), Some(-1));
    assert_eq!(precedence_of("1.0.0", "1.0.0-alpha.1"), Some(1));
    assert_eq!(precedence_of("1.0.0", "1.0.0"), Some(0));
    assert_eq!(precedence_of("1.0", "1.0.0"), None);
    assert_eq!(a.major, 1);
    assert_eq!(a.pre.len(), 2);
    assert!(Version::parse("1.0").is_none());
    assert!(Version::parse("v1.0.0").is_none());
}

#[test]
fn build_metadata_ignored_by_precedence_not_by_identity() {
    let a = Version::parse("1.2.3+x").unwrap();
    let b = Version::parse("1.2.3+y").unwrap();
    assert_eq!(precedence_of("1.2.3+x", "1.2.3+y"), Some(0));
    assert!(!a.same_as(&b));
    assert!(a.same_as(&Version::parse("1.2.3+x").unwrap()));
}

#[test]
fn precedence_agrees_with_semver() {
    let texts = [
        "0.9.0", "1.0.0-alpha", "1.0.0-alpha.1", "1.0.0-alpha.beta", "1.0.0-beta", "1.0.0-beta.2",
        "1.0.0-beta.11", "1.0.0-rc.1", "1.0.0", "1.0.0+build.7", "1.2.3", "1.10.0", "2.0.0-0", "2.0.0-x-y",
    ];
    for a in texts.iter() {
        for b in texts.iter() {
            let ours = precedence_of(a, b).unwrap();
            let theirs = semver::Version::parse(a).unwrap().cmp_precedence(&semver::Version::parse(b).unwrap());
            assert_eq!(ours, theirs as i8, "{} vs {}", a, b);
        }
    }
}
