//! Reading tags out of a repository's tag listing, one `<hash>\trefs/tags/<tag>`
//! record per line, and turning them into version candidates.

use vstd::prelude::*;
use crate::text::{after_first, rest_after_first, chars_of, has_prefix, has_suffix, segments, slice, split_on, string_of, views};
use crate::version::{is_digit, version_of_text, Version, VersionView};

verus! {

pub open spec fn refs_tags() -> Seq<char> {
    seq!['r', 'e', 'f', 's', '/', 't', 'a', 'g', 's', '/']
}

/// The suffix that marks the peeled form of an annotated tag.
pub open spec fn peeled_mark() -> Seq<char> {
    seq!['^', '{', '}']
}

/// `s` with every trailing peeled mark removed.
pub open spec fn trim_peeled(s: Seq<char>) -> Seq<char>
    decreases s.len(),
{
    if s.len() >= 3 && s.skip(s.len() - 3) == peeled_mark() {
        trim_peeled(s.take(s.len() - 3))
    } else {
        s
    }
}

/// A line without the carriage return that may end it.
pub open spec fn without_cr(line: Seq<char>) -> Seq<char> {
    if line.len() > 0 && line.last() == '\r' {
        line.drop_last()
    } else {
        line
    }
}

/// The tag named by one line of a listing.
pub open spec fn line_tag(line: Seq<char>) -> Option<Seq<char>> {
    match after_first(without_cr(line), '\t') {
        Some(rest) => if rest.len() >= 10 && rest.take(10) == refs_tags() {
            Some(trim_peeled(rest.skip(10)))
        } else {
            None
        },
        None => None,
    }
}

/// The tags of a list of lines, in order.
pub open spec fn tags_of_lines(lines: Seq<Seq<char>>) -> Seq<Seq<char>>
    decreases lines.len(),
{
    if lines.len() == 0 {
        Seq::empty()
    } else {
        let prev = tags_of_lines(lines.drop_last());
        match line_tag(lines.last()) {
            Some(t) => prev.push(t),
            None => prev,
        }
    }
}

/// The tags that a listing names, in order.
pub open spec fn listing_tags(listing: Seq<char>) -> Seq<Seq<char>> {
    tags_of_lines(segments(listing, '\n'))
}

/// `s` without the non-digit characters that lead it (`v1.2.3` gives `1.2.3`).
pub open spec fn skip_non_digits(s: Seq<char>) -> Seq<char>
    decreases s.len(),
{
    if s.len() > 0 && !is_digit(s[0]) {
        skip_non_digits(s.drop_first())
    } else {
        s
    }
}

/// A published version: the tag as published, the version text read from it
/// and the version that text denotes.
pub struct Candidate {
    pub tag: String,
    pub text: String,
    pub version: Version,
}

pub ghost struct CandidateView {
    pub tag: Seq<char>,
    pub text: Seq<char>,
    pub version: VersionView,
}

impl View for Candidate {
    type V = CandidateView;

    open spec fn view(&self) -> CandidateView {
        CandidateView { tag: self.tag@, text: self.text@, version: self.version@ }
    }
}

pub open spec fn candidate_views(v: Seq<Candidate>) -> Seq<CandidateView> {
    Seq::new(v.len(), |i: int| v[i]@)
}

/// The candidate that a tag gives, if what follows its leading non-digits
/// is a semantic version.
pub open spec fn candidate_of(tag: Seq<char>) -> Option<CandidateView> {
    let text = skip_non_digits(tag);
    match version_of_text(text) {
        Some(v) => Some(CandidateView { tag, text, version: v }),
        None => None,
    }
}

/// The candidates of a list of tags, in order; tags that are no version are left out.
pub open spec fn candidates_of(tags: Seq<Seq<char>>) -> Seq<CandidateView>
    decreases tags.len(),
{
    if tags.len() == 0 {
        Seq::empty()
    } else {
        let prev = candidates_of(tags.drop_last());
        match candidate_of(tags.last()) {
            Some(c) => prev.push(c),
            None => prev,
        }
    }
}

/// A candidate's version is the one its version text denotes.
pub open spec fn candidate_ok(c: CandidateView) -> bool {
    version_of_text(c.text) == Some(c.version)
}

pub proof fn lemma_candidates_ok(tags: Seq<Seq<char>>)
    ensures
        forall|i: int| 0 <= i < candidates_of(tags).len() ==> candidate_ok(#[trigger] candidates_of(tags)[i]),
    decreases tags.len(),
{
    if tags.len() > 0 {
        lemma_candidates_ok(tags.drop_last());
        let prev = candidates_of(tags.drop_last());
        match candidate_of(tags.last()) {
            Some(c) => {
                assert(candidates_of(tags) == prev.push(c));
                assert(candidate_ok(c));
                assert forall|i: int| 0 <= i < prev.len() + 1 implies candidate_ok(
                    #[trigger] prev.push(c)[i],
                ) by {
                    if i < prev.len() {
                        assert(prev.push(c)[i] == prev[i]);
                    }
                }
            },
            None => {},
        }
    }
}

/// The candidates that a listing offers.
pub open spec fn listing_candidates(listing: Seq<char>) -> Seq<CandidateView> {
    candidates_of(listing_tags(listing))
}

fn strip_peeled(s: Vec<char>) -> (r: Vec<char>)
    ensures
        r@ == trim_peeled(s@),
{
    let mark = vec!['^', '{', '}'];
    let mut cur = s;
    while has_suffix(&cur, &mark)
        invariant
            mark@ == peeled_mark(),
            trim_peeled(cur@) == trim_peeled(s@),
        decreases cur.len(),
    {
        cur = slice(&cur, 0, cur.len() - 3);
    }
    cur
}

/// The tag named by one line of a listing.
pub fn tag_of_line(line: &Vec<char>) -> (r: Option<Vec<char>>)
    ensures
        r matches Some(t) ==> line_tag(line@) == Some(t@),
        r is None ==> line_tag(line@) is None,
{
    let body = if line.len() > 0 && line[line.len() - 1] == '\r' {
        slice(line, 0, line.len() - 1)
    } else {
        slice(line, 0, line.len())
    };
    assert(line@.subrange(0, line.len() as int) =~= line@);
    assert(line.len() > 0 ==> line@.subrange(0, line.len() - 1) =~= line@.drop_last());
    match rest_after_first(&body, '\t') {
        None => None,
        Some(rest) => {
            let prefix = vec!['r', 'e', 'f', 's', '/', 't', 'a', 'g', 's', '/'];
            if has_prefix(&rest, &prefix) {
                let tag = slice(&rest, 10, rest.len());
                Some(strip_peeled(tag))
            } else {
                None
            }
        },
    }
}

/// The tags that a listing names, in order.
pub fn tags_of_listing(listing: &str) -> (r: Vec<Vec<char>>)
    ensures
        views(r@) == listing_tags(listing@),
{
    let chars = chars_of(listing);
    let lines = split_on(&chars, '\n');
    let ghost ls = views(lines@);
    let mut out: Vec<Vec<char>> = Vec::new();
    let mut i: usize = 0;
    assert(ls.take(0) =~= Seq::<Seq<char>>::empty());
    while i < lines.len()
        invariant
            i <= lines.len(),
            ls == views(lines@),
            ls == segments(listing@, '\n'),
            views(out@) == tags_of_lines(ls.take(i as int)),
        decreases lines.len() - i,
    {
        assert(ls.take(i as int + 1).drop_last() =~= ls.take(i as int));
        assert(ls.take(i as int + 1).last() == lines@[i as int]@);
        let ghost before = out@;
        match tag_of_line(&lines[i]) {
            Some(t) => {
                out.push(t);
                assert(views(out@) =~= views(before).push(t@));
            },
            None => {},
        }
        i = i + 1;
    }
    assert(ls.take(lines.len() as int) =~= ls);
    out
}

fn drop_leading_non_digits(s: &Vec<char>) -> (r: Vec<char>)
    ensures
        r@ == skip_non_digits(s@),
{
    let mut i: usize = 0;
    assert(s@.skip(0) =~= s@);
    while i < s.len() && !('0' <= s[i] && s[i] <= '9')
        invariant
            i <= s.len(),
            skip_non_digits(s@) == skip_non_digits(s@.skip(i as int)),
        decreases s.len() - i,
    {
        assert(s@.skip(i as int).drop_first() =~= s@.skip(i as int + 1));
        i = i + 1;
    }
    let r = slice(s, i, s.len());
    assert(r@ =~= s@.skip(i as int));
    r
}

impl Candidate {
    /// The candidate that a tag gives, if it names a semantic version once
    /// its leading non-digits are dropped.
    pub fn from_tag(tag: &Vec<char>) -> (r: Option<Candidate>)
        ensures
            r matches Some(c) ==> candidate_of(tag@) == Some(c@),
            r is None ==> candidate_of(tag@) is None,
    {
        let text = drop_leading_non_digits(tag);
        let text_string = string_of(text.as_slice());
        match Version::parse(text_string.as_str()) {
            Some(version) => Some(Candidate { tag: string_of(tag.as_slice()), text: text_string, version }),
            None => None,
        }
    }
}

/// The candidates that a tag listing offers, in the listing's order.
pub fn candidates_from_listing(listing: &str) -> (r: Vec<Candidate>)
    ensures
        candidate_views(r@) == listing_candidates(listing@),
{
    let tags = tags_of_listing(listing);
    let ghost ts = views(tags@);
    let mut out: Vec<Candidate> = Vec::new();
    let mut i: usize = 0;
    assert(ts.take(0) =~= Seq::<Seq<char>>::empty());
    while i < tags.len()
        invariant
            i <= tags.len(),
            ts == views(tags@),
            ts == listing_tags(listing@),
            candidate_views(out@) == candidates_of(ts.take(i as int)),
        decreases tags.len() - i,
    {
        assert(ts.take(i as int + 1).drop_last() =~= ts.take(i as int));
        assert(ts.take(i as int + 1).last() == tags@[i as int]@);
        let ghost before = out@;
        match Candidate::from_tag(&tags[i]) {
            Some(c) => {
                let ghost cv = c@;
                out.push(c);
                assert(candidate_views(out@) =~= candidate_views(before).push(cv));
            },
            None => {},
        }
        i = i + 1;
    }
    assert(ts.take(tags.len() as int) =~= ts);
    out
}

} // verus!
