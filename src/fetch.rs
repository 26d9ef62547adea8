//! Where archives and tag listings are fetched from, how a response status
//! is read, where a fetched archive is cached, and its content hash.

use vstd::prelude::*;
use vstd::string::StringExecFns;

verus! {

#[derive(Clone, Copy, Debug, PartialEq, Eq, Structural)]
pub enum FetchError {
    /// The credential was refused (HTTP 401).
    Unauthorized,
    /// Access is forbidden (HTTP 403).
    Forbidden,
    /// No archive at that address (HTTP 404).
    NotFound,
    /// Any other failure to obtain the archive; the status, if one came.
    Transport(Option<u16>),
}

/// The address of the archive of a tag: `https://github.com/<repo>/archive/refs/tags/<tag>.zip`.
pub open spec fn archive_url_of(repo: Seq<char>, tag: Seq<char>) -> Seq<char> {
    "https://github.com/"@ + repo + "/archive/refs/tags/"@ + tag + ".zip"@
}

/// The cache entry of a resolved version: `<name>@<version>.zip`.
pub open spec fn cache_name_of(name: Seq<char>, version: Seq<char>) -> Seq<char> {
    name + seq!['@'] + version + seq!['.', 'z', 'i', 'p']
}

/// Cache entries of different dependencies or versions never coincide: the
/// key is one-to-one in (name, version) for versions without `@`, as every
/// text that `semver` accepts as a version is (it allows only ASCII letters,
/// digits, `.`, `-` and `+`).
pub proof fn cache_names_distinct(n1: Seq<char>, v1: Seq<char>, n2: Seq<char>, v2: Seq<char>)
    requires
        !v1.contains('@'),
        !v2.contains('@'),
        cache_name_of(n1, v1) == cache_name_of(n2, v2),
    ensures
        n1 == n2,
        v1 == v2,
{
    let t = cache_name_of(n1, v1);
    let m1 = n1.len() as int;
    let m2 = n2.len() as int;
    let u = cache_name_of(n2, v2);
    assert(t.len() == m1 + 1 + v1.len() + 4);
    assert(u.len() == m2 + 1 + v2.len() + 4);
    assert(t[m1] == '@');
    assert(u[m2] == '@');
    if m1 > m2 {
        assert(0 <= m1 - m2 - 1 < v2.len());
        assert(u[m1] == v2[m1 - m2 - 1]);
        assert(v2.contains(v2[m1 - m2 - 1]));
    } else if m1 < m2 {
        assert(0 <= m2 - m1 - 1 < v1.len());
        assert(t[m2] == v1[m2 - m1 - 1]);
        assert(v1.contains(v1[m2 - m1 - 1]));
    }
    assert(n1 =~= t.subrange(0, m1));
    assert(n2 =~= cache_name_of(n2, v2).subrange(0, m2));
    assert(v1 =~= t.subrange(m1 + 1, m1 + 1 + v1.len()));
    assert(v2 =~= cache_name_of(n2, v2).subrange(m2 + 1, m2 + 1 + v2.len()));
}

/// The address of the archive of a tag.
pub fn archive_url(repo: &str, tag: &str) -> (r: String)
    ensures
        r@ == archive_url_of(repo@, tag@),
{
    let mut r = String::from_str("https://github.com/");
    r.append(repo);
    r.append("/archive/refs/tags/");
    r.append(tag);
    r.append(".zip");
    r
}

/// The address from which a repository's tags are listed: `https://github.com/<repo>.git`.
pub fn repository_url(repo: &str) -> (r: String)
    ensures
        r@ == "https://github.com/"@ + repo@ + ".git"@,
{
    let mut r = String::from_str("https://github.com/");
    r.append(repo);
    r.append(".git");
    r
}

/// The value of the authorization header that carries a token.
pub fn bearer(token: &str) -> (r: String)
    ensures
        r@ == "Bearer "@ + token@,
{
    let mut r = String::from_str("Bearer ");
    r.append(token);
    r
}

/// The cache entry of a resolved version.
pub fn cache_file_name(name: &str, version: &str) -> (r: String)
    ensures
        r@ == cache_name_of(name@, version@),
{
    let mut chars = crate::text::chars_of(name);
    chars.push('@');
    let v = crate::text::chars_of(version);
    let mut i: usize = 0;
    while i < v.len()
        invariant
            i <= v.len(),
            chars@ == name@ + seq!['@'] + v@.take(i as int),
        decreases v.len() - i,
    {
        chars.push(v[i]);
        i = i + 1;
        assert(chars@ =~= name@ + seq!['@'] + v@.take(i as int));
    }
    chars.push('.');
    chars.push('z');
    chars.push('i');
    chars.push('p');
    assert(v@.take(v.len() as int) =~= v@);
    assert(chars@ =~= cache_name_of(name@, version@));
    crate::text::string_of(chars.as_slice())
}

/// How a response status decides a fetch: success for 2xx, a distinct error
/// for 401, 403 and 404, a transport error for anything else.
pub open spec fn status_outcome(code: u16) -> Result<(), FetchError> {
    if 200 <= code <= 299 {
        Ok(())
    } else if code == 401 {
        Err(FetchError::Unauthorized)
    } else if code == 403 {
        Err(FetchError::Forbidden)
    } else if code == 404 {
        Err(FetchError::NotFound)
    } else {
        Err(FetchError::Transport(Some(code)))
    }
}

/// Reads a response status.
pub fn classify_status(code: u16) -> (r: Result<(), FetchError>)
    ensures
        r == status_outcome(code),
{
    if 200 <= code && code <= 299 {
        Ok(())
    } else if code == 401 {
        Err(FetchError::Unauthorized)
    } else if code == 403 {
        Err(FetchError::Forbidden)
    } else if code == 404 {
        Err(FetchError::NotFound)
    } else {
        Err(FetchError::Transport(Some(code)))
    }
}

/// The SHA-256 digest of a byte sequence.
pub uninterp spec fn sha256_of(bytes: Seq<u8>) -> Seq<u8>;

/// Relies on `sha2::Sha256::digest`: the 32-byte digest of the bytes.
#[verifier::external_body]
fn sha256(bytes: &[u8]) -> (r: Vec<u8>)
    ensures
        r@ == sha256_of(bytes@),
        r@.len() == 32,
{
    <sha2::Sha256 as sha2::Digest>::digest(bytes).to_vec()
}

pub open spec fn hex_digits() -> Seq<char> {
    seq!['0', '1', '2', '3', '4', '5', '6', '7', '8', '9', 'a', 'b', 'c', 'd', 'e', 'f']
}

/// Lower-case hexadecimal, two digits per byte, high nibble first.
pub open spec fn hex_of(bytes: Seq<u8>) -> Seq<char>
    decreases bytes.len(),
{
    if bytes.len() == 0 {
        Seq::empty()
    } else {
        let b = bytes.last();
        hex_of(bytes.drop_last()) + seq![hex_digits()[(b / 16) as int], hex_digits()[(b % 16) as int]]
    }
}

/// Lower-case hexadecimal text of the bytes.
pub fn to_hex(bytes: &[u8]) -> (r: String)
    ensures
        r@ == hex_of(bytes@),
        r@.len() == 2 * bytes@.len(),
{
    let digits = vec!['0', '1', '2', '3', '4', '5', '6', '7', '8', '9', 'a', 'b', 'c', 'd', 'e', 'f'];
    let mut out: Vec<char> = Vec::new();
    let mut i: usize = 0;
    while i < bytes.len()
        invariant
            i <= bytes.len(),
            digits@ == hex_digits(),
            out@ == hex_of(bytes@.take(i as int)),
            out@.len() == 2 * i,
        decreases bytes.len() - i,
    {
        let b = bytes[i];
        out.push(digits[(b / 16) as usize]);
        out.push(digits[(b % 16) as usize]);
        assert(bytes@.take(i as int + 1).drop_last() =~= bytes@.take(i as int));
        assert(out@ =~= hex_of(bytes@.take(i as int + 1)));
        i = i + 1;
    }
    assert(bytes@.take(bytes.len() as int) =~= bytes@);
    crate::text::string_of(out.as_slice())
}

/// The content hash of an archive: the hexadecimal SHA-256 digest of its bytes.
pub open spec fn content_hash_of(bytes: Seq<u8>) -> Seq<char> {
    hex_of(sha256_of(bytes))
}

/// The content hash of the exact bytes of an archive.
pub fn content_hash(bytes: &[u8]) -> (r: String)
    ensures
        r@ == content_hash_of(bytes@),
        r@.len() == 64,
{
    let digest = sha256(bytes);
    to_hex(digest.as_slice())
}

} // verus!
