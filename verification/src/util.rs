//! Hashing and URL helpers.

use vstd::prelude::*;
use sha2::Digest;

verus! {

/// Relies on `String::push`: appends one character.
#[verifier::external_body]
pub fn string_push_char(s: &mut String, c: char)
    ensures
        final(s)@ == old(s)@.push(c),
{
    s.push(c);
}

/// The lowercase hex digit for `n` (0 to 15).
pub open spec fn hex_digit(n: int) -> char {
    seq!['0', '1', '2', '3', '4', '5', '6', '7', '8', '9', 'a', 'b', 'c', 'd', 'e', 'f'][n]
}

/// The lowercase hex text of the bytes, two digits each, in order.
pub open spec fn hex_of(b: Seq<u8>) -> Seq<char>
    decreases b.len(),
{
    if b.len() == 0 {
        Seq::empty()
    } else {
        seq![hex_digit(b[0] as int / 16), hex_digit(b[0] as int % 16)] + hex_of(b.drop_first())
    }
}

/// Relies on `hex::encode`: two lowercase digits per byte, in input
/// order.
#[verifier::external_body]
pub fn hex_encode(data: &[u8]) -> (r: String)
    ensures
        r@ == hex_of(data@),
{
    hex::encode(data)
}

/// The SHA-256 digest of the data; it depends on the bytes alone.
pub uninterp spec fn sha256_of(data: Seq<u8>) -> Seq<u8>;

/// Relies on `sha2::Sha256`: the 32-byte SHA-256 digest, a function of
/// the input alone.
#[verifier::external_body]
fn sha256_digest(data: &[u8]) -> (r: Vec<u8>)
    ensures
        r@ == sha256_of(data@),
        r@.len() == 32,
{
    let mut hasher = sha2::Sha256::new();
    hasher.update(data);
    hasher.finalize().to_vec()
}

/// The SHA-256 digest of the data, written in lowercase hex.
pub fn calculate_sha256(data: &[u8]) -> (r: String)
    ensures
        r@ == hex_of(sha256_of(data@)),
        r@.len() == 64,
{
    let digest = sha256_digest(data);
    proof {
        lemma_hex_of_len(digest@);
    }
    hex_encode(digest.as_slice())
}

/// Hex text is twice as long as its bytes.
proof fn lemma_hex_of_len(b: Seq<u8>)
    ensures
        hex_of(b).len() == 2 * b.len(),
    decreases b.len(),
{
    if b.len() > 0 {
        lemma_hex_of_len(b.drop_first());
    }
}

/// Whether `url::Url::parse` accepts the text.
pub uninterp spec fn url_ok(s: Seq<char>) -> bool;

/// The path of the parsed URL; it depends on the text alone.
pub uninterp spec fn url_path_of(s: Seq<char>) -> Seq<char>;

/// Relies on `url::Url::parse` and `url::Url::path`: whether the text
/// parses as a URL, and the parsed URL's path component.
#[verifier::external_body]
fn url_path(s: &str) -> (r: Option<String>)
    ensures
        r is Some <==> url_ok(s@),
        r matches Some(p) ==> p@ == url_path_of(s@),
{
    match url::Url::parse(s) {
        Ok(u) => Some(u.path().to_owned()),
        Err(_) => None,
    }
}

/// The characters after the last `/` (the whole text when it has none).
pub open spec fn last_segment(p: Seq<char>) -> Seq<char>
    decreases p.len(),
{
    if p.len() == 0 {
        Seq::empty()
    } else if p.last() == '/' {
        Seq::empty()
    } else {
        last_segment(p.drop_last()).push(p.last())
    }
}

/// The text with every trailing `.tgz` removed.
pub open spec fn strip_tgz(s: Seq<char>) -> Seq<char>
    decreases s.len(),
{
    if ends_tgz(s) {
        strip_tgz(s.subrange(0, s.len() - 4))
    } else {
        s
    }
}

/// The text ends in `.tgz`.
pub open spec fn ends_tgz(s: Seq<char>) -> bool {
    s.len() >= 4 && s[s.len() - 4] == '.' && s[s.len() - 3] == 't' && s[s.len() - 2] == 'g'
        && s[s.len() - 1] == 'z'
}

/// The last path segment of the URL, with any `.tgz` suffix removed —
/// the package name a registry tarball URL conventionally carries.
/// `None` exactly when the text is not a URL.
pub fn get_package_name_from_url(url_str: &String) -> (r: Option<String>)
    ensures
        r is Some <==> url_ok(url_str@),
        r matches Some(name) ==> name@ == strip_tgz(last_segment(url_path_of(url_str@))),
{
    let path = match url_path(url_str.as_str()) {
        Some(p) => p,
        None => {
            return None;
        },
    };
    let n = path.as_str().unicode_len();
    proof {
        assert(path@.subrange(0, n as int) =~= path@);
    }
    let mut i: usize = n;
    while i > 0
        invariant
            n == path@.len(),
            0 <= i <= n,
            url_ok(url_str@),
            path@ == url_path_of(url_str@),
            last_segment(path@) == last_segment(path@.subrange(0, i as int)) + path@.subrange(
                i as int,
                n as int,
            ),
        decreases i,
    {
        proof {
            let pre = path@.subrange(0, i as int);
            assert(pre.last() == path@[i - 1]);
            assert(pre.drop_last() =~= path@.subrange(0, i - 1 as int));
            if path@[i - 1] != '/' {
                assert(last_segment(pre) == last_segment(pre.drop_last()).push(pre.last()));
                assert(last_segment(pre.drop_last()).push(pre.last()) + path@.subrange(
                    i as int,
                    n as int,
                ) =~= last_segment(pre.drop_last()) + path@.subrange(i - 1 as int, n as int));
            } else {
                assert(last_segment(pre) =~= Seq::<char>::empty());
                assert(last_segment(pre) + path@.subrange(i as int, n as int) =~= path@.subrange(
                    i as int,
                    n as int,
                ));
            }
        }
        if path.as_str().get_char(i - 1) == '/' {
            let seg = path.as_str().substring_char(i, n).to_owned();
            proof {
                assert(last_segment(path@) =~= seg@);
            }
            return Some(strip_tgz_exec(seg));
        }
        i = i - 1;
    }
    proof {
        assert(path@.subrange(0, 0) =~= Seq::<char>::empty());
        assert(last_segment(path@) =~= path@);
    }
    Some(strip_tgz_exec(path))
}

/// Removes every trailing `.tgz`.
fn strip_tgz_exec(s: String) -> (r: String)
    ensures
        r@ == strip_tgz(s@),
    decreases s@.len(),
{
    let n = s.as_str().unicode_len();
    let has_suffix = n >= 4 && s.as_str().get_char(n - 4) == '.' && s.as_str().get_char(n - 3)
        == 't' && s.as_str().get_char(n - 2) == 'g' && s.as_str().get_char(n - 1) == 'z';
    if has_suffix {
        let shorter = s.as_str().substring_char(0, n - 4).to_owned();
        strip_tgz_exec(shorter)
    } else {
        s
    }
}

} // verus!
