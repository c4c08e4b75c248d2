//! Repository names, SWHIDs and paths as text.

use std::borrow::Cow;

use vstd::prelude::*;
use vstd::slice::slice_subrange;
use vstd::string::{StrSliceExecFns, StringExecFns};
use vstd::utf8::encode_utf8;

verus! {

/// `String::push` appends the character to the end of the string.
pub assume_specification[ String::push ](s: &mut String, c: char)
    ensures
        final(s)@ == old(s)@.push(c),
;

/// The characters with the Unicode property White_Space.
pub open spec fn white_space(c: char) -> bool {
    ||| 0x9 <= c as u32 <= 0xd
    ||| c as u32 == 0x20
    ||| c as u32 == 0x85
    ||| c as u32 == 0xa0
    ||| c as u32 == 0x1680
    ||| 0x2000 <= c as u32 <= 0x200a
    ||| c as u32 == 0x2028
    ||| c as u32 == 0x2029
    ||| c as u32 == 0x202f
    ||| c as u32 == 0x205f
    ||| c as u32 == 0x3000
}

/// Whether a character has the Unicode property White_Space.
pub fn is_white_space(c: char) -> (r: bool)
    ensures
        r == white_space(c),
{
    let u: u32 = c as u32;
    (0x9 <= u && u <= 0xd) || u == 0x20 || u == 0x85 || u == 0xa0 || u == 0x1680 || (0x2000 <= u
        && u <= 0x200a) || u == 0x2028 || u == 0x2029 || u == 0x202f || u == 0x205f || u == 0x3000
}

/// Without the characters at the start that satisfy `p`.
pub open spec fn trim_start_by(s: Seq<char>, p: spec_fn(char) -> bool) -> Seq<char>
    decreases s.len(),
{
    if s.len() > 0 && p(s[0]) {
        trim_start_by(s.drop_first(), p)
    } else {
        s
    }
}

/// Without the characters at the end that satisfy `p`.
pub open spec fn trim_end_by(s: Seq<char>, p: spec_fn(char) -> bool) -> Seq<char>
    decreases s.len(),
{
    if s.len() > 0 && p(s.last()) {
        trim_end_by(s.drop_last(), p)
    } else {
        s
    }
}

/// Without the characters at either end that satisfy `p`.
pub open spec fn trim_by(s: Seq<char>, p: spec_fn(char) -> bool) -> Seq<char> {
    trim_end_by(trim_start_by(s, p), p)
}

/// Is white space.
pub open spec fn is_white() -> spec_fn(char) -> bool {
    |c: char| white_space(c)
}

/// Is the character `d`.
pub open spec fn is_char(d: char) -> spec_fn(char) -> bool {
    |c: char| c == d
}

/// Without `prefix` at the start, if it is there.
pub open spec fn without_prefix(s: Seq<char>, prefix: Seq<char>) -> Seq<char> {
    if prefix.is_prefix_of(s) {
        s.skip(prefix.len() as int)
    } else {
        s
    }
}

/// Without `suffix` at the end, if it is there.
pub open spec fn without_suffix(s: Seq<char>, suffix: Seq<char>) -> Seq<char> {
    if suffix.is_suffix_of(s) {
        s.take(s.len() - suffix.len())
    } else {
        s
    }
}

/// Without `prefix` at the start, as often as it is there.
pub open spec fn without_prefixes(s: Seq<char>, prefix: Seq<char>) -> Seq<char>
    decreases s.len(),
{
    if prefix.len() > 0 && prefix.is_prefix_of(s) {
        without_prefixes(s.skip(prefix.len() as int), prefix)
    } else {
        s
    }
}

/// The characters of a string.
pub fn to_chars(s: &str) -> (r: Vec<char>)
    ensures
        r@ == s@,
{
    let mut chars: Vec<char> = Vec::new();
    for c in iter: s.chars()
        invariant
            chars@ == iter.seq().take(iter.index()),
            iter.seq() == s@,
    {
        proof {
            assert(iter.seq().take(iter.index() + 1) =~= iter.seq().take(iter.index()).push(c));
        }
        chars.push(c);
    }
    assert(s@.take(s@.len() as int) =~= s@);
    chars
}

/// Appends characters to a string.
fn push_chars(out: &mut String, s: &[char])
    ensures
        final(out)@ == old(out)@ + s@,
{
    let mut i: usize = 0;
    while i < s.len()
        invariant
            i <= s@.len(),
            out@ == old(out)@ + s@.take(i as int),
        decreases s@.len() - i,
    {
        out.push(s[i]);
        proof {
            assert(s@.take(i + 1) =~= s@.take(i as int).push(s@[i as int]));
        }
        i = i + 1;
    }
    assert(s@.take(i as int) =~= s@);
}

/// `trim_by` for white space.
pub fn trim_white(s: &[char]) -> (r: &[char])
    ensures
        r@ == trim_by(s@, is_white()),
{
    let mut lo: usize = 0;
    assert(s@.skip(0) =~= s@);
    while lo < s.len() && is_white_space(s[lo])
        invariant
            lo <= s@.len(),
            trim_start_by(s@.skip(lo as int), is_white()) == trim_start_by(s@, is_white()),
        decreases s@.len() - lo,
    {
        proof {
            assert(s@.skip(lo as int).drop_first() =~= s@.skip(lo + 1));
        }
        lo = lo + 1;
    }
    let ghost start = s@.skip(lo as int);
    let mut hi: usize = s.len();
    assert(s@.subrange(lo as int, hi as int) =~= start);
    while hi > lo && is_white_space(s[hi - 1])
        invariant
            lo <= hi <= s@.len(),
            trim_end_by(s@.subrange(lo as int, hi as int), is_white()) == trim_end_by(
                start,
                is_white(),
            ),
        decreases hi,
    {
        proof {
            assert(s@.subrange(lo as int, hi as int).drop_last() =~= s@.subrange(
                lo as int,
                hi - 1,
            ));
        }
        hi = hi - 1;
    }
    slice_subrange(s, lo, hi)
}

/// `trim_start_by` for one character.
fn trim_start_char(s: &[char], d: char) -> (r: &[char])
    ensures
        r@ == trim_start_by(s@, is_char(d)),
{
    let mut lo: usize = 0;
    assert(s@.skip(0) =~= s@);
    while lo < s.len() && s[lo] == d
        invariant
            lo <= s@.len(),
            trim_start_by(s@.skip(lo as int), is_char(d)) == trim_start_by(s@, is_char(d)),
        decreases s@.len() - lo,
    {
        proof {
            assert(s@.skip(lo as int).drop_first() =~= s@.skip(lo + 1));
        }
        lo = lo + 1;
    }
    assert(s@.subrange(lo as int, s@.len() as int) =~= s@.skip(lo as int));
    slice_subrange(s, lo, s.len())
}

/// `trim_end_by` for one character.
fn trim_end_char(s: &[char], d: char) -> (r: &[char])
    ensures
        r@ == trim_end_by(s@, is_char(d)),
{
    let mut hi: usize = s.len();
    assert(s@.take(hi as int) =~= s@);
    while hi > 0 && s[hi - 1] == d
        invariant
            hi <= s@.len(),
            trim_end_by(s@.take(hi as int), is_char(d)) == trim_end_by(s@, is_char(d)),
        decreases hi,
    {
        proof {
            assert(s@.take(hi as int).drop_last() =~= s@.take(hi - 1));
        }
        hi = hi - 1;
    }
    assert(s@.subrange(0, hi as int) =~= s@.take(hi as int));
    slice_subrange(s, 0, hi)
}

/// Whether `s` starts with `prefix`.
fn starts_with(s: &[char], prefix: &[char]) -> (r: bool)
    ensures
        r == prefix@.is_prefix_of(s@),
{
    if prefix.len() > s.len() {
        return false;
    }
    let mut i: usize = 0;
    while i < prefix.len()
        invariant
            i <= prefix@.len() <= s@.len(),
            forall|j: int| 0 <= j < i ==> prefix@[j] == s@[j],
        decreases prefix@.len() - i,
    {
        if prefix[i] != s[i] {
            assert(prefix@[i as int] != s@.subrange(0, prefix@.len() as int)[i as int]);
            return false;
        }
        i = i + 1;
    }
    assert(prefix@ =~= s@.subrange(0, prefix@.len() as int));
    true
}

/// Whether `s` ends with `suffix`.
fn ends_with(s: &[char], suffix: &[char]) -> (r: bool)
    ensures
        r == suffix@.is_suffix_of(s@),
{
    if suffix.len() > s.len() {
        return false;
    }
    let tail = slice_subrange(s, s.len() - suffix.len(), s.len());
    let r = starts_with(tail, suffix);
    proof {
        assert(tail@.subrange(0, suffix@.len() as int) =~= tail@);
    }
    r
}

/// `without_prefix`, with the prefix as a string.
fn strip_prefix<'a>(s: &'a [char], prefix: &str) -> (r: &'a [char])
    ensures
        r@ == without_prefix(s@, prefix@),
{
    let p = to_chars(prefix);
    if starts_with(s, p.as_slice()) {
        slice_subrange(s, p.len(), s.len())
    } else {
        s
    }
}

/// `without_suffix`, with the suffix as a string.
fn strip_suffix<'a>(s: &'a [char], suffix: &str) -> (r: &'a [char])
    ensures
        r@ == without_suffix(s@, suffix@),
{
    let p = to_chars(suffix);
    if ends_with(s, p.as_slice()) {
        slice_subrange(s, 0, s.len() - p.len())
    } else {
        s
    }
}

/// The address of a repository on GitHub, from its name with or without host, scheme and
/// `.git`.
pub open spec fn github_url(repo: Seq<char>) -> Seq<char> {
    let trimmed = trim_by(trim_by(repo, is_white()), is_char('/'));
    let no_scheme = without_prefix(trimmed, "https://github.com/"@);
    let no_host = without_prefix(no_scheme, "github.com/"@);
    "https://github.com/"@ + without_suffix(no_host, ".git"@)
}

/// The origin URL of a repository.
pub fn canonical_github_url(repo: &str) -> (r: String)
    ensures
        r@ == github_url(repo@),
{
    let chars = to_chars(repo);
    let trimmed = trim_end_char(trim_start_char(trim_white(chars.as_slice()), '/'), '/');
    let no_scheme = strip_prefix(trimmed, "https://github.com/");
    let no_host = strip_prefix(no_scheme, "github.com/");
    let name = strip_suffix(no_host, ".git");
    let mut url = String::new();
    url.append("https://github.com/");
    push_chars(&mut url, name);
    proof {
        assert(url@ =~= github_url(repo@));
    }
    url
}

/// A slash for a backslash, every other character as it is.
pub open spec fn slash(c: char) -> char {
    if c == '\\' {
        '/'
    } else {
        c
    }
}

/// A path without white space around it, then without `./` and then without slashes at the
/// start, and with slashes for backslashes.
pub open spec fn normalized(path: Seq<char>) -> Seq<char> {
    let trimmed = trim_by(path, is_white());
    let relative = trim_start_by(without_prefixes(trimmed, "./"@), is_char('/'));
    relative.map_values(|c: char| slash(c))
}

/// The characters of the normalized path.
fn normalize_chars(p: &str) -> (r: Vec<char>)
    ensures
        r@ == normalized(p@),
{
    let chars = to_chars(p);
    let mut s = trim_white(chars.as_slice());
    let ghost trimmed = s@;
    proof {
        reveal_strlit("./");
    }
    loop
        invariant
            without_prefixes(s@, "./"@) == without_prefixes(trimmed, "./"@),
            "./"@.len() == 2,
        ensures
            s@ == without_prefixes(trimmed, "./"@),
        decreases s@.len(),
    {
        let rest = strip_prefix(s, "./");
        if rest.len() == s.len() {
            break;
        }
        s = rest;
    }
    let relative = trim_start_char(s, '/');
    let mut out: Vec<char> = Vec::new();
    let mut i: usize = 0;
    while i < relative.len()
        invariant
            i <= relative@.len(),
            out@ == relative@.take(i as int).map_values(|c: char| slash(c)),
        decreases relative@.len() - i,
    {
        let c: char = relative[i];
        out.push(if c == '\\' {
            '/'
        } else {
            c
        });
        proof {
            assert(relative@.take(i + 1) =~= relative@.take(i as int).push(c));
            assert(out@ =~= relative@.take(i + 1).map_values(|c: char| slash(c)));
        }
        i = i + 1;
    }
    assert(relative@.take(i as int) =~= relative@);
    out
}

/// The normalized path.
pub fn normalize_path(p: &str) -> (r: String)
    ensures
        r@ == normalized(p@),
{
    let chars = normalize_chars(p);
    let mut out = String::new();
    push_chars(&mut out, chars.as_slice());
    assert(out@ =~= normalized(p@));
    out
}

/// The SWHID of a revision, from that SWHID or from the bare hash.
pub open spec fn full_rev_id(id: Seq<char>) -> Seq<char> {
    if "swh:1:rev:"@.is_prefix_of(id) {
        id
    } else {
        "swh:1:rev:"@ + id
    }
}

/// The SWHID of a revision, from that SWHID or from the bare hash.
pub fn normalize_rev_id(id: &str) -> (r: Cow<'_, str>)
    ensures
        r@ == full_rev_id(id@),
        r is Borrowed <==> "swh:1:rev:"@.is_prefix_of(id@),
{
    let chars = to_chars(id);
    let prefix = to_chars("swh:1:rev:");
    if starts_with(chars.as_slice(), prefix.as_slice()) {
        Cow::Borrowed(id)
    } else {
        let mut s = String::new();
        s.append("swh:1:rev:");
        s.append(id);
        assert(s@ =~= full_rev_id(id@));
        Cow::Owned(s)
    }
}

/// The qualified SWHID of a content.
pub open spec fn qualified(
    cnt_swhid: Seq<char>,
    origin_url: Seq<char>,
    snapshot_swhid: Seq<char>,
    rev_swhid: Seq<char>,
    rel_path: Seq<char>,
) -> Seq<char> {
    cnt_swhid + ";origin="@ + origin_url + ";visit="@ + snapshot_swhid + ";anchor="@ + rev_swhid
        + ";path=/"@ + normalized(rel_path)
}

/// Builds the qualified SWHID of a content. The snapshot may be empty.
pub fn build_qualified(
    cnt_swhid: &str,
    origin_url: &str,
    snapshot_swhid: &str,
    rev_swhid: &str,
    rel_path: &str,
) -> (r: String)
    ensures
        r@ == qualified(cnt_swhid@, origin_url@, snapshot_swhid@, rev_swhid@, rel_path@),
{
    let mut s = String::new();
    s.append(cnt_swhid);
    s.append(";origin=");
    s.append(origin_url);
    s.append(";visit=");
    s.append(snapshot_swhid);
    s.append(";anchor=");
    s.append(rev_swhid);
    s.append(";path=/");
    s.append(normalize_path(rel_path).as_str());
    proof {
        assert(Seq::<char>::empty() + cnt_swhid@ =~= cnt_swhid@);
    }
    s
}

/// What stands before, between and behind the slashes of a path.
pub open spec fn pieces(path: Seq<char>) -> Seq<Seq<char>>
    decreases path.len(),
{
    if path.len() == 0 {
        seq![Seq::empty()]
    } else {
        let before = pieces(path.drop_last());
        if path.last() == '/' {
            before.push(Seq::empty())
        } else {
            before.drop_last().push(before.last().push(path.last()))
        }
    }
}

/// Is not empty.
pub open spec fn non_empty() -> spec_fn(Seq<char>) -> bool {
    |s: Seq<char>| s.len() > 0
}

/// The components of a path: what stands between its slashes and is not empty.
pub open spec fn components(path: Seq<char>) -> Seq<Seq<char>> {
    pieces(path).filter(non_empty())
}

/// The components of a relative path as bytes.
pub open spec fn component_bytes(rel_path: Seq<char>) -> Seq<Seq<u8>> {
    components(normalized(rel_path)).map_values(|s: Seq<char>| encode_utf8(s))
}

/// Byte strings as mathematics sees them.
pub open spec fn bytes_view(v: Seq<Vec<u8>>) -> Seq<Seq<u8>> {
    v.map_values(|b: Vec<u8>| b@)
}

/// Splits a relative path into its components.
pub fn path_components(rel_path: &str) -> (r: Vec<Vec<u8>>)
    ensures
        bytes_view(r@) == component_bytes(rel_path@),
{
    let path = normalize_chars(rel_path);
    let mut out: Vec<Vec<u8>> = Vec::new();
    let mut cur = String::new();
    let mut i: usize = 0;
    proof {
        reveal(Seq::filter);
        assert(path@.take(0) =~= Seq::empty());
        assert(bytes_view(out@) =~= finished(pieces(path@.take(0)).drop_last()));
    }
    while i < path.len()
        invariant
            i <= path@.len(),
            pieces(path@.take(i as int)).len() > 0,
            cur@ == pieces(path@.take(i as int)).last(),
            bytes_view(out@) == finished(pieces(path@.take(i as int)).drop_last()),
        decreases path@.len() - i,
    {
        let c: char = path[i];
        let ghost before = pieces(path@.take(i as int));
        let ghost after = pieces(path@.take(i + 1));
        proof {
            assert(path@.take(i + 1).drop_last() =~= path@.take(i as int));
            assert(path@.take(i + 1).last() == c);
        }
        if c == '/' {
            proof {
                lemma_finish(before.drop_last(), cur@);
                assert(before.drop_last().push(cur@) =~= before);
                assert(after.drop_last() =~= before);
            }
            if !cur.as_str().is_empty() {
                out.push(cur.as_str().as_bytes_vec());
                assert(bytes_view(out@) =~= finished(before));
            }
            cur = String::new();
        } else {
            proof {
                assert(after.drop_last() =~= before.drop_last());
            }
            cur.push(c);
        }
        i = i + 1;
    }
    proof {
        assert(path@.take(i as int) =~= path@);
        let all = pieces(path@);
        lemma_finish(all.drop_last(), cur@);
        assert(all.drop_last().push(cur@) =~= all);
    }
    if !cur.as_str().is_empty() {
        out.push(cur.as_str().as_bytes_vec());
    }
    assert(bytes_view(out@) =~= component_bytes(rel_path@));
    out
}

/// The bytes of the pieces that are not empty.
spec fn finished(pieces: Seq<Seq<char>>) -> Seq<Seq<u8>> {
    pieces.filter(non_empty()).map_values(|s: Seq<char>| encode_utf8(s))
}

proof fn lemma_finish(before: Seq<Seq<char>>, piece: Seq<char>)
    ensures
        finished(before.push(piece)) == (if piece.len() == 0 {
            finished(before)
        } else {
            finished(before).push(encode_utf8(piece))
        }),
{
    reveal(Seq::filter);
    assert(before.push(piece).drop_last() =~= before);
    assert(finished(before.push(piece)) =~= (if piece.len() == 0 {
        finished(before)
    } else {
        finished(before).push(encode_utf8(piece))
    }));
}

/// The lower-case hexadecimal digit of a number below 16.
pub open spec fn hex_digit(n: int) -> char {
    if n < 10 {
        (0x30 + n) as char
    } else {
        (0x61 + n - 10) as char
    }
}

/// The two digits of each byte, the higher one first.
pub open spec fn hex_of(bytes: Seq<u8>) -> Seq<char> {
    Seq::new(
        2 * bytes.len(),
        |i: int|
            hex_digit(
                if i % 2 == 0 {
                    bytes[i / 2] as int / 16
                } else {
                    bytes[i / 2] as int % 16
                },
            ),
    )
}

/// The SHA-1 digest of a byte string.
pub uninterp spec fn sha1_digest(data: Seq<u8>) -> Seq<u8>;

/// `sha1::Sha1`, created with `new`, fed by one `update` and read by `finalize`, is a
/// function of the bytes it was fed.
#[verifier::external_body]
fn sha1(data: &[u8]) -> (r: [u8; 20])
    ensures
        r@ == sha1_digest(data@),
{
    let mut h = <sha1::Sha1 as sha1::Digest>::new();
    sha1::Digest::update(&mut h, data);
    sha1::Digest::finalize(h).into()
}

/// `hex::encode` writes each byte as two lower-case hexadecimal digits.
#[verifier::external_body]
fn hex_encode(data: &[u8]) -> (r: String)
    ensures
        r@ == hex_of(data@),
{
    hex::encode(data)
}

/// The SWHID of the origin with the given URL.
pub open spec fn origin_swhid(url: Seq<char>) -> Seq<char> {
    "swh:1:ori:"@ + hex_of(sha1_digest(encode_utf8(url)))
}

/// The SWHID of the origin with the given URL, in its text form.
pub fn origin_swhid_from_url(url: &str) -> (r: String)
    ensures
        r@ == origin_swhid(url@),
        r@ == "swh:1:ori:"@ + hex_of(sha1_digest(encode_utf8(url@))),
{
    origin_swhid_from_digest(&sha1(url.as_bytes()))
}

/// The SWHID of the origin whose URL has the given digest.
pub fn origin_swhid_from_digest(digest: &[u8; 20]) -> (r: String)
    ensures
        r@ == "swh:1:ori:"@ + hex_of(digest@),
{
    let hex = hex_encode(digest.as_slice());
    let mut s = String::new();
    s.append("swh:1:ori:");
    s.append(hex.as_str());
    assert(s@ =~= "swh:1:ori:"@ + hex_of(digest@));
    s
}

} // verus!
