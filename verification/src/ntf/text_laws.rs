//! The laws of repository names and paths.

use vstd::prelude::*;
use vstd::utf8::encode_utf8;

use crate::ntf::text::{
    component_bytes, components, full_rev_id, github_url, hex_digit, hex_of, is_char, is_white,
    non_empty, normalized, origin_swhid, pieces, qualified, sha1_digest, trim_by,
    trim_end_by, trim_start_by, white_space, without_prefix, without_prefixes, without_suffix,
};

verus! {

/// A plain name of a repository: with nothing around it that is cut off.
pub open spec fn is_plain_name(name: Seq<char>) -> bool {
    &&& name.len() > 0
    &&& !white_space(name[0]) && !white_space(name.last())
    &&& name[0] != '/' && name.last() != '/'
    &&& !"https://github.com/"@.is_prefix_of(name)
    &&& !"github.com/"@.is_prefix_of(name)
    &&& !".git"@.is_suffix_of(name)
}

/// Where neither end satisfies `p`, nothing is cut off.
proof fn lemma_nothing_to_trim(s: Seq<char>, p: spec_fn(char) -> bool)
    requires
        s.len() > 0,
        !p(s[0]),
        !p(s.last()),
    ensures
        trim_by(s, p) == s,
{
}

/// What stands behind a name without a slash does not make it start with a prefix that ends
/// with one.
proof fn lemma_no_prefix(name: Seq<char>, tail: Seq<char>, prefix: Seq<char>)
    requires
        prefix.len() > 0,
        prefix.last() == '/',
        !tail.contains('/'),
        !prefix.is_prefix_of(name),
    ensures
        !prefix.is_prefix_of(name + tail),
{
    let s = name + tail;
    if prefix.is_prefix_of(s) {
        let k = prefix.len() - 1;
        assert(prefix[k] == s.subrange(0, prefix.len() as int)[k]);
        assert(s[k] == '/');
        if k >= name.len() {
            assert(tail[k - name.len()] == '/');
            assert(tail.contains('/'));
        } else {
            assert(prefix =~= name.subrange(0, prefix.len() as int)) by {
                assert(s.subrange(0, prefix.len() as int) =~= name.subrange(
                    0,
                    prefix.len() as int,
                ));
            }
        }
    }
}

/// A plain name gives one URL, whether or not the host, the scheme and `.git` are written
/// out; and that URL gives itself.
pub proof fn law_github_url_forms(name: Seq<char>)
    requires
        is_plain_name(name),
    ensures
        github_url(name) == "https://github.com/"@ + name,
        github_url("github.com/"@ + name) == github_url(name),
        github_url("https://github.com/"@ + name) == github_url(name),
        github_url(name + ".git"@) == github_url(name),
        github_url("github.com/"@ + name + ".git"@) == github_url(name),
        github_url("https://github.com/"@ + name + ".git"@) == github_url(name),
{
    let scheme = "https://github.com/"@;
    let host = "github.com/"@;
    let git = ".git"@;
    reveal_strlit("https://github.com/");
    reveal_strlit("github.com/");
    reveal_strlit(".git");
    lemma_form(Seq::empty(), name, Seq::empty());
    lemma_form(host, name, Seq::empty());
    lemma_form(scheme, name, Seq::empty());
    lemma_form(Seq::empty(), name, git);
    lemma_form(host, name, git);
    lemma_form(scheme, name, git);
    assert(Seq::<char>::empty() + name + Seq::<char>::empty() =~= name);
    assert(host + name + Seq::<char>::empty() =~= host + name);
    assert(scheme + name + Seq::<char>::empty() =~= scheme + name);
    assert(Seq::<char>::empty() + name + git =~= name + git);
}

/// One of the forms.
proof fn lemma_form(front: Seq<char>, name: Seq<char>, back: Seq<char>)
    requires
        is_plain_name(name),
        front == "https://github.com/"@ || front == "github.com/"@ || front == Seq::<
            char,
        >::empty(),
        back == ".git"@ || back == Seq::<char>::empty(),
    ensures
        github_url(front + name + back) == "https://github.com/"@ + name,
{
    let scheme = "https://github.com/"@;
    let host = "github.com/"@;
    let git = ".git"@;
    reveal_strlit("https://github.com/");
    reveal_strlit("github.com/");
    reveal_strlit(".git");
    let s = front + name + back;
    assert(s[0] == (if front.len() > 0 {
        front[0]
    } else {
        name[0]
    }));
    assert(s.last() == (if back.len() > 0 {
        back.last()
    } else {
        name.last()
    }));
    lemma_nothing_to_trim(s, is_white());
    lemma_nothing_to_trim(s, is_char('/'));
    let rest = name + back;
    assert(!back.contains('/')) by {
        assert forall|i: int| 0 <= i < back.len() implies back[i] != '/' by {}
    }
    lemma_no_prefix(name, back, scheme);
    lemma_no_prefix(name, back, host);
    // The scheme and the host.
    assert(s =~= front + rest);
    let no_scheme = without_prefix(s, scheme);
    let no_host = without_prefix(no_scheme, host);
    if front == scheme {
        assert(scheme =~= s.subrange(0, scheme.len() as int));
        assert(no_scheme =~= rest);
    } else if front == host {
        assert(!scheme.is_prefix_of(s)) by {
            if scheme.is_prefix_of(s) {
                assert(scheme[0] == s.subrange(0, scheme.len() as int)[0]);
            }
        }
        assert(host =~= s.subrange(0, host.len() as int));
        assert(no_host =~= rest);
    } else {
        assert(s =~= rest);
    }
    assert(no_host =~= rest);
    // The suffix.
    if back == git {
        assert(git =~= rest.subrange(rest.len() - git.len(), rest.len() as int));
        assert(without_suffix(rest, git) =~= name);
    } else {
        assert(rest =~= name);
    }
}

/// All forms of a plain name give the same origin.
pub proof fn law_origin_of_forms(name: Seq<char>)
    requires
        is_plain_name(name),
    ensures
        origin_swhid(github_url("https://github.com/"@ + name + ".git"@)) == origin_swhid(
            github_url(name),
        ),
{
    law_github_url_forms(name);
}

/// A normalized path has no backslash in it.
pub proof fn law_normalized_has_no_backslash(path: Seq<char>, i: int)
    requires
        0 <= i < normalized(path).len(),
    ensures
        normalized(path)[i] != '\\',
{
}

/// A normalized path does not start with a slash, unless one stands for a backslash.
pub proof fn law_normalized_is_relative(path: Seq<char>)
    ensures
        normalized(path).len() > 0 && !path.contains('\\') ==> normalized(path)[0] != '/',
{
    let trimmed = trim_by(path, is_white());
    let cut = without_prefixes(trimmed, "./"@);
    let relative = trim_start_by(cut, is_char('/'));
    lemma_trim_start(cut, is_char('/'));
    if relative.len() > 0 && !path.contains('\\') {
        let c = relative[0];
        assert(c == cut[cut.len() - relative.len()]);
        assert(cut.contains(c));
        lemma_within_prefixes(trimmed, "./"@, c);
        lemma_within_trim(path, is_white(), c);
    }
}

proof fn lemma_trim_start(s: Seq<char>, p: spec_fn(char) -> bool)
    ensures
        trim_start_by(s, p).len() <= s.len(),
        trim_start_by(s, p) == s.skip(s.len() - trim_start_by(s, p).len()),
        trim_start_by(s, p).len() > 0 ==> !p(trim_start_by(s, p)[0]),
    decreases s.len(),
{
    if s.len() > 0 && p(s[0]) {
        lemma_trim_start(s.drop_first(), p);
        assert(s.drop_first().skip(s.len() - 1 - trim_start_by(s, p).len()) =~= s.skip(
            s.len() - trim_start_by(s, p).len(),
        ));
    } else {
        assert(s.skip(0) =~= s);
    }
}

proof fn lemma_trim_end(s: Seq<char>, p: spec_fn(char) -> bool)
    ensures
        trim_end_by(s, p).len() <= s.len(),
        trim_end_by(s, p) == s.take(trim_end_by(s, p).len() as int),
    decreases s.len(),
{
    if s.len() > 0 && p(s.last()) {
        lemma_trim_end(s.drop_last(), p);
        assert(s.drop_last().take(trim_end_by(s, p).len() as int) =~= s.take(
            trim_end_by(s, p).len() as int,
        ));
    } else {
        assert(s.take(s.len() as int) =~= s);
    }
}

/// Trimming adds no character.
proof fn lemma_within_trim(s: Seq<char>, p: spec_fn(char) -> bool, c: char)
    requires
        trim_by(s, p).contains(c),
    ensures
        s.contains(c),
{
    let start = trim_start_by(s, p);
    lemma_trim_start(s, p);
    lemma_trim_end(start, p);
    let t = trim_by(s, p);
    let k = choose|k: int| 0 <= k < t.len() && t[k] == c;
    assert(start[k] == c);
    assert(s[s.len() - start.len() + k] == c);
}

/// Cutting off prefixes adds no character.
proof fn lemma_within_prefixes(s: Seq<char>, prefix: Seq<char>, c: char)
    requires
        without_prefixes(s, prefix).contains(c),
    ensures
        s.contains(c),
    decreases s.len(),
{
    if prefix.len() > 0 && prefix.is_prefix_of(s) {
        let rest = s.skip(prefix.len() as int);
        lemma_within_prefixes(rest, prefix, c);
        let k = choose|k: int| 0 <= k < rest.len() && rest[k] == c;
        assert(s[prefix.len() + k] == c);
    }
}

/// The characters that are white space, one by one; all others are not.
pub proof fn law_white_space(c: char)
    ensures
        white_space(c) <==> "\t\n\u{b}\u{c}\r \u{85}\u{a0}\u{1680}\u{2000}\u{2001}\u{2002}\u{2003}\u{2004}\u{2005}\u{2006}\u{2007}\u{2008}\u{2009}\u{200a}\u{2028}\u{2029}\u{202f}\u{205f}\u{3000}"@.contains(
            c,
        ),
{
    reveal_strlit(
        "\t\n\u{b}\u{c}\r \u{85}\u{a0}\u{1680}\u{2000}\u{2001}\u{2002}\u{2003}\u{2004}\u{2005}\u{2006}\u{2007}\u{2008}\u{2009}\u{200a}\u{2028}\u{2029}\u{202f}\u{205f}\u{3000}",
    );
    let all =
        "\t\n\u{b}\u{c}\r \u{85}\u{a0}\u{1680}\u{2000}\u{2001}\u{2002}\u{2003}\u{2004}\u{2005}\u{2006}\u{2007}\u{2008}\u{2009}\u{200a}\u{2028}\u{2029}\u{202f}\u{205f}\u{3000}"@;
    if white_space(c) {
        let u = c as u32;
        let k: int = if 0x9 <= u <= 0xd {
            u - 0x9
        } else if u == 0x20 {
            5
        } else if u == 0x85 {
            6
        } else if u == 0xa0 {
            7
        } else if u == 0x1680 {
            8
        } else if 0x2000 <= u <= 0x200a {
            9 + (u - 0x2000)
        } else if u == 0x2028 {
            20
        } else if u == 0x2029 {
            21
        } else if u == 0x202f {
            22
        } else if u == 0x205f {
            23
        } else {
            24
        };
        assert(all[k] == c);
    }
}

/// All characters satisfy `p`.
pub open spec fn all_satisfy(s: Seq<char>, p: spec_fn(char) -> bool) -> bool {
    forall|i: int| 0 <= i < s.len() ==> p(#[trigger] s[i])
}

/// What satisfies `p` in front is cut off, and no more.
proof fn lemma_cut_front(a: Seq<char>, s: Seq<char>, p: spec_fn(char) -> bool)
    requires
        all_satisfy(a, p),
        s.len() > 0 ==> !p(s[0]),
    ensures
        trim_start_by(a + s, p) == s,
    decreases a.len(),
{
    if a.len() == 0 {
        assert(a + s =~= s);
    } else {
        assert((a + s).drop_first() =~= a.drop_first() + s);
        assert((a + s)[0] == a[0]);
        lemma_cut_front(a.drop_first(), s, p);
    }
}

/// What satisfies `p` behind is cut off, and no more.
proof fn lemma_cut_back(s: Seq<char>, b: Seq<char>, p: spec_fn(char) -> bool)
    requires
        all_satisfy(b, p),
        s.len() > 0 ==> !p(s.last()),
    ensures
        trim_end_by(s + b, p) == s,
    decreases b.len(),
{
    if b.len() == 0 {
        assert(s + b =~= s);
    } else {
        assert((s + b).drop_last() =~= s + b.drop_last());
        assert((s + b).last() == b.last());
        assert(b[b.len() - 1] == b.last());
        lemma_cut_back(s, b.drop_last(), p);
    }
}

/// What satisfies `p` on either side is cut off, and no more.
pub proof fn lemma_cut_around(a: Seq<char>, s: Seq<char>, b: Seq<char>, p: spec_fn(char) -> bool)
    requires
        all_satisfy(a, p),
        all_satisfy(b, p),
        s.len() > 0 ==> !p(s[0]) && !p(s.last()),
    ensures
        trim_by(a + s + b, p) == s,
{
    if s.len() == 0 {
        let none = Seq::<char>::empty();
        assert(a + s + b =~= (a + b) + none);
        lemma_cut_front(a + b, none, p);
        assert(s =~= none);
    } else {
        assert(a + s + b =~= a + (s + b));
        lemma_cut_front(a, s + b, p);
        lemma_cut_back(s, b, p);
    }
}

/// `./` over and over.
pub open spec fn is_dots(s: Seq<char>) -> bool {
    &&& s.len() % 2 == 0
    &&& forall|i: int|
        0 <= i < s.len() ==> #[trigger] s[i] == (if i % 2 == 0 {
            '.'
        } else {
            '/'
        })
}

proof fn lemma_cut_dots(dots: Seq<char>, s: Seq<char>)
    requires
        is_dots(dots),
        !(s.len() > 1 && s[0] == '.' && s[1] == '/'),
    ensures
        without_prefixes(dots + s, "./"@) == s,
    decreases dots.len(),
{
    reveal_strlit("./");
    let all = dots + s;
    if dots.len() == 0 {
        assert(all =~= s);
        if "./"@.is_prefix_of(s) {
            assert("./"@[0] == s.subrange(0, 2)[0] && "./"@[1] == s.subrange(0, 2)[1]);
        }
    } else {
        assert(dots[0] == '.' && dots[1] == '/');
        assert("./"@ =~= all.subrange(0, 2));
        let rest = dots.skip(2);
        assert forall|i: int| 0 <= i < rest.len() implies #[trigger] rest[i] == (if i % 2 == 0 {
            '.'
        } else {
            '/'
        }) by {
            assert(rest[i] == dots[i + 2]);
        }
        assert(all.skip(2) =~= rest + s);
        lemma_cut_dots(rest, s);
    }
}

/// What normalizing a path does to it: it cuts off white space on either side, then `./` over
/// and over, then slashes; in what is left it writes slashes for backslashes and changes nothing
/// else. Every path has these parts, in one way only.
pub proof fn law_normalized_parts(
    white: Seq<char>,
    dots: Seq<char>,
    slashes: Seq<char>,
    rest: Seq<char>,
    behind: Seq<char>,
)
    requires
        forall|i: int| 0 <= i < white.len() ==> white_space(#[trigger] white[i]),
        is_dots(dots),
        forall|i: int| 0 <= i < slashes.len() ==> #[trigger] slashes[i] == '/',
        forall|i: int| 0 <= i < behind.len() ==> white_space(#[trigger] behind[i]),
        rest.len() > 0 ==> rest[0] != '/' && !white_space(rest.last()),
        rest.len() > 0 && dots.len() == 0 && slashes.len() == 0 ==> !white_space(rest[0]),
        rest.len() > 1 && slashes.len() == 0 ==> !(rest[0] == '.' && rest[1] == '/'),
    ensures
        normalized(white + dots + slashes + rest + behind).len() == rest.len(),
        forall|i: int|
            0 <= i < rest.len() ==> #[trigger] normalized(
                white + dots + slashes + rest + behind,
            )[i] == (if rest[i] == '\\' {
                '/'
            } else {
                rest[i]
            }),
{
    let core = dots + slashes + rest;
    let path = white + dots + slashes + rest + behind;
    assert(path =~= white + core + behind);
    if core.len() > 0 {
        if dots.len() > 0 {
            assert(core[0] == dots[0]);
        } else if slashes.len() > 0 {
            assert(core[0] == slashes[0]);
        } else {
            assert(core[0] == rest[0]);
        }
        if rest.len() > 0 {
            assert(core.last() == rest.last());
        } else if slashes.len() > 0 {
            assert(core.last() == slashes[slashes.len() - 1]);
        } else {
            assert(core.last() == dots[dots.len() - 1]);
        }
    }
    lemma_cut_around(white, core, behind, is_white());
    let tail = slashes + rest;
    assert(core =~= dots + tail);
    if slashes.len() > 0 {
        assert(tail[0] == slashes[0]);
    } else {
        assert(tail =~= rest);
    }
    lemma_cut_dots(dots, tail);
    lemma_cut_front(slashes, rest, is_char('/'));
}

/// A path with nothing to cut is kept as it is: without white space at either end, without
/// backslashes, and starting neither with `./` nor with a slash.
pub proof fn law_normalized_keeps(path: Seq<char>)
    requires
        path.len() > 0,
        !white_space(path[0]),
        !white_space(path.last()),
        !path.contains('\\'),
        path[0] != '/',
        path.len() > 1 ==> !(path[0] == '.' && path[1] == '/'),
    ensures
        normalized(path) == path,
        normalized("./"@ + path) == path,
        normalized("/"@ + path) == path,
{
    let none = Seq::<char>::empty();
    reveal_strlit("./");
    reveal_strlit("/");
    law_normalized_parts(none, none, none, path, none);
    law_normalized_parts(none, "./"@, none, path, none);
    law_normalized_parts(none, none, "/"@, path, none);
    assert(none + none + none + path + none =~= path);
    assert(none + "./"@ + none + path + none =~= "./"@ + path);
    assert(none + none + "/"@ + path + none =~= "/"@ + path);
    assert forall|i: int| 0 <= i < path.len() implies path[i] != '\\' by {
        if path[i] == '\\' {
            assert(path.contains('\\'));
        }
    }
    assert(normalized(path) =~= path);
    assert(normalized("./"@ + path) =~= path);
    assert(normalized("/"@ + path) =~= path);
}

/// A backslash is read as a slash behind the first character.
pub proof fn law_backslash_is_slash(path: Seq<char>, other: Seq<char>)
    requires
        path.len() > 1,
        !white_space(path[0]),
        !white_space(path.last()),
        path[0] != '/' && path[0] != '\\' && path[0] != '.',
        other.len() == path.len(),
        forall|i: int|
            0 <= i < path.len() ==> other[i] == #[trigger] path[i] || (path[i] == '\\' && other[i]
                == '/'),
    ensures
        normalized(other) == normalized(path),
        component_bytes(other) == component_bytes(path),
{
    let none = Seq::<char>::empty();
    let n = path.len() - 1;
    assert(path[n] == path.last() && other[n] == other.last());
    assert(path[0] == other[0]);
    law_normalized_parts(none, none, none, path, none);
    law_normalized_parts(none, none, none, other, none);
    assert(none + none + none + path + none =~= path);
    assert(none + none + none + other + none =~= other);
    assert(normalized(other) =~= normalized(path));
}

/// What making the URL of a repository does to its name: it cuts off white space on either side,
/// then slashes on either side, then the scheme with the host once, then the host once, then
/// `.git` once, and puts the rest behind the scheme and the host as it is. Every name has these
/// parts, in one way only.
pub proof fn law_github_url_parts(
    white: Seq<char>,
    slashes: Seq<char>,
    scheme: bool,
    host: bool,
    rest: Seq<char>,
    git: bool,
    after: Seq<char>,
    behind: Seq<char>,
)
    requires
        forall|i: int| 0 <= i < white.len() ==> white_space(#[trigger] white[i]),
        forall|i: int| 0 <= i < slashes.len() ==> #[trigger] slashes[i] == '/',
        forall|i: int| 0 <= i < after.len() ==> #[trigger] after[i] == '/',
        forall|i: int| 0 <= i < behind.len() ==> white_space(#[trigger] behind[i]),
        ({
            let a = if scheme {
                "https://github.com/"@
            } else {
                Seq::empty()
            };
            let b = if host {
                "github.com/"@
            } else {
                Seq::empty()
            };
            let c = if git {
                ".git"@
            } else {
                Seq::empty()
            };
            let core = a + b + rest + c;
            &&& core.len() > 0 ==> core[0] != '/' && core.last() != '/'
            &&& core.len() > 0 && slashes.len() == 0 ==> !white_space(core[0])
            &&& core.len() > 0 && after.len() == 0 ==> !white_space(core.last())
            &&& core.len() == 0 ==> after.len() == 0
            &&& !scheme ==> !"https://github.com/"@.is_prefix_of(core)
            &&& !host ==> !"github.com/"@.is_prefix_of(rest + c)
            &&& !git ==> !".git"@.is_suffix_of(rest)
        }),
    ensures
        github_url(
            white + slashes + (if scheme {
                "https://github.com/"@
            } else {
                Seq::empty()
            }) + (if host {
                "github.com/"@
            } else {
                Seq::empty()
            }) + rest + (if git {
                ".git"@
            } else {
                Seq::empty()
            }) + after + behind,
        ) == "https://github.com/"@ + rest,
{
    reveal_strlit("https://github.com/");
    reveal_strlit("github.com/");
    reveal_strlit(".git");
    let none = Seq::<char>::empty();
    let a = if scheme {
        "https://github.com/"@
    } else {
        none
    };
    let b = if host {
        "github.com/"@
    } else {
        none
    };
    let c = if git {
        ".git"@
    } else {
        none
    };
    let core = a + b + rest + c;
    let inner = slashes + core + after;
    let repo = white + slashes + a + b + rest + c + after + behind;
    assert(repo =~= white + inner + behind);
    if inner.len() > 0 {
        if slashes.len() > 0 {
            assert(inner[0] == slashes[0]);
        } else {
            assert(inner[0] == core[0]);
        }
        if after.len() > 0 {
            assert(inner.last() == after[after.len() - 1]);
        } else if core.len() > 0 {
            assert(inner.last() == core.last());
        } else {
            assert(inner.last() == slashes[slashes.len() - 1]);
        }
    }
    lemma_cut_around(white, inner, behind, is_white());
    lemma_cut_around(slashes, core, after, is_char('/'));
    let no_scheme = b + rest + c;
    let no_host = rest + c;
    if scheme {
        assert("https://github.com/"@ =~= core.subrange(0, a.len() as int));
        assert(core.skip(a.len() as int) =~= no_scheme);
    } else {
        assert(core =~= no_scheme);
    }
    if host {
        assert("github.com/"@ =~= no_scheme.subrange(0, b.len() as int));
        assert(no_scheme.skip(b.len() as int) =~= no_host);
    } else {
        assert(no_scheme =~= no_host);
    }
    if git {
        assert(".git"@ =~= no_host.subrange(no_host.len() - 4, no_host.len() as int));
        assert(no_host.take(no_host.len() - 4) =~= rest);
    } else {
        assert(no_host =~= rest);
    }
}

/// The id of a revision is its SWHID: `swh:1:rev:` and the hash. It is put in front where it is
/// missing, and nothing else changes.
pub proof fn law_full_rev_id(hash: Seq<char>)
    ensures
        full_rev_id("swh:1:rev:"@ + hash) == "swh:1:rev:"@ + hash,
        !"swh:1:rev:"@.is_prefix_of(hash) ==> full_rev_id(hash) == "swh:1:rev:"@ + hash,
        "swh:1:rev:"@.is_prefix_of(hash) ==> full_rev_id(hash) == hash,
        "swh:1:rev:"@.is_prefix_of(full_rev_id(hash)),
{
    let s = "swh:1:rev:"@;
    assert(s =~= (s + hash).subrange(0, s.len() as int));
}

/// The qualified SWHID: the content, then the origin, the visit, the anchor and the normalized
/// path, each behind its word, in this order.
pub proof fn law_qualified(
    cnt: Seq<char>,
    origin: Seq<char>,
    snapshot: Seq<char>,
    rev: Seq<char>,
    path: Seq<char>,
)
    ensures
        ({
            let q = qualified(cnt, origin, snapshot, rev, path);
            let visit = cnt + ";origin="@ + origin;
            let anchor = visit + ";visit="@ + snapshot;
            let file = anchor + ";anchor="@ + rev;
            q == file + ";path=/"@ + normalized(path)
        }),
{
}

/// A path is the components before a slash and those behind it; a piece without a slash is one
/// component, and nothing is none.
pub proof fn law_components_split(a: Seq<char>, b: Seq<char>)
    ensures
        components(a.push('/') + b) == components(a) + components(b),
        a.len() > 0 && !a.contains('/') ==> components(a) == seq![a],
        a.len() == 0 ==> components(a) == Seq::<Seq<char>>::empty(),
{
    reveal(Seq::filter);
    lemma_pieces_split(a, b);
    let front = pieces(a);
    let tail = pieces(b);
    Seq::filter_distributes_over_add(front, tail, non_empty());
    if !a.contains('/') {
        lemma_one_piece(a);
        let none = Seq::<Seq<char>>::empty();
        assert(seq![a].drop_last() =~= none);
        assert(none.filter(non_empty()) =~= none);
        assert(seq![a].last() == a);
        if a.len() > 0 {
            assert(components(a) =~= seq![a]);
        } else {
            assert(components(a) =~= Seq::<Seq<char>>::empty());
        }
    }
}

proof fn lemma_one_piece(a: Seq<char>)
    requires
        !a.contains('/'),
    ensures
        pieces(a) == seq![a],
    decreases a.len(),
{
    if a.len() == 0 {
        assert(a =~= Seq::<char>::empty());
    } else {
        let before = a.drop_last();
        assert(a[a.len() - 1] == a.last());
        assert(a.contains(a.last()));
        assert(!before.contains('/')) by {
            if before.contains('/') {
                let k = choose|k: int| 0 <= k < before.len() && before[k] == '/';
                assert(a[k] == '/');
            }
        }
        lemma_one_piece(before);
        assert(before.push(a.last()) =~= a);
        assert(pieces(a) =~= seq![a]);
    }
}

proof fn lemma_pieces_split(a: Seq<char>, b: Seq<char>)
    ensures
        pieces(a.push('/') + b) == pieces(a) + pieces(b),
        pieces(b).len() > 0,
    decreases b.len(),
{
    let all = a.push('/') + b;
    if b.len() == 0 {
        assert(all =~= a.push('/'));
        assert(all.drop_last() =~= a);
        assert(pieces(all) =~= pieces(a) + pieces(b));
    } else {
        lemma_pieces_split(a, b.drop_last());
        assert(all.drop_last() =~= a.push('/') + b.drop_last());
        assert(all.last() == b.last());
        assert(pieces(all) =~= pieces(a) + pieces(b));
    }
}

/// The names on a path are the bytes of the components of the normalized path, in order.
pub proof fn law_component_bytes(path: Seq<char>, i: int)
    requires
        0 <= i < components(normalized(path)).len(),
    ensures
        component_bytes(path).len() == components(normalized(path)).len(),
        component_bytes(path)[i] == encode_utf8(components(normalized(path))[i]),
{
}

/// A path that is written with plain components and slashes between them has just these names.
pub proof fn law_names_on_path(front: Seq<char>, name: Seq<char>)
    requires
        front.len() > 0,
        name.len() > 0,
        !white_space(front[0]),
        !white_space(name.last()),
        !front.contains('\\') && !name.contains('\\') && !name.contains('/'),
        front[0] != '/',
        front.len() > 1 ==> !(front[0] == '.' && front[1] == '/'),
        front != "."@,
        !white_space(front.last()),
    ensures
        component_bytes(front.push('/') + name) == component_bytes(front).push(encode_utf8(name)),
{
    reveal_strlit(".");
    let path = front.push('/') + name;
    assert(path[0] == front[0]);
    assert(path.last() == name.last());
    if front.len() == 1 {
        assert(front[0] != '.') by {
            if front[0] == '.' {
                assert(front =~= "."@);
            }
        }
    } else {
        assert(path[1] == front[1]);
    }
    assert(!path.contains('\\')) by {
        if path.contains('\\') {
            let k = choose|k: int| 0 <= k < path.len() && path[k] == '\\';
            if k < front.len() {
                assert(front[k] == '\\');
            } else if k > front.len() {
                assert(name[k - front.len() - 1] == '\\');
            }
        }
    }
    law_normalized_keeps(path);
    law_normalized_keeps(front);
    law_components_split(front, name);
    law_components_split(name, name);
    assert(component_bytes(path) =~= component_bytes(front).push(encode_utf8(name)));
}

/// Bytes in hexadecimal digits: two for each, the higher one first, in lower case.
pub proof fn law_hex_digits(bytes: Seq<u8>, i: int)
    requires
        0 <= i < bytes.len(),
    ensures
        hex_of(bytes).len() == 2 * bytes.len(),
        hex_of(bytes)[2 * i] == "0123456789abcdef"@[bytes[i] as int / 16],
        hex_of(bytes)[2 * i + 1] == "0123456789abcdef"@[bytes[i] as int % 16],
{
    reveal_strlit("0123456789abcdef");
    lemma_hex_digit(bytes[i] as int / 16);
    lemma_hex_digit(bytes[i] as int % 16);
}

proof fn lemma_hex_digit(n: int)
    requires
        0 <= n < 16,
    ensures
        hex_digit(n) == "0123456789abcdef"@[n],
{
    reveal_strlit("0123456789abcdef");
}

/// The SWHID of an origin is the SHA-1 digest of the bytes of its URL as it is written: URLs
/// with different digests have different SWHIDs, and the digest can be read off.
pub proof fn law_origin_swhid(url: Seq<char>)
    ensures
        origin_swhid(url) == "swh:1:ori:"@ + hex_of(sha1_digest(encode_utf8(url))),
{
}

/// Byte strings that are written alike are alike.
pub proof fn law_hex_unique(a: Seq<u8>, b: Seq<u8>)
    requires
        hex_of(a) == hex_of(b),
    ensures
        a == b,
{
    reveal_strlit("0123456789abcdef");
    assert(hex_of(a).len() == 2 * a.len());
    assert(hex_of(b).len() == 2 * b.len());
    assert forall|i: int| 0 <= i < a.len() implies a[i] == b[i] by {
        law_hex_digits(a, i);
        law_hex_digits(b, i);
        assert(hex_of(a)[2 * i] == hex_of(b)[2 * i]);
        assert(hex_of(a)[2 * i + 1] == hex_of(b)[2 * i + 1]);
        lemma_digit_value(a[i] as int / 16, b[i] as int / 16);
        lemma_digit_value(a[i] as int % 16, b[i] as int % 16);
    }
    assert(a =~= b);
}

proof fn lemma_digit_value(a: int, b: int)
    requires
        0 <= a < 16,
        0 <= b < 16,
        "0123456789abcdef"@[a] == "0123456789abcdef"@[b],
    ensures
        a == b,
{
    reveal_strlit("0123456789abcdef");
}

/// Two URLs have one origin just where their bytes have one digest.
pub proof fn law_origin_by_digest(a: Seq<char>, b: Seq<char>)
    ensures
        origin_swhid(a) == origin_swhid(b) <==> sha1_digest(encode_utf8(a)) == sha1_digest(
            encode_utf8(b),
        ),
{
    let s = "swh:1:ori:"@;
    if origin_swhid(a) == origin_swhid(b) {
        let x = hex_of(sha1_digest(encode_utf8(a)));
        let y = hex_of(sha1_digest(encode_utf8(b)));
        assert((s + x).skip(s.len() as int) =~= x);
        assert((s + y).skip(s.len() as int) =~= y);
        law_hex_unique(sha1_digest(encode_utf8(a)), sha1_digest(encode_utf8(b)));
    }
}

} // verus!
