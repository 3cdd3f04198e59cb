//! Include patterns: from gitignore notation to globs.

use vstd::prelude::*;
use vstd::string::*;

use crate::text;
use crate::text::{has_char, trimmed};

verus! {

/// The glob for everything under a directory.
pub open spec fn under(dir: Seq<char>) -> Seq<char> {
    dir + "/**"@
}

/// The glob for a name at any depth.
pub open spec fn any_depth(name: Seq<char>) -> Seq<char> {
    "**/"@ + name
}

/// The text after one leading slash, if there is one.
pub open spec fn after_slash(s: Seq<char>) -> Seq<char> {
    if s.len() > 0 && s[0] == '/' {
        s.drop_first()
    } else {
        s
    }
}

/// Whether a pattern names directories: it ends in a slash.
pub open spec fn names_directory(p: Seq<char>) -> bool {
    p.len() > 0 && p.last() == '/'
}

/// Whether a pattern is tied to the workspace root: it holds a slash.
pub open spec fn is_anchored(p: Seq<char>) -> bool {
    p.contains('/')
}

/// The globs that together match the paths that a gitignore pattern matches,
/// where only `**` matches a slash.
///
/// - `docs/` stands for everything under `docs` at the root.
/// - `/foo` and `foo/bar` stand for that path at the root, and everything under it.
/// - `*.rs` stands for that name at any depth, and everything under it.
pub open spec fn glob_texts(pat: Seq<char>) -> Seq<Seq<char>> {
    let p = text::trim(pat);
    if names_directory(p) {
        seq![under(after_slash(p.drop_last()))]
    } else if is_anchored(p) {
        seq![after_slash(p), under(after_slash(p))]
    } else {
        seq![any_depth(p), under(any_depth(p))]
    }
}

fn glob_under(dir: &str) -> (r: String)
    ensures
        r@ == under(dir@),
{
    let mut s = String::new();
    s.append(dir);
    s.append("/**");
    assert(s@ =~= under(dir@));
    s
}

fn glob_any_depth(name: &str) -> (r: String)
    ensures
        r@ == any_depth(name@),
{
    let mut s = String::new();
    s.append("**/");
    s.append(name);
    assert(s@ =~= any_depth(name@));
    s
}

fn strip_leading_slash(s: &str) -> (r: &str)
    ensures
        r@ == after_slash(s@),
{
    let n: usize = s.unicode_len();
    if n > 0 && s.get_char(0) == '/' {
        assert(s@.drop_first() =~= s@.subrange(1, n as int));
        s.substring_char(1, n)
    } else {
        s
    }
}

/// Converts one gitignore pattern into globs that together match the same
/// paths.
pub fn gitignore_to_glob_patterns(pat: &str) -> (globs: Vec<String>)
    ensures
        text::texts(globs@) == glob_texts(pat@),
{
    let pat = trimmed(pat);
    let n: usize = pat.unicode_len();
    let mut globs: Vec<String> = Vec::new();
    if n > 0 && pat.get_char(n - 1) == '/' {
        let prefix = pat.substring_char(0, n - 1);
        assert(prefix@ =~= pat@.drop_last());
        globs.push(glob_under(strip_leading_slash(prefix)));
        return globs;
    }
    if has_char(pat, '/') {
        let body = strip_leading_slash(pat);
        globs.push(body.to_owned());
        globs.push(glob_under(body));
    } else {
        let anywhere = glob_any_depth(pat);
        let below = glob_under(anywhere.as_str());
        globs.push(anywhere);
        globs.push(below);
    }
    globs
}

// ---------------------------------------------------------------------------
// Laws
// ---------------------------------------------------------------------------


/// A pattern with a slash at its end stands for one glob: what is under it.
pub proof fn directory_pattern_has_one_glob(pat: Seq<char>)
    requires
        text::trim(pat).len() > 0,
        text::trim(pat).last() == '/',
    ensures
        ({
            let p = text::trim(pat);
            let dir = if p.len() > 1 && p[0] == '/' {
                p.subrange(1, p.len() - 1)
            } else {
                p.subrange(0, p.len() - 1)
            };
            glob_texts(pat) == seq![dir + "/**"@]
        }),
{
    let p = text::trim(pat);
    let d = p.drop_last();
    if p.len() > 1 {
        assert(d[0] == p[0]);
        assert(d.drop_first() =~= p.subrange(1, p.len() - 1));
    }
    assert(d =~= p.subrange(0, p.len() - 1));
}

/// A pattern with a slash, but none at its end, stands for itself, without one
/// slash at its start, and for what is under it, whatever characters it holds.
pub proof fn anchored_pattern_stands_for_itself(pat: Seq<char>)
    requires
        text::trim(pat).contains('/'),
        text::trim(pat).last() != '/',
    ensures
        ({
            let p = text::trim(pat);
            let path = if p[0] == '/' {
                p.subrange(1, p.len() as int)
            } else {
                p
            };
            glob_texts(pat) == seq![path, path + "/**"@]
        }),
{
    let p = text::trim(pat);
    assert(p.drop_first() =~= p.subrange(1, p.len() as int));
}

/// A pattern without a slash stands for itself at any depth, and for what is
/// under it.
pub proof fn slashless_pattern_stands_for_any_depth(pat: Seq<char>)
    requires
        !text::trim(pat).contains('/'),
    ensures
        glob_texts(pat) == seq![
            "**/"@ + text::trim(pat),
            "**/"@ + text::trim(pat) + "/**"@,
        ],
{
    let p = text::trim(pat);
    if p.len() > 0 {
        assert(p[p.len() - 1] == p.last());
    }
}

} // verus!
