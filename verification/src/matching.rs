//! Glob matching, which the `glob` crate does.

use vstd::prelude::*;
use vstd::string::*;

use crate::pattern;

verus! {

/// Whether a text reads the same on every platform: a backslash separates
/// path components on some platforms and is an ordinary character on others.
pub open spec fn portable(s: Seq<char>) -> bool {
    !s.contains('\\')
}

/// Whether a text holds no character that is special in a glob.
pub open spec fn literal(s: Seq<char>) -> bool {
    !s.contains('?') && !s.contains('*') && !s.contains('[')
}

/// The glob of two texts with a star between them.
pub open spec fn star(a: Seq<char>, b: Seq<char>) -> Seq<char> {
    a + "*"@ + b
}

/// Whether a path begins with `a` and ends with `b`, with no slash between them.
pub open spec fn star_matches(path: Seq<char>, a: Seq<char>, b: Seq<char>) -> bool {
    &&& a.len() + b.len() <= path.len()
    &&& path.take(a.len() as int) == a
    &&& path.skip(path.len() - b.len()) == b
    &&& !path.subrange(a.len() as int, path.len() - b.len()).contains('/')
}

/// Whether one star is all that is special in a glob.
pub open spec fn has_one_star(glob: Seq<char>) -> bool {
    exists|a: Seq<char>, b: Seq<char>|
        literal(a) && literal(b) && glob == #[trigger] star(a, b)
}

/// Whether nothing, or one star, is special in a glob.
pub open spec fn simple(glob: Seq<char>) -> bool {
    literal(glob) || has_one_star(glob)
}

/// Whether a simple glob matches a path: without a star it matches itself alone,
/// and a star stands for anything without a slash.
pub open spec fn simple_matches(glob: Seq<char>, path: Seq<char>) -> bool {
    if literal(glob) {
        path == glob
    } else {
        exists|a: Seq<char>, b: Seq<char>|
            literal(a) && literal(b) && glob == #[trigger] star(a, b) && star_matches(path, a, b)
    }
}

/// Whether a path component starts at index `s` of a path.
pub open spec fn component_starts(path: Seq<char>, s: int) -> bool {
    0 <= s <= path.len() && (s == 0 || path[s - 1] == '/')
}

/// Whether a path lies under a directory that a simple glob matches.
pub open spec fn lies_under(path: Seq<char>, glob: Seq<char>) -> bool {
    exists|e: int|
        0 <= e < path.len() && path[e] == '/' && simple_matches(glob, #[trigger] path.take(e))
}

/// Whether a simple glob matches the last components of a path.
pub open spec fn ends_in(path: Seq<char>, glob: Seq<char>) -> bool {
    exists|s: int| #[trigger] component_starts(path, s) && simple_matches(glob, path.skip(s))
}

/// Whether a path goes through components that a simple glob matches.
pub open spec fn passes_through(path: Seq<char>, glob: Seq<char>) -> bool {
    exists|s: int| #[trigger] component_starts(path, s) && lies_under(path.skip(s), glob)
}

/// Where the last component of a path starts.
pub open spec fn base_start(path: Seq<char>) -> int
    decreases path.len(),
{
    if path.len() == 0 || path.last() == '/' {
        path.len() as int
    } else {
        base_start(path.drop_last())
    }
}

/// The last component of a path.
pub open spec fn base_name(path: Seq<char>) -> Seq<char> {
    path.skip(base_start(path))
}

/// Whether a glob speaks of one component: it holds no slash and is not `**`.
pub open spec fn names_component(glob: Seq<char>) -> bool {
    glob.len() > 0 && !glob.contains('/') && glob != "**"@
}

/// Whether `glob::Pattern::new` accepts a pattern.
pub uninterp spec fn glob_is_valid(pattern: Seq<char>) -> bool;

/// What `glob::Pattern::matches_with` answers for a pattern and a path, where a
/// slash is matched by a slash alone.
pub uninterp spec fn glob_matches(pattern: Seq<char>, path: Seq<char>) -> bool;

/// `glob::Pattern::new`: whether the pattern compiles.
///
/// A simple pattern compiles, alone and between a leading `**/` and a trailing
/// `/**`. A leading `**/` changes nothing about whether the rest compiles.
/// Whether any other pattern with a backslash compiles is left unsaid: the
/// backslash is a path separator on some platforms.
#[verifier::external_body]
pub(crate) fn compiles(pattern: &str) -> (valid: bool)
    ensures
        portable(pattern@) ==> valid == glob_is_valid(pattern@),
        simple(pattern@) ==> valid,
        forall|p: Seq<char>| simple(p) && pattern@ == #[trigger] pattern::under(p) ==> valid,
        forall|p: Seq<char>| simple(p) && pattern@ == #[trigger] pattern::any_depth(p) ==> valid,
        forall|p: Seq<char>|
            simple(p) && pattern@ == #[trigger] pattern::under(pattern::any_depth(p)) ==> valid,
        portable(pattern@) ==> forall|p: Seq<char>|
            pattern@ == #[trigger] pattern::any_depth(p) ==> valid == glob_is_valid(p),
{
    glob::Pattern::new(pattern).is_ok()
}

/// `glob::Pattern::matches_with`, on the pattern that `glob::Pattern::new` makes
/// of the text: whether the pattern matches the path. A text that does not
/// compile matches nothing. Case matters, a dot is a character like any other,
/// and of the special characters only `**` matches a slash.
///
/// A simple pattern matches as `simple_matches` says. Behind it, `/**` stands
/// for everything under it; before it, `**/` lets it start at any component of
/// the path. Before any pattern that names one component, `**/` lets it match
/// the last component of the path. What a pattern or a path with a backslash
/// matches is left unsaid: it is a path separator on some platforms.
#[verifier::external_body]
pub(crate) fn accepts(pattern: &str, path: &str) -> (matched: bool)
    ensures
        portable(pattern@) && portable(path@) ==> matched == glob_matches(pattern@, path@),
        portable(pattern@) && portable(path@) && simple(pattern@) ==> matched == simple_matches(
            pattern@,
            path@,
        ),
        portable(pattern@) && portable(path@) ==> forall|p: Seq<char>|
            simple(p) && pattern@ == #[trigger] pattern::under(p) ==> matched == lies_under(
                path@,
                p,
            ),
        portable(pattern@) && portable(path@) ==> forall|p: Seq<char>|
            simple(p) && p.len() > 0 && pattern@ == #[trigger] pattern::any_depth(p) ==> matched
                == ends_in(path@, p),
        portable(pattern@) && portable(path@) ==> forall|p: Seq<char>|
            simple(p) && p.len() > 0 && pattern@ == #[trigger] pattern::under(
                pattern::any_depth(p),
            ) ==> matched == passes_through(path@, p),
        portable(pattern@) && portable(path@) ==> forall|p: Seq<char>|
            names_component(p) && pattern@ == #[trigger] pattern::any_depth(p) ==> matched
                == glob_matches(p, base_name(path@)),
{
    let options = glob::MatchOptions {
        case_sensitive: true,
        require_literal_separator: true,
        require_literal_leading_dot: false,
    };
    match glob::Pattern::new(pattern) {
        Ok(compiled) => compiled.matches_with(path, options),
        Err(_) => false,
    }
}

/// A glob has one star at one place.
pub proof fn star_parts_are_unique(a: Seq<char>, b: Seq<char>, c: Seq<char>, d: Seq<char>)
    requires
        literal(a),
        literal(b),
        literal(c),
        literal(d),
        star(a, b) == star(c, d),
    ensures
        a == c,
        b == d,
{
    reveal_strlit("*");
    let g = star(a, b);
    assert(g[a.len() as int] == '*');
    assert(g == star(c, d) && g[c.len() as int] == '*');
    if a.len() < c.len() {
        assert(c[a.len() as int] == g[a.len() as int]);
        assert(c.contains('*'));
    }
    if c.len() < a.len() {
        assert(a[c.len() as int] == g[c.len() as int]);
        assert(a.contains('*'));
    }
    assert(a =~= g.take(a.len() as int));
    assert(c =~= g.take(c.len() as int));
    assert(b =~= g.skip(a.len() as int + 1));
    assert(d =~= g.skip(c.len() as int + 1));
}

/// A glob with one star matches exactly the paths that its two parts enclose.
pub proof fn one_star_matches_as_stated(a: Seq<char>, b: Seq<char>, path: Seq<char>)
    requires
        literal(a),
        literal(b),
    ensures
        has_one_star(star(a, b)),
        simple_matches(star(a, b), path) <==> star_matches(path, a, b),
{
    reveal_strlit("*");
    assert(star(a, b)[a.len() as int] == '*');
    assert(star(a, b).contains('*'));
    if simple_matches(star(a, b), path) {
        let (c, d) = choose|c: Seq<char>, d: Seq<char>|
            literal(c) && literal(d) && star(a, b) == #[trigger] star(c, d) && star_matches(
                path,
                c,
                d,
            );
        star_parts_are_unique(a, b, c, d);
    }
}

/// A path lies under a directory without special characters exactly when it
/// begins with the name of the directory and a slash.
pub proof fn literal_directory_is_a_prefix(path: Seq<char>, dir: Seq<char>)
    requires
        literal(dir),
    ensures
        lies_under(path, dir) <==> dir.len() < path.len() && path.take(dir.len() as int) == dir
            && path[dir.len() as int] == '/',
{
    if lies_under(path, dir) {
        let e = choose|e: int|
            0 <= e < path.len() && path[e] == '/' && simple_matches(dir, #[trigger] path.take(e));
        assert(path.take(e).len() == e);
    }
}

/// A simple glob without a slash matches no path with a slash.
pub proof fn slashless_glob_matches_no_slash(glob: Seq<char>, path: Seq<char>)
    requires
        simple(glob),
        !glob.contains('/'),
        simple_matches(glob, path),
    ensures
        !path.contains('/'),
{
    if !literal(glob) {
        reveal_strlit("*");
        let (a, b) = choose|a: Seq<char>, b: Seq<char>|
            literal(a) && literal(b) && glob == #[trigger] star(a, b) && star_matches(path, a, b);
        let m = path.subrange(a.len() as int, path.len() - b.len());
        assert forall|i: int| 0 <= i < path.len() implies path[i] != '/' by {
            if i < a.len() {
                assert(path[i] == path.take(a.len() as int)[i]);
                assert(glob[i] == a[i]);
            } else if i < path.len() - b.len() {
                assert(m[i - a.len()] == path[i]);
            } else {
                let k = i - (path.len() - b.len());
                assert(path[i] == path.skip(path.len() - b.len())[k]);
                assert(glob[a.len() + 1 + k] == b[k]);
            }
        }
    }
}

/// A text is portable exactly when it has no backslash, literal exactly when none
/// of `?`, `*` and `[` is in it, and speaks of one component exactly when it is
/// not empty, has no slash and is not `**`.
pub proof fn special_characters(s: Seq<char>)
    ensures
        portable(s) <==> forall|i: int| 0 <= i < s.len() ==> s[i] != '\\',
        literal(s) <==> forall|i: int|
            0 <= i < s.len() ==> s[i] != '?' && s[i] != '*' && s[i] != '[',
        names_component(s) <==> s.len() > 0 && !s.contains('/') && s != seq!['*', '*'],
{
    reveal_strlit("**");
    assert("**"@ =~= seq!['*', '*']);
    if literal(s) {
        assert forall|i: int| 0 <= i < s.len() implies s[i] != '?' && s[i] != '*' && s[i]
            != '[' by {}
    }
}

/// A glob is simple exactly when it has no `?`, no `[` and no two stars.
pub proof fn simple_means_one_star_at_most(s: Seq<char>)
    ensures
        simple(s) <==> {
            &&& !s.contains('?')
            &&& !s.contains('[')
            &&& forall|i: int, j: int|
                #![trigger s[i], s[j]]
                0 <= i < s.len() && 0 <= j < s.len() && s[i] == '*' && s[j] == '*' ==> i == j
        },
{
    reveal_strlit("*");
    if has_one_star(s) {
        let (a, b) = choose|a: Seq<char>, b: Seq<char>|
            literal(a) && literal(b) && s == #[trigger] star(a, b);
        assert forall|i: int| 0 <= i < s.len() implies s[i] != '?' && s[i] != '[' && (s[i] == '*'
            ==> i == a.len()) by {
            if i < a.len() {
                assert(s[i] == a[i]);
            } else if i > a.len() {
                assert(s[i] == b[i - a.len() - 1]);
            }
        }
    }
    if !s.contains('?') && !s.contains('[') && s.contains('*') && (forall|i: int, j: int|
        #![trigger s[i], s[j]]
        0 <= i < s.len() && 0 <= j < s.len() && s[i] == '*' && s[j] == '*' ==> i == j) {
        let k = choose|k: int| 0 <= k < s.len() && s[k] == '*';
        let (a, b) = (s.take(k), s.skip(k + 1));
        assert forall|i: int| 0 <= i < a.len() implies a[i] != '?' && a[i] != '*' && a[i]
            != '[' by {
            assert(a[i] == s[i]);
        }
        assert forall|i: int| 0 <= i < b.len() implies b[i] != '?' && b[i] != '*' && b[i]
            != '[' by {
            assert(b[i] == s[k + 1 + i]);
        }
        assert(literal(a) && literal(b));
        assert(s =~= star(a, b));
    }
}

/// A glob without special characters matches itself and nothing else, and a star
/// stands for any text without a slash, of every length.
pub proof fn star_stands_for_a_text_without_slash(
    a: Seq<char>,
    b: Seq<char>,
    path: Seq<char>,
)
    requires
        literal(a),
        literal(b),
    ensures
        simple_matches(a, path) <==> path == a,
        simple_matches(a + "*"@ + b, path) <==> exists|m: Seq<char>|
            !m.contains('/') && path == #[trigger] (a + m + b),
{
    one_star_matches_as_stated(a, b, path);
    assert(a + "*"@ + b == star(a, b));
    if star_matches(path, a, b) {
        let m = path.subrange(a.len() as int, path.len() - b.len());
        assert(path =~= path.take(a.len() as int) + m + path.skip(path.len() - b.len()));
        assert(path == a + m + b);
    }
    if exists|m: Seq<char>| !m.contains('/') && path == #[trigger] (a + m + b) {
        let m = choose|m: Seq<char>| !m.contains('/') && path == #[trigger] (a + m + b);
        assert(path.take(a.len() as int) =~= a);
        assert(path.skip(path.len() - b.len()) =~= b);
        assert(path.subrange(a.len() as int, path.len() - b.len()) =~= m);
    }
}

/// A path lies under a directory exactly when it is a path that the glob of the
/// directory matches, then a slash, and then anything.
pub proof fn under_means_behind_a_slash(path: Seq<char>, glob: Seq<char>)
    ensures
        lies_under(path, glob) <==> exists|dir: Seq<char>, rest: Seq<char>|
            simple_matches(glob, dir) && path == #[trigger] (dir + seq!['/'] + rest),
        pattern::under(glob) == glob + "/**"@,
        pattern::any_depth(glob) == "**/"@ + glob,
{
    if lies_under(path, glob) {
        let e = choose|e: int|
            0 <= e < path.len() && path[e] == '/' && simple_matches(glob, #[trigger] path.take(e));
        assert(path =~= path.take(e) + seq!['/'] + path.skip(e + 1));
    }
    if exists|dir: Seq<char>, rest: Seq<char>|
        simple_matches(glob, dir) && path == #[trigger] (dir + seq!['/'] + rest) {
        let (dir, rest) = choose|dir: Seq<char>, rest: Seq<char>|
            simple_matches(glob, dir) && path == #[trigger] (dir + seq!['/'] + rest);
        assert(path.take(dir.len() as int) =~= dir);
        assert(path[dir.len() as int] == '/');
    }
}

/// A path ends in what a glob matches, or goes through it, exactly when the glob
/// matches (or has under it) what is left behind some slash, or the whole path.
pub proof fn any_depth_means_behind_some_slash(path: Seq<char>, glob: Seq<char>)
    ensures
        ends_in(path, glob) <==> exists|s: int|
            #![trigger path.skip(s)]
            0 <= s <= path.len() && (s == 0 || path[s - 1] == '/') && simple_matches(
                glob,
                path.skip(s),
            ),
        passes_through(path, glob) <==> exists|s: int|
            #![trigger path.skip(s)]
            0 <= s <= path.len() && (s == 0 || path[s - 1] == '/') && lies_under(
                path.skip(s),
                glob,
            ),
{
    if ends_in(path, glob) {
        let s = choose|s: int| #[trigger]
            component_starts(path, s) && simple_matches(glob, path.skip(s));
        assert(simple_matches(glob, path.skip(s)));
    }
    if passes_through(path, glob) {
        let s = choose|s: int| #[trigger]
            component_starts(path, s) && lies_under(path.skip(s), glob);
        assert(lies_under(path.skip(s), glob));
    }
    if exists|s: int|
        #![trigger path.skip(s)]
        0 <= s <= path.len() && (s == 0 || path[s - 1] == '/') && simple_matches(
            glob,
            path.skip(s),
        ) {
        let s = choose|s: int|
            #![trigger path.skip(s)]
            0 <= s <= path.len() && (s == 0 || path[s - 1] == '/') && simple_matches(
                glob,
                path.skip(s),
            );
        assert(component_starts(path, s));
    }
    if exists|s: int|
        #![trigger path.skip(s)]
        0 <= s <= path.len() && (s == 0 || path[s - 1] == '/') && lies_under(path.skip(s), glob) {
        let s = choose|s: int|
            #![trigger path.skip(s)]
            0 <= s <= path.len() && (s == 0 || path[s - 1] == '/') && lies_under(
                path.skip(s),
                glob,
            );
        assert(component_starts(path, s));
    }
}

/// The last component of a path is what stands behind its last slash.
pub proof fn base_name_is_behind_the_last_slash(dir: Seq<char>, name: Seq<char>)
    requires
        !name.contains('/'),
        dir.len() == 0 || dir.last() == '/',
    ensures
        base_name(dir + name) == name,
    decreases name.len(),
{
    lemma_base_start(dir, name);
    assert((dir + name).skip(dir.len() as int) =~= name);
}

proof fn lemma_base_start(dir: Seq<char>, name: Seq<char>)
    requires
        !name.contains('/'),
        dir.len() == 0 || dir.last() == '/',
    ensures
        base_start(dir + name) == dir.len(),
    decreases name.len(),
{
    let path = dir + name;
    if name.len() == 0 {
        assert(path =~= dir);
    } else {
        let fewer = name.drop_last();
        assert forall|i: int| 0 <= i < fewer.len() implies fewer[i] != '/' by {
            assert(fewer[i] == name[i]);
        }
        assert(path.drop_last() =~= dir + fewer);
        assert(name[name.len() - 1] != '/');
        assert(path.last() == name[name.len() - 1]);
        lemma_base_start(dir, fewer);
    }
}

} // verus!
