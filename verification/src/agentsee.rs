//! The `.agentsee` include filter.
//!
//! A `.agentsee` file uses gitignore syntax, inverted: a pattern says what to
//! include, a pattern behind `!` what to exclude. The last rule that matches a
//! path decides whether the path is included. Where several include rules
//! match, the most specific one sets the priority.

use vstd::prelude::*;
use vstd::string::*;

use crate::matching;
use crate::matching::{accepts, compiles};
use crate::pattern;
use crate::pattern::gitignore_to_glob_patterns;
use crate::text;
use crate::text::{byte_len, has_char, is_blank, split_lines, trimmed};

verus! {

// ---------------------------------------------------------------------------
// The rules of a file
// ---------------------------------------------------------------------------

/// One rule line of the file.
pub struct RuleLine {
    /// Whether the rule excludes.
    pub negated: bool,
    /// The pattern, without the `!` of an exclude rule.
    pub pattern: Seq<char>,
}

/// The rule that a trimmed line stands for.
pub open spec fn rule_line(line: Seq<char>) -> RuleLine {
    if line[0] == '!' {
        RuleLine { negated: true, pattern: text::trim(line.drop_first()) }
    } else {
        RuleLine { negated: false, pattern: line }
    }
}

/// The rules among some lines: those that are neither blank nor a comment.
pub open spec fn rules_among(ls: Seq<Seq<char>>) -> Seq<RuleLine>
    decreases ls.len(),
{
    if ls.len() == 0 {
        Seq::empty()
    } else {
        let before = rules_among(ls.drop_last());
        let line = text::trim(ls.last());
        if line.len() == 0 || line[0] == '#' {
            before
        } else {
            before.push(rule_line(line))
        }
    }
}

/// The rules of a file, in the order of the file.
pub open spec fn rule_lines(content: Seq<char>) -> Seq<RuleLine> {
    rules_among(text::lines(content))
}

/// Whether no pattern holds a backslash.
pub open spec fn all_portable(rules: Seq<RuleLine>) -> bool {
    forall|i: int| 0 <= i < rules.len() ==> matching::portable(#[trigger] rules[i].pattern)
}

/// A rule that is in force.
#[verifier::ext_equal]
pub struct RuleView {
    /// The pattern as it stands in the file.
    pub pattern: Seq<char>,
    /// The globs that match the paths of the pattern.
    pub globs: Seq<Seq<char>>,
    /// The place of the rule among the rules of the file.
    pub position: int,
}

/// Whether nothing, or one star, is special in a pattern.
pub open spec fn is_simple(pattern: Seq<char>) -> bool {
    matching::simple(text::trim(pattern))
}

/// The globs of a pattern that compile: all of them where the pattern is simple.
pub open spec fn compiled(pattern: Seq<char>) -> Seq<Seq<char>> {
    if is_simple(pattern) {
        pattern::glob_texts(pattern)
    } else {
        pattern::glob_texts(pattern).filter(|g: Seq<char>| matching::glob_is_valid(g))
    }
}

/// The include rules of a file (or its exclude rules) that are in force, where
/// `globs[i]` are the globs of rule `i` that compile: those rules that have
/// one. Every rule line counts for the positions.
pub open spec fn in_force_with(
    rules: Seq<RuleLine>,
    globs: Seq<Seq<Seq<char>>>,
    negated: bool,
) -> Seq<RuleView>
    decreases rules.len(),
{
    if rules.len() == 0 {
        Seq::empty()
    } else {
        let before = in_force_with(rules.drop_last(), globs.drop_last(), negated);
        let last = rules.last();
        if last.negated == negated && globs.last().len() > 0 {
            before.push(
                RuleView {
                    pattern: last.pattern,
                    globs: globs.last(),
                    position: rules.len() - 1,
                },
            )
        } else {
            before
        }
    }
}

/// The globs of each rule that compile.
pub open spec fn compiled_rules(rules: Seq<RuleLine>) -> Seq<Seq<Seq<char>>> {
    rules.map_values(|r: RuleLine| compiled(r.pattern))
}

/// Whether `globs[i]` may be what compiled of rule `i`: the compiled globs of a
/// simple or portable pattern, and some of the globs of any other.
pub open spec fn may_compile_to(rules: Seq<RuleLine>, globs: Seq<Seq<Seq<char>>>) -> bool {
    &&& globs.len() == rules.len()
    &&& forall|i: int|
        #![trigger globs[i]]
        0 <= i < rules.len() ==> {
            &&& is_simple(rules[i].pattern) || matching::portable(rules[i].pattern) ==> globs[i]
                == compiled(rules[i].pattern)
            &&& forall|k: int|
                0 <= k < globs[i].len() ==> pattern::glob_texts(rules[i].pattern).contains(
                    #[trigger] globs[i][k],
                )
        }
}

// ---------------------------------------------------------------------------
// One rule
// ---------------------------------------------------------------------------

/// Whether a rule with a simple pattern matches a path: a pattern with a slash at
/// its end matches what lies under the directory, a pattern with another slash
/// matches from the root, and a pattern without a slash at any depth.
pub open spec fn simple_rule_matches(pattern: Seq<char>, rel: Seq<char>) -> bool {
    let p = text::trim(pattern);
    if pattern::names_directory(p) {
        matching::lies_under(rel, pattern::after_slash(p.drop_last()))
    } else if pattern::is_anchored(p) {
        let path = pattern::after_slash(p);
        matching::simple_matches(path, rel) || matching::lies_under(rel, path)
    } else {
        matching::ends_in(rel, p) || matching::passes_through(rel, p)
    }
}

/// Whether a rule matches a path: as `simple_rule_matches` says where its
/// pattern is simple, and else where one of its globs matches the path.
pub open spec fn rule_matches(rule: RuleView, rel: Seq<char>) -> bool {
    if is_simple(rule.pattern) && !text::blank(rule.pattern) {
        simple_rule_matches(rule.pattern, rel)
    } else {
        exists|i: int|
            0 <= i < rule.globs.len() && matching::glob_matches(#[trigger] rule.globs[i], rel)
    }
}

/// A rule that is in force: its pattern and the globs that it stands for.
pub struct Rule {
    patterns: Vec<String>,
    original: String,
    position: usize,
}

impl View for Rule {
    type V = RuleView;

    closed spec fn view(&self) -> RuleView {
        RuleView {
            pattern: self.original@,
            globs: text::texts(self.patterns@),
            position: self.position as int,
        }
    }
}

/// Whether a pattern without a slash compiles where its glob for any depth does.
spec fn validity_known(pattern: Seq<char>) -> bool {
    let p = text::trim(pattern);
    !pattern::is_anchored(p) ==> matching::glob_is_valid(pattern::any_depth(p))
        == matching::glob_is_valid(p)
}

impl Rule {
    /// The globs are those of the pattern that compile.
    pub closed spec fn wf(self) -> bool {
        &&& forall|i: int|
            0 <= i < self@.globs.len() ==> pattern::glob_texts(self@.pattern).contains(
                #[trigger] self@.globs[i],
            )
        &&& is_simple(self@.pattern) || matching::portable(self@.pattern) ==> self@.globs
            == compiled(self@.pattern)
        &&& matching::portable(self@.pattern) ==> validity_known(self@.pattern)
    }
}

proof fn lemma_trim_start_keeps_out(s: Seq<char>, c: char)
    requires
        !s.contains(c),
    ensures
        !text::trim_start(s).contains(c),
    decreases s.len(),
{
    if s.len() > 0 && text::white_space(s.first()) {
        let rest = s.drop_first();
        assert forall|i: int| 0 <= i < rest.len() implies rest[i] != c by {
            assert(rest[i] == s[i + 1]);
        }
        lemma_trim_start_keeps_out(rest, c);
    }
}

proof fn lemma_trim_end_keeps_out(s: Seq<char>, c: char)
    requires
        !s.contains(c),
    ensures
        !text::trim_end(s).contains(c),
    decreases s.len(),
{
    if s.len() > 0 && text::white_space(s.last()) {
        let rest = s.drop_last();
        assert forall|i: int| 0 <= i < rest.len() implies rest[i] != c by {
            assert(rest[i] == s[i]);
        }
        lemma_trim_end_keeps_out(rest, c);
    }
}

proof fn lemma_trim_keeps_out(s: Seq<char>, c: char)
    requires
        !s.contains(c),
    ensures
        !text::trim(s).contains(c),
{
    lemma_trim_start_keeps_out(s, c);
    lemma_trim_end_keeps_out(text::trim_start(s), c);
}

proof fn lemma_parts_keep_out(p: Seq<char>, c: char)
    requires
        !p.contains(c),
    ensures
        !pattern::after_slash(p).contains(c),
        p.len() > 0 ==> !p.drop_last().contains(c),
        p.len() > 0 ==> !pattern::after_slash(p.drop_last()).contains(c),
{
    let d = p.drop_last();
    if p.len() > 0 {
        assert forall|i: int| 0 <= i < d.len() implies d[i] != c by {
            assert(d[i] == p[i]);
        }
        if d.len() > 0 {
            let e = d.drop_first();
            assert forall|i: int| 0 <= i < e.len() implies e[i] != c by {
                assert(e[i] == p[i + 1]);
            }
        }
        let f = p.drop_first();
        assert forall|i: int| 0 <= i < f.len() implies f[i] != c by {
            assert(f[i] == p[i + 1]);
        }
    }
}

/// The globs of a portable pattern are portable.
proof fn lemma_globs_portable(pattern: Seq<char>)
    requires
        matching::portable(pattern),
    ensures
        forall|i: int|
            0 <= i < pattern::glob_texts(pattern).len() ==> matching::portable(
                #[trigger] pattern::glob_texts(pattern)[i],
            ),
{
    let c = '\\';
    let p = text::trim(pattern);
    lemma_trim_keeps_out(pattern, c);
    lemma_parts_keep_out(p, c);
    reveal_strlit("/**");
    reveal_strlit("**/");
    let globs = pattern::glob_texts(pattern);
    assert forall|i: int| 0 <= i < globs.len() implies matching::portable(
        #[trigger] globs[i],
    ) by {
        let g = globs[i];
        assert forall|k: int| 0 <= k < g.len() implies g[k] != c by {
            if pattern::names_directory(p) {
                let d = pattern::after_slash(p.drop_last());
                if k < d.len() {
                    assert(g[k] == d[k]);
                }
            } else if pattern::is_anchored(p) {
                let d = pattern::after_slash(p);
                if k < d.len() {
                    assert(g[k] == d[k]);
                }
            } else {
                if 3 <= k < 3 + p.len() {
                    assert(g[k] == p[k - 3]);
                }
            }
        }
    }
}

proof fn lemma_filter_step<A>(s: Seq<A>, i: int, pred: spec_fn(A) -> bool)
    requires
        0 <= i < s.len(),
    ensures
        s.take(i + 1).filter(pred) == if pred(s[i]) {
            s.take(i).filter(pred).push(s[i])
        } else {
            s.take(i).filter(pred)
        },
{
    reveal(Seq::filter);
    assert(s.take(i + 1).drop_last() =~= s.take(i));
}

proof fn lemma_filter_holds_kept<A>(s: Seq<A>, i: int, pred: spec_fn(A) -> bool)
    requires
        0 <= i < s.len(),
        pred(s[i]),
    ensures
        s.filter(pred).contains(s[i]),
{
    broadcast use vstd::seq_lib::group_filter_ensures;

    assert(s.contains(s[i]));
}

/// What a call of `compiles` on a portable glob tells of its name.
spec fn compile_facts(g: Seq<char>) -> bool {
    forall|p: Seq<char>|
        g == #[trigger] pattern::any_depth(p) ==> matching::glob_is_valid(g)
            == matching::glob_is_valid(p)
}

/// What a call of `accepts` on a portable glob and path tells.
spec fn accept_facts(g: Seq<char>, rel: Seq<char>, matched: bool) -> bool {
    &&& matched == matching::glob_matches(g, rel)
    &&& matching::simple(g) ==> matched == matching::simple_matches(g, rel)
    &&& forall|p: Seq<char>|
        matching::simple(p) && g == #[trigger] pattern::under(p) ==> matched
            == matching::lies_under(rel, p)
    &&& forall|p: Seq<char>|
        matching::simple(p) && p.len() > 0 && g == #[trigger] pattern::any_depth(p) ==> matched
            == matching::ends_in(rel, p)
    &&& forall|p: Seq<char>|
        matching::simple(p) && p.len() > 0 && g == #[trigger] pattern::under(
            pattern::any_depth(p),
        ) ==> matched == matching::passes_through(rel, p)
    &&& forall|p: Seq<char>|
        matching::names_component(p) && g == #[trigger] pattern::any_depth(p) ==> matched
            == matching::glob_matches(p, matching::base_name(rel))
}

proof fn lemma_literal_parts(p: Seq<char>)
    requires
        matching::literal(p),
    ensures
        matching::literal(pattern::after_slash(p)),
        p.len() > 0 ==> matching::literal(p.drop_last()),
{
    lemma_parts_keep_out(p, '?');
    lemma_parts_keep_out(p, '*');
    lemma_parts_keep_out(p, '[');
}

proof fn lemma_simple_after_slash(p: Seq<char>)
    requires
        matching::simple(p),
    ensures
        matching::simple(pattern::after_slash(p)),
{
    if matching::literal(p) {
        lemma_literal_parts(p);
    } else {
        reveal_strlit("*");
        let (a, b) = choose|a: Seq<char>, b: Seq<char>|
            matching::literal(a) && matching::literal(b) && p == #[trigger] matching::star(a, b);
        if p[0] == '/' {
            assert(a.len() > 0 && a[0] == p[0]);
            lemma_literal_parts(a);
            assert(pattern::after_slash(p) =~= matching::star(pattern::after_slash(a), b));
        }
    }
}

proof fn lemma_simple_without_last_slash(p: Seq<char>)
    requires
        matching::simple(p),
        pattern::names_directory(p),
    ensures
        matching::simple(p.drop_last()),
{
    if matching::literal(p) {
        lemma_literal_parts(p);
    } else {
        reveal_strlit("*");
        let (a, b) = choose|a: Seq<char>, b: Seq<char>|
            matching::literal(a) && matching::literal(b) && p == #[trigger] matching::star(a, b);
        assert(b.len() > 0 && b.last() == p.last());
        lemma_literal_parts(b);
        assert(p.drop_last() =~= matching::star(a, b.drop_last()));
    }
}

/// What the globs of a simple pattern are made of.
proof fn lemma_simple_globs(pattern: Seq<char>)
    requires
        is_simple(pattern),
    ensures
        ({
            let p = text::trim(pattern);
            let path = pattern::after_slash(p);
            let dir = pattern::after_slash(p.drop_last());
            &&& matching::simple(p)
            &&& matching::simple(path)
            &&& pattern::names_directory(p) ==> matching::simple(dir)
        }),
{
    let p = text::trim(pattern);
    lemma_simple_after_slash(p);
    if pattern::names_directory(p) {
        lemma_simple_without_last_slash(p);
        lemma_simple_after_slash(p.drop_last());
    }
}

proof fn lemma_validity_known(pattern: Seq<char>)
    requires
        forall|i: int|
            0 <= i < pattern::glob_texts(pattern).len() ==> compile_facts(
                #[trigger] pattern::glob_texts(pattern)[i],
            ),
    ensures
        validity_known(pattern),
{
    let p = text::trim(pattern);
    let globs = pattern::glob_texts(pattern);
    if !pattern::is_anchored(p) {
        if pattern::names_directory(p) {
            assert(p[p.len() - 1] == '/');
        }
        assert(compile_facts(globs[0]));
    }
}

impl Rule {
    /// The rule of a pattern, unless none of its globs compiles. All globs of a
    /// simple pattern do, on every platform.
    pub fn new(pattern: &str, position: usize) -> (r: Option<Rule>)
        ensures
            r matches Some(rule) ==> {
                &&& rule.wf()
                &&& rule@.pattern == pattern@
                &&& rule@.position == position
                &&& rule@.globs.len() > 0
                &&& forall|k: int|
                    0 <= k < rule@.globs.len() ==> pattern::glob_texts(pattern@).contains(
                        #[trigger] rule@.globs[k],
                    )
            },
            is_simple(pattern@) || matching::portable(pattern@) ==> (r is Some <==> compiled(
                pattern@,
            ).len() > 0),
            is_simple(pattern@) || matching::portable(pattern@) ==> (r matches Some(rule)
                ==> rule@.globs == compiled(pattern@)),
    {
        let globs = gitignore_to_glob_patterns(pattern);
        let ghost all = pattern::glob_texts(pattern@);
        let ghost valid = |g: Seq<char>| matching::glob_is_valid(g);
        let mut patterns: Vec<String> = Vec::new();
        let mut i: usize = 0;
        proof {
            if matching::portable(pattern@) {
                lemma_globs_portable(pattern@);
            }
            if is_simple(pattern@) {
                lemma_simple_globs(pattern@);
            }
            assert(text::texts(patterns@) =~= all.take(0).filter(valid)) by {
                reveal(Seq::filter);
            }
            assert(text::texts(patterns@) =~= all.take(0));
        }
        while i < globs.len()
            invariant
                all == pattern::glob_texts(pattern@),
                text::texts(globs@) == all,
                valid == (|g: Seq<char>| matching::glob_is_valid(g)),
                i <= globs@.len(),
                matching::portable(pattern@) ==> forall|k: int|
                    0 <= k < all.len() ==> matching::portable(#[trigger] all[k]),
                forall|k: int|
                    0 <= k < patterns@.len() ==> all.contains(#[trigger] text::texts(patterns@)[k]),
                is_simple(pattern@) ==> {
                    let p = text::trim(pattern@);
                    &&& matching::simple(p)
                    &&& matching::simple(pattern::after_slash(p))
                    &&& pattern::names_directory(p) ==> matching::simple(
                        pattern::after_slash(p.drop_last()),
                    )
                },
                is_simple(pattern@) ==> text::texts(patterns@) == all.take(i as int),
                matching::portable(pattern@) ==> text::texts(patterns@) == all.take(
                    i as int,
                ).filter(valid),
                matching::portable(pattern@) ==> forall|k: int|
                    0 <= k < i ==> compile_facts(#[trigger] all[k]),
            decreases globs@.len() - i,
        {
            let ghost g = all[i as int];
            assert(globs@[i as int]@ == text::texts(globs@)[i as int]);
            let ghost before = text::texts(patterns@);
            proof {
                lemma_filter_step(all, i as int, valid);
            }
            if compiles(globs[i].as_str()) {
                patterns.push(globs[i].clone());
                assert(text::texts(patterns@) =~= before.push(g));
            }
            assert(all.take(i + 1) =~= all.take(i as int).push(g));
            i += 1;
        }
        proof {
            assert(all.take(all.len() as int) =~= all);
            if matching::portable(pattern@) {
                lemma_validity_known(pattern@);
            }
        }
        if patterns.len() == 0 {
            assert(text::texts(patterns@).len() == 0);
            return None;
        }
        let rule = Rule { patterns, original: pattern.to_owned(), position };
        Some(rule)
    }

    /// Whether the pattern of this rule is more specific than that of another.
    pub fn is_more_specific(&self, other: &Rule) -> (r: bool)
        ensures
            r == more_specific(self@.pattern, other@.pattern),
    {
        let a = has_char(self.original.as_str(), '/');
        let b = has_char(other.original.as_str(), '/');
        if a != b {
            a
        } else {
            byte_len(self.original.as_str()) > byte_len(other.original.as_str())
        }
    }

    /// Whether the rule matches a path.
    ///
    /// A simple pattern matches as `simple_rule_matches` says. Any other pattern
    /// without a slash matches wherever it matches the last component of the
    /// path.
    pub fn matches(&self, rel: &str) -> (matched: bool)
        requires
            self.wf(),
        ensures
            matching::portable(self@.pattern) && matching::portable(rel@)
                ==> matched == rule_matches(self@, rel@),
            ({
                let p = text::trim(self@.pattern);
                matching::portable(self@.pattern) && matching::portable(rel@)
                    && matching::names_component(p) && matching::glob_is_valid(p)
                    && matching::glob_matches(p, matching::base_name(rel@)) ==> matched
            }),
            ({
                let p = text::trim(self@.pattern);
                let path = if p.len() > 0 && p[0] == '/' {
                    p.subrange(1, p.len() as int)
                } else {
                    p
                };
                matching::portable(self@.pattern) && matching::portable(rel@) && p.contains('/')
                    && p.last() != '/' && matching::glob_is_valid(path) && matching::glob_matches(
                    path,
                    rel@,
                ) ==> matched
            }),
    {
        let ghost known = matching::portable(self@.pattern) && matching::portable(
            rel@,
        );
        let ghost globs = self@.globs;
        let ghost all = pattern::glob_texts(self@.pattern);
        proof {
            if known {
                lemma_globs_portable(self@.pattern);
                assert forall|k: int| 0 <= k < globs.len() implies matching::portable(
                    #[trigger] globs[k],
                ) by {
                    assert(all.contains(globs[k]));
                }
            }
        }
        let mut matched: bool = false;
        let mut i: usize = 0;
        while i < self.patterns.len() && !matched
            invariant
                globs == self@.globs,
                globs == text::texts(self.patterns@),
                i <= self.patterns@.len(),
                known == (matching::portable(self@.pattern) && matching::portable(
                    rel@,
                )),
                known ==> forall|k: int|
                    0 <= k < globs.len() ==> matching::portable(#[trigger] globs[k]),
                known ==> forall|k: int|
                    0 <= k < i ==> accept_facts(
                        #[trigger] globs[k],
                        rel@,
                        matched && k == i - 1,
                    ),
                matched ==> i > 0,
            decreases self.patterns@.len() - i,
        {
            assert(self.patterns@[i as int]@ == globs[i as int]);
            matched = accepts(self.patterns[i].as_str(), rel);
            i += 1;
        }
        proof {
            if known {
                lemma_rule_laws(self@, rel@, i as int, matched);
            }
        }
        matched
    }
}

proof fn lemma_rule_laws(rule: RuleView, rel: Seq<char>, n: int, matched: bool)
    requires
        rule.globs == compiled(rule.pattern),
        validity_known(rule.pattern),
        0 <= n <= rule.globs.len(),
        matched ==> n > 0,
        !matched ==> n == rule.globs.len(),
        forall|k: int|
            0 <= k < n ==> accept_facts(#[trigger] rule.globs[k], rel, matched && k == n - 1),
    ensures
        matched == rule_matches(rule, rel),
        ({
            let p = text::trim(rule.pattern);
            matching::names_component(p) && matching::glob_is_valid(p) && matching::glob_matches(
                p,
                matching::base_name(rel),
            ) ==> matched
        }),
        ({
            let p = text::trim(rule.pattern);
            let path = if p.len() > 0 && p[0] == '/' {
                p.subrange(1, p.len() as int)
            } else {
                p
            };
            p.contains('/') && p.last() != '/' && matching::glob_is_valid(path)
                && matching::glob_matches(path, rel) ==> matched
        }),
{
    let p = text::trim(rule.pattern);
    let all = pattern::glob_texts(rule.pattern);
    let globs = rule.globs;
    let valid = |g: Seq<char>| matching::glob_is_valid(g);
    if matched {
        assert(matching::glob_matches(globs[n - 1], rel));
    } else {
        assert forall|k: int| 0 <= k < globs.len() implies !matching::glob_matches(
            #[trigger] globs[k],
            rel,
        ) by {
            assert(accept_facts(globs[k], rel, false));
        }
    }
    if is_simple(rule.pattern) && !text::blank(rule.pattern) {
        text::lemma_trim_empty_iff_blank(rule.pattern);
        lemma_simple_globs(rule.pattern);
        assert(globs == all);
        assert(accept_facts(globs[0], rel, matched && 0 == n - 1)) by {
            if matched {
                assert(n > 0);
            }
        }
        if n == 2 {
            assert(accept_facts(globs[1], rel, matched));
        }
    }
    if matching::names_component(p) && matching::glob_is_valid(p) && matching::glob_matches(
        p,
        matching::base_name(rel),
    ) && !matched {
        if pattern::names_directory(p) {
            assert(p[p.len() - 1] == '/');
        }
        assert(all[0] == pattern::any_depth(p));
        if !is_simple(rule.pattern) {
            lemma_filter_holds_kept(all, 0, valid);
        } else {
            assert(globs[0] == all[0]);
        }
        let k = choose|k: int| 0 <= k < globs.len() && globs[k] == all[0];
        assert(accept_facts(globs[k], rel, false));
    }
    let path = if p.len() > 0 && p[0] == '/' {
        p.subrange(1, p.len() as int)
    } else {
        p
    };
    if p.contains('/') && p.last() != '/' && matching::glob_is_valid(path)
        && matching::glob_matches(path, rel) && !matched {
        pattern::anchored_pattern_stands_for_itself(rule.pattern);
        assert(all[0] == path);
        if !is_simple(rule.pattern) {
            lemma_filter_holds_kept(all, 0, valid);
        } else {
            assert(globs[0] == all[0]);
        }
        let k = choose|k: int| 0 <= k < globs.len() && globs[k] == all[0];
        assert(accept_facts(globs[k], rel, false));
    }
}

// ---------------------------------------------------------------------------
// The filter
// ---------------------------------------------------------------------------

/// The rules of a filter.
#[verifier::ext_equal]
pub struct AgentseeView {
    pub includes: Seq<RuleView>,
    pub excludes: Seq<RuleView>,
}

/// The views of some rules.
pub open spec fn rule_views(rules: Seq<Rule>) -> Seq<RuleView> {
    rules.map_values(|r: Rule| r@)
}

/// Whether the rules stand in the order of their positions.
pub open spec fn in_file_order(rules: Seq<RuleView>) -> bool {
    forall|i: int, j: int|
        #![trigger rules[i], rules[j]]
        0 <= i < j < rules.len() ==> rules[i].position < rules[j].position
}

/// Whether each position belongs to one rule.
pub open spec fn well_placed(view: AgentseeView) -> bool {
    &&& in_file_order(view.includes)
    &&& in_file_order(view.excludes)
    &&& forall|i: int| 0 <= i < view.includes.len() ==> (#[trigger] view.includes[i]).position >= 0
    &&& forall|i: int| 0 <= i < view.excludes.len() ==> (#[trigger] view.excludes[i]).position >= 0
    &&& forall|i: int, j: int|
        #![trigger view.includes[i], view.excludes[j]]
        0 <= i < view.includes.len() && 0 <= j < view.excludes.len()
            ==> view.includes[i].position != view.excludes[j].position
}

/// The position of the last rule that matches, or -1.
pub open spec fn last_match(rules: Seq<RuleView>, hits: Seq<bool>) -> int
    decreases rules.len(),
{
    if rules.len() == 0 {
        -1
    } else if hits.last() {
        rules.last().position
    } else {
        last_match(rules.drop_last(), hits.drop_last())
    }
}

/// Whether a pattern is more specific than another: one with a slash than one
/// without, and of two of a kind the longer one.
pub open spec fn more_specific(a: Seq<char>, b: Seq<char>) -> bool {
    if a.contains('/') != b.contains('/') {
        a.contains('/')
    } else {
        text::byte_size(a) > text::byte_size(b)
    }
}

/// The index of the most specific rule that matches, the first of several, or
/// -1.
pub open spec fn best_match(rules: Seq<RuleView>, hits: Seq<bool>) -> int
    decreases rules.len(),
{
    if rules.len() == 0 {
        -1
    } else {
        let best = best_match(rules.drop_last(), hits.drop_last());
        if hits.last() && (best < 0 || more_specific(
            rules.last().pattern,
            rules[best].pattern,
        )) {
            rules.len() - 1
        } else {
            best
        }
    }
}

/// The priority of a path, given which rules match it: nothing unless the last
/// rule that matches is an include rule, and else the position of the most
/// specific include rule that matches.
pub open spec fn decide(
    view: AgentseeView,
    include_hits: Seq<bool>,
    exclude_hits: Seq<bool>,
) -> Option<int> {
    if last_match(view.includes, include_hits) > last_match(view.excludes, exclude_hits) {
        Some(view.includes[best_match(view.includes, include_hits)].position)
    } else {
        None
    }
}

/// Which rules match a path.
pub open spec fn hits(rules: Seq<RuleView>, rel: Seq<char>) -> Seq<bool> {
    rules.map_values(|r: RuleView| rule_matches(r, rel))
}

/// The priority of a path: 0 is the highest, and none excludes the path.
pub open spec fn path_priority(view: AgentseeView, rel: Seq<char>) -> Option<int> {
    decide(view, hits(view.includes, rel), hits(view.excludes, rel))
}

/// Whether these may be the matches of some rules with a path: those that the
/// globs decide, and any where the pattern or the path holds a backslash, which
/// platforms read differently.
pub open spec fn may_hit(rules: Seq<RuleView>, rel: Seq<char>, found: Seq<bool>) -> bool {
    &&& found.len() == rules.len()
    &&& forall|i: int|
        #![trigger found[i]]
        0 <= i < rules.len() && matching::portable(rules[i].pattern) && matching::portable(rel)
            ==> found[i] == rule_matches(rules[i], rel)
}

/// Whether this may be the priority of a path: that of some matches that the
/// rules may have with it.
pub open spec fn may_rank(view: AgentseeView, rel: Seq<char>, priority: Option<int>) -> bool {
    exists|include_hits: Seq<bool>, exclude_hits: Seq<bool>|
        {
            &&& may_hit(view.includes, rel, include_hits)
            &&& may_hit(view.excludes, rel, exclude_hits)
            &&& priority == #[trigger] decide(view, include_hits, exclude_hits)
        }
}

/// Where nothing holds a backslash, a path has one priority.
pub proof fn portable_priority_is_one(view: AgentseeView, rel: Seq<char>, priority: Option<int>)
    requires
        view.portable(),
        matching::portable(rel),
    ensures
        may_rank(view, rel, priority) <==> priority == path_priority(view, rel),
{
    own_priority_is_possible(view, rel);
    if may_rank(view, rel, priority) {
        let (i, e) = choose|i: Seq<bool>, e: Seq<bool>|
            {
                &&& may_hit(view.includes, rel, i)
                &&& may_hit(view.excludes, rel, e)
                &&& priority == #[trigger] decide(view, i, e)
            };
        assert(i =~= hits(view.includes, rel));
        assert(e =~= hits(view.excludes, rel));
    }
}

/// The priority that the globs decide is one that a path may have.
pub proof fn own_priority_is_possible(view: AgentseeView, rel: Seq<char>)
    ensures
        may_rank(view, rel, path_priority(view, rel)),
{
    let (i, e) = (hits(view.includes, rel), hits(view.excludes, rel));
    assert(may_hit(view.includes, rel, i));
    assert(may_hit(view.excludes, rel, e));
    assert(path_priority(view, rel) == decide(view, i, e));
}

/// A position as a mathematical integer.
pub open spec fn as_position(p: Option<usize>) -> Option<int> {
    match p {
        Some(n) => Some(n as int),
        None => None,
    }
}

/// A path is included exactly when an include rule matches it and every exclude
/// rule that matches it stands before that rule: the last match wins.
pub proof fn last_match_wins(
    view: AgentseeView,
    include_hits: Seq<bool>,
    exclude_hits: Seq<bool>,
)
    requires
        well_placed(view),
        include_hits.len() == view.includes.len(),
        exclude_hits.len() == view.excludes.len(),
    ensures
        decide(view, include_hits, exclude_hits) is Some <==> exists|i: int|
            #![trigger view.includes[i]]
            0 <= i < view.includes.len() && include_hits[i] && forall|j: int|
                #![trigger view.excludes[j]]
                0 <= j < view.excludes.len() && exclude_hits[j] ==> view.excludes[j].position
                    < view.includes[i].position,
{
    let li = last_match(view.includes, include_hits);
    let le = last_match(view.excludes, exclude_hits);
    lemma_last_match(view.includes, include_hits);
    lemma_last_match(view.excludes, exclude_hits);
    if li > le {
        let i = choose|i: int|
            #![trigger view.includes[i]]
            0 <= i < view.includes.len() && include_hits[i] && view.includes[i].position == li;
        assert(include_hits[i]);
    }
    if le >= 0 {
        let j = choose|j: int|
            #![trigger view.excludes[j]]
            0 <= j < view.excludes.len() && exclude_hits[j] && view.excludes[j].position == le;
        assert(exclude_hits[j]);
        assert(view.excludes[j].position == le);
    }
}

/// The priority is the position of a matching include rule that no other
/// matching include rule beats: any other is less specific, or no more specific
/// and further down the file.
pub proof fn most_specific_sets_priority(
    view: AgentseeView,
    include_hits: Seq<bool>,
    exclude_hits: Seq<bool>,
)
    requires
        well_placed(view),
        include_hits.len() == view.includes.len(),
        exclude_hits.len() == view.excludes.len(),
    ensures
        decide(view, include_hits, exclude_hits) matches Some(p) ==> exists|i: int|
            #![trigger view.includes[i]]
            0 <= i < view.includes.len() && include_hits[i] && view.includes[i].position == p
                && forall|k: int|
                #![trigger view.includes[k]]
                0 <= k < view.includes.len() && include_hits[k] && k != i ==> {
                    ||| more_specific(view.includes[i].pattern, view.includes[k].pattern)
                    ||| !more_specific(view.includes[k].pattern, view.includes[i].pattern) && p
                        < view.includes[k].position
                },
{
    lemma_last_match(view.includes, include_hits);
    lemma_last_match(view.excludes, exclude_hits);
    lemma_best_match(view.includes, include_hits);
    if last_match(view.includes, include_hits) > last_match(view.excludes, exclude_hits) {
        let i = choose|i: int|
            #![trigger view.includes[i]]
            0 <= i < view.includes.len() && include_hits[i] && view.includes[i].position
                == last_match(view.includes, include_hits);
        assert(include_hits[i]);
        let best = best_match(view.includes, include_hits);
        assert(view.includes[best].position >= 0);
    }
}

proof fn lemma_last_match(rules: Seq<RuleView>, hits: Seq<bool>)
    requires
        hits.len() == rules.len(),
        in_file_order(rules),
        forall|i: int| 0 <= i < rules.len() ==> (#[trigger] rules[i]).position >= 0,
    ensures
        last_match(rules, hits) >= -1,
        last_match(rules, hits) >= 0 ==> exists|i: int|
            #![trigger rules[i]]
            0 <= i < rules.len() && hits[i] && rules[i].position == last_match(rules, hits),
        forall|i: int|
            #![trigger rules[i]]
            0 <= i < rules.len() && hits[i] ==> rules[i].position <= last_match(rules, hits),
    decreases rules.len(),
{
    if rules.len() > 0 {
        let (r, h) = (rules.drop_last(), hits.drop_last());
        assert forall|i: int| 0 <= i < r.len() implies #[trigger] r[i] == rules[i] by {}
        lemma_last_match(r, h);
        if hits.last() {
            assert(hits[rules.len() - 1]);
            assert(rules[rules.len() - 1].position == last_match(rules, hits));
        } else {
            if last_match(r, h) >= 0 {
                let i = choose|i: int|
                    #![trigger r[i]]
                    0 <= i < r.len() && h[i] && r[i].position == last_match(r, h);
                assert(rules[i].position == last_match(rules, hits) && hits[i]);
            }
            assert forall|i: int|
                #![trigger rules[i]]
                0 <= i < rules.len() && hits[i] implies rules[i].position <= last_match(
                rules,
                hits,
            ) by {
                if i < r.len() {
                    assert(r[i] == rules[i] && h[i] == hits[i]);
                }
            }
        }
    }
}

proof fn lemma_more_specific_order(a: Seq<char>, b: Seq<char>, c: Seq<char>)
    ensures
        more_specific(a, b) && more_specific(b, c) ==> more_specific(a, c),
        more_specific(a, b) && !more_specific(c, b) ==> more_specific(a, c),
        !(more_specific(a, b) && more_specific(b, a)),
{
}

proof fn lemma_fewer_in_file_order(rules: Seq<RuleView>)
    requires
        rules.len() > 0,
        in_file_order(rules),
    ensures
        in_file_order(rules.drop_last()),
{
    let r = rules.drop_last();
    assert forall|i: int, j: int| #![trigger r[i], r[j]] 0 <= i < j < r.len() implies r[i].position
        < r[j].position by {
        assert(r[i] == rules[i] && r[j] == rules[j]);
    }
}

proof fn lemma_best_match(rules: Seq<RuleView>, hits: Seq<bool>)
    requires
        hits.len() == rules.len(),
        in_file_order(rules),
    ensures
        ({
            let best = best_match(rules, hits);
            &&& -1 <= best < rules.len()
            &&& best >= 0 ==> hits[best]
            &&& best < 0 ==> forall|k: int| 0 <= k < hits.len() ==> !hits[k]
            &&& best >= 0 ==> forall|k: int|
                #![trigger rules[k]]
                0 <= k < rules.len() && hits[k] && k != best ==> {
                    ||| more_specific(rules[best].pattern, rules[k].pattern)
                    ||| !more_specific(rules[k].pattern, rules[best].pattern)
                        && rules[best].position < rules[k].position
                }
        }),
    decreases rules.len(),
{
    if rules.len() > 0 {
        let (r, h) = (rules.drop_last(), hits.drop_last());
        assert forall|i: int| 0 <= i < r.len() implies #[trigger] r[i] == rules[i] by {}
        assert forall|i: int| 0 <= i < h.len() implies #[trigger] h[i] == hits[i] by {}
        lemma_fewer_in_file_order(rules);
        lemma_best_match(r, h);
        let before = best_match(r, h);
        let best = best_match(rules, hits);
        let n = rules.len() - 1;
        if best < 0 {
            assert forall|k: int| 0 <= k < hits.len() implies !hits[k] by {
                if k < n {
                    assert(!h[k]);
                }
            }
        } else {
            assert forall|k: int|
                #![trigger rules[k]]
                0 <= k < rules.len() && hits[k] && k != best implies {
                ||| more_specific(rules[best].pattern, rules[k].pattern)
                ||| !more_specific(rules[k].pattern, rules[best].pattern)
                    && rules[best].position < rules[k].position
            } by {
                if k < n {
                    assert(r[k] == rules[k] && h[k] == hits[k]);
                    if before >= 0 && best == n && k != before {
                        lemma_more_specific_order(
                            rules[n].pattern,
                            rules[before].pattern,
                            rules[k].pattern,
                        );
                    }
                } else if before >= 0 {
                    assert(rules[before].position < rules[n].position);
                }
            }
        }
    }
}

/// A parsed `.agentsee` file.
pub struct Agentsee {
    includes: Vec<Rule>,
    excludes: Vec<Rule>,
}

impl View for Agentsee {
    type V = AgentseeView;

    closed spec fn view(&self) -> AgentseeView {
        AgentseeView {
            includes: rule_views(self.includes@),
            excludes: rule_views(self.excludes@),
        }
    }
}

impl Agentsee {
    /// Every rule holds its own globs, and each position belongs to one rule.
    pub closed spec fn wf(self) -> bool {
        &&& forall|i: int| 0 <= i < self.includes@.len() ==> (#[trigger] self.includes@[i]).wf()
        &&& forall|i: int| 0 <= i < self.excludes@.len() ==> (#[trigger] self.excludes@[i]).wf()
        &&& well_placed(self@)
    }
}

proof fn lemma_in_force_positions(
    rules: Seq<RuleLine>,
    globs: Seq<Seq<Seq<char>>>,
    negated: bool,
)
    ensures
        ({
            let kept = in_force_with(rules, globs, negated);
            &&& in_file_order(kept)
            &&& forall|i: int|
                0 <= i < kept.len() ==> {
                    &&& 0 <= (#[trigger] kept[i]).position < rules.len()
                    &&& rules[kept[i].position].negated == negated
                }
        }),
    decreases rules.len(),
{
    if rules.len() > 0 {
        let fewer = rules.drop_last();
        lemma_in_force_positions(fewer, globs.drop_last(), negated);
        let before = in_force_with(fewer, globs.drop_last(), negated);
        let kept = in_force_with(rules, globs, negated);
        assert forall|i: int| 0 <= i < kept.len() implies {
            &&& 0 <= (#[trigger] kept[i]).position < rules.len()
            &&& rules[kept[i].position].negated == negated
        } by {
            if i < before.len() {
                assert(kept[i] == before[i]);
                assert(fewer[before[i].position] == rules[before[i].position]);
            }
        }
        assert forall|i: int, j: int|
            #![trigger kept[i], kept[j]]
            0 <= i < j < kept.len() implies kept[i].position < kept[j].position by {
            if j < before.len() {
                assert(before[i].position < before[j].position);
            } else {
                assert(before[i].position < fewer.len());
            }
        }
    }
}

/// The rules that are in force are well placed.
proof fn lemma_in_force_well_placed(rules: Seq<RuleLine>, globs: Seq<Seq<Seq<char>>>)
    ensures
        well_placed(filter_with(rules, globs)),
{
    lemma_in_force_positions(rules, globs, false);
    lemma_in_force_positions(rules, globs, true);
}

impl AgentseeView {
    /// Whether no pattern holds a backslash.
    pub open spec fn portable(self) -> bool {
        &&& forall|i: int|
            0 <= i < self.includes.len() ==> matching::portable(
                (#[trigger] self.includes[i]).pattern,
            )
        &&& forall|i: int|
            0 <= i < self.excludes.len() ==> matching::portable(
                (#[trigger] self.excludes[i]).pattern,
            )
    }
}

/// The filter that a file with these rules stands for, where `globs[i]` are the
/// globs of rule `i` that compile.
pub open spec fn filter_with(rules: Seq<RuleLine>, globs: Seq<Seq<Seq<char>>>) -> AgentseeView {
    AgentseeView {
        includes: in_force_with(rules, globs, false),
        excludes: in_force_with(rules, globs, true),
    }
}

/// The filter that a file with these rules stands for.
pub open spec fn filter_of(rules: Seq<RuleLine>) -> AgentseeView {
    filter_with(rules, compiled_rules(rules))
}

/// Whether this may be the filter of a file with these rules.
pub open spec fn may_filter(rules: Seq<RuleLine>, view: AgentseeView) -> bool {
    exists|globs: Seq<Seq<Seq<char>>>| #[trigger]
        may_compile_to(rules, globs) && view == filter_with(rules, globs)
}

/// The filter that the globs decide is one that a file may have.
pub proof fn own_filter_is_possible(rules: Seq<RuleLine>)
    ensures
        may_filter(rules, filter_of(rules)),
{
    let globs = compiled_rules(rules);
    assert forall|i: int| #![trigger globs[i]] 0 <= i < rules.len() implies {
        &&& globs[i] == compiled(rules[i].pattern)
        &&& forall|k: int|
            0 <= k < globs[i].len() ==> pattern::glob_texts(rules[i].pattern).contains(
                #[trigger] globs[i][k],
            )
    } by {
        let all = pattern::glob_texts(rules[i].pattern);
        let valid = |g: Seq<char>| matching::glob_is_valid(g);
        assert forall|k: int| 0 <= k < globs[i].len() implies all.contains(
            #[trigger] globs[i][k],
        ) by {
            if !is_simple(rules[i].pattern) {
                assert(globs[i] == all.filter(valid));
                all.lemma_filter_contains_rev(valid, globs[i][k]);
            }
        }
    }
    assert(may_compile_to(rules, globs));
}

/// Where no pattern holds a backslash, a file has one filter, and no pattern of
/// the filter holds a backslash either.
pub proof fn portable_filter_is_one(rules: Seq<RuleLine>, view: AgentseeView)
    requires
        all_portable(rules),
    ensures
        may_filter(rules, view) <==> view == filter_of(rules),
        filter_of(rules).portable(),
{
    own_filter_is_possible(rules);
    lemma_in_force_portable(rules, compiled_rules(rules), false);
    lemma_in_force_portable(rules, compiled_rules(rules), true);
    if may_filter(rules, view) {
        let globs = choose|globs: Seq<Seq<Seq<char>>>| #[trigger]
            may_compile_to(rules, globs) && view == filter_with(rules, globs);
        assert forall|j: int| 0 <= j < rules.len() implies #[trigger] globs[j] == compiled_rules(
            rules,
        )[j] by {
            assert(matching::portable(rules[j].pattern));
        }
        assert(globs =~= compiled_rules(rules));
    }
}

proof fn lemma_in_force_portable(
    rules: Seq<RuleLine>,
    globs: Seq<Seq<Seq<char>>>,
    negated: bool,
)
    requires
        all_portable(rules),
    ensures
        forall|i: int|
            0 <= i < in_force_with(rules, globs, negated).len() ==> matching::portable(
                (#[trigger] in_force_with(rules, globs, negated)[i]).pattern,
            ),
    decreases rules.len(),
{
    if rules.len() > 0 {
        let fewer = rules.drop_last();
        assert forall|i: int| 0 <= i < fewer.len() implies matching::portable(
            #[trigger] fewer[i].pattern,
        ) by {
            assert(fewer[i] == rules[i]);
        }
        lemma_in_force_portable(fewer, globs.drop_last(), negated);
        assert(matching::portable(rules[rules.len() - 1].pattern));
        let before = in_force_with(fewer, globs.drop_last(), negated);
        let kept = in_force_with(rules, globs, negated);
        assert forall|i: int| 0 <= i < kept.len() implies matching::portable(
            (#[trigger] kept[i]).pattern,
        ) by {
            if i < before.len() {
                assert(kept[i] == before[i]);
            }
        }
    }
}

impl Agentsee {
    /// Parses the text of a `.agentsee` file. There is no filter where the file
    /// is missing or blank.
    ///
    /// Which globs of a pattern with a backslash compile depends on the
    /// platform; the rest is the same for every outcome.
    pub fn load(file: Option<&str>) -> (r: Option<Agentsee>)
        ensures
            r is Some <==> (file matches Some(content) && !text::blank(content@)),
            file matches Some(content) ==> (r matches Some(filter) ==> {
                &&& filter.wf()
                &&& may_filter(rule_lines(content@), filter@)
                &&& all_portable(rule_lines(content@)) ==> filter@ == filter_of(
                    rule_lines(content@),
                )
            }),
    {
        let content = match file {
            None => {
                return None;
            },
            Some(content) => content,
        };
        if is_blank(content) {
            return None;
        }
        let all = split_lines(content);
        let ghost ls = text::lines(content@);
        let ghost mut rules: Seq<RuleLine> = Seq::empty();
        let ghost mut globs: Seq<Seq<Seq<char>>> = Seq::empty();
        let mut includes: Vec<Rule> = Vec::new();
        let mut excludes: Vec<Rule> = Vec::new();
        let mut seq: usize = 0;
        let mut i: usize = 0;
        proof {
            assert(ls.take(0) =~= Seq::empty());
            assert(rule_views(includes@) =~= in_force_with(rules, globs, false));
            assert(rule_views(excludes@) =~= in_force_with(rules, globs, true));
        }
        while i < all.len()
            invariant
                text::texts(all@) == ls,
                i <= all@.len(),
                seq <= i,
                seq == rules.len(),
                rules == rules_among(ls.take(i as int)),
                may_compile_to(rules, globs),
                rule_views(includes@) == in_force_with(rules, globs, false),
                rule_views(excludes@) == in_force_with(rules, globs, true),
                forall|k: int| 0 <= k < includes@.len() ==> (#[trigger] includes@[k]).wf(),
                forall|k: int| 0 <= k < excludes@.len() ==> (#[trigger] excludes@[k]).wf(),
            decreases all@.len() - i,
        {
            let line = trimmed(all[i].as_str());
            proof {
                assert(all@[i as int]@ == text::texts(all@)[i as int]);
                assert(ls.take(i + 1).drop_last() =~= ls.take(i as int));
                assert(ls.take(i + 1).last() == ls[i as int]);
            }
            let n: usize = line.unicode_len();
            i += 1;
            if n == 0 || line.get_char(0) == '#' {
                continue;
            }
            let negated: bool = line.get_char(0) == '!';
            let pat_str = if negated {
                let rest = line.substring_char(1, n);
                assert(rest@ =~= line@.drop_first());
                trimmed(rest)
            } else {
                line
            };
            let ghost rule_at = rule_line(line@);
            let ghost (rules0, globs0) = (rules, globs);
            let ghost (inc0, exc0) = (rule_views(includes@), rule_views(excludes@));
            proof {
                rules = rules.push(rule_at);
                assert(rules.drop_last() =~= rules0);
            }
            match Rule::new(pat_str, seq) {
                None => {
                    proof {
                        let none: Seq<Seq<char>> = Seq::empty();
                        if is_simple(pat_str@) || matching::portable(pat_str@) {
                            assert(compiled(pat_str@) =~= none);
                        }
                        globs = globs.push(none);
                        assert(globs.drop_last() =~= globs0);
                    }
                },
                Some(rule) => {
                    proof {
                        globs = globs.push(rule@.globs);
                        assert(globs.drop_last() =~= globs0);
                    }
                    if negated {
                        excludes.push(rule);
                        assert(rule_views(excludes@) =~= exc0.push(rule@));
                    } else {
                        includes.push(rule);
                        assert(rule_views(includes@) =~= inc0.push(rule@));
                    }
                },
            }
            assert(may_compile_to(rules, globs)) by {
                assert forall|j: int|
                    #![trigger globs[j]]
                    0 <= j < rules.len() implies {
                    &&& is_simple(rules[j].pattern) || matching::portable(rules[j].pattern)
                        ==> globs[j] == compiled(rules[j].pattern)
                    &&& forall|k: int|
                        0 <= k < globs[j].len() ==> pattern::glob_texts(rules[j].pattern).contains(
                            #[trigger] globs[j][k],
                        )
                } by {
                    if j < rules0.len() {
                        assert(globs[j] == globs0[j] && rules[j] == rules0[j]);
                    }
                }
            }
            seq += 1;
        }
        let filter = Agentsee { includes, excludes };
        proof {
            assert(ls.take(ls.len() as int) =~= ls);
            lemma_in_force_well_placed(rules, globs);
            assert(filter@ =~= filter_with(rules, globs));
            assert(may_filter(rules, filter@));
            if all_portable(rules) {
                portable_filter_is_one(rules, filter@);
            }
        }
        Some(filter)
    }

    /// The number of include rules.
    pub fn include_count(&self) -> (n: usize)
        ensures
            n == self@.includes.len(),
    {
        self.includes.len()
    }

    /// The number of exclude rules.
    pub fn exclude_count(&self) -> (n: usize)
        ensures
            n == self@.excludes.len(),
    {
        self.excludes.len()
    }

    /// The priority of a path, given which of the include rules and which of
    /// the exclude rules match it.
    pub fn choose_priority(
        &self,
        include_hits: &Vec<bool>,
        exclude_hits: &Vec<bool>,
    ) -> (r: Option<usize>)
        requires
            self.wf(),
            include_hits@.len() == self@.includes.len(),
            exclude_hits@.len() == self@.excludes.len(),
        ensures
            as_position(r) == decide(self@, include_hits@, exclude_hits@),
    {
        let ghost (inc, exc) = (self@.includes, self@.excludes);
        let mut last_include: Option<usize> = None;
        let mut best: Option<usize> = None;
        let mut i: usize = 0;
        assert(include_hits@.take(0) =~= Seq::empty());
        assert(inc.take(0) =~= Seq::empty());
        while i < self.includes.len()
            invariant
                inc == self@.includes,
                inc == rule_views(self.includes@),
                include_hits@.len() == inc.len(),
                i <= self.includes@.len(),
                last_match(inc.take(i as int), include_hits@.take(i as int)) == match last_include {
                    Some(p) => p as int,
                    None => -1,
                },
                best_match(inc.take(i as int), include_hits@.take(i as int)) == match best {
                    Some(b) => b as int,
                    None => -1,
                },
                best matches Some(b) ==> b < i,
            decreases self.includes@.len() - i,
        {
            let ghost (r, h) = (inc.take(i + 1), include_hits@.take(i + 1));
            proof {
                assert(r.drop_last() =~= inc.take(i as int));
                assert(h.drop_last() =~= include_hits@.take(i as int));
                assert(r.last() == self.includes@[i as int]@);
                assert(h.last() == include_hits@[i as int]);
            }
            if include_hits[i] {
                last_include = Some(self.includes[i].position);
                best = match best {
                    None => Some(i),
                    Some(b) => {
                        assert(r[b as int] == self.includes@[b as int]@);
                        if self.includes[i].is_more_specific(&self.includes[b]) {
                            Some(i)
                        } else {
                            Some(b)
                        }
                    },
                };
            }
            i += 1;
        }
        let mut last_exclude: Option<usize> = None;
        let mut j: usize = 0;
        assert(exclude_hits@.take(0) =~= Seq::empty());
        assert(exc.take(0) =~= Seq::empty());
        while j < self.excludes.len()
            invariant
                exc == self@.excludes,
                exc == rule_views(self.excludes@),
                exclude_hits@.len() == exc.len(),
                j <= self.excludes@.len(),
                last_match(exc.take(j as int), exclude_hits@.take(j as int)) == match last_exclude {
                    Some(p) => p as int,
                    None => -1,
                },
            decreases self.excludes@.len() - j,
        {
            let ghost (r, h) = (exc.take(j + 1), exclude_hits@.take(j + 1));
            proof {
                assert(r.drop_last() =~= exc.take(j as int));
                assert(h.drop_last() =~= exclude_hits@.take(j as int));
                assert(r.last() == self.excludes@[j as int]@);
                assert(h.last() == exclude_hits@[j as int]);
            }
            if exclude_hits[j] {
                last_exclude = Some(self.excludes[j].position);
            }
            j += 1;
        }
        proof {
            assert(inc.take(inc.len() as int) =~= inc);
            assert(include_hits@.take(inc.len() as int) =~= include_hits@);
            assert(exc.take(exc.len() as int) =~= exc);
            assert(exclude_hits@.take(exc.len() as int) =~= exclude_hits@);
            lemma_best_match(inc, include_hits@);
            lemma_last_match(inc, include_hits@);
        }
        match (last_include, best) {
            (Some(p), Some(b)) => {
                let excluded: bool = match last_exclude {
                    Some(q) => q >= p,
                    None => false,
                };
                assert(inc[b as int] == self.includes@[b as int]@);
                if excluded {
                    None
                } else {
                    Some(self.includes[b].position)
                }
            },
            _ => None,
        }
    }

    /// The priority of a workspace-relative path (0 is the highest), or nothing
    /// where the path is excluded.
    ///
    /// Whether a pattern or a path with a backslash matches depends on the
    /// platform; the decision is the same function of the matches for every
    /// outcome.
    pub fn priority(&self, rel: &str) -> (r: Option<usize>)
        requires
            self.wf(),
        ensures
            may_rank(self@, rel@, as_position(r)),
            self@.portable() && matching::portable(rel@) ==> as_position(r) == path_priority(
                self@,
                rel@,
            ),
    {
        let include_hits = Self::matching_rules(&self.includes, rel);
        let exclude_hits = Self::matching_rules(&self.excludes, rel);
        let r = self.choose_priority(&include_hits, &exclude_hits);
        proof {
            assert(as_position(r) == decide(self@, include_hits@, exclude_hits@));
            if self@.portable() && matching::portable(rel@) {
                portable_priority_is_one(self@, rel@, as_position(r));
            }
        }
        r
    }

    fn matching_rules(rules: &Vec<Rule>, rel: &str) -> (r: Vec<bool>)
        requires
            forall|i: int| 0 <= i < rules@.len() ==> (#[trigger] rules@[i]).wf(),
        ensures
            may_hit(rule_views(rules@), rel@, r@),
    {
        let mut found: Vec<bool> = Vec::new();
        let mut i: usize = 0;
        while i < rules.len()
            invariant
                forall|k: int| 0 <= k < rules@.len() ==> (#[trigger] rules@[k]).wf(),
                i <= rules@.len(),
                found@.len() == i,
                forall|k: int|
                    #![trigger found@[k]]
                    0 <= k < i && matching::portable(rules@[k]@.pattern) && matching::portable(rel@)
                        ==> found@[k] == rule_matches(rules@[k]@, rel@),
            decreases rules@.len() - i,
        {
            found.push(rules[i].matches(rel));
            i += 1;
        }
        found
    }
}

// ---------------------------------------------------------------------------
// Laws
// ---------------------------------------------------------------------------

/// Each position of a filter belongs to one rule, whatever file it comes from.
pub proof fn loaded_filter_is_well_placed(rules: Seq<RuleLine>, view: AgentseeView)
    requires
        may_filter(rules, view),
    ensures
        well_placed(view),
{
    let globs = choose|globs: Seq<Seq<Seq<char>>>| #[trigger]
        may_compile_to(rules, globs) && view == filter_with(rules, globs);
    lemma_in_force_well_placed(rules, globs);
}

/// Whether a path has a component from index `s` to index `e`.
pub open spec fn is_component(rel: Seq<char>, s: int, e: int) -> bool {
    &&& matching::component_starts(rel, s)
    &&& s <= e <= rel.len()
    &&& e == rel.len() || rel[e] == '/'
    &&& !rel.subrange(s, e).contains('/')
}

/// A simple pattern without a slash matches the paths with a component that it
/// matches: the name of the file, or that of a directory above it.
pub proof fn slashless_pattern_matches_components(pattern: Seq<char>, rel: Seq<char>)
    requires
        is_simple(pattern),
        !pattern::is_anchored(text::trim(pattern)),
    ensures
        simple_rule_matches(pattern, rel) <==> exists|s: int, e: int| #[trigger]
            is_component(rel, s, e) && matching::simple_matches(
                text::trim(pattern),
                rel.subrange(s, e),
            ),
{
    let p = text::trim(pattern);
    if pattern::names_directory(p) {
        assert(p[p.len() - 1] == '/');
    }
    if matching::ends_in(rel, p) {
        let s = choose|s: int| #[trigger]
            matching::component_starts(rel, s) && matching::simple_matches(p, rel.skip(s));
        let e = rel.len() as int;
        assert(rel.skip(s) =~= rel.subrange(s, e));
        matching::slashless_glob_matches_no_slash(p, rel.skip(s));
        assert(is_component(rel, s, e));
    }
    if matching::passes_through(rel, p) {
        let s = choose|s: int| #[trigger]
            matching::component_starts(rel, s) && matching::lies_under(rel.skip(s), p);
        let rest = rel.skip(s);
        let n = choose|n: int|
            0 <= n < rest.len() && rest[n] == '/' && matching::simple_matches(
                p,
                #[trigger] rest.take(n),
            );
        let e = s + n;
        assert(rest.take(n) =~= rel.subrange(s, e));
        matching::slashless_glob_matches_no_slash(p, rest.take(n));
        assert(rel[e] == rest[n]);
        assert(is_component(rel, s, e));
    }
    if exists|s: int, e: int| #[trigger]
        is_component(rel, s, e) && matching::simple_matches(p, rel.subrange(s, e)) {
        let (s, e) = choose|s: int, e: int| #[trigger]
            is_component(rel, s, e) && matching::simple_matches(p, rel.subrange(s, e));
        let rest = rel.skip(s);
        assert(matching::component_starts(rel, s));
        if e == rel.len() {
            assert(rest =~= rel.subrange(s, e));
        } else {
            assert(rest.take(e - s) =~= rel.subrange(s, e));
            assert(rest[e - s] == rel[e]);
            assert(matching::lies_under(rest, p));
        }
    }
}

/// The rule that a rule line stands for, at a position.
pub open spec fn rule_at(line: RuleLine, position: int) -> RuleView {
    RuleView { pattern: line.pattern, globs: compiled(line.pattern), position }
}

/// A final exclude rule only removes the paths that it matches: every other path
/// keeps its priority.
pub proof fn final_exclude_only_removes(rules: Seq<RuleLine>, last: RuleLine, rel: Seq<char>)
    requires
        last.negated,
    ensures
        path_priority(filter_of(rules.push(last)), rel) == if rule_matches(
            rule_at(last, rules.len() as int),
            rel,
        ) {
            None
        } else {
            path_priority(filter_of(rules), rel)
        },
{
    let all = rules.push(last);
    let (before, after) = (filter_of(rules), filter_of(all));
    let rule = rule_at(last, rules.len() as int);
    assert(all.drop_last() =~= rules);
    assert(compiled_rules(all).drop_last() =~= compiled_rules(rules));
    assert(compiled_rules(all).last() == compiled(last.pattern));
    assert(after.includes == before.includes);
    let globs = compiled_rules(rules);
    lemma_in_force_positions(rules, globs, false);
    lemma_in_force_well_placed(rules, globs);
    let (inc, exc) = (hits(before.includes, rel), hits(before.excludes, rel));
    lemma_last_match(before.includes, inc);
    if compiled(last.pattern).len() > 0 {
        assert(after.excludes == before.excludes.push(rule));
        let hit = hits(after.excludes, rel);
        assert(hit.drop_last() =~= exc);
        assert(hit.last() == rule_matches(rule, rel));
        assert(after.excludes.drop_last() =~= before.excludes);
        if rule_matches(rule, rel) {
            assert(last_match(after.excludes, hit) == rules.len());
            assert(last_match(before.includes, inc) < rules.len()) by {
                if last_match(before.includes, inc) >= 0 {
                    let i = choose|i: int|
                        #![trigger before.includes[i]]
                        0 <= i < before.includes.len() && inc[i] && before.includes[i].position
                            == last_match(before.includes, inc);
                    assert(before.includes[i].position < rules.len());
                }
            }
        } else {
            assert(last_match(after.excludes, hit) == last_match(before.excludes, exc));
        }
    } else {
        assert(after.excludes == before.excludes);
        assert(!is_simple(last.pattern));
    }
}

/// One more line with a pattern behind `!` adds one exclude rule.
pub proof fn exclude_line_adds_a_rule(content: Seq<char>, pat: Seq<char>)
    requires
        text::trim(pat) == pat,
        pat.len() > 0,
        !pat.contains('\n'),
    ensures
        rule_lines(content + "\n!"@ + pat) == rule_lines(content).push(
            RuleLine { negated: true, pattern: pat },
        ),
{
    reveal_strlit("\n!");
    let line = seq!['!'] + pat;
    text::trimmed_text_has_no_outer_space(pat);
    assert(content + "\n!"@ + pat =~= content.push('\n') + line);
    assert forall|i: int| 0 <= i < line.len() implies line[i] != '\n' by {
        if i > 0 {
            assert(line[i] == pat[i - 1]);
        }
    }
    text::lines_with_one_more(content, line);
    assert(line[0] == '!');
    assert(line.last() == pat.last());
    assert(text::trim_start(line) == line);
    assert(text::trim(line) == line);
    assert(line.drop_first() =~= pat);
    assert(text::lines(content).push(line).drop_last() =~= text::lines(content));
}

/// A final exclude line only removes the paths that its pattern matches: every
/// other path keeps its priority.
pub proof fn final_exclude_line_only_removes(
    content: Seq<char>,
    pat: Seq<char>,
    rel: Seq<char>,
)
    requires
        text::trim(pat) == pat,
        pat.len() > 0,
        !pat.contains('\n'),
    ensures
        ({
            let last = RuleLine { negated: true, pattern: pat };
            let before = filter_of(rule_lines(content));
            let after = filter_of(rule_lines(content + "\n!"@ + pat));
            path_priority(after, rel) == if rule_matches(
                rule_at(last, rule_lines(content).len() as int),
                rel,
            ) {
                None
            } else {
                path_priority(before, rel)
            }
        }),
{
    exclude_line_adds_a_rule(content, pat);
    final_exclude_only_removes(
        rule_lines(content),
        RuleLine { negated: true, pattern: pat },
        rel,
    );
}

proof fn lemma_one_more_line(content: Seq<char>, line: Seq<char>)
    requires
        !line.contains('\n'),
    ensures
        rule_lines(content.push('\n') + line) == rules_among(text::lines(content).push(line)),
        rule_lines(line) == rules_among(seq![line]),
{
    text::lines_with_one_more(content, line);
    text::one_line_is_one_piece(line);
}

/// A blank line, and one that begins with `#`, adds no rule.
pub proof fn blank_and_comment_lines_add_nothing(content: Seq<char>, line: Seq<char>)
    requires
        !line.contains('\n'),
        text::trim(line).len() == 0 || text::trim(line)[0] == '#',
    ensures
        rule_lines(content.push('\n') + line) == rule_lines(content),
        rule_lines(line).len() == 0,
{
    lemma_one_more_line(content, line);
    assert(text::lines(content).push(line).drop_last() =~= text::lines(content));
    assert(seq![line].drop_last() =~= Seq::empty());
    assert(rules_among(Seq::<Seq<char>>::empty()).len() == 0);
}

/// Every other line adds one rule behind those before it: an exclude rule where
/// the line begins with `!`, and an include rule where it does not.
pub proof fn every_other_line_adds_a_rule(content: Seq<char>, line: Seq<char>)
    requires
        !line.contains('\n'),
        text::trim(line).len() > 0,
        text::trim(line)[0] != '#',
    ensures
        ({
            let t = text::trim(line);
            let rule = if t[0] == '!' {
                RuleLine { negated: true, pattern: text::trim(t.subrange(1, t.len() as int)) }
            } else {
                RuleLine { negated: false, pattern: t }
            };
            &&& rule_lines(content.push('\n') + line) == rule_lines(content).push(rule)
            &&& rule_lines(line) == seq![rule]
        }),
{
    let t = text::trim(line);
    lemma_one_more_line(content, line);
    assert(text::lines(content).push(line).drop_last() =~= text::lines(content));
    assert(seq![line].drop_last() =~= Seq::empty());
    assert(t.drop_first() =~= t.subrange(1, t.len() as int));
    assert(rules_among(Seq::<Seq<char>>::empty()) =~= Seq::empty());
    assert(rule_lines(line) =~= seq![rule_line(t)]);
}

/// A rule with a glob that compiles is in force at the place of its line, behind
/// the rules before it, and a rule without one changes nothing.
pub proof fn one_more_rule_is_in_force(
    rules: Seq<RuleLine>,
    globs: Seq<Seq<Seq<char>>>,
    rule: RuleLine,
    compiled_to: Seq<Seq<char>>,
)
    ensures
        ({
            let before = filter_with(rules, globs);
            let after = filter_with(rules.push(rule), globs.push(compiled_to));
            let added = RuleView {
                pattern: rule.pattern,
                globs: compiled_to,
                position: rules.len() as int,
            };
            &&& compiled_to.len() == 0 ==> after == before
            &&& compiled_to.len() > 0 && rule.negated ==> after.includes == before.includes
                && after.excludes == before.excludes.push(added)
            &&& compiled_to.len() > 0 && !rule.negated ==> after.includes == before.includes.push(
                added,
            ) && after.excludes == before.excludes
        }),
        filter_with(Seq::empty(), Seq::empty()).includes.len() == 0,
        filter_with(Seq::empty(), Seq::empty()).excludes.len() == 0,
{
    assert(rules.push(rule).drop_last() =~= rules);
    assert(globs.push(compiled_to).drop_last() =~= globs);
}

/// All globs of a pattern with one star at most compile, and of any other those
/// that are valid, in their order.
pub proof fn compiled_globs_are_the_valid_ones(pattern: Seq<char>, negated: bool, i: int)
    ensures
        rule_at(RuleLine { negated, pattern }, i) == (RuleView {
            pattern,
            globs: compiled(pattern),
            position: i,
        }),
        matching::simple(text::trim(pattern)) ==> compiled(pattern) == pattern::glob_texts(pattern),
        !matching::simple(text::trim(pattern)) ==> compiled(pattern) == pattern::glob_texts(
            pattern,
        ).filter(|x: Seq<char>| matching::glob_is_valid(x)),
        is_simple(pattern) <==> matching::simple(text::trim(pattern)),
{
}

/// The globs of a rule are those of its pattern on every platform, where the
/// pattern has one star at most or no backslash.
pub proof fn filter_comes_from_the_rules(rules: Seq<RuleLine>, view: AgentseeView)
    requires
        may_filter(rules, view),
    ensures
        exists|globs: Seq<Seq<Seq<char>>>|
            #![trigger filter_with(rules, globs)]
            {
                &&& view == filter_with(rules, globs)
                &&& globs.len() == rules.len()
                &&& forall|i: int|
                    #![trigger globs[i]]
                    0 <= i < rules.len() && (matching::simple(text::trim(rules[i].pattern))
                        || !rules[i].pattern.contains('\\')) ==> globs[i] == compiled(
                        rules[i].pattern,
                    )
            },
        (forall|i: int| 0 <= i < rules.len() ==> !(#[trigger] rules[i]).pattern.contains('\\'))
            <==> all_portable(rules),
{
    let globs = choose|globs: Seq<Seq<Seq<char>>>| #[trigger]
        may_compile_to(rules, globs) && view == filter_with(rules, globs);
    assert(view == filter_with(rules, globs));
    if forall|i: int| 0 <= i < rules.len() ==> !(#[trigger] rules[i]).pattern.contains('\\') {
        assert forall|i: int| 0 <= i < rules.len() implies matching::portable(
            #[trigger] rules[i].pattern,
        ) by {
            assert(!rules[i].pattern.contains('\\'));
        }
    }
    if all_portable(rules) {
        assert forall|i: int| 0 <= i < rules.len() implies !(#[trigger] rules[i]).pattern.contains(
            '\\',
        ) by {
            assert(matching::portable(rules[i].pattern));
        }
    }
}

/// A priority comes from matches: those that the rules have, wherever neither
/// the pattern nor the path has a backslash.
pub proof fn priority_comes_from_matches(
    view: AgentseeView,
    rel: Seq<char>,
    priority: Option<int>,
)
    requires
        may_rank(view, rel, priority),
    ensures
        exists|i: Seq<bool>, e: Seq<bool>|
            #![trigger decide(view, i, e)]
            {
                &&& priority == decide(view, i, e)
                &&& i.len() == view.includes.len()
                &&& e.len() == view.excludes.len()
                &&& forall|k: int|
                    #![trigger i[k]]
                    0 <= k < i.len() && !view.includes[k].pattern.contains('\\')
                        && !rel.contains('\\') ==> i[k] == rule_matches(view.includes[k], rel)
                &&& forall|k: int|
                    #![trigger e[k]]
                    0 <= k < e.len() && !view.excludes[k].pattern.contains('\\')
                        && !rel.contains('\\') ==> e[k] == rule_matches(view.excludes[k], rel)
            },
{
    let (i, e) = choose|i: Seq<bool>, e: Seq<bool>|
        {
            &&& may_hit(view.includes, rel, i)
            &&& may_hit(view.excludes, rel, e)
            &&& priority == #[trigger] decide(view, i, e)
        };
    assert(priority == decide(view, i, e));
}

/// A pattern with a slash is more specific than one without, and of two others
/// the one with more bytes.
pub proof fn specificity_goes_by_slash_and_size(a: Seq<char>, b: Seq<char>)
    ensures
        a.contains('/') && !b.contains('/') ==> more_specific(a, b) && !more_specific(b, a),
        a.contains('/') == b.contains('/') ==> (more_specific(a, b) <==> vstd::utf8::encode_utf8(
            a,
        ).len() > vstd::utf8::encode_utf8(b).len()),
{
}

proof fn lemma_in_force_complete(rules: Seq<RuleLine>, negated: bool)
    ensures
        ({
            let kept = in_force_with(rules, compiled_rules(rules), negated);
            &&& forall|k: int|
                0 <= k < kept.len() ==> {
                    let p = (#[trigger] kept[k]).position;
                    &&& 0 <= p < rules.len()
                    &&& rules[p].negated == negated
                    &&& kept[k] == rule_at(rules[p], p)
                }
            &&& forall|i: int|
                0 <= i < rules.len() && rules[i].negated == negated && compiled(
                    rules[i].pattern,
                ).len() > 0 ==> kept.contains(#[trigger] rule_at(rules[i], i))
        }),
    decreases rules.len(),
{
    if rules.len() > 0 {
        let fewer = rules.drop_last();
        let n = rules.len() - 1;
        lemma_in_force_complete(fewer, negated);
        assert(compiled_rules(rules).drop_last() =~= compiled_rules(fewer));
        assert(compiled_rules(rules).last() == compiled(rules.last().pattern));
        let before = in_force_with(fewer, compiled_rules(fewer), negated);
        let kept = in_force_with(rules, compiled_rules(rules), negated);
        assert forall|k: int| 0 <= k < kept.len() implies {
            let p = (#[trigger] kept[k]).position;
            &&& 0 <= p < rules.len()
            &&& rules[p].negated == negated
            &&& kept[k] == rule_at(rules[p], p)
        } by {
            if k < before.len() {
                assert(kept[k] == before[k]);
                assert(fewer[before[k].position] == rules[before[k].position]);
            }
        }
        assert forall|i: int|
            0 <= i < rules.len() && rules[i].negated == negated && compiled(
                rules[i].pattern,
            ).len() > 0 implies kept.contains(#[trigger] rule_at(rules[i], i)) by {
            if i < n {
                assert(fewer[i] == rules[i]);
                assert(before.contains(rule_at(fewer[i], i)));
                let k = choose|k: int| 0 <= k < before.len() && before[k] == rule_at(fewer[i], i);
                assert(kept[k] == before[k]);
            } else {
                assert(kept[kept.len() - 1] == rule_at(rules[i], i));
            }
        }
    }
}

proof fn lemma_matching_rule_compiles(line: RuleLine, i: int, rel: Seq<char>)
    requires
        rule_matches(rule_at(line, i), rel),
    ensures
        compiled(line.pattern).len() > 0,
{
}

/// The last line that matches a path decides: the path is included exactly when
/// an include line matches it and no exclude line further down does.
pub proof fn last_matching_line_decides(rules: Seq<RuleLine>, rel: Seq<char>)
    ensures
        path_priority(filter_of(rules), rel) is Some <==> exists|i: int|
            #![trigger rules[i]]
            0 <= i < rules.len() && !rules[i].negated && rule_matches(rule_at(rules[i], i), rel)
                && forall|j: int|
                #![trigger rules[j]]
                i < j < rules.len() && rules[j].negated ==> !rule_matches(
                    rule_at(rules[j], j),
                    rel,
                ),
{
    let view = filter_of(rules);
    let (ih, eh) = (hits(view.includes, rel), hits(view.excludes, rel));
    own_filter_is_possible(rules);
    loaded_filter_is_well_placed(rules, view);
    lemma_in_force_complete(rules, false);
    lemma_in_force_complete(rules, true);
    last_match_wins(view, ih, eh);
    if path_priority(view, rel) is Some {
        let k = choose|k: int|
            #![trigger view.includes[k]]
            0 <= k < view.includes.len() && ih[k] && forall|j: int|
                #![trigger view.excludes[j]]
                0 <= j < view.excludes.len() && eh[j] ==> view.excludes[j].position
                    < view.includes[k].position;
        let i = view.includes[k].position;
        assert(view.includes[k] == rule_at(rules[i], i));
        assert forall|j: int|
            #![trigger rules[j]]
            i < j < rules.len() && rules[j].negated implies !rule_matches(
            rule_at(rules[j], j),
            rel,
        ) by {
            if rule_matches(rule_at(rules[j], j), rel) {
                lemma_matching_rule_compiles(rules[j], j, rel);
                assert(view.excludes.contains(rule_at(rules[j], j)));
                let l = choose|l: int|
                    0 <= l < view.excludes.len() && view.excludes[l] == rule_at(rules[j], j);
                assert(eh[l]);
                assert(view.excludes[l].position == j);
            }
        }
        assert(!rules[i].negated);
    }
    if exists|i: int|
        #![trigger rules[i]]
        0 <= i < rules.len() && !rules[i].negated && rule_matches(rule_at(rules[i], i), rel)
            && forall|j: int|
            #![trigger rules[j]]
            i < j < rules.len() && rules[j].negated ==> !rule_matches(rule_at(rules[j], j), rel) {
        let i = choose|i: int|
            #![trigger rules[i]]
            0 <= i < rules.len() && !rules[i].negated && rule_matches(rule_at(rules[i], i), rel)
                && forall|j: int|
                #![trigger rules[j]]
                i < j < rules.len() && rules[j].negated ==> !rule_matches(
                    rule_at(rules[j], j),
                    rel,
                );
        lemma_matching_rule_compiles(rules[i], i, rel);
        assert(view.includes.contains(rule_at(rules[i], i)));
        let k = choose|k: int|
            0 <= k < view.includes.len() && view.includes[k] == rule_at(rules[i], i);
        assert(ih[k]);
        assert forall|j: int|
            #![trigger view.excludes[j]]
            0 <= j < view.excludes.len() && eh[j] implies view.excludes[j].position
            < view.includes[k].position by {
            let p = view.excludes[j].position;
            assert(view.excludes[j] == rule_at(rules[p], p));
            if p > i {
                assert(rules[p].negated);
            }
            assert(rules[i].negated != rules[p].negated);
        }
    }
}

/// The priority of a path is the place of an include line that matches it, and
/// any other such line is less specific (by a slash, then by its size), or as
/// specific and further down.
pub proof fn most_specific_line_sets_the_priority(rules: Seq<RuleLine>, rel: Seq<char>)
    ensures
        path_priority(filter_of(rules), rel) matches Some(p) ==> {
            &&& 0 <= p < rules.len()
            &&& !rules[p].negated
            &&& rule_matches(rule_at(rules[p], p), rel)
            &&& forall|k: int|
                #![trigger rules[k]]
                0 <= k < rules.len() && k != p && !rules[k].negated && rule_matches(
                    rule_at(rules[k], k),
                    rel,
                ) ==> {
                    let (a, b) = (rules[p].pattern, rules[k].pattern);
                    let (x, y) = (
                        vstd::utf8::encode_utf8(a).len(),
                        vstd::utf8::encode_utf8(b).len(),
                    );
                    ||| a.contains('/') && !b.contains('/')
                    ||| a.contains('/') == b.contains('/') && (x > y || x == y && p < k)
                }
        },
{
    let view = filter_of(rules);
    let (ih, eh) = (hits(view.includes, rel), hits(view.excludes, rel));
    own_filter_is_possible(rules);
    loaded_filter_is_well_placed(rules, view);
    lemma_in_force_complete(rules, false);
    most_specific_sets_priority(view, ih, eh);
    if let Some(p) = path_priority(view, rel) {
        let i = choose|i: int|
            #![trigger view.includes[i]]
            0 <= i < view.includes.len() && ih[i] && view.includes[i].position == p && forall|
                k: int,
            |
                #![trigger view.includes[k]]
                0 <= k < view.includes.len() && ih[k] && k != i ==> {
                    ||| more_specific(view.includes[i].pattern, view.includes[k].pattern)
                    ||| !more_specific(view.includes[k].pattern, view.includes[i].pattern) && p
                        < view.includes[k].position
                };
        assert(view.includes[i] == rule_at(rules[p], p));
        assert forall|k: int|
            #![trigger rules[k]]
            0 <= k < rules.len() && k != p && !rules[k].negated && rule_matches(
                rule_at(rules[k], k),
                rel,
            ) implies {
            let (a, b) = (rules[p].pattern, rules[k].pattern);
            let (x, y) = (vstd::utf8::encode_utf8(a).len(), vstd::utf8::encode_utf8(b).len());
            ||| a.contains('/') && !b.contains('/')
            ||| a.contains('/') == b.contains('/') && (x > y || x == y && p < k)
        } by {
            lemma_matching_rule_compiles(rules[k], k, rel);
            assert(view.includes.contains(rule_at(rules[k], k)));
            let l = choose|l: int|
                0 <= l < view.includes.len() && view.includes[l] == rule_at(rules[k], k);
            assert(ih[l]);
            assert(view.includes[l].position == k);
        }
    }
}

/// A rule whose pattern has a slash at its end matches what is under it: behind
/// a directory that the rest of the pattern, without one leading slash, matches.
pub proof fn directory_rule_matches_what_is_under_it(line: RuleLine, i: int, rel: Seq<char>)
    requires
        text::trim(line.pattern).len() > 0,
        text::trim(line.pattern).last() == '/',
    ensures
        ({
            let p = text::trim(line.pattern);
            let dir = if p.len() > 1 && p[0] == '/' {
                p.subrange(1, p.len() - 1)
            } else {
                p.subrange(0, p.len() - 1)
            };
            let glob = dir + "/**"@;
            &&& matching::simple(p) ==> (rule_matches(rule_at(line, i), rel) <==> exists|
                d: Seq<char>,
                rest: Seq<char>,
            |
                matching::simple_matches(dir, d) && rel == #[trigger] (d + seq!['/'] + rest))
            &&& !matching::simple(p) ==> (rule_matches(rule_at(line, i), rel)
                <==> matching::glob_is_valid(glob) && matching::glob_matches(glob, rel))
        }),
{
    let p = text::trim(line.pattern);
    let dir = if p.len() > 1 && p[0] == '/' {
        p.subrange(1, p.len() - 1)
    } else {
        p.subrange(0, p.len() - 1)
    };
    pattern::directory_pattern_has_one_glob(line.pattern);
    text::lemma_trim_empty_iff_blank(line.pattern);
    matching::under_means_behind_a_slash(rel, dir);
    if matching::simple(p) {
        let d = p.drop_last();
        if p.len() > 1 {
            assert(d[0] == p[0]);
            assert(d.drop_first() =~= p.subrange(1, p.len() - 1));
        }
        assert(d =~= p.subrange(0, p.len() - 1));
        assert(pattern::after_slash(d) == dir);
    } else {
        lemma_rule_of_globs(line, i, rel);
        let all = pattern::glob_texts(line.pattern);
        assert(all[0] == dir + "/**"@);
    }
}

proof fn lemma_rule_of_globs(line: RuleLine, i: int, rel: Seq<char>)
    requires
        !is_simple(line.pattern),
    ensures
        ({
            let all = pattern::glob_texts(line.pattern);
            rule_matches(rule_at(line, i), rel) <==> exists|k: int|
                0 <= k < all.len() && matching::glob_is_valid(#[trigger] all[k])
                    && matching::glob_matches(all[k], rel)
        }),
{
    let all = pattern::glob_texts(line.pattern);
    let valid = |g: Seq<char>| matching::glob_is_valid(g);
    let kept = all.filter(valid);
    assert(compiled(line.pattern) == kept);
    if rule_matches(rule_at(line, i), rel) {
        let k = choose|k: int|
            0 <= k < kept.len() && matching::glob_matches(#[trigger] kept[k], rel);
        all.lemma_filter_contains_rev(valid, kept[k]);
        all.lemma_filter_pred(valid, k);
        let l = choose|l: int| 0 <= l < all.len() && all[l] == kept[k];
        assert(matching::glob_is_valid(all[l]));
    }
    if exists|k: int|
        0 <= k < all.len() && matching::glob_is_valid(#[trigger] all[k]) && matching::glob_matches(
            all[k],
            rel,
        ) {
        let k = choose|k: int|
            0 <= k < all.len() && matching::glob_is_valid(#[trigger] all[k])
                && matching::glob_matches(all[k], rel);
        lemma_filter_holds_kept(all, k, valid);
        let l = choose|l: int| 0 <= l < kept.len() && kept[l] == all[k];
        assert(matching::glob_matches(rule_at(line, i).globs[l], rel));
    }
}

/// A rule whose pattern has a slash, but none at its end, matches what the
/// pattern itself, without one leading slash, matches as a glob, special
/// characters or not, and what is under that, and nothing else.
pub proof fn anchored_rule_matches_its_own_glob(line: RuleLine, i: int, rel: Seq<char>)
    requires
        text::trim(line.pattern).contains('/'),
        text::trim(line.pattern).last() != '/',
    ensures
        ({
            let p = text::trim(line.pattern);
            let path = if p[0] == '/' {
                p.subrange(1, p.len() as int)
            } else {
                p
            };
            let below = path + "/**"@;
            &&& matching::simple(p) ==> (rule_matches(rule_at(line, i), rel)
                <==> matching::simple_matches(path, rel) || exists|d: Seq<char>, rest: Seq<char>|
                matching::simple_matches(path, d) && rel == #[trigger] (d + seq!['/'] + rest))
            &&& !matching::simple(p) ==> (rule_matches(rule_at(line, i), rel) <==> {
                ||| matching::glob_is_valid(path) && matching::glob_matches(path, rel)
                ||| matching::glob_is_valid(below) && matching::glob_matches(below, rel)
            })
        }),
{
    let p = text::trim(line.pattern);
    let path = if p[0] == '/' {
        p.subrange(1, p.len() as int)
    } else {
        p
    };
    pattern::anchored_pattern_stands_for_itself(line.pattern);
    text::lemma_trim_empty_iff_blank(line.pattern);
    matching::under_means_behind_a_slash(rel, path);
    if matching::simple(p) {
        assert(p.drop_first() =~= p.subrange(1, p.len() as int));
    } else {
        lemma_rule_of_globs(line, i, rel);
        let all = pattern::glob_texts(line.pattern);
        assert(all[0] == path && all[1] == path + "/**"@);
    }
}

/// A rule whose pattern has no slash matches at any depth: with one star at most,
/// the paths with a component that the pattern matches, and else those that its
/// globs with `**/` in front match.
pub proof fn slashless_rule_matches_at_any_depth(line: RuleLine, i: int, rel: Seq<char>)
    requires
        text::trim(line.pattern).len() > 0,
        !text::trim(line.pattern).contains('/'),
    ensures
        ({
            let p = text::trim(line.pattern);
            let deep = "**/"@ + p;
            let below = deep + "/**"@;
            &&& matching::simple(p) ==> (rule_matches(rule_at(line, i), rel) <==> exists|
                s: int,
                e: int,
            |
                #![trigger rel.subrange(s, e)]
                {
                    &&& 0 <= s <= e <= rel.len()
                    &&& s == 0 || rel[s - 1] == '/'
                    &&& e == rel.len() || rel[e] == '/'
                    &&& !rel.subrange(s, e).contains('/')
                    &&& matching::simple_matches(p, rel.subrange(s, e))
                })
            &&& !matching::simple(p) ==> (rule_matches(rule_at(line, i), rel) <==> {
                ||| matching::glob_is_valid(deep) && matching::glob_matches(deep, rel)
                ||| matching::glob_is_valid(below) && matching::glob_matches(below, rel)
            })
        }),
{
    let p = text::trim(line.pattern);
    pattern::slashless_pattern_stands_for_any_depth(line.pattern);
    text::lemma_trim_empty_iff_blank(line.pattern);
    if matching::simple(p) {
        slashless_pattern_matches_components(line.pattern, rel);
        if rule_matches(rule_at(line, i), rel) {
            let (s, e) = choose|s: int, e: int| #[trigger]
                is_component(rel, s, e) && matching::simple_matches(p, rel.subrange(s, e));
            assert(matching::simple_matches(p, rel.subrange(s, e)));
        }
        if exists|s: int, e: int|
            #![trigger rel.subrange(s, e)]
            {
                &&& 0 <= s <= e <= rel.len()
                &&& s == 0 || rel[s - 1] == '/'
                &&& e == rel.len() || rel[e] == '/'
                &&& !rel.subrange(s, e).contains('/')
                &&& matching::simple_matches(p, rel.subrange(s, e))
            } {
            let (s, e) = choose|s: int, e: int|
                #![trigger rel.subrange(s, e)]
                {
                    &&& 0 <= s <= e <= rel.len()
                    &&& s == 0 || rel[s - 1] == '/'
                    &&& e == rel.len() || rel[e] == '/'
                    &&& !rel.subrange(s, e).contains('/')
                    &&& matching::simple_matches(p, rel.subrange(s, e))
                };
            assert(is_component(rel, s, e));
        }
    } else {
        lemma_rule_of_globs(line, i, rel);
        let all = pattern::glob_texts(line.pattern);
        assert(all[0] == "**/"@ + p && all[1] == "**/"@ + p + "/**"@);
    }
}

} // verus!
