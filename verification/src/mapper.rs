//! The ownership resolver: an ordered rule list read from a document, and the
//! queries that it answers.

use vstd::prelude::*;
use globset::{GlobSet, GlobSetBuilder};
use crate::glob::{
    builder_add, builder_globs, compile_glob, glob_compiles, glob_matches, is_portable,
    set_builds, set_globs, set_matches,
};
use crate::pattern::{lemma_empty_iff_blank, lemma_no_backslash, normalize_pattern, normalize_spec};
use crate::text::{
    CharClass, chars_of, find_space, index_where, lemma_index_where_found, lemma_trim_shape,
    lines_spec, next_line, string_of, trim_bounds, trim_spec,
};

verus! {

/// One rule of a document: the pattern as it was written, and the owner.
pub struct Rule {
    pub raw: Seq<char>,
    pub owner: Seq<char>,
}

/// What one line of a rule document holds.
pub enum Line {
    /// A blank line or a comment.
    Skip,
    /// A line with a pattern and no owner.
    Malformed { content: Seq<char> },
    /// A rule.
    Entry { rule: Rule },
}

/// Reads one line: trims it, skips blanks and `#` comments, and splits the
/// rest at its first white-space character into pattern and trimmed owner.
pub open spec fn read_line(line: Seq<char>) -> Line {
    let t = trim_spec(line);
    let k = index_where(t, CharClass::Space) as int;
    if t.len() == 0 || t[0] == '#' {
        Line::Skip
    } else if k >= t.len() {
        Line::Malformed { content: t }
    } else {
        Line::Entry {
            rule: Rule { raw: t.subrange(0, k), owner: trim_spec(t.subrange(k + 1, t.len() as int)) },
        }
    }
}

/// What one line of a rule document holds, as owned text.
#[derive(Debug)]
pub enum LineEntry {
    /// A blank line or a comment.
    Skip,
    /// A line with a pattern and no owner; `content` is the trimmed line.
    Malformed { content: String },
    /// A rule: the pattern as written, and the owner.
    Entry { raw: String, owner: String },
}

impl View for LineEntry {
    type V = Line;

    open spec fn view(&self) -> Line {
        match *self {
            LineEntry::Skip => Line::Skip,
            LineEntry::Malformed { content } => Line::Malformed { content: content@ },
            LineEntry::Entry { raw, owner } => Line::Entry {
                rule: Rule { raw: raw@, owner: owner@ },
            },
        }
    }
}

/// Reads the line `doc[from..to]`.
pub fn read_line_at(doc: &Vec<char>, from: usize, to: usize) -> (res: LineEntry)
    requires
        from <= to <= doc@.len(),
    ensures
        res@ == read_line(doc@.subrange(from as int, to as int)),
{
    let (lo, hi) = trim_bounds(doc, from, to);
    let ghost t = doc@.subrange(lo as int, hi as int);
    if lo == hi || doc[lo] == '#' {
        return LineEntry::Skip;
    }
    let k = find_space(doc, lo, hi);
    if k == hi {
        return LineEntry::Malformed { content: string_of(doc, lo, hi) };
    }
    let raw = string_of(doc, lo, k);
    let (olo, ohi) = trim_bounds(doc, k + 1, hi);
    let owner = string_of(doc, olo, ohi);
    proof {
        assert(t.subrange(0, k - lo) =~= doc@.subrange(lo as int, k as int));
        assert(t.subrange(k - lo + 1, t.len() as int) =~= doc@.subrange(k + 1, hi as int));
    }
    LineEntry::Entry { raw, owner }
}

/// Reads one line of a rule document.
pub fn parse_line(line: &str) -> (res: LineEntry)
    ensures
        res@ == read_line(line@),
{
    let doc = chars_of(line);
    assert(doc@.subrange(0, doc@.len() as int) =~= doc@);
    read_line_at(&doc, 0, doc.len())
}

/// The pattern of a rule line is never blank, so its canonical form is never
/// empty.
pub proof fn lemma_entry_has_pattern(line: Seq<char>)
    ensures
        read_line(line) is Entry ==> normalize_spec(read_line(line)->rule.raw).len() > 0,
{
    if read_line(line) is Entry {
        let t = trim_spec(line);
        let raw = read_line(line)->rule.raw;
        lemma_trim_shape(line);
        lemma_index_where_found(t, CharClass::Space);
        let k = index_where(t, CharClass::Space) as int;
        assert(k > 0);
        assert(raw[0] == t[0]);
        assert(raw.last() == t[k - 1]);
        assert(trim_spec(raw) == raw);
        lemma_empty_iff_blank(raw);
    }
}

/// Why a document gives no rule set.
pub enum ParseFault {
    MissingOwner { line: int, content: Seq<char> },
    EmptyPattern { line: int, pattern: Seq<char> },
    PatternCompile { line: int, pattern: Seq<char> },
    MatcherBuild,
}

/// Why a document gives no rule set. Line numbers start at 1.
#[derive(Debug)]
pub enum ParseError {
    /// The line holds a pattern and no owner; `content` is the trimmed line.
    MissingOwner { line: usize, content: String },
    /// The pattern of the line has an empty canonical form. The check is
    /// made before a pattern is compiled; a pattern cut from a line is never
    /// blank, so no document fails it.
    EmptyPattern { line: usize, pattern: String },
    /// The canonical form of `pattern`, the pattern as written, is no valid glob.
    PatternCompile { line: usize, pattern: String },
    /// Every line is in order and the engine still built no matcher.
    MatcherBuild,
}

impl View for ParseError {
    type V = ParseFault;

    open spec fn view(&self) -> ParseFault {
        match *self {
            ParseError::MissingOwner { line, content } => ParseFault::MissingOwner {
                line: line as int,
                content: content@,
            },
            ParseError::EmptyPattern { line, pattern } => ParseFault::EmptyPattern {
                line: line as int,
                pattern: pattern@,
            },
            ParseError::PatternCompile { line, pattern } => ParseFault::PatternCompile {
                line: line as int,
                pattern: pattern@,
            },
            ParseError::MatcherBuild => ParseFault::MatcherBuild,
        }
    }
}

/// The canonical globs of a rule list, in order.
pub open spec fn canonical_globs(rules: Seq<Rule>) -> Seq<Seq<char>> {
    Seq::new(rules.len(), |i: int| normalize_spec(rules[i].raw))
}

/// The rules of the first `n` lines, or the fault of the first line that has one.
pub open spec fn rules_upto(lines: Seq<Seq<char>>, n: int) -> Result<Seq<Rule>, ParseFault>
    decreases n,
{
    if n <= 0 {
        Ok(Seq::<Rule>::empty())
    } else {
        match rules_upto(lines, n - 1) {
            Err(fault) => Err(fault),
            Ok(rules) => match read_line(lines[n - 1]) {
                Line::Skip => Ok(rules),
                Line::Malformed { content } => Err(ParseFault::MissingOwner { line: n, content }),
                Line::Entry { rule } => if normalize_spec(rule.raw).len() == 0 {
                    Err(ParseFault::EmptyPattern { line: n, pattern: rule.raw })
                } else if !glob_compiles(normalize_spec(rule.raw)) {
                    Err(ParseFault::PatternCompile { line: n, pattern: rule.raw })
                } else {
                    Ok(rules.push(rule))
                },
            },
        }
    }
}

/// The rule list of a document, in declaration order, or its first fault.
pub open spec fn parse_spec(doc: Seq<char>) -> Result<Seq<Rule>, ParseFault> {
    match rules_upto(lines_spec(doc), lines_spec(doc).len() as int) {
        Err(fault) => Err(fault),
        Ok(rules) => if set_builds(canonical_globs(rules)) {
            Ok(rules)
        } else {
            Err(ParseFault::MatcherBuild)
        },
    }
}

/// Whether the canonical glob of `rule` matches `path`.
pub open spec fn rule_matches(rule: Rule, path: Seq<char>) -> bool {
    glob_matches(normalize_spec(rule.raw), path)
}

/// The rules among the first `n` that match `path`, in declaration order.
pub open spec fn explain_upto(rules: Seq<Rule>, path: Seq<char>, n: int) -> Seq<Rule>
    decreases n,
{
    if n <= 0 {
        Seq::<Rule>::empty()
    } else if rule_matches(rules[n - 1], path) {
        explain_upto(rules, path, n - 1).push(rules[n - 1])
    } else {
        explain_upto(rules, path, n - 1)
    }
}

/// Every rule that matches `path`, in declaration order.
pub open spec fn explain_spec(rules: Seq<Rule>, path: Seq<char>) -> Seq<Rule> {
    explain_upto(rules, path, rules.len() as int)
}

/// The highest index below `n` of a rule that matches `path`.
pub open spec fn winner_upto(rules: Seq<Rule>, path: Seq<char>, n: int) -> Option<int>
    decreases n,
{
    if n <= 0 {
        None
    } else if rule_matches(rules[n - 1], path) {
        Some(n - 1)
    } else {
        winner_upto(rules, path, n - 1)
    }
}

/// The owner of the last rule that matches `path`.
pub open spec fn resolve_spec(rules: Seq<Rule>, path: Seq<char>) -> Option<Seq<char>> {
    match winner_upto(rules, path, rules.len() as int) {
        Some(i) => Some(rules[i].owner),
        None => None,
    }
}

/// A match explanation: a rule that matches the queried path.
#[derive(Debug)]
pub struct ExplainMatch<'a> {
    pub service: &'a str,
    pub pattern: String,
}

/// The rules that a list of explanations names.
pub open spec fn explained(matches: Seq<ExplainMatch>) -> Seq<Rule> {
    Seq::new(matches.len(), |i: int| Rule { raw: matches[i].pattern@, owner: matches[i].service@ })
}

/// The rules that a pattern list and an owner list of one length hold.
pub open spec fn rule_list(patterns: Seq<String>, owners: Seq<String>) -> Seq<Rule> {
    Seq::new(patterns.len(), |i: int| Rule { raw: patterns[i]@, owner: owners[i]@ })
}

/// Core mapper that resolves paths to services.
pub struct ServiceMapper {
    glob_set: GlobSet,
    /// Maps glob index to service name.
    service_names: Vec<String>,
    /// Maps glob index to the pattern as written.
    pub patterns: Vec<String>,
}

impl View for ServiceMapper {
    type V = Seq<Rule>;

    closed spec fn view(&self) -> Seq<Rule> {
        rule_list(self.patterns@, self.service_names@)
    }
}

/// Once a line has a fault, the document has that fault.
pub proof fn lemma_fault_stays(lines: Seq<Seq<char>>, n: int, m: int)
    requires
        0 <= n <= m,
        rules_upto(lines, n) is Err,
    ensures
        rules_upto(lines, m) == rules_upto(lines, n),
    decreases m - n,
{
    if n < m {
        lemma_fault_stays(lines, n, m - 1);
    }
}

/// Rules that match nothing between `a` and `b` add nothing to an explanation.
pub proof fn lemma_explain_gap(rules: Seq<Rule>, path: Seq<char>, a: int, b: int)
    requires
        0 <= a <= b <= rules.len(),
        forall|i: int| a <= i < b ==> !rule_matches(#[trigger] rules[i], path),
    ensures
        explain_upto(rules, path, b) == explain_upto(rules, path, a),
        winner_upto(rules, path, b) == winner_upto(rules, path, a),
    decreases b - a,
{
    if a < b {
        assert(!rule_matches(rules[b - 1], path));
        lemma_explain_gap(rules, path, a, b - 1);
    }
}

/// The rules at the given indices, in the order of the indices.
pub open spec fn picked(rules: Seq<Rule>, hits: Seq<usize>) -> Seq<Rule> {
    Seq::new(hits.len(), |k: int| rules[hits[k] as int])
}

/// Whether `hits` lists, in ascending order and without repeats, the indices
/// of exactly the rules that match `path`.
pub open spec fn lists_matches(hits: Seq<usize>, rules: Seq<Rule>, path: Seq<char>) -> bool {
    &&& forall|k: int|
        0 <= k < hits.len() ==> (#[trigger] hits[k]) < rules.len() && rule_matches(
            rules[hits[k] as int],
            path,
        )
    &&& forall|a: int, b: int| 0 <= a < b < hits.len() ==> hits[a] < hits[b]
    &&& forall|i: int|
        0 <= i < rules.len() && rule_matches(#[trigger] rules[i], path) ==> exists|k: int|
            0 <= k < hits.len() && hits[k] == i
}

/// The rules at the first `k` listed indices are the explanation up to the
/// rule behind the last of them.
pub proof fn lemma_listed_prefix(hits: Seq<usize>, rules: Seq<Rule>, path: Seq<char>, k: int)
    requires
        lists_matches(hits, rules, path),
        0 <= k <= hits.len(),
    ensures
        picked(rules, hits.subrange(0, k)) == explain_upto(
            rules,
            path,
            if k == 0 {
                0
            } else {
                hits[k - 1] + 1
            },
        ),
    decreases k,
{
    if k == 0 {
        assert(picked(rules, hits.subrange(0, 0)) =~= Seq::<Rule>::empty());
    } else {
        lemma_listed_prefix(hits, rules, path, k - 1);
        let lo: int = if k == 1 {
            0
        } else {
            hits[k - 2] + 1
        };
        let idx = hits[k - 1] as int;
        if k > 1 {
            assert(hits[k - 2] < hits[k - 1]);
        }
        assert forall|i: int| lo <= i < idx implies !rule_matches(#[trigger] rules[i], path) by {
            if rule_matches(rules[i], path) {
                let j = choose|j: int| 0 <= j < hits.len() && hits[j] == i;
                if j < k - 1 {
                    if j < k - 2 {
                        assert(hits[j] < hits[k - 2]);
                    }
                } else if j > k - 1 {
                    assert(hits[k - 1] < hits[j]);
                }
            }
        }
        lemma_explain_gap(rules, path, lo, idx);
        assert(rule_matches(rules[hits[k - 1] as int], path));
        assert(picked(rules, hits.subrange(0, k)) =~= picked(rules, hits.subrange(0, k - 1)).push(
            rules[idx],
        ));
    }
}

/// The rules at the listed indices are the explanation of the path.
pub proof fn lemma_listed_is_explanation(hits: Seq<usize>, rules: Seq<Rule>, path: Seq<char>)
    requires
        lists_matches(hits, rules, path),
    ensures
        picked(rules, hits) == explain_spec(rules, path),
{
    let n = hits.len() as int;
    lemma_listed_prefix(hits, rules, path, n);
    assert(hits.subrange(0, n) =~= hits);
    let bound: int = if n == 0 {
        0
    } else {
        hits[n - 1] + 1
    };
    assert forall|i: int| bound <= i < rules.len() implies !rule_matches(
        #[trigger] rules[i],
        path,
    ) by {
        if rule_matches(rules[i], path) {
            let j = choose|j: int| 0 <= j < hits.len() && hits[j] == i;
            if j < n - 1 {
                assert(hits[j] < hits[n - 1]);
            }
        }
    }
    lemma_explain_gap(rules, path, bound, rules.len() as int);
}

/// Whether `top` is the greatest element of `hits`, or nothing where `hits`
/// is empty.
pub open spec fn is_highest(hits: Seq<usize>, top: Option<usize>) -> bool {
    match top {
        Some(m) => (exists|k: int| 0 <= k < hits.len() && hits[k] == m) && forall|k: int|
            0 <= k < hits.len() ==> #[trigger] hits[k] <= m,
        None => hits.len() == 0,
    }
}

/// The greatest of the listed indices is the winner.
pub proof fn lemma_highest_is_winner(
    hits: Seq<usize>,
    rules: Seq<Rule>,
    path: Seq<char>,
    top: Option<usize>,
)
    requires
        lists_matches(hits, rules, path),
        is_highest(hits, top),
    ensures
        winner_upto(rules, path, rules.len() as int) == match top {
            Some(i) => Some(i as int),
            None => None,
        },
{
    match top {
        Some(idx) => {
            let k = choose|k: int| 0 <= k < hits.len() && hits[k] == idx;
            assert(rule_matches(rules[hits[k] as int], path));
            assert forall|i: int| idx < i < rules.len() implies !rule_matches(
                #[trigger] rules[i],
                path,
            ) by {
                if rule_matches(rules[i], path) {
                    let j = choose|j: int| 0 <= j < hits.len() && hits[j] == i;
                    assert(hits[j] <= idx);
                }
            }
            lemma_explain_gap(rules, path, idx + 1, rules.len() as int);
        },
        None => {
            assert forall|i: int| 0 <= i < rules.len() implies !rule_matches(
                #[trigger] rules[i],
                path,
            ) by {
                if rule_matches(rules[i], path) {
                    let j = choose|j: int| 0 <= j < hits.len() && hits[j] == i;
                }
            }
            lemma_explain_gap(rules, path, 0, rules.len() as int);
        },
    }
}

/// The greatest of the given indices.
pub fn highest(hits: &Vec<usize>) -> (top: Option<usize>)
    ensures
        is_highest(hits@, top),
{
    if hits.len() == 0 {
        return None;
    }
    let mut best: usize = hits[0];
    let mut k: usize = 1;
    while k < hits.len()
        invariant
            1 <= k <= hits@.len(),
            exists|j: int| 0 <= j < k && hits@[j] == best,
            forall|j: int| 0 <= j < k ==> #[trigger] hits@[j] <= best,
        decreases hits@.len() - k,
    {
        if hits[k] > best {
            best = hits[k];
        }
        k += 1;
    }
    Some(best)
}

/// Last match wins: the winner matches, and no rule after it does; there is
/// no winner exactly when no rule matches.
pub proof fn lemma_winner_is_last_match(rules: Seq<Rule>, path: Seq<char>, n: int)
    requires
        0 <= n <= rules.len(),
    ensures
        match winner_upto(rules, path, n) {
            Some(i) => 0 <= i < n && rule_matches(rules[i], path) && forall|j: int|
                i < j < n ==> !rule_matches(#[trigger] rules[j], path),
            None => forall|j: int| 0 <= j < n ==> !rule_matches(#[trigger] rules[j], path),
        },
    decreases n,
{
    if n > 0 {
        lemma_winner_is_last_match(rules, path, n - 1);
    }
}

/// Among the first `n` rules, the explanation is empty exactly when there is
/// no winner, and otherwise its last element is the winning rule.
pub proof fn lemma_explain_ends_with_winner(rules: Seq<Rule>, path: Seq<char>, n: int)
    requires
        0 <= n <= rules.len(),
    ensures
        match winner_upto(rules, path, n) {
            Some(i) => explain_upto(rules, path, n).len() > 0 && explain_upto(
                rules,
                path,
                n,
            ).last() == rules[i],
            None => explain_upto(rules, path, n).len() == 0,
        },
    decreases n,
{
    if n > 0 {
        lemma_explain_ends_with_winner(rules, path, n - 1);
    }
}

/// Resolution and explanation agree: for every rule list and path, the
/// explanation is empty exactly when the path is unmapped, and otherwise the
/// owner of its last element is the owner that resolution gives.
pub proof fn lemma_resolve_agrees_with_explain(rules: Seq<Rule>, path: Seq<char>)
    ensures
        explain_spec(rules, path).len() == 0 <==> resolve_spec(rules, path) is None,
        explain_spec(rules, path).len() > 0 ==> resolve_spec(rules, path) == Some(
            explain_spec(rules, path).last().owner,
        ),
{
    lemma_explain_ends_with_winner(rules, path, rules.len() as int);
}

/// An explanation names a raw pattern exactly when a rule with that pattern
/// matches the path.
pub proof fn lemma_explain_names(rules: Seq<Rule>, path: Seq<char>, n: int, raw: Seq<char>)
    requires
        0 <= n <= rules.len(),
    ensures
        names_pattern(explain_upto(rules, path, n), raw) <==> exists|j: int|
            0 <= j < n && (#[trigger] rules[j]).raw == raw && rule_matches(rules[j], path),
    decreases n,
{
    if n > 0 {
        lemma_explain_names(rules, path, n - 1, raw);
        let prev = explain_upto(rules, path, n - 1);
        let cur = explain_upto(rules, path, n);
        if rule_matches(rules[n - 1], path) {
            assert(cur == prev.push(rules[n - 1]));
            if names_pattern(cur, raw) {
                let k = choose|k: int| 0 <= k < cur.len() && (#[trigger] cur[k]).raw == raw;
                if k < prev.len() {
                    assert(prev[k].raw == raw);
                    assert(names_pattern(prev, raw));
                } else {
                    assert(rules[n - 1].raw == raw);
                }
            }
            if exists|j: int|
                0 <= j < n && (#[trigger] rules[j]).raw == raw && rule_matches(rules[j], path) {
                let j = choose|j: int|
                    0 <= j < n && (#[trigger] rules[j]).raw == raw && rule_matches(rules[j], path);
                if j < n - 1 {
                    assert(names_pattern(prev, raw));
                    let k = choose|k: int| 0 <= k < prev.len() && (#[trigger] prev[k]).raw == raw;
                    assert(cur[k].raw == raw);
                } else {
                    assert(cur[cur.len() - 1].raw == raw);
                }
            }
        }
    }
}

/// Whether some element of an explanation carries the raw pattern `raw`.
pub open spec fn names_pattern(matches: Seq<Rule>, raw: Seq<char>) -> bool {
    exists|k: int| 0 <= k < matches.len() && (#[trigger] matches[k]).raw == raw
}

/// Whether the rule at `i` matches some path of the corpus.
pub open spec fn is_used(rules: Seq<Rule>, corpus: Seq<Seq<char>>, i: int) -> bool {
    exists|p: int| 0 <= p < corpus.len() && rule_matches(rules[i], #[trigger] corpus[p])
}

/// The raw patterns, among the first `n` rules, that match no path of the
/// corpus, in declaration order.
pub open spec fn unused_upto(rules: Seq<Rule>, corpus: Seq<Seq<char>>, n: int) -> Seq<Seq<char>>
    decreases n,
{
    if n <= 0 {
        Seq::<Seq<char>>::empty()
    } else if is_used(rules, corpus, n - 1) {
        unused_upto(rules, corpus, n - 1)
    } else {
        unused_upto(rules, corpus, n - 1).push(rules[n - 1].raw)
    }
}

/// The raw patterns that match no path of the corpus, in declaration order.
pub open spec fn unused_spec(rules: Seq<Rule>, corpus: Seq<Seq<char>>) -> Seq<Seq<char>> {
    unused_upto(rules, corpus, rules.len() as int)
}

/// The report holds the raw patterns of the unused rules, and nothing else.
pub proof fn lemma_unused_holds(rules: Seq<Rule>, corpus: Seq<Seq<char>>, n: int, raw: Seq<char>)
    requires
        0 <= n <= rules.len(),
    ensures
        unused_upto(rules, corpus, n).contains(raw) <==> exists|i: int|
            0 <= i < n && (#[trigger] rules[i]).raw == raw && !is_used(rules, corpus, i),
    decreases n,
{
    if n > 0 {
        lemma_unused_holds(rules, corpus, n - 1, raw);
        let prev = unused_upto(rules, corpus, n - 1);
        let cur = unused_upto(rules, corpus, n);
        if !is_used(rules, corpus, n - 1) {
            assert(cur == prev.push(rules[n - 1].raw));
            if cur.contains(raw) {
                let k = choose|k: int| 0 <= k < cur.len() && cur[k] == raw;
                if k < prev.len() {
                    assert(prev[k] == raw);
                    assert(prev.contains(raw));
                } else {
                    assert(rules[n - 1].raw == raw);
                }
            }
            if exists|i: int|
                0 <= i < n && (#[trigger] rules[i]).raw == raw && !is_used(rules, corpus, i) {
                let i = choose|i: int|
                    0 <= i < n && (#[trigger] rules[i]).raw == raw && !is_used(rules, corpus, i);
                if i < n - 1 {
                    assert(prev.contains(raw));
                    let k = choose|k: int| 0 <= k < prev.len() && prev[k] == raw;
                    assert(cur[k] == raw);
                } else {
                    assert(cur[cur.len() - 1] == raw);
                }
            }
        }
    }
}

/// A raw pattern is reported as unused exactly when it is a pattern of the
/// rule list and no explanation of a path of the corpus names it.
pub proof fn lemma_unused_complete(rules: Seq<Rule>, corpus: Seq<Seq<char>>, raw: Seq<char>)
    ensures
        unused_spec(rules, corpus).contains(raw) <==> (exists|i: int|
            0 <= i < rules.len() && (#[trigger] rules[i]).raw == raw) && forall|p: int|
            0 <= p < corpus.len() ==> !names_pattern(
                explain_spec(rules, #[trigger] corpus[p]),
                raw,
            ),
{
    let n = rules.len() as int;
    lemma_unused_holds(rules, corpus, n, raw);
    assert forall|p: int| 0 <= p < corpus.len() implies (names_pattern(
        explain_spec(rules, #[trigger] corpus[p]),
        raw,
    ) <==> exists|j: int|
        0 <= j < n && (#[trigger] rules[j]).raw == raw && rule_matches(rules[j], corpus[p])) by {
        lemma_explain_names(rules, corpus[p], n, raw);
    }
    if unused_spec(rules, corpus).contains(raw) {
        let i = choose|i: int|
            0 <= i < n && (#[trigger] rules[i]).raw == raw && !is_used(rules, corpus, i);
        assert forall|p: int| 0 <= p < corpus.len() implies !names_pattern(
            explain_spec(rules, #[trigger] corpus[p]),
            raw,
        ) by {
            if names_pattern(explain_spec(rules, corpus[p]), raw) {
                let j = choose|j: int|
                    0 <= j < n && (#[trigger] rules[j]).raw == raw && rule_matches(
                        rules[j],
                        corpus[p],
                    );
                assert(rule_matches(rules[i], corpus[p]));
                assert(is_used(rules, corpus, i));
            }
        }
    }
    if (exists|i: int| 0 <= i < rules.len() && (#[trigger] rules[i]).raw == raw) && forall|p: int|
        0 <= p < corpus.len() ==> !names_pattern(explain_spec(rules, #[trigger] corpus[p]), raw) {
        let i = choose|i: int| 0 <= i < rules.len() && (#[trigger] rules[i]).raw == raw;
        if is_used(rules, corpus, i) {
            let p = choose|p: int|
                0 <= p < corpus.len() && rule_matches(rules[i], #[trigger] corpus[p]);
            assert(!names_pattern(explain_spec(rules, corpus[p]), raw));
            assert(false);
        }
    }
}

/// The texts of a list of strings.
pub open spec fn texts(strings: Seq<String>) -> Seq<Seq<char>> {
    Seq::new(strings.len(), |i: int| strings[i]@)
}

/// Whether every path of the corpus is portable.
pub open spec fn all_portable(corpus: Seq<Seq<char>>) -> bool {
    forall|p: int| 0 <= p < corpus.len() ==> is_portable(#[trigger] corpus[p])
}

impl ServiceMapper {
    /// The matcher holds the canonical glob of each rule, under the rule's index.
    pub closed spec fn wf(&self) -> bool {
        &&& self.service_names@.len() == self.patterns@.len()
        &&& set_globs(self.glob_set) == canonical_globs(self@)
    }

    /// Builds the rule set of a document, or reports the first fault.
    pub fn parse(content: &str) -> (res: Result<ServiceMapper, ParseError>)
        ensures
            match parse_spec(content@) {
                Ok(rules) => res is Ok && res->Ok_0.wf() && res->Ok_0@ == rules,
                Err(fault) => res is Err && res->Err_0@ == fault,
            },
    {
        let doc = chars_of(content);
        let len: usize = doc.len();
        let ghost lines = lines_spec(doc@);
        let mut builder = GlobSetBuilder::new();
        let mut service_names: Vec<String> = Vec::new();
        let mut patterns: Vec<String> = Vec::new();
        let mut pos: usize = 0;
        let mut line_no: usize = 0;
        assert(doc@.subrange(0, len as int) =~= doc@);
        assert(lines.subrange(0, lines.len() as int) =~= lines);
        assert(canonical_globs(rule_list(patterns@, service_names@)) =~= Seq::<Seq<char>>::empty());
        assert(rule_list(patterns@, service_names@) =~= Seq::<Rule>::empty());
        while pos < len
            invariant
                len == doc@.len(),
                doc@ == content@,
                lines == lines_spec(doc@),
                pos <= len,
                line_no <= pos,
                line_no <= lines.len(),
                lines.subrange(line_no as int, lines.len() as int) == lines_spec(
                    doc@.subrange(pos as int, len as int),
                ),
                service_names@.len() == patterns@.len(),
                rules_upto(lines, line_no as int) == Ok::<Seq<Rule>, ParseFault>(
                    rule_list(patterns@, service_names@),
                ),
                builder_globs(builder) == canonical_globs(rule_list(patterns@, service_names@)),
            decreases len - pos,
        {
            let ghost tail = lines.subrange(line_no as int, lines.len() as int);
            let ghost rules = rule_list(patterns@, service_names@);
            let (end, next) = next_line(&doc, pos);
            let ghost line = doc@.subrange(pos as int, end as int);
            proof {
                assert(tail.len() > 0);
                assert(tail[0] == line);
                assert(lines[line_no as int] == tail[0]);
                assert(lines.subrange(line_no + 1, lines.len() as int) =~= tail.subrange(
                    1,
                    tail.len() as int,
                ));
                assert(tail.subrange(1, tail.len() as int) =~= lines_spec(
                    doc@.subrange(next as int, len as int),
                ));
            }
            let entry = read_line_at(&doc, pos, end);
            line_no += 1;
            pos = next;
            match entry {
                LineEntry::Skip => {},
                LineEntry::Malformed { content } => {
                    proof {
                        lemma_fault_stays(lines, line_no as int, lines.len() as int);
                    }
                    return Err(ParseError::MissingOwner { line: line_no, content });
                },
                LineEntry::Entry { raw, owner } => {
                    let glob_text = normalize_pattern(raw.as_str());
                    if glob_text.as_str().is_empty() {
                        proof {
                            lemma_fault_stays(lines, line_no as int, lines.len() as int);
                        }
                        return Err(ParseError::EmptyPattern { line: line_no, pattern: raw });
                    }
                    proof {
                        lemma_no_backslash(raw@);
                    }
                    match compile_glob(glob_text.as_str()) {
                        Err(_) => {
                            proof {
                                lemma_fault_stays(lines, line_no as int, lines.len() as int);
                            }
                            return Err(ParseError::PatternCompile { line: line_no, pattern: raw });
                        },
                        Ok(glob) => {
                            builder_add(&mut builder, glob);
                            service_names.push(owner);
                            patterns.push(raw);
                            proof {
                                let grown = rule_list(patterns@, service_names@);
                                assert(grown =~= rules.push(Rule { raw: raw@, owner: owner@ }));
                                assert(canonical_globs(grown) =~= canonical_globs(rules).push(
                                    normalize_spec(raw@),
                                ));
                            }
                        },
                    }
                },
            }
        }
        proof {
            assert(doc@.subrange(len as int, len as int) =~= Seq::<char>::empty());
            assert(line_no == lines.len());
        }
        match builder.build() {
            Ok(glob_set) => Ok(ServiceMapper { glob_set, service_names, patterns }),
            Err(_) => Err(ParseError::MatcherBuild),
        }
    }

    /// What the matcher lists for a portable path is the list of the rules
    /// that match it.
    proof fn lemma_hits(&self, hits: Seq<usize>, path: Seq<char>)
        requires
            self.wf(),
            is_portable(path),
            forall|k: int| 0 <= k < hits.len() ==> #[trigger] hits[k] < set_globs(self.glob_set).len(),
            forall|a: int, b: int| 0 <= a < b < hits.len() ==> hits[a] < hits[b],
            forall|k: int|
                0 <= k < hits.len() ==> glob_matches(
                    set_globs(self.glob_set)[#[trigger] hits[k] as int],
                    path,
                ),
            forall|i: int|
                0 <= i < set_globs(self.glob_set).len() && glob_matches(
                    #[trigger] set_globs(self.glob_set)[i],
                    path,
                ) ==> exists|k: int| 0 <= k < hits.len() && hits[k] == i,
        ensures
            lists_matches(hits, self@, path),
    {
        assert forall|i: int| 0 <= i < self@.len() implies #[trigger] set_globs(
            self.glob_set,
        )[i] == normalize_spec(self@[i].raw) by {}
        assert forall|i: int|
            0 <= i < self@.len() && rule_matches(#[trigger] self@[i], path) implies exists|k: int|
            0 <= k < hits.len() && hits[k] == i by {
            assert(glob_matches(set_globs(self.glob_set)[i], path));
        }
    }

    /// The owner of the rule at the given index.
    pub fn owner_of(&self, top: Option<usize>) -> (res: Option<&str>)
        requires
            self.wf(),
            top is Some ==> top->Some_0 < self@.len(),
        ensures
            match top {
                Some(i) => res is Some && res->Some_0@ == self@[i as int].owner,
                None => res is None,
            },
    {
        match top {
            Some(i) => Some(self.service_names[i].as_str()),
            None => None,
        }
    }

    /// The rules at the given indices, in the order of the indices, each
    /// with its pattern as written and its owner.
    pub fn explain_hits(&self, hits: &Vec<usize>) -> (res: Vec<ExplainMatch<'_>>)
        requires
            self.wf(),
            forall|k: int| 0 <= k < hits@.len() ==> #[trigger] hits@[k] < self@.len(),
        ensures
            explained(res@) == picked(self@, hits@),
    {
        let mut result: Vec<ExplainMatch<'_>> = Vec::new();
        let mut k: usize = 0;
        assert(explained(result@) =~= picked(self@, hits@.subrange(0, 0)));
        while k < hits.len()
            invariant
                self.wf(),
                k <= hits@.len(),
                forall|j: int| 0 <= j < hits@.len() ==> #[trigger] hits@[j] < self@.len(),
                explained(result@) == picked(self@, hits@.subrange(0, k as int)),
            decreases hits@.len() - k,
        {
            let idx: usize = hits[k];
            assert(hits@[k as int] < self@.len());
            let ghost before = explained(result@);
            result.push(
                ExplainMatch {
                    service: self.service_names[idx].as_str(),
                    pattern: self.patterns[idx].clone(),
                },
            );
            k += 1;
            assert(explained(result@) =~= before.push(self@[idx as int]));
            assert(picked(self@, hits@.subrange(0, k as int)) =~= before.push(self@[idx as int]));
        }
        assert(hits@.subrange(0, k as int) =~= hits@);
        result
    }

    /// The owner of the last rule that matches `path`, if any rule does.
    pub fn find_service(&self, path: &str) -> (res: Option<&str>)
        requires
            self.wf(),
        ensures
            is_portable(path@) ==> (match resolve_spec(self@, path@) {
                Some(owner) => res is Some && res->Some_0@ == owner,
                None => res is None,
            }),
            res is Some ==> exists|i: int| 0 <= i < self@.len() && res->Some_0@ == self@[i].owner,
    {
        let hits = set_matches(&self.glob_set, path);
        let top = highest(&hits);
        proof {
            if is_portable(path@) {
                self.lemma_hits(hits@, path@);
                lemma_highest_is_winner(hits@, self@, path@, top);
            }
            if top is Some {
                let k = choose|k: int| 0 <= k < hits@.len() && hits@[k] == top->Some_0;
                assert(hits@[k] < set_globs(self.glob_set).len());
            }
        }
        self.owner_of(top)
    }

    /// Every rule that matches `path`, in declaration order, each with its
    /// pattern as written and its owner. The last one is the winner.
    pub fn explain_service(&self, path: &str) -> (res: Vec<ExplainMatch<'_>>)
        requires
            self.wf(),
        ensures
            is_portable(path@) ==> explained(res@) == explain_spec(self@, path@),
            exists|hits: Seq<usize>|
                explained(res@) == picked(self@, hits) && forall|k: int|
                    0 <= k < hits.len() ==> #[trigger] hits[k] < self@.len(),
    {
        let hits = set_matches(&self.glob_set, path);
        proof {
            if is_portable(path@) {
                self.lemma_hits(hits@, path@);
                lemma_listed_is_explanation(hits@, self@, path@);
            }
        }
        self.explain_hits(&hits)
    }

    /// The raw patterns of the rules that match no path of `paths`, in
    /// declaration order.
    pub fn unused_patterns(&self, paths: &Vec<String>) -> (res: Vec<String>)
        requires
            self.wf(),
        ensures
            all_portable(texts(paths@)) ==> texts(res@) == unused_spec(self@, texts(paths@)),
    {
        let ghost corpus = texts(paths@);
        let count: usize = self.patterns.len();
        let mut used: Vec<bool> = Vec::new();
        let mut i: usize = 0;
        while i < count
            invariant
                i <= count,
                used@.len() == i,
                forall|j: int| 0 <= j < i ==> !(#[trigger] used@[j]),
            decreases count - i,
        {
            used.push(false);
            i += 1;
        }
        proof {
            assert forall|j: int| 0 <= j < self@.len() implies #[trigger] set_globs(
                self.glob_set,
            )[j] == normalize_spec(self@[j].raw) by {}
        }
        let mut p: usize = 0;
        while p < paths.len()
            invariant
                self.wf(),
                corpus == texts(paths@),
                count == self@.len(),
                used@.len() == count,
                p <= paths@.len(),
                forall|j: int|
                    0 <= j < self@.len() ==> #[trigger] set_globs(self.glob_set)[j]
                        == normalize_spec(self@[j].raw),
                all_portable(corpus) ==> forall|j: int|
                    0 <= j < count ==> (#[trigger] used@[j] <==> is_used(
                        self@,
                        corpus.subrange(0, p as int),
                        j,
                    )),
            decreases paths@.len() - p,
        {
            let hits = set_matches(&self.glob_set, paths[p].as_str());
            let ghost before = used@;
            let ghost seen = corpus.subrange(0, p as int);
            let ghost grown = corpus.subrange(0, p + 1);
            let mut k: usize = 0;
            while k < hits.len()
                invariant
                    k <= hits@.len(),
                    used@.len() == count,
                    count == self@.len(),
                    forall|j: int| 0 <= j < hits@.len() ==> #[trigger] hits@[j] < count,
                    forall|j: int|
                        0 <= j < count ==> (#[trigger] used@[j] <==> before[j] || exists|m: int|
                            0 <= m < k && hits@[m] == j),
                decreases hits@.len() - k,
            {
                let idx: usize = hits[k];
                assert(hits@[k as int] < count);
                let ghost prior = used@;
                used.set(idx, true);
                k += 1;
                proof {
                    assert forall|j: int| 0 <= j < count implies (#[trigger] used@[j] <==> before[j]
                        || exists|m: int| 0 <= m < k && hits@[m] == j) by {
                        if j == idx {
                            assert(hits@[k - 1] == j);
                        } else {
                            assert(used@[j] == prior[j]);
                            if exists|m: int| 0 <= m < k && hits@[m] == j {
                                let m = choose|m: int| 0 <= m < k && hits@[m] == j;
                                assert(m < k - 1);
                            }
                        }
                    }
                }
            }
            proof {
                if all_portable(corpus) {
                    let path = corpus[p as int];
                    assert(is_portable(path));
                    assert(path == paths@[p as int]@);
                    assert(grown[p as int] == path);
                    assert forall|j: int| 0 <= j < count implies (#[trigger] used@[j] <==> is_used(
                        self@,
                        grown,
                        j,
                    )) by {
                        if used@[j] {
                            if before[j] {
                                let q = choose|q: int|
                                    0 <= q < seen.len() && rule_matches(self@[j], #[trigger] seen[q]);
                                assert(grown[q] == seen[q]);
                            } else {
                                let m = choose|m: int| 0 <= m < hits@.len() && hits@[m] == j;
                                assert(glob_matches(
                                    set_globs(self.glob_set)[hits@[m] as int],
                                    path,
                                ));
                                assert(rule_matches(self@[j], grown[p as int]));
                            }
                        }
                        if is_used(self@, grown, j) {
                            let q = choose|q: int|
                                0 <= q < grown.len() && rule_matches(self@[j], #[trigger] grown[q]);
                            if q < p {
                                assert(seen[q] == grown[q]);
                                assert(is_used(self@, seen, j));
                            } else {
                                assert(glob_matches(set_globs(self.glob_set)[j], path));
                                let m = choose|m: int| 0 <= m < hits@.len() && hits@[m] == j;
                                assert(used@[j]);
                            }
                        }
                    }
                }
            }
            p += 1;
        }
        assert(corpus.subrange(0, p as int) =~= corpus);
        let mut res: Vec<String> = Vec::new();
        let mut r: usize = 0;
        assert(texts(res@) =~= Seq::<Seq<char>>::empty());
        while r < count
            invariant
                r <= count,
                count == self@.len(),
                count == self.patterns@.len(),
                used@.len() == count,
                all_portable(corpus) ==> forall|j: int|
                    0 <= j < count ==> (#[trigger] used@[j] <==> is_used(self@, corpus, j)),
                all_portable(corpus) ==> texts(res@) == unused_upto(self@, corpus, r as int),
            decreases count - r,
        {
            if !used[r] {
                let ghost prev = texts(res@);
                res.push(self.patterns[r].clone());
                assert(texts(res@) =~= prev.push(self@[r as int].raw));
            }
            r += 1;
        }
        res
    }
}

} // verus!
