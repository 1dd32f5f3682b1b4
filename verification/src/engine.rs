//! Deterministic trigger matcher.
//!
//! Snippets are filed in three reverse tries: case-preserving ones under
//! their triggers, upper- and lower-case ones under the text they need
//! typed, smart-case ones under the lowercase of their triggers. Per
//! keystroke the buffer is read once into characters; then, for each
//! trigger length up to the longest trigger, the end of the buffer of that
//! length (and its lowercase) is looked up in the tries, so the work does
//! not grow with the number of snippets, only with the number that share the
//! looked-up text.
//!
//! The contract of `Matcher::match_buffer` says which snippet fires without
//! reference to the tries. Case-preserving snippets are tried first: if
//! one fires, the shortest such trigger fixes the length, and among all the
//! snippets that fire at that length, whatever their case modes, the one
//! ranked first wins (priority, then newest `updated_at`, then smallest id).
//! Otherwise the other snippets compete the same way, shortest trigger
//! first.

use vstd::prelude::*;

use crate::trie::{
    find_node, insert_key, lemma_skip, member, new_trie, next_char, proper_suffix, trie_wf, TrieNode,
};

use crate::clock::later;
use crate::model::{
    opt_text, rule_views, snippet_views, AppRule, AppRuleView, CaseMode, DelimiterMode, DelimiterModeView,
    Snippet, SnippetView,
};
use crate::text::{
    alphanumeric, chars_of, contains_char, contains_text, has_substring, is_alphanumeric, lowercase,
    same_text, text_from, to_lowercase, to_uppercase, uppercase,
};

verus! {

/// Per-keystroke context used during matching.
#[derive(Clone, Debug)]
pub struct MatchContext {
    pub app_bundle_id: String,
    pub window_title: Option<String>,
    pub is_secure: bool,
    pub ime_active: bool,
}

/// The mathematical value of a `MatchContext`.
pub struct MatchContextView {
    pub app_bundle_id: Seq<char>,
    pub window_title: Option<Seq<char>>,
    pub is_secure: bool,
    pub ime_active: bool,
}

impl View for MatchContext {
    type V = MatchContextView;

    open spec fn view(&self) -> MatchContextView {
        MatchContextView {
            app_bundle_id: self.app_bundle_id@,
            window_title: opt_text(self.window_title),
            is_secure: self.is_secure,
            ime_active: self.ime_active,
        }
    }
}

/// Result of a successful match: which snippet fired and what to expand to.
#[derive(Clone, Debug)]
pub struct MatchResult {
    pub snippet_id: u128,
    pub trigger: String,
    pub content: String,
}

/// The mathematical value of a `MatchResult`.
pub struct MatchResultView {
    pub snippet_id: u128,
    pub trigger: Seq<char>,
    pub content: Seq<char>,
}

impl View for MatchResult {
    type V = MatchResultView;

    open spec fn view(&self) -> MatchResultView {
        MatchResultView {
            snippet_id: self.snippet_id,
            trigger: self.trigger@,
            content: self.content@,
        }
    }
}

/// What a match of snippet `s` reports.
pub open spec fn result_of(s: SnippetView) -> MatchResultView {
    MatchResultView { snippet_id: s.id, trigger: s.trigger, content: s.content }
}

/// The value of an optional match result.
pub open spec fn opt_result(r: Option<MatchResult>) -> Option<MatchResultView> {
    match r {
        Some(m) => Some(m@),
        None => None,
    }
}

// ---------------------------------------------------------------------------
// Per-snippet checks
// ---------------------------------------------------------------------------

/// Letters, digits (Unicode) and `_` are word characters.
pub open spec fn word_char(c: char) -> bool {
    alphanumeric(c) || c == '_'
}

/// The character typed just before a trigger of length `len` at the end of
/// `buf`, if any.
pub open spec fn preceding(buf: Seq<char>, len: int) -> Option<char> {
    if buf.len() - len <= 0 {
        None
    } else {
        Some(buf[buf.len() - len - 1])
    }
}

/// Whether the character before the trigger satisfies the delimiter mode.
pub open spec fn delimiter_ok(prev: Option<char>, mode: DelimiterModeView) -> bool {
    match mode {
        DelimiterModeView::Any => true,
        DelimiterModeView::WordBoundary => match prev {
            None => true,
            Some(c) => !word_char(c),
        },
        DelimiterModeView::Custom(chars) => match prev {
            None => false,
            Some(c) => chars.contains(c),
        },
    }
}

/// Whether the typed text agrees with the trigger under the case mode.
pub open spec fn case_ok(typed: Seq<char>, mode: CaseMode, trigger: Seq<char>) -> bool {
    match mode {
        CaseMode::Smart => lowercase(typed) == lowercase(trigger),
        CaseMode::Upper => typed == uppercase(trigger),
        CaseMode::Lower => typed == lowercase(trigger),
        CaseMode::Preserve => typed == trigger,
    }
}

/// Whether an app rule admits the context.
pub open spec fn rule_applies(rule: AppRuleView, ctx: MatchContextView) -> bool {
    &&& rule.enabled
    &&& rule.bundle_id == ctx.app_bundle_id
    &&& match (rule.window_title_pattern, ctx.window_title) {
        (None, _) => true,
        (Some(pattern), Some(title)) => has_substring(title, pattern),
        (Some(_), None) => false,
    }
}

/// A snippet without app rules applies everywhere; otherwise one of its
/// rules must admit the context.
pub open spec fn scope_ok(s: SnippetView, ctx: MatchContextView) -> bool {
    s.scope.app_rules.len() == 0 || exists|i: int|
        0 <= i < s.scope.app_rules.len() && #[trigger] rule_applies(s.scope.app_rules[i], ctx)
}

/// `ch.is_alphanumeric() || ch == '_'`.
pub fn is_word_char(ch: char) -> (r: bool)
    ensures
        r == word_char(ch),
{
    is_alphanumeric(ch) || ch == '_'
}

/// Whether the delimiter character (`None` at the start of input) lets a
/// trigger with this delimiter mode fire.
pub fn matches_delimiter(delimiter_char: Option<char>, mode: &DelimiterMode) -> (r: bool)
    ensures
        r == delimiter_ok(delimiter_char, mode@),
{
    match mode {
        DelimiterMode::Any => true,
        DelimiterMode::WordBoundary => match delimiter_char {
            None => true,
            Some(ch) => !is_word_char(ch),
        },
        DelimiterMode::Custom(chars) => match delimiter_char {
            None => false,
            Some(ch) => {
                let cs = chars_of(chars.as_str());
                contains_char(&cs, ch)
            },
        },
    }
}

/// Whether the typed suffix agrees with the trigger under the case mode.
pub fn matches_case_mode(suffix: &str, mode: &CaseMode, trigger: &str) -> (r: bool)
    ensures
        r == case_ok(suffix@, *mode, trigger@),
{
    match mode {
        CaseMode::Smart => {
            let a = to_lowercase(suffix);
            let b = to_lowercase(trigger);
            a == b
        },
        CaseMode::Upper => {
            let b = to_uppercase(trigger);
            same_text(suffix, b.as_str())
        },
        CaseMode::Lower => {
            let b = to_lowercase(trigger);
            same_text(suffix, b.as_str())
        },
        CaseMode::Preserve => same_text(suffix, trigger),
    }
}

/// Whether one app rule admits the context.
fn rule_matches(rule: &AppRule, ctx: &MatchContext) -> (r: bool)
    ensures
        r == rule_applies(rule@, ctx@),
{
    if !rule.enabled || !(rule.bundle_id == ctx.app_bundle_id) {
        return false;
    }
    match (&rule.window_title_pattern, &ctx.window_title) {
        (None, _) => true,
        (Some(pattern), Some(title)) => contains_text(title.as_str(), pattern.as_str()),
        _ => false,
    }
}

/// Whether the snippet's app scope admits the context.
pub fn matches_scope(snippet: &Snippet, ctx: &MatchContext) -> (r: bool)
    ensures
        r == scope_ok(snippet@, ctx@),
{
    let rules = &snippet.scope.app_rules;
    if rules.len() == 0 {
        return true;
    }
    let mut i: usize = 0;
    while i < rules.len()
        invariant
            rules@ == snippet.scope.app_rules@,
            i <= rules@.len(),
            forall|j: int| 0 <= j < i ==> !rule_applies(#[trigger] rule_views(rules@)[j], ctx@),
        decreases rules@.len() - i,
    {
        if rule_matches(&rules[i], ctx) {
            assert(rule_applies(rule_views(rules@)[i as int], ctx@));
            return true;
        }
        i = i + 1;
    }
    assert forall|j: int|
        0 <= j < snippet@.scope.app_rules.len() implies !#[trigger] rule_applies(
        snippet@.scope.app_rules[j],
        ctx@,
    ) by {
        assert(!rule_applies(rule_views(rules@)[j], ctx@));
    }
    false
}

// ---------------------------------------------------------------------------
// Ranking: priority, then newest update, then smallest id
// ---------------------------------------------------------------------------

/// `a` comes before `b` in the matcher's order: higher priority first, then
/// the more recently updated, then the smaller id.
pub open spec fn ranks_before(a: SnippetView, b: SnippetView) -> bool {
    ||| a.priority > b.priority
    ||| a.priority == b.priority && later(a.updated_at, b.updated_at)
    ||| a.priority == b.priority && a.updated_at == b.updated_at && a.id < b.id
}

/// Where `x` goes in a ranked list: before the first element it ranks
/// before, so that it follows every element it ties with.
pub open spec fn insert_pos(sorted: Seq<SnippetView>, x: SnippetView) -> int
    decreases sorted.len(),
{
    if sorted.len() == 0 {
        0
    } else if ranks_before(x, sorted[0]) {
        0
    } else {
        1 + insert_pos(sorted.drop_first(), x)
    }
}

/// The stable sort of `s` by rank: each element, in input order, is inserted
/// after everything it does not rank before.
pub open spec fn ranked(s: Seq<SnippetView>) -> Seq<SnippetView>
    decreases s.len(),
{
    if s.len() == 0 {
        s
    } else {
        let r = ranked(s.drop_last());
        r.insert(insert_pos(r, s.last()), s.last())
    }
}

/// A sequence is in rank order when no element ranks before an earlier one.
pub open spec fn rank_sorted(s: Seq<SnippetView>) -> bool {
    forall|i: int, j: int| 0 <= i < j < s.len() ==> !ranks_before(#[trigger] s[j], #[trigger] s[i])
}

/// The rank order is a strict total order up to ties: no snippet ranks
/// before itself or before one that ranks before it, it is transitive, and
/// two snippets neither of which ranks before the other agree on priority,
/// update time and id.
pub proof fn lemma_ranks_before_order(a: SnippetView, b: SnippetView, c: SnippetView)
    ensures
        !ranks_before(a, a),
        ranks_before(a, b) ==> !ranks_before(b, a),
        ranks_before(a, b) && ranks_before(b, c) ==> ranks_before(a, c),
        !ranks_before(a, b) && !ranks_before(b, a) ==> a.priority == b.priority && a.updated_at
            == b.updated_at && a.id == b.id,
{
}

proof fn lemma_insert_pos(sorted: Seq<SnippetView>, x: SnippetView, j: int)
    requires
        0 <= j <= sorted.len(),
        forall|k: int| 0 <= k < j ==> !ranks_before(x, #[trigger] sorted[k]),
        j == sorted.len() || ranks_before(x, sorted[j]),
    ensures
        insert_pos(sorted, x) == j,
    decreases sorted.len(),
{
    if sorted.len() > 0 && j > 0 {
        assert(!ranks_before(x, sorted[0]));
        let rest = sorted.drop_first();
        assert forall|k: int| 0 <= k < j - 1 implies !ranks_before(x, #[trigger] rest[k]) by {
            assert(rest[k] == sorted[k + 1]);
        }
        lemma_insert_pos(rest, x, j - 1);
    }
}

proof fn lemma_insert_pos_bounds(sorted: Seq<SnippetView>, x: SnippetView)
    ensures
        0 <= insert_pos(sorted, x) <= sorted.len(),
        forall|k: int| 0 <= k < insert_pos(sorted, x) ==> !ranks_before(x, #[trigger] sorted[k]),
        insert_pos(sorted, x) < sorted.len() ==> ranks_before(x, sorted[insert_pos(sorted, x)]),
    decreases sorted.len(),
{
    if sorted.len() > 0 && !ranks_before(x, sorted[0]) {
        let rest = sorted.drop_first();
        lemma_insert_pos_bounds(rest, x);
        assert forall|k: int| 0 <= k < insert_pos(sorted, x) implies !ranks_before(
            x,
            #[trigger] sorted[k],
        ) by {
            if k > 0 {
                assert(sorted[k] == rest[k - 1]);
            }
        }
    }
}

/// The rank sort is a permutation of its input, and is in rank order: a
/// snippet of higher priority (then newer, then of smaller id) always comes
/// first.
pub proof fn lemma_ranked(s: Seq<SnippetView>)
    ensures
        ranked(s).to_multiset() == s.to_multiset(),
        ranked(s).len() == s.len(),
        rank_sorted(ranked(s)),
    decreases s.len(),
{
    if s.len() > 0 {
        let init = s.drop_last();
        let x = s.last();
        lemma_ranked(init);
        let r = ranked(init);
        let p = insert_pos(r, x);
        lemma_insert_pos_bounds(r, x);
        let out = r.insert(p, x);
        assert(out == ranked(s));
        init.to_multiset_ensures();
        out.to_multiset_ensures();
        assert(s =~= init.push(x));
        assert(out.remove(p) =~= r);
        assert(out[p] == x);
        assert(out.contains(x));
        assert(out.to_multiset() =~= r.to_multiset().insert(x));
        assert forall|i: int, j: int| 0 <= i < j < out.len() implies !ranks_before(
            #[trigger] out[j],
            #[trigger] out[i],
        ) by {
            if j < p {
                assert(out[i] == r[i] && out[j] == r[j]);
            } else if j == p {
                assert(out[i] == r[i]);
            } else if i == p {
                assert(out[j] == r[j - 1]);
                if p < r.len() {
                    lemma_ranks_before_order(r[j - 1], x, r[p]);
                    if j - 1 > p {
                        assert(!ranks_before(r[j - 1], r[p]));
                    }
                }
            } else if i < p {
                assert(out[i] == r[i] && out[j] == r[j - 1]);
            } else {
                assert(out[i] == r[i - 1] && out[j] == r[j - 1]);
            }
        }
    }
}

/// Whether `a` is ranked before `b` (the comparator the matcher sorts by).
fn snippet_precedes(a: &Snippet, b: &Snippet) -> (r: bool)
    ensures
        r == ranks_before(a@, b@),
{
    if a.priority != b.priority {
        return a.priority > b.priority;
    }
    if a.updated_at.is_later_than(&b.updated_at) {
        return true;
    }
    if b.updated_at.is_later_than(&a.updated_at) {
        return false;
    }
    assert(a.updated_at@ == b.updated_at@);
    a.id < b.id
}

/// Stable sort of the snippets by rank (insertion sort).
fn sort_ranked(snippets: Vec<Snippet>) -> (r: Vec<Snippet>)
    ensures
        snippet_views(r@) == ranked(snippet_views(snippets@)),
{
    let ghost input = snippet_views(snippets@);
    let mut rest = snippets;
    let mut sorted: Vec<Snippet> = Vec::new();
    let ghost mut done: int = 0;
    assert(snippet_views(sorted@) =~= ranked(input.take(0)));
    while rest.len() > 0
        invariant
            0 <= done <= input.len(),
            snippet_views(rest@) =~= input.skip(done),
            snippet_views(sorted@) == ranked(input.take(done)),
        decreases rest.len(),
    {
        let ghost rest_before = rest@;
        assert(snippet_views(rest_before).len() == rest_before.len());
        assert(done < input.len());
        let x = rest.remove(0);
        let ghost xv = x@;
        assert(xv == input[done]) by {
            assert(x == rest_before[0]);
            assert(snippet_views(rest_before)[0] == rest_before[0]@);
            assert(snippet_views(rest_before)[0] == input.skip(done)[0]);
            assert(input.skip(done)[0] == input[done]);
        }
        assert(snippet_views(rest@) =~= snippet_views(rest_before).drop_first());
        let mut j: usize = 0;
        while j < sorted.len() && !snippet_precedes(&x, &sorted[j])
            invariant
                j <= sorted@.len(),
                forall|k: int| 0 <= k < j ==> !ranks_before(xv, #[trigger] snippet_views(sorted@)[k]),
                x@ == xv,
            decreases sorted@.len() - j,
        {
            j = j + 1;
        }
        proof {
            lemma_insert_pos(snippet_views(sorted@), xv, j as int);
            assert(input.take(done + 1).drop_last() =~= input.take(done));
            assert(input.take(done + 1).last() == xv);
        }
        let ghost before = sorted@;
        sorted.insert(j, x);
        assert(snippet_views(sorted@) =~= snippet_views(before).insert(j as int, xv));
        proof {
            done = done + 1;
        }
        assert(snippet_views(rest@) =~= input.skip(done));
    }
    assert(input.take(done) =~= input);
    sorted
}

// ---------------------------------------------------------------------------
// Which snippet a buffer triggers
// ---------------------------------------------------------------------------

/// The exact trie files each snippet under its trigger.
pub open spec fn keys_of(v: Seq<SnippetView>) -> Seq<Seq<char>> {
    v.map_values(|s: SnippetView| s.trigger)
}

/// The snippets the exact trie holds: the case-preserving ones.
pub open spec fn preserving(v: Seq<SnippetView>) -> Seq<bool> {
    v.map_values(|s: SnippetView| s.case_mode == CaseMode::Preserve)
}

/// The last `len` characters of `s`.
pub open spec fn tail(s: Seq<char>, len: int) -> Seq<char> {
    s.subrange(s.len() - len, s.len() as int)
}

/// Snippet `k` of the ranked list fires on the last `len` characters of the
/// buffer: it is enabled, its trigger has `len` characters, and its scope,
/// delimiter and case checks pass on those characters.
pub open spec fn candidate(
    snips: Seq<SnippetView>,
    k: int,
    len: int,
    buf: Seq<char>,
    ctx: MatchContextView,
) -> bool {
    &&& 0 <= k < snips.len()
    &&& 1 <= len <= buf.len()
    &&& snips[k].enabled
    &&& snips[k].trigger.len() == len
    &&& scope_ok(snips[k], ctx)
    &&& delimiter_ok(preceding(buf, len), snips[k].delimiter_mode)
    &&& case_ok(tail(buf, len), snips[k].case_mode, snips[k].trigger)
}

/// A candidate among the case-preserving snippets (`exact`) or among the
/// others.
pub open spec fn pass_candidate(
    snips: Seq<SnippetView>,
    k: int,
    len: int,
    buf: Seq<char>,
    ctx: MatchContextView,
    exact: bool,
) -> bool {
    &&& candidate(snips, k, len, buf, ctx)
    &&& (snips[k].case_mode == CaseMode::Preserve) == exact
}

/// The first candidate of one group of snippets: shortest trigger, then
/// first in rank order.
pub open spec fn pass_first(
    snips: Seq<SnippetView>,
    k: int,
    len: int,
    buf: Seq<char>,
    ctx: MatchContextView,
    exact: bool,
) -> bool {
    &&& pass_candidate(snips, k, len, buf, ctx, exact)
    &&& forall|k2: int, len2: int|
        #[trigger] pass_candidate(snips, k2, len2, buf, ctx, exact) ==> len < len2 || (len == len2
            && k <= k2)
}

/// `k` is the first in rank order among the candidates of one group
/// (case-preserving or not) whose trigger has `len` characters.
pub open spec fn pass_first_at(
    snips: Seq<SnippetView>,
    k: int,
    len: int,
    buf: Seq<char>,
    ctx: MatchContextView,
    exact: bool,
) -> bool {
    &&& pass_candidate(snips, k, len, buf, ctx, exact)
    &&& forall|k2: int| #[trigger] pass_candidate(snips, k2, len, buf, ctx, exact) ==> k <= k2
}

/// `k` is the first in rank order among all candidates whose trigger has
/// `len` characters, whatever their case modes.
pub open spec fn first_at(
    snips: Seq<SnippetView>,
    k: int,
    len: int,
    buf: Seq<char>,
    ctx: MatchContextView,
) -> bool {
    &&& candidate(snips, k, len, buf, ctx)
    &&& forall|k2: int| #[trigger] candidate(snips, k2, len, buf, ctx) ==> k <= k2
}

/// Some case-preserving snippet fires.
pub open spec fn exact_fires(snips: Seq<SnippetView>, buf: Seq<char>, ctx: MatchContextView) -> bool {
    exists|k: int, len: int| pass_first(snips, k, len, buf, ctx, true)
}

/// The winner. Case-preserving snippets are tried first: when one fires,
/// the shortest such trigger fixes the length, and the winner is the first
/// in rank order among all snippets that fire at that length, whatever
/// their case modes. Otherwise the winner is the first snippet of the
/// others with the shortest trigger, in rank order.
pub open spec fn winner(
    snips: Seq<SnippetView>,
    k: int,
    len: int,
    buf: Seq<char>,
    ctx: MatchContextView,
) -> bool {
    if exact_fires(snips, buf, ctx) {
        &&& exists|ke: int| pass_first(snips, ke, len, buf, ctx, true)
        &&& first_at(snips, k, len, buf, ctx)
    } else {
        pass_first(snips, k, len, buf, ctx, false)
    }
}

/// What the matcher reports for a buffer: nothing in a secure field or
/// during IME composition; otherwise the winner's match, if any snippet
/// fires.
pub open spec fn expected_match(
    snips: Seq<SnippetView>,
    buf: Seq<char>,
    ctx: MatchContextView,
) -> Option<MatchResultView> {
    if ctx.is_secure || ctx.ime_active {
        None
    } else if exists|k: int, len: int| winner(snips, k, len, buf, ctx) {
        let (k, len) = choose|k: int, len: int| winner(snips, k, len, buf, ctx);
        Some(result_of(snips[k]))
    } else {
        None
    }
}

/// There is at most one winner.
proof fn lemma_winner_unique(
    snips: Seq<SnippetView>,
    k: int,
    len: int,
    k2: int,
    len2: int,
    buf: Seq<char>,
    ctx: MatchContextView,
)
    requires
        winner(snips, k, len, buf, ctx),
        winner(snips, k2, len2, buf, ctx),
    ensures
        k == k2,
        len == len2,
{
    if exact_fires(snips, buf, ctx) {
        let ke = choose|ke: int| pass_first(snips, ke, len, buf, ctx, true);
        let ke2 = choose|ke2: int| pass_first(snips, ke2, len2, buf, ctx, true);
        assert(pass_candidate(snips, ke, len, buf, ctx, true));
        assert(pass_candidate(snips, ke2, len2, buf, ctx, true));
        assert(len == len2);
        assert(candidate(snips, k, len, buf, ctx));
        assert(candidate(snips, k2, len, buf, ctx));
    } else {
        assert(pass_candidate(snips, k, len, buf, ctx, false));
        assert(pass_candidate(snips, k2, len2, buf, ctx, false));
    }
}

proof fn lemma_found(snips: Seq<SnippetView>, k: int, len: int, buf: Seq<char>, ctx: MatchContextView)
    requires
        !ctx.is_secure && !ctx.ime_active,
        winner(snips, k, len, buf, ctx),
    ensures
        expected_match(snips, buf, ctx) == Some(result_of(snips[k])),
{
    let (k2, len2) = choose|k2: int, len2: int| winner(snips, k2, len2, buf, ctx);
    lemma_winner_unique(snips, k, len, k2, len2, buf, ctx);
}

/// The winner is a candidate, and the first in rank order among the
/// candidates of its length.
proof fn lemma_winner_first_at(snips: Seq<SnippetView>, k: int, len: int, buf: Seq<char>, ctx: MatchContextView)
    requires
        winner(snips, k, len, buf, ctx),
    ensures
        first_at(snips, k, len, buf, ctx),
{
    if !exact_fires(snips, buf, ctx) {
        assert forall|k2: int| #[trigger] candidate(snips, k2, len, buf, ctx) implies k <= k2 by {
            if snips[k2].case_mode == CaseMode::Preserve {
                assert(pass_candidate(snips, k2, len, buf, ctx, true));
                assert(exists|a: int, b: int| #[trigger] pass_candidate(snips, a, b, buf, ctx, true));
                lemma_some_pass_first(snips, buf, ctx, true);
            } else {
                assert(pass_candidate(snips, k2, len, buf, ctx, false));
            }
        }
    }
}

/// If some snippet of a group fires, the group has a first candidate.
proof fn lemma_some_pass_first(snips: Seq<SnippetView>, buf: Seq<char>, ctx: MatchContextView, exact: bool)
    requires
        exists|a: int, b: int| #[trigger] pass_candidate(snips, a, b, buf, ctx, exact),
    ensures
        exists|k: int, len: int| pass_first(snips, k, len, buf, ctx, exact),
{
    let (a, b) = choose|a: int, b: int| #[trigger] pass_candidate(snips, a, b, buf, ctx, exact);
    lemma_least_len(snips, buf, ctx, exact, a, b);
}

/// Descent to the least trigger length at which the group fires, then to
/// the first snippet at that length.
proof fn lemma_least_len(
    snips: Seq<SnippetView>,
    buf: Seq<char>,
    ctx: MatchContextView,
    exact: bool,
    a: int,
    b: int,
)
    requires
        pass_candidate(snips, a, b, buf, ctx, exact),
    ensures
        exists|k: int, len: int| pass_first(snips, k, len, buf, ctx, exact),
    decreases b,
{
    if exists|a2: int, b2: int| b2 < b && #[trigger] pass_candidate(snips, a2, b2, buf, ctx, exact) {
        let (a2, b2) = choose|a2: int, b2: int|
            b2 < b && #[trigger] pass_candidate(snips, a2, b2, buf, ctx, exact);
        assert(b2 >= 1);
        lemma_least_len(snips, buf, ctx, exact, a2, b2);
    } else {
        lemma_least_index(snips, buf, ctx, exact, a, b);
    }
}

proof fn lemma_least_index(
    snips: Seq<SnippetView>,
    buf: Seq<char>,
    ctx: MatchContextView,
    exact: bool,
    a: int,
    b: int,
)
    requires
        pass_candidate(snips, a, b, buf, ctx, exact),
        forall|a2: int, b2: int| b2 < b ==> !#[trigger] pass_candidate(snips, a2, b2, buf, ctx, exact),
    ensures
        exists|k: int, len: int| pass_first(snips, k, len, buf, ctx, exact),
    decreases a,
{
    if exists|a2: int| a2 < a && #[trigger] pass_candidate(snips, a2, b, buf, ctx, exact) {
        let a2 = choose|a2: int| a2 < a && #[trigger] pass_candidate(snips, a2, b, buf, ctx, exact);
        assert(a2 >= 0);
        lemma_least_index(snips, buf, ctx, exact, a2, b);
    } else {
        assert(pass_first(snips, a, b, buf, ctx, exact));
    }
}

// ---------------------------------------------------------------------------
// The matcher
// ---------------------------------------------------------------------------

/// The typed text an upper- or lower-case snippet needs: its trigger
/// mapped to that case.
pub open spec fn typed_key(s: SnippetView) -> Seq<char> {
    if s.case_mode == CaseMode::Upper {
        uppercase(s.trigger)
    } else {
        lowercase(s.trigger)
    }
}

pub open spec fn typed_keys(v: Seq<SnippetView>) -> Seq<Seq<char>> {
    v.map_values(|s: SnippetView| typed_key(s))
}

/// The snippets filed under their typed text: the upper- and lower-case ones.
pub open spec fn typed_members(v: Seq<SnippetView>) -> Seq<bool> {
    v.map_values(|s: SnippetView| s.case_mode == CaseMode::Upper || s.case_mode == CaseMode::Lower)
}

/// The smart-case snippets are filed under the lowercase of their triggers.
pub open spec fn smart_keys(v: Seq<SnippetView>) -> Seq<Seq<char>> {
    v.map_values(|s: SnippetView| lowercase(s.trigger))
}

pub open spec fn smart_members(v: Seq<SnippetView>) -> Seq<bool> {
    v.map_values(|s: SnippetView| s.case_mode == CaseMode::Smart)
}

/// Trie-backed matcher with priority ordering and scope checks.
pub struct Matcher {
    snippets: Vec<Snippet>,
    exact_trie: Vec<TrieNode>,
    typed_trie: Vec<TrieNode>,
    smart_trie: Vec<TrieNode>,
    max_trigger_len: usize,
    exact_paths: Ghost<Seq<Seq<char>>>,
    typed_paths: Ghost<Seq<Seq<char>>>,
    smart_paths: Ghost<Seq<Seq<char>>>,
}

impl View for Matcher {
    type V = Seq<SnippetView>;

    /// The snippets in rank order.
    closed spec fn view(&self) -> Seq<SnippetView> {
        snippet_views(self.snippets@)
    }
}

impl Matcher {
    /// Each snippet is filed in one reverse trie: case-preserving ones under
    /// their triggers, upper- and lower-case ones under the text they need
    /// typed, smart-case ones under the lowercase of their triggers;
    /// `max_trigger_len` is the length of the longest trigger.
    #[verifier::type_invariant]
    spec fn indexes_hold_snippets(self) -> bool {
        let v = snippet_views(self.snippets@);
        &&& trie_wf(self.exact_trie@, self.exact_paths@, keys_of(v), preserving(v), v.len() as int)
        &&& trie_wf(self.typed_trie@, self.typed_paths@, typed_keys(v), typed_members(v), v.len() as int)
        &&& trie_wf(self.smart_trie@, self.smart_paths@, smart_keys(v), smart_members(v), v.len() as int)
        &&& forall|k: int| 0 <= k < v.len() ==> #[trigger] v[k].trigger.len() <= self.max_trigger_len
        &&& self.max_trigger_len == 0 || exists|k: int|
            0 <= k < v.len() && #[trigger] v[k].trigger.len() == self.max_trigger_len
    }

    /// Build a matcher from a list of snippets. Sorts by priority internally.
    pub fn from_snippets(snippets: Vec<Snippet>) -> (m: Matcher)
        ensures
            m@ == ranked(snippet_views(snippets@)),
    {
        let snippets = sort_ranked(snippets);
        let ghost v = snippet_views(snippets@);
        let ghost keys = keys_of(v);
        let ghost ex = preserving(v);
        let ghost tkeys = typed_keys(v);
        let ghost tm = typed_members(v);
        let ghost skeys = smart_keys(v);
        let ghost sm = smart_members(v);
        let (mut exact_trie, ge, gepar) = new_trie();
        let (mut typed_trie, gt, gtpar) = new_trie();
        let (mut smart_trie, gs, gspar) = new_trie();
        let ghost mut ep = ge@;
        let ghost mut epar = gepar@;
        let ghost mut tp = gt@;
        let ghost mut tpar = gtpar@;
        let ghost mut sp = gs@;
        let ghost mut spar = gspar@;
        let mut max_trigger_len: usize = 0;
        let mut idx: usize = 0;
        while idx < snippets.len()
            invariant
                v == snippet_views(snippets@),
                keys == keys_of(v),
                ex == preserving(v),
                tkeys == typed_keys(v),
                tm == typed_members(v),
                skeys == smart_keys(v),
                sm == smart_members(v),
                idx <= v.len(),
                crate::trie::trie_wf(exact_trie@, ep, keys, ex, idx as int),
                crate::trie::build_ok(exact_trie@, ep, epar),
                crate::trie::trie_wf(typed_trie@, tp, tkeys, tm, idx as int),
                crate::trie::build_ok(typed_trie@, tp, tpar),
                crate::trie::trie_wf(smart_trie@, sp, skeys, sm, idx as int),
                crate::trie::build_ok(smart_trie@, sp, spar),
                forall|k: int| 0 <= k < idx ==> #[trigger] v[k].trigger.len() <= max_trigger_len,
                max_trigger_len == 0 || exists|k: int|
                    0 <= k < idx && #[trigger] v[k].trigger.len() == max_trigger_len,
            decreases v.len() - idx,
        {
            let snippet = &snippets[idx];
            let trigger_chars = chars_of(snippet.trigger.as_str());
            let trigger_len = trigger_chars.len();
            assert(v[idx as int] == snippet@);
            if trigger_len > max_trigger_len {
                max_trigger_len = trigger_len;
            }
            proof {
                if max_trigger_len == trigger_len {
                    assert(v[idx as int].trigger.len() == max_trigger_len);
                } else if max_trigger_len != 0 {
                    let w = choose|k: int| 0 <= k < idx && #[trigger] v[k].trigger.len() == max_trigger_len;
                    assert(v[w].trigger.len() == max_trigger_len);
                }
            }
            if snippet.case_mode == CaseMode::Preserve {
                let r = insert_key(
                    &mut exact_trie,
                    Ghost(ep),
                    Ghost(epar),
                    &trigger_chars,
                    idx,
                    Ghost(keys),
                    Ghost(ex),
                );
                proof {
                    ep = r.0@;
                    epar = r.1@;
                    lemma_skip(typed_trie@, tp, tkeys, tm, idx as int);
                    lemma_skip(smart_trie@, sp, skeys, sm, idx as int);
                }
            } else if snippet.case_mode == CaseMode::Smart {
                let lowered = to_lowercase(snippet.trigger.as_str());
                let key = chars_of(lowered.as_str());
                let r = insert_key(
                    &mut smart_trie,
                    Ghost(sp),
                    Ghost(spar),
                    &key,
                    idx,
                    Ghost(skeys),
                    Ghost(sm),
                );
                proof {
                    sp = r.0@;
                    spar = r.1@;
                    lemma_skip(exact_trie@, ep, keys, ex, idx as int);
                    lemma_skip(typed_trie@, tp, tkeys, tm, idx as int);
                }
            } else {
                let mapped = if snippet.case_mode == CaseMode::Upper {
                    to_uppercase(snippet.trigger.as_str())
                } else {
                    to_lowercase(snippet.trigger.as_str())
                };
                let key = chars_of(mapped.as_str());
                let r = insert_key(
                    &mut typed_trie,
                    Ghost(tp),
                    Ghost(tpar),
                    &key,
                    idx,
                    Ghost(tkeys),
                    Ghost(tm),
                );
                proof {
                    tp = r.0@;
                    tpar = r.1@;
                    lemma_skip(exact_trie@, ep, keys, ex, idx as int);
                    lemma_skip(smart_trie@, sp, skeys, sm, idx as int);
                }
            }
            idx = idx + 1;
        }
        Matcher {
            snippets,
            exact_trie,
            typed_trie,
            smart_trie,
            max_trigger_len,
            exact_paths: Ghost(ep),
            typed_paths: Ghost(tp),
            smart_paths: Ghost(sp),
        }
    }
}

/// Walks the exact trie backwards from the end of the buffer and returns
/// the first case-preserving snippet whose checks pass (with its trigger
/// length), trying shorter triggers first and, at each length, snippets in
/// rank order.
fn match_with_trie(
    trie: &Vec<TrieNode>,
    Ghost(paths): Ghost<Seq<Seq<char>>>,
    snippets: &Vec<Snippet>,
    buffer_chars: &Vec<char>,
    max_len: usize,
    ctx: &MatchContext,
) -> (r: Option<(usize, usize)>)
    requires
        trie_wf(
            trie@,
            paths,
            keys_of(snippet_views(snippets@)),
            preserving(snippet_views(snippets@)),
            snippets@.len() as int,
        ),
        max_len <= buffer_chars@.len(),
        forall|k: int|
            0 <= k < snippets@.len() ==> #[trigger] snippet_views(snippets@)[k].trigger.len()
                <= max_len || snippet_views(snippets@)[k].trigger.len() > buffer_chars@.len(),
    ensures
        match r {
            Some(w) => pass_first(snippet_views(snippets@), w.0 as int, w.1 as int, buffer_chars@, ctx@, true),
            None => forall|k: int, len: int|
                !pass_candidate(snippet_views(snippets@), k, len, buffer_chars@, ctx@, true),
        },
{
    let ghost v = snippet_views(snippets@);
    let ghost keys = keys_of(v);
    let ghost inc = preserving(v);
    let ghost buf = buffer_chars@;
    let ghost cv = ctx@;
    let total_len = buffer_chars.len();
    let n_snippets = snippets.len();
    assert(v.len() == n_snippets);
    if total_len == 0 {
        return None;
    }
    let mut node_idx: usize = 0;
    let mut offset: usize = 0;
    assert(tail(buf, 0) =~= Seq::<char>::empty());
    while offset < max_len
        invariant
            trie_wf(trie@, paths, keys, inc, v.len() as int),
            v == snippet_views(snippets@),
            keys == keys_of(v),
            inc == preserving(v),
            buf == buffer_chars@,
            cv == ctx@,
            total_len == buf.len(),
            v.len() <= usize::MAX,
            max_len <= buf.len(),
            offset <= max_len,
            0 <= node_idx < trie@.len(),
            paths[node_idx as int] == tail(buf, offset as int),
            forall|k: int, len: int|
                1 <= len <= offset ==> !#[trigger] pass_candidate(v, k, len, buf, cv, true),
        decreases max_len - offset,
    {
        let ch = buffer_chars[total_len - 1 - offset];
        let found = match trie[node_idx].children.get(&(ch as u32)) {
            Some(i) => Some(*i),
            None => None,
        };
        let next_idx = match found {
            Some(i) => i,
            None => {
                proof {
                    assert forall|k: int, len: int| !pass_candidate(v, k, len, buf, cv, true) by {
                        if pass_candidate(v, k, len, buf, cv, true) && len > offset {
                            let key = keys[k];
                            assert(key == v[k].trigger);
                            assert(member(inc, k, v.len() as int));
                            assert(key == tail(buf, len));
                            assert(proper_suffix(paths[node_idx as int], key)) by {
                                assert(key.subrange(key.len() - offset, key.len() as int) =~= tail(
                                    buf,
                                    offset as int,
                                ));
                            }
                            assert(next_char(paths[node_idx as int], key) == ch);
                        }
                    }
                }
                return None;
            },
        };
        let trigger_len = offset + 1;
        proof {
            let t = trie@;
            assert(crate::trie::child_ok(t, paths, node_idx as int, ch as u32));
            let np = paths[next_idx as int];
            assert(np =~= tail(buf, trigger_len as int)) by {
                assert forall|x: int| 0 <= x < np.len() implies np[x] == tail(
                    buf,
                    trigger_len as int,
                )[x] by {
                    if x > 0 {
                        assert(np[x] == np.drop_first()[x - 1]);
                    } else {
                        crate::trie::lemma_char_code(np[0], ch);
                    }
                }
            }
        }
        node_idx = next_idx;
        let terminals = &trie[node_idx].terminals;
        let ghost ts = terminals@;
        proof {
            assert(crate::trie::terminals_ok(ts, paths[node_idx as int], keys, inc, v.len() as int));
        }
        let start = total_len - trigger_len;
        let suffix = text_from(buffer_chars, start);
        let delimiter_char = if start == 0 {
            None
        } else {
            Some(buffer_chars[start - 1])
        };
        assert(delimiter_char == preceding(buf, trigger_len as int));
        assert(suffix@ == tail(buf, trigger_len as int));
        let mut t: usize = 0;
        while t < terminals.len()
            invariant
                ts == terminals@,
                crate::trie::terminals_ok(ts, paths[node_idx as int], keys, inc, v.len() as int),
                paths[node_idx as int] == tail(buf, trigger_len as int),
                v == snippet_views(snippets@),
                keys == keys_of(v),
                inc == preserving(v),
                buf == buffer_chars@,
                cv == ctx@,
                trigger_len == offset + 1,
                trigger_len <= buf.len(),
                v.len() <= usize::MAX,
                delimiter_char == preceding(buf, trigger_len as int),
                suffix@ == tail(buf, trigger_len as int),
                forall|k: int, len: int|
                    1 <= len <= offset ==> !#[trigger] pass_candidate(v, k, len, buf, cv, true),
                t <= ts.len(),
                forall|x: int|
                    0 <= x < t ==> !pass_candidate(
                        v,
                        #[trigger] ts[x] as int,
                        trigger_len as int,
                        buf,
                        cv,
                        true,
                    ),
            decreases ts.len() - t,
        {
            let idx = terminals[t];
            proof {
                assert(member(inc, ts[t as int] as int, v.len() as int));
            }
            let snippet = &snippets[idx];
            assert(v[idx as int] == snippet@);
            if snippet.enabled {
                let count = chars_of(snippet.trigger.as_str()).len();
                if count == trigger_len && matches_scope(snippet, ctx) && matches_delimiter(
                    delimiter_char,
                    &snippet.delimiter_mode,
                ) && matches_case_mode(suffix.as_str(), &snippet.case_mode, snippet.trigger.as_str()) {
                    proof {
                        assert(keys[idx as int] == v[idx as int].trigger);
                        assert(pass_candidate(v, idx as int, trigger_len as int, buf, cv, true));
                        assert forall|k2: int, len2: int|
                            #[trigger] pass_candidate(
                                v,
                                k2,
                                len2,
                                buf,
                                cv,
                                true,
                            ) implies trigger_len < len2 || (trigger_len == len2 && idx <= k2) by {
                            if len2 == trigger_len && k2 < idx {
                                assert(keys[k2] == v[k2].trigger);
                                assert(member(inc, k2, v.len() as int));
                                assert(ts.contains(k2 as usize));
                                let x = choose|x: int| 0 <= x < ts.len() && ts[x] == k2 as usize;
                                if x >= t {
                                    if x > t {
                                        assert(ts[t as int] < ts[x]);
                                    }
                                }
                                assert(!pass_candidate(v, ts[x] as int, trigger_len as int, buf, cv, true));
                            }
                        }
                    }
                    return Some((idx, trigger_len));
                }
            }
            t = t + 1;
        }
        proof {
            assert forall|k: int| !pass_candidate(v, k, trigger_len as int, buf, cv, true) by {
                if pass_candidate(v, k, trigger_len as int, buf, cv, true) {
                    assert(keys[k] == v[k].trigger);
                    assert(member(inc, k, v.len() as int));
                    assert(ts.contains(k as usize));
                    let x = choose|x: int| 0 <= x < ts.len() && ts[x] == k as usize;
                    assert(ts[x] as int == k);
                    assert(x < t);
                    assert(!pass_candidate(v, ts[x] as int, trigger_len as int, buf, cv, true));
                }
            }
        }
        offset = offset + 1;
    }
    proof {
        assert forall|k: int, len: int| !pass_candidate(v, k, len, buf, cv, true) by {
            if pass_candidate(v, k, len, buf, cv, true) {
                assert(v[k].trigger.len() <= max_len || v[k].trigger.len() > buf.len());
            }
        }
    }
    None
}

/// Among the snippets listed (in increasing order), returns the first that
/// is not case-preserving and fires on the last `len` characters.
fn first_firing_in(
    list: &Vec<usize>,
    snippets: &Vec<Snippet>,
    buffer_chars: &Vec<char>,
    suffix: &String,
    delimiter_char: Option<char>,
    len: usize,
    ctx: &MatchContext,
) -> (r: Option<usize>)
    requires
        forall|x: int| 0 <= x < list@.len() ==> #[trigger] list@[x] < snippets@.len(),
        forall|x: int, y: int| 0 <= x < y < list@.len() ==> #[trigger] list@[x] < #[trigger] list@[y],
        1 <= len <= buffer_chars@.len(),
        suffix@ == tail(buffer_chars@, len as int),
        delimiter_char == preceding(buffer_chars@, len as int),
    ensures
        match r {
            Some(k) => {
                &&& list@.contains(k)
                &&& pass_candidate(snippet_views(snippets@), k as int, len as int, buffer_chars@, ctx@, false)
                &&& forall|x: int|
                    0 <= x < list@.len() && pass_candidate(
                        snippet_views(snippets@),
                        #[trigger] list@[x] as int,
                        len as int,
                        buffer_chars@,
                        ctx@,
                        false,
                    ) ==> k <= list@[x]
            },
            None => forall|x: int|
                0 <= x < list@.len() ==> !pass_candidate(
                    snippet_views(snippets@),
                    #[trigger] list@[x] as int,
                    len as int,
                    buffer_chars@,
                    ctx@,
                    false,
                ),
        },
{
    let ghost v = snippet_views(snippets@);
    let ghost buf = buffer_chars@;
    let ghost cv = ctx@;
    let mut t: usize = 0;
    while t < list.len()
        invariant
            forall|x: int| 0 <= x < list@.len() ==> #[trigger] list@[x] < snippets@.len(),
            forall|x: int, y: int| 0 <= x < y < list@.len() ==> #[trigger] list@[x] < #[trigger] list@[y],
            1 <= len <= buffer_chars@.len(),
            suffix@ == tail(buffer_chars@, len as int),
            delimiter_char == preceding(buffer_chars@, len as int),
            v == snippet_views(snippets@),
            buf == buffer_chars@,
            cv == ctx@,
            t <= list@.len(),
            forall|x: int|
                0 <= x < t ==> !pass_candidate(v, #[trigger] list@[x] as int, len as int, buf, cv, false),
        decreases list@.len() - t,
    {
        let idx = list[t];
        let snippet = &snippets[idx];
        assert(v[idx as int] == snippet@);
        if snippet.case_mode != CaseMode::Preserve && snippet.enabled && chars_of(
            snippet.trigger.as_str(),
        ).len() == len && matches_scope(snippet, ctx) && matches_delimiter(
            delimiter_char,
            &snippet.delimiter_mode,
        ) && matches_case_mode(suffix.as_str(), &snippet.case_mode, snippet.trigger.as_str()) {
            proof {
                assert(list@[t as int] == idx);
                assert(list@.contains(idx));
                assert forall|x: int|
                    0 <= x < list@.len() && pass_candidate(
                        v,
                        #[trigger] list@[x] as int,
                        len as int,
                        buf,
                        cv,
                        false,
                    ) implies idx <= list@[x] by {
                    if x > t {
                        assert(list@[t as int] < list@[x]);
                    }
                }
            }
            return Some(idx);
        }
        t = t + 1;
    }
    None
}

/// Among the snippets that are not case-preserving and whose trigger has
/// `len` characters, returns the first in rank order whose checks pass. The
/// upper- and lower-case ones are looked up under the typed text, the
/// smart-case ones under its lowercase.
fn first_folded_at(
    typed_trie: &Vec<TrieNode>,
    Ghost(typed_paths): Ghost<Seq<Seq<char>>>,
    smart_trie: &Vec<TrieNode>,
    Ghost(smart_paths): Ghost<Seq<Seq<char>>>,
    snippets: &Vec<Snippet>,
    buffer_chars: &Vec<char>,
    len: usize,
    ctx: &MatchContext,
) -> (r: Option<usize>)
    requires
        trie_wf(
            typed_trie@,
            typed_paths,
            typed_keys(snippet_views(snippets@)),
            typed_members(snippet_views(snippets@)),
            snippets@.len() as int,
        ),
        trie_wf(
            smart_trie@,
            smart_paths,
            smart_keys(snippet_views(snippets@)),
            smart_members(snippet_views(snippets@)),
            snippets@.len() as int,
        ),
        1 <= len <= buffer_chars@.len(),
    ensures
        match r {
            Some(k) => pass_first_at(snippet_views(snippets@), k as int, len as int, buffer_chars@, ctx@, false),
            None => forall|k: int|
                !#[trigger] pass_candidate(snippet_views(snippets@), k, len as int, buffer_chars@, ctx@, false),
        },
{
    let ghost v = snippet_views(snippets@);
    let ghost buf = buffer_chars@;
    let ghost cv = ctx@;
    let ghost n = v.len() as int;
    let total_len = buffer_chars.len();
    assert(v.len() == snippets.len());
    let start = total_len - len;
    let suffix = text_from(buffer_chars, start);
    let delimiter_char = if start == 0 {
        None
    } else {
        Some(buffer_chars[start - 1])
    };
    assert(delimiter_char == preceding(buf, len as int));
    let typed_text = chars_of(suffix.as_str());
    let lowered = to_lowercase(suffix.as_str());
    let smart_text = chars_of(lowered.as_str());
    let a = match find_node(
        typed_trie,
        Ghost(typed_paths),
        &typed_text,
        Ghost(typed_keys(v)),
        Ghost(typed_members(v)),
        Ghost(n),
    ) {
        Some(node) => {
            proof {
                assert(crate::trie::terminals_ok(
                    typed_trie@[node as int].terminals@,
                    typed_paths[node as int],
                    typed_keys(v),
                    typed_members(v),
                    n,
                ));
            }
            first_firing_in(
                &typed_trie[node].terminals,
                snippets,
                buffer_chars,
                &suffix,
                delimiter_char,
                len,
                ctx,
            )
        },
        None => None,
    };
    let b = match find_node(
        smart_trie,
        Ghost(smart_paths),
        &smart_text,
        Ghost(smart_keys(v)),
        Ghost(smart_members(v)),
        Ghost(n),
    ) {
        Some(node) => {
            proof {
                assert(crate::trie::terminals_ok(
                    smart_trie@[node as int].terminals@,
                    smart_paths[node as int],
                    smart_keys(v),
                    smart_members(v),
                    n,
                ));
            }
            first_firing_in(
                &smart_trie[node].terminals,
                snippets,
                buffer_chars,
                &suffix,
                delimiter_char,
                len,
                ctx,
            )
        },
        None => None,
    };
    proof {
        assert forall|k: int| #[trigger] pass_candidate(v, k, len as int, buf, cv, false) implies {
            &&& (v[k].case_mode == CaseMode::Upper || v[k].case_mode == CaseMode::Lower) ==> (a matches Some(ka) && ka <= k)
            &&& v[k].case_mode == CaseMode::Smart ==> (b matches Some(kb) && kb <= k)
        } by {
            if v[k].case_mode == CaseMode::Upper || v[k].case_mode == CaseMode::Lower {
                assert(typed_keys(v)[k] == typed_text@);
                assert(crate::trie::member(typed_members(v), k, n));
            } else if v[k].case_mode == CaseMode::Smart {
                assert(smart_keys(v)[k] == smart_text@);
                assert(crate::trie::member(smart_members(v), k, n));
            }
        }
    }
    match (a, b) {
        (Some(ka), Some(kb)) => {
            if ka < kb {
                Some(ka)
            } else {
                Some(kb)
            }
        },
        (Some(ka), None) => Some(ka),
        (None, Some(kb)) => Some(kb),
        (None, None) => None,
    }
}

/// Among the snippets that are not case-preserving, returns the first whose
/// checks pass, shorter triggers first and, at each length, in rank order,
/// with its trigger length.
fn match_by_length(
    typed_trie: &Vec<TrieNode>,
    Ghost(typed_paths): Ghost<Seq<Seq<char>>>,
    smart_trie: &Vec<TrieNode>,
    Ghost(smart_paths): Ghost<Seq<Seq<char>>>,
    snippets: &Vec<Snippet>,
    buffer_chars: &Vec<char>,
    max_len: usize,
    ctx: &MatchContext,
) -> (r: Option<(usize, usize)>)
    requires
        trie_wf(
            typed_trie@,
            typed_paths,
            typed_keys(snippet_views(snippets@)),
            typed_members(snippet_views(snippets@)),
            snippets@.len() as int,
        ),
        trie_wf(
            smart_trie@,
            smart_paths,
            smart_keys(snippet_views(snippets@)),
            smart_members(snippet_views(snippets@)),
            snippets@.len() as int,
        ),
        max_len <= buffer_chars@.len(),
        forall|k: int|
            0 <= k < snippets@.len() ==> #[trigger] snippet_views(snippets@)[k].trigger.len()
                <= max_len || snippet_views(snippets@)[k].trigger.len() > buffer_chars@.len(),
    ensures
        match r {
            Some(w) => pass_first(snippet_views(snippets@), w.0 as int, w.1 as int, buffer_chars@, ctx@, false),
            None => forall|k: int, len: int|
                !pass_candidate(snippet_views(snippets@), k, len, buffer_chars@, ctx@, false),
        },
{
    let ghost v = snippet_views(snippets@);
    let ghost buf = buffer_chars@;
    let ghost cv = ctx@;
    let mut step: usize = 0;
    while step < max_len
        invariant
            trie_wf(typed_trie@, typed_paths, typed_keys(v), typed_members(v), v.len() as int),
            trie_wf(smart_trie@, smart_paths, smart_keys(v), smart_members(v), v.len() as int),
            v == snippet_views(snippets@),
            buf == buffer_chars@,
            cv == ctx@,
            max_len <= buf.len(),
            step <= max_len,
            forall|k: int, l: int|
                1 <= l <= step ==> !#[trigger] pass_candidate(v, k, l, buf, cv, false),
        decreases max_len - step,
    {
        let len = step + 1;
        match first_folded_at(
            typed_trie,
            Ghost(typed_paths),
            smart_trie,
            Ghost(smart_paths),
            snippets,
            buffer_chars,
            len,
            ctx,
        ) {
            Some(k) => {
                proof {
                    assert forall|k2: int, len2: int|
                        #[trigger] pass_candidate(v, k2, len2, buf, cv, false) implies len < len2 || (
                        len == len2 && k <= k2) by {
                        if len2 < len {
                            assert(1 <= len2 <= step);
                        }
                    }
                }
                return Some((k, len));
            },
            None => {},
        }
        step = step + 1;
    }
    proof {
        assert forall|k: int, l: int| !pass_candidate(v, k, l, buf, cv, false) by {
            if pass_candidate(v, k, l, buf, cv, false) {
                assert(v[k].trigger.len() <= max_len || v[k].trigger.len() > buf.len());
            }
        }
    }
    None
}

impl Matcher {
    /// Attempt to match the tail of `buffer` against loaded snippets.
    ///
    /// Returns `None` when the context is secure, IME is active, or no trigger matches.
    pub fn match_buffer(&self, buffer: &str, ctx: &MatchContext) -> (r: Option<MatchResult>)
        ensures
            opt_result(r) == expected_match(self@, buffer@, ctx@),
    {
        proof {
            use_type_invariant(self);
        }
        if ctx.is_secure || ctx.ime_active {
            return None;
        }
        let buffer_chars = chars_of(buffer);
        let total_len = buffer_chars.len();
        let max_len = if self.max_trigger_len < total_len {
            self.max_trigger_len
        } else {
            total_len
        };
        let ghost v = self@;
        let ghost buf = buffer_chars@;
        let ghost cv = ctx@;
        assert forall|k: int|
            0 <= k < self.snippets@.len() implies #[trigger] snippet_views(self.snippets@)[k].trigger.len()
            <= max_len || snippet_views(self.snippets@)[k].trigger.len() > buffer_chars@.len() by {
            assert(v[k].trigger.len() <= self.max_trigger_len);
        }
        let exact = match_with_trie(
            &self.exact_trie,
            Ghost(self.exact_paths@),
            &self.snippets,
            &buffer_chars,
            max_len,
            ctx,
        );
        let best: Option<usize> = match exact {
            Some(e) => {
                let (ke, le) = e;
                let folded = first_folded_at(
                    &self.typed_trie,
                    Ghost(self.typed_paths@),
                    &self.smart_trie,
                    Ghost(self.smart_paths@),
                    &self.snippets,
                    &buffer_chars,
                    le,
                    ctx,
                );
                let k = match folded {
                    Some(kf) => if kf < ke {
                        kf
                    } else {
                        ke
                    },
                    None => ke,
                };
                proof {
                    assert(exact_fires(v, buf, cv));
                    assert forall|k2: int| #[trigger] candidate(v, k2, le as int, buf, cv) implies k
                        <= k2 by {
                        if v[k2].case_mode == CaseMode::Preserve {
                            assert(pass_candidate(v, k2, le as int, buf, cv, true));
                        } else {
                            assert(pass_candidate(v, k2, le as int, buf, cv, false));
                        }
                    }
                    assert(first_at(v, k as int, le as int, buf, cv));
                    assert(winner(v, k as int, le as int, buf, cv));
                    lemma_found(v, k as int, le as int, buf, cv);
                }
                Some(k)
            },
            None => {
                proof {
                    if exact_fires(v, buf, cv) {
                        let (a, b) = choose|a: int, b: int| pass_first(v, a, b, buf, cv, true);
                        assert(pass_candidate(v, a, b, buf, cv, true));
                    }
                }
                match match_by_length(
                    &self.typed_trie,
                    Ghost(self.typed_paths@),
                    &self.smart_trie,
                    Ghost(self.smart_paths@),
                    &self.snippets,
                    &buffer_chars,
                    max_len,
                    ctx,
                ) {
                    Some(w) => {
                        proof {
                            assert(winner(v, w.0 as int, w.1 as int, buf, cv));
                            lemma_found(v, w.0 as int, w.1 as int, buf, cv);
                        }
                        Some(w.0)
                    },
                    None => {
                        proof {
                            assert forall|k: int, len: int| !winner(v, k, len, buf, cv) by {
                                if winner(v, k, len, buf, cv) {
                                    assert(pass_candidate(v, k, len, buf, cv, false));
                                }
                            }
                        }
                        None
                    },
                }
            },
        };
        match best {
            Some(k) => {
                let snippet = &self.snippets[k];
                proof {
                    assert(v[k as int] == snippet@);
                }
                Some(
                    MatchResult {
                        snippet_id: snippet.id,
                        trigger: snippet.trigger.clone(),
                        content: snippet.content.clone(),
                    },
                )
            },
            None => None,
        }
    }
}

// ---------------------------------------------------------------------------
// Laws
// ---------------------------------------------------------------------------

/// Snippet `s` may fire on the end of `buf`: it is enabled, the buffer holds
/// at least as many characters as its trigger, and the scope, delimiter and
/// case checks pass on the typed text of the trigger's length.
pub open spec fn fires(s: SnippetView, buf: Seq<char>, ctx: MatchContextView) -> bool {
    let len = s.trigger.len() as int;
    &&& s.enabled
    &&& 1 <= len <= buf.len()
    &&& scope_ok(s, ctx)
    &&& delimiter_ok(preceding(buf, len), s.delimiter_mode)
    &&& case_ok(tail(buf, len), s.case_mode, s.trigger)
}

/// In a secure field or while an input method is composing, nothing expands.
pub proof fn lemma_guarded_context_never_expands(
    snips: Seq<SnippetView>,
    buf: Seq<char>,
    ctx: MatchContextView,
)
    requires
        ctx.is_secure || ctx.ime_active,
    ensures
        expected_match(snips, buf, ctx) is None,
{
}

/// Whatever expands is one of the matcher's snippets, and that snippet fires
/// on the buffer: it is enabled, in scope, and its delimiter and case checks
/// pass.
pub proof fn lemma_match_fires(snips: Seq<SnippetView>, buf: Seq<char>, ctx: MatchContextView)
    requires
        expected_match(snips, buf, ctx) is Some,
    ensures
        !ctx.is_secure && !ctx.ime_active,
        exists|k: int|
            0 <= k < snips.len() && expected_match(snips, buf, ctx) == Some(result_of(snips[k]))
                && #[trigger] fires(snips[k], buf, ctx),
{
    let (k, len) = choose|k: int, len: int| winner(snips, k, len, buf, ctx);
    lemma_winner_first_at(snips, k, len, buf, ctx);
    assert(candidate(snips, k, len, buf, ctx));
    lemma_found(snips, k, len, buf, ctx);
    assert(fires(snips[k], buf, ctx));
}

/// Among the snippets that fire on a trigger of the winner's length,
/// whatever their case modes, the one that expands is ranked first: none of
/// the others has a higher priority, or the same priority and a later
/// update, or both and a smaller id.
pub proof fn lemma_highest_rank_wins(
    s: Seq<SnippetView>,
    buf: Seq<char>,
    ctx: MatchContextView,
    k: int,
    len: int,
    other: int,
)
    requires
        !ctx.is_secure && !ctx.ime_active,
        winner(ranked(s), k, len, buf, ctx),
        candidate(ranked(s), other, len, buf, ctx),
    ensures
        expected_match(ranked(s), buf, ctx) == Some(result_of(ranked(s)[k])),
        !ranks_before(ranked(s)[other], ranked(s)[k]),
        ranked(s)[other].priority <= ranked(s)[k].priority,
{
    lemma_ranked(s);
    lemma_found(ranked(s), k, len, buf, ctx);
    lemma_winner_first_at(ranked(s), k, len, buf, ctx);
    assert(k <= other);
    if k < other {
        assert(!ranks_before(ranked(s)[other], ranked(s)[k]));
    }
}

/// Only the end of the buffer matters: two buffers that end with the same
/// `w` characters, where `w` exceeds every trigger's length, give the same
/// match.
pub proof fn lemma_reads_only_window(
    snips: Seq<SnippetView>,
    b1: Seq<char>,
    b2: Seq<char>,
    ctx: MatchContextView,
    w: int,
)
    requires
        forall|k: int| 0 <= k < snips.len() ==> #[trigger] snips[k].trigger.len() < w,
        w <= b1.len(),
        w <= b2.len(),
        b1.subrange(b1.len() - w, b1.len() as int) == b2.subrange(b2.len() - w, b2.len() as int),
    ensures
        expected_match(snips, b1, ctx) == expected_match(snips, b2, ctx),
{
    let e1 = b1.subrange(b1.len() - w, b1.len() as int);
    let e2 = b2.subrange(b2.len() - w, b2.len() as int);
    assert forall|k: int, len: int|
        candidate(snips, k, len, b1, ctx) <==> candidate(snips, k, len, b2, ctx) by {
        if 0 <= k < snips.len() && snips[k].trigger.len() == len && 1 <= len {
            assert(len < w);
            assert(tail(b1, len) =~= tail(b2, len)) by {
                assert forall|x: int| 0 <= x < len implies tail(b1, len)[x] == tail(b2, len)[x] by {
                    assert(tail(b1, len)[x] == e1[w - len + x]);
                    assert(tail(b2, len)[x] == e2[w - len + x]);
                }
            }
            assert(b1[b1.len() - len - 1] == e1[w - len - 1]);
            assert(b2[b2.len() - len - 1] == e2[w - len - 1]);
            assert(preceding(b1, len) == preceding(b2, len));
        }
    }
    assert forall|k: int, len: int, exact: bool|
        pass_first(snips, k, len, b1, ctx, exact) <==> pass_first(snips, k, len, b2, ctx, exact) by {
        assert forall|k2: int, len2: int|
            pass_candidate(snips, k2, len2, b1, ctx, exact) <==> pass_candidate(
                snips,
                k2,
                len2,
                b2,
                ctx,
                exact,
            ) by {
            assert(candidate(snips, k2, len2, b1, ctx) <==> candidate(snips, k2, len2, b2, ctx));
        }
    }
    assert(exact_fires(snips, b1, ctx) <==> exact_fires(snips, b2, ctx)) by {
        if exact_fires(snips, b1, ctx) {
            let (a, b) = choose|a: int, b: int| pass_first(snips, a, b, b1, ctx, true);
            assert(pass_first(snips, a, b, b2, ctx, true));
        }
        if exact_fires(snips, b2, ctx) {
            let (a, b) = choose|a: int, b: int| pass_first(snips, a, b, b2, ctx, true);
            assert(pass_first(snips, a, b, b1, ctx, true));
        }
    }
    assert forall|k: int, len: int| winner(snips, k, len, b1, ctx) <==> winner(snips, k, len, b2, ctx) by {
        assert(first_at(snips, k, len, b1, ctx) <==> first_at(snips, k, len, b2, ctx)) by {
            assert forall|k2: int|
                candidate(snips, k2, len, b1, ctx) <==> candidate(snips, k2, len, b2, ctx) by {}
        }
        if exact_fires(snips, b1, ctx) {
            if winner(snips, k, len, b1, ctx) {
                let ke = choose|ke: int| pass_first(snips, ke, len, b1, ctx, true);
                assert(pass_first(snips, ke, len, b2, ctx, true));
            }
            if winner(snips, k, len, b2, ctx) {
                let ke = choose|ke: int| pass_first(snips, ke, len, b2, ctx, true);
                assert(pass_first(snips, ke, len, b1, ctx, true));
            }
        }
    }
    if !ctx.is_secure && !ctx.ime_active {
        if exists|k: int, len: int| winner(snips, k, len, b1, ctx) {
            let (k, len) = choose|k: int, len: int| winner(snips, k, len, b1, ctx);
            assert(winner(snips, k, len, b2, ctx));
            lemma_found(snips, k, len, b1, ctx);
            lemma_found(snips, k, len, b2, ctx);
        } else if exists|k: int, len: int| winner(snips, k, len, b2, ctx) {
            let (k, len) = choose|k: int, len: int| winner(snips, k, len, b2, ctx);
            assert(winner(snips, k, len, b1, ctx));
        }
    }
}

/// Two rank-sorted lists of the same snippets, no two of which share an
/// id, are the same list.
proof fn lemma_rank_sorted_unique(x: Seq<SnippetView>, y: Seq<SnippetView>)
    requires
        rank_sorted(x),
        rank_sorted(y),
        x.to_multiset() == y.to_multiset(),
        forall|i: int, j: int| 0 <= i < j < x.len() ==> #[trigger] x[i].id != #[trigger] x[j].id,
    ensures
        x == y,
    decreases x.len(),
{
    broadcast use vstd::multiset::group_multiset_axioms;
    broadcast use vstd::seq_lib::group_to_multiset_ensures;

    x.to_multiset_ensures();
    y.to_multiset_ensures();
    if x.len() == 0 {
        assert(y.to_multiset().len() == 0);
        assert(y =~= x);
    } else {
        assert(x.to_multiset().contains(x[0]));
        assert(y.len() > 0);
        assert(y.to_multiset().contains(y[0]));
        let i = choose|i: int| 0 <= i < x.len() && x[i] == y[0];
        let j = choose|j: int| 0 <= j < y.len() && y[j] == x[0];
        if i > 0 && j > 0 {
            assert(!ranks_before(x[i], x[0]));
            assert(!ranks_before(y[j], y[0]));
            lemma_ranks_before_order(x[0], x[i], x[0]);
            assert(x[0].id == x[i].id);
        }
        assert(x[0] == y[0]);
        let x2 = x.drop_first();
        let y2 = y.drop_first();
        assert(x2.to_multiset() =~= x.to_multiset().remove(x[0])) by {
            assert(x =~= seq![x[0]] + x2);
            vstd::seq_lib::lemma_multiset_commutative(seq![x[0]], x2);
        }
        assert(y2.to_multiset() =~= y.to_multiset().remove(y[0])) by {
            assert(y =~= seq![y[0]] + y2);
            vstd::seq_lib::lemma_multiset_commutative(seq![y[0]], y2);
        }
        assert forall|a: int, b: int| 0 <= a < b < x2.len() implies #[trigger] x2[a].id
            != #[trigger] x2[b].id by {
            assert(x2[a] == x[a + 1] && x2[b] == x[b + 1]);
        }
        assert forall|a: int, b: int| 0 <= a < b < x2.len() implies !ranks_before(
            #[trigger] x2[b],
            #[trigger] x2[a],
        ) by {
            assert(x2[a] == x[a + 1] && x2[b] == x[b + 1]);
        }
        assert forall|a: int, b: int| 0 <= a < b < y2.len() implies !ranks_before(
            #[trigger] y2[b],
            #[trigger] y2[a],
        ) by {
            assert(y2[a] == y[a + 1] && y2[b] == y[b + 1]);
        }
        lemma_rank_sorted_unique(x2, y2);
        assert(x.len() == y.len()) by {
            vstd::seq_lib::to_multiset_len(x);
            vstd::seq_lib::to_multiset_len(y);
        }
        assert forall|i: int| 0 <= i < x.len() implies x[i] == y[i] by {
            if i > 0 {
                assert(x[i] == x2[i - 1]);
                assert(y[i] == y2[i - 1]);
            }
        }
        assert(x =~= y);
    }
}

/// The matcher's order does not depend on the order in which the snippets
/// were given, when no two share an id: any two arrangements of the same
/// snippets rank the same.
pub proof fn lemma_rank_ignores_input_order(s1: Seq<SnippetView>, s2: Seq<SnippetView>)
    requires
        s1.to_multiset() == s2.to_multiset(),
        forall|i: int, j: int| 0 <= i < j < s1.len() ==> #[trigger] s1[i].id != #[trigger] s1[j].id,
    ensures
        ranked(s1) == ranked(s2),
{
    broadcast use vstd::multiset::group_multiset_axioms;
    broadcast use vstd::seq_lib::group_to_multiset_ensures;

    lemma_ranked(s1);
    lemma_ranked(s2);
    let r = ranked(s1);
    s1.to_multiset_ensures();
    r.to_multiset_ensures();
    assert(s1.no_duplicates()) by {
        assert forall|i: int, j: int| 0 <= i < s1.len() && 0 <= j < s1.len() && i != j implies s1[i]
            != s1[j] by {
            if i < j {
                assert(s1[i].id != s1[j].id);
            } else {
                assert(s1[j].id != s1[i].id);
            }
        }
    }
    s1.lemma_multiset_has_no_duplicates();
    r.lemma_multiset_has_no_duplicates_conv();
    assert forall|a: int, b: int| 0 <= a < b < r.len() implies #[trigger] r[a].id
        != #[trigger] r[b].id by {
        assert(r.to_multiset().contains(r[a]));
        assert(r.to_multiset().contains(r[b]));
        let i = choose|i: int| 0 <= i < s1.len() && s1[i] == r[a];
        let j = choose|j: int| 0 <= j < s1.len() && s1[j] == r[b];
        assert(r[a] != r[b]);
        if i < j {
            assert(s1[i].id != s1[j].id);
        } else if j < i {
            assert(s1[j].id != s1[i].id);
        }
    }
    lemma_rank_sorted_unique(ranked(s1), ranked(s2));
}

/// A snippet without app rules is in scope everywhere. A snippet with app
/// rules is in scope exactly when one of its rules, at any position in the
/// list, is enabled, names the context's app, and either has no window
/// pattern or the context's window title contains that pattern.
pub proof fn lemma_scope_any_rule(s: SnippetView, ctx: MatchContextView)
    ensures
        s.scope.app_rules.len() == 0 ==> scope_ok(s, ctx),
        forall|i: int|
            0 <= i < s.scope.app_rules.len() && (#[trigger] s.scope.app_rules[i]).enabled
                && s.scope.app_rules[i].bundle_id == ctx.app_bundle_id && (
            s.scope.app_rules[i].window_title_pattern matches Some(p) ==> (ctx.window_title matches Some(
                title,
            ) && has_substring(title, p))) ==> scope_ok(s, ctx),
        scope_ok(s, ctx) && s.scope.app_rules.len() > 0 ==> exists|i: int|
            0 <= i < s.scope.app_rules.len() && (#[trigger] s.scope.app_rules[i]).enabled
                && s.scope.app_rules[i].bundle_id == ctx.app_bundle_id && (
            s.scope.app_rules[i].window_title_pattern matches Some(p) ==> (ctx.window_title matches Some(
                title,
            ) && has_substring(title, p))),
{
    assert forall|i: int|
        0 <= i < s.scope.app_rules.len() && (#[trigger] s.scope.app_rules[i]).enabled
            && s.scope.app_rules[i].bundle_id == ctx.app_bundle_id && (
        s.scope.app_rules[i].window_title_pattern matches Some(p) ==> (ctx.window_title matches Some(
            title,
        ) && has_substring(title, p))) implies scope_ok(s, ctx) by {
        assert(rule_applies(s.scope.app_rules[i], ctx));
    }
    if scope_ok(s, ctx) && s.scope.app_rules.len() > 0 {
        let i = choose|i: int|
            0 <= i < s.scope.app_rules.len() && #[trigger] rule_applies(s.scope.app_rules[i], ctx);
        assert(s.scope.app_rules[i].enabled);
    }
}

/// Whether a snippet is in scope does not depend on the order of its app
/// rules.
pub proof fn lemma_scope_ignores_rule_order(s1: SnippetView, s2: SnippetView, ctx: MatchContextView)
    requires
        s1.scope.app_rules.to_multiset() == s2.scope.app_rules.to_multiset(),
    ensures
        scope_ok(s1, ctx) == scope_ok(s2, ctx),
{
    broadcast use vstd::seq_lib::group_to_multiset_ensures;

    let r1 = s1.scope.app_rules;
    let r2 = s2.scope.app_rules;
    r1.to_multiset_ensures();
    r2.to_multiset_ensures();
    if scope_ok(s1, ctx) && r1.len() > 0 {
        let i = choose|i: int| 0 <= i < r1.len() && #[trigger] rule_applies(r1[i], ctx);
        assert(r1.to_multiset().contains(r1[i]));
        assert(r2.to_multiset().contains(r1[i]));
        let j = choose|j: int| 0 <= j < r2.len() && r2[j] == r1[i];
        assert(rule_applies(r2[j], ctx));
    }
    if scope_ok(s2, ctx) && r2.len() > 0 {
        let j = choose|j: int| 0 <= j < r2.len() && #[trigger] rule_applies(r2[j], ctx);
        assert(r2.to_multiset().contains(r2[j]));
        assert(r1.to_multiset().contains(r2[j]));
        let i = choose|i: int| 0 <= i < r1.len() && r1[i] == r2[j];
        assert(rule_applies(r1[i], ctx));
    }
    if r1.len() == 0 {
        assert(r1.to_multiset().len() == 0);
        assert(r2.len() == 0) by {
            if r2.len() > 0 {
                assert(r2.to_multiset().contains(r2[0]));
            }
        }
    }
    if r2.len() == 0 {
        assert(r2.to_multiset().len() == 0);
        assert(r1.len() == 0) by {
            if r1.len() > 0 {
                assert(r1.to_multiset().contains(r1[0]));
            }
        }
    }
}

/// How two snippets rank: the higher priority first; at equal priority the
/// one updated later in time (by seconds, then by nanoseconds within the
/// second) first; at equal priority and update time the smaller id first.
/// No other pair ranks.
pub proof fn lemma_rank_rules(a: SnippetView, b: SnippetView)
    ensures
        a.priority > b.priority ==> ranks_before(a, b),
        a.priority == b.priority && a.updated_at.0 > b.updated_at.0 ==> ranks_before(a, b),
        a.priority == b.priority && a.updated_at.0 == b.updated_at.0 && a.updated_at.1
            > b.updated_at.1 ==> ranks_before(a, b),
        a.priority == b.priority && a.updated_at.0 == b.updated_at.0 && a.updated_at.1
            == b.updated_at.1 && a.id < b.id ==> ranks_before(a, b),
        a.priority < b.priority ==> !ranks_before(a, b),
        a.priority == b.priority && a.updated_at.0 < b.updated_at.0 ==> !ranks_before(a, b),
        a.priority == b.priority && a.updated_at.0 == b.updated_at.0 && a.updated_at.1
            < b.updated_at.1 ==> !ranks_before(a, b),
        a.priority == b.priority && a.updated_at.0 == b.updated_at.0 && a.updated_at.1
            == b.updated_at.1 && a.id >= b.id ==> !ranks_before(a, b),
{
}

/// What may precede a trigger. Under the word-boundary mode: the start of
/// input, or exactly the characters that are neither Unicode letters or
/// digits nor `_` (so white space and punctuation are boundaries). Under
/// `Any`: anything. Under a custom set: exactly the characters of the set,
/// never the start of input.
pub proof fn lemma_delimiter_rules(c: char, chars: Seq<char>)
    ensures
        delimiter_ok(None, DelimiterModeView::WordBoundary),
        !alphanumeric(c) && c != '_' ==> delimiter_ok(Some(c), DelimiterModeView::WordBoundary),
        alphanumeric(c) || c == '_' ==> !delimiter_ok(Some(c), DelimiterModeView::WordBoundary),
        delimiter_ok(None, DelimiterModeView::Any),
        delimiter_ok(Some(c), DelimiterModeView::Any),
        !delimiter_ok(None, DelimiterModeView::Custom(chars)),
        delimiter_ok(Some(c), DelimiterModeView::Custom(chars)) == chars.contains(c),
{
}

/// What each case mode accepts as the typed text of a trigger: `Preserve`
/// exactly the trigger; `Upper` exactly its uppercase; `Lower` exactly its
/// lowercase; `Smart` the trigger itself and, with any text, every text with
/// the same lowercase.
pub proof fn lemma_case_rules(typed: Seq<char>, other: Seq<char>, trigger: Seq<char>)
    ensures
        case_ok(typed, CaseMode::Preserve, trigger) <==> typed == trigger,
        case_ok(typed, CaseMode::Upper, trigger) <==> typed == uppercase(trigger),
        case_ok(typed, CaseMode::Lower, trigger) <==> typed == lowercase(trigger),
        case_ok(trigger, CaseMode::Smart, trigger),
        lowercase(typed) == lowercase(other) ==> (case_ok(typed, CaseMode::Smart, trigger)
            <==> case_ok(other, CaseMode::Smart, trigger)),
{
}

} // verus!
