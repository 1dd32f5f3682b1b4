//! Snippet linting: duplicate triggers and priority shadowing.
//!
//! Snippets are grouped by trigger, groups in the order in which their
//! trigger first occurs. A group of two or more snippets yields a
//! `DuplicateTrigger` issue listing all their ids in increasing order and,
//! when the two highest-priority snippets of the group (ties broken by input
//! order) have overlapping scopes, a `ShadowedByPriority` issue naming those
//! two.

use vstd::prelude::*;

use crate::text::same_text;
use crate::model::{rule_views, snippet_views, AppRule, AppRuleView, Snippet, SnippetView};

verus! {

#[derive(Clone, Copy, Debug, PartialEq, Eq, Structural)]
pub enum LintKind {
    DuplicateTrigger,
    ShadowedByPriority,
}

#[derive(Clone, Debug)]
pub struct LintIssue {
    pub kind: LintKind,
    pub trigger: String,
    pub snippet_ids: Vec<u128>,
}

/// The mathematical value of a `LintIssue`.
pub struct LintIssueView {
    pub kind: LintKind,
    pub trigger: Seq<char>,
    pub snippet_ids: Seq<u128>,
}

impl View for LintIssue {
    type V = LintIssueView;

    open spec fn view(&self) -> LintIssueView {
        LintIssueView { kind: self.kind, trigger: self.trigger@, snippet_ids: self.snippet_ids@ }
    }
}

pub open spec fn issue_views(v: Seq<LintIssue>) -> Seq<LintIssueView> {
    v.map_values(|i: LintIssue| i@)
}

// ---------------------------------------------------------------------------
// Scope overlap
// ---------------------------------------------------------------------------

/// Two rules can admit the same context: both enabled, same bundle, and
/// window patterns that do not exclude each other.
pub open spec fn rules_overlap(a: AppRuleView, b: AppRuleView) -> bool {
    &&& a.enabled
    &&& b.enabled
    &&& a.bundle_id == b.bundle_id
    &&& match (a.window_title_pattern, b.window_title_pattern) {
        (None, _) => true,
        (_, None) => true,
        (Some(x), Some(y)) => x == y,
    }
}

/// An enabled rule overlaps one of `others`.
pub open spec fn rule_overlaps_any(rule: AppRuleView, others: Seq<AppRuleView>) -> bool {
    exists|j: int| 0 <= j < others.len() && #[trigger] rules_overlap(rule, others[j])
}

/// The scopes of two snippets overlap: one is unscoped, or some rule of the
/// first overlaps some rule of the second.
pub open spec fn scopes_overlap_spec(a: SnippetView, b: SnippetView) -> bool {
    ||| a.scope.app_rules.len() == 0
    ||| b.scope.app_rules.len() == 0
    ||| exists|i: int|
        0 <= i < a.scope.app_rules.len() && #[trigger] rule_overlaps_any(
            a.scope.app_rules[i],
            b.scope.app_rules,
        )
}

/// Whether `rule` is enabled and overlaps one of `others`.
pub fn app_rule_overlaps(rule: &AppRule, others: &[AppRule]) -> (r: bool)
    ensures
        r == rule_overlaps_any(rule@, rule_views(others@)),
{
    if !rule.enabled {
        assert forall|j: int| 0 <= j < others@.len() implies !#[trigger] rules_overlap(
            rule@,
            rule_views(others@)[j],
        ) by {}
        return false;
    }
    let mut j: usize = 0;
    while j < others.len()
        invariant
            rule.enabled,
            j <= others@.len(),
            forall|k: int| 0 <= k < j ==> !#[trigger] rules_overlap(rule@, rule_views(others@)[k]),
        decreases others@.len() - j,
    {
        let other = &others[j];
        assert(rule_views(others@)[j as int] == other@);
        if other.enabled && other.bundle_id == rule.bundle_id {
            let same = match (&rule.window_title_pattern, &other.window_title_pattern) {
                (None, _) | (_, None) => true,
                (Some(a), Some(b)) => same_text(a.as_str(), b.as_str()),
            };
            if same {
                assert(rules_overlap(rule@, rule_views(others@)[j as int]));
                return true;
            }
        }
        j = j + 1;
    }
    false
}

/// Whether the scopes of two snippets overlap.
fn scopes_overlap(a: &Snippet, b: &Snippet) -> (r: bool)
    ensures
        r == scopes_overlap_spec(a@, b@),
{
    if a.scope.app_rules.len() == 0 || b.scope.app_rules.len() == 0 {
        return true;
    }
    let rules = &a.scope.app_rules;
    let mut i: usize = 0;
    while i < rules.len()
        invariant
            rules@ == a.scope.app_rules@,
            i <= rules@.len(),
            forall|k: int|
                0 <= k < i ==> !#[trigger] rule_overlaps_any(
                    rule_views(rules@)[k],
                    rule_views(b.scope.app_rules@),
                ),
        decreases rules@.len() - i,
    {
        if app_rule_overlaps(&rules[i], b.scope.app_rules.as_slice()) {
            assert(rule_views(rules@)[i as int] == rules@[i as int]@);
            return true;
        }
        i = i + 1;
    }
    false
}

// ---------------------------------------------------------------------------
// Grouping by trigger
// ---------------------------------------------------------------------------

/// The distinct triggers of `s`, in order of first occurrence.
pub open spec fn distinct_triggers(s: Seq<SnippetView>) -> Seq<Seq<char>>
    decreases s.len(),
{
    if s.len() == 0 {
        Seq::empty()
    } else {
        let d = distinct_triggers(s.drop_last());
        if d.contains(s.last().trigger) {
            d
        } else {
            d.push(s.last().trigger)
        }
    }
}

/// The snippets of `s` with trigger `t`, in input order.
pub open spec fn group_of(s: Seq<SnippetView>, t: Seq<char>) -> Seq<SnippetView>
    decreases s.len(),
{
    if s.len() == 0 {
        Seq::empty()
    } else {
        let g = group_of(s.drop_last(), t);
        if s.last().trigger == t {
            g.push(s.last())
        } else {
            g
        }
    }
}

/// Position of the first snippet of highest priority: the head of a stable
/// sort by decreasing priority.
pub open spec fn top_index(g: Seq<SnippetView>) -> int
    decreases g.len(),
{
    if g.len() <= 1 {
        0
    } else {
        let j = top_index(g.drop_last());
        if g.last().priority > g[j].priority {
            g.len() - 1
        } else {
            j
        }
    }
}

/// Where `x` goes in an increasing list: after everything not above it.
pub open spec fn id_pos(sorted: Seq<u128>, x: u128) -> int
    decreases sorted.len(),
{
    if sorted.len() == 0 {
        0
    } else if x < sorted[0] {
        0
    } else {
        1 + id_pos(sorted.drop_first(), x)
    }
}

/// The ids in increasing order.
pub open spec fn sort_ids(ids: Seq<u128>) -> Seq<u128>
    decreases ids.len(),
{
    if ids.len() == 0 {
        ids
    } else {
        let r = sort_ids(ids.drop_last());
        r.insert(id_pos(r, ids.last()), ids.last())
    }
}

pub open spec fn ids_of(g: Seq<SnippetView>) -> Seq<u128> {
    g.map_values(|x: SnippetView| x.id)
}

/// The issues raised by one trigger group.
pub open spec fn issues_for(g: Seq<SnippetView>, t: Seq<char>) -> Seq<LintIssueView> {
    if g.len() <= 1 {
        Seq::empty()
    } else {
        let dup = LintIssueView {
            kind: LintKind::DuplicateTrigger,
            trigger: t,
            snippet_ids: sort_ids(ids_of(g)),
        };
        let a = top_index(g);
        let rest = g.remove(a);
        let b = top_index(rest);
        if scopes_overlap_spec(g[a], rest[b]) {
            seq![
                dup,
                LintIssueView {
                    kind: LintKind::ShadowedByPriority,
                    trigger: t,
                    snippet_ids: seq![g[a].id, rest[b].id],
                },
            ]
        } else {
            seq![dup]
        }
    }
}

/// The issues of the groups with triggers `ts`, in that order.
pub open spec fn issues_from(ts: Seq<Seq<char>>, s: Seq<SnippetView>) -> Seq<LintIssueView>
    decreases ts.len(),
{
    if ts.len() == 0 {
        Seq::empty()
    } else {
        issues_from(ts.drop_last(), s) + issues_for(group_of(s, ts.last()), ts.last())
    }
}

/// All issues of a snippet list.
pub open spec fn lint_spec(s: Seq<SnippetView>) -> Seq<LintIssueView> {
    issues_from(distinct_triggers(s), s)
}

proof fn lemma_distinct_triggers(s: Seq<SnippetView>)
    ensures
        distinct_triggers(s).no_duplicates(),
        forall|t: Seq<char>| #[trigger] group_of(s, t).len() > 0 ==> distinct_triggers(s).contains(t),
        forall|t: Seq<char>| #[trigger] distinct_triggers(s).contains(t) ==> group_of(s, t).len() > 0,
    decreases s.len(),
{
    if s.len() > 0 {
        let p = s.drop_last();
        lemma_distinct_triggers(p);
        let d = distinct_triggers(p);
        let x = s.last();
        assert forall|t: Seq<char>| #[trigger] group_of(s, t).len() > 0 implies distinct_triggers(
            s,
        ).contains(t) by {
            if t != x.trigger {
                assert(group_of(s, t) == group_of(p, t));
                assert(d.contains(t));
                if !d.contains(x.trigger) {
                    let k = choose|k: int| 0 <= k < d.len() && d[k] == t;
                    assert(distinct_triggers(s)[k] == t);
                }
            } else if !d.contains(t) {
                assert(distinct_triggers(s) == d.push(t));
                assert(distinct_triggers(s)[d.len() as int] == t);
            }
        }
        assert forall|t: Seq<char>| #[trigger] distinct_triggers(s).contains(t) implies group_of(
            s,
            t,
        ).len() > 0 by {
            if t != x.trigger {
                assert(group_of(s, t) == group_of(p, t));
                if !d.contains(t) {
                    let k = choose|k: int|
                        0 <= k < distinct_triggers(s).len() && distinct_triggers(s)[k] == t;
                    if !d.contains(x.trigger) {
                        assert(distinct_triggers(s) == d.push(x.trigger));
                        assert(k < d.len());
                    }
                    assert(d[k] == t);
                }
            } else {
                assert(group_of(s, t) == group_of(p, t).push(x));
            }
        }
        if !d.contains(x.trigger) {
            assert(distinct_triggers(s) == d.push(x.trigger));
            assert forall|a: int, b: int|
                0 <= a < distinct_triggers(s).len() && 0 <= b < distinct_triggers(s).len() && a
                    != b implies distinct_triggers(s)[a] != distinct_triggers(s)[b] by {
                if a == d.len() {
                    assert(d[b] != x.trigger);
                } else if b == d.len() {
                    assert(d[a] != x.trigger);
                }
            }
        }
    }
}

proof fn lemma_group_push(s: Seq<SnippetView>, x: SnippetView, t: Seq<char>)
    ensures
        group_of(s.push(x), t) == if x.trigger == t {
            group_of(s, t).push(x)
        } else {
            group_of(s, t)
        },
{
    assert(s.push(x).drop_last() =~= s);
}

// ---------------------------------------------------------------------------
// Executable lint
// ---------------------------------------------------------------------------

/// The views of the snippets at positions `idx`.
pub open spec fn members_view(idx: Seq<usize>, v: Seq<SnippetView>) -> Seq<SnippetView> {
    idx.map_values(|j: usize| v[j as int])
}

/// The index groups built so far describe the trigger groups of `v[..i]`.
pub open spec fn groups_ok(gs: Seq<Vec<usize>>, v: Seq<SnippetView>, i: int) -> bool {
    let pre = v.take(i);
    let d = distinct_triggers(pre);
    &&& gs.len() == d.len()
    &&& forall|g: int|
        0 <= g < gs.len() ==> {
            &&& #[trigger] gs[g]@.len() >= 1
            &&& forall|x: int| 0 <= x < gs[g]@.len() ==> gs[g]@[x] < i
            &&& members_view(gs[g]@, v) == group_of(pre, d[g])
            &&& v[gs[g]@[0] as int].trigger == d[g]
        }
}

/// Insertion sort of ids into increasing order.
fn sort_ids_exec(ids: Vec<u128>) -> (r: Vec<u128>)
    ensures
        r@ == sort_ids(ids@),
{
    let mut rest = ids;
    let ghost input = rest@;
    let mut sorted: Vec<u128> = Vec::new();
    let ghost mut done: int = 0;
    assert(sorted@ =~= sort_ids(input.take(0)));
    while rest.len() > 0
        invariant
            0 <= done <= input.len(),
            rest@ =~= input.skip(done),
            sorted@ == sort_ids(input.take(done)),
        decreases rest.len(),
    {
        assert(done < input.len());
        let x = rest.remove(0);
        assert(x == input[done]);
        let mut j: usize = 0;
        while j < sorted.len() && !(x < sorted[j])
            invariant
                j <= sorted@.len(),
                forall|k: int| 0 <= k < j ==> !(x < #[trigger] sorted@[k]),
            decreases sorted@.len() - j,
        {
            j = j + 1;
        }
        proof {
            lemma_id_pos(sorted@, x, j as int);
            assert(input.take(done + 1).drop_last() =~= input.take(done));
        }
        sorted.insert(j, x);
        proof {
            done = done + 1;
        }
    }
    assert(input.take(done) =~= input);
    sorted
}

proof fn lemma_id_pos(sorted: Seq<u128>, x: u128, j: int)
    requires
        0 <= j <= sorted.len(),
        forall|k: int| 0 <= k < j ==> !(x < #[trigger] sorted[k]),
        j == sorted.len() || x < sorted[j],
    ensures
        id_pos(sorted, x) == j,
    decreases sorted.len(),
{
    if sorted.len() > 0 && j > 0 {
        let rest = sorted.drop_first();
        assert forall|k: int| 0 <= k < j - 1 implies !(x < #[trigger] rest[k]) by {
            assert(rest[k] == sorted[k + 1]);
        }
        lemma_id_pos(rest, x, j - 1);
    }
}

/// Position (in `members`) of the first member of highest priority.
fn top_position(snippets: &[Snippet], members: &Vec<usize>) -> (r: usize)
    requires
        members@.len() >= 1,
        forall|x: int| 0 <= x < members@.len() ==> members@[x] < snippets@.len(),
    ensures
        r == top_index(members_view(members@, snippet_views(snippets@))),
        r < members@.len(),
{
    let ghost g = members_view(members@, snippet_views(snippets@));
    let mut best: usize = 0;
    let mut x: usize = 1;
    assert(g.take(1).len() == 1);
    while x < members.len()
        invariant
            g == members_view(members@, snippet_views(snippets@)),
            1 <= x <= members@.len(),
            best < x,
            best == top_index(g.take(x as int)),
            forall|y: int| 0 <= y < members@.len() ==> members@[y] < snippets@.len(),
        decreases members@.len() - x,
    {
        proof {
            let gt = g.take(x + 1);
            assert(gt.drop_last() =~= g.take(x as int));
            assert(gt.last() == g[x as int]);
            assert(gt[best as int] == g[best as int]);
        }
        assert(g[x as int] == snippets@[members@[x as int] as int]@);
        assert(g[best as int] == snippets@[members@[best as int] as int]@);
        if snippets[members[x]].priority > snippets[members[best]].priority {
            best = x;
        }
        x = x + 1;
    }
    assert(g.take(x as int) =~= g);
    best
}

pub fn lint_snippets(snippets: &[Snippet]) -> (issues: Vec<LintIssue>)
    ensures
        issue_views(issues@) == lint_spec(snippet_views(snippets@)),
{
    let ghost v = snippet_views(snippets@);
    let n = snippets.len();
    let mut groups: Vec<Vec<usize>> = Vec::new();
    let mut i: usize = 0;
    assert(distinct_triggers(v.take(0)) =~= Seq::<Seq<char>>::empty());
    while i < n
        invariant
            n == v.len(),
            v == snippet_views(snippets@),
            i <= n,
            groups_ok(groups@, v, i as int),
        decreases n - i,
    {
        let ghost pre = v.take(i as int);
        let ghost d = distinct_triggers(pre);
        let ghost x = v[i as int];
        proof {
            lemma_distinct_triggers(pre);
            assert(v.take(i + 1) =~= pre.push(x));
            assert(v.take(i + 1).drop_last() =~= pre);
            assert(x == snippets@[i as int]@);
        }
        let mut g: usize = 0;
        let mut found = false;
        while g < groups.len() && !found
            invariant
                groups_ok(groups@, v, i as int),
                v == snippet_views(snippets@),
                pre == v.take(i as int),
                d == distinct_triggers(pre),
                x == v[i as int],
                x == snippets@[i as int]@,
                i < n,
                n == v.len(),
                g <= groups@.len(),
                found ==> g < groups@.len() && d[g as int] == x.trigger,
                forall|h: int| 0 <= h < g ==> d[h] != x.trigger,
            decreases groups@.len() - g + (if found { 0int } else { 1int }),
        {
            assert(groups@[g as int]@.len() >= 1);
            let first = groups[g][0];
            assert(v[first as int] == snippets@[first as int]@);
            if same_text(snippets[first].trigger.as_str(), snippets[i].trigger.as_str()) {
                found = true;
            } else {
                g = g + 1;
            }
        }
        if found {
            let ghost old_groups = groups@;
            groups[g].push(i);
            proof {
                assert(distinct_triggers(v.take(i + 1)) == d);
                assert forall|h: int| 0 <= h < groups@.len() implies {
                    &&& #[trigger] groups@[h]@.len() >= 1
                    &&& forall|y: int| 0 <= y < groups@[h]@.len() ==> groups@[h]@[y] < i + 1
                    &&& members_view(groups@[h]@, v) == group_of(v.take(i + 1), d[h])
                    &&& v[groups@[h]@[0] as int].trigger == d[h]
                } by {
                    lemma_group_push(pre, x, d[h]);
                    if h == g {
                        assert(members_view(groups@[h]@, v) =~= members_view(old_groups[h]@, v).push(x));
                    } else {
                        assert(d[h] != d[g as int]);
                        assert(groups@[h] == old_groups[h]);
                    }
                }
            }
        } else {
            let mut fresh: Vec<usize> = Vec::new();
            fresh.push(i);
            let ghost old_groups = groups@;
            groups.push(fresh);
            proof {
                assert(!d.contains(x.trigger)) by {
                    if d.contains(x.trigger) {
                        let h = choose|h: int| 0 <= h < d.len() && d[h] == x.trigger;
                    }
                }
                assert(group_of(pre, x.trigger).len() == 0);
                assert(distinct_triggers(v.take(i + 1)) == d.push(x.trigger));
                let d2 = d.push(x.trigger);
                assert forall|h: int| 0 <= h < groups@.len() implies {
                    &&& #[trigger] groups@[h]@.len() >= 1
                    &&& forall|y: int| 0 <= y < groups@[h]@.len() ==> groups@[h]@[y] < i + 1
                    &&& members_view(groups@[h]@, v) == group_of(v.take(i + 1), d2[h])
                    &&& v[groups@[h]@[0] as int].trigger == d2[h]
                } by {
                    lemma_group_push(pre, x, d2[h]);
                    if h == d.len() {
                        assert(group_of(pre, x.trigger) =~= Seq::<SnippetView>::empty());
                        assert(members_view(groups@[h]@, v) =~= seq![x]);
                    } else {
                        assert(d2[h] == d[h]);
                        assert(groups@[h] == old_groups[h]);
                    }
                }
            }
        }
        i = i + 1;
    }
    assert(v.take(n as int) =~= v);
    let ghost d = distinct_triggers(v);
    let ghost total = groups@.len();
    let mut issues: Vec<LintIssue> = Vec::new();
    let ghost mut done: int = 0;
    assert(d.take(0) =~= Seq::<Seq<char>>::empty());
    while groups.len() > 0
        invariant
            v == snippet_views(snippets@),
            d == distinct_triggers(v),
            total == d.len(),
            0 <= done <= total,
            groups@.len() == total - done,
            forall|g: int|
                0 <= g < groups@.len() ==> {
                    &&& #[trigger] groups@[g]@.len() >= 1
                    &&& forall|x: int| 0 <= x < groups@[g]@.len() ==> groups@[g]@[x] < v.len()
                    &&& members_view(groups@[g]@, v) == group_of(v, d[done + g])
                    &&& v[groups@[g]@[0] as int].trigger == d[done + g]
                },
            issue_views(issues@) == issues_from(d.take(done), v),
        decreases groups@.len(),
    {
        let ghost gs_before = groups@;
        let members = groups.remove(0);
        let ghost gv = members_view(members@, v);
        let ghost t = d[done];
        assert(members == gs_before[0]);
        proof {
            assert(d.take(done + 1).drop_last() =~= d.take(done));
            assert(d.take(done + 1).last() == t);
        }
        if members.len() > 1 {
            let mut ids: Vec<u128> = Vec::new();
            let mut x: usize = 0;
            while x < members.len()
                invariant
                    gv == members_view(members@, v),
                    v == snippet_views(snippets@),
                    x <= members@.len(),
                    forall|y: int| 0 <= y < members@.len() ==> members@[y] < v.len(),
                    ids@ =~= ids_of(gv.take(x as int)),
                decreases members@.len() - x,
            {
                assert(v[members@[x as int] as int] == snippets@[members@[x as int] as int]@);
                ids.push(snippets[members[x]].id);
                x = x + 1;
            }
            assert(gv.take(x as int) =~= gv);
            let sorted_ids = sort_ids_exec(ids);
            assert(v[members@[0] as int] == snippets@[members@[0] as int]@);
            let trigger = snippets[members[0]].trigger.clone();
            let a = top_position(snippets, &members);
            let mut rest = members;
            let first = rest.remove(a);
            assert(members_view(rest@, v) =~= gv.remove(a as int));
            let b = top_position(snippets, &rest);
            let second = rest[b];
            assert(v[first as int] == snippets@[first as int]@);
            assert(v[second as int] == snippets@[second as int]@);
            assert(gv[a as int] == v[first as int]);
            assert(gv.remove(a as int)[b as int] == v[second as int]);
            let dup = LintIssue {
                kind: LintKind::DuplicateTrigger,
                trigger: trigger.clone(),
                snippet_ids: sorted_ids,
            };
            proof {
                assert(sorted_ids@ == sort_ids(ids_of(gv)));
                assert(gv[0] == v[members@[0] as int]);
                assert(trigger@ == t);
                assert(a == top_index(gv));
                assert(b == top_index(gv.remove(a as int)));
            }
            let ghost before = issues@;
            issues.push(dup);
            if scopes_overlap(&snippets[first], &snippets[second]) {
                let mut pair: Vec<u128> = Vec::new();
                pair.push(snippets[first].id);
                pair.push(snippets[second].id);
                let shadow = LintIssue { kind: LintKind::ShadowedByPriority, trigger, snippet_ids: pair };
                proof {
                    let g2 = gv.remove(a as int);
                    assert(scopes_overlap_spec(gv[a as int], g2[b as int]));
                    assert(shadow@.snippet_ids =~= seq![gv[a as int].id, g2[b as int].id]);
                    assert(issues_for(gv, t) =~= seq![issues@.last()@, shadow@]);
                }
                issues.push(shadow);
                assert(issue_views(issues@) =~= issue_views(before) + issues_for(gv, t));
            } else {
                assert(issue_views(issues@) =~= issue_views(before) + issues_for(gv, t));
            }
        } else {
            assert(issues_for(gv, t) =~= Seq::<LintIssueView>::empty());
            assert(issue_views(issues@) =~= issue_views(issues@) + issues_for(gv, t));
        }
        proof {
            assert forall|g: int| 0 <= g < groups@.len() implies {
                &&& #[trigger] groups@[g]@.len() >= 1
                &&& forall|x: int| 0 <= x < groups@[g]@.len() ==> groups@[g]@[x] < v.len()
                &&& members_view(groups@[g]@, v) == group_of(v, d[done + 1 + g])
                &&& v[groups@[g]@[0] as int].trigger == d[done + 1 + g]
            } by {
                assert(groups@[g] == gs_before[g + 1]);
                assert(gs_before[g + 1]@.len() >= 1);
            }
            done = done + 1;
        }
    }
    assert(d.take(done) =~= d);
    issues
}

// ---------------------------------------------------------------------------
// Laws
// ---------------------------------------------------------------------------

/// The ids of `s` are in non-decreasing order.
pub open spec fn ids_sorted(s: Seq<u128>) -> bool {
    forall|a: int, b: int| 0 <= a < b < s.len() ==> s[a] <= s[b]
}

proof fn lemma_id_pos_bounds(r: Seq<u128>, x: u128)
    requires
        ids_sorted(r),
    ensures
        0 <= id_pos(r, x) <= r.len(),
        forall|k: int| 0 <= k < id_pos(r, x) ==> r[k] <= x,
        forall|k: int| id_pos(r, x) <= k < r.len() ==> x < r[k],
    decreases r.len(),
{
    if r.len() > 0 && !(x < r[0]) {
        let rest = r.drop_first();
        lemma_id_pos_bounds(rest, x);
        assert forall|k: int| 0 <= k < id_pos(r, x) implies r[k] <= x by {
            if k > 0 {
                assert(r[k] == rest[k - 1]);
            }
        }
        assert forall|k: int| id_pos(r, x) <= k < r.len() implies x < r[k] by {
            assert(r[k] == rest[k - 1]);
        }
    }
}

/// Sorting ids gives them in non-decreasing order and keeps each id as often
/// as it occurs.
pub proof fn lemma_sort_ids(ids: Seq<u128>)
    ensures
        ids_sorted(sort_ids(ids)),
        sort_ids(ids).to_multiset() == ids.to_multiset(),
    decreases ids.len(),
{
    broadcast use vstd::seq_lib::to_multiset_build, vstd::seq_lib::to_multiset_insert;

    if ids.len() > 0 {
        let p = ids.drop_last();
        let x = ids.last();
        lemma_sort_ids(p);
        let r = sort_ids(p);
        lemma_id_pos_bounds(r, x);
        let q = id_pos(r, x);
        let out = r.insert(q, x);
        assert forall|a: int, b: int| 0 <= a < b < out.len() implies out[a] <= out[b] by {
            if b < q {
            } else if b == q {
                assert(out[a] == r[a]);
            } else if a < q {
                assert(out[b] == r[b - 1]);
            } else if a == q {
                assert(out[b] == r[b - 1]);
            } else {
                assert(out[a] == r[a - 1]);
                assert(out[b] == r[b - 1]);
            }
        }
        assert(ids == p.push(x));
    }
}

/// Whether `issues` hold a duplicate-trigger issue for `t`.
pub open spec fn reports_duplicate(issues: Seq<LintIssueView>, t: Seq<char>) -> bool {
    exists|k: int|
        0 <= k < issues.len() && (#[trigger] issues[k]).kind == LintKind::DuplicateTrigger
            && issues[k].trigger == t
}

proof fn lemma_issues_for_trigger(g: Seq<SnippetView>, u: Seq<char>, t: Seq<char>)
    ensures
        reports_duplicate(issues_for(g, u), t) <==> (u == t && g.len() >= 2),
{
    let is = issues_for(g, u);
    if u == t && g.len() >= 2 {
        assert(is[0].kind == LintKind::DuplicateTrigger);
    }
}

proof fn lemma_issues_from_duplicate(ts: Seq<Seq<char>>, s: Seq<SnippetView>, t: Seq<char>)
    ensures
        reports_duplicate(issues_from(ts, s), t) <==> (ts.contains(t) && group_of(s, t).len()
            >= 2),
    decreases ts.len(),
{
    if ts.len() > 0 {
        let p = ts.drop_last();
        let u = ts.last();
        lemma_issues_from_duplicate(p, s, t);
        lemma_issues_for_trigger(group_of(s, u), u, t);
        let a = issues_from(p, s);
        let b = issues_for(group_of(s, u), u);
        assert(issues_from(ts, s) == a + b);
        if reports_duplicate(a + b, t) {
            let k = choose|k: int|
                0 <= k < (a + b).len() && (#[trigger] (a + b)[k]).kind == LintKind::DuplicateTrigger
                    && (a + b)[k].trigger == t;
            if k < a.len() {
                assert(a[k] == (a + b)[k]);
                let j = choose|j: int| 0 <= j < p.len() && p[j] == t;
                assert(ts[j] == t);
            } else {
                assert(b[k - a.len()] == (a + b)[k]);
                assert(ts[ts.len() - 1] == t);
            }
        }
        if ts.contains(t) && group_of(s, t).len() >= 2 {
            let j = choose|j: int| 0 <= j < ts.len() && ts[j] == t;
            if j < p.len() {
                assert(p[j] == t);
                let k = choose|k: int|
                    0 <= k < a.len() && (#[trigger] a[k]).kind == LintKind::DuplicateTrigger
                        && a[k].trigger == t;
                assert((a + b)[k] == a[k]);
            } else {
                let k = choose|k: int|
                    0 <= k < b.len() && (#[trigger] b[k]).kind == LintKind::DuplicateTrigger
                        && b[k].trigger == t;
                assert((a + b)[a.len() + k] == b[k]);
            }
        }
    }
}

/// A duplicate-trigger issue is reported for a trigger exactly when two or
/// more snippets share it.
pub proof fn lemma_duplicate_reported(s: Seq<SnippetView>, t: Seq<char>)
    ensures
        reports_duplicate(lint_spec(s), t) <==> group_of(s, t).len() >= 2,
{
    lemma_distinct_triggers(s);
    lemma_issues_from_duplicate(distinct_triggers(s), s, t);
    if group_of(s, t).len() >= 2 {
        assert(group_of(s, t).len() > 0);
    }
}

/// Overlap of scopes does not depend on which snippet comes first.
pub proof fn lemma_scopes_overlap_symmetric(a: SnippetView, b: SnippetView)
    ensures
        scopes_overlap_spec(a, b) == scopes_overlap_spec(b, a),
{
    assert forall|x: AppRuleView, y: AppRuleView| #[trigger] rules_overlap(x, y) == rules_overlap(y, x) by {}
    if a.scope.app_rules.len() > 0 && b.scope.app_rules.len() > 0 {
        if scopes_overlap_spec(a, b) {
            let i = choose|i: int|
                0 <= i < a.scope.app_rules.len() && #[trigger] rule_overlaps_any(
                    a.scope.app_rules[i],
                    b.scope.app_rules,
                );
            let j = choose|j: int|
                0 <= j < b.scope.app_rules.len() && #[trigger] rules_overlap(
                    a.scope.app_rules[i],
                    b.scope.app_rules[j],
                );
            assert(rules_overlap(b.scope.app_rules[j], a.scope.app_rules[i]));
            assert(rule_overlaps_any(b.scope.app_rules[j], a.scope.app_rules));
        }
        if scopes_overlap_spec(b, a) {
            let i = choose|i: int|
                0 <= i < b.scope.app_rules.len() && #[trigger] rule_overlaps_any(
                    b.scope.app_rules[i],
                    a.scope.app_rules,
                );
            let j = choose|j: int|
                0 <= j < a.scope.app_rules.len() && #[trigger] rules_overlap(
                    b.scope.app_rules[i],
                    a.scope.app_rules[j],
                );
            assert(rules_overlap(a.scope.app_rules[j], b.scope.app_rules[i]));
            assert(rule_overlaps_any(a.scope.app_rules[j], b.scope.app_rules));
        }
    }
}

/// Rule overlap is symmetric, no rule overlaps an empty list, and a rule
/// overlaps a joined list exactly when it overlaps one of its parts.
pub proof fn lemma_rule_overlap_laws(
    a: AppRuleView,
    b: AppRuleView,
    xs: Seq<AppRuleView>,
    ys: Seq<AppRuleView>,
)
    ensures
        rule_overlaps_any(a, seq![b]) == rule_overlaps_any(b, seq![a]),
        !rule_overlaps_any(a, Seq::<AppRuleView>::empty()),
        rule_overlaps_any(a, xs + ys) == (rule_overlaps_any(a, xs) || rule_overlaps_any(a, ys)),
{
    if rule_overlaps_any(a, seq![b]) {
        assert(rules_overlap(a, seq![b][0]));
        assert(rules_overlap(b, seq![a][0]));
    }
    if rule_overlaps_any(b, seq![a]) {
        assert(rules_overlap(b, seq![a][0]));
        assert(rules_overlap(a, seq![b][0]));
    }
    let zs = xs + ys;
    if rule_overlaps_any(a, zs) {
        let j = choose|j: int| 0 <= j < zs.len() && #[trigger] rules_overlap(a, zs[j]);
        if j < xs.len() {
            assert(rules_overlap(a, xs[j]));
        } else {
            assert(zs[j] == ys[j - xs.len()]);
            assert(rules_overlap(a, ys[j - xs.len()]));
        }
    }
    if rule_overlaps_any(a, xs) {
        let j = choose|j: int| 0 <= j < xs.len() && #[trigger] rules_overlap(a, xs[j]);
        assert(rules_overlap(a, zs[j]));
    }
    if rule_overlaps_any(a, ys) {
        let j = choose|j: int| 0 <= j < ys.len() && #[trigger] rules_overlap(a, ys[j]);
        assert(zs[xs.len() + j] == ys[j]);
        assert(rules_overlap(a, zs[xs.len() + j]));
    }
}

/// The highest-priority position of a nonempty group: no member has a
/// higher priority, and every earlier member a lower one.
proof fn lemma_top_index(g: Seq<SnippetView>)
    requires
        g.len() >= 1,
    ensures
        0 <= top_index(g) < g.len(),
        forall|x: int| 0 <= x < g.len() ==> #[trigger] g[x].priority <= g[top_index(g)].priority,
        forall|x: int| 0 <= x < top_index(g) ==> #[trigger] g[x].priority < g[top_index(g)].priority,
    decreases g.len(),
{
    if g.len() > 1 {
        let p = g.drop_last();
        lemma_top_index(p);
        assert forall|x: int| 0 <= x < p.len() implies #[trigger] g[x] == p[x] by {}
    }
}

/// A snippet without app rules is active everywhere, so its scope overlaps
/// every other snippet's. When both have app rules, the scopes overlap
/// exactly when some rule of each is enabled, both name the same app, and
/// their window patterns are not two different texts.
pub proof fn lemma_scope_overlap_rules(a: SnippetView, b: SnippetView)
    ensures
        a.scope.app_rules.len() == 0 ==> scopes_overlap_spec(a, b),
        b.scope.app_rules.len() == 0 ==> scopes_overlap_spec(a, b),
        a.scope.app_rules.len() > 0 && b.scope.app_rules.len() > 0 ==> (scopes_overlap_spec(a, b)
            <==> exists|i: int, j: int|
            0 <= i < a.scope.app_rules.len() && 0 <= j < b.scope.app_rules.len() && (
            #[trigger] a.scope.app_rules[i]).enabled && (#[trigger] b.scope.app_rules[j]).enabled
                && a.scope.app_rules[i].bundle_id == b.scope.app_rules[j].bundle_id && (
            a.scope.app_rules[i].window_title_pattern is None
                || b.scope.app_rules[j].window_title_pattern is None
                || a.scope.app_rules[i].window_title_pattern == b.scope.app_rules[j].window_title_pattern)),
{
    let ra = a.scope.app_rules;
    let rb = b.scope.app_rules;
    if ra.len() > 0 && rb.len() > 0 {
        if scopes_overlap_spec(a, b) {
            let i = choose|i: int| 0 <= i < ra.len() && #[trigger] rule_overlaps_any(ra[i], rb);
            let j = choose|j: int| 0 <= j < rb.len() && #[trigger] rules_overlap(ra[i], rb[j]);
            assert(ra[i].enabled && rb[j].enabled);
        }
        if exists|i: int, j: int|
            0 <= i < ra.len() && 0 <= j < rb.len() && (#[trigger] ra[i]).enabled && (
            #[trigger] rb[j]).enabled && ra[i].bundle_id == rb[j].bundle_id && (
            ra[i].window_title_pattern is None || rb[j].window_title_pattern is None
                || ra[i].window_title_pattern == rb[j].window_title_pattern) {
            let (i, j) = choose|i: int, j: int|
                0 <= i < ra.len() && 0 <= j < rb.len() && (#[trigger] ra[i]).enabled && (
                #[trigger] rb[j]).enabled && ra[i].bundle_id == rb[j].bundle_id && (
                ra[i].window_title_pattern is None || rb[j].window_title_pattern is None
                    || ra[i].window_title_pattern == rb[j].window_title_pattern);
            assert(rules_overlap(ra[i], rb[j]));
            assert(rule_overlaps_any(ra[i], rb));
        }
    }
}

/// The issues raised for a group of two or more snippets sharing a
/// trigger: first a duplicate-trigger issue listing every member's id in
/// increasing order; then, exactly when their scopes overlap, a shadowing
/// issue naming two different members: first the member of highest
/// priority (the earliest among equals), then the member of highest
/// priority among the others (likewise).
pub proof fn lemma_group_issues(g: Seq<SnippetView>, t: Seq<char>)
    requires
        g.len() >= 2,
    ensures
        issues_for(g, t)[0].kind == LintKind::DuplicateTrigger,
        issues_for(g, t)[0].trigger == t,
        issues_for(g, t)[0].snippet_ids.to_multiset() == ids_of(g).to_multiset(),
        ids_sorted(issues_for(g, t)[0].snippet_ids),
        exists|a: int, b: int|
            {
                &&& 0 <= a < g.len()
                &&& 0 <= b < g.len()
                &&& a != b
                &&& forall|x: int| 0 <= x < g.len() ==> #[trigger] g[x].priority <= g[a].priority
                &&& forall|x: int| 0 <= x < a ==> #[trigger] g[x].priority < g[a].priority
                &&& forall|x: int|
                    0 <= x < g.len() && x != a ==> #[trigger] g[x].priority <= g[b].priority
                &&& forall|x: int|
                    0 <= x < b && x != a ==> #[trigger] g[x].priority < g[b].priority
                &&& issues_for(g, t).len() == (if scopes_overlap_spec(g[a], g[b]) {
                    2int
                } else {
                    1int
                })
                &&& issues_for(g, t).len() == 2 ==> {
                    &&& issues_for(g, t)[1].kind == LintKind::ShadowedByPriority
                    &&& issues_for(g, t)[1].trigger == t
                    &&& issues_for(g, t)[1].snippet_ids == seq![g[a].id, g[b].id]
                }
            },
{
    lemma_sort_ids(ids_of(g));
    let a = top_index(g);
    lemma_top_index(g);
    let rest = g.remove(a);
    let bi = top_index(rest);
    lemma_top_index(rest);
    let b = if bi < a {
        bi
    } else {
        bi + 1
    };
    assert(rest[bi] == g[b]);
    assert forall|x: int| 0 <= x < g.len() && x != a implies #[trigger] g[x].priority
        <= g[b].priority by {
        if x < a {
            assert(rest[x] == g[x]);
        } else {
            assert(rest[x - 1] == g[x]);
        }
    }
    assert forall|x: int| 0 <= x < b && x != a implies #[trigger] g[x].priority < g[b].priority by {
        if x < a {
            assert(rest[x] == g[x]);
            assert(x < bi);
        } else {
            assert(rest[x - 1] == g[x]);
            assert(x - 1 < bi);
        }
    }
}

} // verus!
