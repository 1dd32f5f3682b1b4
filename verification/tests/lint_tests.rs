use salsa::clock::Timestamp;
use salsa::lint::{app_rule_overlaps, lint_snippets, LintKind};
use salsa::model::{AppRule, CaseMode, ContentType, DelimiterMode, ScopeRule, Snippet};

fn snippet(trigger: &str, priority: i32) -> Snippet {
    Snippet {
        id: uuid::Uuid::new_v4().as_u128(),
        trigger: trigger.to_string(),
        label: "label".to_string(),
        content: "content".to_string(),
        content_type: ContentType::PlainText,
        tags: vec![],
        enabled: true,
        case_mode: CaseMode::Preserve,
        delimiter_mode: DelimiterMode::Any,
        scope: ScopeRule {
            app_rules: vec![],
            profile_id: None,
        },
        priority,
        created_at: Timestamp::now(),
        updated_at: Timestamp::now(),
    }
}

fn rule(bundle: &str, pattern: Option<&str>, enabled: bool) -> AppRule {
    AppRule {
        bundle_id: bundle.to_string(),
        window_title_pattern: pattern.map(|p| p.to_string()),
        enabled,
    }
}

#[test]
fn detects_duplicate_trigger() {
    let a = snippet(";sig", 0);
    let b = snippet(";sig", 1);
    let issues = lint_snippets(&[a, b]);
    assert!(issues.iter().any(|issue| issue.kind == LintKind::DuplicateTrigger));
}

#[test]
fn distinct_triggers_raise_nothing() {
    let issues = lint_snippets(&[snippet(";a", 0), snippet(";b", 0), snippet(";c", 0)]);
    assert!(issues.is_empty());
    assert!(lint_snippets(&[]).is_empty());
}

#[test]
fn duplicate_lists_sorted_ids_and_shadowing_pair() {
    let mut a = snippet(";sig", 1);
    a.id = 30;
    let mut b = snippet(";sig", 7);
    b.id = 10;
    let mut c = snippet(";sig", 3);
    c.id = 20;
    let issues = lint_snippets(&[a, b, c]);
    assert_eq!(issues.len(), 2);
    assert_eq!(issues[0].kind, LintKind::DuplicateTrigger);
    assert_eq!(issues[0].trigger, ";sig");
    assert_eq!(issues[0].snippet_ids, vec![10, 20, 30]);
    assert_eq!(issues[1].kind, LintKind::ShadowedByPriority);
    assert_eq!(issues[1].trigger, ";sig");
    assert_eq!(issues[1].snippet_ids, vec![10, 20]);
}

#[test]
fn equal_priorities_keep_input_order() {
    let mut a = snippet(";x", 2);
    a.id = 5;
    let mut b = snippet(";x", 2);
    b.id = 4;
    let issues = lint_snippets(&[a, b]);
    assert_eq!(issues[1].snippet_ids, vec![5, 4]);
}

#[test]
fn disjoint_scopes_are_not_shadowed() {
    let mut a = snippet(";sig", 1);
    a.scope.app_rules.push(rule("com.mail", None, true));
    let mut b = snippet(";sig", 2);
    b.scope.app_rules.push(rule("com.notes", None, true));
    let issues = lint_snippets(&[a, b]);
    assert_eq!(issues.len(), 1);
    assert_eq!(issues[0].kind, LintKind::DuplicateTrigger);
}

#[test]
fn groups_come_in_order_of_first_occurrence() {
    let issues = lint_snippets(&[
        snippet(";b", 0),
        snippet(";a", 0),
        snippet(";a", 0),
        snippet(";b", 0),
    ]);
    let dups: Vec<&str> = issues
        .iter()
        .filter(|i| i.kind == LintKind::DuplicateTrigger)
        .map(|i| i.trigger.as_str())
        .collect();
    assert_eq!(dups, vec![";b", ";a"]);
}

#[test]
fn rule_overlap() {
    let r = rule("com.mail", None, true);
    assert!(app_rule_overlaps(&r, &[rule("com.mail", Some("x"), true)]));
    assert!(!app_rule_overlaps(&r, &[rule("com.mail", None, false)]));
    assert!(!app_rule_overlaps(&r, &[rule("com.notes", None, true)]));
    assert!(!app_rule_overlaps(&rule("com.mail", None, false), &[rule("com.mail", None, true)]));
    let p = rule("com.mail", Some("Compose"), true);
    assert!(app_rule_overlaps(&p, &[rule("com.mail", Some("Compose"), true)]));
    assert!(!app_rule_overlaps(&p, &[rule("com.mail", Some("Reply"), true)]));
    assert!(!app_rule_overlaps(&r, &[]));
}

#[test]
fn shadowing_is_symmetric_in_scope_overlap() {
    let mut a = snippet(";sig", 1);
    a.scope.app_rules.push(rule("com.mail", Some("Compose"), true));
    let mut b = snippet(";sig", 2);
    b.scope.app_rules.push(rule("com.mail", None, true));
    let ab = lint_snippets(&[a.clone(), b.clone()]);
    let ba = lint_snippets(&[b, a]);
    assert_eq!(ab.len(), 2);
    assert_eq!(ba.len(), 2);
    assert_eq!(ab[1].snippet_ids, ba[1].snippet_ids);
}
