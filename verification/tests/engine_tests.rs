use salsa::clock::Timestamp;
use salsa::engine::{is_word_char, matches_case_mode, matches_delimiter, matches_scope, MatchContext, Matcher};
use salsa::model::{AppRule, CaseMode, ContentType, DelimiterMode, ScopeRule, Snippet};

fn snippet(trigger: &str, content: &str) -> Snippet {
    Snippet {
        id: uuid::Uuid::new_v4().as_u128(),
        trigger: trigger.to_string(),
        label: "label".to_string(),
        content: content.to_string(),
        content_type: ContentType::PlainText,
        tags: vec![],
        enabled: true,
        case_mode: CaseMode::Preserve,
        delimiter_mode: DelimiterMode::Any,
        scope: ScopeRule {
            app_rules: vec![],
            profile_id: None,
        },
        priority: 0,
        created_at: Timestamp::now(),
        updated_at: Timestamp::now(),
    }
}

fn ctx(bundle: &str) -> MatchContext {
    MatchContext {
        app_bundle_id: bundle.to_string(),
        window_title: None,
        is_secure: false,
        ime_active: false,
    }
}

#[test]
fn matches_basic_trigger() {
    let s = snippet(";addr", "123 Main St");
    let matcher = Matcher::from_snippets(vec![s]);
    let ctx = MatchContext {
        app_bundle_id: "com.example".to_string(),
        window_title: None,
        is_secure: false,
        ime_active: false,
    };
    let result = matcher.match_buffer("please ;addr", &ctx);
    assert!(result.is_some());
}

#[test]
fn skips_secure_context() {
    let s = snippet(";addr", "123 Main St");
    let matcher = Matcher::from_snippets(vec![s]);
    let ctx = MatchContext {
        app_bundle_id: "com.example".to_string(),
        window_title: None,
        is_secure: true,
        ime_active: false,
    };
    let result = matcher.match_buffer(";addr", &ctx);
    assert!(result.is_none());
}

#[test]
fn respects_word_boundary() {
    let mut s = snippet("sig", "Best,");
    s.delimiter_mode = DelimiterMode::WordBoundary;
    let matcher = Matcher::from_snippets(vec![s]);
    let ctx = MatchContext {
        app_bundle_id: "com.example".to_string(),
        window_title: None,
        is_secure: false,
        ime_active: false,
    };
    assert!(matcher.match_buffer("signature", &ctx).is_none());
    assert!(matcher.match_buffer(" email sig", &ctx).is_some());
}

#[test]
fn respects_case_mode() {
    let mut s = snippet("addr", "123 Main St");
    s.case_mode = CaseMode::Upper;
    let matcher = Matcher::from_snippets(vec![s]);
    let ctx = MatchContext {
        app_bundle_id: "com.example".to_string(),
        window_title: None,
        is_secure: false,
        ime_active: false,
    };
    assert!(matcher.match_buffer("addr", &ctx).is_none());
    assert!(matcher.match_buffer("ADDR", &ctx).is_some());
}

#[test]
fn matches_scoped_app() {
    let mut s = snippet(";sig", "Best,");
    s.scope.app_rules.push(AppRule {
        bundle_id: "com.mail".to_string(),
        window_title_pattern: None,
        enabled: true,
    });
    let matcher = Matcher::from_snippets(vec![s]);
    let ctx = MatchContext {
        app_bundle_id: "com.mail".to_string(),
        window_title: None,
        is_secure: false,
        ime_active: false,
    };
    let result = matcher.match_buffer(";sig", &ctx);
    assert!(result.is_some());
}

#[test]
fn expansion_reports_snippet_and_content() {
    let s = snippet(";addr", "123 Main St");
    let id = s.id;
    let matcher = Matcher::from_snippets(vec![s]);
    let result = matcher.match_buffer("please ;addr", &ctx("com.example")).unwrap();
    assert_eq!(result.snippet_id, id);
    assert_eq!(result.trigger, ";addr");
    assert_eq!(result.content, "123 Main St");
}

#[test]
fn ime_composition_never_expands() {
    let matcher = Matcher::from_snippets(vec![snippet(";addr", "x")]);
    let mut c = ctx("com.example");
    c.ime_active = true;
    assert!(matcher.match_buffer(";addr", &c).is_none());
}

#[test]
fn empty_buffer_and_empty_matcher_never_expand() {
    let matcher = Matcher::from_snippets(vec![snippet(";addr", "x")]);
    assert!(matcher.match_buffer("", &ctx("com.example")).is_none());
    let empty = Matcher::from_snippets(vec![]);
    assert!(empty.match_buffer(";addr", &ctx("com.example")).is_none());
}

#[test]
fn trigger_must_end_the_buffer() {
    let matcher = Matcher::from_snippets(vec![snippet(";addr", "x")]);
    assert!(matcher.match_buffer(";addr ", &ctx("com.example")).is_none());
    assert!(matcher.match_buffer(";add", &ctx("com.example")).is_none());
}

#[test]
fn disabled_snippet_never_expands() {
    let mut s = snippet(";addr", "x");
    s.enabled = false;
    let matcher = Matcher::from_snippets(vec![s]);
    assert!(matcher.match_buffer(";addr", &ctx("com.example")).is_none());
}

#[test]
fn higher_priority_wins() {
    let mut low = snippet(";sig", "low");
    low.priority = 1;
    let mut high = snippet(";sig", "high");
    high.priority = 5;
    let matcher = Matcher::from_snippets(vec![low, high]);
    let result = matcher.match_buffer(";sig", &ctx("com.example")).unwrap();
    assert_eq!(result.content, "high");
}

#[test]
fn newer_update_wins_at_equal_priority() {
    let mut older = snippet(";sig", "older");
    older.updated_at = Timestamp::from_unix(1_000, 0).unwrap();
    let mut newer = snippet(";sig", "newer");
    newer.updated_at = Timestamp::from_unix(2_000, 0).unwrap();
    let matcher = Matcher::from_snippets(vec![older, newer]);
    let result = matcher.match_buffer(";sig", &ctx("com.example")).unwrap();
    assert_eq!(result.content, "newer");
}

#[test]
fn smaller_id_wins_on_full_tie() {
    let t = Timestamp::from_unix(1_000, 0).unwrap();
    let mut a = snippet(";sig", "second");
    a.id = 20;
    a.updated_at = t;
    let mut b = snippet(";sig", "first");
    b.id = 10;
    b.updated_at = t;
    let matcher = Matcher::from_snippets(vec![a, b]);
    let result = matcher.match_buffer(";sig", &ctx("com.example")).unwrap();
    assert_eq!(result.snippet_id, 10);
}

#[test]
fn shortest_trigger_wins() {
    let mut long = snippet("xsig", "long");
    long.priority = 9;
    let short = snippet("sig", "short");
    let matcher = Matcher::from_snippets(vec![long, short]);
    let result = matcher.match_buffer("xsig", &ctx("com.example")).unwrap();
    assert_eq!(result.content, "short");
}

#[test]
fn priority_wins_across_case_modes() {
    let mut a = snippet(";sig", "low");
    a.id = 1;
    let mut b = snippet(";sig", "high");
    b.id = 2;
    b.case_mode = CaseMode::Smart;
    b.priority = 5;
    let matcher = Matcher::from_snippets(vec![a, b]);
    let result = matcher.match_buffer(";sig", &ctx("com.example")).unwrap();
    assert_eq!(result.content, "high");
    let result = matcher.match_buffer(";SIG", &ctx("com.example")).unwrap();
    assert_eq!(result.content, "high");
}

#[test]
fn preserve_snippet_wins_when_ranked_first() {
    let mut smart = snippet("sig", "smart");
    smart.case_mode = CaseMode::Smart;
    let mut exact = snippet("sig", "exact");
    exact.priority = 9;
    let matcher = Matcher::from_snippets(vec![smart, exact]);
    let result = matcher.match_buffer("sig", &ctx("com.example")).unwrap();
    assert_eq!(result.content, "exact");
    let result = matcher.match_buffer("SIG", &ctx("com.example")).unwrap();
    assert_eq!(result.content, "smart");
}

#[test]
fn smart_is_case_insensitive_beyond_ascii() {
    let mut s = snippet("é", "accent");
    s.case_mode = CaseMode::Smart;
    let matcher = Matcher::from_snippets(vec![s]);
    let result = matcher.match_buffer("É", &ctx("com.example")).map(|r| r.content);
    assert_eq!(result, Some("accent".to_string()));
    let mut t = snippet("ÉTÉ", "summer");
    t.case_mode = CaseMode::Lower;
    let matcher = Matcher::from_snippets(vec![t]);
    assert!(matcher.match_buffer("x été", &ctx("c")).is_some());
    assert!(matcher.match_buffer("x Été", &ctx("c")).is_none());
}

#[test]
fn case_modes_on_typed_text() {
    let mut lower = snippet("Addr", "lower");
    lower.case_mode = CaseMode::Lower;
    let matcher = Matcher::from_snippets(vec![lower]);
    assert!(matcher.match_buffer("addr", &ctx("c")).is_some());
    assert!(matcher.match_buffer("Addr", &ctx("c")).is_none());

    let mut smart = snippet("addr", "smart");
    smart.case_mode = CaseMode::Smart;
    let matcher = Matcher::from_snippets(vec![smart]);
    assert!(matcher.match_buffer("AdDr", &ctx("c")).is_some());

    let exact = snippet("Addr", "exact");
    let matcher = Matcher::from_snippets(vec![exact]);
    assert!(matcher.match_buffer("addr", &ctx("c")).is_none());
    assert!(matcher.match_buffer("Addr", &ctx("c")).is_some());
}

#[test]
fn custom_delimiter_needs_listed_character() {
    let mut s = snippet("sig", "x");
    s.delimiter_mode = DelimiterMode::Custom("/-".to_string());
    let matcher = Matcher::from_snippets(vec![s]);
    assert!(matcher.match_buffer("sig", &ctx("c")).is_none());
    assert!(matcher.match_buffer("a sig", &ctx("c")).is_none());
    assert!(matcher.match_buffer("a/sig", &ctx("c")).is_some());
    assert!(matcher.match_buffer("a-sig", &ctx("c")).is_some());
}

#[test]
fn word_boundary_at_start_of_input() {
    let mut s = snippet("sig", "x");
    s.delimiter_mode = DelimiterMode::WordBoundary;
    let matcher = Matcher::from_snippets(vec![s]);
    assert!(matcher.match_buffer("sig", &ctx("c")).is_some());
    assert!(matcher.match_buffer("_sig", &ctx("c")).is_none());
    assert!(matcher.match_buffer("ésig", &ctx("c")).is_none());
}

#[test]
fn scope_checks_bundle_and_window_title() {
    let mut s = snippet(";sig", "x");
    s.scope.app_rules.push(AppRule {
        bundle_id: "com.mail".to_string(),
        window_title_pattern: Some("Compose".to_string()),
        enabled: true,
    });
    let matcher = Matcher::from_snippets(vec![s]);
    let mut c = ctx("com.mail");
    assert!(matcher.match_buffer(";sig", &c).is_none());
    c.window_title = Some("New Compose Window".to_string());
    assert!(matcher.match_buffer(";sig", &c).is_some());
    c.app_bundle_id = "com.other".to_string();
    assert!(matcher.match_buffer(";sig", &c).is_none());
}

#[test]
fn disabled_rule_does_not_admit() {
    let mut s = snippet(";sig", "x");
    s.scope.app_rules.push(AppRule {
        bundle_id: "com.mail".to_string(),
        window_title_pattern: None,
        enabled: false,
    });
    assert!(!matches_scope(&s, &ctx("com.mail")));
    s.scope.app_rules.clear();
    assert!(matches_scope(&s, &ctx("anything")));
}

#[test]
fn word_characters() {
    assert!(is_word_char('a'));
    assert!(is_word_char('Z'));
    assert!(is_word_char('7'));
    assert!(is_word_char('_'));
    assert!(is_word_char('é'));
    assert!(!is_word_char(' '));
    assert!(!is_word_char(';'));
    assert!(!is_word_char('-'));
}

#[test]
fn delimiter_checks() {
    assert!(matches_delimiter(None, &DelimiterMode::Any));
    assert!(matches_delimiter(Some('a'), &DelimiterMode::Any));
    assert!(matches_delimiter(None, &DelimiterMode::WordBoundary));
    assert!(matches_delimiter(Some(' '), &DelimiterMode::WordBoundary));
    assert!(!matches_delimiter(Some('a'), &DelimiterMode::WordBoundary));
    assert!(!matches_delimiter(None, &DelimiterMode::Custom(",".to_string())));
    assert!(matches_delimiter(Some(','), &DelimiterMode::Custom(",".to_string())));
    assert!(!matches_delimiter(Some('.'), &DelimiterMode::Custom(",".to_string())));
}

#[test]
fn case_mode_checks() {
    assert!(matches_case_mode("SiG", &CaseMode::Smart, "sig"));
    assert!(matches_case_mode("SIG", &CaseMode::Upper, "sig"));
    assert!(!matches_case_mode("Sig", &CaseMode::Upper, "sig"));
    assert!(matches_case_mode("sig", &CaseMode::Lower, "SIG"));
    assert!(!matches_case_mode("SIG", &CaseMode::Lower, "SIG"));
    assert!(matches_case_mode("Sig", &CaseMode::Preserve, "Sig"));
    assert!(!matches_case_mode("sig", &CaseMode::Preserve, "Sig"));
    assert!(matches_case_mode("STRASSE", &CaseMode::Upper, "straße"));
}

#[test]
fn only_the_end_of_the_buffer_matters() {
    let matcher = Matcher::from_snippets(vec![snippet(";addr", "x")]);
    let c = ctx("com.example");
    let a = matcher.match_buffer("a long prefix ;addr", &c).map(|r| r.content);
    let b = matcher.match_buffer("other text!! ;addr", &c).map(|r| r.content);
    assert_eq!(a, b);
}

#[test]
fn input_order_does_not_change_the_winner() {
    let mk = |id: u128, priority: i32, content: &str| {
        let mut s = snippet(";sig", content);
        s.id = id;
        s.priority = priority;
        s.updated_at = Timestamp::from_unix(1_000, 0).unwrap();
        s
    };
    let one = Matcher::from_snippets(vec![mk(3, 1, "c"), mk(1, 1, "a"), mk(2, 1, "b")]);
    let two = Matcher::from_snippets(vec![mk(2, 1, "b"), mk(3, 1, "c"), mk(1, 1, "a")]);
    let c = ctx("com.example");
    assert_eq!(one.match_buffer(";sig", &c).unwrap().snippet_id, 1);
    assert_eq!(two.match_buffer(";sig", &c).unwrap().snippet_id, 1);
}

#[test]
fn case_preserving_trigger_is_tried_first() {
    let exact = snippet("xsig", "exact");
    let mut smart = snippet("sig", "smart");
    smart.case_mode = CaseMode::Smart;
    let matcher = Matcher::from_snippets(vec![exact, smart]);
    let c = ctx("com.example");
    assert_eq!(matcher.match_buffer("xsig", &c).unwrap().content, "exact");
    assert_eq!(matcher.match_buffer("ysig", &c).unwrap().content, "smart");
}

#[test]
fn many_case_folded_snippets_share_one_index() {
    let mut snippets = Vec::new();
    for i in 0..200 {
        let mut s = snippet(&format!(";t{i}"), &format!("c{i}"));
        s.case_mode = if i % 3 == 0 {
            CaseMode::Smart
        } else if i % 3 == 1 {
            CaseMode::Upper
        } else {
            CaseMode::Lower
        };
        snippets.push(s);
    }
    let matcher = Matcher::from_snippets(snippets);
    let c = ctx("com.example");
    assert_eq!(matcher.match_buffer("x ;T99", &c).unwrap().content, "c99");
    assert_eq!(matcher.match_buffer("x ;T100", &c).unwrap().content, "c100");
    assert_eq!(matcher.match_buffer("x ;t101", &c).unwrap().content, "c101");
    assert!(matcher.match_buffer("x ;t100", &c).is_none());
    assert!(matcher.match_buffer("x ;T101", &c).is_none());
}
