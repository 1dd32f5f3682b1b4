use salsa::clock::Timestamp;
use salsa::model::{AppRule, Bundle, CaseMode, ContentType, DelimiterMode, ExpansionHistory, Profile, ScopeRule, Snippet};
use salsa::store::{
    app_rule_row, bundle_row, case_mode_label, content_type_label, delimiter_custom, delimiter_mode_label,
    history_row, map_app_rule_row, map_bundle_row, map_profile_row, map_snippet_row, parse_case_mode,
    parse_content_type, parse_datetime, parse_delimiter_mode, pending_migrations, profile_row, snippet_row,
    Migration, SnippetRow,
};

fn sample() -> Snippet {
    Snippet {
        id: 0x0123_4567_89ab_4def_8123_4567_89ab_cdef,
        trigger: ";addr".to_string(),
        label: "Address".to_string(),
        content: "123 Main St".to_string(),
        content_type: ContentType::Markdown,
        tags: vec!["home".to_string(), "quote \" and \\ slash".to_string()],
        enabled: true,
        case_mode: CaseMode::Upper,
        delimiter_mode: DelimiterMode::Custom("/-".to_string()),
        scope: ScopeRule {
            app_rules: vec![],
            profile_id: Some(42),
        },
        priority: -3,
        created_at: Timestamp::from_unix(1_700_000_000, 123_456_789).unwrap(),
        updated_at: Timestamp::from_unix(1_700_000_100, 0).unwrap(),
    }
}

#[test]
fn labels() {
    assert_eq!(content_type_label(&ContentType::PlainText), "plain");
    assert_eq!(content_type_label(&ContentType::Markdown), "markdown");
    assert_eq!(case_mode_label(&CaseMode::Smart), "smart");
    assert_eq!(case_mode_label(&CaseMode::Upper), "upper");
    assert_eq!(case_mode_label(&CaseMode::Lower), "lower");
    assert_eq!(case_mode_label(&CaseMode::Preserve), "preserve");
    assert_eq!(delimiter_mode_label(&DelimiterMode::Any), "any");
    assert_eq!(delimiter_mode_label(&DelimiterMode::WordBoundary), "word");
    assert_eq!(delimiter_mode_label(&DelimiterMode::Custom(",".to_string())), "custom");
    assert_eq!(delimiter_custom(&DelimiterMode::Custom(",".to_string())), Some(",".to_string()));
    assert_eq!(delimiter_custom(&DelimiterMode::Any), None);
}

#[test]
fn parsing_labels_with_defaults() {
    assert_eq!(parse_content_type("markdown"), ContentType::Markdown);
    assert_eq!(parse_content_type("plain"), ContentType::PlainText);
    assert_eq!(parse_content_type("html"), ContentType::PlainText);
    assert_eq!(parse_case_mode("upper"), CaseMode::Upper);
    assert_eq!(parse_case_mode("lower"), CaseMode::Lower);
    assert_eq!(parse_case_mode("preserve"), CaseMode::Preserve);
    assert_eq!(parse_case_mode("smart"), CaseMode::Smart);
    assert_eq!(parse_case_mode("UPPER"), CaseMode::Smart);
    assert!(matches!(parse_delimiter_mode("word", None), DelimiterMode::WordBoundary));
    assert!(matches!(parse_delimiter_mode("any", Some("x".to_string())), DelimiterMode::Any));
    assert!(matches!(parse_delimiter_mode("bogus", None), DelimiterMode::Any));
    match parse_delimiter_mode("custom", Some("/-".to_string())) {
        DelimiterMode::Custom(c) => assert_eq!(c, "/-"),
        _ => panic!("expected a custom delimiter"),
    }
    match parse_delimiter_mode("custom", None) {
        DelimiterMode::Custom(c) => assert_eq!(c, ""),
        _ => panic!("expected a custom delimiter"),
    }
}

#[test]
fn snippet_row_columns() {
    let row = snippet_row(&sample());
    assert_eq!(row.id, "01234567-89ab-4def-8123-456789abcdef");
    assert_eq!(row.content_type, "markdown");
    assert_eq!(row.tags, "[\"home\",\"quote \\\" and \\\\ slash\"]");
    assert_eq!(row.enabled, 1);
    assert_eq!(row.case_mode, "upper");
    assert_eq!(row.delimiter_mode, "custom");
    assert_eq!(row.delimiter_custom, Some("/-".to_string()));
    assert_eq!(row.scope_profile_id, Some("00000000-0000-0000-0000-00000000002a".to_string()));
    assert_eq!(row.priority, -3);
    assert_eq!(row.created_at, "2023-11-14T22:13:20.123456789+00:00");
    assert_eq!(row.updated_at, "2023-11-14T22:15:00+00:00");
}

#[test]
fn snippet_row_roundtrip() {
    let s = sample();
    let back = map_snippet_row(snippet_row(&s));
    assert_eq!(back.id, s.id);
    assert_eq!(back.trigger, s.trigger);
    assert_eq!(back.label, s.label);
    assert_eq!(back.content, s.content);
    assert_eq!(back.content_type, s.content_type);
    assert_eq!(back.tags, s.tags);
    assert_eq!(back.enabled, s.enabled);
    assert_eq!(back.case_mode, s.case_mode);
    match back.delimiter_mode {
        DelimiterMode::Custom(c) => assert_eq!(c, "/-"),
        _ => panic!("expected a custom delimiter"),
    }
    assert!(back.scope.app_rules.is_empty());
    assert_eq!(back.scope.profile_id, Some(42));
    assert_eq!(back.priority, -3);
    assert_eq!(back.created_at.secs(), 1_700_000_000);
    assert_eq!(back.created_at.nanos(), 123_456_789);
    assert_eq!(back.updated_at.secs(), 1_700_000_100);
}

fn damaged_row() -> SnippetRow {
    SnippetRow {
        id: "not-a-uuid".to_string(),
        trigger: "t".to_string(),
        label: "l".to_string(),
        content: "c".to_string(),
        content_type: "weird".to_string(),
        tags: "not json".to_string(),
        enabled: 7,
        case_mode: "weird".to_string(),
        delimiter_mode: "weird".to_string(),
        delimiter_custom: None,
        scope_profile_id: Some("also bad".to_string()),
        priority: 5_000_000_000,
        created_at: "yesterday".to_string(),
        updated_at: "2024-02-29T12:00:00Z".to_string(),
    }
}

#[test]
fn damaged_row_reads_with_defaults() {
    let before = Timestamp::now();
    let s = map_snippet_row(damaged_row());
    assert_eq!((s.id >> 76) & 0xf, 4);
    assert_eq!((s.id >> 62) & 0x3, 2);
    assert_eq!(s.content_type, ContentType::PlainText);
    assert!(s.tags.is_empty());
    assert!(s.enabled);
    assert_eq!(s.case_mode, CaseMode::Smart);
    assert!(matches!(s.delimiter_mode, DelimiterMode::Any));
    assert_eq!(s.scope.profile_id, None);
    assert_eq!(s.priority, 5_000_000_000i64 as i32);
    assert!(!before.is_later_than(&s.created_at));
    assert_eq!(s.updated_at.secs(), 1_709_208_000);
}

#[test]
fn uuid_forms_accepted_on_read() {
    let mut row = damaged_row();
    row.id = "0123456789AB4DEF8123456789ABCDEF".to_string();
    row.enabled = 0;
    let s = map_snippet_row(row);
    assert_eq!(s.id, 0x0123_4567_89ab_4def_8123_4567_89ab_cdef);
    assert!(!s.enabled);
}

#[test]
fn datetime_parsing() {
    let t = parse_datetime("1970-01-01T00:00:01.5+01:00");
    assert_eq!(t.secs(), -3599);
    assert_eq!(t.nanos(), 500_000_000);
    let before = Timestamp::now();
    let now = parse_datetime("garbage");
    assert!(!before.is_later_than(&now));
}

#[test]
fn app_rule_rows() {
    let rule = AppRule {
        bundle_id: "com.mail".to_string(),
        window_title_pattern: Some("Compose".to_string()),
        enabled: true,
    };
    let row = app_rule_row(1, &rule);
    assert_eq!(row.id.len(), 36);
    assert_eq!(row.id.as_bytes()[14], b'4');
    assert_eq!(row.snippet_id, "00000000-0000-0000-0000-000000000001");
    assert_eq!(row.bundle_id, "com.mail");
    assert_eq!(row.window_title_pattern, Some("Compose".to_string()));
    assert_eq!(row.enabled, 1);
    let back = map_app_rule_row(row.bundle_id, row.window_title_pattern, row.enabled);
    assert_eq!(back.bundle_id, "com.mail");
    assert_eq!(back.window_title_pattern, Some("Compose".to_string()));
    assert!(back.enabled);
    assert!(!map_app_rule_row("x".to_string(), None, 0).enabled);
}

#[test]
fn profile_and_bundle_rows() {
    let p = Profile { id: 0xabc, name: "Work".to_string(), enabled: false };
    let row = profile_row(&p);
    assert_eq!(row.id, "00000000-0000-0000-0000-000000000abc");
    assert_eq!(row.enabled, 0);
    let back = map_profile_row(row);
    assert_eq!(back.id, 0xabc);
    assert_eq!(back.name, "Work");
    assert!(!back.enabled);

    let b = Bundle { id: 7, name: "Jar".to_string(), description: Some("d".to_string()), enabled: true };
    let row = bundle_row(&b);
    assert_eq!(row.id, "00000000-0000-0000-0000-000000000007");
    assert_eq!(row.enabled, 1);
    let back = map_bundle_row(row);
    assert_eq!(back.id, 7);
    assert_eq!(back.description, Some("d".to_string()));
    assert!(back.enabled);
}

#[test]
fn history_rows() {
    let h = ExpansionHistory {
        id: 1,
        snippet_id: 2,
        app_bundle_id: "com.mail".to_string(),
        timestamp: Timestamp::from_unix(0, 0).unwrap(),
        retained_content: None,
    };
    let row = history_row(&h);
    assert_eq!(row.id, "00000000-0000-0000-0000-000000000001");
    assert_eq!(row.snippet_id, "00000000-0000-0000-0000-000000000002");
    assert_eq!(row.timestamp, "1970-01-01T00:00:00+00:00");
    assert_eq!(row.retained_content, None);
}

#[test]
fn migrations_pending_and_idempotent() {
    let ms = [
        Migration { version: 1, sql: "CREATE TABLE a (x INTEGER);" },
        Migration { version: 2, sql: "CREATE INDEX i ON a (x);" },
        Migration { version: 3, sql: "SELECT 1;" },
    ];
    assert_eq!(pending_migrations(&ms, &[]), vec![0, 1, 2]);
    assert_eq!(pending_migrations(&ms, &[2]), vec![0, 2]);
    assert_eq!(pending_migrations(&ms, &[1, 2, 3]), Vec::<usize>::new());
    let first = pending_migrations(&ms, &[3]);
    let mut applied = vec![3];
    for p in &first {
        applied.push(ms[*p].version);
    }
    assert!(pending_migrations(&ms, &applied).is_empty());
}
