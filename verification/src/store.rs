//! How the data model is laid out in the SQLite store.
//!
//! Each stored record is a row of plain column values. The functions here
//! turn model values into rows and rows back into model values, with the
//! same text labels, JSON tag lists, RFC 3339 timestamps and hyphenated
//! UUIDs as the store's schema; they also choose which schema migrations
//! still have to run. Executing statements is left to the program that owns
//! the database connection.

use vstd::prelude::*;

use crate::clock::{four_digit_year, rfc3339_parsed, rfc3339_text, Timestamp};
use crate::ids::{format_id, id_from_text_or_random, parse_id, random_id, uuid_parsed, uuid_text};
use crate::model::{
    opt_text, texts, AppRule, AppRuleView, Bundle, BundleView, CaseMode, ContentType,
    DelimiterMode, DelimiterModeView, ExpansionHistory, Profile, ProfileView, ScopeRule, Snippet,
    SnippetView,
};
use crate::text::same_text;

verus! {

// ---------------------------------------------------------------------------
// Labels
// ---------------------------------------------------------------------------

/// The stored label of a content type.
pub open spec fn content_type_text(value: ContentType) -> Seq<char> {
    match value {
        ContentType::PlainText => "plain"@,
        ContentType::Markdown => "markdown"@,
    }
}

/// The content type a stored label stands for; unknown labels read as plain
/// text.
pub open spec fn content_type_of(label: Seq<char>) -> ContentType {
    if label == "markdown"@ {
        ContentType::Markdown
    } else {
        ContentType::PlainText
    }
}

pub fn content_type_label(value: &ContentType) -> (r: &'static str)
    ensures
        r@ == content_type_text(*value),
{
    match value {
        ContentType::PlainText => "plain",
        ContentType::Markdown => "markdown",
    }
}

pub fn parse_content_type(value: &str) -> (r: ContentType)
    ensures
        r == content_type_of(value@),
{
    if same_text(value, "markdown") {
        ContentType::Markdown
    } else {
        ContentType::PlainText
    }
}

/// The stored label of a case mode.
pub open spec fn case_mode_text(value: CaseMode) -> Seq<char> {
    match value {
        CaseMode::Smart => "smart"@,
        CaseMode::Upper => "upper"@,
        CaseMode::Lower => "lower"@,
        CaseMode::Preserve => "preserve"@,
    }
}

/// The case mode a stored label stands for; unknown labels read as smart.
pub open spec fn case_mode_of(label: Seq<char>) -> CaseMode {
    if label == "upper"@ {
        CaseMode::Upper
    } else if label == "lower"@ {
        CaseMode::Lower
    } else if label == "preserve"@ {
        CaseMode::Preserve
    } else {
        CaseMode::Smart
    }
}

pub fn case_mode_label(value: &CaseMode) -> (r: &'static str)
    ensures
        r@ == case_mode_text(*value),
{
    match value {
        CaseMode::Smart => "smart",
        CaseMode::Upper => "upper",
        CaseMode::Lower => "lower",
        CaseMode::Preserve => "preserve",
    }
}

pub fn parse_case_mode(value: &str) -> (r: CaseMode)
    ensures
        r == case_mode_of(value@),
{
    if same_text(value, "upper") {
        CaseMode::Upper
    } else if same_text(value, "lower") {
        CaseMode::Lower
    } else if same_text(value, "preserve") {
        CaseMode::Preserve
    } else {
        CaseMode::Smart
    }
}

/// The stored label of a delimiter mode (custom characters are stored in a
/// column of their own).
pub open spec fn delimiter_mode_text(value: DelimiterModeView) -> Seq<char> {
    match value {
        DelimiterModeView::Any => "any"@,
        DelimiterModeView::WordBoundary => "word"@,
        DelimiterModeView::Custom(_) => "custom"@,
    }
}

/// The custom delimiter characters stored beside the label, if any.
pub open spec fn delimiter_custom_text(value: DelimiterModeView) -> Option<Seq<char>> {
    match value {
        DelimiterModeView::Custom(chars) => Some(chars),
        _ => None,
    }
}

/// The delimiter mode a stored label and custom column stand for; unknown
/// labels read as `Any`, a custom mode without characters as an empty set.
pub open spec fn delimiter_mode_of(label: Seq<char>, custom: Option<Seq<char>>) -> DelimiterModeView {
    if label == "word"@ {
        DelimiterModeView::WordBoundary
    } else if label == "custom"@ {
        DelimiterModeView::Custom(
            match custom {
                Some(chars) => chars,
                None => Seq::empty(),
            },
        )
    } else {
        DelimiterModeView::Any
    }
}

pub fn delimiter_mode_label(value: &DelimiterMode) -> (r: &'static str)
    ensures
        r@ == delimiter_mode_text(value@),
{
    match value {
        DelimiterMode::Any => "any",
        DelimiterMode::WordBoundary => "word",
        DelimiterMode::Custom(_) => "custom",
    }
}

/// The custom delimiter characters to store beside the label.
pub fn delimiter_custom(value: &DelimiterMode) -> (r: Option<String>)
    ensures
        opt_text(r) == delimiter_custom_text(value@),
{
    match value {
        DelimiterMode::Custom(chars) => Some(chars.clone()),
        _ => None,
    }
}

pub fn parse_delimiter_mode(value: &str, custom: Option<String>) -> (r: DelimiterMode)
    ensures
        r@ == delimiter_mode_of(value@, opt_text(custom)),
{
    if same_text(value, "word") {
        DelimiterMode::WordBoundary
    } else if same_text(value, "custom") {
        match custom {
            Some(chars) => DelimiterMode::Custom(chars),
            None => DelimiterMode::Custom(String::new()),
        }
    } else {
        DelimiterMode::Any
    }
}

/// Reading back a stored content-type label gives the content type.
pub proof fn lemma_content_type_label_roundtrip(value: ContentType)
    ensures
        content_type_of(content_type_text(value)) == value,
{
    reveal_strlit("plain");
    reveal_strlit("markdown");
    assert("plain"@[0] != "markdown"@[0]);
}

/// Reading back a stored case-mode label gives the case mode.
pub proof fn lemma_case_mode_label_roundtrip(value: CaseMode)
    ensures
        case_mode_of(case_mode_text(value)) == value,
{
    reveal_strlit("smart");
    reveal_strlit("upper");
    reveal_strlit("lower");
    reveal_strlit("preserve");
    assert("smart"@[0] != "upper"@[0]);
    assert("smart"@[0] != "lower"@[0]);
    assert("upper"@[0] != "lower"@[0]);
}

/// Reading back a stored delimiter label with its custom column gives the
/// delimiter mode.
pub proof fn lemma_delimiter_mode_roundtrip(value: DelimiterModeView)
    ensures
        delimiter_mode_of(delimiter_mode_text(value), delimiter_custom_text(value)) == value,
{
    reveal_strlit("any");
    reveal_strlit("word");
    reveal_strlit("custom");
    assert("any"@[0] != "word"@[0]);
    assert("any"@[0] != "custom"@[0]);
    assert("word"@[0] != "custom"@[0]);
}

// ---------------------------------------------------------------------------
// Outside encodings: JSON tag lists
// ---------------------------------------------------------------------------

/// The JSON text that `serde_json::to_string` writes for a list of strings.
pub uninterp spec fn json_of_strings(items: Seq<Seq<char>>) -> Seq<char>;

/// What `serde_json::from_str::<Vec<String>>` reads from a text, `None` on
/// error.
pub uninterp spec fn strings_of_json(text: Seq<char>) -> Option<Seq<Seq<char>>>;

/// The texts of an optional list of strings.
pub open spec fn opt_texts(v: Option<Vec<String>>) -> Option<Seq<Seq<char>>> {
    match v {
        Some(items) => Some(texts(items@)),
        None => None,
    }
}

/// Calls `serde_json::to_string` on a list of strings. Serialising strings
/// in a sequence cannot fail (no map keys, no fallible `Serialize`), so the
/// error branch is never taken; the result is the named JSON text.
#[verifier::external_body]
fn tags_to_json(tags: &Vec<String>) -> (r: String)
    ensures
        r@ == json_of_strings(texts(tags@)),
{
    serde_json::to_string(tags).unwrap_or_default()
}

/// Calls `serde_json::from_str::<Vec<String>>`. The result is named; beside
/// it the contract states that the JSON text written for a list of strings
/// reads back as that list. Which other texts are accepted is left to the
/// name.
#[verifier::external_body]
fn tags_from_json(text: &str) -> (r: Option<Vec<String>>)
    ensures
        opt_texts(r) == strings_of_json(text@),
        forall|items: Seq<Seq<char>>| #[trigger] json_of_strings(items) == text@ ==> opt_texts(r)
            == Some(items),
{
    serde_json::from_str::<Vec<String>>(text).ok()
}

// ---------------------------------------------------------------------------
// Timestamps
// ---------------------------------------------------------------------------

/// Reads a stored RFC 3339 timestamp, falling back to the current time when
/// the text does not parse.
pub fn parse_datetime(value: &str) -> (t: Timestamp)
    ensures
        rfc3339_parsed(value@) matches Some(p) ==> t@ == p,
        forall|secs: i64, nanos: u32|
            four_digit_year(secs, nanos) && #[trigger] rfc3339_text(secs, nanos) == value@
                ==> t@ == (secs, nanos),
{
    match Timestamp::parse_rfc3339(value) {
        Some(t) => t,
        None => Timestamp::now(),
    }
}

// ---------------------------------------------------------------------------
// Snippet rows
// ---------------------------------------------------------------------------

/// The columns of a row of the `snippets` table, in schema order.
pub struct SnippetRow {
    pub id: String,
    pub trigger: String,
    pub label: String,
    pub content: String,
    pub content_type: String,
    pub tags: String,
    pub enabled: i64,
    pub case_mode: String,
    pub delimiter_mode: String,
    pub delimiter_custom: Option<String>,
    pub scope_profile_id: Option<String>,
    pub priority: i64,
    pub created_at: String,
    pub updated_at: String,
}

/// The mathematical value of a `SnippetRow`.
pub struct SnippetRowView {
    pub id: Seq<char>,
    pub trigger: Seq<char>,
    pub label: Seq<char>,
    pub content: Seq<char>,
    pub content_type: Seq<char>,
    pub tags: Seq<char>,
    pub enabled: i64,
    pub case_mode: Seq<char>,
    pub delimiter_mode: Seq<char>,
    pub delimiter_custom: Option<Seq<char>>,
    pub scope_profile_id: Option<Seq<char>>,
    pub priority: i64,
    pub created_at: Seq<char>,
    pub updated_at: Seq<char>,
}

impl View for SnippetRow {
    type V = SnippetRowView;

    open spec fn view(&self) -> SnippetRowView {
        SnippetRowView {
            id: self.id@,
            trigger: self.trigger@,
            label: self.label@,
            content: self.content@,
            content_type: self.content_type@,
            tags: self.tags@,
            enabled: self.enabled,
            case_mode: self.case_mode@,
            delimiter_mode: self.delimiter_mode@,
            delimiter_custom: opt_text(self.delimiter_custom),
            scope_profile_id: opt_text(self.scope_profile_id),
            priority: self.priority,
            created_at: self.created_at@,
            updated_at: self.updated_at@,
        }
    }
}

/// The stored text of an optional identifier.
pub open spec fn opt_id_text(id: Option<u128>) -> Option<Seq<char>> {
    match id {
        Some(v) => Some(uuid_text(v)),
        None => None,
    }
}

/// The row stored for a snippet (its app rules go to a table of their own).
pub open spec fn row_of(s: SnippetView) -> SnippetRowView {
    SnippetRowView {
        id: uuid_text(s.id),
        trigger: s.trigger,
        label: s.label,
        content: s.content,
        content_type: content_type_text(s.content_type),
        tags: json_of_strings(s.tags),
        enabled: if s.enabled {
            1
        } else {
            0
        },
        case_mode: case_mode_text(s.case_mode),
        delimiter_mode: delimiter_mode_text(s.delimiter_mode),
        delimiter_custom: delimiter_custom_text(s.delimiter_mode),
        scope_profile_id: opt_id_text(s.scope.profile_id),
        priority: s.priority as i64,
        created_at: rfc3339_text(s.created_at.0, s.created_at.1),
        updated_at: rfc3339_text(s.updated_at.0, s.updated_at.1),
    }
}

/// What reading a stored identifier gives: the parsed identifier, and for
/// the text written for an identifier, that identifier. A text that does
/// not parse reads as a fresh random version-4 identifier.
pub open spec fn reads_id(text: Seq<char>, id: u128) -> bool {
    &&& (uuid_parsed(text) matches Some(v) ==> id == v)
    &&& (uuid_parsed(text) is None ==> (id >> 76u128) & 0xfu128 == 4 && (id >> 62u128) & 0x3u128 == 2)
    &&& forall|v: u128| #[trigger] uuid_text(v) == text ==> id == v
}

/// What reading a stored timestamp gives: the parsed instant, and for the
/// text written for an instant with a four-digit year, that instant. A text
/// that does not parse reads as the current time.
pub open spec fn reads_time(text: Seq<char>, t: (i64, u32)) -> bool {
    &&& (rfc3339_parsed(text) matches Some(p) ==> t == p)
    &&& forall|secs: i64, nanos: u32|
        four_digit_year(secs, nanos) && #[trigger] rfc3339_text(secs, nanos) == text ==> t == (
            secs,
            nanos,
        )
}

/// What reading a stored tag list gives: the parsed list, or no tags when
/// the text is not a JSON list of strings; the text written for a list reads
/// back as that list.
pub open spec fn reads_tags(text: Seq<char>, tags: Seq<Seq<char>>) -> bool {
    &&& tags == match strings_of_json(text) {
        Some(items) => items,
        None => Seq::empty(),
    }
    &&& forall|items: Seq<Seq<char>>| #[trigger] json_of_strings(items) == text ==> tags == items
}

/// What reading an optional stored identifier gives: the identifier it
/// parses to, or none.
pub open spec fn reads_opt_id(text: Option<Seq<char>>, id: Option<u128>) -> bool {
    match text {
        None => id is None,
        Some(t) => {
            &&& id == uuid_parsed(t)
            &&& forall|v: u128| #[trigger] uuid_text(v) == t ==> id == Some(v)
        },
    }
}

/// `s` is what the store reads from `row` (before the snippet's app rules
/// are attached).
pub open spec fn reads_snippet(row: SnippetRowView, s: SnippetView) -> bool {
    &&& reads_id(row.id, s.id)
    &&& s.trigger == row.trigger
    &&& s.label == row.label
    &&& s.content == row.content
    &&& s.content_type == content_type_of(row.content_type)
    &&& reads_tags(row.tags, s.tags)
    &&& s.enabled == (row.enabled != 0)
    &&& s.case_mode == case_mode_of(row.case_mode)
    &&& s.delimiter_mode == delimiter_mode_of(row.delimiter_mode, row.delimiter_custom)
    &&& s.scope.app_rules.len() == 0
    &&& reads_opt_id(row.scope_profile_id, s.scope.profile_id)
    &&& s.priority == row.priority as i32
    &&& reads_time(row.created_at, s.created_at)
    &&& reads_time(row.updated_at, s.updated_at)
}

/// The stored text of an identifier: its hyphenated lowercase form.
pub fn id_text(id: u128) -> (r: String)
    ensures
        r@ == uuid_text(id),
{
    format_id(id)
}

fn opt_id_to_text(id: Option<u128>) -> (r: Option<String>)
    ensures
        opt_text(r) == opt_id_text(id),
{
    match id {
        Some(v) => Some(format_id(v)),
        None => None,
    }
}

/// The row to store for a snippet.
pub fn snippet_row(snippet: &Snippet) -> (r: SnippetRow)
    ensures
        r@ == row_of(snippet@),
{
    SnippetRow {
        id: format_id(snippet.id),
        trigger: snippet.trigger.clone(),
        label: snippet.label.clone(),
        content: snippet.content.clone(),
        content_type: content_type_label(&snippet.content_type).to_owned(),
        tags: tags_to_json(&snippet.tags),
        enabled: if snippet.enabled {
            1
        } else {
            0
        },
        case_mode: case_mode_label(&snippet.case_mode).to_owned(),
        delimiter_mode: delimiter_mode_label(&snippet.delimiter_mode).to_owned(),
        delimiter_custom: delimiter_custom(&snippet.delimiter_mode),
        scope_profile_id: opt_id_to_text(snippet.scope.profile_id),
        priority: snippet.priority as i64,
        created_at: snippet.created_at.to_rfc3339(),
        updated_at: snippet.updated_at.to_rfc3339(),
    }
}

fn parse_opt_id(text: Option<String>) -> (r: Option<u128>)
    ensures
        reads_opt_id(opt_text(text), r),
{
    match text {
        Some(t) => parse_id(t.as_str()),
        None => None,
    }
}

/// Reads a snippet from its stored row; its app rules are attached by the
/// caller. Damaged columns read as defaults: a fresh identifier, no tags,
/// the first label of each kind, the current time.
pub fn map_snippet_row(row: SnippetRow) -> (s: Snippet)
    ensures
        reads_snippet(row@, s@),
{
    let ghost rv = row@;
    let id = id_from_text_or_random(row.id.as_str());
    let tags = match tags_from_json(row.tags.as_str()) {
        Some(items) => items,
        None => Vec::new(),
    };
    let content_type = parse_content_type(row.content_type.as_str());
    let case_mode = parse_case_mode(row.case_mode.as_str());
    let delimiter_mode = parse_delimiter_mode(row.delimiter_mode.as_str(), row.delimiter_custom);
    let created_at = parse_datetime(row.created_at.as_str());
    let updated_at = parse_datetime(row.updated_at.as_str());
    let profile_id = parse_opt_id(row.scope_profile_id);
    let s = Snippet {
        id,
        trigger: row.trigger,
        label: row.label,
        content: row.content,
        content_type,
        tags,
        enabled: row.enabled != 0,
        case_mode,
        delimiter_mode,
        scope: ScopeRule { app_rules: Vec::new(), profile_id },
        priority: row.priority as i32,
        created_at,
        updated_at,
    };
    assert(s@.scope.app_rules =~= Seq::<AppRuleView>::empty());
    assert(texts(s.tags@) == match strings_of_json(rv.tags) {
        Some(items) => items,
        None => Seq::<Seq<char>>::empty(),
    });
    s
}

/// A stored snippet reads back as itself, without its app rules (stored
/// apart), when its timestamps have four-digit years (the years RFC 3339
/// writes).
pub proof fn lemma_snippet_row_roundtrip(s: SnippetView, back: SnippetView)
    requires
        four_digit_year(s.created_at.0, s.created_at.1),
        four_digit_year(s.updated_at.0, s.updated_at.1),
        reads_snippet(row_of(s), back),
    ensures
        back.id == s.id,
        back.trigger == s.trigger,
        back.label == s.label,
        back.content == s.content,
        back.content_type == s.content_type,
        back.tags == s.tags,
        back.enabled == s.enabled,
        back.case_mode == s.case_mode,
        back.delimiter_mode == s.delimiter_mode,
        back.scope.app_rules.len() == 0,
        back.scope.profile_id == s.scope.profile_id,
        back.priority == s.priority,
        back.created_at == s.created_at,
        back.updated_at == s.updated_at,
{
    let row = row_of(s);
    lemma_content_type_label_roundtrip(s.content_type);
    lemma_case_mode_label_roundtrip(s.case_mode);
    lemma_delimiter_mode_roundtrip(s.delimiter_mode);
    assert(uuid_text(s.id) == row.id);
    assert(json_of_strings(s.tags) == row.tags);
    assert(rfc3339_text(s.created_at.0, s.created_at.1) == row.created_at);
    assert(rfc3339_text(s.updated_at.0, s.updated_at.1) == row.updated_at);
    if let Some(p) = s.scope.profile_id {
        assert(uuid_text(p) == row.scope_profile_id.unwrap());
    }
}

// ---------------------------------------------------------------------------
// App rule, profile, bundle and history rows
// ---------------------------------------------------------------------------

/// The columns of a row of the `app_rules` table.
pub struct AppRuleRow {
    pub id: String,
    pub snippet_id: String,
    pub bundle_id: String,
    pub window_title_pattern: Option<String>,
    pub enabled: i64,
}

/// The row stored for an app rule of snippet `snippet_id`, under a fresh
/// random identifier.
pub fn app_rule_row(snippet_id: u128, rule: &AppRule) -> (r: AppRuleRow)
    ensures
        exists|v: u128|
            r.id@ == uuid_text(v) && #[trigger] ((v >> 76u128) & 0xfu128) == 4 && (v >> 62u128)
                & 0x3u128 == 2,
        r.snippet_id@ == uuid_text(snippet_id),
        r.bundle_id@ == rule.bundle_id@,
        opt_text(r.window_title_pattern) == opt_text(rule.window_title_pattern),
        r.enabled == if rule.enabled {
            1i64
        } else {
            0i64
        },
{
    let rule_id = random_id();
    AppRuleRow {
        id: format_id(rule_id),
        snippet_id: format_id(snippet_id),
        bundle_id: rule.bundle_id.clone(),
        window_title_pattern: rule.window_title_pattern.clone(),
        enabled: if rule.enabled {
            1
        } else {
            0
        },
    }
}

/// Reads an app rule from its stored bundle, window-title and enabled
/// columns.
pub fn map_app_rule_row(bundle_id: String, window_title_pattern: Option<String>, enabled: i64) -> (r:
    AppRule)
    ensures
        r@ == (AppRuleView {
            bundle_id: bundle_id@,
            window_title_pattern: opt_text(window_title_pattern),
            enabled: enabled != 0,
        }),
{
    AppRule { bundle_id, window_title_pattern, enabled: enabled != 0 }
}

/// The columns of a row of the `profiles` table.
pub struct ProfileRow {
    pub id: String,
    pub name: String,
    pub enabled: i64,
}

/// The row stored for a profile.
pub fn profile_row(profile: &Profile) -> (r: ProfileRow)
    ensures
        r.id@ == uuid_text(profile.id),
        r.name@ == profile.name@,
        r.enabled == if profile.enabled {
            1i64
        } else {
            0i64
        },
{
    ProfileRow {
        id: format_id(profile.id),
        name: profile.name.clone(),
        enabled: if profile.enabled {
            1
        } else {
            0
        },
    }
}

/// Reads a profile from its stored row; an identifier that does not parse
/// reads as a fresh one.
pub fn map_profile_row(row: ProfileRow) -> (p: Profile)
    ensures
        reads_id(row.id@, p.id),
        p.name@ == row.name@,
        p.enabled == (row.enabled != 0),
{
    Profile { id: id_from_text_or_random(row.id.as_str()), name: row.name, enabled: row.enabled != 0 }
}

/// The columns of a row of the `bundles` table.
pub struct BundleRow {
    pub id: String,
    pub name: String,
    pub description: Option<String>,
    pub enabled: i64,
}

/// The row stored for a bundle.
pub fn bundle_row(bundle: &Bundle) -> (r: BundleRow)
    ensures
        r.id@ == uuid_text(bundle.id),
        r.name@ == bundle.name@,
        opt_text(r.description) == opt_text(bundle.description),
        r.enabled == if bundle.enabled {
            1i64
        } else {
            0i64
        },
{
    BundleRow {
        id: format_id(bundle.id),
        name: bundle.name.clone(),
        description: bundle.description.clone(),
        enabled: if bundle.enabled {
            1
        } else {
            0
        },
    }
}

/// Reads a bundle from its stored row; an identifier that does not parse
/// reads as a fresh one.
pub fn map_bundle_row(row: BundleRow) -> (b: Bundle)
    ensures
        reads_id(row.id@, b.id),
        b.name@ == row.name@,
        opt_text(b.description) == opt_text(row.description),
        b.enabled == (row.enabled != 0),
{
    Bundle {
        id: id_from_text_or_random(row.id.as_str()),
        name: row.name,
        description: row.description,
        enabled: row.enabled != 0,
    }
}

/// A stored profile reads back as itself.
pub proof fn lemma_profile_row_roundtrip(p: ProfileView, id_text: Seq<char>, enabled: i64, back: ProfileView)
    requires
        id_text == uuid_text(p.id),
        enabled == (if p.enabled { 1i64 } else { 0i64 }),
        reads_id(id_text, back.id),
        back.name == p.name,
        back.enabled == (enabled != 0),
    ensures
        back == p,
{
}

/// A stored bundle reads back as itself.
pub proof fn lemma_bundle_row_roundtrip(b: BundleView, id_text: Seq<char>, enabled: i64, back: BundleView)
    requires
        id_text == uuid_text(b.id),
        enabled == (if b.enabled { 1i64 } else { 0i64 }),
        reads_id(id_text, back.id),
        back.name == b.name,
        back.description == b.description,
        back.enabled == (enabled != 0),
    ensures
        back == b,
{
}

/// The columns of a row of the `expansion_history` table.
pub struct HistoryRow {
    pub id: String,
    pub snippet_id: String,
    pub app_bundle_id: String,
    pub timestamp: String,
    pub retained_content: Option<String>,
}

/// The row stored for an expansion event.
pub fn history_row(history: &ExpansionHistory) -> (r: HistoryRow)
    ensures
        r.id@ == uuid_text(history.id),
        r.snippet_id@ == uuid_text(history.snippet_id),
        r.app_bundle_id@ == history.app_bundle_id@,
        r.timestamp@ == rfc3339_text(history.timestamp@.0, history.timestamp@.1),
        opt_text(r.retained_content) == opt_text(history.retained_content),
{
    HistoryRow {
        id: format_id(history.id),
        snippet_id: format_id(history.snippet_id),
        app_bundle_id: history.app_bundle_id.clone(),
        timestamp: history.timestamp.to_rfc3339(),
        retained_content: history.retained_content.clone(),
    }
}

// ---------------------------------------------------------------------------
// Migrations
// ---------------------------------------------------------------------------

/// A versioned schema migration: one SQL batch.
pub struct Migration {
    pub version: i64,
    pub sql: &'static str,
}

/// `pending` lists, in increasing order, exactly the positions of the
/// migrations whose version is not among `applied`.
pub open spec fn pending_ok(migrations: Seq<Migration>, applied: Seq<i64>, pending: Seq<usize>) -> bool {
    &&& forall|k: int| 0 <= k < pending.len() ==> #[trigger] pending[k] < migrations.len()
    &&& forall|a: int, b: int| 0 <= a < b < pending.len() ==> pending[a] < pending[b]
    &&& forall|k: int| 0 <= k < pending.len() ==> !applied.contains(migrations[#[trigger] pending[k] as int].version)
    &&& forall|i: int|
        0 <= i < migrations.len() && !applied.contains(#[trigger] migrations[i].version) ==> pending.contains(i as usize)
}

/// The versions of the migrations at positions `positions`.
pub open spec fn versions_at(migrations: Seq<Migration>, positions: Seq<usize>) -> Seq<i64> {
    positions.map_values(|p: usize| migrations[p as int].version)
}

/// The migrations still to run, in list order: those whose version has not
/// been applied yet.
pub fn pending_migrations(migrations: &[Migration], applied: &[i64]) -> (r: Vec<usize>)
    ensures
        pending_ok(migrations@, applied@, r@),
{
    let mut r: Vec<usize> = Vec::new();
    let mut i: usize = 0;
    while i < migrations.len()
        invariant
            i <= migrations@.len(),
            forall|k: int| 0 <= k < r@.len() ==> #[trigger] r@[k] < i,
            forall|a: int, b: int| 0 <= a < b < r@.len() ==> r@[a] < r@[b],
            forall|k: int| 0 <= k < r@.len() ==> !applied@.contains(migrations@[#[trigger] r@[k] as int].version),
            forall|j: int|
                0 <= j < i && !applied@.contains(#[trigger] migrations@[j].version) ==> r@.contains(j as usize),
        decreases migrations@.len() - i,
    {
        let version = migrations[i].version;
        let mut found = false;
        let mut j: usize = 0;
        while j < applied.len()
            invariant
                j <= applied@.len(),
                found <==> exists|k: int| 0 <= k < j && applied@[k] == version,
            decreases applied@.len() - j,
        {
            if applied[j] == version {
                found = true;
            }
            j = j + 1;
        }
        if !found {
            let ghost before = r@;
            r.push(i);
            proof {
                assert(r@[before.len() as int] == i);
                assert forall|jj: int|
                    0 <= jj < i + 1 && !applied@.contains(#[trigger] migrations@[jj].version) implies r@.contains(jj as usize) by {
                    if jj < i {
                        let k = choose|k: int| 0 <= k < before.len() && before[k] == jj as usize;
                        assert(r@[k] == before[k]);
                    } else {
                        assert(r@[before.len() as int] == jj as usize);
                    }
                }
            }
        } else {
            proof {
                let k = choose|k: int| 0 <= k < applied@.len() && applied@[k] == version;
                assert(applied@.contains(version));
            }
        }
        i = i + 1;
    }
    r
}

/// Once the pending migrations have been recorded as applied, none is
/// pending any more: running the migrations again applies nothing.
pub proof fn lemma_migrations_idempotent(migrations: Seq<Migration>, applied: Seq<i64>, pending: Seq<usize>, again: Seq<usize>)
    requires
        pending_ok(migrations, applied, pending),
        pending_ok(migrations, applied + versions_at(migrations, pending), again),
    ensures
        again.len() == 0,
{
    let after = applied + versions_at(migrations, pending);
    if again.len() > 0 {
        let i = again[0] as int;
        assert(!after.contains(migrations[i].version));
        if applied.contains(migrations[i].version) {
            let k = choose|k: int| 0 <= k < applied.len() && applied[k] == migrations[i].version;
            assert(after[k] == applied[k]);
        } else {
            assert(pending.contains(i as usize));
            let k = choose|k: int| 0 <= k < pending.len() && pending[k] == i as usize;
            assert(after[applied.len() + k] == migrations[i].version);
        }
    }
}

} // verus!
