//! The data model: snippets, scope rules, profiles, bundles and expansion
//! history.
//!
//! Identifiers are UUIDs held as `u128` (see `ids`), timestamps are UTC
//! instants (see `clock`). Each type has a view made of mathematical values,
//! over which the contracts of the library are written.

use vstd::prelude::*;

use crate::clock::Timestamp;

verus! {

/// Plain text (v1) or Markdown (v2+) snippet output.
#[derive(Clone, Copy, Debug, PartialEq, Eq, Structural)]
pub enum ContentType {
    PlainText,
    Markdown,
}

/// How trigger case is interpreted during matching.
#[derive(Clone, Copy, Debug, PartialEq, Eq, Structural)]
pub enum CaseMode {
    /// Case-insensitive match.
    Smart,
    /// Trigger must be typed in UPPERCASE.
    Upper,
    /// Trigger must be typed in lowercase.
    Lower,
    /// Trigger must match character-for-character.
    Preserve,
}

/// What must precede the trigger for it to fire.
#[derive(Clone, Debug)]
pub enum DelimiterMode {
    /// Preceding char must be a non-word character (or start of input).
    WordBoundary,
    /// No delimiter requirement.
    Any,
    /// One of the listed characters must precede the trigger.
    Custom(String),
}

/// The mathematical value of a `DelimiterMode`.
pub enum DelimiterModeView {
    WordBoundary,
    Any,
    Custom(Seq<char>),
}

impl View for DelimiterMode {
    type V = DelimiterModeView;

    open spec fn view(&self) -> DelimiterModeView {
        match self {
            DelimiterMode::WordBoundary => DelimiterModeView::WordBoundary,
            DelimiterMode::Any => DelimiterModeView::Any,
            DelimiterMode::Custom(chars) => DelimiterModeView::Custom(chars@),
        }
    }
}

/// The text of an optional string.
pub open spec fn opt_text(o: Option<String>) -> Option<Seq<char>> {
    match o {
        Some(s) => Some(s@),
        None => None,
    }
}

/// The texts of a list of strings.
pub open spec fn texts(v: Seq<String>) -> Seq<Seq<char>> {
    v.map_values(|s: String| s@)
}

/// Per-app scope rule.
#[derive(Clone, Debug)]
pub struct AppRule {
    /// macOS bundle identifier, e.g. `com.apple.mail`.
    pub bundle_id: String,
    /// Optional substring match on window title.
    pub window_title_pattern: Option<String>,
    pub enabled: bool,
}

/// The mathematical value of an `AppRule`.
pub struct AppRuleView {
    pub bundle_id: Seq<char>,
    pub window_title_pattern: Option<Seq<char>>,
    pub enabled: bool,
}

impl View for AppRule {
    type V = AppRuleView;

    open spec fn view(&self) -> AppRuleView {
        AppRuleView {
            bundle_id: self.bundle_id@,
            window_title_pattern: opt_text(self.window_title_pattern),
            enabled: self.enabled,
        }
    }
}

/// The views of a list of app rules.
pub open spec fn rule_views(v: Seq<AppRule>) -> Seq<AppRuleView> {
    v.map_values(|r: AppRule| r@)
}

/// Scope constraints for a snippet.
#[derive(Clone, Debug)]
pub struct ScopeRule {
    pub app_rules: Vec<AppRule>,
    /// If `Some`, snippet is only active in this profile.
    pub profile_id: Option<u128>,
}

/// The mathematical value of a `ScopeRule`.
pub struct ScopeRuleView {
    pub app_rules: Seq<AppRuleView>,
    pub profile_id: Option<u128>,
}

impl View for ScopeRule {
    type V = ScopeRuleView;

    open spec fn view(&self) -> ScopeRuleView {
        ScopeRuleView { app_rules: rule_views(self.app_rules@), profile_id: self.profile_id }
    }
}

/// A text-expansion snippet: trigger → expanded content.
#[derive(Clone, Debug)]
pub struct Snippet {
    pub id: u128,
    /// Short trigger text, e.g. `;addr`.
    pub trigger: String,
    /// Human-readable label for UI lists.
    pub label: String,
    /// Expanded output. May contain Sauce Variables like `{{date}}`.
    pub content: String,
    pub content_type: ContentType,
    /// Free-form tags for filtering and search.
    pub tags: Vec<String>,
    /// If `false`, the snippet is ignored by the matcher.
    pub enabled: bool,
    pub case_mode: CaseMode,
    pub delimiter_mode: DelimiterMode,
    /// App-scope and profile rules.
    pub scope: ScopeRule,
    /// Higher priority wins when triggers collide. Tie-break: newest updated_at, then UUID.
    pub priority: i32,
    pub created_at: Timestamp,
    pub updated_at: Timestamp,
}

/// The mathematical value of a `Snippet`.
pub struct SnippetView {
    pub id: u128,
    pub trigger: Seq<char>,
    pub label: Seq<char>,
    pub content: Seq<char>,
    pub content_type: ContentType,
    pub tags: Seq<Seq<char>>,
    pub enabled: bool,
    pub case_mode: CaseMode,
    pub delimiter_mode: DelimiterModeView,
    pub scope: ScopeRuleView,
    pub priority: i32,
    pub created_at: (i64, u32),
    pub updated_at: (i64, u32),
}

impl View for Snippet {
    type V = SnippetView;

    open spec fn view(&self) -> SnippetView {
        SnippetView {
            id: self.id,
            trigger: self.trigger@,
            label: self.label@,
            content: self.content@,
            content_type: self.content_type,
            tags: texts(self.tags@),
            enabled: self.enabled,
            case_mode: self.case_mode,
            delimiter_mode: self.delimiter_mode@,
            scope: self.scope@,
            priority: self.priority,
            created_at: self.created_at@,
            updated_at: self.updated_at@,
        }
    }
}

/// The views of a list of snippets.
pub open spec fn snippet_views(v: Seq<Snippet>) -> Seq<SnippetView> {
    v.map_values(|s: Snippet| s@)
}

/// A user-defined profile (Menu) that groups snippets.
#[derive(Clone, Debug)]
pub struct Profile {
    pub id: u128,
    pub name: String,
    pub enabled: bool,
}

/// The mathematical value of a `Profile`.
pub struct ProfileView {
    pub id: u128,
    pub name: Seq<char>,
    pub enabled: bool,
}

impl View for Profile {
    type V = ProfileView;

    open spec fn view(&self) -> ProfileView {
        ProfileView { id: self.id, name: self.name@, enabled: self.enabled }
    }
}

/// A bundle (Jar) of snippets for import/export.
#[derive(Clone, Debug)]
pub struct Bundle {
    pub id: u128,
    pub name: String,
    pub description: Option<String>,
    pub enabled: bool,
}

/// The mathematical value of a `Bundle`.
pub struct BundleView {
    pub id: u128,
    pub name: Seq<char>,
    pub description: Option<Seq<char>>,
    pub enabled: bool,
}

impl View for Bundle {
    type V = BundleView;

    open spec fn view(&self) -> BundleView {
        BundleView {
            id: self.id,
            name: self.name@,
            description: opt_text(self.description),
            enabled: self.enabled,
        }
    }
}

/// Record of an expansion event. `retained_content` is opt-in only.
#[derive(Clone, Debug)]
pub struct ExpansionHistory {
    pub id: u128,
    pub snippet_id: u128,
    pub app_bundle_id: String,
    pub timestamp: Timestamp,
    /// Only populated when the user opts in to content retention.
    pub retained_content: Option<String>,
}

} // verus!
