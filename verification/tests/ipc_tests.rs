use salsa::ipc::{frame_message, is_whitespace, message_text, respond, Request, Response, DEFAULT_SOCKET_PATH};
use salsa::platform::is_supported_platform;

#[test]
fn socket_path() {
    assert_eq!(DEFAULT_SOCKET_PATH, "/tmp/salsa.sock");
}

#[test]
fn ping_is_answered_with_pong() {
    assert!(matches!(respond(&Request::Ping), Response::Pong));
}

#[test]
fn framing_appends_newline() {
    assert_eq!(frame_message("\"Ping\""), "\"Ping\"\n");
    assert_eq!(frame_message(""), "\n");
}

#[test]
fn message_text_trims_line() {
    assert_eq!(message_text("\"Pong\"\n"), "\"Pong\"");
    assert_eq!(message_text("  {\"Error\":{\"message\":\"x y\"}} \r\n"), "{\"Error\":{\"message\":\"x y\"}}");
    assert_eq!(message_text("\u{3000}a b\u{a0}"), "a b");
    assert_eq!(message_text(" \n\t "), "");
    assert_eq!(message_text(""), "");
}

#[test]
fn frame_then_read_gives_payload() {
    for payload in ["\"Ping\"", "{\"Error\":{\"message\":\"boom\"}}", ""] {
        assert_eq!(message_text(&frame_message(payload)), payload);
    }
}

#[test]
fn whitespace_class_matches_std() {
    for c in ['\t', '\n', '\u{b}', '\u{c}', '\r', ' ', '\u{85}', '\u{a0}', '\u{1680}', '\u{2000}', '\u{200a}', '\u{2028}', '\u{2029}', '\u{202f}', '\u{205f}', '\u{3000}'] {
        assert!(is_whitespace(c));
        assert!(c.is_whitespace());
    }
    for c in ['a', '\u{200b}', '\u{feff}', '_', '\u{0}'] {
        assert!(!is_whitespace(c));
        assert_eq!(c.is_whitespace(), is_whitespace(c));
    }
}

#[test]
fn platform_support() {
    assert!(is_supported_platform("macos"));
    assert!(!is_supported_platform("linux"));
    assert!(!is_supported_platform("MacOS"));
}
