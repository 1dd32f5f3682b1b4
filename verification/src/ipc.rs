//! Minimal IPC protocol between the Salsa agent and UI.
//!
//! Messages are newline-delimited JSON over a Unix domain socket. The
//! library decides what the agent answers, frames an encoded message with
//! its newline and recovers the message text from a received line; turning
//! values into JSON and back, and the socket itself, belong to the program
//! around it.

use vstd::prelude::*;

use crate::text::{chars_of, string_from_chars};

verus! {

/// Default socket path. The agent removes any stale file before binding.
pub const DEFAULT_SOCKET_PATH: &'static str = "/tmp/salsa.sock";

/// Request sent from UI to agent.
#[derive(Clone, Copy, Debug, PartialEq, Eq, Structural)]
pub enum Request {
    /// Health-check.
    Ping,
}

/// Response sent from agent to UI.
#[derive(Clone, Debug)]
pub enum Response {
    Pong,
    Error { message: String },
}

/// The agent's answer to a request: a ping is answered with a pong.
pub fn respond(request: &Request) -> (r: Response)
    ensures
        r is Pong,
{
    match request {
        Request::Ping => Response::Pong,
    }
}

// ---------------------------------------------------------------------------
// Framing
// ---------------------------------------------------------------------------

/// The characters that `char::is_whitespace` accepts (Unicode `White_Space`).
pub open spec fn is_space(c: char) -> bool {
    ||| '\t' <= c <= '\r'
    ||| c == ' '
    ||| c == '\u{85}'
    ||| c == '\u{a0}'
    ||| c == '\u{1680}'
    ||| '\u{2000}' <= c <= '\u{200a}'
    ||| c == '\u{2028}'
    ||| c == '\u{2029}'
    ||| c == '\u{202f}'
    ||| c == '\u{205f}'
    ||| c == '\u{3000}'
}

/// `s` without its leading white space.
pub open spec fn trim_start(s: Seq<char>) -> Seq<char>
    decreases s.len(),
{
    if s.len() > 0 && is_space(s[0]) {
        trim_start(s.drop_first())
    } else {
        s
    }
}

/// `s` without its trailing white space.
pub open spec fn trim_end(s: Seq<char>) -> Seq<char>
    decreases s.len(),
{
    if s.len() > 0 && is_space(s.last()) {
        trim_end(s.drop_last())
    } else {
        s
    }
}

/// `s` without leading and trailing white space (`str::trim`).
pub open spec fn trimmed(s: Seq<char>) -> Seq<char> {
    trim_end(trim_start(s))
}

/// `char::is_whitespace`.
pub fn is_whitespace(c: char) -> (r: bool)
    ensures
        r == is_space(c),
{
    ('\t' <= c && c <= '\r') || c == ' ' || c == '\u{85}' || c == '\u{a0}' || c == '\u{1680}' || (
    '\u{2000}' <= c && c <= '\u{200a}') || c == '\u{2028}' || c == '\u{2029}' || c == '\u{202f}'
        || c == '\u{205f}' || c == '\u{3000}'
}

proof fn lemma_trim_start(s: Seq<char>, k: int)
    requires
        0 <= k <= s.len(),
        forall|j: int| 0 <= j < k ==> is_space(#[trigger] s[j]),
        k == s.len() || !is_space(s[k]),
    ensures
        trim_start(s) == s.subrange(k, s.len() as int),
    decreases k,
{
    if k > 0 {
        let rest = s.drop_first();
        assert forall|j: int| 0 <= j < k - 1 implies is_space(#[trigger] rest[j]) by {
            assert(rest[j] == s[j + 1]);
        }
        lemma_trim_start(rest, k - 1);
        assert(rest.subrange(k - 1, rest.len() as int) =~= s.subrange(k, s.len() as int));
    } else {
        assert(s.subrange(0, s.len() as int) =~= s);
    }
}

proof fn lemma_trim_end(s: Seq<char>, e: int)
    requires
        0 <= e <= s.len(),
        forall|j: int| e <= j < s.len() ==> is_space(#[trigger] s[j]),
        e == 0 || !is_space(s[e - 1]),
    ensures
        trim_end(s) == s.take(e),
    decreases s.len() - e,
{
    if e < s.len() {
        let rest = s.drop_last();
        assert(is_space(s[s.len() - 1]));
        assert forall|j: int| e <= j < rest.len() implies is_space(#[trigger] rest[j]) by {
            assert(rest[j] == s[j]);
        }
        lemma_trim_end(rest, e);
        assert(rest.take(e) =~= s.take(e));
    } else {
        assert(s.take(e) =~= s);
    }
}

/// An encoded message followed by the newline that ends it on the wire.
pub fn frame_message(payload: &str) -> (r: String)
    ensures
        r@ == payload@.push('\n'),
{
    let mut chars = chars_of(payload);
    chars.push('\n');
    string_from_chars(chars)
}

/// The message text of a received line: the line without leading and
/// trailing white space, its newline included.
pub fn message_text(line: &str) -> (r: String)
    ensures
        r@ == trimmed(line@),
{
    let chars = chars_of(line);
    let n = chars.len();
    let mut start: usize = 0;
    while start < n && is_whitespace(chars[start])
        invariant
            n == chars@.len(),
            start <= n,
            forall|j: int| 0 <= j < start ==> is_space(#[trigger] chars@[j]),
        decreases n - start,
    {
        start = start + 1;
    }
    proof {
        lemma_trim_start(chars@, start as int);
    }
    let ghost rest = chars@.subrange(start as int, n as int);
    let mut end: usize = n;
    while end > start && is_whitespace(chars[end - 1])
        invariant
            n == chars@.len(),
            start <= end <= n,
            forall|j: int| end <= j < n ==> is_space(#[trigger] chars@[j]),
        decreases end - start,
    {
        end = end - 1;
    }
    proof {
        assert forall|j: int| end - start <= j < rest.len() implies is_space(#[trigger] rest[j]) by {
            assert(rest[j] == chars@[start + j]);
        }
        if end > start {
            assert(rest[end - start - 1] == chars@[end - 1]);
        }
        lemma_trim_end(rest, end - start);
    }
    let mut kept: Vec<char> = Vec::new();
    let mut i: usize = start;
    while i < end
        invariant
            n == chars@.len(),
            start <= i <= end <= n,
            kept@ =~= chars@.subrange(start as int, i as int),
        decreases end - i,
    {
        kept.push(chars[i]);
        i = i + 1;
    }
    assert(kept@ =~= rest.take(end - start));
    string_from_chars(kept)
}

/// Receiving what was sent: the message text of a framed payload is the
/// payload, when the payload neither starts nor ends with white space (as
/// no compact JSON text does).
pub proof fn lemma_frame_then_read(payload: Seq<char>)
    requires
        payload.len() == 0 || (!is_space(payload[0]) && !is_space(payload.last())),
    ensures
        trimmed(payload.push('\n')) == payload,
{
    let line = payload.push('\n');
    if payload.len() == 0 {
        assert(is_space(line[0]));
        lemma_trim_start(line, 1);
        assert(trim_start(line) =~= Seq::<char>::empty());
        assert(trim_end(Seq::<char>::empty()) == Seq::<char>::empty());
        assert(payload =~= Seq::<char>::empty());
    } else {
        assert(line[0] == payload[0]);
        lemma_trim_start(line, 0);
        assert(line.subrange(0, line.len() as int) =~= line);
        assert(line[payload.len() - 1] == payload.last());
        lemma_trim_end(line, payload.len() as int);
        assert(line.take(payload.len() as int) =~= payload);
    }
}

} // verus!
