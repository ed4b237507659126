//! The messages between client and daemon, and the lines that carry them.
//!
//! One message is one line of JSON. A reply carries the id of its request, so
//! that a client can send several before it reads. A query is answered by its
//! hits and an end; any other request by one result or one error. The first
//! line of each side names the version of the protocol.

use vstd::prelude::*;

use crate::text::{chars_of, text_of, whitespace};

verus! {

/// The version of the protocol. Raised with every change that an older client
/// or daemon would not understand.
pub const PROTOCOL_VERSION: u32 = 1;

/// The limit of a query that names none.
pub const DEFAULT_LIMIT: usize = 20;

/// What a client sends.
#[derive(Debug)]
pub enum ClientMessage {
    /// The first line of a connection.
    Hello { protocol: u32 },
    Request { id: u64, method: Method },
}

/// What a client asks for.
#[derive(Debug)]
pub enum Method {
    /// Searches the roots named, or all.
    Query {
        roots: Option<Vec<String>>,
        query: String,
        limit: usize,
        offset: usize,
        snippet: bool,
    },
    AddRoot { path: String },
    RemoveRoot { path: String },
    ListRoots,
    Status,
    /// Reconciles one root or all. The subtree is a hint; the whole root is
    /// reconciled all the same.
    Reconcile { root: Option<String>, subtree: Option<String> },
    /// Merges one root or all.
    Merge { root: Option<String> },
    Shutdown,
}

/// What the daemon sends.
#[derive(Debug)]
pub enum ServerMessage {
    HelloOk { protocol: u32, pid: u32 },
    Hit {
        id: u64,
        root: String,
        path: String,
        /// The bits of the score.
        score: u32,
        line_no: Option<usize>,
        snippet: Option<String>,
    },
    /// The end of a query: how many documents match, shown or not.
    Done { id: u64, total: usize, elapsed_us: u64 },
    /// The value as a text of JSON.
    Result { id: u64, value: String },
    /// Without an id only for a failed greeting, or a line from which no id
    /// could be read.
    Error { id: Option<u64>, message: String },
}

/// A [`ServerMessage`] by value.
pub ghost enum ServerMessageView {
    HelloOk { protocol: u32, pid: u32 },
    Hit {
        id: u64,
        root: Seq<char>,
        path: Seq<char>,
        score: u32,
        line_no: Option<usize>,
        snippet: Option<Seq<char>>,
    },
    Done { id: u64, total: usize, elapsed_us: u64 },
    Result { id: u64, value: Seq<char> },
    Error { id: Option<u64>, message: Seq<char> },
}

/// A text that may be missing, by value.
pub open spec fn text_view(t: Option<String>) -> Option<Seq<char>> {
    match t {
        Some(t) => Some(t@),
        None => None,
    }
}

impl View for ServerMessage {
    type V = ServerMessageView;

    open spec fn view(&self) -> ServerMessageView {
        match self {
            ServerMessage::HelloOk { protocol, pid } => ServerMessageView::HelloOk {
                protocol: *protocol,
                pid: *pid,
            },
            ServerMessage::Hit { id, root, path, score, line_no, snippet } =>
                ServerMessageView::Hit {
                id: *id,
                root: root@,
                path: path@,
                score: *score,
                line_no: *line_no,
                snippet: text_view(*snippet),
            },
            ServerMessage::Done { id, total, elapsed_us } => ServerMessageView::Done {
                id: *id,
                total: *total,
                elapsed_us: *elapsed_us,
            },
            ServerMessage::Result { id, value } => ServerMessageView::Result {
                id: *id,
                value: value@,
            },
            ServerMessage::Error { id, message } => ServerMessageView::Error {
                id: *id,
                message: message@,
            },
        }
    }
}

impl ServerMessage {
    /// An error.
    pub fn error(id: Option<u64>, message: &str) -> (m: Self)
        ensures
            m@ == (ServerMessageView::Error { id, message: message@ }),
    {
        ServerMessage::Error { id, message: message.to_string() }
    }

    /// A result, its value as a text of JSON.
    pub fn result(id: u64, value: &str) -> (m: Self)
        ensures
            m@ == (ServerMessageView::Result { id, value: value@ }),
    {
        ServerMessage::Result { id, value: value.to_string() }
    }
}

/// The line that carries a text of JSON, in which no line ends.
pub fn to_line(json: &str) -> (line: String)
    requires
        !json@.contains('\n'),
    ensures
        line@ == json@.push('\n'),
{
    let mut line: String = json.to_string();
    line.push('\n');
    line
}

/// Where a line ends without the characters that end it.
pub open spec fn cut_ending(s: Seq<char>, n: int) -> int
    decreases n,
{
    if n > 0 && (s[n - 1] == '\r' || s[n - 1] == '\n') {
        cut_ending(s, n - 1)
    } else {
        n
    }
}

/// A line without the characters that end it.
pub open spec fn line_text(s: Seq<char>) -> Seq<char> {
    s.take(cut_ending(s, s.len() as int))
}

/// White space only.
pub open spec fn is_blank(s: Seq<char>) -> bool {
    forall|i: int| 0 <= i < s.len() ==> whitespace(#[trigger] s[i])
}

/// The text of JSON on a line, or what to answer where there is none.
pub fn parse_client_line(line: &str) -> (r: Result<String, (Option<u64>, String)>)
    ensures
        match r {
            Ok(text) => !is_blank(line_text(line@)) && text@ == line_text(line@),
            Err((id, message)) => is_blank(line_text(line@)) && id is None && message@
                == "empty line"@,
        },
{
    let cs = chars_of(line);
    let mut n: usize = cs.len();
    while n > 0 && (cs[n - 1] == '\r' || cs[n - 1] == '\n')
        invariant
            n <= cs@.len(),
            cut_ending(cs@, cs@.len() as int) == cut_ending(cs@, n as int),
        decreases n,
    {
        n = n - 1;
    }
    let text = text_of(cs.as_slice(), 0, n);
    assert(text@ =~= line_text(line@));
    let mut i: usize = 0;
    while i < n
        invariant
            i <= n <= cs@.len(),
            cs@ == line@,
            text@ == line_text(line@),
            text@ == cs@.subrange(0, n as int),
            forall|k: int| 0 <= k < i ==> whitespace(#[trigger] text@[k]),
        decreases n - i,
    {
        if !cs[i].is_whitespace() {
            assert(text@[i as int] == cs@[i as int]);
            return Ok(text);
        }
        assert(text@[i as int] == cs@[i as int]);
        i = i + 1;
    }
    Err((None, "empty line".to_string()))
}

/// The number that serde_json reads under `key` of the object that this text of
/// JSON holds, if it holds one.
pub uninterp spec fn json_number(text: Seq<char>, key: Seq<char>) -> Option<u64>;

/// `serde_json::from_str` into a `Value`, then its `get` of the key and `as_u64`:
/// `None` where the text is not JSON, not an object, or has no such number.
#[verifier::external_body]
fn read_json_number(text: &str, key: &str) -> (r: Option<u64>)
    ensures
        r == json_number(text@, key@),
{
    serde_json::from_str::<serde_json::Value>(text).ok().and_then(|v| v.get(key)?.as_u64())
}

/// What to answer to a text that is no message: the id of the request as far as
/// it can be read, and the reason.
pub fn malformed(text: &str, reason: &str) -> (r: (Option<u64>, String))
    ensures
        r.0 == json_number(text@, "id"@),
        r.1@ == "malformed request: "@ + reason@,
{
    let mut message: String = "malformed request: ".to_string();
    message.push_str(reason);
    (read_json_number(text, "id"), message)
}

proof fn lemma_cut_ending(s: Seq<char>, n: int)
    requires
        0 < n <= s.len(),
        s[n - 1] != '\r' && s[n - 1] != '\n',
        forall|k: int| n <= k < s.len() ==> (#[trigger] s[k] == '\r' || s[k] == '\n'),
    ensures
        cut_ending(s, s.len() as int) == n,
{
    lemma_cut_to(s, n, s.len() as int);
}

proof fn lemma_cut_to(s: Seq<char>, n: int, m: int)
    requires
        0 < n <= m <= s.len(),
        s[n - 1] != '\r' && s[n - 1] != '\n',
        forall|k: int| n <= k < s.len() ==> (#[trigger] s[k] == '\r' || s[k] == '\n'),
    ensures
        cut_ending(s, m) == n,
    decreases m,
{
    if m > n {
        assert(s[m - 1] == '\r' || s[m - 1] == '\n');
        lemma_cut_to(s, n, m - 1);
    }
}

/// The text of a line is the text that the line was made of, where that text
/// ends like one of JSON does: not in a character that ends a line.
pub proof fn lemma_line_round_trip(json: Seq<char>)
    requires
        json.len() > 0,
        json.last() != '\r' && json.last() != '\n',
    ensures
        line_text(json.push('\n')) == json,
{
    let line = json.push('\n');
    assert(line[json.len() - 1] == json.last());
    lemma_cut_ending(line, json.len() as int);
    assert(line.take(json.len() as int) =~= json);
}

/// A line holds one end of line, its last character: whatever a message holds,
/// the lines stay apart.
pub proof fn lemma_one_message_one_line(json: Seq<char>, k: int)
    requires
        !json.contains('\n'),
        0 <= k < json.len() + 1,
    ensures
        json.push('\n')[k] == '\n' <==> k == json.len(),
{
    if k < json.len() {
        assert(json.contains(json[k]));
    }
}

} // verus!
