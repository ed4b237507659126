//! The client's side: saying hello, starting a daemon where there is none, and
//! taking in the reply to a request.

use vstd::prelude::*;

use crate::daemon::protocol::{text_view, ServerMessage, ServerMessageView, PROTOCOL_VERSION};
use crate::text::{decimal, push_decimal};

verus! {

/// One hit of a reply.
#[derive(Debug)]
pub struct QueryHit {
    pub root: String,
    pub path: String,
    /// The bits of the score.
    pub score: u32,
    pub line_no: Option<usize>,
    pub snippet: Option<String>,
}

/// The reply to a request.
#[derive(Debug)]
pub enum Reply {
    /// The value of a result, as a text of JSON.
    Result(String),
    /// The hits of a query, how many documents match, and how long it took.
    Query { hits: Vec<QueryHit>, total: usize, elapsed_us: u64 },
    Error(String),
}

/// What came from the daemon.
#[derive(Debug)]
pub enum Received {
    /// The daemon closed the connection.
    Closed,
    Message(ServerMessage),
    /// A line that is no message: why.
    Garbled(String),
}

/// Takes in the reply to a hello; `shown` is that reply for people to read.
pub fn handshake(received: &Received, shown: &str) -> (r: Result<(), String>)
    ensures
        match (received, r) {
            (Received::Message(ServerMessage::HelloOk { protocol, .. }), Ok(())) => *protocol
                == PROTOCOL_VERSION,
            (Received::Message(ServerMessage::HelloOk { protocol, .. }), Err(e)) => *protocol
                != PROTOCOL_VERSION && e@ == mismatch(*protocol),
            (Received::Message(ServerMessage::Error { message, .. }), Err(e)) => e@ == message@,
            (_, Err(e)) => e@ == "unexpected handshake reply: "@ + shown@,
            _ => false,
        },
{
    match received {
        Received::Message(ServerMessage::HelloOk { protocol, .. }) => {
            if *protocol == PROTOCOL_VERSION {
                return Ok(());
            }
            let mut e: String = "protocol mismatch: this client speaks ".to_string();
            push_decimal(&mut e, PROTOCOL_VERSION as u64);
            e.push_str(", the daemon speaks ");
            push_decimal(&mut e, *protocol as u64);
            e.push_str(" — rebuild one to match the other");
            Err(e)
        },
        Received::Message(ServerMessage::Error { message, .. }) => Err(message.clone()),
        _ => {
            let mut e: String = "unexpected handshake reply: ".to_string();
            e.push_str(shown);
            Err(e)
        },
    }
}

/// What is told of a daemon of another version.
pub open spec fn mismatch(protocol: u32) -> Seq<char> {
    "protocol mismatch: this client speaks "@ + decimal(PROTOCOL_VERSION as nat)
        + ", the daemon speaks "@ + decimal(protocol as nat)
        + " — rebuild one to match the other"@
}

/// The ids of a client's requests: one, two and so on.
#[derive(Debug)]
pub struct RequestIds {
    pub next: u64,
}

impl RequestIds {
    /// From one on.
    pub fn new() -> (ids: Self)
        ensures
            ids.next == 1,
    {
        RequestIds { next: 1 }
    }

    /// The next id.
    pub fn take(&mut self) -> (id: u64)
        requires
            old(self).next < u64::MAX,
        ensures
            id == old(self).next,
            final(self).next == id + 1,
    {
        let id: u64 = self.next;
        self.next = id + 1;
        id
    }
}

/// A [`QueryHit`] by value.
pub ghost struct HitView {
    pub root: Seq<char>,
    pub path: Seq<char>,
    pub score: u32,
    pub line_no: Option<usize>,
    pub snippet: Option<Seq<char>>,
}

impl View for QueryHit {
    type V = HitView;

    open spec fn view(&self) -> HitView {
        HitView {
            root: self.root@,
            path: self.path@,
            score: self.score,
            line_no: self.line_no,
            snippet: text_view(self.snippet),
        }
    }
}

/// The hits by value.
pub open spec fn hit_views(hits: Seq<QueryHit>) -> Seq<HitView> {
    Seq::new(hits.len(), |i: int| hits[i]@)
}

/// A [`Reply`] by value.
pub ghost enum ReplyView {
    Result(Seq<char>),
    Query { hits: Seq<HitView>, total: usize, elapsed_us: u64 },
    Error(Seq<char>),
}

impl View for Reply {
    type V = ReplyView;

    open spec fn view(&self) -> ReplyView {
        match self {
            Reply::Result(value) => ReplyView::Result(value@),
            Reply::Query { hits, total, elapsed_us } => ReplyView::Query {
                hits: hit_views(hits@),
                total: *total,
                elapsed_us: *elapsed_us,
            },
            Reply::Error(message) => ReplyView::Error(message@),
        }
    }
}

/// How far the exchange has come.
#[derive(Debug)]
pub enum Progress {
    /// More is to come.
    More,
    /// The reply is complete.
    Replied(Reply),
    /// There will be no reply: why.
    Failed(String),
}

/// A [`Progress`] by value.
pub ghost enum ProgressView {
    More,
    Replied(ReplyView),
    Failed(Seq<char>),
}

impl View for Progress {
    type V = ProgressView;

    open spec fn view(&self) -> ProgressView {
        match self {
            Progress::More => ProgressView::More,
            Progress::Replied(r) => ProgressView::Replied(r@),
            Progress::Failed(why) => ProgressView::Failed(why@),
        }
    }
}

/// What the request `id` makes of a message, with the hits gathered so far: the
/// hits from then on, and how far it has come. A message for another request is
/// passed over.
pub open spec fn taken(id: u64, hits: Seq<HitView>, m: ServerMessageView) -> (
    Seq<HitView>,
    ProgressView,
) {
    match m {
        ServerMessageView::Result { id: of, value } => (
            hits,
            if of == id {
                ProgressView::Replied(ReplyView::Result(value))
            } else {
                ProgressView::More
            },
        ),
        ServerMessageView::Error { id: of, message } => (
            hits,
            if of == Some(id) || of is None {
                ProgressView::Replied(ReplyView::Error(message))
            } else {
                ProgressView::More
            },
        ),
        ServerMessageView::Hit { id: of, root, path, score, line_no, snippet } => (
            if of == id {
                hits.push(HitView { root, path, score, line_no, snippet })
            } else {
                hits
            },
            ProgressView::More,
        ),
        ServerMessageView::Done { id: of, total, elapsed_us } => if of == id {
            (
                Seq::empty(),
                ProgressView::Replied(ReplyView::Query { hits, total, elapsed_us }),
            )
        } else {
            (hits, ProgressView::More)
        },
        ServerMessageView::HelloOk { .. } => (hits, ProgressView::More),
    }
}

/// One request and what came of its reply so far.
#[derive(Debug)]
pub struct Exchange {
    pub id: u64,
    pub hits: Vec<QueryHit>,
}

impl Exchange {
    /// A request of which nothing came yet.
    pub fn new(id: u64) -> (e: Self)
        ensures
            e.id == id,
            hit_views(e.hits@) == Seq::<HitView>::empty(),
    {
        let hits: Vec<QueryHit> = Vec::new();
        assert(hit_views(hits@) =~= Seq::empty());
        Exchange { id, hits }
    }

    /// Takes in what came.
    pub fn take(&mut self, received: Received) -> (p: Progress)
        ensures
            final(self).id == old(self).id,
            match received {
                Received::Closed => p@ == ProgressView::Failed(
                    "daemon closed the connection mid-response"@,
                ) && final(self).hits == old(self).hits,
                Received::Garbled(why) => p@ == ProgressView::Failed(
                    "malformed reply from daemon: "@ + why@,
                ) && final(self).hits == old(self).hits,
                Received::Message(m) => (hit_views(final(self).hits@), p@) == taken(
                    old(self).id,
                    hit_views(old(self).hits@),
                    m@,
                ),
            },
    {
        let id: u64 = self.id;
        let m = match received {
            Received::Closed => {
                return Progress::Failed("daemon closed the connection mid-response".to_string());
            },
            Received::Garbled(why) => {
                let mut e: String = "malformed reply from daemon: ".to_string();
                e.push_str(why.as_str());
                return Progress::Failed(e);
            },
            Received::Message(m) => m,
        };
        match m {
            ServerMessage::Result { id: of, value } => {
                if of == id {
                    Progress::Replied(Reply::Result(value))
                } else {
                    Progress::More
                }
            },
            ServerMessage::Error { id: of, message } => {
                let own: bool = match of {
                    Some(of) => of == id,
                    None => true,
                };
                if own {
                    Progress::Replied(Reply::Error(message))
                } else {
                    Progress::More
                }
            },
            ServerMessage::Hit { id: of, root, path, score, line_no, snippet } => {
                if of == id {
                    let ghost had = hit_views(self.hits@);
                    let hit = QueryHit { root, path, score, line_no, snippet };
                    let ghost new = hit@;
                    self.hits.push(hit);
                    assert(hit_views(self.hits@) =~= had.push(new));
                }
                Progress::More
            },
            ServerMessage::Done { id: of, total, elapsed_us } => {
                if of == id {
                    let mut hits: Vec<QueryHit> = Vec::new();
                    core::mem::swap(&mut hits, &mut self.hits);
                    assert(hit_views(self.hits@) =~= Seq::empty());
                    Progress::Replied(Reply::Query { hits, total, elapsed_us })
                } else {
                    Progress::More
                }
            },
            ServerMessage::HelloOk { .. } => Progress::More,
        }
    }
}

/// The hits gathered behind these messages.
pub open spec fn gathered(id: u64, ms: Seq<ServerMessageView>) -> Seq<HitView>
    decreases ms.len(),
{
    if ms.len() == 0 {
        Seq::empty()
    } else {
        taken(id, gathered(id, ms.drop_last()), ms.last()).0
    }
}

/// The hits for request `id` among these messages, in their order.
pub open spec fn hits_for(id: u64, ms: Seq<ServerMessageView>) -> Seq<HitView>
    decreases ms.len(),
{
    if ms.len() == 0 {
        Seq::empty()
    } else {
        match ms.last() {
            ServerMessageView::Hit { id: of, root, path, score, line_no, snippet } if of == id =>
                hits_for(id, ms.drop_last()).push(HitView { root, path, score, line_no, snippet }),
            _ => hits_for(id, ms.drop_last()),
        }
    }
}

/// The message does not complete the request.
pub open spec fn goes_on(id: u64, m: ServerMessageView) -> bool {
    for_another(id, m) || m is Hit
}

/// The reply to a query holds the hits for its id, all of them and no others, in
/// the order in which they came, whatever else came between.
pub proof fn lemma_reply_holds_its_hits(
    id: u64,
    ms: Seq<ServerMessageView>,
    total: usize,
    elapsed_us: u64,
)
    requires
        forall|i: int| 0 <= i < ms.len() ==> goes_on(id, #[trigger] ms[i]),
    ensures
        taken(id, gathered(id, ms), ServerMessageView::Done { id, total, elapsed_us }).1
            == ProgressView::Replied(
            ReplyView::Query { hits: hits_for(id, ms), total, elapsed_us },
        ),
{
    lemma_gathered(id, ms);
}

proof fn lemma_gathered(id: u64, ms: Seq<ServerMessageView>)
    requires
        forall|i: int| 0 <= i < ms.len() ==> goes_on(id, #[trigger] ms[i]),
    ensures
        gathered(id, ms) == hits_for(id, ms),
    decreases ms.len(),
{
    if ms.len() > 0 {
        let front = ms.drop_last();
        assert forall|i: int| 0 <= i < front.len() implies goes_on(id, #[trigger] front[i]) by {
            assert(front[i] == ms[i]);
        }
        lemma_gathered(id, front);
        assert(goes_on(id, ms[ms.len() - 1]));
    }
}

/// The message is for another request.
pub open spec fn for_another(id: u64, m: ServerMessageView) -> bool {
    match m {
        ServerMessageView::Result { id: of, .. } => of != id,
        ServerMessageView::Error { id: of, .. } => of matches Some(of) && of != id,
        ServerMessageView::Hit { id: of, .. } => of != id,
        ServerMessageView::Done { id: of, .. } => of != id,
        ServerMessageView::HelloOk { .. } => true,
    }
}

/// Replies to several requests can be mixed on one connection: what is for
/// another request changes neither the hits of this one nor when it is complete.
pub proof fn lemma_replies_do_not_mix(id: u64, hits: Seq<HitView>, m: ServerMessageView)
    requires
        for_another(id, m),
    ensures
        taken(id, hits, m) == (hits, ProgressView::More),
{
}

/// How a daemon is started where there is none. Times are in milliseconds.
#[derive(Debug, Clone, Copy, PartialEq, Eq, Structural)]
pub enum Autostart {
    /// Trying the daemon that may be there.
    Trying,
    /// A daemon was started; it has until then to answer.
    Waiting { deadline: u64 },
}

/// What came of an attempt to connect.
#[derive(Debug, Clone, Copy, PartialEq, Eq, Structural)]
pub enum Attempt {
    Connected,
    /// Whether the error says that nothing is listening.
    Failed { not_running: bool },
}

/// What to do next.
#[derive(Debug, Clone, Copy, PartialEq, Eq, Structural)]
pub enum Start {
    /// Use the connection.
    Use,
    /// Start a daemon, then try again.
    Spawn,
    /// Wait so long, then try again.
    Wait(u64),
    /// Give the error back.
    GiveUp,
}

/// How long a daemon that was started has to answer.
pub const START_MS: u64 = 2000;

/// The time between two attempts.
pub const RETRY_MS: u64 = 50;

/// What an attempt leads to.
pub open spec fn attempted(s: Autostart, attempt: Attempt, now: u64) -> (Autostart, Start) {
    match (s, attempt) {
        (_, Attempt::Connected) => (s, Start::Use),
        (Autostart::Trying, Attempt::Failed { not_running }) => if not_running {
            (
                Autostart::Waiting {
                    deadline: if now + START_MS <= u64::MAX {
                        (now + START_MS) as u64
                    } else {
                        u64::MAX
                    },
                },
                Start::Spawn,
            )
        } else {
            (s, Start::GiveUp)
        },
        (Autostart::Waiting { deadline }, Attempt::Failed { .. }) => if now >= deadline {
            (s, Start::GiveUp)
        } else {
            (s, Start::Wait(RETRY_MS))
        },
    }
}

impl Autostart {
    /// Takes in what came of an attempt and says what to do next.
    pub fn attempt(&mut self, attempt: Attempt, now: u64) -> (start: Start)
        ensures
            (*final(self), start) == attempted(*old(self), attempt, now),
    {
        match (*self, attempt) {
            (_, Attempt::Connected) => Start::Use,
            (Autostart::Trying, Attempt::Failed { not_running }) => {
                if not_running {
                    *self = Autostart::Waiting { deadline: now.saturating_add(START_MS) };
                    Start::Spawn
                } else {
                    Start::GiveUp
                }
            },
            (Autostart::Waiting { deadline }, Attempt::Failed { .. }) => {
                if now >= deadline {
                    Start::GiveUp
                } else {
                    Start::Wait(RETRY_MS)
                }
            },
        }
    }
}

/// A client starts one daemon at most: once it has, no attempt starts another.
pub proof fn lemma_starts_once(s: Autostart, attempt: Attempt, now: u64)
    requires
        s is Waiting,
    ensures
        attempted(s, attempt, now).0 == s,
        attempted(s, attempt, now).1 != Start::Spawn,
{
}

} // verus!
