//! What the daemon does with a connection, with a query over several roots, and
//! with the roots it has.

use vstd::prelude::*;

use crate::daemon::config::{millis, Config, GovernorConfig, MergeConfig};
use crate::daemon::protocol::{
    ClientMessage, Method, ServerMessage, ServerMessageView, PROTOCOL_VERSION,
};
use crate::error::{query_message, QueryErrorView};
use crate::query::parser::{parsed, NodeView};
use crate::query::Query;
use crate::sort::{is_order, order, Ranked};
use crate::store::watcher::WatchConfig;
use crate::text::{decimal, push_decimal, same, views};

verus! {

/// What came on a connection.
#[derive(Debug)]
pub enum Incoming {
    /// The client closed the connection.
    Closed,
    Message(ClientMessage),
    /// A line that is no message: the id to answer under, and the answer.
    Refused { id: Option<u64>, message: String },
}

/// Where a connection stands.
#[derive(Debug, Clone, Copy, PartialEq, Eq, Structural)]
pub enum Stage {
    /// Nothing came yet.
    Greeting,
    /// The client has said hello.
    Serving,
    /// Over.
    Over,
}

/// What to do next with a connection.
#[derive(Debug)]
pub enum Turn {
    /// Send this and read on.
    Send(ServerMessage),
    /// Send this and close.
    Dismiss(ServerMessage),
    /// Do what is asked for and answer it under this id.
    Serve { id: u64, method: Method },
    /// Send this and end the daemon.
    ShutDown(ServerMessage),
    Close,
}

/// A [`Turn`] by value.
pub ghost enum TurnView {
    Send(ServerMessageView),
    Dismiss(ServerMessageView),
    Serve { id: u64, method: Method },
    ShutDown(ServerMessageView),
    Close,
}

impl View for Turn {
    type V = TurnView;

    open spec fn view(&self) -> TurnView {
        match self {
            Turn::Send(m) => TurnView::Send(m@),
            Turn::Dismiss(m) => TurnView::Dismiss(m@),
            Turn::Serve { id, method } => TurnView::Serve { id: *id, method: *method },
            Turn::ShutDown(m) => TurnView::ShutDown(m@),
            Turn::Close => TurnView::Close,
        }
    }
}

/// An error under no id.
pub open spec fn plain_error(message: Seq<char>) -> ServerMessageView {
    ServerMessageView::Error { id: None, message }
}

/// What is told to a client of another version.
pub open spec fn mismatch(protocol: u32) -> Seq<char> {
    "protocol mismatch: server="@ + decimal(PROTOCOL_VERSION as nat) + ", client="@ + decimal(
        protocol as nat,
    )
}

/// What a connection does with what came.
pub open spec fn heard(stage: Stage, incoming: Incoming, pid: u32) -> (Stage, TurnView) {
    match (stage, incoming) {
        (Stage::Over, _) | (_, Incoming::Closed) => (Stage::Over, TurnView::Close),
        (Stage::Greeting, Incoming::Message(ClientMessage::Hello { protocol })) => if protocol
            == PROTOCOL_VERSION {
            (
                Stage::Serving,
                TurnView::Send(ServerMessageView::HelloOk { protocol: PROTOCOL_VERSION, pid }),
            )
        } else {
            (Stage::Over, TurnView::Dismiss(plain_error(mismatch(protocol))))
        },
        (Stage::Greeting, _) => (
            Stage::Over,
            TurnView::Dismiss(plain_error("first message on a connection must be `hello`"@)),
        ),
        (Stage::Serving, Incoming::Message(ClientMessage::Hello { .. })) => (
            Stage::Serving,
            TurnView::Send(plain_error("unexpected second `hello`"@)),
        ),
        (Stage::Serving, Incoming::Message(ClientMessage::Request { id, method })) => if method
            is Shutdown {
            (
                Stage::Over,
                TurnView::ShutDown(ServerMessageView::Result { id, value: "{\"ok\":true}"@ }),
            )
        } else {
            (Stage::Serving, TurnView::Serve { id, method })
        },
        (Stage::Serving, Incoming::Refused { id, message }) => (
            Stage::Serving,
            TurnView::Send(ServerMessageView::Error { id, message: message@ }),
        ),
    }
}

/// One connection.
#[derive(Debug, Clone, Copy, PartialEq, Eq, Structural)]
pub struct Session {
    pub stage: Stage,
    /// The process that says hello back.
    pub pid: u32,
}

impl Session {
    /// A connection on which nothing came yet.
    pub fn new(pid: u32) -> (s: Self)
        ensures
            s == (Session { stage: Stage::Greeting, pid }),
    {
        Session { stage: Stage::Greeting, pid }
    }

    /// Takes in what came and says what to do next.
    pub fn hear(&mut self, incoming: Incoming) -> (turn: Turn)
        ensures
            final(self).pid == old(self).pid,
            (final(self).stage, turn@) == heard(old(self).stage, incoming, old(self).pid),
    {
        match self.stage {
            Stage::Over => Turn::Close,
            Stage::Greeting => {
                self.stage = Stage::Over;
                match incoming {
                    Incoming::Closed => Turn::Close,
                    Incoming::Message(ClientMessage::Hello { protocol }) => {
                        if protocol == PROTOCOL_VERSION {
                            self.stage = Stage::Serving;
                            return Turn::Send(
                                ServerMessage::HelloOk { protocol: PROTOCOL_VERSION, pid: self.pid },
                            );
                        }
                        let mut why: String = "protocol mismatch: server=".to_string();
                        push_decimal(&mut why, PROTOCOL_VERSION as u64);
                        why.push_str(", client=");
                        push_decimal(&mut why, protocol as u64);
                        Turn::Dismiss(ServerMessage::error(None, why.as_str()))
                    },
                    _ => Turn::Dismiss(
                        ServerMessage::error(
                            None,
                            "first message on a connection must be `hello`",
                        ),
                    ),
                }
            },
            Stage::Serving => match incoming {
                Incoming::Closed => {
                    self.stage = Stage::Over;
                    Turn::Close
                },
                Incoming::Message(ClientMessage::Hello { .. }) => Turn::Send(
                    ServerMessage::error(None, "unexpected second `hello`"),
                ),
                Incoming::Message(ClientMessage::Request { id, method }) => {
                    if let Method::Shutdown = &method {
                        self.stage = Stage::Over;
                        return Turn::ShutDown(ServerMessage::result(id, "{\"ok\":true}"));
                    }
                    Turn::Serve { id, method }
                },
                Incoming::Refused { id, message } => Turn::Send(
                    ServerMessage::error(id, message.as_str()),
                ),
            },
        }
    }
}

/// The stage behind a sequence of what came.
pub open spec fn stage_after(lines: Seq<Incoming>, pid: u32) -> Stage
    decreases lines.len(),
{
    if lines.len() == 0 {
        Stage::Greeting
    } else {
        heard(stage_after(lines.drop_last(), pid), lines.last(), pid).0
    }
}

/// Nothing is served on a connection, and the daemon is not ended over it,
/// unless its first line was a hello of this version.
pub proof fn lemma_hello_comes_first(lines: Seq<Incoming>, pid: u32)
    requires
        lines.len() > 0,
        ({
            let turn = heard(stage_after(lines.drop_last(), pid), lines.last(), pid).1;
            turn is Serve || turn is ShutDown
        }),
    ensures
        lines[0] == Incoming::Message(ClientMessage::Hello { protocol: PROTOCOL_VERSION }),
{
    lemma_serving(lines.drop_last(), pid);
}

proof fn lemma_serving(lines: Seq<Incoming>, pid: u32)
    ensures
        stage_after(lines, pid) is Serving ==> lines.len() > 0 && lines[0] == Incoming::Message(
            ClientMessage::Hello { protocol: PROTOCOL_VERSION },
        ),
        lines.len() > 0 ==> !(stage_after(lines, pid) is Greeting),
    decreases lines.len(),
{
    if lines.len() > 0 {
        lemma_serving(lines.drop_last(), pid);
        if lines.len() == 1 {
            assert(lines.drop_last() =~= Seq::empty());
        }
    }
}

/// A line that is no message is answered, under its id as far as it has one, and
/// the connection goes on.
pub proof fn lemma_garbage_is_survived(id: Option<u64>, message: String, pid: u32)
    ensures
        heard(Stage::Serving, Incoming::Refused { id, message }, pid) == (
            Stage::Serving,
            TurnView::Send(ServerMessageView::Error { id, message: message@ }),
        ),
{
}

/// The query, or what to answer where it cannot be parsed.
pub fn parse_query(query: &str) -> (r: Result<Query, String>)
    requires
        query@.len() <= u32::MAX,
    ensures
        match r {
            Ok(q) => parsed(query@) == Ok::<NodeView, QueryErrorView>(q.node()),
            Err(message) => parsed(query@) matches Err(e) && message@ == "invalid query: "@
                + query_message(e),
        },
{
    match Query::parse(query) {
        Ok(q) => Ok(q),
        Err(e) => {
            let mut message: String = "invalid query: ".to_string();
            message.push_str(e.message().as_str());
            Err(message)
        },
    }
}

/// How many hits each root is asked for, so that a page of `limit` behind
/// `offset` can be cut from all of them: the sum of the two, or the limit where
/// the sum goes beyond the range of the type and starts again from zero.
pub fn fetch_limit(limit: usize, offset: usize) -> (n: usize)
    ensures
        limit + offset <= usize::MAX ==> n == limit + offset,
        limit + offset > usize::MAX ==> n == limit,
{
    match limit.checked_add(offset) {
        Some(n) => n,
        None => limit,
    }
}

/// What hits of several roots are ranked by: a key that is larger for a better
/// score.
#[derive(Debug, Clone, Copy, PartialEq, Eq, Structural)]
pub struct HitKey {
    pub key: u32,
}

impl Ranked for HitKey {
    open spec fn below(&self, other: &Self) -> bool {
        self.key > other.key
    }

    proof fn lemma_ranks(a: &Self, b: &Self, c: &Self) {
    }

    fn is_below(&self, other: &Self) -> (r: bool) {
        self.key > other.key
    }
}

/// The lesser of two numbers.
pub open spec fn least(a: int, b: int) -> int {
    if a < b {
        a
    } else {
        b
    }
}

/// The page of `limit` hits behind the first `offset`: the best first, hits of
/// the same score in the order in which they came.
pub open spec fn is_page(keys: Seq<HitKey>, offset: int, limit: int, page: Seq<usize>) -> bool {
    exists|places: Seq<usize>| #[trigger]
        is_order(keys, places) && page == places.subrange(
            least(offset, places.len() as int),
            least(offset + limit, places.len() as int),
        )
}

/// The places of the hits of a page.
pub fn page(keys: &[HitKey], offset: usize, limit: usize) -> (r: Vec<usize>)
    ensures
        is_page(keys@, offset as int, limit as int, r@),
{
    let places = order(keys);
    let n: usize = places.len();
    let a: usize = if offset < n {
        offset
    } else {
        n
    };
    let b: usize = if limit < n - a {
        a + limit
    } else {
        n
    };
    let mut r: Vec<usize> = Vec::new();
    let mut i: usize = a;
    assert(places@.subrange(a as int, a as int) =~= Seq::empty());
    while i < b
        invariant
            a <= i <= b <= n == places@.len(),
            r@ == places@.subrange(a as int, i as int),
        decreases b - i,
    {
        r.push(places[i]);
        i = i + 1;
        assert(places@.subrange(a as int, i as int) =~= places@.subrange(
            a as int,
            i - 1,
        ).push(places@[i - 1]));
    }
    assert(a == least(offset as int, n as int));
    assert(b == least(offset + limit, n as int));
    assert(is_order(keys@, places@));
    r
}

/// Two pages, the second behind the first, are together the page of both limits:
/// nothing is left out between them and nothing comes twice.
pub proof fn lemma_pages_join(
    keys: Seq<HitKey>,
    offset: int,
    a: int,
    b: int,
    first: Seq<usize>,
    second: Seq<usize>,
)
    requires
        offset >= 0,
        a >= 0,
        b >= 0,
        is_page(keys, offset, a, first),
        is_page(keys, offset + a, b, second),
    ensures
        is_page(keys, offset, a + b, first + second),
{
    let p = choose|p: Seq<usize>| #[trigger]
        is_order(keys, p) && first == p.subrange(
            least(offset, p.len() as int),
            least(offset + a, p.len() as int),
        );
    let q = choose|q: Seq<usize>| #[trigger]
        is_order(keys, q) && second == q.subrange(
            least(offset + a, q.len() as int),
            least(offset + a + b, q.len() as int),
        );
    crate::sort::lemma_order_is_unique(keys, p, q);
    let n = p.len() as int;
    assert(first + second =~= p.subrange(least(offset, n), least(offset + (a + b), n)));
    assert(is_order(keys, p));
}

/// How many documents match in all roots.
pub open spec fn sum_of(totals: Seq<usize>, n: int) -> int
    decreases n,
{
    if n <= 0 {
        0
    } else {
        sum_of(totals, n - 1) + totals[n - 1]
    }
}

proof fn lemma_sum_grows(totals: Seq<usize>, n: int, m: int)
    requires
        0 <= n <= m <= totals.len(),
    ensures
        0 <= sum_of(totals, n) <= sum_of(totals, m),
    decreases m,
{
    if n < m {
        lemma_sum_grows(totals, n, m - 1);
    } else if m > 0 {
        lemma_sum_grows(totals, n - 1, m - 1);
    }
}

/// How many documents match in all roots, shown or not.
pub fn total_matches(totals: &[usize]) -> (n: usize)
    ensures
        n == least(sum_of(totals@, totals@.len() as int), usize::MAX as int),
{
    let mut n: usize = 0;
    let mut i: usize = 0;
    while i < totals.len()
        invariant
            i <= totals@.len(),
            n == least(sum_of(totals@, i as int), usize::MAX as int),
        decreases totals@.len() - i,
    {
        proof {
            lemma_sum_grows(totals@, i as int, i + 1);
        }
        n = n.saturating_add(totals[i]);
        i = i + 1;
    }
    n
}

/// A root as a client named it, and the name that the daemon knows it by.
#[derive(Debug)]
pub struct Asked {
    pub given: String,
    pub key: String,
}

/// How the daemon keeps each of its roots.
#[derive(Debug, Clone, Copy, PartialEq, Eq, Structural)]
pub struct Upkeep {
    /// When its segments are merged.
    pub merge: MergeConfig,
    /// How much a merge may take.
    pub governor: GovernorConfig,
    /// How it is watched.
    pub watch: WatchConfig,
}

/// The upkeep that a configuration asks for.
pub open spec fn upkeep_of(config: Config) -> Upkeep {
    Upkeep {
        merge: config.merge,
        governor: config.governor,
        watch: WatchConfig {
            debounce_ms: config.watch_debounce_ms,
            periodic_reconcile_ms: millis(config.periodic_reconcile_secs),
        },
    }
}

/// The roots that the daemon has, by name, how they are kept, and how many clients it
/// has.
#[derive(Debug)]
pub struct Registry {
    names: Vec<String>,
    upkeep: Upkeep,
    connections: u64,
}

/// No name comes twice.
pub open spec fn distinct(names: Seq<Seq<char>>) -> bool {
    forall|i: int, j: int| 0 <= i < j < names.len() ==> #[trigger] names[i] != #[trigger] names[j]
}

/// The first of the roots asked for that the daemon does not have.
pub open spec fn first_missing(names: Seq<Seq<char>>, asked: Seq<Asked>) -> Option<int>
    decreases asked.len(),
{
    if asked.len() == 0 {
        None
    } else {
        match first_missing(names, asked.drop_last()) {
            Some(i) => Some(i),
            None => if names.contains(asked.last().key@) {
                None
            } else {
                Some(asked.len() - 1)
            },
        }
    }
}

/// The places of the roots asked for.
pub open spec fn are_places(names: Seq<Seq<char>>, asked: Seq<Asked>, places: Seq<usize>) -> bool {
    &&& places.len() == asked.len()
    &&& forall|i: int|
        0 <= i < places.len() ==> (#[trigger] places[i]) < names.len() && names[places[i] as int]
            == asked[i].key@
}

impl Registry {
    /// The names of the roots, in the order in which they were added.
    pub closed spec fn roots(&self) -> Seq<Seq<char>> {
        views(self.names@)
    }

    /// How many clients are connected.
    pub closed spec fn clients(&self) -> u64 {
        self.connections
    }

    /// How every root is kept.
    pub closed spec fn kept_by(&self) -> Upkeep {
        self.upkeep
    }

    /// No root is there twice.
    #[verifier::type_invariant]
    closed spec fn inv(self) -> bool {
        distinct(views(self.names@))
    }

    /// Without roots and clients. Every root will be kept as the configuration says.
    pub fn new(config: &Config) -> (r: Self)
        ensures
            r.roots() == Seq::<Seq<char>>::empty(),
            r.clients() == 0,
            r.kept_by() == upkeep_of(*config),
    {
        let names: Vec<String> = Vec::new();
        assert(views(names@) =~= Seq::empty());
        let upkeep = Upkeep {
            merge: config.merge,
            governor: config.governor,
            watch: config.watch_config(),
        };
        Registry { names, upkeep, connections: 0 }
    }

    /// How every root is kept.
    pub fn upkeep(&self) -> (u: Upkeep)
        ensures
            u == self.kept_by(),
    {
        self.upkeep
    }

    /// The place of a root.
    pub fn get(&self, key: &str) -> (place: Option<usize>)
        ensures
            match place {
                Some(p) => p < self.roots().len() && self.roots()[p as int] == key@,
                None => !self.roots().contains(key@),
            },
            distinct(self.roots()),
    {
        proof {
            use_type_invariant(self);
        }
        let mut i: usize = 0;
        while i < self.names.len()
            invariant
                i <= self.names@.len(),
                forall|k: int| 0 <= k < i ==> views(self.names@)[k] != key@,
                distinct(views(self.names@)),
            decreases self.names@.len() - i,
        {
            if same(self.names[i].as_str(), key) {
                assert(views(self.names@)[i as int] == key@);
                return Some(i);
            }
            i = i + 1;
        }
        None
    }

    /// Adds a root unless it is there: the place of the root, and whether it is
    /// new. Adding one again changes nothing.
    pub fn add_root(&mut self, key: &str) -> (r: (usize, bool))
        ensures
            final(self).clients() == old(self).clients(),
            final(self).kept_by() == old(self).kept_by(),
            r.1 == !old(self).roots().contains(key@),
            final(self).roots() == if r.1 {
                old(self).roots().push(key@)
            } else {
                old(self).roots()
            },
            r.0 < final(self).roots().len(),
            final(self).roots()[r.0 as int] == key@,
    {
        proof {
            use_type_invariant(&*self);
        }
        match self.get(key) {
            Some(p) => {
                assert(self.roots().contains(self.roots()[p as int]));
                (p, false)
            },
            None => {
                let mut names: Vec<String> = Vec::new();
                core::mem::swap(&mut names, &mut self.names);
                let ghost had = views(names@);
                let p: usize = names.len();
                names.push(key.to_string());
                proof {
                    assert(views(names@) =~= had.push(key@));
                    assert forall|i: int, j: int|
                        0 <= i < j < views(names@).len() implies #[trigger] views(names@)[i]
                        != #[trigger] views(names@)[j] by {
                        if j == had.len() {
                            assert(had.contains(had[i]));
                        } else {
                            assert(had[i] != had[j]);
                        }
                    }
                }
                self.names = names;
                (p, true)
            },
        }
    }

    /// Removes a root: the place that it had. The roots behind it move up.
    pub fn remove_root(&mut self, key: &str) -> (place: Option<usize>)
        ensures
            final(self).clients() == old(self).clients(),
            final(self).kept_by() == old(self).kept_by(),
            match place {
                Some(p) => {
                    &&& p < old(self).roots().len()
                    &&& old(self).roots()[p as int] == key@
                    &&& final(self).roots() == old(self).roots().remove(p as int)
                    &&& !final(self).roots().contains(key@)
                },
                None => !old(self).roots().contains(key@) && final(self).roots() == old(
                    self,
                ).roots(),
            },
    {
        proof {
            use_type_invariant(&*self);
        }
        match self.get(key) {
            Some(p) => {
                let mut names: Vec<String> = Vec::new();
                core::mem::swap(&mut names, &mut self.names);
                let ghost had = views(names@);
                names.remove(p);
                proof {
                    let now = views(names@);
                    assert(now =~= had.remove(p as int));
                    assert forall|i: int, j: int| 0 <= i < j < now.len() implies #[trigger] now[i]
                        != #[trigger] now[j] by {
                        let a = if i < p {
                            i
                        } else {
                            i + 1
                        };
                        let b = if j < p {
                            j
                        } else {
                            j + 1
                        };
                        assert(had[a] != had[b]);
                    }
                    assert forall|i: int| 0 <= i < now.len() implies #[trigger] now[i]
                        != key@ by {
                        let a = if i < p {
                            i
                        } else {
                            i + 1
                        };
                        if a < p {
                            assert(had[a] != had[p as int]);
                        } else {
                            assert(had[p as int] != had[a]);
                        }
                    }
                }
                self.names = names;
                Some(p)
            },
            None => None,
        }
    }

    /// The names of the roots.
    pub fn list_roots(&self) -> (r: Vec<String>)
        ensures
            views(r@) == self.roots(),
    {
        let mut r: Vec<String> = Vec::new();
        let mut i: usize = 0;
        while i < self.names.len()
            invariant
                i <= self.names@.len(),
                views(r@) =~= views(self.names@).take(i as int),
            decreases self.names@.len() - i,
        {
            let ghost had = views(r@);
            r.push(self.names[i].clone());
            assert(views(r@) =~= had.push(self.names@[i as int]@));
            i = i + 1;
        }
        assert(views(self.names@).take(i as int) =~= views(self.names@));
        r
    }

    /// The places of the roots that a request is for: those asked for, or all
    /// where none is named; or what to answer where the daemon does not have one
    /// of them.
    pub fn targets(&self, asked: &Option<Vec<Asked>>) -> (r: Result<Vec<usize>, String>)
        ensures
            match *asked {
                None => r matches Ok(ps) && ps@.len() == self.roots().len() && forall|i: int|
                    0 <= i < ps@.len() ==> #[trigger] ps@[i] == i,
                Some(list) => match first_missing(self.roots(), list@) {
                    None => r matches Ok(ps) && are_places(self.roots(), list@, ps@),
                    Some(i) => r matches Err(e) && e@ == "no such root: "@ + list@[i].given@,
                },
            },
    {
        let mut places: Vec<usize> = Vec::new();
        match asked {
            None => {
                let mut i: usize = 0;
                while i < self.names.len()
                    invariant
                        i <= self.names@.len(),
                        places@.len() == i,
                        forall|k: int| 0 <= k < i ==> #[trigger] places@[k] == k,
                    decreases self.names@.len() - i,
                {
                    places.push(i);
                    i = i + 1;
                }
                Ok(places)
            },
            Some(list) => {
                let mut i: usize = 0;
                assert(list@.take(0) =~= Seq::empty());
                while i < list.len()
                    invariant
                        i <= list@.len(),
                        *asked == Some(*list),
                        first_missing(self.roots(), list@.take(i as int)) is None,
                        are_places(self.roots(), list@.take(i as int), places@),
                    decreases list@.len() - i,
                {
                    let ghost front = list@.take(i as int);
                    let ghost through = list@.take(i + 1);
                    assert(through.drop_last() =~= front);
                    assert(through.last() == list@[i as int]);
                    match self.get(list[i].key.as_str()) {
                        Some(p) => {
                            assert(self.roots().contains(self.roots()[p as int]));
                            places.push(p);
                            assert forall|k: int| 0 <= k < places@.len() implies (
                            #[trigger] places@[k]) < self.roots().len()
                                && self.roots()[places@[k] as int] == through[k].key@ by {
                                if k < i {
                                    assert(front[k] == through[k]);
                                }
                            }
                            i = i + 1;
                        },
                        None => {
                            let mut message: String = "no such root: ".to_string();
                            message.push_str(list[i].given.as_str());
                            proof {
                                lemma_first_missing(self.roots(), list@, i as int);
                            }
                            return Err(message);
                        },
                    }
                }
                assert(list@.take(i as int) =~= list@);
                Ok(places)
            },
        }
    }

    /// A client has connected.
    pub fn connected(&mut self)
        requires
            old(self).clients() < u64::MAX,
        ensures
            final(self).roots() == old(self).roots(),
            final(self).clients() == old(self).clients() + 1,
            final(self).kept_by() == old(self).kept_by(),
    {
        proof {
            use_type_invariant(&*self);
        }
        self.connections = self.connections + 1;
    }

    /// A client has gone.
    pub fn disconnected(&mut self)
        requires
            old(self).clients() > 0,
        ensures
            final(self).roots() == old(self).roots(),
            final(self).clients() == old(self).clients() - 1,
            final(self).kept_by() == old(self).kept_by(),
    {
        proof {
            use_type_invariant(&*self);
        }
        self.connections = self.connections - 1;
    }

    /// How many clients are connected.
    pub fn connection_count(&self) -> (n: u64)
        ensures
            n == self.clients(),
    {
        self.connections
    }

    /// Whether there is neither a client nor a root.
    pub fn is_idle(&self) -> (r: bool)
        ensures
            r == (self.clients() == 0 && self.roots().len() == 0),
    {
        self.connections == 0 && self.names.len() == 0
    }
}

/// What to do for a request.
pub enum Task {
    /// Search these roots.
    Search { places: Vec<usize>, query: Query, limit: usize, offset: usize, snippet: bool },
    AddRoot { path: String },
    RemoveRoot { path: String },
    ListRoots,
    Status,
    /// Reconcile these roots.
    Reconcile { places: Vec<usize> },
    /// Start a merge of these roots.
    Merge { places: Vec<usize> },
    /// End the daemon.
    ShutDown,
    /// Nothing: send this.
    Refuse(ServerMessage),
}

/// The roots that a request names, if it names any.
pub fn named_roots(method: &Method) -> (r: Option<Vec<String>>)
    ensures
        match method {
            Method::Query { roots: Some(list), .. } => r matches Some(names) && views(names@)
                == views(list@),
            Method::Reconcile { root: Some(root), .. } => r matches Some(names) && views(names@)
                == seq![root@],
            Method::Merge { root: Some(root) } => r matches Some(names) && views(names@)
                == seq![root@],
            _ => r is None,
        },
{
    match method {
        Method::Query { roots: Some(list), .. } => {
            let mut names: Vec<String> = Vec::new();
            let mut i: usize = 0;
            while i < list.len()
                invariant
                    i <= list@.len(),
                    views(names@) =~= views(list@).take(i as int),
                decreases list@.len() - i,
            {
                let ghost had = views(names@);
                names.push(list[i].clone());
                assert(views(names@) =~= had.push(list@[i as int]@));
                i = i + 1;
            }
            assert(views(list@).take(i as int) =~= views(list@));
            Some(names)
        },
        Method::Reconcile { root: Some(root), .. } => {
            let mut names: Vec<String> = Vec::new();
            names.push(root.clone());
            assert(views(names@) =~= seq![root@]);
            Some(names)
        },
        Method::Merge { root: Some(root) } => {
            let mut names: Vec<String> = Vec::new();
            names.push(root.clone());
            assert(views(names@) =~= seq![root@]);
            Some(names)
        },
        _ => None,
    }
}

impl Registry {
    /// The places are those that a request is for.
    pub open spec fn are_targets(&self, asked: Option<Vec<Asked>>, places: Seq<usize>) -> bool {
        match asked {
            None => places.len() == self.roots().len() && forall|i: int|
                0 <= i < places.len() ==> #[trigger] places[i] == i,
            Some(list) => first_missing(self.roots(), list@) is None && are_places(
                self.roots(),
                list@,
                places,
            ),
        }
    }

    /// What to answer to request `id` where the daemon does not have a root that
    /// it is for.
    pub open spec fn no_such_root(&self, id: u64, asked: Option<Vec<Asked>>) -> Option<
        ServerMessageView,
    > {
        match asked {
            None => None,
            Some(list) => match first_missing(self.roots(), list@) {
                None => None,
                Some(i) => Some(
                    ServerMessageView::Error {
                        id: Some(id),
                        message: "no such root: "@ + list@[i].given@,
                    },
                ),
            },
        }
    }

    /// What to do for request `id`; `asked` are the roots that it names. A query
    /// that cannot be parsed is refused before its roots are looked for.
    pub fn dispatch(&self, id: u64, method: Method, asked: Option<Vec<Asked>>) -> (task: Task)
        requires
            method matches Method::Query { query, .. } ==> query@.len() <= u32::MAX,
        ensures
            match (method, task) {
                (
                    Method::Query { query, limit, offset, snippet, .. },
                    Task::Search { places, query: q, limit: l, offset: o, snippet: s },
                ) => {
                    &&& parsed(query@) == Ok::<NodeView, QueryErrorView>(q.node())
                    &&& self.are_targets(asked, places@)
                    &&& l == limit && o == offset && s == snippet
                },
                (Method::Query { query, .. }, Task::Refuse(m)) => match parsed(query@) {
                    Err(e) => m@ == (ServerMessageView::Error {
                        id: Some(id),
                        message: "invalid query: "@ + query_message(e),
                    }),
                    Ok(_) => self.no_such_root(id, asked) == Some(m@),
                },
                (Method::AddRoot { path }, Task::AddRoot { path: p }) => p == path,
                (Method::RemoveRoot { path }, Task::RemoveRoot { path: p }) => p == path,
                (Method::ListRoots, Task::ListRoots) => true,
                (Method::Status, Task::Status) => true,
                (Method::Reconcile { .. }, Task::Reconcile { places }) => self.are_targets(
                    asked,
                    places@,
                ),
                (Method::Reconcile { .. }, Task::Refuse(m)) => self.no_such_root(id, asked)
                    == Some(m@),
                (Method::Merge { .. }, Task::Merge { places }) => self.are_targets(asked, places@),
                (Method::Merge { .. }, Task::Refuse(m)) => self.no_such_root(id, asked) == Some(m@),
                (Method::Shutdown, Task::ShutDown) => true,
                _ => false,
            },
    {
        match method {
            Method::Query { query, limit, offset, snippet, .. } => {
                let q = match parse_query(query.as_str()) {
                    Ok(q) => q,
                    Err(e) => {
                        return Task::Refuse(ServerMessage::error(Some(id), e.as_str()));
                    },
                };
                match self.targets(&asked) {
                    Ok(places) => Task::Search { places, query: q, limit, offset, snippet },
                    Err(e) => Task::Refuse(ServerMessage::error(Some(id), e.as_str())),
                }
            },
            Method::AddRoot { path } => Task::AddRoot { path },
            Method::RemoveRoot { path } => Task::RemoveRoot { path },
            Method::ListRoots => Task::ListRoots,
            Method::Status => Task::Status,
            Method::Reconcile { .. } => match self.targets(&asked) {
                Ok(places) => Task::Reconcile { places },
                Err(e) => Task::Refuse(ServerMessage::error(Some(id), e.as_str())),
            },
            Method::Merge { .. } => match self.targets(&asked) {
                Ok(places) => Task::Merge { places },
                Err(e) => Task::Refuse(ServerMessage::error(Some(id), e.as_str())),
            },
            Method::Shutdown => Task::ShutDown,
        }
    }
}

proof fn lemma_first_missing(names: Seq<Seq<char>>, asked: Seq<Asked>, i: int)
    requires
        0 <= i < asked.len(),
        first_missing(names, asked.take(i + 1)) == Some(i),
    ensures
        first_missing(names, asked) == Some(i),
    decreases asked.len(),
{
    if i + 1 == asked.len() {
        assert(asked.take(i + 1) =~= asked);
    } else {
        assert(asked.drop_last().take(i + 1) =~= asked.take(i + 1));
        lemma_first_missing(names, asked.drop_last(), i);
    }
}

} // verus!
