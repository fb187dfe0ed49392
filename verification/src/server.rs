//! The table of live connections and the decisions of the readiness loop.
//!
//! The loop that owns the sockets asks `dispatch` what a readiness event calls
//! for, does that one piece of I/O, and reports how it went to `handle_read`,
//! `handle_written` or `handle_failure`. A connection reads one request, is
//! switched to writing with its own response, and is removed once the response
//! has gone out.

use std::collections::HashMap;
use vstd::prelude::*;
use crate::bytes::contents;
use crate::pipeline::{make_response, outcome, response};
use crate::response::lemma_message_not_empty;

verus! {

broadcast use vstd::std_specs::hash::group_hash_axioms;

/// The token of the listening socket. No connection has it.
pub const LISTENER: usize = 0;

/// The most that one read takes from a socket.
pub const READ_LIMIT: usize = 1024;

/// The readiness that a connection is registered for.
#[derive(Clone, Copy, PartialEq, Eq, Debug, Structural)]
pub enum Interest {
    Readable,
    Writable,
}

/// Why an event was not acted on. The table is left as it was.
#[derive(Clone, Copy, PartialEq, Eq, Debug, Structural)]
pub enum ServerError {
    /// The token belongs to no live connection.
    UnknownConnection,
    /// The event is not one that the connection is waiting for.
    UndefinedEvent,
    /// Every connection id has been given out.
    IdsExhausted,
}

impl ServerError {
    /// The error in words.
    pub open spec fn description(self) -> Seq<char> {
        match self {
            ServerError::UnknownConnection => "Failed to get connection."@,
            ServerError::UndefinedEvent => "Undefined event."@,
            ServerError::IdsExhausted => "No connection id is left."@,
        }
    }

    /// The error in words.
    pub fn describe(&self) -> (text: &'static str)
        ensures
            text@ == self.description(),
    {
        match self {
            ServerError::UnknownConnection => "Failed to get connection.",
            ServerError::UndefinedEvent => "Undefined event.",
            ServerError::IdsExhausted => "No connection id is left.",
        }
    }
}

/// What to do with a connection's socket after a piece of I/O was reported.
#[derive(Clone, Copy, PartialEq, Eq, Debug, Structural)]
pub enum Action {
    /// Deregister the socket and drop it: the connection is gone.
    Close,
    /// Register the socket anew, for this readiness only.
    Reregister(Interest),
    /// Part of the response is unsent: ask for the next step at once.
    Continue,
}

/// The one piece of I/O that a readiness event calls for.
#[derive(Debug)]
pub enum Step<'a> {
    /// Accept a socket, then call `register_connection`.
    Accept,
    /// Read once, at most `limit` bytes, then call `handle_read`.
    Read { limit: usize },
    /// Write `bytes` once, then call `handle_written`.
    Write { bytes: &'a [u8] },
}

/// What a `Step` holds.
pub enum StepView {
    Accept,
    Read { limit: usize },
    Write { bytes: Seq<u8> },
}

impl<'a> View for Step<'a> {
    type V = StepView;

    open spec fn view(&self) -> StepView {
        match *self {
            Step::Accept => StepView::Accept,
            Step::Read { limit } => StepView::Read { limit },
            Step::Write { bytes } => StepView::Write { bytes: bytes@ },
        }
    }
}

/// What the answer to an event holds.
pub open spec fn step_view(step: Result<Step<'_>, ServerError>) -> Result<StepView, ServerError> {
    match step {
        Ok(step) => Ok(step@),
        Err(error) => Err(error),
    }
}

/// A connection as the specifications see it.
pub enum ConnectionView {
    /// Registered as readable; no request has been read.
    Reading,
    /// Registered as writable; the first `written` bytes of `response` are out.
    Writing { response: Seq<u8>, written: nat },
}

impl ConnectionView {
    /// The readiness that the connection is registered for.
    pub open spec fn interest(self) -> Interest {
        match self {
            ConnectionView::Reading => Interest::Readable,
            ConnectionView::Writing { .. } => Interest::Writable,
        }
    }

    /// A connection that writes has something left to write.
    pub open spec fn valid(self) -> bool {
        match self {
            ConnectionView::Reading => true,
            ConnectionView::Writing { response, written } => written < response.len(),
        }
    }
}

enum Connection {
    Reading,
    Writing { response: Vec<u8>, written: usize },
}

impl Connection {
    #[verifier::type_invariant]
    spec fn well_formed(self) -> bool {
        match self {
            Connection::Reading => true,
            Connection::Writing { response, written } => written < response.len(),
        }
    }
}

impl View for Connection {
    type V = ConnectionView;

    closed spec fn view(&self) -> ConnectionView {
        match *self {
            Connection::Reading => ConnectionView::Reading,
            Connection::Writing { response, written } => ConnectionView::Writing {
                response: response@,
                written: written as nat,
            },
        }
    }
}

/// What can be reported to the table.
pub enum Event {
    /// A socket was accepted.
    Accepted,
    /// The connection `id` read `input`; `file` is what could be read of the
    /// file that `input` asks for.
    Read { id: usize, input: Seq<u8>, file: Option<Seq<u8>> },
    /// The connection `id` wrote `count` bytes.
    Written { id: usize, count: usize },
    /// I/O failed on the connection `id`.
    Failed { id: usize },
}

/// The table as the specifications see it.
pub struct ServerView {
    pub connections: Map<usize, ConnectionView>,
    pub next_connection_id: usize,
}

impl ServerView {
    /// Ids start at 1, every live connection has an id that was given out, and
    /// every connection is valid.
    pub open spec fn valid(self) -> bool {
        &&& self.next_connection_id >= 1
        &&& forall|id: usize| #[trigger]
            self.connections.contains_key(id) ==> {
                &&& 1 <= id < self.next_connection_id
                &&& self.connections[id].valid()
            }
    }

    /// The table before any connection.
    pub open spec fn initial() -> ServerView {
        ServerView::starting_at(1)
    }

    /// A table without connections whose first connection gets the id `first`.
    pub open spec fn starting_at(first: usize) -> ServerView {
        ServerView { connections: Map::empty(), next_connection_id: first }
    }

    /// The table with `id` in the state `connection`.
    pub open spec fn with(self, id: usize, connection: ConnectionView) -> ServerView {
        ServerView { connections: self.connections.insert(id, connection), ..self }
    }

    /// The table without `id`.
    pub open spec fn without(self, id: usize) -> ServerView {
        ServerView { connections: self.connections.remove(id), ..self }
    }

    /// Whether an id is left for one more connection.
    pub open spec fn can_register(self) -> bool {
        self.next_connection_id < usize::MAX
    }

    /// The table after one more connection was registered, under the next id.
    pub open spec fn registered(self) -> ServerView {
        ServerView {
            connections: self.connections.insert(
                self.next_connection_id,
                ConnectionView::Reading,
            ),
            next_connection_id: (self.next_connection_id + 1) as usize,
        }
    }

    /// What an event on the connection `id` calls for.
    pub open spec fn connection_step(self, id: usize, readable: bool, writable: bool) -> Result<
        StepView,
        ServerError,
    > {
        if !self.connections.contains_key(id) {
            Err(ServerError::UnknownConnection)
        } else {
            match self.connections[id] {
                ConnectionView::Reading => if readable {
                    Ok(StepView::Read { limit: READ_LIMIT })
                } else {
                    Err(ServerError::UndefinedEvent)
                },
                ConnectionView::Writing { response, written } => if writable {
                    Ok(StepView::Write { bytes: response.skip(written as int) })
                } else {
                    Err(ServerError::UndefinedEvent)
                },
            }
        }
    }

    /// What an event on `token` calls for.
    pub open spec fn step(self, token: usize, readable: bool, writable: bool) -> Result<
        StepView,
        ServerError,
    > {
        if token == LISTENER {
            Ok(StepView::Accept)
        } else {
            self.connection_step(token, readable, writable)
        }
    }

    /// The table after the connection `id` read `input`, and what becomes of
    /// its socket. `file` is what could be read of the file that `input` asks
    /// for.
    pub open spec fn after_read(self, id: usize, input: Seq<u8>, file: Option<Seq<u8>>) -> (
        ServerView,
        Result<Action, ServerError>,
    ) {
        if !self.connections.contains_key(id) {
            (self, Err(ServerError::UnknownConnection))
        } else if self.connections[id] is Writing {
            (self, Err(ServerError::UndefinedEvent))
        } else if input.len() == 0 {
            (self.without(id), Ok(Action::Close))
        } else {
            (
                self.with(
                    id,
                    ConnectionView::Writing { response: response(input, file), written: 0 },
                ),
                Ok(Action::Reregister(Interest::Writable)),
            )
        }
    }

    /// The table after the connection `id` wrote `count` bytes, and what
    /// becomes of its socket.
    pub open spec fn after_write(self, id: usize, count: usize) -> (
        ServerView,
        Result<Action, ServerError>,
    ) {
        if !self.connections.contains_key(id) {
            (self, Err(ServerError::UnknownConnection))
        } else {
            match self.connections[id] {
                ConnectionView::Reading => (self, Err(ServerError::UndefinedEvent)),
                ConnectionView::Writing { response, written } => if count == 0 || written
                    + count >= response.len() {
                    (self.without(id), Ok(Action::Close))
                } else {
                    (
                        self.with(
                            id,
                            ConnectionView::Writing {
                                response,
                                written: written + count as nat,
                            },
                        ),
                        Ok(Action::Continue),
                    )
                },
            }
        }
    }

    /// What becomes of the socket of the connection `id` when it would block:
    /// it is armed again for the readiness that the connection waits for.
    pub open spec fn when_blocked(self, id: usize) -> Result<Action, ServerError> {
        if !self.connections.contains_key(id) {
            Err(ServerError::UnknownConnection)
        } else {
            Ok(Action::Reregister(self.connections[id].interest()))
        }
    }

    /// The table after I/O failed on the connection `id`, and what becomes of
    /// its socket.
    pub open spec fn after_failure(self, id: usize) -> (ServerView, Result<Action, ServerError>) {
        if !self.connections.contains_key(id) {
            (self, Err(ServerError::UnknownConnection))
        } else {
            (self.without(id), Ok(Action::Close))
        }
    }
}

impl ServerView {
    /// The table after `event`.
    pub open spec fn after(self, event: Event) -> ServerView {
        match event {
            Event::Accepted => if self.can_register() {
                self.registered()
            } else {
                self
            },
            Event::Read { id, input, file } => self.after_read(id, input, file).0,
            Event::Written { id, count } => self.after_write(id, count).0,
            Event::Failed { id } => self.after_failure(id).0,
        }
    }

    /// The table after `events`, one after the other.
    pub open spec fn after_all(self, events: Seq<Event>) -> ServerView
        decreases events.len(),
    {
        if events.len() == 0 {
            self
        } else {
            self.after_all(events.drop_last()).after(events.last())
        }
    }

    /// How far `id` is in the life of a connection: 0 before it is given out,
    /// 1 while its connection reads, 2 while it writes, 3 once it is gone.
    pub open spec fn phase(self, id: usize) -> nat {
        if self.connections.contains_key(id) {
            match self.connections[id] {
                ConnectionView::Reading => 1,
                ConnectionView::Writing { .. } => 2,
            }
        } else if id < self.next_connection_id {
            3
        } else {
            0
        }
    }

    /// Whether the connection `id` has got `response` and sent at least
    /// `written` bytes of it, or is gone.
    pub open spec fn keeps(self, id: usize, response: Seq<u8>, written: nat) -> bool {
        self.connections.contains_key(id) ==> {
            &&& self.connections[id] matches ConnectionView::Writing { response: kept, written: sent }
            &&& kept == response
            &&& sent >= written
        }
    }
}

/// Every step keeps a valid table valid.
pub proof fn lemma_steps_keep_valid(
    table: ServerView,
    id: usize,
    input: Seq<u8>,
    file: Option<Seq<u8>>,
    count: usize,
)
    requires
        table.valid(),
    ensures
        ServerView::initial().valid(),
        table.can_register() ==> table.registered().valid(),
        table.after_read(id, input, file).0.valid(),
        table.after_write(id, count).0.valid(),
        table.after_failure(id).0.valid(),
{
    lemma_message_not_empty(outcome(input, file), file);
    if table.connections.contains_key(id) {
        assert(table.connections[id].valid());
    }
}

/// An id that is given out is new: no live connection has it, it is not the
/// listener's token, and no id that was given out before is given out again.
pub proof fn lemma_ids_are_fresh(table: ServerView)
    requires
        table.valid(),
        table.can_register(),
    ensures
        table.next_connection_id != LISTENER,
        !table.connections.contains_key(table.next_connection_id),
        table.registered().connections.contains_key(table.next_connection_id),
        table.registered().connections[table.next_connection_id] == ConnectionView::Reading,
        table.registered().next_connection_id > table.next_connection_id,
        forall|id: usize|
            id != table.next_connection_id ==> (
            #[trigger] table.registered().connections.contains_key(id)
                <==> table.connections.contains_key(id)),
{
}

/// A connection takes one request: once it has its response it is never
/// asked to read, and what is read for it is refused and changes nothing.
pub proof fn lemma_one_request_per_connection(
    table: ServerView,
    id: usize,
    readable: bool,
    writable: bool,
    input: Seq<u8>,
    file: Option<Seq<u8>>,
)
    requires
        table.valid(),
        table.connections.contains_key(id),
        table.connections[id] is Writing,
    ensures
        !(table.step(id, readable, writable) matches Ok(StepView::Read { .. })),
        table.after_read(id, input, file) == (
            table,
            Err::<Action, ServerError>(ServerError::UndefinedEvent),
        ),
{
}

/// A write hands out what is unsent of the connection's own response, and a
/// write of part of it leaves the rest for the next write.
pub proof fn lemma_writes_go_through_response(
    table: ServerView,
    id: usize,
    readable: bool,
    count: usize,
)
    requires
        table.valid(),
        table.connections.contains_key(id),
        table.connections[id] is Writing,
        0 < count,
        table.connections[id]->written + count < table.connections[id]->response.len(),
    ensures
        table.step(id, readable, true) == Ok::<StepView, ServerError>(
            StepView::Write {
                bytes: table.connections[id]->response.skip(
                    table.connections[id]->written as int,
                ),
            },
        ),
        table.after_write(id, count).1 == Ok::<Action, ServerError>(Action::Continue),
        table.after_write(id, count).0.step(id, readable, true) == Ok::<StepView, ServerError>(
            StepView::Write {
                bytes: table.connections[id]->response.skip(
                    table.connections[id]->written + count,
                ),
            },
        ),
{
}

/// Once the whole response is out the connection is closed and gone: every
/// later event on its id is refused as unknown, and the table stays as it is.
pub proof fn lemma_closed_after_response(
    table: ServerView,
    id: usize,
    count: usize,
    readable: bool,
    writable: bool,
    input: Seq<u8>,
    file: Option<Seq<u8>>,
    later: usize,
)
    requires
        table.valid(),
        table.connections.contains_key(id),
        table.connections[id] is Writing,
        table.connections[id]->written + count >= table.connections[id]->response.len(),
    ensures
        table.after_write(id, count) == (table.without(id), Ok::<Action, ServerError>(Action::Close)),
        !table.without(id).connections.contains_key(id),
        table.without(id).step(id, readable, writable) == Err::<StepView, ServerError>(
            ServerError::UnknownConnection,
        ),
        table.without(id).after_read(id, input, file) == (
            table.without(id),
            Err::<Action, ServerError>(ServerError::UnknownConnection),
        ),
        table.without(id).after_write(id, later) == (
            table.without(id),
            Err::<Action, ServerError>(ServerError::UnknownConnection),
        ),
        table.without(id).can_register() ==> !table.without(id).registered().connections.contains_key(
            id,
        ),
{
    assert(1 <= id < table.next_connection_id);
}

/// What happens on one connection leaves every other connection as it was.
pub proof fn lemma_connections_are_isolated(
    table: ServerView,
    id: usize,
    other: usize,
    input: Seq<u8>,
    file: Option<Seq<u8>>,
    count: usize,
)
    requires
        table.valid(),
        id != other,
        table.connections.contains_key(other),
    ensures
        table.after_read(id, input, file).0.connections.contains_key(other),
        table.after_read(id, input, file).0.connections[other] == table.connections[other],
        table.after_write(id, count).0.connections.contains_key(other),
        table.after_write(id, count).0.connections[other] == table.connections[other],
        table.after_failure(id).0.connections.contains_key(other),
        table.after_failure(id).0.connections[other] == table.connections[other],
        table.registered().connections.contains_key(other),
        table.registered().connections[other] == table.connections[other],
{
    assert(1 <= other < table.next_connection_id);
}

/// Two connections that read their requests, in either order, each get the
/// response to their own request and their own file.
pub proof fn lemma_each_gets_its_own_response(
    table: ServerView,
    first: usize,
    second: usize,
    first_input: Seq<u8>,
    first_file: Option<Seq<u8>>,
    second_input: Seq<u8>,
    second_file: Option<Seq<u8>>,
)
    requires
        table.valid(),
        first != second,
        table.connections.contains_key(first),
        table.connections.contains_key(second),
        table.connections[first] is Reading,
        table.connections[second] is Reading,
        first_input.len() > 0,
        second_input.len() > 0,
    ensures
        ({
            let one_way = table.after_read(first, first_input, first_file).0.after_read(
                second,
                second_input,
                second_file,
            ).0;
            let other_way = table.after_read(second, second_input, second_file).0.after_read(
                first,
                first_input,
                first_file,
            ).0;
            &&& one_way == other_way
            &&& one_way.connections[first] == ConnectionView::Writing {
                response: response(first_input, first_file),
                written: 0,
            }
            &&& one_way.connections[second] == ConnectionView::Writing {
                response: response(second_input, second_file),
                written: 0,
            }
        }),
{
    let one_way = table.after_read(first, first_input, first_file).0.after_read(
        second,
        second_input,
        second_file,
    ).0;
    let other_way = table.after_read(second, second_input, second_file).0.after_read(
        first,
        first_input,
        first_file,
    ).0;
    assert(one_way.connections =~= other_way.connections);
}

/// The same request with the same file gets the same response, byte for
/// byte, on whatever connection and in whatever table it is read.
pub proof fn lemma_same_request_same_response(
    table: ServerView,
    id: usize,
    other_table: ServerView,
    other_id: usize,
    input: Seq<u8>,
    file: Option<Seq<u8>>,
)
    requires
        table.connections.contains_key(id),
        table.connections[id] is Reading,
        other_table.connections.contains_key(other_id),
        other_table.connections[other_id] is Reading,
        input.len() > 0,
    ensures
        table.after_read(id, input, file).0.connections[id] == other_table.after_read(
            other_id,
            input,
            file,
        ).0.connections[other_id],
        table.after_read(id, input, file).0.connections[id] == (ConnectionView::Writing {
            response: response(input, file),
            written: 0,
        }),
{
}

/// The life of a connection goes one way: from reading to writing to gone,
/// never back, whatever is reported for it or for another. While it writes
/// its response stays the same and what is sent of it only grows.
pub proof fn lemma_life_goes_one_way(table: ServerView, event: Event, id: usize)
    requires
        table.valid(),
    ensures
        table.after(event).valid(),
        table.after(event).phase(id) >= table.phase(id),
        table.connections.contains_key(id) ==> (table.connections[id] matches ConnectionView::Writing {
            response,
            written,
        } ==> table.after(event).keeps(id, response, written)),
{
    match event {
        Event::Accepted => {},
        Event::Read { id: on, input, file } => {
            lemma_steps_keep_valid(table, on, input, file, 0);
        },
        Event::Written { id: on, count } => {
            lemma_steps_keep_valid(table, on, Seq::empty(), None, count);
        },
        Event::Failed { id: on } => {
            lemma_steps_keep_valid(table, on, Seq::empty(), None, 0);
        },
    }
    if table.connections.contains_key(id) {
        assert(1 <= id < table.next_connection_id);
    }
}

/// Over any sequence of reports an id is never given out twice and a
/// connection never takes a second request: its life goes one way, and its
/// response, once it has one, stays the same until it is gone.
pub proof fn lemma_lives_go_one_way(table: ServerView, events: Seq<Event>, id: usize)
    requires
        table.valid(),
    ensures
        table.after_all(events).valid(),
        table.after_all(events).phase(id) >= table.phase(id),
        table.connections.contains_key(id) ==> (table.connections[id] matches ConnectionView::Writing {
            response,
            written,
        } ==> table.after_all(events).keeps(id, response, written)),
    decreases events.len(),
{
    if events.len() > 0 {
        let before = table.after_all(events.drop_last());
        lemma_lives_go_one_way(table, events.drop_last(), id);
        lemma_life_goes_one_way(before, events.last(), id);
        if table.connections.contains_key(id) && table.connections[id] is Writing
            && !before.connections.contains_key(id) {
            assert(table.phase(id) == 2);
            assert(before.phase(id) == 3);
        }
    }
}

/// The connection table of one server.
pub struct WebServer {
    connections: HashMap<usize, Connection>,
    next_connection_id: usize,
}

impl View for WebServer {
    type V = ServerView;

    closed spec fn view(&self) -> ServerView {
        ServerView {
            connections: self.connections@.map_values(|connection: Connection| connection@),
            next_connection_id: self.next_connection_id,
        }
    }
}

impl WebServer {
    /// A table without connections. The first connection gets the id 1.
    pub fn new() -> (server: WebServer)
        ensures
            server@.valid(),
            server@ == ServerView::initial(),
    {
        let server = WebServer { connections: HashMap::new(), next_connection_id: 1 };
        assert(server@.connections =~= Map::empty());
        server
    }

    /// A table without connections whose first connection gets the id `first`;
    /// `None` where `first` is the listener's token.
    pub fn starting_at(first: usize) -> (server: Option<WebServer>)
        ensures
            match server {
                Some(server) => first != LISTENER && server@.valid() && server@
                    == ServerView::starting_at(first),
                None => first == LISTENER,
            },
    {
        if first == LISTENER {
            return None;
        }
        let server = WebServer { connections: HashMap::new(), next_connection_id: first };
        assert(server@.connections =~= Map::empty());
        Some(server)
    }

    /// The id that the next connection gets.
    pub fn next_connection_id(&self) -> (id: usize)
        ensures
            id == self@.next_connection_id,
    {
        self.next_connection_id
    }

    /// The readiness that the connection `conn_id` is registered for.
    pub fn interest(&self, conn_id: usize) -> (interest: Option<Interest>)
        ensures
            interest == if self@.connections.contains_key(conn_id) {
                Some(self@.connections[conn_id].interest())
            } else {
                None
            },
    {
        match self.connections.get(&conn_id) {
            Some(Connection::Reading) => Some(Interest::Readable),
            Some(Connection::Writing { .. }) => Some(Interest::Writable),
            None => None,
        }
    }

    /// Enters an accepted connection under the next id, registered as
    /// readable, and returns the id.
    pub fn register_connection(&mut self) -> (id: Result<usize, ServerError>)
        ensures
            old(self)@.valid() ==> final(self)@.valid(),
            match id {
                Ok(id) => {
                    &&& old(self)@.can_register()
                    &&& id == old(self)@.next_connection_id
                    &&& final(self)@ == old(self)@.registered()
                },
                Err(error) => {
                    &&& !old(self)@.can_register()
                    &&& error == ServerError::IdsExhausted
                    &&& final(self)@ == old(self)@
                },
            },
    {
        if self.next_connection_id == usize::MAX {
            return Err(ServerError::IdsExhausted);
        }
        let id: usize = self.next_connection_id;
        self.next_connection_id = id + 1;
        self.connections.insert(id, Connection::Reading);
        assert(self@.connections =~= old(self)@.registered().connections);
        Ok(id)
    }

    /// What an event on the connection `conn_id` calls for: a read while it
    /// waits to be readable, a write of what is unsent while it waits to be
    /// writable.
    pub fn http_handler(&self, conn_id: usize, readable: bool, writable: bool) -> (step: Result<
        Step<'_>,
        ServerError,
    >)
        ensures
            step_view(step) == self@.connection_step(conn_id, readable, writable),
    {
        match self.connections.get(&conn_id) {
            None => Err(ServerError::UnknownConnection),
            Some(connection) => {
                proof {
                    use_type_invariant(connection);
                }
                match connection {
                    Connection::Reading => {
                        if readable {
                            Ok(Step::Read { limit: READ_LIMIT })
                        } else {
                            Err(ServerError::UndefinedEvent)
                        }
                    },
                    Connection::Writing { response, written } => {
                        if writable {
                            let bytes: &[u8] = &response.as_slice()[*written..response.len()];
                            assert(bytes@ == response@.skip(*written as int));
                            Ok(Step::Write { bytes })
                        } else {
                            Err(ServerError::UndefinedEvent)
                        }
                    },
                }
            },
        }
    }

    /// What an event on `token` calls for: an accept on the listener's token,
    /// on any other what `http_handler` says.
    pub fn dispatch(&self, token: usize, readable: bool, writable: bool) -> (step: Result<
        Step<'_>,
        ServerError,
    >)
        ensures
            step_view(step) == self@.step(token, readable, writable),
    {
        if token == LISTENER {
            Ok(Step::Accept)
        } else {
            self.http_handler(token, readable, writable)
        }
    }

    /// Takes what the connection `conn_id` read. Nothing read means that the
    /// peer has closed: the connection is removed. Anything else is answered:
    /// the connection keeps the response and is switched to writing. `file`
    /// holds the contents of the file that `requested_file` named for `data`,
    /// or `None` where it named none or the file could not be read.
    pub fn handle_read(&mut self, conn_id: usize, data: &[u8], file: Option<Vec<u8>>) -> (action:
        Result<Action, ServerError>)
        ensures
            old(self)@.valid() ==> final(self)@.valid(),
            (final(self)@, action) == old(self)@.after_read(conn_id, data@, contents(file)),
    {
        match self.connections.get(&conn_id) {
            None => {
                return Err(ServerError::UnknownConnection);
            },
            Some(Connection::Writing { .. }) => {
                return Err(ServerError::UndefinedEvent);
            },
            Some(Connection::Reading) => {},
        }
        assert(old(self)@.connections.contains_key(conn_id));
        if data.len() == 0 {
            self.connections.remove(&conn_id);
            assert(self@.connections =~= old(self)@.without(conn_id).connections);
            return Ok(Action::Close);
        }
        let response: Vec<u8> = make_response(data, file);
        proof {
            lemma_message_not_empty(outcome(data@, contents(file)), contents(file));
        }
        let ghost entry = ConnectionView::Writing { response: response@, written: 0 };
        self.connections.insert(conn_id, Connection::Writing { response, written: 0 });
        assert(self@.connections =~= old(self)@.with(conn_id, entry).connections);
        Ok(Action::Reregister(Interest::Writable))
    }

    /// Takes the number of bytes that the connection `conn_id` wrote of what
    /// was unsent. Once the whole response is out the connection is removed; a
    /// write of nothing is a failed write and removes it too.
    pub fn handle_written(&mut self, conn_id: usize, count: usize) -> (action: Result<
        Action,
        ServerError,
    >)
        ensures
            old(self)@.valid() ==> final(self)@.valid(),
            (final(self)@, action) == old(self)@.after_write(conn_id, count),
    {
        match self.connections.remove(&conn_id) {
            None => {
                assert(self@.connections =~= old(self)@.connections);
                Err(ServerError::UnknownConnection)
            },
            Some(connection) => {
                proof {
                    use_type_invariant(&connection);
                }
                assert(old(self)@.connections.contains_key(conn_id));
                match connection {
                    Connection::Reading => {
                        self.connections.insert(conn_id, Connection::Reading);
                        assert(self@.connections =~= old(self)@.connections);
                        Err(ServerError::UndefinedEvent)
                    },
                    Connection::Writing { response, written } => {
                        if count == 0 || count >= response.len() - written {
                            assert(self@.connections =~= old(self)@.without(conn_id).connections);
                            Ok(Action::Close)
                        } else {
                            let ghost entry = ConnectionView::Writing {
                                response: response@,
                                written: (written + count) as nat,
                            };
                            self.connections.insert(
                                conn_id,
                                Connection::Writing { response, written: written + count },
                            );
                            assert(self@.connections =~= old(self)@.with(
                                conn_id,
                                entry,
                            ).connections);
                            Ok(Action::Continue)
                        }
                    },
                }
            },
        }
    }

    /// Takes the news that the socket of the connection `conn_id` would block:
    /// nothing changes, and the socket is to be armed again rather than tried
    /// in a loop.
    pub fn handle_blocked(&self, conn_id: usize) -> (action: Result<Action, ServerError>)
        ensures
            action == self@.when_blocked(conn_id),
    {
        match self.connections.get(&conn_id) {
            Some(Connection::Reading) => Ok(Action::Reregister(Interest::Readable)),
            Some(Connection::Writing { .. }) => Ok(Action::Reregister(Interest::Writable)),
            None => Err(ServerError::UnknownConnection),
        }
    }

    /// Takes the news that I/O failed on the connection `conn_id`: the
    /// connection is removed.
    pub fn handle_failure(&mut self, conn_id: usize) -> (action: Result<Action, ServerError>)
        ensures
            old(self)@.valid() ==> final(self)@.valid(),
            (final(self)@, action) == old(self)@.after_failure(conn_id),
    {
        match self.connections.remove(&conn_id) {
            Some(_) => {
                assert(self@.connections =~= old(self)@.without(conn_id).connections);
                Ok(Action::Close)
            },
            None => {
                assert(self@.connections =~= old(self)@.connections);
                Err(ServerError::UnknownConnection)
            },
        }
    }

    /// The number of live connections.
    pub fn connection_count(&self) -> (count: usize)
        ensures
            count == self@.connections.len(),
    {
        assert(self@.connections.dom() =~= self.connections@.dom());
        self.connections.len()
    }
}

} // verus!
