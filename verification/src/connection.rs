//! One client connection as a state machine. The machine decides; whoever
//! owns the socket and the queue to the dispatcher carries out each action
//! and hands back what came of it.

use vstd::prelude::*;
use vstd::slice::slice_to_vec;
use crate::commands::{
    command_of,
    is_keyword,
    lemma_get_arity,
    lemma_set_arity,
    request,
    word_get,
    word_set,
    Command,
    CommandView,
};
use crate::error::{ErrorView, SerirError, SerirResult};
use crate::resp::{decode, encode, encode_all, view_each, Resp, RespView};
use crate::roundtrip::{
    all_well_formed,
    lemma_encode_all_concat,
    lemma_encode_all_single,
    lemma_pipelining,
    well_formed,
};
use crate::store::{ascii, reply_to, state_after, KeyValueStore};

verus! {

/// What happened on a connection since the last action.
#[derive(Debug, PartialEq, Eq)]
pub enum Event {
    /// The read gave these bytes. None at all: the peer has closed.
    Received(Vec<u8>),
    /// The dispatcher answered the command submitted last with these bytes.
    Replied(Vec<u8>),
    /// The bytes handed out were written.
    Written,
}

/// What is to be done next on a connection.
#[derive(Debug, PartialEq, Eq)]
pub enum Action {
    /// Read from the peer and hand back what came as `Received`.
    Read,
    /// Submit the command to the dispatcher and hand back its answer as
    /// `Replied`.
    Submit(Command),
    /// Write the bytes to the peer and hand back `Written`.
    Write(Vec<u8>),
    /// The peer has closed: release the connection.
    Close,
    /// End the connection: its input cannot be served.
    Fail(SerirError),
}

/// The mathematical content of an event.
pub enum EventView {
    Received(Seq<u8>),
    Replied(Seq<u8>),
    Written,
}

/// The mathematical content of an action.
pub enum ActionView {
    Read,
    Submit(CommandView),
    Write(Seq<u8>),
    Close,
    Fail(ErrorView),
}

impl View for Event {
    type V = EventView;

    open spec fn view(&self) -> EventView {
        match self {
            Event::Received(bytes) => EventView::Received(bytes@),
            Event::Replied(bytes) => EventView::Replied(bytes@),
            Event::Written => EventView::Written,
        }
    }
}

impl View for Action {
    type V = ActionView;

    open spec fn view(&self) -> ActionView {
        match self {
            Action::Read => ActionView::Read,
            Action::Submit(command) => ActionView::Submit(command@),
            Action::Write(bytes) => ActionView::Write(bytes@),
            Action::Close => ActionView::Close,
            Action::Fail(e) => ActionView::Fail(e@),
        }
    }
}

/// The state of a connection.
pub enum ConnectionView {
    /// Waiting for bytes from the peer.
    Reading,
    /// Waiting for the dispatcher's answer to a command. `waiting` are the
    /// values read with it that are still to be served, in order;
    /// `response` the answers gathered so far.
    Dispatching { waiting: Seq<RespView>, response: Seq<u8> },
    /// Waiting for the answers to be written.
    Writing,
    /// Done: the peer has closed, or the connection has failed.
    Closed,
}

/// Serves the next of the values `waiting`: its command is submitted; a
/// value that is no command ends the connection. With no value left the
/// gathered answers are written.
pub open spec fn advance(waiting: Seq<RespView>, response: Seq<u8>) -> (ConnectionView, ActionView) {
    if waiting.len() == 0 {
        (ConnectionView::Writing, ActionView::Write(response))
    } else {
        match command_of(waiting[0]) {
            Err(e) => (ConnectionView::Closed, ActionView::Fail(e)),
            Ok(command) => (
                ConnectionView::Dispatching { waiting: waiting.drop_first(), response },
                ActionView::Submit(command),
            ),
        }
    }
}

/// The state that follows `state` on `event`, and the action to take.
///
/// Bytes received are decoded as a whole before any command is submitted;
/// if they cannot be, the connection ends. Each answer is put behind
/// those before it. An event that the state does not wait for ends the
/// connection.
pub open spec fn next_step(state: ConnectionView, event: EventView) -> (
    ConnectionView,
    ActionView,
) {
    match (state, event) {
        (ConnectionView::Reading, EventView::Received(bytes)) => if bytes.len() == 0 {
            (ConnectionView::Closed, ActionView::Close)
        } else {
            match decode(bytes) {
                Err(e) => (ConnectionView::Closed, ActionView::Fail(e)),
                Ok(values) => advance(values, Seq::<u8>::empty()),
            }
        },
        (ConnectionView::Dispatching { waiting, response }, EventView::Replied(bytes)) => advance(
            waiting,
            response + bytes,
        ),
        (ConnectionView::Writing, EventView::Written) => (
            ConnectionView::Reading,
            ActionView::Read,
        ),
        _ => (ConnectionView::Closed, ActionView::Fail(ErrorView::OutOfTurn)),
    }
}

/// What a store with the contents `store` answers to the values `waiting`,
/// served in order, behind the answers `response`; and its contents
/// afterwards. The first value that is no command fails the whole: nothing
/// is answered, though the commands before it have been carried out.
pub open spec fn dispatch_all(
    waiting: Seq<RespView>,
    response: Seq<u8>,
    store: Map<Seq<u8>, Seq<u8>>,
) -> (Result<Seq<u8>, ErrorView>, Map<Seq<u8>, Seq<u8>>)
    decreases waiting.len(),
{
    if waiting.len() == 0 {
        (Ok(response), store)
    } else {
        match command_of(waiting[0]) {
            Err(e) => (Err(e), store),
            Ok(command) => dispatch_all(
                waiting.drop_first(),
                response + encode(reply_to(store, command)),
                state_after(store, command),
            ),
        }
    }
}

/// What is written back for the bytes `input` of one read, by a connection
/// whose commands a store with the contents `store` carries out one after
/// the other; and the store's contents afterwards.
pub open spec fn session(input: Seq<u8>, store: Map<Seq<u8>, Seq<u8>>) -> (
    Result<Seq<u8>, ErrorView>,
    Map<Seq<u8>, Seq<u8>>,
) {
    match decode(input) {
        Err(e) => (Err(e), store),
        Ok(values) => dispatch_all(values, Seq::<u8>::empty(), store),
    }
}

/// Where a connection stands between two events.
#[derive(Debug, PartialEq, Eq)]
enum Phase {
    Reading,
    Dispatching,
    Writing,
    Closed,
}

/// A client connection between two events.
#[derive(Debug)]
pub struct Connection {
    phase: Phase,
    /// The values still to be served, the next one last.
    waiting: Vec<Resp>,
    /// The answers gathered for the bytes read last.
    response: Vec<u8>,
}

/// The values of `items` from the last to the first.
spec fn backwards(items: Seq<RespView>) -> Seq<RespView> {
    Seq::new(items.len(), |i: int| items[items.len() - 1 - i])
}

impl View for Connection {
    type V = ConnectionView;

    closed spec fn view(&self) -> ConnectionView {
        match self.phase {
            Phase::Reading => ConnectionView::Reading,
            Phase::Dispatching => ConnectionView::Dispatching {
                waiting: backwards(view_each(self.waiting@)),
                response: self.response@,
            },
            Phase::Writing => ConnectionView::Writing,
            Phase::Closed => ConnectionView::Closed,
        }
    }
}

/// The values of `values` from the last to the first.
fn reversed(values: Vec<Resp>) -> (turned: Vec<Resp>)
    ensures
        view_each(turned@) == backwards(view_each(values@)),
{
    let ghost given = view_each(values@);
    let mut rest = values;
    let mut turned: Vec<Resp> = Vec::new();
    loop
        invariant
            given == view_each(values@),
            rest@.len() + turned@.len() == given.len(),
            forall|i: int| 0 <= i < rest@.len() ==> (#[trigger] view_each(rest@)[i]) == given[i],
            forall|i: int|
                0 <= i < turned@.len() ==> (#[trigger] view_each(turned@)[i]) == given[
                    given.len() - 1 - i],
        decreases rest@.len(),
    {
        let ghost before = rest@;
        let ghost done = turned@;
        match rest.pop() {
            None => {
                assert(view_each(turned@) =~= backwards(given));
                return turned;
            },
            Some(value) => {
                turned.push(value);
                assert forall|i: int| 0 <= i < rest@.len() implies (#[trigger] view_each(
                    rest@,
                )[i]) == given[i] by {
                    assert(view_each(before)[i] == given[i]);
                }
                assert forall|i: int| 0 <= i < turned@.len() implies (#[trigger] view_each(
                    turned@,
                )[i]) == given[given.len() - 1 - i] by {
                    if i < done.len() {
                        assert(view_each(done)[i] == given[given.len() - 1 - i]);
                    } else {
                        assert(view_each(before)[before.len() - 1] == given[before.len() - 1]);
                    }
                }
            },
        }
    }
}

impl Connection {
    /// A connection that waits for its first bytes: the first action is to
    /// read.
    pub fn new() -> (connection: Self)
        ensures
            connection@ == ConnectionView::Reading,
    {
        Connection { phase: Phase::Reading, waiting: Vec::new(), response: Vec::new() }
    }

    /// Tells whether the connection is done.
    pub fn is_closed(&self) -> (closed: bool)
        ensures
            closed == (self@ is Closed),
    {
        match self.phase {
            Phase::Closed => true,
            _ => false,
        }
    }

    /// A connection that is done.
    fn closed() -> (connection: Self)
        ensures
            connection@ == ConnectionView::Closed,
    {
        Connection { phase: Phase::Closed, waiting: Vec::new(), response: Vec::new() }
    }

    /// Serves the next of the values `waiting`, of which the next is the
    /// last.
    fn advance(waiting: Vec<Resp>, response: Vec<u8>) -> (r: (Connection, Action))
        ensures
            (r.0@, r.1@) == advance(backwards(view_each(waiting@)), response@),
    {
        let ghost before = view_each(waiting@);
        let mut waiting = waiting;
        match waiting.pop() {
            None => (
                Connection { phase: Phase::Writing, waiting, response: Vec::new() },
                Action::Write(response),
            ),
            Some(value) => {
                proof {
                    assert(backwards(before)[0] == value@);
                    assert(backwards(before).drop_first() =~= backwards(view_each(waiting@)));
                }
                match Command::from(value) {
                    Err(e) => (Connection::closed(), Action::Fail(e)),
                    Ok(command) => (
                        Connection { phase: Phase::Dispatching, waiting, response },
                        Action::Submit(command),
                    ),
                }
            },
        }
    }

    /// Takes what came of the last action, and gives the connection as it
    /// stands now and the action to take next.
    pub fn step(self, event: Event) -> (r: (Connection, Action))
        ensures
            (r.0@, r.1@) == next_step(self@, event@),
    {
        match (self.phase, event) {
            (Phase::Reading, Event::Received(bytes)) => {
                if bytes.len() == 0 {
                    return (Connection::closed(), Action::Close);
                }
                match Resp::deserialize(bytes.as_slice()) {
                    Err(e) => (Connection::closed(), Action::Fail(e)),
                    Ok(values) => {
                        let waiting = reversed(values);
                        proof {
                            assert(backwards(view_each(waiting@)) =~= view_each(values@));
                        }
                        Connection::advance(waiting, Vec::new())
                    },
                }
            },
            (Phase::Dispatching, Event::Replied(bytes)) => {
                let mut response = self.response;
                let mut bytes = bytes;
                response.append(&mut bytes);
                Connection::advance(self.waiting, response)
            },
            (Phase::Writing, Event::Written) => (Connection::new(), Action::Read),
            _ => (Connection::closed(), Action::Fail(SerirError::OutOfTurn)),
        }
    }
}

/// The mathematical content of what serving a buffer gave.
pub open spec fn written(r: SerirResult<Vec<u8>>) -> Result<Seq<u8>, ErrorView> {
    match r {
        Ok(bytes) => Ok(bytes@),
        Err(e) => Err(e@),
    }
}

/// Serves the bytes of one read against a store at hand: every command
/// that they hold is carried out by `store`, in order, and the answers are
/// returned one behind the other, as a connection would write them.
pub fn serve(store: &mut KeyValueStore, input: &[u8]) -> (r: SerirResult<Vec<u8>>)
    ensures
        written(r) == session(input@, old(store)@).0,
        final(store)@ == session(input@, old(store)@).1,
{
    let ghost target = session(input@, store@);
    let first = Connection::new().step(Event::Received(slice_to_vec(input)));
    let mut connection = first.0;
    let mut action = first.1;
    proof {
        if input@.len() == 0 {
            assert(decode(input@) == Ok::<Seq<RespView>, ErrorView>(Seq::<RespView>::empty()));
        }
    }
    loop
        invariant
            target == session(input@, old(store)@),
            match action@ {
                ActionView::Read => false,
                ActionView::Close => target == (
                    Ok::<Seq<u8>, ErrorView>(Seq::<u8>::empty()),
                    store@,
                ),
                ActionView::Write(bytes) => target == (Ok::<Seq<u8>, ErrorView>(bytes), store@),
                ActionView::Fail(e) => target == (Err::<Seq<u8>, ErrorView>(e), store@),
                ActionView::Submit(command) => connection@ matches ConnectionView::Dispatching {
                    waiting,
                    response,
                } && target == dispatch_all(
                    waiting,
                    response + encode(reply_to(store@, command)),
                    state_after(store@, command),
                ),
            },
        decreases
            match connection@ {
                ConnectionView::Dispatching { waiting, response } => waiting.len() + 1,
                _ => 0,
            },
    {
        match action {
            Action::Submit(command) => {
                let reply = store.exec(command);
                let next = connection.step(Event::Replied(reply));
                connection = next.0;
                action = next.1;
            },
            Action::Write(bytes) => {
                return Ok(bytes);
            },
            Action::Fail(e) => {
                return Err(e);
            },
            _ => {
                return Ok(Vec::new());
            },
        }
    }
}

/// What is written back for the encodings of values that can be sent,
/// joined in order, are the answers to those values in that order: the
/// values reach the store as they were sent.
pub proof fn lemma_session_of_encoded(vs: Seq<RespView>, store: Map<Seq<u8>, Seq<u8>>)
    requires
        all_well_formed(vs),
    ensures
        session(encode_all(vs), store) == dispatch_all(vs, Seq::<u8>::empty(), store),
{
    lemma_pipelining(vs);
}

/// Answers come in the order of the commands: where one read brings `SET`
/// of a key and then `GET` of that key, what is written back is `OK` and
/// then the value just set, whatever the store held before.
pub proof fn lemma_set_then_get(
    store: Map<Seq<u8>, Seq<u8>>,
    set_word: Seq<u8>,
    get_word: Seq<u8>,
    key: Seq<u8>,
    value: Seq<u8>,
)
    requires
        is_keyword(set_word, word_set()),
        is_keyword(get_word, word_get()),
        key.len() <= i64::MAX,
        value.len() <= i64::MAX,
    ensures
        session(
            encode(request(set_word, seq![key, value])) + encode(request(get_word, seq![key])),
            store,
        ) == (
            Ok::<Seq<u8>, ErrorView>(
                encode(RespView::SimpleString(ascii("OK"@))) + encode(
                    RespView::BulkString(Some(value)),
                ),
            ),
            store.insert(key, value),
        ),
{
    let set = request(set_word, seq![key, value]);
    let get = request(get_word, seq![key]);
    let both = seq![set, get];
    lemma_request_is_well_formed(set_word, seq![key, value]);
    lemma_request_is_well_formed(get_word, seq![key]);
    lemma_session_of_encoded(both, store);
    assert(both =~= seq![set] + seq![get]);
    lemma_encode_all_concat(seq![set], seq![get]);
    lemma_encode_all_single(set);
    lemma_encode_all_single(get);
    lemma_set_arity(set_word, seq![key, value]);
    lemma_get_arity(get_word, seq![key]);
    let set_command = CommandView::SetValue(key, value);
    let get_command = CommandView::Get(key);
    let none = Seq::<u8>::empty();
    let after_set = none + encode(reply_to(store, set_command));
    let held = state_after(store, set_command);
    let after_get = after_set + encode(reply_to(held, get_command));
    assert(both.drop_first() =~= seq![get]);
    assert(seq![get].drop_first() =~= Seq::<RespView>::empty());
    assert(dispatch_all(Seq::<RespView>::empty(), after_get, held) == (
        Ok::<Seq<u8>, ErrorView>(after_get),
        held,
    ));
    assert(dispatch_all(seq![get], after_set, held) == (
        Ok::<Seq<u8>, ErrorView>(after_get),
        held,
    ));
    assert(dispatch_all(both, none, store) == (Ok::<Seq<u8>, ErrorView>(after_get), held));
    assert(after_get =~= encode(RespView::SimpleString(ascii("OK"@))) + encode(
        RespView::BulkString(Some(value)),
    ));
}

/// A request whose word and arguments have lengths that fit in 64 bits
/// with a sign, and which has no more arguments than that, can be sent.
pub proof fn lemma_request_is_well_formed(word: Seq<u8>, arguments: Seq<Seq<u8>>)
    requires
        word.len() <= i64::MAX,
        arguments.len() < i64::MAX,
        forall|i: int| 0 <= i < arguments.len() ==> (#[trigger] arguments[i]).len() <= i64::MAX,
    ensures
        well_formed(request(word, arguments)),
{
    let elements = request(word, arguments)->Array_0->0;
    assert forall|i: int| 0 <= i < elements.len() implies well_formed(#[trigger] elements[i]) by {
        if i > 0 {
            assert(elements[i] == RespView::BulkString(Some(arguments[i - 1])));
        }
    }
}

} // verus!
