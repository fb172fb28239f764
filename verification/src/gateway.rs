//! The gateway's decisions: its settings, the identifiers it gives TCP clients,
//! who receives a broadcast line, and what becomes of a line a client sends.
use vstd::prelude::*;
use std::sync::Arc;
use vstd::utf8::encode_utf8;
use crate::number::{decimal_text, lemma_decimal_text_roundtrip, parse_bounded, parse_unsigned_chars};
use crate::raw::{
    encode_raw_line, is_timestamp_text, lemma_encoded_line_reads_back, parse_raw_line,
    parse_raw_text, raw_line_text,
};
use crate::frame::CAN_MAX_DATA_LEN;
use crate::text::chars_of;

verus! {

/// Identifies a connected TCP client.
pub type ClientId = u64;

/// The source of a broadcast line that came from the CAN bus rather than from
/// a client.
pub const CAN_BUS_SOURCE: ClientId = 0;

/// The TCP port the gateway listens on when none (or no valid one) is set.
pub const DEFAULT_LISTEN_PORT: u16 = 2598;

/// The listen port for a `LISTEN_PORT` setting: the setting read as a decimal
/// number that fits in 16 bits (an optional `+`, then digits), else 2598.
pub open spec fn listen_port(setting: Option<Seq<char>>) -> u16 {
    match setting {
        Some(text) => match parse_bounded(text, 10, 0xffff) {
            Some(v) => v as u16,
            None => DEFAULT_LISTEN_PORT,
        },
        None => DEFAULT_LISTEN_PORT,
    }
}

/// The listen port for a `LISTEN_PORT` setting: the decimal numeral of any
/// port number gives that port, also with a leading `+`; the numeral of a
/// number above 65535 gives 2598, and so does no setting.
pub proof fn lemma_listen_port(n: nat)
    ensures
        n <= 0xffff ==> listen_port(Some(decimal_text(n))) == n,
        n <= 0xffff ==> listen_port(Some(seq!['+'] + decimal_text(n))) == n,
        n > 0xffff ==> listen_port(Some(decimal_text(n))) == DEFAULT_LISTEN_PORT,
        listen_port(None) == DEFAULT_LISTEN_PORT,
{
    lemma_decimal_text_roundtrip(n);
    assert((seq!['+'] + decimal_text(n)).drop_first() == decimal_text(n));
}

/// The gateway's settings.
pub struct Gateway {
    /// SocketCAN interface to bridge.
    pub can_interface: String,
    /// Address to accept TCP clients on.
    pub host: String,
    /// TCP port to accept clients on.
    pub port: u16,
}

impl Gateway {
    /// The settings from the values of `CAN_INTERFACE`, `LISTEN_HOST` and
    /// `LISTEN_PORT` (`None` where a variable is unset): `can0`, `0.0.0.0` and
    /// 2598 stand in for what is missing, and for a port that does not read as
    /// a 16-bit decimal number.
    pub fn from_settings(
        can_interface: Option<String>,
        host: Option<String>,
        port: Option<String>,
    ) -> (g: Gateway)
        ensures
            g.can_interface@ == match can_interface {
                Some(s) => s@,
                None => "can0"@,
            },
            g.host@ == match host {
                Some(s) => s@,
                None => "0.0.0.0"@,
            },
            g.port == listen_port(
                match port {
                    Some(s) => Some(s@),
                    None => None,
                },
            ),
    {
        let can_interface = match can_interface {
            Some(s) => s,
            None => "can0".to_string(),
        };
        let host = match host {
            Some(s) => s,
            None => "0.0.0.0".to_string(),
        };
        let port = match port {
            Some(s) => {
                let chars = chars_of(s.as_str());
                match parse_unsigned_chars(&chars, 10, 0xffff) {
                    Some(v) => v as u16,
                    None => DEFAULT_LISTEN_PORT,
                }
            },
            None => DEFAULT_LISTEN_PORT,
        };
        Gateway { can_interface, host, port }
    }
}

/// The identifiers handed out by an allocator that has served `n` connections:
/// 1, 2, ..., n.
pub open spec fn first_ids(n: nat) -> Seq<ClientId> {
    Seq::new(n, |i: int| (i + 1) as ClientId)
}

/// Hands out client identifiers: 1, 2, 3, ... in order of connection, so no
/// client shares an identifier with another or with `CAN_BUS_SOURCE`.
pub struct ClientIds {
    next: u64,
    issued: Ghost<Seq<ClientId>>,
}

impl ClientIds {
    #[verifier::type_invariant]
    spec fn counts_from_one(self) -> bool {
        &&& self.next >= 1
        &&& self.issued@ == first_ids((self.next - 1) as nat)
    }

    /// The identifier that the next connection receives.
    pub closed spec fn next_id(self) -> u64 {
        self.next
    }

    /// The identifiers handed out so far, in order.
    pub closed spec fn issued(self) -> Seq<ClientId> {
        self.issued@
    }

    /// True of every allocator: it has handed out 1, 2, ... up to the one
    /// before `next_id`.
    pub closed spec fn well_formed(self) -> bool {
        self.counts_from_one()
    }

    /// A fresh allocator: the first client gets identifier 1.
    pub fn new() -> (ids: ClientIds)
        ensures
            ids.next_id() == 1,
            ids.issued() == Seq::<ClientId>::empty(),
            ids.well_formed(),
    {
        assert(first_ids(0) =~= Seq::<ClientId>::empty());
        ClientIds { next: 1, issued: Ghost(Seq::empty()) }
    }

    /// The identifier that the next connection receives.
    pub fn peek_next(&self) -> (id: ClientId)
        ensures
            id == self.next_id(),
            id != CAN_BUS_SOURCE,
            self.well_formed(),
    {
        proof {
            use_type_invariant(self);
        }
        self.next
    }

    /// Gives the next identifier to a new client. The counter must not be
    /// exhausted.
    pub fn allocate(&mut self) -> (id: ClientId)
        requires
            old(self).next_id() < u64::MAX,
        ensures
            id == old(self).next_id(),
            id != CAN_BUS_SOURCE,
            final(self).next_id() == id + 1,
            final(self).issued() == old(self).issued().push(id),
            final(self).well_formed(),
    {
        proof {
            use_type_invariant(&*self);
        }
        let id = self.next;
        let ghost issued = self.issued@.push(id);
        assert(issued =~= first_ids(id as nat));
        *self = ClientIds { next: id + 1, issued: Ghost(issued) };
        id
    }
}

/// Client identifiers: an allocator that has served `n` connections has given
/// them 1, 2, ..., n in that order, each once, none of them `CAN_BUS_SOURCE`,
/// and gives `n + 1` next.
pub proof fn lemma_client_ids(ids: ClientIds)
    requires
        ids.well_formed(),
    ensures
        ids.issued() == first_ids(ids.issued().len()),
        ids.next_id() == ids.issued().len() + 1,
        forall|i: int, j: int|
            0 <= i < j < ids.issued().len() ==> ids.issued()[i] != ids.issued()[j],
        forall|i: int| 0 <= i < ids.issued().len() ==> ids.issued()[i] != CAN_BUS_SOURCE,
{
}

/// Whether a broadcast line from `source` is written to the client `client`:
/// every client receives every line except the ones it sent itself (those it
/// receives directly).
pub open spec fn is_delivered(source: ClientId, client: ClientId) -> bool {
    source != client
}

/// A RAW line on its way to every connected client, with where it came from.
#[derive(Clone)]
pub struct BroadcastMsg {
    /// The RAW line, as bytes.
    pub data: Arc<Vec<u8>>,
    /// The client that sent the frame, or `CAN_BUS_SOURCE`.
    pub source: ClientId,
}

impl BroadcastMsg {
    /// A line for a frame read from the CAN bus.
    pub fn from_can(line: Vec<u8>) -> (m: BroadcastMsg)
        ensures
            *m.data == line,
            m.source == CAN_BUS_SOURCE,
    {
        BroadcastMsg { data: Arc::new(line), source: CAN_BUS_SOURCE }
    }

    /// A line for a frame that the client `client` sent.
    pub fn from_client(client: ClientId, line: Vec<u8>) -> (m: BroadcastMsg)
        ensures
            *m.data == line,
            m.source == client,
    {
        BroadcastMsg { data: Arc::new(line), source: client }
    }

    /// Whether this line is written to the client `client`.
    pub fn delivers_to(&self, client: ClientId) -> (r: bool)
        ensures
            r == is_delivered(self.source, client),
    {
        self.source != client
    }
}

/// Delivery: a line read from the CAN bus reaches every client; a line a
/// client sent reaches every other client and not that client.
pub proof fn lemma_delivery(sender: ClientId, client: ClientId)
    requires
        client != CAN_BUS_SOURCE,
    ensures
        is_delivered(CAN_BUS_SOURCE, client),
        is_delivered(sender, client) <==> sender != client,
        !is_delivered(client, client),
{
}

/// What the gateway does with a line a client sent, when it reads as a frame:
/// the frame goes to the CAN bus, and, when a CAN frame can carry its data,
/// `echo` (its `T` line) goes back to that client and to every other client.
pub struct Transmission {
    /// The CAN ID the client asked for.
    pub can_id: u32,
    /// The data bytes the client asked for.
    pub data: Vec<u8>,
    /// The `T` line that confirms the frame, with the CAN ID as the client
    /// sent it; `None` when the data is too long for a CAN frame, so that no
    /// frame is transmitted.
    pub echo: Option<Vec<u8>>,
}

/// The `T` line that confirms a frame sent with `can_id` and `data`, for some
/// time of day.
pub open spec fn is_echo_of(echo: Seq<u8>, can_id: u32, data: Seq<u8>) -> bool {
    exists|ts: Seq<char>|
        is_timestamp_text(ts) && echo == encode_utf8(
            #[trigger] raw_line_text(ts, can_id, data, 'T'),
        )
}

/// The decision for a line a client sent: `None` when it does not read as a
/// RAW frame (blank lines included), else the frame and, when it has at most
/// eight data bytes, its `T` echo line stamped with the current time.
pub fn client_transmission(line: &str) -> (t: Option<Transmission>)
    ensures
        match t {
            None => parse_raw_text(line@) is None,
            Some(t) => {
                &&& parse_raw_text(line@) == Some((t.can_id, t.data@))
                &&& (t.echo is Some <==> t.data@.len() <= CAN_MAX_DATA_LEN)
                &&& (t.echo matches Some(e) ==> is_echo_of(e@, t.can_id, t.data@))
            },
        },
{
    match parse_raw_line(line) {
        None => None,
        Some((can_id, data)) => {
            let echo = if data.len() <= CAN_MAX_DATA_LEN {
                Some(encode_raw_line(can_id, &data, 'T'))
            } else {
                None
            };
            Some(Transmission { can_id, data, echo })
        },
    }
}

/// A `T` echo reads back as the frame the client sent: any text whose UTF-8
/// encoding is the echo parses to the requested CAN ID and the data.
pub proof fn lemma_echo_reads_back(echo: Seq<u8>, can_id: u32, data: Seq<u8>, echo_text: Seq<char>)
    requires
        is_echo_of(echo, can_id, data),
        encode_utf8(echo_text) == echo,
    ensures
        parse_raw_text(echo_text) == Some((can_id, data)),
{
    let ts = choose|ts: Seq<char>|
        is_timestamp_text(ts) && echo == encode_utf8(
            #[trigger] raw_line_text(ts, can_id, data, 'T'),
        );
    lemma_encoded_line_reads_back(echo_text, ts, can_id, data, 'T');
}

/// Where a client connection stands in handling the line it sent last.
pub enum ClientState {
    /// Waiting for the next line from the client.
    Ready,
    /// The frame has been handed to the CAN writer; the echo, if any, follows.
    AwaitingCan { pending_echo: Option<Vec<u8>> },
    /// The echo has been handed to the client; the broadcast follows.
    AwaitingEcho { echo: Vec<u8> },
    /// A channel closed: the connection ends.
    Closed,
}

/// What happens on a client connection.
pub enum ClientEvent {
    /// The client sent this line.
    Line(String),
    /// The last hand-over (to the CAN writer, or of the echo to the client)
    /// succeeded (`true`) or found its channel closed (`false`).
    Sent(bool),
}

/// What the connection does next.
pub enum ClientAction {
    /// Nothing: read the next line.
    Wait,
    /// Hand the frame to the CAN writer, then report with `Sent`.
    SendToCan { can_id: u32, data: Vec<u8> },
    /// Hand the echo line to this client, then report with `Sent`.
    SendEcho(Vec<u8>),
    /// Broadcast this line to the other clients; then read the next line.
    Broadcast(BroadcastMsg),
    /// End the connection.
    Disconnect,
}

/// The step from `state` on `event` to `next` with `action`, for the client
/// `client`:
/// - `Ready`, on a line: nothing when the line does not read as a frame; else
///   hand the frame to the CAN writer and wait for that, holding the `T` echo
///   when the data fits a CAN frame;
/// - `AwaitingCan`, on the hand-over's result: end the connection if the
///   channel closed; else hand the echo, if any, to the client;
/// - `AwaitingEcho`, on the hand-over's result: end the connection if the
///   channel closed; else broadcast the echo with the client as its source;
/// - any other event leaves the state as it is and does nothing.
pub open spec fn step_relation(
    state: ClientState,
    client: ClientId,
    event: ClientEvent,
    next: ClientState,
    action: ClientAction,
) -> bool {
    match (state, event) {
        (ClientState::Ready, ClientEvent::Line(text)) => match parse_raw_text(text@) {
            None => next is Ready && action is Wait,
            Some((can_id, data)) => {
                &&& action matches ClientAction::SendToCan { can_id: c, data: d } && c == can_id
                    && d@ == data
                &&& next matches ClientState::AwaitingCan { pending_echo } && (pending_echo is Some
                    <==> data.len() <= CAN_MAX_DATA_LEN) && (pending_echo matches Some(e)
                    ==> is_echo_of(e@, can_id, data))
            },
        },
        (ClientState::AwaitingCan { pending_echo }, ClientEvent::Sent(ok)) => if !ok {
            next is Closed && action is Disconnect
        } else {
            match pending_echo {
                None => next is Ready && action is Wait,
                Some(e) => {
                    &&& next matches ClientState::AwaitingEcho { echo } && echo == e
                    &&& action matches ClientAction::SendEcho(c) && c@ == e@
                },
            }
        },
        (ClientState::AwaitingEcho { echo }, ClientEvent::Sent(ok)) => if !ok {
            next is Closed && action is Disconnect
        } else {
            &&& next is Ready
            &&& action matches ClientAction::Broadcast(m) && *m.data == echo && m.source == client
        },
        (s, _) => next == s && action is Wait,
    }
}

/// One step of handling a client's lines: a line that reads as a frame goes to
/// the CAN writer first, then (when it has an echo) its `T` echo goes to the
/// client, then the echo is broadcast to the other clients; the connection ends
/// as soon as one of the first two hand-overs finds its channel closed. An
/// event that does not fit the state changes nothing.
pub fn client_step(state: ClientState, client: ClientId, event: ClientEvent) -> (r: (
    ClientState,
    ClientAction,
))
    ensures
        step_relation(state, client, event, r.0, r.1),
{
    match (state, event) {
        (ClientState::Ready, ClientEvent::Line(text)) => match client_transmission(text.as_str()) {
            None => (ClientState::Ready, ClientAction::Wait),
            Some(t) => (
                ClientState::AwaitingCan { pending_echo: t.echo },
                ClientAction::SendToCan { can_id: t.can_id, data: t.data },
            ),
        },
        (ClientState::AwaitingCan { pending_echo }, ClientEvent::Sent(ok)) => {
            if !ok {
                (ClientState::Closed, ClientAction::Disconnect)
            } else {
                match pending_echo {
                    None => (ClientState::Ready, ClientAction::Wait),
                    Some(e) => {
                        let copy = e.clone();
                        assert(copy@ =~= e@);
                        (ClientState::AwaitingEcho { echo: e }, ClientAction::SendEcho(copy))
                    },
                }
            }
        },
        (ClientState::AwaitingEcho { echo }, ClientEvent::Sent(ok)) => {
            if !ok {
                (ClientState::Closed, ClientAction::Disconnect)
            } else {
                (ClientState::Ready, ClientAction::Broadcast(BroadcastMsg::from_client(client, echo)))
            }
        },
        (s, _) => (s, ClientAction::Wait),
    }
}

/// One recorded step of a client connection: the state it was in, the event,
/// and the state and action that `client_step` gave.
pub struct SessionStep {
    pub state: ClientState,
    pub event: ClientEvent,
    pub next: ClientState,
    pub action: ClientAction,
}

/// The event a connection feeds after `action` while its channels stay open:
/// the successful result of a hand-over, or else the next line.
pub open spec fn follows(action: ClientAction, event: ClientEvent) -> bool {
    match action {
        ClientAction::SendToCan { .. } => event == ClientEvent::Sent(true),
        ClientAction::SendEcho(_) => event == ClientEvent::Sent(true),
        _ => event is Line,
    }
}

/// The steps of a connection for `client` whose channels stay open: it starts
/// `Ready` with a line, each step is one of `client_step`, each starts where
/// the one before ended, and each event is what the action before calls for.
pub open spec fn is_open_session(client: ClientId, steps: Seq<SessionStep>) -> bool {
    &&& steps.len() > 0 ==> steps[0].state is Ready && steps[0].event is Line
    &&& forall|i: int|
        0 <= i < steps.len() ==> step_relation(
            #[trigger] steps[i].state,
            client,
            steps[i].event,
            steps[i].next,
            steps[i].action,
        )
    &&& forall|i: int|
        0 < i < steps.len() ==> #[trigger] steps[i].state == steps[i - 1].next && follows(
            steps[i - 1].action,
            steps[i].event,
        )
}

/// The frames that the lines of a session read as, in order.
pub open spec fn frames_read(steps: Seq<SessionStep>) -> Seq<(u32, Seq<u8>)>
    decreases steps.len(),
{
    if steps.len() == 0 {
        seq![]
    } else {
        let before = frames_read(steps.drop_last());
        match steps.last().event {
            ClientEvent::Line(text) => match parse_raw_text(text@) {
                Some(f) => before.push(f),
                None => before,
            },
            _ => before,
        }
    }
}

/// The frames with at most eight data bytes among `frames`, in order.
pub open spec fn sendable_frames(frames: Seq<(u32, Seq<u8>)>) -> Seq<(u32, Seq<u8>)>
    decreases frames.len(),
{
    if frames.len() == 0 {
        seq![]
    } else {
        let before = sendable_frames(frames.drop_last());
        if frames.last().1.len() <= CAN_MAX_DATA_LEN {
            before.push(frames.last())
        } else {
            before
        }
    }
}

/// The frames a session hands to the CAN writer, in order.
pub open spec fn frames_to_can(steps: Seq<SessionStep>) -> Seq<(u32, Seq<u8>)>
    decreases steps.len(),
{
    if steps.len() == 0 {
        seq![]
    } else {
        let before = frames_to_can(steps.drop_last());
        match steps.last().action {
            ClientAction::SendToCan { can_id, data } => before.push((can_id, data@)),
            _ => before,
        }
    }
}

/// The echo lines a session hands to its own client, in order.
pub open spec fn echoes_to_client(steps: Seq<SessionStep>) -> Seq<Seq<u8>>
    decreases steps.len(),
{
    if steps.len() == 0 {
        seq![]
    } else {
        let before = echoes_to_client(steps.drop_last());
        match steps.last().action {
            ClientAction::SendEcho(e) => before.push(e@),
            _ => before,
        }
    }
}

/// The lines a session broadcasts, in order.
pub open spec fn lines_broadcast(steps: Seq<SessionStep>) -> Seq<Seq<u8>>
    decreases steps.len(),
{
    if steps.len() == 0 {
        seq![]
    } else {
        let before = lines_broadcast(steps.drop_last());
        match steps.last().action {
            ClientAction::Broadcast(m) => before.push((*m.data)@),
            _ => before,
        }
    }
}

/// What holds after every prefix of an open session.
spec fn session_progress(client: ClientId, steps: Seq<SessionStep>) -> bool {
    let sent = echoes_to_client(steps);
    let sendable = sendable_frames(frames_read(steps));
    let cast = lines_broadcast(steps);
    &&& frames_to_can(steps) == frames_read(steps)
    &&& sent.len() <= sendable.len()
    &&& forall|i: int|
        0 <= i < sent.len() ==> is_echo_of(#[trigger] sent[i], sendable[i].0, sendable[i].1)
    &&& if steps.len() == 0 {
        sent.len() == 0 && cast.len() == 0
    } else {
        match steps.last().action {
            ClientAction::SendToCan { .. } => match steps.last().next {
                ClientState::AwaitingCan { pending_echo } => {
                    &&& cast == sent
                    &&& match pending_echo {
                        Some(e) => sent.len() + 1 == sendable.len() && is_echo_of(
                            e@,
                            sendable.last().0,
                            sendable.last().1,
                        ),
                        None => sent.len() == sendable.len(),
                    }
                },
                _ => false,
            },
            ClientAction::SendEcho(c) => match steps.last().next {
                ClientState::AwaitingEcho { echo } => {
                    &&& sent.len() == sendable.len()
                    &&& sent.len() > 0
                    &&& sent.last() == echo@
                    &&& c@ == echo@
                    &&& cast == sent.drop_last()
                },
                _ => false,
            },
            ClientAction::Disconnect => false,
            _ => steps.last().next is Ready && sent.len() == sendable.len() && cast == sent,
        }
    }
}

proof fn lemma_session_progress(client: ClientId, steps: Seq<SessionStep>)
    requires
        is_open_session(client, steps),
    ensures
        session_progress(client, steps),
    decreases steps.len(),
{
    if steps.len() > 0 {
        let prev = steps.drop_last();
        let k = steps.len() - 1;
        let st = steps[k];
        assert(is_open_session(client, prev)) by {
            assert forall|i: int| 0 <= i < prev.len() implies step_relation(
                #[trigger] prev[i].state,
                client,
                prev[i].event,
                prev[i].next,
                prev[i].action,
            ) by {
                assert(prev[i] == steps[i]);
            }
            assert forall|i: int| 0 < i < prev.len() implies #[trigger] prev[i].state == prev[i
                - 1].next && follows(prev[i - 1].action, prev[i].event) by {
                assert(prev[i] == steps[i]);
                assert(prev[i - 1] == steps[i - 1]);
            }
        }
        lemma_session_progress(client, prev);
        assert(step_relation(st.state, client, st.event, st.next, st.action));
        if k > 0 {
            assert(steps[k].state == steps[k - 1].next);
            assert(follows(steps[k - 1].action, steps[k].event));
            assert(prev.last() == steps[k - 1]);
        }
        let sent0 = echoes_to_client(prev);
        let sendable0 = sendable_frames(frames_read(prev));
        let sent = echoes_to_client(steps);
        let sendable = sendable_frames(frames_read(steps));
        assert(steps.last() == st);
        match st.event {
            ClientEvent::Line(text) => {
                match parse_raw_text(text@) {
                    None => {},
                    Some(f) => {
                        assert(frames_read(steps) == frames_read(prev).push(f));
                        assert(frames_read(steps).drop_last() == frames_read(prev));
                        assert(frames_read(steps).last() == f);
                        assert forall|i: int| 0 <= i < sent.len() implies is_echo_of(
                            #[trigger] sent[i],
                            sendable[i].0,
                            sendable[i].1,
                        ) by {
                            if f.1.len() <= CAN_MAX_DATA_LEN {
                                assert(sendable == sendable0.push(f));
                                assert(sendable[i] == sendable0[i]);
                            }
                        }
                    },
                }
            },
            ClientEvent::Sent(ok) => {
                assert(k > 0);
                assert(ok);
                assert(frames_read(steps) == frames_read(prev));
                match st.action {
                    ClientAction::SendEcho(c) => {
                        assert(sent == sent0.push(c@));
                        assert(sent.drop_last() == sent0);
                        assert(lines_broadcast(steps) == lines_broadcast(prev));
                        assert forall|i: int| 0 <= i < sent.len() implies is_echo_of(
                            #[trigger] sent[i],
                            sendable[i].0,
                            sendable[i].1,
                        ) by {
                            if i < sent0.len() {
                                assert(sent[i] == sent0[i]);
                            }
                        }
                    },
                    ClientAction::Broadcast(m) => {
                        assert(lines_broadcast(steps) == lines_broadcast(prev).push((*m.data)@));
                        assert(sent0 == sent0.drop_last().push(sent0.last()));
                    },
                    _ => {},
                }
            },
        }
    }
}

/// A session whose channels stay open, over any number of lines: the CAN
/// writer receives exactly the frames that the lines read as, in order; the
/// client receives one `T` echo of its own for each of those frames that has
/// at most eight data bytes, in the same order; every broadcast line is one of
/// those echoes, in the same order, with the client as its source, so it never
/// reaches that client a second time; and the connection does not end. The
/// session is taken at a point where its last line has been handled.
pub proof fn lemma_session(client: ClientId, steps: Seq<SessionStep>)
    requires
        is_open_session(client, steps),
        steps.len() > 0 ==> steps.last().action is Wait || steps.last().action is Broadcast,
    ensures
        frames_to_can(steps) == frames_read(steps),
        echoes_to_client(steps).len() == sendable_frames(frames_read(steps)).len(),
        forall|i: int|
            0 <= i < echoes_to_client(steps).len() ==> is_echo_of(
                #[trigger] echoes_to_client(steps)[i],
                sendable_frames(frames_read(steps))[i].0,
                sendable_frames(frames_read(steps))[i].1,
            ),
        lines_broadcast(steps) == echoes_to_client(steps),
        forall|i: int|
            0 <= i < steps.len() ==> (#[trigger] steps[i].action matches ClientAction::Broadcast(
                m,
            ) ==> m.source == client && !is_delivered(m.source, client)),
        forall|i: int| 0 <= i < steps.len() ==> !(#[trigger] steps[i].action is Disconnect),
{
    lemma_session_progress(client, steps);
    assert forall|i: int| 0 <= i < steps.len() implies !(#[trigger] steps[i].action is Disconnect)
        && (steps[i].action matches ClientAction::Broadcast(m) ==> m.source == client) by {
        assert(step_relation(steps[i].state, client, steps[i].event, steps[i].next, steps[i].action));
        if i > 0 {
            assert(steps[i].state == steps[i - 1].next);
            assert(follows(steps[i - 1].action, steps[i].event));
        }
    }
}

} // verus!
