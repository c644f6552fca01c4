//! The decisions of the TCP and QUIC subscription servers: which requests
//! are answered with an error, what a subscription answers, how messages are
//! framed on the wire, and how many messages a QUIC connection keeps in
//! flight.
use vstd::prelude::*;
use crate::channel::{Sender, Receiver, RichatFilter, SubscribeError, subscribed_receiver};

verus! {

/// Why a subscription request is refused.
#[derive(Debug, Clone, Copy, PartialEq, Eq, Structural)]
pub enum SubscribeResponseError {
    RequestSizeTooLarge,
    XTokenRequired,
    XTokenInvalid,
    ZeroRecvStreams,
    ExceedRecvStreams,
    NotInitialized,
    SlotNotAvailable,
}

/// The answer to a subscription request.
#[derive(Debug, Clone, Copy, PartialEq, Eq, Structural)]
pub struct SubscribeResponse {
    pub error: Option<SubscribeResponseError>,
    pub max_recv_streams: Option<u32>,
    pub first_available_slot: Option<u64>,
}

/// A response carrying only an error.
pub open spec fn error_response(e: SubscribeResponseError) -> SubscribeResponse {
    SubscribeResponse { error: Some(e), max_recv_streams: None, first_available_slot: None }
}

/// The response of an accepted subscription.
pub open spec fn ok_response() -> SubscribeResponse {
    SubscribeResponse { error: None, max_recv_streams: None, first_available_slot: None }
}

/// The refusal of a request over the size limit, read before its body.
pub fn check_request_size(size: u64, max_request_size: u64) -> (r: Option<SubscribeResponse>)
    ensures
        r == (if size > max_request_size {
            Some(error_response(SubscribeResponseError::RequestSizeTooLarge))
        } else {
            None::<SubscribeResponse>
        }),
{
    if size > max_request_size {
        Some(SubscribeResponse {
            error: Some(SubscribeResponseError::RequestSizeTooLarge),
            max_recv_streams: None,
            first_available_slot: None,
        })
    } else {
        None
    }
}

/// Whether `token` is one of `tokens`.
pub open spec fn token_known(tokens: Seq<Vec<u8>>, token: Seq<u8>) -> bool {
    exists|i: int| 0 <= i < tokens.len() && (#[trigger] tokens[i])@ == token
}

/// What the access check answers: nothing when no tokens are configured;
/// otherwise a missing token is required and an unknown one invalid.
pub open spec fn x_token_error(tokens: Seq<Vec<u8>>, token: Option<Seq<u8>>) -> Option<SubscribeResponseError> {
    if tokens.len() == 0 {
        None
    } else {
        match token {
            None => Some(SubscribeResponseError::XTokenRequired),
            Some(t) => if token_known(tokens, t) {
                None
            } else {
                Some(SubscribeResponseError::XTokenInvalid)
            },
        }
    }
}

/// Two byte strings are equal.
fn same_bytes(a: &Vec<u8>, b: &Vec<u8>) -> (r: bool)
    ensures
        r == (a@ == b@),
{
    if a.len() != b.len() {
        return false;
    }
    let mut i: usize = 0;
    while i < a.len()
        invariant
            i <= a@.len(),
            a@.len() == b@.len(),
            forall|j: int| 0 <= j < i ==> a@[j] == b@[j],
        decreases a@.len() - i,
    {
        if a[i] != b[i] {
            return false;
        }
        i = i + 1;
    }
    assert(a@ =~= b@);
    true
}

/// Checks the access token of a request.
pub fn verify_x_token(x_tokens: &Vec<Vec<u8>>, x_token: &Option<Vec<u8>>) -> (r: Option<SubscribeResponseError>)
    ensures
        r == x_token_error(x_tokens@, token_view(*x_token)),
{
    if x_tokens.len() == 0 {
        return None;
    }
    match x_token {
        None => Some(SubscribeResponseError::XTokenRequired),
        Some(t) => {
            let mut i: usize = 0;
            while i < x_tokens.len()
                invariant
                    i <= x_tokens@.len(),
                    x_tokens@.len() > 0,
                    token_view(*x_token) == Some(t@),
                    forall|j: int| 0 <= j < i ==> (#[trigger] x_tokens@[j])@ != t@,
                decreases x_tokens@.len() - i,
            {
                if same_bytes(&x_tokens[i], t) {
                    proof {
                        assert(x_tokens@[i as int]@ == t@);
                        assert(token_known(x_tokens@, t@));
                    }
                    return None;
                }
                i = i + 1;
            }
            Some(SubscribeResponseError::XTokenInvalid)
        },
    }
}

/// The response to a subscription attempt: empty on success, the reason
/// and, for a slot not available, the first available slot otherwise.
pub open spec fn subscribe_response(result: Result<(), SubscribeError>) -> SubscribeResponse {
    match result {
        Ok(()) => ok_response(),
        Err(SubscribeError::NotInitialized) => error_response(SubscribeResponseError::NotInitialized),
        Err(SubscribeError::SlotNotAvailable { first_available }) => SubscribeResponse {
            error: Some(SubscribeResponseError::SlotNotAvailable),
            max_recv_streams: None,
            first_available_slot: Some(first_available),
        },
    }
}

/// A subscription request after its size was checked and its body decoded.
#[derive(Debug, Clone)]
pub struct SubscribeRequest {
    pub x_token: Option<Vec<u8>>,
    pub replay_from_slot: Option<u64>,
    pub filter: Option<RichatFilter>,
}

/// The view of an optional token.
pub open spec fn token_view(t: Option<Vec<u8>>) -> Option<Seq<u8>> {
    match t {
        Some(v) => Some(v@),
        None => None,
    }
}

/// Subscribes on the channel and answers.
fn subscribe_and_respond(
    messages: &Sender,
    replay_from_slot: Option<u64>,
    filter: Option<RichatFilter>,
) -> (r: (SubscribeResponse, Option<Receiver>))
    requires
        messages.wf(),
    ensures
        ({
            let res = messages.subscribe_outcome(replay_from_slot);
            &&& r.0 == subscribe_response(res)
            &&& (r.1 is Some <==> res is Ok)
            &&& r.1 matches Some(rx) ==> subscribed_receiver(*messages, replay_from_slot, filter, rx)
        }),
{
    match messages.subscribe(replay_from_slot, filter) {
        Ok(rx) => (
            SubscribeResponse { error: None, max_recv_streams: None, first_available_slot: None },
            Some(rx),
        ),
        Err(SubscribeError::NotInitialized) => (
            SubscribeResponse {
                error: Some(SubscribeResponseError::NotInitialized),
                max_recv_streams: None,
                first_available_slot: None,
            },
            None,
        ),
        Err(SubscribeError::SlotNotAvailable { first_available }) => (
            SubscribeResponse {
                error: Some(SubscribeResponseError::SlotNotAvailable),
                max_recv_streams: None,
                first_available_slot: Some(first_available),
            },
            None,
        ),
    }
}

/// The TCP subscription server.
#[derive(Debug, Clone, Copy)]
pub struct TcpServer;

impl TcpServer {
    /// Answers a decoded request: the access token first, then the
    /// subscription.
    pub fn handle_request(
        messages: &Sender,
        x_tokens: &Vec<Vec<u8>>,
        request: SubscribeRequest,
    ) -> (r: (SubscribeResponse, Option<Receiver>))
        requires
            messages.wf(),
        ensures
            match x_token_error(x_tokens@, token_view(request.x_token)) {
                Some(e) => r.0 == error_response(e) && r.1 is None,
                None => {
                    let res = messages.subscribe_outcome(request.replay_from_slot);
                    &&& r.0 == subscribe_response(res)
                    &&& (r.1 is Some <==> res is Ok)
                    &&& r.1 matches Some(rx) ==> subscribed_receiver(*messages, request.replay_from_slot, request.filter, rx)
                },
            },
    {
        if let Some(e) = verify_x_token(x_tokens, &request.x_token) {
            return (SubscribeResponse { error: Some(e), max_recv_streams: None, first_available_slot: None }, None);
        }
        subscribe_and_respond(messages, request.replay_from_slot, request.filter)
    }
}

/// A QUIC subscription request after its size was checked and its body
/// decoded.
#[derive(Debug, Clone)]
pub struct QuicSubscribeRequest {
    pub x_token: Option<Vec<u8>>,
    pub recv_streams: u32,
    pub max_backlog: Option<u32>,
    pub replay_from_slot: Option<u64>,
    pub filter: Option<RichatFilter>,
}

/// What an accepted QUIC subscription sends with: the number of streams,
/// the most messages in flight, and the receiver.
pub struct QuicSubscription {
    pub recv_streams: u32,
    pub max_backlog: u64,
    pub receiver: Receiver,
}

/// The QUIC subscription server.
#[derive(Debug, Clone, Copy)]
pub struct QuicServer;

impl QuicServer {
    /// The address a QUIC server listens on by default: `127.0.0.1:10100`.
    pub fn default_endpoint() -> (r: String)
        ensures
            r@ == "127.0.0.1:10100"@,
    {
        String::from_str("127.0.0.1:10100")
    }

    /// Answers a decoded request: the access token, then the number of
    /// streams (at least one, at most `max_recv_streams`), then the
    /// subscription. Without a backlog limit any number of messages may be
    /// in flight.
    pub fn handle_request(
        messages: &Sender,
        x_tokens: &Vec<Vec<u8>>,
        max_recv_streams: u32,
        request: QuicSubscribeRequest,
    ) -> (r: (SubscribeResponse, Option<QuicSubscription>))
        requires
            messages.wf(),
        ensures
            match x_token_error(x_tokens@, token_view(request.x_token)) {
                Some(e) => r.0 == error_response(e) && r.1 is None,
                None => if request.recv_streams == 0 || request.recv_streams > max_recv_streams {
                    &&& r.0 == (SubscribeResponse {
                        error: Some(
                            if request.recv_streams == 0 {
                                SubscribeResponseError::ZeroRecvStreams
                            } else {
                                SubscribeResponseError::ExceedRecvStreams
                            },
                        ),
                        max_recv_streams: Some(max_recv_streams),
                        first_available_slot: None,
                    })
                    &&& r.1 is None
                } else {
                    let res = messages.subscribe_outcome(request.replay_from_slot);
                    &&& r.0 == subscribe_response(res)
                    &&& (r.1 is Some <==> res is Ok)
                    &&& r.1 matches Some(s) ==> s.recv_streams == request.recv_streams && s.max_backlog == match request.max_backlog {
                        Some(b) => b as u64,
                        None => u64::MAX,
                    }
                    &&& r.1 matches Some(s) ==> subscribed_receiver(*messages, request.replay_from_slot, request.filter, s.receiver)
                },
            },
    {
        if let Some(e) = verify_x_token(x_tokens, &request.x_token) {
            return (SubscribeResponse { error: Some(e), max_recv_streams: None, first_available_slot: None }, None);
        }
        if request.recv_streams == 0 || request.recv_streams > max_recv_streams {
            let code = if request.recv_streams == 0 {
                SubscribeResponseError::ZeroRecvStreams
            } else {
                SubscribeResponseError::ExceedRecvStreams
            };
            return (
                SubscribeResponse { error: Some(code), max_recv_streams: Some(max_recv_streams), first_available_slot: None },
                None,
            );
        }
        let (response, rx) = subscribe_and_respond(messages, request.replay_from_slot, request.filter);
        match rx {
            Some(receiver) => {
                let max_backlog: u64 = match request.max_backlog {
                    Some(b) => b as u64,
                    None => u64::MAX,
                };
                (response, Some(QuicSubscription { recv_streams: request.recv_streams, max_backlog, receiver }))
            },
            None => (response, None),
        }
    }
}

/// Big-endian bytes of a 64-bit number.
pub open spec fn spec_be_u64(v: u64) -> Seq<u8> {
    Seq::new(8, |i: int| ((v >> (((7 - i) * 8) as u64)) & 0xff) as u8)
}

/// Appends a 64-bit number in big-endian order.
pub fn push_be_u64(buf: &mut Vec<u8>, v: u64)
    ensures
        final(buf)@ == old(buf)@ + spec_be_u64(v),
{
    let mut k: usize = 0;
    let ghost start = buf@;
    while k < 8
        invariant
            k <= 8,
            buf@ == start + spec_be_u64(v).take(k as int),
        decreases 8 - k,
    {
        let shift: u64 = (7 - k as u64) * 8;
        let byte: u8 = ((v >> shift) & 0xff) as u8;
        proof {
            assert(spec_be_u64(v)[k as int] == byte);
            assert(spec_be_u64(v).take(k + 1) =~= spec_be_u64(v).take(k as int).push(byte));
        }
        buf.push(byte);
        k = k + 1;
    }
    proof {
        assert(spec_be_u64(v).take(8) =~= spec_be_u64(v));
    }
}

/// Appends the bytes of `data`.
fn push_all(buf: &mut Vec<u8>, data: &[u8])
    ensures
        final(buf)@ == old(buf)@ + data@,
{
    let ghost start = buf@;
    let mut i: usize = 0;
    while i < data.len()
        invariant
            i <= data@.len(),
            buf@ == start + data@.take(i as int),
        decreases data@.len() - i,
    {
        proof {
            assert(data@.take(i + 1) =~= data@.take(i as int).push(data@[i as int]));
        }
        buf.push(data[i]);
        i = i + 1;
    }
    proof {
        assert(data@.take(data@.len() as int) =~= data@);
    }
}

/// A message on a TCP stream: its length as a big-endian `u64`, then the
/// bytes.
pub open spec fn spec_tcp_frame(message: Seq<u8>) -> Seq<u8> {
    spec_be_u64(message.len() as u64) + message
}

/// A closing error on a TCP stream: `u64::MAX`, then the framed error.
pub open spec fn spec_tcp_close_frame(message: Seq<u8>) -> Seq<u8> {
    spec_be_u64(u64::MAX) + spec_tcp_frame(message)
}

/// A message on a QUIC stream: its number, its length, then the bytes.
pub open spec fn spec_quic_frame(msg_id: u64, message: Seq<u8>) -> Seq<u8> {
    spec_be_u64(msg_id) + spec_tcp_frame(message)
}

/// Frames a message for a TCP stream.
pub fn tcp_frame(message: &[u8]) -> (r: Vec<u8>)
    requires
        message@.len() <= u64::MAX,
    ensures
        r@ == spec_tcp_frame(message@),
{
    let mut v: Vec<u8> = Vec::new();
    push_be_u64(&mut v, message.len() as u64);
    push_all(&mut v, message);
    v
}

/// Frames a closing error for a TCP stream.
pub fn tcp_close_frame(message: &[u8]) -> (r: Vec<u8>)
    requires
        message@.len() <= u64::MAX,
    ensures
        r@ == spec_tcp_close_frame(message@),
{
    let mut v: Vec<u8> = Vec::new();
    push_be_u64(&mut v, u64::MAX);
    push_be_u64(&mut v, message.len() as u64);
    push_all(&mut v, message);
    proof {
        assert(v@ =~= spec_tcp_close_frame(message@));
    }
    v
}

/// Frames a numbered message for a QUIC stream.
pub fn quic_frame(msg_id: u64, message: &[u8]) -> (r: Vec<u8>)
    requires
        message@.len() <= u64::MAX,
    ensures
        r@ == spec_quic_frame(msg_id, message@),
{
    let mut v: Vec<u8> = Vec::new();
    push_be_u64(&mut v, msg_id);
    push_be_u64(&mut v, message.len() as u64);
    push_all(&mut v, message);
    proof {
        assert(v@ =~= spec_quic_frame(msg_id, message@));
    }
    v
}

/// The sending side of a QUIC subscription: the number of the next
/// message, the numbers in flight (increasing) and the streams free to
/// write on.
pub struct QuicSendState {
    msg_id: u64,
    in_flight: Vec<u64>,
    free_streams: usize,
    max_backlog: u64,
}

impl QuicSendState {
    /// Number of the next message.
    pub closed spec fn next_id(&self) -> u64 {
        self.msg_id
    }

    /// Numbers of the messages being written, oldest first.
    pub closed spec fn flight(&self) -> Seq<u64> {
        self.in_flight@
    }

    /// Streams free to write on.
    pub closed spec fn free(&self) -> nat {
        self.free_streams as nat
    }

    /// The most messages that may be ahead of the oldest one in flight.
    pub closed spec fn backlog(&self) -> u64 {
        self.max_backlog
    }

    /// In flight are distinct earlier messages, in increasing order.
    pub closed spec fn wf(&self) -> bool {
        &&& forall|i: int, j: int| 0 <= i < j < self.in_flight@.len() ==> self.in_flight@[i] < self.in_flight@[j]
        &&& forall|i: int| 0 <= i < self.in_flight@.len() ==> self.in_flight@[i] < self.msg_id
    }

    /// Whether a message may be sent now: fewer than the backlog are ahead
    /// of the oldest in flight, and a stream is free.
    pub open spec fn may_send(&self) -> bool {
        (self.next_id() - (if self.flight().len() > 0 {
            self.flight()[0] as int
        } else {
            self.next_id() as int
        })) < self.backlog() && self.free() > 0
    }

    /// A connection with `streams` streams open and nothing sent yet.
    pub fn new(streams: usize, max_backlog: u64) -> (s: QuicSendState)
        ensures
            s.wf(),
            s.next_id() == 0,
            s.flight().len() == 0,
            s.free() == streams,
            s.backlog() == max_backlog,
    {
        QuicSendState { msg_id: 0, in_flight: Vec::new(), free_streams: streams, max_backlog }
    }

    /// Whether a message may be sent now.
    pub fn can_send(&self) -> (r: bool)
        requires
            self.wf(),
        ensures
            r == self.may_send(),
    {
        let first = if self.in_flight.len() > 0 {
            self.in_flight[0]
        } else {
            self.msg_id
        };
        self.msg_id - first < self.max_backlog && self.free_streams > 0
    }

    /// Takes a stream to send the next message on; returns its number.
    pub fn start_send(&mut self) -> (id: u64)
        requires
            old(self).wf(),
            old(self).may_send(),
            old(self).next_id() < u64::MAX,
        ensures
            final(self).wf(),
            id == old(self).next_id(),
            final(self).next_id() == id + 1,
            final(self).flight() == old(self).flight().push(id),
            final(self).free() == old(self).free() - 1,
            final(self).backlog() == old(self).backlog(),
    {
        let id = self.msg_id;
        self.in_flight.push(id);
        self.msg_id = self.msg_id + 1;
        self.free_streams = self.free_streams - 1;
        id
    }

    /// A message was written: its stream is free again.
    pub fn finish_send(&mut self, id: u64)
        requires
            old(self).wf(),
            old(self).free() < usize::MAX,
        ensures
            final(self).wf(),
            final(self).next_id() == old(self).next_id(),
            final(self).flight() == old(self).flight().filter(|x: u64| x != id),
            final(self).free() == old(self).free() + 1,
            final(self).backlog() == old(self).backlog(),
    {
        let ghost f0 = self.in_flight@;
        let mut i: usize = 0;
        while i < self.in_flight.len() && self.in_flight[i] != id
            invariant
                i <= self.in_flight@.len(),
                self.in_flight@ == f0,
                forall|j: int| 0 <= j < i ==> f0[j] != id,
            decreases self.in_flight@.len() - i,
        {
            i = i + 1;
        }
        if i < self.in_flight.len() {
            self.in_flight.remove(i);
            proof {
                lemma_filter_remove(f0, id, i as int);
            }
        } else {
            proof {
                lemma_filter_none(f0, id);
            }
        }
        self.free_streams = self.free_streams + 1;
    }
}

/// Removing the one occurrence of `x` from an increasing list is filtering
/// it out.
proof fn lemma_filter_remove(s: Seq<u64>, x: u64, i: int)
    requires
        0 <= i < s.len(),
        s[i] == x,
        forall|a: int, b: int| 0 <= a < b < s.len() ==> s[a] < s[b],
    ensures
        s.remove(i) == s.filter(|y: u64| y != x),
    decreases s.len(),
{
    reveal_with_fuel(Seq::filter, 1);
    let d = s.drop_last();
    if i == s.len() - 1 {
        lemma_filter_none(d, x);
        assert(s.remove(i) =~= d);
    } else {
        lemma_filter_remove(d, x, i);
        assert(s.remove(i) =~= d.remove(i).push(s.last()));
    }
}

/// Filtering out a value that does not occur changes nothing.
proof fn lemma_filter_none(s: Seq<u64>, x: u64)
    requires
        forall|j: int| 0 <= j < s.len() ==> s[j] != x,
    ensures
        s.filter(|y: u64| y != x) == s,
    decreases s.len(),
{
    reveal_with_fuel(Seq::filter, 1);
    if s.len() > 0 {
        lemma_filter_none(s.drop_last(), x);
        assert(s.drop_last().push(s.last()) =~= s);
    } else {
        assert(s.filter(|y: u64| y != x) =~= s);
    }
}

} // verus!
