//! Client side of the subscription protocols: the TCP client's options,
//! the framing a client reads, and the reordering of QUIC messages that
//! arrive on several streams.
use vstd::prelude::*;
use std::collections::HashMap;

verus! {

broadcast use vstd::std_specs::hash::group_hash_axioms;

/// Options of a TCP connection and the access token to present.
#[derive(Debug, Clone)]
pub struct TcpClientBuilder {
    pub keepalive: Option<bool>,
    pub nodelay: Option<bool>,
    pub recv_buffer_size: Option<u32>,
    pub x_token: Option<Vec<u8>>,
}

impl Default for TcpClientBuilder {
    /// No option set and no token.
    fn default() -> (r: Self)
        ensures
            r.keepalive is None,
            r.nodelay is None,
            r.recv_buffer_size is None,
            r.x_token is None,
    {
        TcpClientBuilder { keepalive: None, nodelay: None, recv_buffer_size: None, x_token: None }
    }
}

impl TcpClientBuilder {
    /// No option set and no token.
    pub fn new() -> (r: Self)
        ensures
            r.keepalive is None,
            r.nodelay is None,
            r.recv_buffer_size is None,
            r.x_token is None,
    {
        Self::default()
    }

    /// Sets TCP keepalive.
    pub fn set_keepalive(self, keepalive: Option<bool>) -> (r: Self)
        ensures
            r == (TcpClientBuilder { keepalive, ..self }),
    {
        TcpClientBuilder { keepalive, ..self }
    }

    /// Sets TCP no-delay.
    pub fn set_nodelay(self, nodelay: Option<bool>) -> (r: Self)
        ensures
            r == (TcpClientBuilder { nodelay, ..self }),
    {
        TcpClientBuilder { nodelay, ..self }
    }

    /// Sets the receive buffer size.
    pub fn set_recv_buffer_size(self, recv_buffer_size: Option<u32>) -> (r: Self)
        ensures
            r == (TcpClientBuilder { recv_buffer_size, ..self }),
    {
        TcpClientBuilder { recv_buffer_size, ..self }
    }

    /// Sets the access token.
    pub fn set_x_token(self, x_token: Option<Vec<u8>>) -> (r: Self)
        ensures
            r == (TcpClientBuilder { x_token, ..self }),
    {
        TcpClientBuilder { x_token, ..self }
    }
}

/// Configuration of a TCP client.
#[derive(Debug, Clone)]
pub struct ConfigTcpClient {
    pub endpoint: String,
    pub keepalive: Option<bool>,
    pub nodelay: Option<bool>,
    pub recv_buffer_size: Option<u32>,
    pub x_token: Option<Vec<u8>>,
}

impl ConfigTcpClient {
    /// The default server address `127.0.0.1:10101`, no option, no token.
    pub fn default_config() -> (c: ConfigTcpClient)
        ensures
            c.endpoint@ == "127.0.0.1:10101"@,
            c.keepalive is None,
            c.nodelay is None,
            c.recv_buffer_size is None,
            c.x_token is None,
    {
        ConfigTcpClient {
            endpoint: String::from_str("127.0.0.1:10101"),
            keepalive: None,
            nodelay: None,
            recv_buffer_size: None,
            x_token: None,
        }
    }

    /// The connection options of the configuration, and where to connect.
    pub fn into_builder(self) -> (r: (TcpClientBuilder, String))
        ensures
            r.0.keepalive == self.keepalive,
            r.0.nodelay == self.nodelay,
            r.0.recv_buffer_size == self.recv_buffer_size,
            r.0.x_token == self.x_token,
            r.1 == self.endpoint,
    {
        let b = TcpClientBuilder::new().set_keepalive(self.keepalive).set_nodelay(self.nodelay).set_recv_buffer_size(
            self.recv_buffer_size,
        ).set_x_token(self.x_token);
        (b, self.endpoint)
    }
}

/// The flow-control windows a QUIC client asks for: the receive window of
/// a stream is what `max_stream_bandwidth` bytes per second (counted in
/// whole kilobytes) deliver in `expected_rtt` milliseconds; the send window
/// is eight of them, and datagrams get one.
#[derive(Debug, Clone, Copy, PartialEq, Eq, Structural)]
pub struct QuicWindows {
    pub stream_receive_window: u32,
    pub send_window: u64,
    pub datagram_receive_buffer_size: usize,
}

/// The windows for a bandwidth and a round-trip time.
pub fn quic_windows(max_stream_bandwidth: u32, expected_rtt: u32) -> (w: QuicWindows)
    requires
        (max_stream_bandwidth / 1000) * expected_rtt <= u32::MAX,
    ensures
        w.stream_receive_window == (max_stream_bandwidth / 1000) * expected_rtt,
        w.send_window == 8 * w.stream_receive_window,
        w.datagram_receive_buffer_size == w.stream_receive_window,
{
    let rwnd = max_stream_bandwidth / 1000 * expected_rtt;
    QuicWindows {
        stream_receive_window: rwnd,
        send_window: 8 * (rwnd as u64),
        datagram_receive_buffer_size: rwnd as usize,
    }
}

/// The idle timeout a QUIC client asks for, in milliseconds: `Err` with
/// the milliseconds when they do not fit a `u32`.
pub fn quic_idle_timeout_ms(max_idle_timeout_ms: Option<u128>) -> (r: Result<Option<u32>, u128>)
    ensures
        r == quic_idle_timeout_ms_spec(max_idle_timeout_ms),
{
    match max_idle_timeout_ms {
        None => Ok(None),
        Some(ms) => if ms <= 4_294_967_295u128 {
            Ok(Some(ms as u32))
        } else {
            Err(ms)
        },
    }
}

/// Options of a QUIC connection and what the subscription asks for; the
/// idle timeout is counted in milliseconds.
#[derive(Debug, Clone)]
pub struct QuicClientBuilder {
    pub local_addr: String,
    pub expected_rtt: u32,
    pub max_stream_bandwidth: u32,
    pub max_idle_timeout_ms: Option<u128>,
    pub server_name: Option<String>,
    pub recv_streams: u32,
    pub max_backlog: Option<u32>,
    pub x_token: Option<Vec<u8>>,
}

/// Why a QUIC client cannot be set up.
#[derive(Debug, Clone, Copy, PartialEq, Eq, Structural)]
pub enum QuicConnectError {
    /// No server name to check the server's certificate against.
    ServerName,
    /// The idle timeout, in milliseconds, does not fit a `u32`.
    InvalidMaxIdleTimeout(u128),
}

/// What a QUIC client is set up with: the server name, the transport's
/// windows and stream counts, the idle timeout, and what it asks of the
/// server.
#[derive(Debug, Clone)]
pub struct QuicConnectSettings {
    pub local_addr: String,
    pub server_name: String,
    pub windows: QuicWindows,
    pub max_concurrent_bidi_streams: u32,
    pub max_concurrent_uni_streams: u32,
    pub max_idle_timeout_ms: Option<u32>,
    pub recv_streams: u32,
    pub max_backlog: Option<u32>,
    pub x_token: Option<Vec<u8>>,
}

impl QuicClientBuilder {
    /// The default options: any local address, 100 ms round trip,
    /// 12.5 MB/s per stream, 30 s idle timeout, no server name, one stream,
    /// no backlog limit, no token.
    pub fn new() -> (r: Self)
        ensures
            r.local_addr@ == "[::]:0"@,
            r.expected_rtt == 100,
            r.max_stream_bandwidth == 12_500_000,
            r.max_idle_timeout_ms == Some(30_000u128),
            r.server_name is None,
            r.recv_streams == 1,
            r.max_backlog is None,
            r.x_token is None,
    {
        QuicClientBuilder {
            local_addr: String::from_str("[::]:0"),
            expected_rtt: 100,
            max_stream_bandwidth: 12_500_000,
            max_idle_timeout_ms: Some(30_000),
            server_name: None,
            recv_streams: 1,
            max_backlog: None,
            x_token: None,
        }
    }

    /// Sets the local address; `None` gives the default one.
    pub fn set_local_addr(self, local_addr: Option<String>) -> (r: Self)
        ensures
            r.local_addr@ == match local_addr {
                Some(a) => a@,
                None => "[::]:0"@,
            },
            r.expected_rtt == self.expected_rtt,
            r.max_stream_bandwidth == self.max_stream_bandwidth,
            r.max_idle_timeout_ms == self.max_idle_timeout_ms,
            r.server_name == self.server_name,
            r.recv_streams == self.recv_streams,
            r.max_backlog == self.max_backlog,
            r.x_token == self.x_token,
    {
        let local_addr = match local_addr {
            Some(a) => a,
            None => String::from_str("[::]:0"),
        };
        QuicClientBuilder { local_addr, ..self }
    }

    /// Sets the expected round trip, in milliseconds.
    pub fn set_expected_rtt(self, expected_rtt: u32) -> (r: Self)
        ensures
            r == (QuicClientBuilder { expected_rtt, ..self }),
    {
        QuicClientBuilder { expected_rtt, ..self }
    }

    /// Sets the bandwidth of a stream, in bytes per second.
    pub fn set_max_stream_bandwidth(self, max_stream_bandwidth: u32) -> (r: Self)
        ensures
            r == (QuicClientBuilder { max_stream_bandwidth, ..self }),
    {
        QuicClientBuilder { max_stream_bandwidth, ..self }
    }

    /// Sets the idle timeout, in milliseconds.
    pub fn set_max_idle_timeout(self, max_idle_timeout_ms: Option<u128>) -> (r: Self)
        ensures
            r == (QuicClientBuilder { max_idle_timeout_ms, ..self }),
    {
        QuicClientBuilder { max_idle_timeout_ms, ..self }
    }

    /// Sets the server name.
    pub fn set_server_name(self, server_name: Option<String>) -> (r: Self)
        ensures
            r == (QuicClientBuilder { server_name, ..self }),
    {
        QuicClientBuilder { server_name, ..self }
    }

    /// Sets the number of streams to receive on.
    pub fn set_recv_streams(self, recv_streams: u32) -> (r: Self)
        ensures
            r == (QuicClientBuilder { recv_streams, ..self }),
    {
        QuicClientBuilder { recv_streams, ..self }
    }

    /// Sets the most messages in flight.
    pub fn set_max_backlog(self, max_backlog: Option<u32>) -> (r: Self)
        ensures
            r == (QuicClientBuilder { max_backlog, ..self }),
    {
        QuicClientBuilder { max_backlog, ..self }
    }

    /// Sets the access token.
    pub fn set_x_token(self, x_token: Option<Vec<u8>>) -> (r: Self)
        ensures
            r == (QuicClientBuilder { x_token, ..self }),
    {
        QuicClientBuilder { x_token, ..self }
    }

    /// What the connection is set up with, once the endpoint resolved: a
    /// server name is needed, then the windows follow the bandwidth and the
    /// round trip, no bidirectional and `recv_streams` unidirectional
    /// streams are allowed, and the idle timeout must fit a `u32` of
    /// milliseconds.
    pub fn connect_settings(self) -> (r: Result<QuicConnectSettings, QuicConnectError>)
        requires
            (self.max_stream_bandwidth / 1000) * self.expected_rtt <= u32::MAX,
        ensures
            self.server_name is None ==> r == Err::<QuicConnectSettings, QuicConnectError>(QuicConnectError::ServerName),
            self.server_name is Some ==> match quic_idle_timeout_ms_spec(self.max_idle_timeout_ms) {
                Err(ms) => r == Err::<QuicConnectSettings, QuicConnectError>(QuicConnectError::InvalidMaxIdleTimeout(ms)),
                Ok(t) => r matches Ok(c) && {
                    &&& c.server_name == self.server_name->0
                    &&& c.local_addr == self.local_addr
                    &&& c.windows.stream_receive_window == (self.max_stream_bandwidth / 1000) * self.expected_rtt
                    &&& c.windows.send_window == 8 * c.windows.stream_receive_window
                    &&& c.windows.datagram_receive_buffer_size == c.windows.stream_receive_window
                    &&& c.max_concurrent_bidi_streams == 0
                    &&& c.max_concurrent_uni_streams == self.recv_streams
                    &&& c.max_idle_timeout_ms == t
                    &&& c.recv_streams == self.recv_streams
                    &&& c.max_backlog == self.max_backlog
                    &&& c.x_token == self.x_token
                },
            },
    {
        let server_name = match self.server_name {
            Some(n) => n,
            None => {
                return Err(QuicConnectError::ServerName);
            },
        };
        let windows = quic_windows(self.max_stream_bandwidth, self.expected_rtt);
        let idle = match quic_idle_timeout_ms(self.max_idle_timeout_ms) {
            Ok(t) => t,
            Err(ms) => {
                return Err(QuicConnectError::InvalidMaxIdleTimeout(ms));
            },
        };
        Ok(
            QuicConnectSettings {
                local_addr: self.local_addr,
                server_name,
                windows,
                max_concurrent_bidi_streams: 0,
                max_concurrent_uni_streams: self.recv_streams,
                max_idle_timeout_ms: idle,
                recv_streams: self.recv_streams,
                max_backlog: self.max_backlog,
                x_token: self.x_token,
            },
        )
    }
}

/// The idle timeout a QUIC client asks for (see `quic_idle_timeout_ms`).
pub open spec fn quic_idle_timeout_ms_spec(max_idle_timeout_ms: Option<u128>) -> Result<Option<u32>, u128> {
    match max_idle_timeout_ms {
        None => Ok(None),
        Some(ms) => if ms <= u32::MAX {
            Ok(Some(ms as u32))
        } else {
            Err(ms)
        },
    }
}

/// What the first number of a frame announces: a message of that length,
/// or (on `u64::MAX`) an error whose length follows.
#[derive(Debug, Clone, Copy, PartialEq, Eq, Structural)]
pub enum FrameHeader {
    Message { len: u64 },
    Error,
}

/// Reads the first number of a frame.
pub fn parse_frame_header(first: u64) -> (h: FrameHeader)
    ensures
        h == (if first == u64::MAX {
            FrameHeader::Error
        } else {
            FrameHeader::Message { len: first }
        }),
{
    if first == u64::MAX {
        FrameHeader::Error
    } else {
        FrameHeader::Message { len: first }
    }
}

/// Messages of a QUIC subscription arrive numbered on several streams; they
/// are handed out in the order of their numbers.
pub struct ReorderBuffer {
    msg_id: u64,
    messages: HashMap<u64, Vec<u8>>,
}

impl ReorderBuffer {
    /// Number of the next message to hand out.
    pub closed spec fn next_id(&self) -> u64 {
        self.msg_id
    }

    /// Messages that arrived ahead of their turn, by number.
    pub closed spec fn pending(&self) -> Map<u64, Seq<u8>> {
        self.messages@.map_values(|v: Vec<u8>| v@)
    }

    /// Nothing handed out, nothing pending.
    pub fn new() -> (r: Self)
        ensures
            r.next_id() == 0,
            r.pending() == Map::<u64, Seq<u8>>::empty(),
    {
        let r = ReorderBuffer { msg_id: 0, messages: HashMap::new() };
        proof {
            assert(r.pending() =~= Map::<u64, Seq<u8>>::empty());
        }
        r
    }

    /// Number of the next message to hand out.
    pub fn next_msg_id(&self) -> (r: u64)
        ensures
            r == self.next_id(),
    {
        self.msg_id
    }

    /// Number of messages waiting for their turn.
    pub fn pending_count(&self) -> (r: usize)
        ensures
            r == self.pending().dom().len(),
    {
        proof {
            assert(self.pending().dom() =~= self.messages@.dom());
        }
        self.messages.len()
    }

    /// Hands out the next message if it already arrived.
    pub fn pop_ready(&mut self) -> (r: Option<Vec<u8>>)
        requires
            old(self).next_id() < u64::MAX,
        ensures
            old(self).pending().contains_key(old(self).next_id()) ==> {
                &&& r matches Some(m) && m@ == old(self).pending()[old(self).next_id()]
                &&& final(self).next_id() == old(self).next_id() + 1
                &&& final(self).pending() == old(self).pending().remove(old(self).next_id())
            },
            !old(self).pending().contains_key(old(self).next_id()) ==> {
                &&& r is None
                &&& final(self).next_id() == old(self).next_id()
                &&& final(self).pending() == old(self).pending()
            },
    {
        let id = self.msg_id;
        match self.messages.remove(&id) {
            Some(m) => {
                self.msg_id = id + 1;
                proof {
                    assert(self.pending() =~= old(self).pending().remove(id));
                }
                Some(m)
            },
            None => {
                proof {
                    assert(self.pending() =~= old(self).pending());
                }
                None
            },
        }
    }

    /// A message arrived: handed out at once when it is the next one, kept
    /// for later otherwise.
    pub fn on_message(&mut self, msg_id: u64, msg: Vec<u8>) -> (r: Option<Vec<u8>>)
        requires
            old(self).next_id() < u64::MAX,
        ensures
            msg_id == old(self).next_id() ==> {
                &&& r matches Some(m) && m@ == msg@
                &&& final(self).next_id() == old(self).next_id() + 1
                &&& final(self).pending() == old(self).pending()
            },
            msg_id != old(self).next_id() ==> {
                &&& r is None
                &&& final(self).next_id() == old(self).next_id()
                &&& final(self).pending() == old(self).pending().insert(msg_id, msg@)
            },
    {
        if msg_id == self.msg_id {
            self.msg_id = self.msg_id + 1;
            Some(msg)
        } else {
            let ghost m = msg@;
            self.messages.insert(msg_id, msg);
            proof {
                assert(self.pending() =~= old(self).pending().insert(msg_id, m));
            }
            None
        }
    }

    /// A message arrived: when it is the next one it is handed out together
    /// with every pending message that follows it without a gap; otherwise
    /// it is kept for later.
    pub fn on_arrival(&mut self, msg_id: u64, msg: Vec<u8>) -> (out: Vec<Vec<u8>>)
        requires
            old(self).next_id() + old(self).pending().dom().len() + 1 < u64::MAX,
        ensures
            final(self).pending().dom().finite(),
            msg_id != old(self).next_id() ==> {
                &&& out@.len() == 0
                &&& final(self).next_id() == old(self).next_id()
                &&& final(self).pending() == old(self).pending().insert(msg_id, msg@)
            },
            msg_id == old(self).next_id() ==> {
                &&& final(self).next_id() > old(self).next_id()
                &&& out@.len() == final(self).next_id() - old(self).next_id()
                &&& out@[0]@ == msg@
                &&& forall|k: int|
                    1 <= k < out@.len() ==> old(self).pending().get((old(self).next_id() + k) as u64) == Some(
                        (#[trigger] out@[k])@,
                    )
                &&& !old(self).pending().contains_key(final(self).next_id())
                &&& final(self).pending() == old(self).pending().remove_keys(
                    Set::new(|j: u64| old(self).next_id() < j < final(self).next_id()),
                )
                &&& final(self).next_id() + final(self).pending().dom().len() == old(self).next_id()
                    + old(self).pending().dom().len() + 1
            },
    {
        let ghost a = *self;
        proof {
            assert(self.pending().dom() =~= self.messages@.dom());
        }
        let mut out: Vec<Vec<u8>> = Vec::new();
        let first = self.on_message(msg_id, msg);
        match first {
            None => {
                proof {
                    assert(self.pending().dom() =~= self.messages@.dom());
                }
                return out;
            },
            Some(m) => {
                out.push(m);
            },
        }
        proof {
            assert(a.pending().remove_keys(Set::new(|j: u64| a.next_id() < j < self.next_id())) =~= a.pending());
        }
        loop
            invariant
                self.next_id() > a.next_id(),
                msg_id == a.next_id(),
                out@.len() == self.next_id() - a.next_id(),
                out@[0]@ == msg@,
                forall|k: int|
                    1 <= k < out@.len() ==> a.pending().get((a.next_id() + k) as u64) == Some((#[trigger] out@[k])@),
                self.pending() == a.pending().remove_keys(Set::new(|j: u64| a.next_id() < j < self.next_id())),
                self.pending().dom() == self.messages@.dom(),
                self.next_id() + self.pending().dom().len() == a.next_id() + a.pending().dom().len() + 1,
                a.next_id() + a.pending().dom().len() + 1 < u64::MAX,
            ensures
                self.next_id() > a.next_id(),
                out@.len() == self.next_id() - a.next_id(),
                out@[0]@ == msg@,
                forall|k: int|
                    1 <= k < out@.len() ==> a.pending().get((a.next_id() + k) as u64) == Some((#[trigger] out@[k])@),
                self.pending() == a.pending().remove_keys(Set::new(|j: u64| a.next_id() < j < self.next_id())),
                !self.pending().contains_key(self.next_id()),
                self.next_id() + self.pending().dom().len() == a.next_id() + a.pending().dom().len() + 1,
            decreases self.pending().dom().len(),
        {
            let ghost before = *self;
            let next = self.pop_ready();
            match next {
                None => {
                    break;
                },
                Some(m) => {
                    proof {
                        let n0 = before.next_id();
                        assert(self.pending().dom() =~= self.messages@.dom());
                        assert(before.pending().dom().contains(n0));
                        assert(self.pending().dom() =~= before.pending().dom().remove(n0));
                        assert(a.pending().contains_key(n0));
                        assert(n0 == (a.next_id() + (out@.len() as int)) as u64);
                        assert(self.pending() =~= a.pending().remove_keys(
                            Set::new(|j: u64| a.next_id() < j < self.next_id()),
                        ));
                    }
                    out.push(m);
                },
            }
        }
        proof {
            let e = self.next_id();
            assert(!Set::new(|j: u64| a.next_id() < j < e).contains(e));
            assert(self.pending().dom() =~= self.messages@.dom());
        }
        out
    }
}

/// The messages that arrived among the first `t`, by number.
pub open spec fn arrived(arrivals: Seq<(u64, Vec<u8>)>, t: int) -> Map<u64, Seq<u8>>
    decreases t,
{
    if t <= 0 {
        Map::empty()
    } else {
        arrived(arrivals, t - 1).insert(arrivals[t - 1].0, arrivals[t - 1].1@)
    }
}

/// Every number arrives at most once.
pub open spec fn distinct_ids(arrivals: Seq<(u64, Vec<u8>)>) -> bool {
    forall|i: int, j: int| 0 <= i < j < arrivals.len() ==> (#[trigger] arrivals[i]).0 != (#[trigger] arrivals[j]).0
}

/// A number among the first `t` arrivals is the number of one of them.
proof fn lemma_arrived_key(arrivals: Seq<(u64, Vec<u8>)>, t: int, x: u64)
    requires
        0 <= t <= arrivals.len(),
        arrived(arrivals, t).contains_key(x),
    ensures
        exists|i: int| 0 <= i < t && arrivals[i].0 == x,
    decreases t,
{
    if arrivals[t - 1].0 != x {
        lemma_arrived_key(arrivals, t - 1, x);
        let i = choose|i: int| 0 <= i < t - 1 && arrivals[i].0 == x;
        assert(0 <= i < t && arrivals[i].0 == x);
    }
}

/// Each of the first `t` arrivals is among the messages that arrived.
proof fn lemma_arrival_kept(arrivals: Seq<(u64, Vec<u8>)>, t: int, i: int)
    requires
        0 <= i < t <= arrivals.len(),
    ensures
        arrived(arrivals, t).contains_key(arrivals[i].0),
    decreases t,
{
    if i < t - 1 {
        lemma_arrival_kept(arrivals, t - 1, i);
    }
}

/// Number `k` is among the arrivals.
pub open spec fn arrives(arrivals: Seq<(u64, Vec<u8>)>, k: u64) -> bool {
    exists|i: int| 0 <= i < arrivals.len() && (#[trigger] arrivals[i]).0 == k
}

/// The numbers that arrive are exactly `0` to `arrivals.len() - 1`.
pub open spec fn numbers_below_len(arrivals: Seq<(u64, Vec<u8>)>) -> bool {
    &&& forall|i: int| 0 <= i < arrivals.len() ==> (#[trigger] arrivals[i]).0 < arrivals.len()
    &&& forall|k: u64| k < arrivals.len() ==> #[trigger] arrives(arrivals, k)
}

/// Messages arriving numbered on several streams, in the order they
/// arrive, handed out by a fresh buffer. When no number arrives twice, what
/// is handed out is exactly the messages numbered `0, 1, 2, ...` in that
/// order, up to the first number that has not arrived; the others wait.
pub fn deliver_in_order(arrivals: Vec<(u64, Vec<u8>)>) -> (out: Vec<Vec<u8>>)
    requires
        arrivals@.len() < u64::MAX - 1,
    ensures
        distinct_ids(arrivals@) ==> {
            let h = arrived(arrivals@, arrivals@.len() as int);
            &&& forall|k: int| 0 <= k < out@.len() ==> h.get(k as u64) == Some((#[trigger] out@[k])@)
            &&& !h.contains_key(out@.len() as u64)
        },
        distinct_ids(arrivals@) && numbers_below_len(arrivals@) ==> out@.len() == arrivals@.len(),
{
    let mut b = ReorderBuffer::new();
    let mut out: Vec<Vec<u8>> = Vec::new();
    let ghost d = distinct_ids(arrivals@);
    let n = arrivals.len();
    let mut t: usize = 0;
    proof {
        assert(b.pending().dom() =~= Set::<u64>::empty());
    }
    while t < n
        invariant
            n == arrivals@.len(),
            n < u64::MAX - 1,
            t <= n,
            d == distinct_ids(arrivals@),
            b.next_id() + b.pending().dom().len() <= t,
            b.pending().dom().finite(),
            d ==> {
                let h = arrived(arrivals@, t as int);
                &&& out@.len() == b.next_id()
                &&& forall|k: int| 0 <= k < out@.len() ==> h.get(k as u64) == Some((#[trigger] out@[k])@)
                &&& !h.contains_key(b.next_id())
                &&& b.pending() == h.remove_keys(Set::new(|j: u64| j < b.next_id()))
            },
        decreases n - t,
    {
        let id = arrivals[t].0;
        let msg = arrivals[t].1.clone();
        proof {
            assert(msg@ =~= arrivals@[t as int].1@);
        }
        let ghost h0 = arrived(arrivals@, t as int);
        let ghost b0 = b;
        let ghost out0 = out@;
        let ghost m = msg@;
        let mut got = b.on_arrival(id, msg);
        let ghost g = got@;
        out.append(&mut got);
        t = t + 1;
        proof {
            let h1 = arrived(arrivals@, t as int);
            let n0 = b0.next_id();
            assert(h1 == h0.insert(id, m));
            if d {
                if h0.contains_key(id) {
                    lemma_arrived_key(arrivals@, t - 1, id);
                    let i = choose|i: int| 0 <= i < t - 1 && arrivals@[i].0 == id;
                    assert(arrivals@[i].0 == arrivals@[t - 1].0);
                }
                assert(!h0.contains_key(id));
                if id != n0 {
                    if id < n0 {
                        let ki = id as int;
                        assert(out0[ki] == out0[ki]);
                        assert(h0.get(ki as u64) == Some(out0[ki]@));
                    }
                    assert forall|k: int| 0 <= k < out@.len() implies h1.get(k as u64) == Some((#[trigger] out@[k])@) by {
                        assert(out@[k] == out0[k]);
                    }
                    assert(b.pending() =~= h1.remove_keys(Set::new(|j: u64| j < b.next_id())));
                } else {
                    let n1 = b.next_id();
                    assert forall|k: int| 0 <= k < out@.len() implies h1.get(k as u64) == Some((#[trigger] out@[k])@) by {
                        if k < out0.len() {
                            assert(out@[k] == out0[k]);
                        } else {
                            let q = k - out0.len();
                            assert(out@[k] == g[q]);
                            if q > 0 {
                                assert(b0.pending().contains_key((n0 + q) as u64));
                                assert((n0 + q) as u64 == k as u64);
                            }
                        }
                    }
                    assert(!b0.pending().contains_key(n1));
                    assert(!h1.contains_key(n1));
                    assert(b.pending() =~= h1.remove_keys(Set::new(|j: u64| j < n1)));
                }
            }
        }
    }
    proof {
        if d && numbers_below_len(arrivals@) {
            let h = arrived(arrivals@, n as int);
            let m = out@.len();
            if m < n {
                assert(arrives(arrivals@, m as u64));
                let i = choose|i: int| 0 <= i < n && (#[trigger] arrivals@[i]).0 == m as u64;
                lemma_arrival_kept(arrivals@, n as int, i);
            }
            if m > n {
                let kn = n as int;
                assert(h.get(kn as u64) == Some(out@[kn]@));
                lemma_arrived_key(arrivals@, n as int, n as u64);
                let i = choose|i: int| 0 <= i < n && arrivals@[i].0 == n as u64;
                assert(arrivals@[i].0 < n);
            }
        }
    }
    out
}

} // verus!
