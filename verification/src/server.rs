//! The gRPC application of the server: commitment levels of requests, the
//! per-client queue of encoded messages, the per-worker message cache, the
//! block-meta store behind the unary methods, worker threads and the
//! reasons a block could not be rebuilt.
use vstd::prelude::*;
use crate::filter::{
    CommitmentLevelProto, commitment_level_of, ConfigFilter, ConfigFilterCommitment, ConfigFilterError, ConfigLimits,
    ConfigLimitsError, limits_check,
};
use crate::request::{SubscribeRequest, filter_from_request, request_offsets_fit};
use crate::encoding::{Timestamp, encode_ping, spec_ping, encode_pong, spec_pong};

verus! {

/// Why a request's commitment cannot be served.
#[derive(Debug, Clone, Copy, PartialEq, Eq, Structural)]
pub enum CommitmentError {
    /// The number names no commitment level.
    Unknown(i32),
    /// The level is not processed, confirmed or finalized.
    NotAllowed,
}

/// The commitment level of a request: processed when absent; only
/// processed, confirmed and finalized are served.
pub fn parse_commitment(commitment: Option<i32>) -> (r: Result<CommitmentLevelProto, CommitmentError>)
    ensures
        ({
            let n: i32 = match commitment {
                Some(c) => c,
                None => 0,
            };
            match commitment_level_of(n) {
                None => r == Err::<CommitmentLevelProto, CommitmentError>(CommitmentError::Unknown(n)),
                Some(l) => if l == CommitmentLevelProto::Processed || l == CommitmentLevelProto::Confirmed || l
                    == CommitmentLevelProto::Finalized {
                    r == Ok::<CommitmentLevelProto, CommitmentError>(l)
                } else {
                    r == Err::<CommitmentLevelProto, CommitmentError>(CommitmentError::NotAllowed)
                },
            }
        }),
{
    let n: i32 = match commitment {
        Some(c) => c,
        None => 0,
    };
    match CommitmentLevelProto::from_i32(n) {
        None => Err(CommitmentError::Unknown(n)),
        Some(l) => match l {
            CommitmentLevelProto::Processed | CommitmentLevelProto::Confirmed | CommitmentLevelProto::Finalized => Ok(l),
            _ => Err(CommitmentError::NotAllowed),
        },
    }
}

/// Why a block message could not be rebuilt.
#[derive(Debug, Clone, Copy, PartialEq, Eq, Structural)]
pub enum BlockMessageFailedReason {
    MissedBlockMeta,
    MismatchTransactions,
    MismatchEntries,
    ExtraAccount,
    ExtraTransaction,
    ExtraEntry,
    ExtraBlockMeta,
}

/// The name of a reason, as the metrics label it.
pub open spec fn reason_name(r: BlockMessageFailedReason) -> Seq<char> {
    match r {
        BlockMessageFailedReason::MissedBlockMeta => "MissedBlockMeta"@,
        BlockMessageFailedReason::MismatchTransactions => "MismatchTransactions"@,
        BlockMessageFailedReason::MismatchEntries => "MismatchEntries"@,
        BlockMessageFailedReason::ExtraAccount => "ExtraAccount"@,
        BlockMessageFailedReason::ExtraTransaction => "ExtraTransaction"@,
        BlockMessageFailedReason::ExtraEntry => "ExtraEntry"@,
        BlockMessageFailedReason::ExtraBlockMeta => "ExtraBlockMeta"@,
    }
}

impl BlockMessageFailedReason {
    /// The name of the reason.
    pub fn as_str(self) -> (s: &'static str)
        ensures
            s@ == reason_name(self),
    {
        match self {
            BlockMessageFailedReason::MissedBlockMeta => "MissedBlockMeta",
            BlockMessageFailedReason::MismatchTransactions => "MismatchTransactions",
            BlockMessageFailedReason::MismatchEntries => "MismatchEntries",
            BlockMessageFailedReason::ExtraAccount => "ExtraAccount",
            BlockMessageFailedReason::ExtraTransaction => "ExtraTransaction",
            BlockMessageFailedReason::ExtraEntry => "ExtraEntry",
            BlockMessageFailedReason::ExtraBlockMeta => "ExtraBlockMeta",
        }
    }
}

/// The names of reasons joined by commas.
pub open spec fn joined_reasons(rs: Seq<BlockMessageFailedReason>) -> Seq<char>
    decreases rs.len(),
{
    if rs.len() == 0 {
        Seq::empty()
    } else if rs.len() == 1 {
        reason_name(rs[0])
    } else {
        joined_reasons(rs.drop_last()) + ","@ + reason_name(rs.last())
    }
}

/// The line logged for the reasons a block failed, and the metric labels to
/// count: one per reason and `Total` by the number of reasons.
pub fn block_message_failed_labels(reasons: &Vec<BlockMessageFailedReason>) -> (r: Option<(String, Vec<&'static str>, usize)>)
    ensures
        reasons@.len() == 0 <==> r is None,
        r matches Some((line, labels, total)) ==> {
            &&& line@ == joined_reasons(reasons@)
            &&& labels@.len() == reasons@.len()
            &&& forall|i: int| 0 <= i < labels@.len() ==> (#[trigger] labels@[i])@ == reason_name(reasons@[i])
            &&& total == reasons@.len()
        },
{
    if reasons.len() == 0 {
        return None;
    }
    let mut line = String::new();
    let mut labels: Vec<&'static str> = Vec::new();
    let mut i: usize = 0;
    proof {
        reveal_strlit(",");
    }
    while i < reasons.len()
        invariant
            i <= reasons@.len(),
            line@ == joined_reasons(reasons@.take(i as int)),
            labels@.len() == i,
            forall|j: int| 0 <= j < i ==> (#[trigger] labels@[j])@ == reason_name(reasons@[j]),
        decreases reasons@.len() - i,
    {
        let name = reasons[i].as_str();
        proof {
            assert(reasons@.take(i + 1).drop_last() =~= reasons@.take(i as int));
        }
        if i > 0 {
            line.append(",");
        }
        line.append(name);
        proof {
            if i == 0 {
                assert(line@ =~= reason_name(reasons@[0]));
            }
        }
        labels.push(name);
        i = i + 1;
    }
    proof {
        assert(reasons@.take(i as int) =~= reasons@);
    }
    Some((line, labels, reasons.len()))
}


/// Commitment a client streams at.
#[derive(Debug, Clone, Copy, PartialEq, Eq, Structural)]
pub enum CommitmentLevel {
    Processed,
    Confirmed,
    Finalized,
}

/// The error a client's stream ends with: the client fell behind the
/// channel, the channel was closed, or a subscription request was refused.
#[derive(Debug, Clone, Copy, PartialEq, Eq, Structural)]
pub enum StreamError {
    Lagged,
    Closed,
    InvalidArgument,
}

/// A subscribed client: the encoded messages waiting to be sent, their total
/// size and its limit, the error that ends the stream, and where the client
/// reads.
pub struct SubscribeClientState {
    pub id: u64,
    pub ref_count: u32,
    pub commitment: CommitmentLevel,
    pub head: u64,
    messages_error: Option<StreamError>,
    messages_len_max: usize,
    messages_len_total: usize,
    messages: Vec<Vec<u8>>,
}

/// Total size of a list of messages.
pub open spec fn total_len(ms: Seq<Vec<u8>>) -> nat
    decreases ms.len(),
{
    if ms.len() == 0 {
        0
    } else {
        total_len(ms.drop_last()) + ms.last()@.len()
    }
}

/// The size of a list is the first message's plus the rest's.
proof fn lemma_total_len_first(ms: Seq<Vec<u8>>)
    requires
        ms.len() > 0,
    ensures
        total_len(ms) == ms[0]@.len() + total_len(ms.drop_first()),
    decreases ms.len(),
{
    if ms.len() > 1 {
        lemma_total_len_first(ms.drop_last());
        assert(ms.drop_last().drop_first() =~= ms.drop_first().drop_last());
    } else {
        assert(ms.drop_first() =~= Seq::<Vec<u8>>::empty());
        assert(ms.drop_last() =~= Seq::<Vec<u8>>::empty());
    }
}

impl SubscribeClientState {
    /// Id, number of references, commitment and reading position.
    pub closed spec fn header(&self) -> (u64, u32, CommitmentLevel, u64) {
        (self.id, self.ref_count, self.commitment, self.head)
    }

    /// The waiting messages, oldest first.
    pub closed spec fn queue(&self) -> Seq<Seq<u8>> {
        self.messages@.map_values(|m: Vec<u8>| m@)
    }

    /// Total size of the waiting messages.
    pub closed spec fn queued_bytes(&self) -> nat {
        self.messages_len_total as nat
    }

    /// The size above which the queue counts as full.
    pub closed spec fn max_bytes(&self) -> nat {
        self.messages_len_max as nat
    }

    /// The error that ends the stream, if one was pushed.
    pub closed spec fn error(&self) -> Option<StreamError> {
        self.messages_error
    }

    /// The counted size is the size of the queue.
    pub closed spec fn wf(&self) -> bool {
        self.messages_len_total == total_len(self.messages@)
    }

    /// A new client: one reference, processed commitment, reading from 0,
    /// nothing queued.
    pub fn new(id: u64, messages_len_max: usize) -> (s: SubscribeClientState)
        ensures
            s.wf(),
            s.header() == (id, 1u32, CommitmentLevel::Processed, 0u64),
            s.queue().len() == 0,
            s.queued_bytes() == 0,
            s.max_bytes() == messages_len_max,
            s.error() is None,
    {
        SubscribeClientState {
            id,
            ref_count: 1,
            commitment: CommitmentLevel::Processed,
            head: 0,
            messages_error: None,
            messages_len_max,
            messages_len_total: 0,
            messages: Vec::new(),
        }
    }

    /// Total size of the waiting messages.
    pub fn messages_len_total(&self) -> (r: usize)
        ensures
            r == self.queued_bytes(),
    {
        self.messages_len_total
    }

    /// Whether more is queued than the limit.
    pub fn is_full(&self) -> (r: bool)
        ensures
            r == (self.queued_bytes() > self.max_bytes()),
    {
        self.messages_len_total > self.messages_len_max
    }

    /// Ends the stream with an error.
    pub fn push_error(&mut self, error: StreamError)
        ensures
            final(self).error() == Some(error),
            final(self).header() == old(self).header(),
            final(self).queue() == old(self).queue(),
            final(self).queued_bytes() == old(self).queued_bytes(),
            final(self).max_bytes() == old(self).max_bytes(),
            final(self).wf() == old(self).wf(),
    {
        self.messages_error = Some(error);
    }

    /// Queues a message.
    pub fn push_message(&mut self, message: Vec<u8>)
        requires
            old(self).wf(),
            old(self).queued_bytes() + message@.len() <= usize::MAX,
        ensures
            final(self).wf(),
            final(self).header() == old(self).header(),
            final(self).queue() == old(self).queue().push(message@),
            final(self).queued_bytes() == old(self).queued_bytes() + message@.len(),
            final(self).max_bytes() == old(self).max_bytes(),
            final(self).error() == old(self).error(),
    {
        let ghost m = message@;
        let ghost before = self.messages@;
        self.messages_len_total = self.messages_len_total + message.len();
        self.messages.push(message);
        proof {
            assert(self.messages@.drop_last() =~= before);
            assert(self.queue() =~= old(self).queue().push(m));
        }
    }

    /// The next item of the stream: the error first if one was pushed (it is
    /// taken), otherwise the oldest queued message, or nothing yet.
    pub fn pop_message(&mut self) -> (r: Option<Result<Vec<u8>, StreamError>>)
        requires
            old(self).wf(),
        ensures
            final(self).wf(),
            final(self).max_bytes() == old(self).max_bytes(),
            final(self).header() == old(self).header(),
            match old(self).error() {
                Some(e) => r == Some(Err::<Vec<u8>, StreamError>(e)) && final(self).error() is None
                    && final(self).queue() == old(self).queue(),
                None => if old(self).queue().len() > 0 {
                    &&& r matches Some(Ok(m)) && m@ == old(self).queue()[0]
                    &&& final(self).queue() == old(self).queue().drop_first()
                    &&& final(self).queued_bytes() == old(self).queued_bytes() - old(self).queue()[0].len()
                    &&& final(self).error() is None
                } else {
                    r is None && final(self).queue() == old(self).queue() && final(self).error() is None
                },
            },
    {
        if let Some(e) = self.messages_error {
            self.messages_error = None;
            return Some(Err(e));
        }
        if self.messages.len() > 0 {
            let ghost before = self.messages@;
            proof {
                lemma_total_len_first(before);
            }
            let m = self.messages.remove(0);
            self.messages_len_total = self.messages_len_total - m.len();
            proof {
                assert(self.messages@ =~= before.drop_first());
                assert(self.queue() =~= old(self).queue().drop_first());
            }
            Some(Ok(m))
        } else {
            None
        }
    }
}

/// What a worker does after handing a client one received item.
#[derive(Debug, Clone, Copy, PartialEq, Eq, Structural)]
pub enum DeliveryStep {
    /// Receive the next message.
    Continue,
    /// Nothing more to receive for now; the client is requeued.
    Stop,
    /// The stream ended with an error; the client is not requeued.
    Errored,
}

/// The updates queued for one received message, in order.
pub open spec fn updates_view(us: Seq<Vec<u8>>) -> Seq<Seq<u8>> {
    us.map_values(|u: Vec<u8>| u@)
}

impl SubscribeClientState {
    /// Whether the worker drops the client: nothing but the worker holds it
    /// any more.
    pub fn is_orphaned(&self) -> (r: bool)
        ensures
            r == (self.header().1 == 1),
    {
        self.ref_count == 1
    }

    /// Whether a ping is due: the queue has room and more than `interval`
    /// passed since the last ping.
    pub fn ping_due(&self, since_last_ping: u64, interval: u64) -> (r: bool)
        ensures
            r == (self.queued_bytes() <= self.max_bytes() && since_last_ping > interval),
    {
        !self.is_full() && since_last_ping > interval
    }

    /// Whether another message may be received in this tick: the queue has
    /// room and fewer than `max_per_tick` were received.
    pub fn may_receive(&self, count: usize, max_per_tick: usize) -> (r: bool)
        ensures
            r == (self.queued_bytes() <= self.max_bytes() && count < max_per_tick),
    {
        !self.is_full() && count < max_per_tick
    }

    /// Handles one item received for the client: a message moves its
    /// position past it and queues the updates the filter made of it;
    /// nothing received stops the tick; an error ends the stream with it.
    pub fn on_received(&mut self, item: Result<Option<Vec<Vec<u8>>>, StreamError>) -> (step: DeliveryStep)
        requires
            old(self).wf(),
            old(self).header().3 < u64::MAX,
            item matches Ok(Some(us)) ==> old(self).queued_bytes() + total_len(us@) <= usize::MAX,
        ensures
            final(self).wf(),
            final(self).max_bytes() == old(self).max_bytes(),
            match item {
                Ok(Some(us)) => {
                    &&& step == DeliveryStep::Continue
                    &&& final(self).header() == (
                        old(self).header().0,
                        old(self).header().1,
                        old(self).header().2,
                        (old(self).header().3 + 1) as u64,
                    )
                    &&& final(self).queue() == old(self).queue() + updates_view(us@)
                    &&& final(self).error() == old(self).error()
                },
                Ok(None) => step == DeliveryStep::Stop && *final(self) == *old(self),
                Err(e) => {
                    &&& step == DeliveryStep::Errored
                    &&& final(self).error() == Some(e)
                    &&& final(self).header() == old(self).header()
                    &&& final(self).queue() == old(self).queue()
                },
            },
    {
        match item {
            Ok(Some(us)) => {
                self.head = self.head + 1;
                let ghost q0 = self.queue();
                let ghost b0 = self.queued_bytes();
                let mut us = us;
                let ghost all = us@;
                let mut i: usize = 0;
                let n = us.len();
                let mut rest: Vec<Vec<u8>> = Vec::new();
                std::mem::swap(&mut rest, &mut us);
                let mut taken: Vec<Vec<u8>> = Vec::new();
                proof {
                    assert(all.take(0) =~= Seq::<Vec<u8>>::empty());
                    assert(updates_view(all.take(0)) =~= Seq::<Seq<u8>>::empty());
                    assert(self.queue() =~= q0 + updates_view(all.take(0)));
                }
                while i < n
                    invariant
                        i <= n,
                        n == all.len(),
                        rest@ == all,
                        self.wf(),
                        self.max_bytes() == old(self).max_bytes(),
                        self.error() == old(self).error(),
                        self.header() == (
                            old(self).header().0,
                            old(self).header().1,
                            old(self).header().2,
                            (old(self).header().3 + 1) as u64,
                        ),
                        self.queue() == q0 + updates_view(all.take(i as int)),
                        self.queued_bytes() == b0 + total_len(all.take(i as int)),
                        b0 + total_len(all) <= usize::MAX,
                    decreases n - i,
                {
                    proof {
                        lemma_total_len_prefix(all, i as int + 1);
                        assert(all.take(i + 1).drop_last() =~= all.take(i as int));
                    }
                    let u = copy_message(&rest[i]);
                    self.push_message(u);
                    proof {
                        assert(updates_view(all.take(i + 1)) =~= updates_view(all.take(i as int)).push(all[i as int]@));
                        assert(self.queue() =~= q0 + updates_view(all.take(i + 1)));
                    }
                    i = i + 1;
                }
                proof {
                    assert(all.take(n as int) =~= all);
                }
                DeliveryStep::Continue
            },
            Ok(None) => DeliveryStep::Stop,
            Err(e) => {
                self.push_error(e);
                DeliveryStep::Errored
            },
        }
    }
}

/// A copy of a message.
fn copy_message(m: &Vec<u8>) -> (v: Vec<u8>)
    ensures
        v@ == m@,
{
    let mut v: Vec<u8> = Vec::new();
    let mut i: usize = 0;
    while i < m.len()
        invariant
            i <= m@.len(),
            v@ == m@.take(i as int),
        decreases m@.len() - i,
    {
        proof {
            assert(m@.take(i + 1) =~= m@.take(i as int).push(m@[i as int]));
        }
        v.push(m[i]);
        i = i + 1;
    }
    proof {
        assert(m@.take(i as int) =~= m@);
    }
    v
}

/// The size of a prefix of a list of messages is at most the whole's.
proof fn lemma_total_len_prefix(ms: Seq<Vec<u8>>, j: int)
    requires
        0 <= j <= ms.len(),
    ensures
        total_len(ms.take(j)) <= total_len(ms),
    decreases ms.len(),
{
    if j < ms.len() {
        lemma_total_len_prefix(ms.drop_last(), j);
        assert(ms.drop_last().take(j) =~= ms.take(j));
    } else {
        assert(ms.take(j) =~= ms);
    }
}

/// A worker's cache of the messages around the latest position any of its
/// clients asked for: a ring of `2^k` cells, each holding a position and
/// its message.
pub struct MessagesCache<T> {
    head: u64,
    mask: u64,
    log2: Ghost<nat>,
    buffer: Vec<(u64, Option<T>)>,
}

/// What the cache answers for a position.
pub enum CacheLookup<'a, T> {
    /// The position is cached, with its message (or its absence).
    Hit(Option<&'a T>),
    /// Not cached; whether a fetched message would be kept.
    Miss { in_range: bool },
}

impl<T> MessagesCache<T> {
    /// Latest position asked for.
    pub closed spec fn head_pos(&self) -> u64 {
        self.head
    }

    /// Number of cells.
    pub closed spec fn cap(&self) -> nat {
        self.buffer@.len()
    }

    /// Cells, by index.
    pub closed spec fn cells(&self) -> Seq<(u64, Option<T>)> {
        self.buffer@
    }

    /// The cell of a position.
    pub open spec fn cell_of(&self, pos: u64) -> int {
        (pos as int) % (self.cap() as int)
    }

    /// The ring has `2^k` cells and the mask selects a cell.
    pub closed spec fn wf(&self) -> bool {
        &&& self.log2@ < 64
        &&& self.buffer@.len() == vstd::arithmetic::power2::pow2(self.log2@)
        &&& self.buffer@.len() <= usize::MAX
        &&& self.mask == vstd::bits::low_bits_mask(self.log2@) as u64
    }

    /// Whether a position is near enough to the head to be cached: at least
    /// the head minus the number of cells plus one, computed in wrapping
    /// 64-bit arithmetic.
    pub open spec fn in_range(&self, pos: u64) -> bool {
        pos >= self.head_pos().wrapping_sub((self.cap() - 1) as u64)
    }

    /// An empty cache of `max_messages` rounded up to a power of two cells,
    /// every cell marked with position `u64::MAX`.
    pub fn new(max_messages: usize) -> (c: MessagesCache<T>)
        requires
            max_messages <= usize::MAX / 2 + 1,
        ensures
            c.wf(),
            c.head_pos() == 0,
            crate::channel::is_power_of_two(c.cap()),
            c.cap() >= max_messages,
            c.cap() == 1 || c.cap() / 2 < max_messages,
            forall|i: int| 0 <= i < c.cap() ==> (#[trigger] c.cells()[i]).0 == u64::MAX && c.cells()[i].1 is None,
    {
        let (n, Ghost(k)) = crate::channel::next_power_of_two(max_messages);
        proof {
            vstd::arithmetic::power2::lemma_pow2_pos(k);
            if k > 0 {
                vstd::arithmetic::power2::lemma_pow2_unfold(k);
            }
            vstd::arithmetic::power2::lemma2_to64();
            if k < 63 {
                vstd::arithmetic::power2::lemma_pow2_strictly_increases(k, 63);
            }
        }
        let mut buffer: Vec<(u64, Option<T>)> = Vec::new();
        let mut i: usize = 0;
        while i < n
            invariant
                i <= n,
                buffer@.len() == i,
                forall|j: int| 0 <= j < i ==> (#[trigger] buffer@[j]).0 == u64::MAX && buffer@[j].1 is None,
            decreases n - i,
        {
            buffer.push((u64::MAX, None));
            i = i + 1;
        }
        proof {
            vstd::bits::lemma_low_bits_mask_values();
            assert(vstd::bits::low_bits_mask(k) == vstd::arithmetic::power2::pow2(k) - 1) by {
                reveal(vstd::bits::low_bits_mask);
            }
        }
        let c = MessagesCache { head: 0, mask: (n - 1) as u64, log2: Ghost(k), buffer };
        proof {
            assert(c.cap() == vstd::arithmetic::power2::pow2(k));
        }
        c
    }

    /// The cell of a position.
    fn get_idx(&self, pos: u64) -> (i: usize)
        requires
            self.wf(),
        ensures
            i == self.cell_of(pos),
            i < self.cap(),
    {
        proof {
            vstd::bits::lemma_u64_low_bits_mask_is_mod(pos, self.log2@);
            vstd::arithmetic::power2::lemma_pow2_pos(self.log2@);
            vstd::arithmetic::power2::lemma2_to64();
            if self.log2@ < 63 {
                vstd::arithmetic::power2::lemma_pow2_strictly_increases(self.log2@, 63);
            }
            assert(pos % (vstd::arithmetic::power2::pow2(self.log2@) as u64) == (pos as int) % (self.cap() as int));
        }
        (pos & self.mask) as usize
    }

    /// Moves the head forward to `pos` when `pos` is later.
    pub fn advance(&mut self, pos: u64)
        requires
            old(self).wf(),
        ensures
            final(self).wf(),
            final(self).cells() == old(self).cells(),
            final(self).head_pos() == (if pos > old(self).head_pos() {
                pos
            } else {
                old(self).head_pos()
            }),
    {
        if pos > self.head {
            self.head = pos;
        }
    }

    /// Looks a position up: cached when it is in range and its cell holds
    /// it.
    pub fn lookup(&self, pos: u64) -> (r: CacheLookup<'_, T>)
        requires
            self.wf(),
        ensures
            ({
                let cell = self.cells()[self.cell_of(pos)];
                if self.in_range(pos) && cell.0 == pos {
                    r matches CacheLookup::Hit(m) && match m {
                        Some(x) => cell.1 == Some(*x),
                        None => cell.1 is None,
                    }
                } else {
                    r matches CacheLookup::Miss { in_range } && in_range == self.in_range(pos)
                }
            }),
    {
        proof {
            vstd::arithmetic::power2::lemma_pow2_pos(self.log2@);
            vstd::bits::lemma_low_bits_mask_values();
            assert(vstd::bits::low_bits_mask(self.log2@) == vstd::arithmetic::power2::pow2(self.log2@) - 1) by {
                reveal(vstd::bits::low_bits_mask);
            }
        }
        let inrange = pos >= self.head.wrapping_sub(self.mask);
        let idx = self.get_idx(pos);
        if inrange && self.buffer[idx].0 == pos {
            let m = match &self.buffer[idx].1 {
                Some(x) => Some(x),
                None => None,
            };
            return CacheLookup::Hit(m);
        }
        CacheLookup::Miss { in_range: inrange }
    }

    /// Keeps a fetched message when its position is in range.
    pub fn store(&mut self, pos: u64, msg: T)
        requires
            old(self).wf(),
        ensures
            final(self).wf(),
            final(self).head_pos() == old(self).head_pos(),
            final(self).cells() == (if old(self).in_range(pos) {
                old(self).cells().update(old(self).cell_of(pos), (pos, Some(msg)))
            } else {
                old(self).cells()
            }),
    {
        proof {
            vstd::arithmetic::power2::lemma_pow2_pos(self.log2@);
            vstd::bits::lemma_low_bits_mask_values();
            assert(vstd::bits::low_bits_mask(self.log2@) == vstd::arithmetic::power2::pow2(self.log2@) - 1) by {
                reveal(vstd::bits::low_bits_mask);
            }
        }
        let inrange = pos >= self.head.wrapping_sub(self.mask);
        if inrange {
            let idx = self.get_idx(pos);
            self.buffer.set(idx, (pos, Some(msg)));
        }
    }
}

impl<T> MessagesCache<T> {
    /// A well-formed cache has one cell per slot of its size, and at least
    /// one.
    pub proof fn lemma_cells(&self)
        requires
            self.wf(),
        ensures
            self.cells().len() == self.cap(),
            self.cap() > 0,
    {
        vstd::arithmetic::power2::lemma_pow2_pos(self.log2@);
    }
}

impl<T: Clone> MessagesCache<T> {
    /// The message at `head`: the head moves up to it; a cached message (or
    /// cached absence) is answered from the cache; otherwise it is fetched,
    /// and a fetched message near the head is kept in its cell.
    pub fn try_recv<F: Fn(u64) -> Result<Option<T>, StreamError>>(&mut self, head: u64, fetch: &F) -> (r: Result<Option<T>, StreamError>)
        requires
            old(self).wf(),
            call_requires(*fetch, (head,)),
        ensures
            final(self).wf(),
            final(self).cap() == old(self).cap(),
            final(self).head_pos() == (if head > old(self).head_pos() {
                head
            } else {
                old(self).head_pos()
            }),
            ({
                let in_range = final(self).in_range(head);
                let i = old(self).cell_of(head);
                let cell = old(self).cells()[i];
                if in_range && cell.0 == head {
                    &&& final(self).cells() == old(self).cells()
                    &&& match cell.1 {
                        None => r == Ok::<Option<T>, StreamError>(None),
                        Some(x) => r matches Ok(Some(y)) && cloned(x, y),
                    }
                } else {
                    &&& call_ensures(*fetch, (head,), r)
                    &&& if in_range && r matches Ok(Some(_)) {
                        &&& final(self).cells().len() == old(self).cells().len()
                        &&& final(self).cells()[i].0 == head
                        &&& final(self).cells()[i].1 matches Some(z) && cloned(r->Ok_0->Some_0, z)
                        &&& forall|j: int| 0 <= j < old(self).cells().len() && j != i ==> #[trigger] final(self).cells()[j]
                            == old(self).cells()[j]
                    } else {
                        final(self).cells() == old(self).cells()
                    }
                }
            }),
    {
        self.advance(head);
        match self.lookup(head) {
            CacheLookup::Hit(m) => {
                match m {
                    Some(x) => Ok(Some(x.clone())),
                    None => Ok(None),
                }
            },
            CacheLookup::Miss { in_range } => {
                let fetched = fetch(head);
                match fetched {
                    Ok(Some(message)) => {
                        let kept = message.clone();
                        proof {
                            vstd::arithmetic::power2::lemma_pow2_pos(self.log2@);
                            assert(cloned(message, kept));
                        }
                        self.store(head, kept);
                        Ok(Some(message))
                    },
                    other => other,
                }
            },
        }
    }
}

/// A message stored at a position near the head is found there: after
/// `store(pos, msg)` with `pos` in range, `lookup(pos)` hits with `msg`.
pub proof fn lemma_store_then_lookup<T>(c0: MessagesCache<T>, c1: MessagesCache<T>, pos: u64, msg: T)
    requires
        c0.wf(),
        c1.wf(),
        c1.head_pos() == c0.head_pos(),
        c0.in_range(pos),
        c1.cells() == c0.cells().update(c0.cell_of(pos), (pos, Some(msg))),
    ensures
        c1.in_range(pos),
        c1.cells()[c1.cell_of(pos)] == (pos, Some(msg)),
{
    vstd::arithmetic::power2::lemma_pow2_pos(c0.log2@);
    assert(c1.cap() == c0.cap());
}

/// Blocks stay valid this many blocks after their height.
pub const MAX_PROCESSING_AGE: u64 = 150;

/// A block's metadata as the unary methods report it.
#[derive(Debug, Clone)]
pub struct BlockMeta {
    pub slot: u64,
    pub blockhash: String,
    pub block_height: u64,
    pub processed: bool,
    pub confirmed: bool,
    pub finalized: bool,
}

/// What is known of a blockhash: the last block height it is valid for and
/// the commitments its block reached.
#[derive(Debug, Clone, Copy, PartialEq, Eq, Structural)]
pub struct BlockStatus {
    pub last_valid_block_height: u64,
    pub processed: bool,
    pub confirmed: bool,
    pub finalized: bool,
}

/// The view of a block's metadata.
pub type BlockMetaView = (u64, Seq<char>, u64, bool, bool, bool);

/// The view of a block's metadata.
pub open spec fn meta_view(b: BlockMeta) -> BlockMetaView {
    (b.slot, b.blockhash@, b.block_height, b.processed, b.confirmed, b.finalized)
}

/// The metadata of a slot seen only through a slot status so far.
pub open spec fn default_meta() -> BlockMetaView {
    (0, Seq::empty(), 0, false, false, false)
}

/// The status of a blockhash seen only through a slot status so far.
pub open spec fn default_status() -> BlockStatus {
    BlockStatus { last_valid_block_height: 0, processed: false, confirmed: false, finalized: false }
}

/// The entry of slot `k`: the first one with that slot.
pub open spec fn block_lookup(s: Seq<(u64, BlockMeta)>, k: u64) -> Option<BlockMetaView>
    decreases s.len(),
{
    if s.len() == 0 {
        None
    } else if s[0].0 == k {
        Some(meta_view(s[0].1))
    } else {
        block_lookup(s.drop_first(), k)
    }
}

/// The entry of blockhash `k`: the first one with that text.
pub open spec fn hash_lookup(s: Seq<(String, BlockStatus)>, k: Seq<char>) -> Option<BlockStatus>
    decreases s.len(),
{
    if s.len() == 0 {
        None
    } else if s[0].0@ == k {
        Some(s[0].1)
    } else {
        hash_lookup(s.drop_first(), k)
    }
}

/// The store behind the unary methods: metadata by slot, status by
/// blockhash, and the latest slot seen at each commitment.
pub struct BlockMetaStorage {
    blocks: Vec<(u64, BlockMeta)>,
    blockhashes: Vec<(String, BlockStatus)>,
    processed: u64,
    confirmed: u64,
    finalized: u64,
}

/// Looking up in a list with one more entry at the end.
proof fn lemma_block_lookup_push(s: Seq<(u64, BlockMeta)>, e: (u64, BlockMeta), k: u64)
    ensures
        block_lookup(s.push(e), k) == (if block_lookup(s, k) is Some {
            block_lookup(s, k)
        } else if e.0 == k {
            Some(meta_view(e.1))
        } else {
            None
        }),
    decreases s.len(),
{
    if s.len() > 0 {
        lemma_block_lookup_push(s.drop_first(), e, k);
        assert(s.push(e).drop_first() =~= s.drop_first().push(e));
        assert(s.push(e)[0] == s[0]);
    } else {
        assert(s.push(e).drop_first() =~= Seq::<(u64, BlockMeta)>::empty());
        assert(s.push(e)[0] == e);
        assert(block_lookup(Seq::<(u64, BlockMeta)>::empty(), k) is None);
    }
}

/// Replacing the first entry of a slot changes only that slot's lookup.
proof fn lemma_block_lookup_update(s: Seq<(u64, BlockMeta)>, i: int, b: BlockMeta, k: u64)
    requires
        0 <= i < s.len(),
        forall|j: int| 0 <= j < i ==> s[j].0 != s[i].0,
    ensures
        block_lookup(s.update(i, (s[i].0, b)), k) == (if k == s[i].0 {
            Some(meta_view(b))
        } else {
            block_lookup(s, k)
        }),
    decreases s.len(),
{
    if i > 0 {
        assert forall|j: int| 0 <= j < i - 1 implies (#[trigger] s.drop_first()[j]).0 != s.drop_first()[i - 1].0 by {
            assert(s.drop_first()[j] == s[j + 1]);
        }
        lemma_block_lookup_update(s.drop_first(), i - 1, b, k);
        assert(s.update(i, (s[i].0, b)).drop_first() =~= s.drop_first().update(i - 1, (s[i].0, b)));
        assert(s.update(i, (s[i].0, b))[0] == s[0]);
        assert(s[0].0 != s[i].0);
    } else {
        assert(s.update(i, (s[i].0, b)).drop_first() =~= s.drop_first());
        assert(s.update(i, (s[i].0, b))[0] == (s[i].0, b));
    }
}

/// Looking up in a list with one more entry at the end.
proof fn lemma_hash_lookup_push(s: Seq<(String, BlockStatus)>, e: (String, BlockStatus), k: Seq<char>)
    ensures
        hash_lookup(s.push(e), k) == (if hash_lookup(s, k) is Some {
            hash_lookup(s, k)
        } else if e.0@ == k {
            Some(e.1)
        } else {
            None
        }),
    decreases s.len(),
{
    if s.len() > 0 {
        lemma_hash_lookup_push(s.drop_first(), e, k);
        assert(s.push(e).drop_first() =~= s.drop_first().push(e));
        assert(s.push(e)[0] == s[0]);
    } else {
        assert(s.push(e).drop_first() =~= Seq::<(String, BlockStatus)>::empty());
        assert(s.push(e)[0] == e);
        assert(hash_lookup(Seq::<(String, BlockStatus)>::empty(), k) is None);
    }
}

/// Replacing the status of the first entry of a blockhash changes only
/// that blockhash's lookup.
proof fn lemma_hash_lookup_update(s: Seq<(String, BlockStatus)>, i: int, st: BlockStatus, k: Seq<char>)
    requires
        0 <= i < s.len(),
        forall|j: int| 0 <= j < i ==> s[j].0@ != s[i].0@,
    ensures
        hash_lookup(s.update(i, (s[i].0, st)), k) == (if k == s[i].0@ {
            Some(st)
        } else {
            hash_lookup(s, k)
        }),
    decreases s.len(),
{
    if i > 0 {
        assert forall|j: int| 0 <= j < i - 1 implies (#[trigger] s.drop_first()[j]).0@ != s.drop_first()[i - 1].0@ by {
            assert(s.drop_first()[j] == s[j + 1]);
        }
        lemma_hash_lookup_update(s.drop_first(), i - 1, st, k);
        assert(s.update(i, (s[i].0, st)).drop_first() =~= s.drop_first().update(i - 1, (s[i].0, st)));
        assert(s.update(i, (s[i].0, st))[0] == s[0]);
        assert(s[0].0@ != s[i].0@);
    } else {
        assert(s.update(i, (s[i].0, st)).drop_first() =~= s.drop_first());
        assert(s.update(i, (s[i].0, st))[0] == (s[i].0, st));
    }
}

/// The first entry of slot `k` is at `i`.
proof fn lemma_block_lookup_at(s: Seq<(u64, BlockMeta)>, i: int)
    requires
        0 <= i < s.len(),
        forall|j: int| 0 <= j < i ==> s[j].0 != s[i].0,
    ensures
        block_lookup(s, s[i].0) == Some(meta_view(s[i].1)),
    decreases s.len(),
{
    if i > 0 {
        assert forall|j: int| 0 <= j < i - 1 implies (#[trigger] s.drop_first()[j]).0 != s.drop_first()[i - 1].0 by {
            assert(s.drop_first()[j] == s[j + 1]);
        }
        lemma_block_lookup_at(s.drop_first(), i - 1);
    }
}

/// No entry of slot `k`.
proof fn lemma_block_lookup_none(s: Seq<(u64, BlockMeta)>, k: u64)
    requires
        forall|j: int| 0 <= j < s.len() ==> s[j].0 != k,
    ensures
        block_lookup(s, k) is None,
    decreases s.len(),
{
    if s.len() > 0 {
        lemma_block_lookup_none(s.drop_first(), k);
    }
}

/// The first entry of blockhash `k` is at `i`.
proof fn lemma_hash_lookup_at(s: Seq<(String, BlockStatus)>, i: int)
    requires
        0 <= i < s.len(),
        forall|j: int| 0 <= j < i ==> s[j].0@ != s[i].0@,
    ensures
        hash_lookup(s, s[i].0@) == Some(s[i].1),
    decreases s.len(),
{
    if i > 0 {
        assert forall|j: int| 0 <= j < i - 1 implies (#[trigger] s.drop_first()[j]).0@ != s.drop_first()[i - 1].0@ by {
            assert(s.drop_first()[j] == s[j + 1]);
        }
        lemma_hash_lookup_at(s.drop_first(), i - 1);
    }
}

/// No entry of blockhash `k`.
proof fn lemma_hash_lookup_none(s: Seq<(String, BlockStatus)>, k: Seq<char>)
    requires
        forall|j: int| 0 <= j < s.len() ==> s[j].0@ != k,
    ensures
        hash_lookup(s, k) is None,
    decreases s.len(),
{
    if s.len() > 0 {
        lemma_hash_lookup_none(s.drop_first(), k);
    }
}

/// Two strings with the same bytes are the same text.
fn same_text(a: &str, b: &str) -> (r: bool)
    ensures
        r == (a@ == b@),
{
    let x = a.as_bytes();
    let y = b.as_bytes();
    proof {
        crate::plugin::lemma_ascii_bytes(a, b);
    }
    if x.len() != y.len() {
        return false;
    }
    let mut i: usize = 0;
    while i < x.len()
        invariant
            i <= x@.len(),
            x@.len() == y@.len(),
            (a@ == b@) == (x@ == y@),
            forall|j: int| 0 <= j < i ==> x@[j] == y@[j],
        decreases x@.len() - i,
    {
        if x[i] != y[i] {
            return false;
        }
        i = i + 1;
    }
    assert(x@ =~= y@);
    true
}

impl BlockMetaStorage {
    /// Metadata by slot.
    pub closed spec fn block(&self, slot: u64) -> Option<BlockMetaView> {
        block_lookup(self.blocks@, slot)
    }

    /// Status by blockhash.
    pub closed spec fn status(&self, blockhash: Seq<char>) -> Option<BlockStatus> {
        hash_lookup(self.blockhashes@, blockhash)
    }

    /// Latest slots seen processed, confirmed and finalized.
    pub closed spec fn latest(&self) -> (u64, u64, u64) {
        (self.processed, self.confirmed, self.finalized)
    }

    /// An empty store.
    pub fn new() -> (s: BlockMetaStorage)
        ensures
            s.wf(),
            forall|k: u64| s.block(k) is None,
            forall|k: Seq<char>| s.status(k) is None,
            s.latest() == (0u64, 0u64, 0u64),
    {
        BlockMetaStorage { blocks: Vec::new(), blockhashes: Vec::new(), processed: 0, confirmed: 0, finalized: 0 }
    }

    /// Position of the first entry of a slot.
    fn find_block(&self, slot: u64) -> (r: Option<usize>)
        ensures
            match r {
                Some(i) => i < self.blocks@.len() && self.blocks@[i as int].0 == slot && forall|j: int|
                    0 <= j < i ==> self.blocks@[j].0 != slot,
                None => forall|j: int| 0 <= j < self.blocks@.len() ==> self.blocks@[j].0 != slot,
            },
    {
        let mut i: usize = 0;
        while i < self.blocks.len()
            invariant
                i <= self.blocks@.len(),
                forall|j: int| 0 <= j < i ==> self.blocks@[j].0 != slot,
            decreases self.blocks@.len() - i,
        {
            if self.blocks[i].0 == slot {
                return Some(i);
            }
            i = i + 1;
        }
        None
    }

    /// Position of the first entry of a blockhash.
    fn find_hash(&self, blockhash: &str) -> (r: Option<usize>)
        ensures
            match r {
                Some(i) => i < self.blockhashes@.len() && self.blockhashes@[i as int].0@ == blockhash@ && forall|j: int|
                    0 <= j < i ==> self.blockhashes@[j].0@ != blockhash@,
                None => forall|j: int| 0 <= j < self.blockhashes@.len() ==> self.blockhashes@[j].0@ != blockhash@,
            },
    {
        let mut i: usize = 0;
        while i < self.blockhashes.len()
            invariant
                i <= self.blockhashes@.len(),
                forall|j: int| 0 <= j < i ==> self.blockhashes@[j].0@ != blockhash@,
            decreases self.blockhashes@.len() - i,
        {
            if same_text(self.blockhashes[i].0.as_str(), blockhash) {
                return Some(i);
            }
            i = i + 1;
        }
        None
    }

    /// The metadata of a slot, or the default metadata when the slot has
    /// none yet (then it is added).
    fn block_entry(&mut self, slot: u64) -> (i: usize)
        ensures
            i < final(self).blocks@.len(),
            final(self).blocks@[i as int].0 == slot,
            forall|j: int| 0 <= j < i ==> final(self).blocks@[j].0 != slot,
            meta_view(final(self).blocks@[i as int].1) == (match block_lookup(old(self).blocks@, slot) {
                Some(b) => b,
                None => default_meta(),
            }),
            forall|k: u64| k != slot ==> block_lookup(final(self).blocks@, k) == block_lookup(old(self).blocks@, k),
            block_lookup(final(self).blocks@, slot) == Some(meta_view(final(self).blocks@[i as int].1)),
            final(self).blockhashes == old(self).blockhashes,
            final(self).latest() == old(self).latest(),
            blocks_distinct(old(self).blocks@) ==> blocks_distinct(final(self).blocks@),
    {
        match self.find_block(slot) {
            Some(i) => {
                proof {
                    lemma_block_lookup_at(self.blocks@, i as int);
                }
                i
            },
            None => {
                let ghost s0 = self.blocks@;
                let ghost s_in = self.blocks@;
                let b = BlockMeta {
                    slot: 0,
                    blockhash: String::new(),
                    block_height: 0,
                    processed: false,
                    confirmed: false,
                    finalized: false,
                };
                self.blocks.push((slot, b));
                proof {
                    lemma_block_lookup_none(s0, slot);
                    assert forall|k: u64| k != slot implies block_lookup(self.blocks@, k) == block_lookup(s0, k) by {
                        lemma_block_lookup_push(s0, (slot, b), k);
                    }
                    lemma_block_lookup_push(s0, (slot, b), slot);
                    assert(meta_view(b) =~= default_meta());
                    if blocks_distinct(s0) {
                        assert forall|a: int, c: int| 0 <= a < c < self.blocks@.len() implies self.blocks@[a].0 != self.blocks@[c].0 by {
                            if c == s0.len() {
                                assert(self.blocks@[a] == s0[a]);
                            } else {
                                assert(self.blocks@[a] == s0[a] && self.blocks@[c] == s0[c]);
                            }
                        }
                    }
                }
                self.blocks.len() - 1
            },
        }
    }

    /// Updates the status of a blockhash, starting from the default status
    /// when it has none yet.
    fn update_hash(&mut self, blockhash: &String, f_processed: bool, f_confirmed: bool, f_finalized: bool, last_valid: Option<u64>)
        ensures
            ({
                let base = match hash_lookup(old(self).blockhashes@, blockhash@) {
                    Some(st) => st,
                    None => default_status(),
                };
                hash_lookup(final(self).blockhashes@, blockhash@) == Some(
                    BlockStatus {
                        last_valid_block_height: match last_valid {
                            Some(v) => v,
                            None => base.last_valid_block_height,
                        },
                        processed: base.processed || f_processed,
                        confirmed: base.confirmed || f_confirmed,
                        finalized: base.finalized || f_finalized,
                    },
                )
            }),
            forall|k: Seq<char>|
                k != blockhash@ ==> hash_lookup(final(self).blockhashes@, k) == hash_lookup(old(self).blockhashes@, k),
            final(self).blocks == old(self).blocks,
            final(self).latest() == old(self).latest(),
            hashes_distinct(old(self).blockhashes@) ==> hashes_distinct(final(self).blockhashes@),
    {
        let ghost s_in = self.blockhashes@;
        let i = match self.find_hash(blockhash.as_str()) {
            Some(i) => {
                proof {
                    lemma_hash_lookup_at(self.blockhashes@, i as int);
                }
                i
            },
            None => {
                let ghost s0 = self.blockhashes@;
                let st = BlockStatus { last_valid_block_height: 0, processed: false, confirmed: false, finalized: false };
                let key = blockhash.clone();
                let ghost e = (key, st);
                self.blockhashes.push((key, st));
                proof {
                    lemma_hash_lookup_none(s0, blockhash@);
                    assert forall|k: Seq<char>| k != blockhash@ implies hash_lookup(self.blockhashes@, k) == hash_lookup(s0, k) by {
                        lemma_hash_lookup_push(s0, e, k);
                    }
                    lemma_hash_lookup_push(s0, e, blockhash@);
                    assert forall|j: int| 0 <= j < s0.len() implies self.blockhashes@[j].0@ != blockhash@ by {
                        assert(self.blockhashes@[j] == s0[j]);
                    }
                }
                self.blockhashes.len() - 1
            },
        };
        let ghost s1 = self.blockhashes@;
        let old_st = self.blockhashes[i].1;
        let st = BlockStatus {
            last_valid_block_height: match last_valid {
                Some(v) => v,
                None => old_st.last_valid_block_height,
            },
            processed: old_st.processed || f_processed,
            confirmed: old_st.confirmed || f_confirmed,
            finalized: old_st.finalized || f_finalized,
        };
        let key = self.blockhashes[i].0.clone();
        self.blockhashes.set(i, (key, st));
        proof {
            lemma_hash_lookup_update(s1, i as int, st, blockhash@);
            assert forall|k: Seq<char>| k != blockhash@ implies hash_lookup(self.blockhashes@, k) == hash_lookup(s1, k) by {
                lemma_hash_lookup_update(s1, i as int, st, k);
            }
            if hashes_distinct(s_in) {
                assert(hashes_distinct(s1)) by {
                    if s1.len() > s_in.len() {
                        assert forall|a: int, b: int| 0 <= a < b < s1.len() implies s1[a].0@ != s1[b].0@ by {
                            if b == s_in.len() {
                                assert(s1[a] == s_in[a]);
                            } else {
                                assert(s1[a] == s_in[a] && s1[b] == s_in[b]);
                            }
                        }
                    }
                }
                assert forall|a: int, b: int| 0 <= a < b < self.blockhashes@.len() implies self.blockhashes@[a].0@ != self.blockhashes@[b].0@ by {
                    assert(self.blockhashes@[a].0@ == s1[a].0@);
                    assert(self.blockhashes@[b].0@ == s1[b].0@);
                }
            }
        }
    }
}


/// Slots of a block list are distinct.
pub open spec fn blocks_distinct(s: Seq<(u64, BlockMeta)>) -> bool {
    forall|i: int, j: int| 0 <= i < j < s.len() ==> s[i].0 != s[j].0
}

/// Blockhashes of a status list are distinct.
pub open spec fn hashes_distinct(s: Seq<(String, BlockStatus)>) -> bool {
    forall|i: int, j: int| 0 <= i < j < s.len() ==> s[i].0@ != s[j].0@
}

/// Keeping the slots from `from` on.
fn retain_blocks_from(v: Vec<(u64, BlockMeta)>, from: u64) -> (r: Vec<(u64, BlockMeta)>)
    requires
        blocks_distinct(v@),
    ensures
        blocks_distinct(r@),
        forall|k: u64| block_lookup(r@, k) == (if k >= from {
            block_lookup(v@, k)
        } else {
            None
        }),
{
    let mut r: Vec<(u64, BlockMeta)> = Vec::new();
    let ghost mut i: int = 0;
    let mut src = v;
    assert(src@.skip(0) =~= src@);
    while src.len() > 0
        invariant
            0 <= i <= v@.len(),
            src@ == v@.skip(i),
            blocks_distinct(v@),
            blocks_distinct(r@),
            forall|j: int| #![trigger r@[j]] 0 <= j < r@.len() ==> exists|m: int| 0 <= m < i && #[trigger] v@[m] == r@[j],
            forall|k: u64| block_lookup(r@, k) == (if k >= from {
                block_lookup(v@.take(i as int), k)
            } else {
                None
            }),
        decreases src@.len(),
    {
        let e = src.remove(0);
        proof {
            assert(e == v@[i]);
            assert(v@.take(i + 1) =~= v@.take(i as int).push(v@[i as int]));
            assert forall|m: int| 0 <= m < i implies v@.take(i as int)[m].0 != v@[i as int].0 by {}
            lemma_block_lookup_none(v@.take(i as int), v@[i as int].0);
            assert forall|k: u64| block_lookup(v@.take(i + 1), k) == (if block_lookup(v@.take(i as int), k) is Some {
                block_lookup(v@.take(i as int), k)
            } else if v@[i as int].0 == k {
                Some(meta_view(v@[i as int].1))
            } else {
                None
            }) by {
                lemma_block_lookup_push(v@.take(i as int), v@[i as int], k);
            }
        }
        let keep = e.0 >= from;
        let ghost ee = e;
        if keep {
            let ghost r0 = r@;
            r.push(e);
            proof {
                assert forall|k: u64| block_lookup(r@, k) == (if block_lookup(r0, k) is Some {
                    block_lookup(r0, k)
                } else if ee.0 == k {
                    Some(meta_view(ee.1))
                } else {
                    None
                }) by {
                    lemma_block_lookup_push(r0, ee, k);
                }
                assert forall|a: int, b: int| 0 <= a < b < r@.len() implies r@[a].0 != r@[b].0 by {
                    if b == r0.len() {
                        let m = choose|m: int| 0 <= m < i && #[trigger] v@[m] == r0[a];
                        assert(v@[m].0 != v@[i as int].0);
                    } else {
                        assert(r@[a] == r0[a] && r@[b] == r0[b]);
                    }
                }
                assert forall|j: int| #![trigger r@[j]] 0 <= j < r@.len() implies exists|m: int| 0 <= m < i + 1 && #[trigger] v@[m] == r@[j] by {
                    if j == r0.len() {
                        assert(v@[i as int] == r@[j]);
                    } else {
                        let m = choose|m: int| 0 <= m < i && #[trigger] v@[m] == r0[j];
                        assert(v@[m] == r@[j]);
                    }
                }
            }
        }
        proof {
            assert(src@ =~= v@.skip(i + 1));
            i = i + 1;
        }
    }
    proof {
        assert(v@.take(i as int) =~= v@);
    }
    r
}

/// Keeping the blockhashes whose last valid height is below `h`.
fn retain_hashes_below(v: Vec<(String, BlockStatus)>, h: u64) -> (r: Vec<(String, BlockStatus)>)
    requires
        hashes_distinct(v@),
    ensures
        hashes_distinct(r@),
        forall|k: Seq<char>| hash_lookup(r@, k) == (match hash_lookup(v@, k) {
            Some(st) => if st.last_valid_block_height < h {
                Some(st)
            } else {
                None
            },
            None => None,
        }),
{
    let mut r: Vec<(String, BlockStatus)> = Vec::new();
    let ghost mut i: int = 0;
    let mut src = v;
    assert(src@.skip(0) =~= src@);
    while src.len() > 0
        invariant
            0 <= i <= v@.len(),
            src@ == v@.skip(i),
            hashes_distinct(v@),
            hashes_distinct(r@),
            forall|j: int| #![trigger r@[j]] 0 <= j < r@.len() ==> exists|m: int| 0 <= m < i && (#[trigger] v@[m]).0@ == r@[j].0@,
            forall|k: Seq<char>| hash_lookup(r@, k) == (match hash_lookup(v@.take(i as int), k) {
                Some(st) => if st.last_valid_block_height < h {
                    Some(st)
                } else {
                    None
                },
                None => None,
            }),
        decreases src@.len(),
    {
        let e = src.remove(0);
        let ghost ee = e;
        let st = e.1;
        proof {
            assert(ee == v@[i]);
            assert(v@.take(i + 1) =~= v@.take(i as int).push(v@[i as int]));
            lemma_hash_lookup_none(v@.take(i as int), v@[i as int].0@);
            assert forall|k: Seq<char>| hash_lookup(v@.take(i + 1), k) == (if hash_lookup(v@.take(i as int), k) is Some {
                hash_lookup(v@.take(i as int), k)
            } else if v@[i as int].0@ == k {
                Some(v@[i as int].1)
            } else {
                None
            }) by {
                lemma_hash_lookup_push(v@.take(i as int), v@[i as int], k);
            }
        }
        if st.last_valid_block_height < h {
            let ghost r0 = r@;
            r.push(e);
            proof {
                assert forall|k: Seq<char>| hash_lookup(r@, k) == (if hash_lookup(r0, k) is Some {
                    hash_lookup(r0, k)
                } else if ee.0@ == k {
                    Some(ee.1)
                } else {
                    None
                }) by {
                    lemma_hash_lookup_push(r0, ee, k);
                }
                assert forall|a: int, b: int| 0 <= a < b < r@.len() implies r@[a].0@ != r@[b].0@ by {
                    if b == r0.len() {
                        let m = choose|m: int| 0 <= m < i && (#[trigger] v@[m]).0@ == r0[a].0@;
                        assert(v@[m].0@ != v@[i as int].0@);
                    } else {
                        assert(r@[a] == r0[a] && r@[b] == r0[b]);
                    }
                }
                assert forall|j: int| #![trigger r@[j]] 0 <= j < r@.len() implies exists|m: int| 0 <= m < i + 1 && (#[trigger] v@[m]).0@ == r@[j].0@ by {
                    if j == r0.len() {
                        assert(v@[i as int].0@ == r@[j].0@);
                    } else {
                        let m = choose|m: int| 0 <= m < i && (#[trigger] v@[m]).0@ == r0[j].0@;
                        assert(v@[m].0@ == r@[j].0@);
                    }
                }
            }
        }
        proof {
            assert(src@ =~= v@.skip(i + 1));
            i = i + 1;
        }
    }
    proof {
        assert(v@.take(i as int) =~= v@);
    }
    r
}


/// A copy of a block's metadata.
fn copy_meta(b: &BlockMeta) -> (r: BlockMeta)
    ensures
        meta_view(r) == meta_view(*b),
{
    BlockMeta {
        slot: b.slot,
        blockhash: b.blockhash.clone(),
        block_height: b.block_height,
        processed: b.processed,
        confirmed: b.confirmed,
        finalized: b.finalized,
    }
}

/// The metadata after a slot status: the entry (or the default one) with
/// the flag of the commitment set.
pub open spec fn with_flag(b: BlockMetaView, confirmed: bool, finalized: bool) -> BlockMetaView {
    (b.0, b.1, b.2, b.3, b.4 || confirmed, b.5 || finalized)
}

/// An entry, or the default one.
pub open spec fn or_default_meta(b: Option<BlockMetaView>) -> BlockMetaView {
    match b {
        Some(x) => x,
        None => default_meta(),
    }
}

/// A status, or the default one.
pub open spec fn or_default_status(s: Option<BlockStatus>) -> BlockStatus {
    match s {
        Some(x) => x,
        None => default_status(),
    }
}

impl BlockMetaStorage {
    /// Slots and blockhashes are each stored once.
    pub closed spec fn wf(&self) -> bool {
        &&& blocks_distinct(self.blocks@)
        &&& hashes_distinct(self.blockhashes@)
    }

    /// The slot seen at a commitment, or none for the levels the store does
    /// not track.
    pub open spec fn slot_at(&self, commitment: CommitmentLevelProto) -> Option<u64> {
        match commitment {
            CommitmentLevelProto::Processed => Some(self.latest().0),
            CommitmentLevelProto::Confirmed => Some(self.latest().1),
            CommitmentLevelProto::Finalized => Some(self.latest().2),
            _ => None,
        }
    }

    /// Records a slot status. Confirmed and finalized mark the slot's entry
    /// (created with the default metadata when missing) and its
    /// blockhash's status, and become the latest slot of their commitment;
    /// finalized then drops the slots before it and keeps only the
    /// blockhashes whose last valid height is below the slot's block height.
    /// Other statuses change nothing.
    pub fn on_slot_status(&mut self, slot: u64, commitment: CommitmentLevelProto)
        requires
            old(self).wf(),
        ensures
            final(self).wf(),
            commitment != CommitmentLevelProto::Confirmed && commitment != CommitmentLevelProto::Finalized ==> (
                forall|k: u64| final(self).block(k) == old(self).block(k)) && (forall|k: Seq<char>| final(self).status(k)
                == old(self).status(k)) && final(self).latest() == old(self).latest(),
            commitment == CommitmentLevelProto::Confirmed ==> {
                let e = with_flag(or_default_meta(old(self).block(slot)), true, false);
                let st = or_default_status(old(self).status(e.1));
                &&& final(self).block(slot) == Some(e)
                &&& forall|k: u64| k != slot ==> final(self).block(k) == old(self).block(k)
                &&& final(self).status(e.1) == Some(BlockStatus { confirmed: true, ..st })
                &&& forall|k: Seq<char>| k != e.1 ==> final(self).status(k) == old(self).status(k)
                &&& final(self).latest() == (old(self).latest().0, slot, old(self).latest().2)
            },
            commitment == CommitmentLevelProto::Finalized ==> {
                let e = with_flag(or_default_meta(old(self).block(slot)), false, true);
                let st = or_default_status(old(self).status(e.1));
                let st2 = BlockStatus { finalized: true, ..st };
                &&& final(self).block(slot) == Some(e)
                &&& forall|k: u64| k != slot ==> final(self).block(k) == (if k >= slot {
                    old(self).block(k)
                } else {
                    None
                })
                &&& final(self).status(e.1) == (if st2.last_valid_block_height < e.2 {
                    Some(st2)
                } else {
                    None
                })
                &&& forall|k: Seq<char>| k != e.1 ==> final(self).status(k) == (match old(self).status(k) {
                    Some(s) => if s.last_valid_block_height < e.2 {
                        Some(s)
                    } else {
                        None
                    },
                    None => None,
                })
                &&& final(self).latest() == (old(self).latest().0, old(self).latest().1, slot)
            },
    {
        let confirmed = match commitment {
            CommitmentLevelProto::Confirmed => true,
            _ => false,
        };
        let finalized = match commitment {
            CommitmentLevelProto::Finalized => true,
            _ => false,
        };
        if !confirmed && !finalized {
            return;
        }
        let ghost s0 = *self;
        let i = self.block_entry(slot);
        let ghost s1_blocks = self.blocks@;
        let old_entry = copy_meta(&self.blocks[i].1);
        let entry = BlockMeta {
            slot: old_entry.slot,
            blockhash: old_entry.blockhash,
            block_height: old_entry.block_height,
            processed: old_entry.processed,
            confirmed: old_entry.confirmed || confirmed,
            finalized: old_entry.finalized || finalized,
        };
        let blockhash = entry.blockhash.clone();
        let height = entry.block_height;
        let ghost ev = meta_view(entry);
        self.blocks.set(i, (slot, entry));
        proof {
            lemma_block_lookup_update(s1_blocks, i as int, self.blocks@[i as int].1, slot);
            assert forall|k: u64| k != slot implies block_lookup(self.blocks@, k) == block_lookup(s0.blocks@, k) by {
                lemma_block_lookup_update(s1_blocks, i as int, self.blocks@[i as int].1, k);
            }
            assert forall|a: int, b: int| 0 <= a < b < self.blocks@.len() implies self.blocks@[a].0 != self.blocks@[b].0 by {
                assert(self.blocks@[a].0 == s1_blocks[a].0);
                assert(self.blocks@[b].0 == s1_blocks[b].0);
            }
        }
        self.update_hash(&blockhash, false, confirmed, finalized, None);
        if confirmed {
            self.confirmed = slot;
        } else {
            self.finalized = slot;
            let mut hashes: Vec<(String, BlockStatus)> = Vec::new();
            std::mem::swap(&mut hashes, &mut self.blockhashes);
            self.blockhashes = retain_hashes_below(hashes, height);
            let mut blocks: Vec<(u64, BlockMeta)> = Vec::new();
            std::mem::swap(&mut blocks, &mut self.blocks);
            self.blocks = retain_blocks_from(blocks, slot);
        }
    }

    /// Records a block's metadata: the slot's entry gets the slot, the
    /// blockhash and the height (0 when unknown) and is marked processed;
    /// the blockhash's status gets the last valid height (the height plus
    /// `MAX_PROCESSING_AGE`, wrapping) and is marked processed; the latest
    /// processed slot becomes the larger of it and this slot.
    pub fn on_block_meta(&mut self, slot: u64, blockhash: String, block_height: Option<u64>)
        requires
            old(self).wf(),
        ensures
            final(self).wf(),
            ({
                let h: u64 = match block_height {
                    Some(x) => x,
                    None => 0,
                };
                let prev = or_default_meta(old(self).block(slot));
                let st = or_default_status(old(self).status(blockhash@));
                &&& final(self).block(slot) == Some((slot, blockhash@, h, true, prev.4, prev.5))
                &&& forall|k: u64| k != slot ==> final(self).block(k) == old(self).block(k)
                &&& final(self).status(blockhash@) == Some(
                    BlockStatus {
                        last_valid_block_height: h.wrapping_add(MAX_PROCESSING_AGE),
                        processed: true,
                        ..st
                    },
                )
                &&& forall|k: Seq<char>| k != blockhash@ ==> final(self).status(k) == old(self).status(k)
                &&& final(self).latest() == (
                    if slot > old(self).latest().0 {
                        slot
                    } else {
                        old(self).latest().0
                    },
                    old(self).latest().1,
                    old(self).latest().2,
                )
            }),
    {
        let h: u64 = match block_height {
            Some(x) => x,
            None => 0,
        };
        let ghost s0 = *self;
        let i = self.block_entry(slot);
        let ghost s1_blocks = self.blocks@;
        let prev_confirmed = self.blocks[i].1.confirmed;
        let prev_finalized = self.blocks[i].1.finalized;
        let entry = BlockMeta {
            slot,
            blockhash: blockhash.clone(),
            block_height: h,
            processed: true,
            confirmed: prev_confirmed,
            finalized: prev_finalized,
        };
        self.blocks.set(i, (slot, entry));
        proof {
            lemma_block_lookup_update(s1_blocks, i as int, self.blocks@[i as int].1, slot);
            assert forall|k: u64| k != slot implies block_lookup(self.blocks@, k) == block_lookup(s0.blocks@, k) by {
                lemma_block_lookup_update(s1_blocks, i as int, self.blocks@[i as int].1, k);
            }
            assert forall|a: int, b: int| 0 <= a < b < self.blocks@.len() implies self.blocks@[a].0 != self.blocks@[b].0 by {
                assert(self.blocks@[a].0 == s1_blocks[a].0);
                assert(self.blocks@[b].0 == s1_blocks[b].0);
            }
        }
        self.update_hash(&blockhash, true, false, false, Some(h.wrapping_add(MAX_PROCESSING_AGE)));
        if slot > self.processed {
            self.processed = slot;
        }
    }

    /// The metadata of the latest slot of a commitment, if it is stored.
    pub fn get_block(&self, commitment: CommitmentLevelProto) -> (r: Option<BlockMeta>)
        requires
            self.wf(),
        ensures
            match self.slot_at(commitment) {
                Some(s) => match self.block(s) {
                    Some(b) => r matches Some(m) && meta_view(m) == b,
                    None => r is None,
                },
                None => r is None,
            },
    {
        let slot = match commitment {
            CommitmentLevelProto::Processed => self.processed,
            CommitmentLevelProto::Confirmed => self.confirmed,
            CommitmentLevelProto::Finalized => self.finalized,
            _ => {
                return None;
            },
        };
        match self.find_block(slot) {
            Some(i) => {
                proof {
                    lemma_block_lookup_at(self.blocks@, i as int);
                }
                Some(copy_meta(&self.blocks[i].1))
            },
            None => {
                proof {
                    lemma_block_lookup_none(self.blocks@, slot);
                }
                None
            },
        }
    }

    /// Whether a blockhash is still valid at the latest block of a
    /// commitment, with that block's slot: valid while the block's height
    /// is below the blockhash's last valid height. Nothing when either is
    /// unknown.
    pub fn is_blockhash_valid(&self, blockhash: &str, commitment: CommitmentLevelProto) -> (r: Option<(bool, u64)>)
        requires
            self.wf(),
        ensures
            match self.slot_at(commitment) {
                Some(s) => match (self.block(s), self.status(blockhash@)) {
                    (Some(b), Some(st)) => r == Some((b.2 < st.last_valid_block_height, b.0)),
                    _ => r is None,
                },
                None => r is None,
            },
    {
        let block = self.get_block(commitment);
        match block {
            None => None,
            Some(b) => match self.find_hash(blockhash) {
                Some(i) => {
                    proof {
                        lemma_hash_lookup_at(self.blockhashes@, i as int);
                    }
                    let st = self.blockhashes[i].1;
                    Some((b.block_height < st.last_valid_block_height, b.slot))
                },
                None => {
                    proof {
                        lemma_hash_lookup_none(self.blockhashes@, blockhash@);
                    }
                    None
                },
            },
        }
    }
}


/// Number of CPU cores, from `affinity::get_core_num`. It depends on the
/// machine, so nothing is stated of it.
#[verifier::external_body]
fn core_num() -> (n: usize) {
    affinity::get_core_num()
}

/// Logging of the server: JSON lines or plain text.
#[derive(Debug, Clone, Copy, PartialEq, Eq, Structural)]
pub struct ConfigLog {
    pub json: bool,
}

impl Default for ConfigLog {
    /// Plain text.
    fn default() -> (r: Self)
        ensures
            !r.json,
    {
        ConfigLog { json: false }
    }
}

/// Worker threads and the CPUs they run on.
#[derive(Debug, Clone)]
pub struct ConfigAppsWorkers {
    pub threads: usize,
    pub affinity: Vec<usize>,
}

/// Why the workers cannot start.
#[derive(Debug, Clone, Copy, PartialEq, Eq, Structural)]
pub enum WorkersError {
    NoThreads,
}

impl ConfigAppsWorkers {
    /// One thread, allowed on every core of the machine.
    pub fn default_config() -> (r: Self)
        ensures
            r.threads == 1,
            forall|i: int| 0 <= i < r.affinity@.len() ==> r.affinity@[i] == i,
    {
        let n = core_num();
        let mut affinity: Vec<usize> = Vec::new();
        let mut i: usize = 0;
        while i < n
            invariant
                i <= n,
                affinity@.len() == i,
                forall|j: int| 0 <= j < i ==> affinity@[j] == j,
            decreases n - i,
        {
            affinity.push(i);
            i = i + 1;
        }
        ConfigAppsWorkers { threads: 1, affinity }
    }

    /// At least one thread is needed.
    pub fn check(&self) -> (r: Result<(), WorkersError>)
        ensures
            r is Ok <==> self.threads > 0,
    {
        if self.threads > 0 {
            Ok(())
        } else {
            Err(WorkersError::NoThreads)
        }
    }

    /// The CPUs of worker `index`: its own CPU when there is one CPU per
    /// thread, all the CPUs otherwise.
    pub fn thread_cpus(&self, index: usize) -> (r: Vec<usize>)
        requires
            index < self.threads,
        ensures
            r@ == (if self.threads == self.affinity@.len() {
                seq![self.affinity@[index as int]]
            } else {
                self.affinity@
            }),
    {
        if self.threads == self.affinity.len() {
            let mut v: Vec<usize> = Vec::new();
            v.push(self.affinity[index]);
            v
        } else {
            self.affinity.clone()
        }
    }
}

/// gRPC worker threads and the size of their message caches.
#[derive(Debug, Clone)]
pub struct ConfigAppsGrpcWorkers {
    pub threads: ConfigAppsWorkers,
    pub messages_cached_max: usize,
}

impl ConfigAppsGrpcWorkers {
    /// The default workers and 1024 cached messages.
    pub fn default_config() -> (r: Self)
        ensures
            r.threads.threads == 1,
            forall|i: int| 0 <= i < r.threads.affinity@.len() ==> r.threads.affinity@[i] == i,
            r.messages_cached_max == 1024,
    {
        ConfigAppsGrpcWorkers { threads: ConfigAppsWorkers::default_config(), messages_cached_max: 1_024 }
    }
}

/// Limits of a client's stream: queued bytes, messages per tick, and the
/// seconds between pings.
#[derive(Debug, Clone, Copy, PartialEq, Eq, Structural)]
pub struct ConfigAppsGrpcStream {
    pub messages_len_max: usize,
    pub messages_max_per_tick: usize,
    pub ping_iterval_secs: u64,
}

impl Default for ConfigAppsGrpcStream {
    /// 16 MiB queued, 100 messages per tick, a ping every 15 seconds.
    fn default() -> (r: Self)
        ensures
            r.messages_len_max == 16 * 1024 * 1024,
            r.messages_max_per_tick == 100,
            r.ping_iterval_secs == 15,
    {
        ConfigAppsGrpcStream { messages_len_max: 16 * 1024 * 1024, messages_max_per_tick: 100, ping_iterval_secs: 15 }
    }
}

/// The unary methods: whether they are served, the CPU of their thread and
/// the size of their request queue.
#[derive(Debug, Clone, Copy, PartialEq, Eq, Structural)]
pub struct ConfigAppsGrpcUnary {
    pub enabled: bool,
    pub affinity: usize,
    pub requests_queue_size: usize,
}

impl Default for ConfigAppsGrpcUnary {
    /// Served, on CPU 0, with a queue of 100 requests.
    fn default() -> (r: Self)
        ensures
            r.enabled,
            r.affinity == 0,
            r.requests_queue_size == 100,
    {
        ConfigAppsGrpcUnary { enabled: true, affinity: 0, requests_queue_size: 100 }
    }
}

/// Why a client's new subscription request is refused.
#[derive(Debug, Clone)]
pub enum ApplyError {
    /// The request does not convert into filters.
    Filter(ConfigFilterError),
    /// The filters exceed the limits.
    Limits(ConfigLimitsError),
    /// No position to stream from was found for the commitment.
    NoSlot,
}

/// The level a client streams at for the filters' commitment (processed
/// when none is given).
pub open spec fn filter_level(f: ConfigFilter) -> CommitmentLevel {
    match f.commitment {
        None | Some(ConfigFilterCommitment::Processed) => CommitmentLevel::Processed,
        Some(ConfigFilterCommitment::Confirmed) => CommitmentLevel::Confirmed,
        Some(ConfigFilterCommitment::Finalized) => CommitmentLevel::Finalized,
    }
}

/// Filters that a request converts into and that the limits accept.
pub open spec fn accepted_filter(request: SubscribeRequest, limits: ConfigLimits, f: ConfigFilter) -> bool {
    filter_from_request(request, Ok(f)) && limits_check(limits, f) is Ok
}

/// Takes a client's new subscription request: its filters are converted
/// and checked against the limits; then the client's commitment is set to
/// the filters' and its position to the one `head_for` finds at that
/// commitment from the request's start slot. A refused conversion or check leaves the client as it was;
/// when no position is found the commitment is already set.
pub fn apply_request(
    client: &mut SubscribeClientState,
    request: &SubscribeRequest,
    limits: &ConfigLimits,
    head_for: impl FnOnce(CommitmentLevel, Option<u64>) -> Option<u64>,
) -> (r: Result<ConfigFilter, ApplyError>)
    requires
        request_offsets_fit(*request),
        forall|c: CommitmentLevel, s: Option<u64>| call_requires(head_for, (c, s)),
    ensures
        final(client).wf() == old(client).wf(),
        final(client).queue() == old(client).queue(),
        final(client).queued_bytes() == old(client).queued_bytes(),
        final(client).max_bytes() == old(client).max_bytes(),
        final(client).error() == old(client).error(),
        final(client).header().0 == old(client).header().0,
        final(client).header().1 == old(client).header().1,
        match r {
            Ok(f) => {
                &&& accepted_filter(*request, *limits, f)
                &&& final(client).header().2 == filter_level(f)
                &&& call_ensures(head_for, (filter_level(f), request.from_slot), Some(final(client).header().3))
            },
            Err(ApplyError::Filter(e)) => {
                &&& filter_from_request(*request, Err(e))
                &&& final(client).header() == old(client).header()
            },
            Err(ApplyError::Limits(e)) => {
                &&& exists|f: ConfigFilter| filter_from_request(*request, Ok(f)) && limits_check(*limits, f) == Err::<(), ConfigLimitsError>(e)
                &&& final(client).header() == old(client).header()
            },
            Err(ApplyError::NoSlot) => exists|f: ConfigFilter| {
                &&& accepted_filter(*request, *limits, f)
                &&& final(client).header().2 == filter_level(f)
                &&& final(client).header().3 == old(client).header().3
                &&& call_ensures(head_for, (filter_level(f), request.from_slot), None)
            },
        },
{
    let filter = match ConfigFilter::try_from_request(request) {
        Ok(f) => f,
        Err(e) => {
            return Err(ApplyError::Filter(e));
        },
    };
    match limits.check_filter(&filter) {
        Ok(()) => {},
        Err(e) => {
            return Err(ApplyError::Limits(e));
        },
    }
    let commitment = match filter.commitment {
        None => CommitmentLevel::Processed,
        Some(ConfigFilterCommitment::Processed) => CommitmentLevel::Processed,
        Some(ConfigFilterCommitment::Confirmed) => CommitmentLevel::Confirmed,
        Some(ConfigFilterCommitment::Finalized) => CommitmentLevel::Finalized,
    };
    assert(commitment == filter_level(filter));
    client.commitment = commitment;
    match head_for(commitment, request.from_slot) {
        Some(head) => {
            client.head = head;
            assert(client.header().3 == head);
            assert(accepted_filter(*request, *limits, filter));
            Ok(filter)
        },
        None => Err(ApplyError::NoSlot),
    }
}

/// What a client's request on its stream led to.
#[derive(Debug, Clone)]
pub enum RequestStep {
    /// A ping was answered with a pong.
    Pong,
    /// The new filters apply from the client's new position.
    Subscribed(ConfigFilter),
    /// The request was refused; the stream ends with an invalid-argument
    /// error.
    Refused(ApplyError),
}

/// Handles one request a client sends on its stream: a ping is answered by
/// queueing a pong with its id (nothing else changes); otherwise the
/// request's filters are taken as `apply_request` does, and a refusal ends
/// the client's stream with `InvalidArgument`.
pub fn on_request(
    client: &mut SubscribeClientState,
    request: &SubscribeRequest,
    limits: &ConfigLimits,
    head_for: impl FnOnce(CommitmentLevel, Option<u64>) -> Option<u64>,
    now: Timestamp,
) -> (step: RequestStep)
    requires
        old(client).wf(),
        request_offsets_fit(*request),
        forall|c: CommitmentLevel, s: Option<u64>| call_requires(head_for, (c, s)),
        request.ping matches Some(id) ==> old(client).queued_bytes() + spec_pong(id, now).len() <= usize::MAX,
    ensures
        final(client).wf(),
        final(client).max_bytes() == old(client).max_bytes(),
        final(client).header().0 == old(client).header().0,
        final(client).header().1 == old(client).header().1,
        match request.ping {
            Some(id) => {
                &&& step is Pong
                &&& final(client).queue() == old(client).queue().push(spec_pong(id, now))
                &&& final(client).header() == old(client).header()
                &&& final(client).error() == old(client).error()
            },
            None => {
                &&& final(client).queue() == old(client).queue()
                &&& match step {
                    RequestStep::Pong => false,
                    RequestStep::Subscribed(f) => {
                        &&& accepted_filter(*request, *limits, f)
                        &&& final(client).header().2 == filter_level(f)
                        &&& call_ensures(head_for, (filter_level(f), request.from_slot), Some(final(client).header().3))
                        &&& final(client).error() == old(client).error()
                    },
                    RequestStep::Refused(e) => {
                        &&& final(client).error() == Some(StreamError::InvalidArgument)
                        &&& match e {
                            ApplyError::Filter(fe) => filter_from_request(*request, Err(fe))
                                && final(client).header() == old(client).header(),
                            ApplyError::Limits(le) => (exists|f: ConfigFilter| filter_from_request(*request, Ok(f))
                                && limits_check(*limits, f) == Err::<(), ConfigLimitsError>(le))
                                && final(client).header() == old(client).header(),
                            ApplyError::NoSlot => exists|f: ConfigFilter| {
                                &&& accepted_filter(*request, *limits, f)
                                &&& final(client).header().2 == filter_level(f)
                                &&& final(client).header().3 == old(client).header().3
                                &&& call_ensures(head_for, (filter_level(f), request.from_slot), None)
                            },
                        }
                    },
                }
            },
        },
{
    if let Some(id) = request.ping {
        let pong = encode_pong(id, now);
        client.push_message(pong);
        return RequestStep::Pong;
    }
    match apply_request(client, request, limits, head_for) {
        Ok(f) => RequestStep::Subscribed(f),
        Err(e) => {
            client.push_error(StreamError::InvalidArgument);
            RequestStep::Refused(e)
        },
    }
}

/// Whether updates of these sizes can still be counted in the queue's
/// byte count.
pub fn updates_fit(client: &SubscribeClientState, us: &Vec<Vec<u8>>) -> (r: bool)
    requires
        client.wf(),
    ensures
        r == (client.queued_bytes() + total_len(us@) <= usize::MAX),
{
    let mut acc: usize = client.messages_len_total();
    let mut i: usize = 0;
    while i < us.len()
        invariant
            client.wf(),
            i <= us@.len(),
            acc == client.queued_bytes() + total_len(us@.take(i as int)),
        decreases us@.len() - i,
    {
        proof {
            assert(us@.take(i + 1).drop_last() =~= us@.take(i as int));
        }
        let n = us[i].len();
        if acc > usize::MAX - n {
            proof {
                lemma_total_len_prefix(us@, i as int + 1);
            }
            return false;
        }
        acc = acc + n;
        i = i + 1;
    }
    proof {
        assert(us@.take(i as int) =~= us@);
    }
    true
}

/// The client's queue after a tick's ping step.
pub open spec fn queue_after_ping(c: SubscribeClientState, since_last_ping: u64, ping_interval: u64, now: Timestamp) -> Seq<Seq<u8>> {
    if ping_queued(c, since_last_ping, ping_interval, now) {
        c.queue().push(spec_ping(now))
    } else {
        c.queue()
    }
}

/// Whether a tick queues a ping: one is due and its bytes can be counted.
pub open spec fn ping_queued(c: SubscribeClientState, since_last_ping: u64, ping_interval: u64, now: Timestamp) -> bool {
    &&& c.queued_bytes() <= c.max_bytes()
    &&& since_last_ping > ping_interval
    &&& c.queued_bytes() + spec_ping(now).len() <= usize::MAX
}

/// The updates queued for received messages, one message after the other.
pub open spec fn flat_updates(us: Seq<Vec<Vec<u8>>>) -> Seq<Seq<u8>>
    decreases us.len(),
{
    if us.len() == 0 {
        Seq::empty()
    } else {
        flat_updates(us.drop_last()) + updates_view(us.last()@)
    }
}

/// What a tick may get at position `pos`: what `fetch` returns for it, or
/// what the cache the tick started with holds for it (a clone of the
/// message, or its absence).
pub open spec fn received_at<T: Clone, F: Fn(u64) -> Result<Option<T>, StreamError>>(
    cache: MessagesCache<T>,
    fetch: F,
    pos: u64,
    r: Result<Option<T>, StreamError>,
) -> bool {
    ||| call_ensures(fetch, (pos,), r)
    ||| {
        let cell = cache.cells()[cache.cell_of(pos)];
        &&& cell.0 == pos
        &&& match cell.1 {
            Some(x) => r matches Ok(Some(y)) && cloned(x, y),
            None => r == Ok::<Option<T>, StreamError>(None),
        }
    }
}

/// The messages a tick received from position `head` on, one per position,
/// and the updates the filter made of each.
pub open spec fn received_run<T: Clone, F: Fn(u64) -> Result<Option<T>, StreamError>, G: Fn(&T) -> Vec<Vec<u8>>>(
    cache: MessagesCache<T>,
    fetch: F,
    filter: G,
    head: u64,
    ms: Seq<T>,
    us: Seq<Vec<Vec<u8>>>,
) -> bool {
    &&& ms.len() == us.len()
    &&& forall|i: int|
        0 <= i < ms.len() ==> received_at(cache, fetch, (head + i) as u64, Ok(Some(#[trigger] ms[i])))
            && call_ensures(filter, (&ms[i],), us[i])
}

/// Why a tick that keeps the client stopped receiving at position `pos`:
/// it received `max_per_tick` messages, the queue went over its limit, the
/// position is the last one, nothing is there yet, or the updates of the
/// message there could not be counted in the queue's byte count.
pub open spec fn tick_stopped<T: Clone, F: Fn(u64) -> Result<Option<T>, StreamError>, G: Fn(&T) -> Vec<Vec<u8>>>(
    cache: MessagesCache<T>,
    fetch: F,
    filter: G,
    client: SubscribeClientState,
    received: int,
    max_per_tick: usize,
) -> bool {
    let pos = client.header().3;
    ||| received == max_per_tick
    ||| client.queued_bytes() > client.max_bytes()
    ||| pos == u64::MAX
    ||| received_at(cache, fetch, pos, Ok(None))
    ||| exists|m: T, u: Vec<Vec<u8>>|
        received_at(cache, fetch, pos, Ok(Some(m))) && call_ensures(filter, (&m,), u) && client.queued_bytes()
            + total_len(u@) > usize::MAX
}

/// One tick of a worker over a subscribed client; says whether the client
/// is requeued. A client that nothing else holds is dropped. Otherwise a
/// ping is queued when due; then, when the client has a filter, messages
/// are received from its position on, one position after the other (from
/// the cache or fetched), each turned into updates by the filter and
/// queued, until `max_per_tick` were received, the queue is over its limit
/// or nothing more is there. An error from the channel ends the stream with
/// that error and the client is dropped. A message whose updates could not
/// be counted in the queue's byte count, or the last position, waits.
pub fn tick<T: Clone, F: Fn(u64) -> Result<Option<T>, StreamError>, G: Fn(&T) -> Vec<Vec<u8>>>(
    client: &mut SubscribeClientState,
    cache: &mut MessagesCache<T>,
    fetch: &F,
    filter: Option<&G>,
    since_last_ping: u64,
    ping_interval: u64,
    max_per_tick: usize,
    now: Timestamp,
) -> (requeue: bool)
    requires
        old(client).wf(),
        old(cache).wf(),
        forall|p: u64| call_requires(*fetch, (p,)),
        filter matches Some(g) ==> forall|m: &T| call_requires(*g, (m,)),
    ensures
        final(client).wf(),
        final(cache).wf(),
        final(client).header().0 == old(client).header().0,
        final(client).header().1 == old(client).header().1,
        final(client).header().2 == old(client).header().2,
        final(client).max_bytes() == old(client).max_bytes(),
        old(client).header().1 == 1 ==> !requeue && *final(client) == *old(client),
        old(client).header().1 != 1 ==> old(client).header().3 <= final(client).header().3 <= old(client).header().3
            + max_per_tick,
        old(client).header().1 != 1 && filter is None ==> {
            &&& requeue
            &&& final(client).header().3 == old(client).header().3
            &&& final(client).queue() == queue_after_ping(*old(client), since_last_ping, ping_interval, now)
            &&& final(client).error() == old(client).error()
        },
        old(client).header().1 != 1 && filter is Some ==> exists|ms: Seq<T>, us: Seq<Vec<Vec<u8>>>| {
            &&& received_run(*old(cache), *fetch, *filter->0, old(client).header().3, ms, us)
            &&& ms.len() == final(client).header().3 - old(client).header().3
            &&& final(client).queue() == queue_after_ping(*old(client), since_last_ping, ping_interval, now)
                + flat_updates(us)
        },
        old(client).header().1 != 1 && filter is Some && requeue ==> {
            &&& final(client).error() == old(client).error()
            &&& tick_stopped(
                *old(cache),
                *fetch,
                *filter->0,
                *final(client),
                final(client).header().3 - old(client).header().3,
                max_per_tick,
            )
        },
        old(client).header().1 != 1 && filter is Some && !requeue ==> exists|e: StreamError|
            final(client).error() == Some(e) && call_ensures(*fetch, (final(client).header().3,), Err(e)),
{
    if client.is_orphaned() {
        return false;
    }
    let ghost c0 = *client;
    let ghost cc0 = *cache;
    if client.ping_due(since_last_ping, ping_interval) {
        let ping = encode_ping(now);
        if client.messages_len_total() <= usize::MAX - ping.len() {
            client.push_message(ping);
        }
    }
    let ghost q0 = client.queue();
    proof {
        assert(q0 == if ping_queued(c0, since_last_ping, ping_interval, now) {
            c0.queue().push(spec_ping(now))
        } else {
            c0.queue()
        });
    }
    let g = match filter {
        Some(g) => g,
        None => {
            return true;
        },
    };
    let ghost mut ms: Seq<T> = Seq::empty();
    let ghost mut us: Seq<Vec<Vec<u8>>> = Seq::empty();
    proof {
        assert(client.queue() =~= q0 + flat_updates(us));
        cc0.lemma_cells();
    }
    let mut count: usize = 0;
    loop
        invariant_except_break
            forall|j: int|
                0 <= j < cc0.cap() ==> #[trigger] cache.cells()[j] == cc0.cells()[j] || cache.cells()[j].0
                    < client.header().3,
        invariant
            client.wf(),
            cache.wf(),
            forall|p: u64| call_requires(*fetch, (p,)),
            forall|m: &T| call_requires(*g, (m,)),
            client.header().0 == c0.header().0,
            client.header().1 == c0.header().1,
            client.header().2 == c0.header().2,
            client.max_bytes() == c0.max_bytes(),
            client.header().3 == c0.header().3 + count,
            count <= max_per_tick,
            client.error() == c0.error(),
            c0 == *old(client),
            cc0 == *old(cache),
            c0.header().1 != 1,
            filter == Some(g),
            q0 == (if ping_queued(c0, since_last_ping, ping_interval, now) {
                c0.queue().push(spec_ping(now))
            } else {
                c0.queue()
            }),
            received_run(cc0, *fetch, *g, c0.header().3, ms, us),
            ms.len() == count,
            client.queue() == q0 + flat_updates(us),
            cc0.wf(),
            cache.cap() == cc0.cap(),
        ensures
            client.wf(),
            cache.wf(),
            client.header().0 == c0.header().0,
            client.header().1 == c0.header().1,
            client.header().2 == c0.header().2,
            client.max_bytes() == c0.max_bytes(),
            client.header().3 == c0.header().3 + count,
            count <= max_per_tick,
            client.error() == c0.error(),
            received_run(cc0, *fetch, *g, c0.header().3, ms, us),
            ms.len() == count,
            client.queue() == q0 + flat_updates(us),
            tick_stopped(cc0, *fetch, *g, *client, count as int, max_per_tick),
        decreases max_per_tick - count,
    {
        if !client.may_receive(count, max_per_tick) {
            break;
        }
        if client.head == u64::MAX {
            break;
        }
        let head = client.head;
        let ghost before_cache = *cache;
        proof {
            cache.lemma_cells();
        }
        let item = cache.try_recv(client.head, fetch);
        proof {
            let idx = before_cache.cell_of(head);
            let cell = before_cache.cells()[idx];
            if cell.0 == head {
                assert(cell == cc0.cells()[idx]);
            }
            assert(received_at(cc0, *fetch, head, item));
            cache.lemma_cells();
            assert forall|j: int| 0 <= j < cc0.cap() implies #[trigger] cache.cells()[j] == cc0.cells()[j]
                || cache.cells()[j].0 <= head by {
                if j != idx {
                    assert(cache.cells()[j] == before_cache.cells()[j] || cache.cells() == before_cache.cells());
                }
            }
        }
        let ghost got = item;
        let updates: Result<Option<Vec<Vec<u8>>>, StreamError> = match item {
            Ok(Some(m)) => Ok(Some(g(&m))),
            Ok(None) => Ok(None),
            Err(e) => Err(e),
        };
        match &updates {
            Ok(Some(u)) => {
                if !updates_fit(client, u) {
                    proof {
                        let m = got->Ok_0->Some_0;
                        assert(received_at(cc0, *fetch, head, Ok(Some(m))));
                        assert(call_ensures(*g, (&m,), *u));
                    }
                    break;
                }
            },
            _ => {},
        }
        let ghost before = client.queue();
        let ghost before_header = client.header();
        let ghost sent = updates;
        match client.on_received(updates) {
            DeliveryStep::Continue => {
                proof {
                    let m = got->Ok_0->Some_0;
                    let u = sent->Ok_0->Some_0;
                    let ms1 = ms.push(m);
                    let us1 = us.push(u);
                    assert(us1.drop_last() =~= us);
                    assert(client.queue() =~= q0 + flat_updates(us1));
                    assert forall|i: int| 0 <= i < ms1.len() implies received_at(
                        cc0,
                        *fetch,
                        (c0.header().3 + i) as u64,
                        Ok(Some(#[trigger] ms1[i])),
                    ) && call_ensures(*g, (&ms1[i],), us1[i]) by {
                        if i < ms.len() {
                            assert(ms1[i] == ms[i]);
                            assert(us1[i] == us[i]);
                        } else {
                            assert(ms1[i] == m);
                            assert(us1[i] == u);
                            assert((c0.header().3 + i) as u64 == head);
                        }
                    }
                    ms = ms1;
                    us = us1;
                }
                count = count + 1;
            },
            DeliveryStep::Stop => {
                proof {
                    assert(got == Ok::<Option<T>, StreamError>(None));
                }
                break;
            },
            DeliveryStep::Errored => {
                proof {
                    assert(sent is Err);
                    assert(client.header() == before_header);
                    assert(call_ensures(*fetch, (head,), got));
                    let e = got->Err_0;
                    assert(client.error() == Some(e));
                    assert(call_ensures(*fetch, (client.header().3,), Err::<Option<T>, StreamError>(e)));
                    assert(q0 == queue_after_ping(*old(client), since_last_ping, ping_interval, now));
                    assert(received_run(*old(cache), *fetch, *filter->0, old(client).header().3, ms, us));
                    assert(client.queue() == queue_after_ping(*old(client), since_last_ping, ping_interval, now)
                        + flat_updates(us));
                }
                return false;
            },
        }
    }
    proof {
        assert(q0 == queue_after_ping(*old(client), since_last_ping, ping_interval, now));
        assert(received_run(*old(cache), *fetch, *filter->0, old(client).header().3, ms, us));
        assert(client.queue() == queue_after_ping(*old(client), since_last_ping, ping_interval, now) + flat_updates(
            us,
        ));
    }
    true
}

} // verus!
