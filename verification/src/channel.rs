//! The plugin's message channel: a ring buffer of encoded messages with a
//! sorted index of the slots they belong to. Messages are evicted from the
//! head when the number of slots, the total size in bytes or the capacity of
//! the ring would be exceeded; subscribers read by position and learn when
//! they have fallen behind.
use vstd::prelude::*;
use vstd::arithmetic::power2::{pow2, lemma_pow2_pos, lemma_pow2_unfold, lemma2_to64};
use vstd::bits::{low_bits_mask, lemma_u64_low_bits_mask_is_mod};
use std::sync::Arc;
use crate::plugin::{ConfigChannel, PluginNotification, ProtobufEncoder};
use crate::encoding::{
    ProtobufMessage, SlotStatus, Timestamp, spec_message, message_fits, spec_notification,
    spec_message_slot, timestamp_now,
};

verus! {

/// Commitment carried by a slot status update, as far as the channel cares.
#[derive(Debug, Clone, Copy, PartialEq, Eq, Structural)]
pub enum SlotStatusKind {
    Processed,
    Confirmed,
    Rooted,
    Other,
}

/// The slot-status part of a `Slot` message.
#[derive(Debug, Clone, Copy, PartialEq, Eq, Structural)]
pub struct SlotUpdate {
    pub parent: Option<u64>,
    pub status: SlotStatusKind,
}

/// What the channel reads of a message besides its bytes.
#[derive(Debug, Clone, Copy, PartialEq, Eq, Structural)]
pub struct MessageInfo {
    pub slot: u64,
    pub notification: PluginNotification,
    pub slot_update: Option<SlotUpdate>,
}

/// Index entry of a slot: position of its first message, its parent and the
/// commitments already seen for it.
#[derive(Debug, Clone, Copy, PartialEq, Eq, Structural)]
pub struct SlotInfo {
    pub head: u64,
    pub parent_slot: Option<u64>,
    pub confirmed: bool,
    pub finalized: bool,
}

/// A cell of the ring buffer.
#[derive(Debug)]
pub struct Item {
    pos: u64,
    slot: u64,
    data: Option<(PluginNotification, Arc<Vec<u8>>)>,
    closed: bool,
}

/// Per-subscriber switches that drop notification kinds from a stream.
#[derive(Debug, Clone, Copy, PartialEq, Eq, Structural)]
pub struct RichatFilter {
    pub disable_accounts: bool,
    pub disable_transactions: bool,
    pub disable_entries: bool,
}

/// Why a subscription could not start.
#[derive(Debug, Clone, Copy, PartialEq, Eq, Structural)]
pub enum SubscribeError {
    NotInitialized,
    SlotNotAvailable { first_available: u64 },
}

/// Why a subscriber stopped receiving.
#[derive(Debug, Clone, Copy, PartialEq, Eq, Structural)]
pub enum RecvError {
    Lagged,
    Closed,
}

/// The message could not be stored: evicting the oldest slot emptied the
/// whole ring before a message of another slot was found, or the message
/// alone is larger than the byte limit.
#[derive(Debug, Clone, Copy, PartialEq, Eq, Structural)]
pub enum PushError {
    HeadOverflowTail,
    MessageTooLarge,
}

/// A subscriber's reading position and filter.
#[derive(Debug)]
pub struct Receiver {
    next: u64,
    finished: bool,
    enable_notifications_accounts: bool,
    enable_notifications_transactions: bool,
    enable_notifications_entries: bool,
}

/// The channel's shared state.
pub struct Sender {
    buffer: Vec<Item>,
    mask: u64,
    log2: Ghost<nat>,
    head: u64,
    tail: u64,
    slots: Vec<(u64, SlotInfo)>,
    slots_max: usize,
    bytes_total: u64,
    bytes_max: u64,
}

/// A message as seen by subscribers: its slot, kind and bytes.
pub type WindowEntry = (u64, PluginNotification, Seq<u8>);

/// Total number of bytes of a sequence of messages.
pub open spec fn sum_lens(w: Seq<WindowEntry>) -> nat
    decreases w.len(),
{
    if w.len() == 0 {
        0
    } else {
        sum_lens(w.drop_last()) + w.last().2.len()
    }
}

/// Keys of a slot index, in order.
pub open spec fn keys_sorted(s: Seq<(u64, SlotInfo)>) -> bool {
    forall|i: int, j: int| 0 <= i < j < s.len() ==> s[i].0 < s[j].0
}

/// Whether slot `k` has an entry in `s`.
pub open spec fn has_key(s: Seq<(u64, SlotInfo)>, k: u64) -> bool {
    exists|i: int| 0 <= i < s.len() && s[i].0 == k
}

/// The entry of slot `k` in `s` (meaningful when `has_key(s, k)`).
pub open spec fn get_key(s: Seq<(u64, SlotInfo)>, k: u64) -> SlotInfo {
    s[choose|i: int| 0 <= i < s.len() && s[i].0 == k].1
}

/// `a` is `b` with some of its first entries removed.
pub open spec fn is_suffix(a: Seq<(u64, SlotInfo)>, b: Seq<(u64, SlotInfo)>) -> bool {
    exists|j: int| 0 <= j <= b.len() && a == b.subrange(j, b.len() as int)
}

/// The entry of a slot after a message of that slot: a slot update records
/// the parent it names and the commitment it reaches.
pub open spec fn updated_slot_info(base: SlotInfo, update: Option<SlotUpdate>) -> SlotInfo {
    match update {
        None => base,
        Some(u) => SlotInfo {
            head: base.head,
            parent_slot: if u.parent is Some {
                u.parent
            } else {
                base.parent_slot
            },
            confirmed: base.confirmed || u.status == SlotStatusKind::Confirmed,
            finalized: base.finalized || u.status == SlotStatusKind::Rooted,
        },
    }
}

/// The entry a slot has before a message at position `pos` is recorded: its
/// current entry, or a fresh one starting at `pos`.
pub open spec fn slot_info_before(index: Seq<(u64, SlotInfo)>, slot: u64, pos: u64) -> SlotInfo {
    if has_key(index, slot) {
        get_key(index, slot)
    } else {
        SlotInfo { head: pos, parent_slot: None, confirmed: false, finalized: false }
    }
}

/// The slot index with every slot up to `upto` removed.
pub open spec fn keys_above(s: Seq<(u64, SlotInfo)>, upto: u64) -> Seq<(u64, SlotInfo)> {
    s.filter(|e: (u64, SlotInfo)| e.0 > upto)
}

/// Where slot `k` sits in `s` (meaningful when `has_key(s, k)`).
pub open spec fn key_index(s: Seq<(u64, SlotInfo)>, k: u64) -> int {
    choose|i: int| 0 <= i < s.len() && s[i].0 == k
}

/// The slot index after a message of `slot` is recorded at position `pos`:
/// the slot's entry updated in place, or a new entry inserted in order.
pub open spec fn recorded_index(
    index: Seq<(u64, SlotInfo)>,
    slot: u64,
    pos: u64,
    update: Option<SlotUpdate>,
) -> Seq<(u64, SlotInfo)> {
    let e = (slot, updated_slot_info(slot_info_before(index, slot, pos), update));
    if has_key(index, slot) {
        index.update(key_index(index, slot), e)
    } else {
        index.insert(count_below(index, slot) as int, e)
    }
}

/// Offset of the first message at or after `from` that is not of `slot`;
/// the window's length when there is none.
pub open spec fn run_end(w: Seq<WindowEntry>, from: int, slot: u64) -> int
    decreases w.len() - from,
{
    if from >= w.len() {
        w.len() as int
    } else if w[from].0 != slot {
        from
    } else {
        run_end(w, from + 1, slot)
    }
}

/// Offset of the first message at or after `from` from which the rest of
/// the window and `extra` more bytes fit `max` bytes.
pub open spec fn bytes_start(w: Seq<WindowEntry>, from: int, extra: nat, max: nat) -> int
    decreases w.len() - from,
{
    if from >= w.len() || sum_lens(w.subrange(from, w.len() as int)) + extra <= max {
        from
    } else {
        bytes_start(w, from + 1, extra, max)
    }
}

/// The slot index once each dropped message, in order, removed the slots
/// up to its own.
pub open spec fn keys_above_all(index: Seq<(u64, SlotInfo)>, dropped: Seq<WindowEntry>) -> Seq<(u64, SlotInfo)>
    decreases dropped.len(),
{
    if dropped.len() == 0 {
        index
    } else {
        keys_above(keys_above_all(index, dropped.drop_last()), dropped.last().0)
    }
}

/// The observable state of a channel: the position of its oldest message,
/// the kept messages, and the slot index.
pub type ChannelState = (nat, Seq<WindowEntry>, Seq<(u64, SlotInfo)>);

/// Storing one message, or why it cannot be stored. A message larger than
/// the byte limit is refused. Otherwise its slot is recorded; when that
/// makes one slot too many, the oldest slot is dropped together with the
/// messages before its first one and the run of its own messages that
/// follows (storing fails when that run reaches the tail); then the fewest
/// oldest messages are dropped for the bytes to fit, and one more when the
/// ring is full. Every dropped message also removes from the index the
/// slots up to its own.
pub open spec fn push_step(
    st: ChannelState,
    cap: nat,
    max_slots: nat,
    max_bytes: nat,
    info: MessageInfo,
    data: Seq<u8>,
) -> Result<ChannelState, PushError> {
    let head = st.0;
    let w = st.1;
    let tail = head + w.len();
    if data.len() > max_bytes {
        Err(PushError::MessageTooLarge)
    } else {
        let index1 = recorded_index(st.2, info.slot, tail as u64, info.slot_update);
        let over = index1.len() > max_slots;
        let first = index1[0];
        let from: int = if first.1.head > head {
            first.1.head - head
        } else {
            0
        };
        let hs: int = if over {
            run_end(w, from, first.0)
        } else {
            0
        };
        if over && hs == w.len() {
            Err(PushError::HeadOverflowTail)
        } else {
            let index2 = if over {
                index1.drop_first()
            } else {
                index1
            };
            let w1 = w.subrange(hs, w.len() as int);
            let hb = bytes_start(w1, 0, data.len(), max_bytes);
            let hc: int = if w1.len() - hb == cap {
                1
            } else {
                0
            };
            let dropped = hs + hb + hc;
            Ok(
                (
                    (head + dropped) as nat,
                    w.subrange(dropped, w.len() as int).push((info.slot, info.notification, data)),
                    keys_above_all(index2, w.take(dropped)),
                ),
            )
        }
    }
}

impl Sender {
    /// The observable state: head position, kept messages, slot index.
    pub closed spec fn state(&self) -> ChannelState {
        (self.head as nat, self.window(), self.slots@)
    }

    /// Number of cells of the ring.
    pub closed spec fn cap(&self) -> nat {
        self.buffer@.len()
    }

    /// Position of the oldest message kept.
    pub closed spec fn head_pos(&self) -> u64 {
        self.head
    }

    /// Position the next message will take.
    pub closed spec fn tail_pos(&self) -> u64 {
        self.tail
    }

    /// The slot index, sorted by slot.
    pub closed spec fn slot_index(&self) -> Seq<(u64, SlotInfo)> {
        self.slots@
    }

    /// Limit on the number of indexed slots.
    pub closed spec fn max_slots(&self) -> nat {
        self.slots_max as nat
    }

    /// Limit on the total size of the kept messages.
    pub closed spec fn max_bytes(&self) -> nat {
        self.bytes_max as nat
    }

    /// Whether the channel was closed.
    pub closed spec fn is_closed(&self) -> bool {
        self.buffer@[0].closed
    }

    /// The cell that holds position `p`.
    pub closed spec fn idx(&self, p: int) -> int {
        p % (self.buffer@.len() as int)
    }

    /// The message at position `p` of the window.
    pub closed spec fn entry_at(&self, p: int) -> WindowEntry {
        let item = self.buffer@[self.idx(p)];
        let d = item.data.unwrap();
        (item.slot, d.0, d.1@)
    }

    /// The kept messages, oldest first: positions `head_pos()..tail_pos()`.
    pub closed spec fn window(&self) -> Seq<WindowEntry> {
        Seq::new((self.tail - self.head) as nat, |i: int| self.entry_at(self.head + i))
    }

    /// Shape of the ring: capacity, mask, head and tail, and which position
    /// each cell holds.
    pub closed spec fn ring_ok(&self) -> bool {
        &&& self.log2@ < 64
        &&& self.buffer@.len() == pow2(self.log2@)
        &&& self.buffer@.len() <= usize::MAX
        &&& self.mask == low_bits_mask(self.log2@) as u64
        &&& self.cap() <= self.tail
        &&& self.head <= self.tail
        &&& self.tail - self.head <= self.cap()
        &&& forall|i: int|
            0 <= i < self.cap() ==> {
                let it = #[trigger] self.buffer@[i];
                &&& (it.pos as int) % (self.cap() as int) == i
                &&& self.tail - self.cap() <= it.pos < self.tail
                &&& (it.data is Some <==> it.pos >= self.head)
                &&& it.closed == self.buffer@[0].closed
            }
    }

    /// Shape of the slot index: sorted by slot, heads not past the tail,
    /// slots below `u64::MAX`.
    pub closed spec fn index_ok(&self) -> bool {
        &&& keys_sorted(self.slots@)
        &&& forall|i: int|
            0 <= i < self.slots@.len() ==> {
                let e = #[trigger] self.slots@[i];
                &&& e.1.head <= self.tail
                &&& e.0 < u64::MAX
            }
    }

    /// Structural invariant of the channel.
    pub closed spec fn wf(&self) -> bool {
        &&& self.ring_ok()
        &&& self.index_ok()
        &&& self.bytes_total == sum_lens(self.window())
        &&& self.bytes_total <= self.bytes_max
        &&& self.slots@.len() <= self.slots_max
    }
}

/// `x` and `y` have the same remainder and lie less than `m` apart: equal.
proof fn lemma_mod_unique(x: int, y: int, m: int)
    requires
        0 < m,
        0 <= y <= x < y + m,
        x % m == y % m,
    ensures
        x == y,
{
    vstd::arithmetic::div_mod::lemma_mod_equivalence(x, y, m);
    vstd::arithmetic::div_mod::lemma_small_mod((x - y) as nat, m as nat);
}

/// `n` is a power of two.
pub open spec fn is_power_of_two(n: nat) -> bool {
    exists|k: nat| n == pow2(k)
}

/// Smallest power of two not below `n`, with its exponent.
pub(crate) fn next_power_of_two(n: usize) -> (r: (usize, Ghost<nat>))
    requires
        n <= usize::MAX / 2 + 1,
    ensures
        r.0 == pow2(r.1@),
        r.1@ < 64,
        n <= r.0,
        r.1@ == 0 || pow2((r.1@ - 1) as nat) < n,
{
    let mut p: usize = 1;
    let ghost mut k: nat = 0;
    proof {
        lemma2_to64();
    }
    while p < n
        invariant
            p == pow2(k),
            p >= 1,
            k < 64,
            n <= usize::MAX / 2 + 1,
            k == 0 || pow2((k - 1) as nat) < n,
        decreases 64 - k,
    {
        proof {
            lemma_pow2_unfold(k + 1);
            lemma2_to64();
            if k >= 63 {
                if k > 63 {
                    vstd::arithmetic::power2::lemma_pow2_strictly_increases(63, k);
                }
                assert(false);
            }
        }
        p = p * 2;
        proof {
            k = k + 1;
        }
    }
    (p, Ghost(k))
}

impl Sender {
    /// A channel of `max_messages` rounded up to a power of two cells, empty,
    /// with head and tail at the capacity.
    pub fn new(config: ConfigChannel) -> (s: Sender)
        requires
            config.max_messages <= usize::MAX / 2 + 1,
        ensures
            s.wf(),
            is_power_of_two(s.cap()),
            s.cap() >= config.max_messages,
            s.cap() == 1 || s.cap() / 2 < config.max_messages,
            s.head_pos() == s.cap(),
            s.tail_pos() == s.cap(),
            s.window().len() == 0,
            s.slot_index().len() == 0,
            s.max_slots() == config.max_slots,
            s.max_bytes() == config.max_bytes,
            !s.is_closed(),
    {
        let (max_messages, Ghost(k)) = next_power_of_two(config.max_messages);
        proof {
            lemma_pow2_pos(k);
            if k > 0 {
                lemma_pow2_unfold(k);
            }
            lemma2_to64();
            if k < 63 {
                vstd::arithmetic::power2::lemma_pow2_strictly_increases(k, 63);
            }
        }
        let mut buffer: Vec<Item> = Vec::with_capacity(max_messages);
        let mut i: usize = 0;
        while i < max_messages
            invariant
                i <= max_messages,
                max_messages == pow2(k),
                max_messages <= pow2(63),
                max_messages <= usize::MAX,
                buffer@.len() == i,
                forall|j: int|
                    0 <= j < i ==> {
                        let it = #[trigger] buffer@[j];
                        &&& it.pos == j
                        &&& it.data is None
                        &&& !it.closed
                    },
            decreases max_messages - i,
        {
            buffer.push(Item { pos: i as u64, slot: 0, data: None, closed: false });
            i = i + 1;
        }
        let s = Sender {
            buffer,
            mask: (max_messages - 1) as u64,
            log2: Ghost(k),
            head: max_messages as u64,
            tail: max_messages as u64,
            slots: Vec::new(),
            slots_max: config.max_slots,
            bytes_total: 0,
            bytes_max: config.max_bytes,
        };
        proof {
            assert forall|j: int| 0 <= j < s.cap() implies ((#[trigger] s.buffer@[j]).pos as int) % (s.cap() as int) == j by {
                vstd::arithmetic::div_mod::lemma_small_mod(j as nat, s.cap());
            }
            assert(s.window() =~= Seq::<WindowEntry>::empty());
            assert(s.cap() == pow2(k));
        }
        s
    }

    /// The cell of position `pos`: its remainder modulo the capacity.
    fn get_idx(&self, pos: u64) -> (i: usize)
        requires
            self.ring_ok(),
        ensures
            i == self.idx(pos as int),
            i < self.cap(),
    {
        proof {
            lemma_u64_low_bits_mask_is_mod(pos, self.log2@);
            lemma_pow2_pos(self.log2@);
            lemma2_to64();
            if self.log2@ < 63 {
                vstd::arithmetic::power2::lemma_pow2_strictly_increases(self.log2@, 63);
            }
            assert(pos % (pow2(self.log2@) as u64) == (pos as int) % (self.cap() as int));
        }
        (pos & self.mask) as usize
    }

    /// The cell that holds position `p` of the last `cap` positions records
    /// exactly `p`.
    proof fn lemma_item_pos(&self, p: int)
        requires
            self.ring_ok(),
            self.tail - self.cap() <= p < self.tail,
        ensures
            0 <= self.idx(p) < self.cap(),
            self.buffer@[self.idx(p)].pos == p,
    {
        lemma_pow2_pos(self.log2@);
        let m = self.cap() as int;
        let i = self.idx(p);
        let q = self.buffer@[i].pos as int;
        assert(q % m == i);
        vstd::arithmetic::div_mod::lemma_mod_twice(p, m);
        if q >= p {
            lemma_mod_unique(q, p, m);
        } else {
            lemma_mod_unique(p, q, m);
        }
    }

    /// Position of slot `slot` in the index, if it has an entry.
    fn find_slot(&self, slot: u64) -> (r: Option<usize>)
        requires
            keys_sorted(self.slots@),
        ensures
            match r {
                Some(i) => i < self.slots@.len() && self.slots@[i as int].0 == slot,
                None => !has_key(self.slots@, slot),
            },
    {
        let mut i: usize = 0;
        while i < self.slots.len()
            invariant
                i <= self.slots@.len(),
                forall|j: int| 0 <= j < i ==> self.slots@[j].0 != slot,
            decreases self.slots@.len() - i,
        {
            if self.slots[i].0 == slot {
                return Some(i);
            }
            i = i + 1;
        }
        None
    }

    /// The smallest indexed slot.
    fn first_key(&self) -> (r: Option<u64>)
        requires
            keys_sorted(self.slots@),
        ensures
            self.slots@.len() == 0 <==> r is None,
            r matches Some(k) ==> k == self.slots@[0].0,
    {
        if self.slots.len() == 0 {
            None
        } else {
            Some(self.slots[0].0)
        }
    }

    /// Two positions among the last `cap` ones live in different cells.
    proof fn lemma_idx_distinct(&self, p: int, q: int)
        requires
            self.ring_ok(),
            self.tail - self.cap() <= p < self.tail,
            self.tail - self.cap() <= q < self.tail,
            p != q,
        ensures
            self.idx(p) != self.idx(q),
    {
        self.lemma_item_pos(p);
        self.lemma_item_pos(q);
    }

    /// Drops the oldest message and returns its slot.
    fn pop_head(&mut self) -> (slot: u64)
        requires
            old(self).ring_ok(),
            old(self).head < old(self).tail,
            old(self).bytes_total >= sum_lens(old(self).window()),
        ensures
            final(self).ring_ok(),
            final(self).head == old(self).head + 1,
            final(self).tail == old(self).tail,
            final(self).slots == old(self).slots,
            final(self).slots_max == old(self).slots_max,
            final(self).bytes_max == old(self).bytes_max,
            final(self).log2 == old(self).log2,
            final(self).cap() == old(self).cap(),
            final(self).is_closed() == old(self).is_closed(),
            final(self).window() == old(self).window().drop_first(),
            final(self).bytes_total == old(self).bytes_total - old(self).window()[0].2.len(),
            slot == old(self).window()[0].0,
    {
        let ghost w0 = self.window();
        let idx = self.get_idx(self.head);
        proof {
            self.lemma_item_pos(self.head as int);
            lemma_sum_first(w0);
            assert(w0[0] == self.entry_at(self.head as int));
        }
        let pos = self.buffer[idx].pos;
        let slot = self.buffer[idx].slot;
        let closed = self.buffer[idx].closed;
        let len: u64 = match &self.buffer[idx].data {
            Some((_, d)) => d.len() as u64,
            None => 0,
        };
        let ghost old_self = *self;
        self.buffer[idx] = Item { pos, slot, data: None, closed };
        self.bytes_total = self.bytes_total - len;
        self.head = self.head + 1;
        proof {
            assert forall|i: int| 0 <= i < self.cap() implies {
                let it = #[trigger] self.buffer@[i];
                &&& (it.pos as int) % (self.cap() as int) == i
                &&& self.tail - self.cap() <= it.pos < self.tail
                &&& (it.data is Some <==> it.pos >= self.head)
                &&& it.closed == self.buffer@[0].closed
            } by {
                let it0 = old_self.buffer@[i];
                assert(old_self.tail - old_self.cap() <= it0.pos < old_self.tail);
                if i != idx {
                    old_self.lemma_item_pos(it0.pos as int);
                    if it0.pos == old_self.head {
                        assert(old_self.idx(it0.pos as int) == i);
                    }
                }
                assert(old_self.buffer@[0].closed == it0.closed);
            }
            assert forall|k: int| 0 <= k < self.window().len() implies self.window()[k]
                == w0.drop_first()[k] by {
                let p = self.head + k;
                old_self.lemma_idx_distinct(p, old_self.head as int);
                assert(self.entry_at(p) == old_self.entry_at(p));
            }
            assert(self.window() =~= w0.drop_first());
        }
        slot
    }

    /// Removes from the index every slot up to `remove_upto`, starting from
    /// `first_slot` or from the smallest indexed slot; nothing when
    /// `first_slot` is past `remove_upto`.
    fn remove_slots(&mut self, first_slot: Option<u64>, remove_upto: u64)
        requires
            keys_sorted(old(self).slots@),
        ensures
            final(self).slots@ == (if first_slot matches Some(f) && f > remove_upto {
                old(self).slots@
            } else {
                keys_above(old(self).slots@, remove_upto)
            }),
            keys_sorted(final(self).slots@),
            is_suffix(final(self).slots@, old(self).slots@),
            final(self).buffer == old(self).buffer,
            final(self).head == old(self).head,
            final(self).tail == old(self).tail,
            final(self).mask == old(self).mask,
            final(self).log2 == old(self).log2,
            final(self).slots_max == old(self).slots_max,
            final(self).bytes_total == old(self).bytes_total,
            final(self).bytes_max == old(self).bytes_max,
    {
        if let Some(first) = first_slot {
            if first > remove_upto {
                proof {
                    assert(self.slots@ == old(self).slots@.subrange(0, old(self).slots@.len() as int));
                }
                return;
            }
        }
        let ghost s0 = self.slots@;
        let ghost mut j: int = 0;
        while self.slots.len() > 0 && self.slots[0].0 <= remove_upto
            invariant
                0 <= j <= s0.len(),
                self.slots@ == s0.subrange(j, s0.len() as int),
                forall|i: int| 0 <= i < j ==> s0[i].0 <= remove_upto,
                keys_sorted(s0),
                self.buffer == old(self).buffer,
                self.head == old(self).head,
                self.tail == old(self).tail,
                self.mask == old(self).mask,
                self.log2 == old(self).log2,
                self.slots_max == old(self).slots_max,
                self.bytes_total == old(self).bytes_total,
                self.bytes_max == old(self).bytes_max,
            decreases self.slots@.len(),
        {
            self.slots.remove(0);
            proof {
                j = j + 1;
                assert(self.slots@ =~= s0.subrange(j, s0.len() as int));
            }
        }
        proof {
            assert forall|i: int| j <= i < s0.len() implies s0[i].0 > remove_upto by {
                assert(s0[j].0 > remove_upto);
                if i > j {
                    assert(s0[j].0 < s0[i].0);
                }
            }
            lemma_filter_split(s0, remove_upto, j);
            assert forall|a: int, b: int| 0 <= a < b < self.slots@.len() implies self.slots@[a].0
                < self.slots@[b].0 by {
                assert(self.slots@[a] == s0[a + j]);
                assert(self.slots@[b] == s0[b + j]);
            }
        }
    }

    /// `self` is `prev` with messages dropped from the head and entries
    /// dropped from the front of the slot index; the rest is unchanged.
    closed spec fn evicted_from(&self, prev: Sender) -> bool {
        &&& self.ring_ok()
        &&& self.index_ok()
        &&& self.tail == prev.tail
        &&& self.bytes_max == prev.bytes_max
        &&& self.slots_max == prev.slots_max
        &&& self.log2 == prev.log2
        &&& self.cap() == prev.cap()
        &&& self.is_closed() == prev.is_closed()
        &&& prev.head <= self.head <= self.tail
        &&& self.window() == prev.window().subrange(
            self.head - prev.head,
            prev.window().len() as int,
        )
        &&& is_suffix(self.slots@, prev.slots@)
        &&& self.bytes_total == sum_lens(self.window())
        &&& self.bytes_total <= self.bytes_max
    }

    proof fn lemma_evicted_refl(s: Sender)
        requires
            s.ring_ok(),
            s.index_ok(),
            s.bytes_total == sum_lens(s.window()),
            s.bytes_total <= s.bytes_max,
        ensures
            s.evicted_from(s),
    {
        assert(s.window().subrange(0, s.window().len() as int) =~= s.window());
        assert(s.slots@ == s.slots@.subrange(0, s.slots@.len() as int));
    }

    proof fn lemma_evicted_trans(a: Sender, b: Sender, c: Sender)
        requires
            a.evicted_from(b),
            b.evicted_from(c),
        ensures
            a.evicted_from(c),
    {
        lemma_suffix_trans(a.slots@, b.slots@, c.slots@);
        assert(a.window() =~= c.window().subrange(a.head - c.head, c.window().len() as int));
    }

    /// An index that is a suffix of a well-shaped one is well shaped.
    proof fn lemma_suffix_index_ok(a: Sender, b: Sender)
        requires
            b.index_ok(),
            is_suffix(a.slots@, b.slots@),
            a.tail == b.tail,
        ensures
            a.index_ok(),
    {
        let j = choose|j: int| 0 <= j <= b.slots@.len() && a.slots@ == b.slots@.subrange(j, b.slots@.len() as int);
        assert forall|x: int, y: int| 0 <= x < y < a.slots@.len() implies a.slots@[x].0 < a.slots@[y].0 by {
            assert(a.slots@[x] == b.slots@[x + j]);
            assert(a.slots@[y] == b.slots@[y + j]);
        }
        assert forall|i: int| 0 <= i < a.slots@.len() implies {
            let e = #[trigger] a.slots@[i];
            &&& e.1.head <= a.tail
            &&& e.0 < u64::MAX
        } by {
            assert(a.slots@[i] == b.slots@[i + j]);
        }
    }

    /// Drops the oldest message; with `prune`, then removes from the index
    /// the slots up to that message's slot (from `first_slot` on, when given).
    fn drop_head(&mut self, prune: bool, first_slot: Option<u64>) -> (slot: u64)
        requires
            old(self).ring_ok(),
            old(self).index_ok(),
            old(self).head < old(self).tail,
            old(self).bytes_total == sum_lens(old(self).window()),
            old(self).bytes_total <= old(self).bytes_max,
        ensures
            final(self).evicted_from(*old(self)),
            final(self).head == old(self).head + 1,
            slot == old(self).window()[0].0,
            !prune ==> final(self).slots == old(self).slots,
            prune ==> final(self).slots@ == (if first_slot matches Some(f) && f > slot {
                old(self).slots@
            } else {
                keys_above(old(self).slots@, slot)
            }),
            final(self).bytes_total <= old(self).bytes_total,
    {
        let ghost w = self.window();
        let slot = self.pop_head();
        let ghost wp = self.window();
        if prune {
            self.remove_slots(first_slot, slot);
        }
        proof {
            assert(self.window() =~= wp);
            lemma_sum_first(w);
            assert(w.drop_first() =~= w.subrange(1, w.len() as int));
            if !prune {
                assert(self.slots@ == old(self).slots@.subrange(0, old(self).slots@.len() as int));
            }
            Self::lemma_suffix_index_ok(*self, *old(self));
        }
        slot
    }

    /// When one slot more than allowed is indexed, drops the oldest slot, the
    /// messages before its first one (removing the slots they end, from the
    /// next slot on) and then the run of its own messages at the head. Fails
    /// when that run reaches the tail.
    fn evict_slots(&mut self) -> (r: Result<(), PushError>)
        requires
            old(self).ring_ok(),
            old(self).index_ok(),
            old(self).bytes_total == sum_lens(old(self).window()),
            old(self).bytes_total <= old(self).bytes_max,
            old(self).slots@.len() <= old(self).slots_max + 1,
        ensures
            final(self).evicted_from(*old(self)),
            r is Ok ==> final(self).slots@.len() <= final(self).slots_max,
            r is Err ==> r == Err::<(), PushError>(PushError::HeadOverflowTail),
            old(self).slots@.len() <= old(self).slots_max ==> r is Ok && *final(self) == *old(self),
            old(self).slots@.len() > old(self).slots_max ==> {
                let w0 = old(self).window();
                let first = old(self).slots@[0];
                let from: int = if first.1.head > old(self).head {
                    first.1.head - old(self).head
                } else {
                    0
                };
                let hs = run_end(w0, from, first.0);
                &&& (r is Err <==> hs == w0.len())
                &&& r is Ok ==> final(self).head == old(self).head + hs
                    && final(self).slots@ == keys_above_all(old(self).slots@.drop_first(), w0.take(hs))
            },
    {
        let ghost s0 = *self;
        let ghost w0 = s0.window();
        proof {
            Self::lemma_evicted_refl(s0);
        }
        if self.slots.len() > self.slots_max {
            let ghost before = *self;
            let (s, sinfo) = self.slots.remove(0);
            let ghost rest = s0.slots@.drop_first();
            proof {
                assert(before.slots@[0] == (s, sinfo));
                assert(self.slots@ == before.slots@.subrange(1, before.slots@.len() as int));
                assert(rest =~= self.slots@);
                lemma_suffix_trans(self.slots@, before.slots@, s0.slots@);
                lemma_suffix_contains(before.slots@, s0.slots@);
                Self::lemma_suffix_index_ok(*self, before);
                assert(self.window() =~= before.window());
                assert(w0.take(0) =~= Seq::<WindowEntry>::empty());
                assert forall|i: int| 0 <= i < rest.len() implies rest[i].0 > s by {
                    assert(s0.slots@[i + 1] == rest[i]);
                    assert(s0.slots@[0].0 < s0.slots@[i + 1].0);
                }
            }
            while self.head < sinfo.head
                invariant
                    s0 == *old(self),
                    w0 == s0.window(),
                    self.evicted_from(s0),
                    sinfo.head <= self.tail,
                    s < u64::MAX,
                    (s, sinfo) == s0.slots@[0],
                    s0.slots@.len() > 0,
                    self.slots@.len() < s0.slots@.len(),
                    rest == s0.slots@.drop_first(),
                    forall|i: int| 0 <= i < rest.len() ==> rest[i].0 > s,
                    self.slots@ == keys_above_all(rest, w0.take(self.head - s0.head)),
                    forall|e: (u64, SlotInfo)| self.slots@.contains(e) ==> rest.contains(e),
                    s0.head <= self.head <= (if sinfo.head > s0.head {
                        sinfo.head
                    } else {
                        s0.head
                    }),
                decreases sinfo.head - self.head,
            {
                let ghost b = *self;
                let ghost k: int = self.head - s0.head;
                let dropped = self.drop_head(true, Some(s + 1));
                proof {
                    Self::lemma_evicted_trans(*self, b, s0);
                    lemma_suffix_contains(self.slots@, b.slots@);
                    assert(b.window() == w0.subrange(k, w0.len() as int));
                    assert(dropped == w0[k].0);
                    lemma_keys_above_rest(b.slots@, rest, s);
                    lemma_keys_above_noop(b.slots@, s, dropped);
                    assert(w0.take(k + 1).drop_last() =~= w0.take(k));
                    assert(w0.take(k + 1).last() == w0[k]);
                }
            }
            let ghost from: int = self.head - s0.head;
            proof {
                assert(from == (if sinfo.head > s0.head {
                    sinfo.head - s0.head
                } else {
                    0
                }));
            }
            loop
                invariant
                    s0 == *old(self),
                    w0 == s0.window(),
                    s0.slots@.len() > s0.slots_max,
                    (s, sinfo) == s0.slots@[0],
                    self.evicted_from(s0),
                    self.slots@.len() < s0.slots@.len(),
                    self.slots@.len() <= s0.slots_max,
                    from <= self.head - s0.head,
                    rest == s0.slots@.drop_first(),
                    forall|i: int| 0 <= i < rest.len() ==> rest[i].0 > s,
                    self.slots@ == keys_above_all(rest, w0.take(self.head - s0.head)),
                    forall|e: (u64, SlotInfo)| self.slots@.contains(e) ==> rest.contains(e),
                    run_end(w0, self.head - s0.head, s) == run_end(w0, from, s),
                    from == (if sinfo.head > s0.head {
                        sinfo.head - s0.head
                    } else {
                        0
                    }),
                ensures
                    s0.slots@.len() > s0.slots_max,
                    self.evicted_from(s0),
                    self.slots@.len() <= s0.slots_max,
                    self.head < self.tail,
                    self.head - s0.head == run_end(w0, from, s),
                    self.slots@ == keys_above_all(rest, w0.take(self.head - s0.head)),
                decreases self.tail - self.head,
            {
                let ghost k: int = self.head - s0.head;
                if self.head >= self.tail {
                    proof {
                        assert(k == w0.len());
                        assert(run_end(w0, k, s) == w0.len());
                    }
                    return Err(PushError::HeadOverflowTail);
                }
                let idx = self.get_idx(self.head);
                proof {
                    assert(self.window()[0] == self.entry_at(self.head as int));
                    assert(self.window() == w0.subrange(k, w0.len() as int));
                    assert(self.window()[0] == w0[k]);
                }
                if self.buffer[idx].slot != s {
                    break;
                }
                let ghost b = *self;
                self.drop_head(false, None);
                proof {
                    Self::lemma_evicted_trans(*self, b, s0);
                    lemma_keys_above_rest(b.slots@, rest, s);
                    lemma_keys_above_noop(b.slots@, s, s);
                    assert(w0.take(k + 1).drop_last() =~= w0.take(k));
                    assert(w0.take(k + 1).last() == w0[k]);
                }
            }
        }
        Ok(())
    }

    /// Drops messages from the head until `extra` more bytes fit.
    fn evict_bytes(&mut self, extra: u64)
        requires
            old(self).ring_ok(),
            old(self).index_ok(),
            old(self).bytes_total == sum_lens(old(self).window()),
            old(self).bytes_total <= old(self).bytes_max,
            extra <= old(self).bytes_max,
        ensures
            final(self).evicted_from(*old(self)),
            final(self).bytes_total + extra <= final(self).bytes_max,
            final(self).head == old(self).head + bytes_start(old(self).window(), 0, extra as nat, old(self).bytes_max as nat),
            final(self).slots@ == keys_above_all(
                old(self).slots@,
                old(self).window().take(final(self).head - old(self).head),
            ),
    {
        let ghost s0 = *self;
        let ghost w0 = s0.window();
        proof {
            Self::lemma_evicted_refl(s0);
            assert(w0.take(0) =~= Seq::<WindowEntry>::empty());
        }
        while self.bytes_total > self.bytes_max - extra
            invariant
                self.evicted_from(s0),
                extra <= self.bytes_max,
                w0 == s0.window(),
                bytes_start(w0, self.head - s0.head, extra as nat, s0.bytes_max as nat) == bytes_start(
                    w0,
                    0,
                    extra as nat,
                    s0.bytes_max as nat,
                ),
                self.slots@ == keys_above_all(s0.slots@, w0.take(self.head - s0.head)),
            decreases self.tail - self.head,
        {
            proof {
                if self.head == self.tail {
                    assert(self.window().len() == 0);
                    assert(false);
                }
            }
            let ghost b = *self;
            let ghost k: int = self.head - s0.head;
            let dropped = self.drop_head(true, None);
            proof {
                Self::lemma_evicted_trans(*self, b, s0);
                assert(b.window() == w0.subrange(k, w0.len() as int));
                assert(dropped == w0[k].0);
                assert(sum_lens(w0.subrange(k, w0.len() as int)) + extra > s0.bytes_max);
                assert(w0.take(k + 1).drop_last() =~= w0.take(k));
                assert(w0.take(k + 1).last() == w0[k]);
            }
        }
        proof {
            let k: int = self.head - s0.head;
            assert(self.window() == w0.subrange(k, w0.len() as int));
        }
    }

    /// Records in the index the slot of a message about to be stored at the
    /// tail: a new entry starting at the tail when the slot has none, updated
    /// by the message's slot status.
    fn record_slot(&mut self, info: MessageInfo)
        requires
            old(self).index_ok(),
            info.slot < u64::MAX,
        ensures
            final(self).index_ok(),
            final(self).slots@ == recorded_index(old(self).slots@, info.slot, old(self).tail, info.slot_update),
            final(self).slots@.len() <= old(self).slots@.len() + 1,
            forall|e: (u64, SlotInfo)|
                #[trigger] final(self).slots@.contains(e) ==> {
                    &&& e.0 != info.slot ==> old(self).slots@.contains(e)
                    &&& e.0 == info.slot ==> e.1 == updated_slot_info(
                        slot_info_before(old(self).slots@, info.slot, old(self).tail),
                        info.slot_update,
                    )
                },
            final(self).buffer == old(self).buffer,
            final(self).head == old(self).head,
            final(self).tail == old(self).tail,
            final(self).mask == old(self).mask,
            final(self).log2 == old(self).log2,
            final(self).slots_max == old(self).slots_max,
            final(self).bytes_total == old(self).bytes_total,
            final(self).bytes_max == old(self).bytes_max,
    {
        let ghost s0 = *self;
        let pos = self.tail;
        let slot = info.slot;
        let i = self.slot_entry(slot, pos);
        let ghost pre_set = self.slots@;
        let entry = self.slots[i].1;
        let new_entry = match info.slot_update {
            None => entry,
            Some(u) => {
                let parent_slot = if u.parent.is_some() {
                    u.parent
                } else {
                    entry.parent_slot
                };
                let mut confirmed = entry.confirmed;
                let mut finalized = entry.finalized;
                if u.status == SlotStatusKind::Confirmed {
                    confirmed = true;
                } else if u.status == SlotStatusKind::Rooted {
                    finalized = true;
                }
                SlotInfo { head: entry.head, parent_slot, confirmed, finalized }
            },
        };
        self.slots.set(i, (slot, new_entry));
        proof {
            let mid = self.slots@;
            let base = slot_info_before(s0.slots@, slot, pos);
            s0.slots@.insert_ensures(
                i as int,
                (slot, SlotInfo { head: pos, parent_slot: None, confirmed: false, finalized: false }),
            );
            if has_key(s0.slots@, slot) {
                lemma_get_key(s0.slots@, i as int);
                lemma_key_index(s0.slots@, i as int);
                assert(mid =~= recorded_index(s0.slots@, slot, pos, info.slot_update));
            } else {
                assert forall|j: int| 0 <= j < i implies s0.slots@[j].0 < slot by {
                    assert(pre_set[j] == s0.slots@[j]);
                    assert(pre_set[j].0 < pre_set[i as int].0);
                }
                assert forall|j: int| i <= j < s0.slots@.len() implies s0.slots@[j].0 > slot by {
                    assert(pre_set[j + 1] == s0.slots@[j]);
                    assert(pre_set[i as int].0 < pre_set[j + 1].0);
                }
                lemma_count_sorted(s0.slots@, slot, i as int);
                assert(mid =~= recorded_index(s0.slots@, slot, pos, info.slot_update));
            }
            assert(entry == base);
            assert(new_entry == updated_slot_info(base, info.slot_update));
            assert forall|k: int| 0 <= k < mid.len() implies {
                let e = #[trigger] mid[k];
                &&& e.1.head <= self.tail
                &&& e.0 < u64::MAX
            } by {
                if k != i {
                    assert(mid[k] == pre_set[k]);
                    if has_key(s0.slots@, slot) {
                        assert(mid[k] == s0.slots@[k]);
                    } else if k < i {
                        assert(mid[k] == s0.slots@[k]);
                    } else {
                        assert(mid[k] == s0.slots@[k - 1]);
                    }
                }
            }
            assert forall|e: (u64, SlotInfo)| #[trigger] mid.contains(e) implies {
                &&& e.0 != info.slot ==> s0.slots@.contains(e)
                &&& e.0 == info.slot ==> e.1 == new_entry
            } by {
                let k = choose|k: int| 0 <= k < mid.len() && mid[k] == e;
                if k == i {
                } else {
                    assert(e.0 != slot);
                    assert(mid[k] == pre_set[k]);
                    if has_key(s0.slots@, slot) {
                        assert(s0.slots@[k] == e);
                    } else if k < i {
                        assert(s0.slots@[k] == e);
                    } else {
                        assert(s0.slots@[k - 1] == e);
                    }
                }
            }
        }
    }

    /// Makes the cell of the tail position free: when the ring is full, drops
    /// the oldest message (and the slots it ends) first. Returns that cell.
    fn free_tail_cell(&mut self) -> (idx: usize)
        requires
            old(self).ring_ok(),
            old(self).index_ok(),
            old(self).bytes_total == sum_lens(old(self).window()),
            old(self).bytes_total <= old(self).bytes_max,
        ensures
            final(self).evicted_from(*old(self)),
            final(self).head == (if old(self).tail - old(self).head == old(self).cap() {
                old(self).head + 1
            } else {
                old(self).head as int
            }),
            final(self).tail - final(self).head < final(self).cap(),
            final(self).slots@ == (if old(self).tail - old(self).head == old(self).cap() {
                keys_above(old(self).slots@, old(self).window()[0].0)
            } else {
                old(self).slots@
            }),
            idx == final(self).idx(final(self).tail as int),
            idx < final(self).cap(),
            final(self).bytes_total <= old(self).bytes_total,
    {
        let pos = self.tail;
        let idx = self.get_idx(pos);
        proof {
            Self::lemma_evicted_refl(*self);
            vstd::arithmetic::div_mod::lemma_mod_sub_multiples_vanish(pos as int, self.cap() as int);
            lemma_pow2_pos(self.log2@);
            self.lemma_item_pos(pos - self.cap());
            assert(self.idx(pos as int) == self.idx(pos - self.cap())) by {
                vstd::arithmetic::div_mod::lemma_mod_add_multiples_vanish(pos - self.cap(), self.cap() as int);
            }
        }
        if self.buffer[idx].data.is_some() {
            self.drop_head(true, None);
        }
        proof {
            self.lemma_item_pos(pos - self.cap());
        }
        idx
    }

    /// Writes a message into the free cell of the tail position and advances
    /// the tail.
    fn store_at_tail(&mut self, idx: usize, slot: u64, notification: PluginNotification, data: Vec<u8>)
        requires
            old(self).ring_ok(),
            old(self).index_ok(),
            old(self).tail < u64::MAX,
            old(self).tail - old(self).head < old(self).cap(),
            idx == old(self).idx(old(self).tail as int),
            idx < old(self).cap(),
            old(self).bytes_total == sum_lens(old(self).window()),
            old(self).bytes_total + data@.len() <= old(self).bytes_max,
        ensures
            final(self).ring_ok(),
            final(self).index_ok(),
            final(self).tail == old(self).tail + 1,
            final(self).head == old(self).head,
            final(self).slots == old(self).slots,
            final(self).slots_max == old(self).slots_max,
            final(self).bytes_max == old(self).bytes_max,
            final(self).log2 == old(self).log2,
            final(self).cap() == old(self).cap(),
            final(self).is_closed() == old(self).is_closed(),
            final(self).window() == old(self).window().push((slot, notification, data@)),
            final(self).bytes_total == sum_lens(final(self).window()),
            final(self).bytes_total <= final(self).bytes_max,
    {
        let pos = self.tail;
        let closed = self.buffer[idx].closed;
        let ghost pre = *self;
        let ghost wp = self.window();
        proof {
            lemma_pow2_pos(self.log2@);
            vstd::arithmetic::div_mod::lemma_mod_sub_multiples_vanish(pos as int, self.cap() as int);
            assert(self.idx(pos as int) == self.idx(pos - self.cap())) by {
                vstd::arithmetic::div_mod::lemma_mod_add_multiples_vanish(pos - self.cap(), self.cap() as int);
            }
            pre.lemma_item_pos(pos - pre.cap());
        }
        self.bytes_total = self.bytes_total + data.len() as u64;
        self.tail = self.tail + 1;
        self.buffer.set(idx, Item { pos, slot, data: Some((notification, Arc::new(data))), closed });
        proof {
            assert forall|k: int| 0 <= k < self.cap() implies {
                let it = #[trigger] self.buffer@[k];
                &&& (it.pos as int) % (self.cap() as int) == k
                &&& self.tail - self.cap() <= it.pos < self.tail
                &&& (it.data is Some <==> it.pos >= self.head)
                &&& it.closed == self.buffer@[0].closed
            } by {
                let it0 = pre.buffer@[k];
                if k != idx {
                    pre.lemma_item_pos(it0.pos as int);
                    if it0.pos == pos - pre.cap() {
                        assert(pre.idx(it0.pos as int) == k);
                    }
                }
                assert(pre.buffer@[0].closed == it0.closed);
                assert(pre.buffer@[idx as int].closed == pre.buffer@[0].closed);
            }
            assert forall|k: int| 0 <= k < wp.len() implies self.window()[k] == wp[k] by {
                let p = pre.head + k;
                pre.lemma_idx_distinct(p, pos - pre.cap());
                assert(self.entry_at(p) == pre.entry_at(p));
            }
            assert(self.window() =~= wp.push((slot, notification, data@)));
            lemma_sum_push(wp, (slot, notification, data@));
            assert forall|k: int| 0 <= k < self.slots@.len() implies {
                let e = #[trigger] self.slots@[k];
                &&& e.1.head <= self.tail
                &&& e.0 < u64::MAX
            } by {
                assert(pre.slots@[k] == self.slots@[k]);
            }
        }
    }

    /// Stores a message at the tail. First the slot index records the
    /// message's slot (and, for a slot update, its parent and commitment);
    /// then, while more slots are indexed than allowed, the oldest slot is
    /// dropped together with the messages before its first one and the run of
    /// its messages at the head; then messages are dropped from the head until
    /// the bytes fit, and one more when the ring is full.
    #[verifier::rlimit(100)]
    #[verifier::spinoff_prover]
    pub fn push_msg(&mut self, info: MessageInfo, data: Vec<u8>) -> (r: Result<(), PushError>)
        requires
            old(self).wf(),
            old(self).tail_pos() < u64::MAX,
            info.slot < u64::MAX,
        ensures
            (r == Err::<(), PushError>(PushError::MessageTooLarge)) <==> data@.len() > old(self).max_bytes(),
            r == Err::<(), PushError>(PushError::MessageTooLarge) ==> *final(self) == *old(self),
            data@.len() <= old(self).max_bytes() && old(self).slot_index().len() < old(self).max_slots()
                ==> r is Ok,
            r is Ok ==> final(self).slot_index().len() <= old(self).slot_index().len() + 1,
            match push_step(old(self).state(), old(self).cap(), old(self).max_slots(), old(self).max_bytes(), info, data@) {
                Ok(st) => r is Ok && final(self).head_pos() == st.0 && final(self).window() == st.1
                    && final(self).slot_index() == st.2,
                Err(e) => r == Err::<(), PushError>(e),
            },
            r is Ok ==> {
                &&& final(self).wf()
                &&& final(self).tail_pos() == old(self).tail_pos() + 1
                &&& old(self).head_pos() <= final(self).head_pos()
                &&& final(self).window() == old(self).window().push(
                    (info.slot, info.notification, data@),
                ).subrange(
                    final(self).head_pos() - old(self).head_pos(),
                    old(self).window().len() + 1 as int,
                )
                &&& final(self).cap() == old(self).cap()
                &&& final(self).max_slots() == old(self).max_slots()
                &&& final(self).max_bytes() == old(self).max_bytes()
                &&& final(self).is_closed() == old(self).is_closed()
                &&& forall|e: (u64, SlotInfo)|
                    #[trigger] final(self).slot_index().contains(e) ==> {
                        &&& e.0 != info.slot ==> old(self).slot_index().contains(e)
                        &&& e.0 == info.slot ==> e.1 == updated_slot_info(
                            slot_info_before(old(self).slot_index(), info.slot, old(self).tail_pos()),
                            info.slot_update,
                        )
                    }
            },
    {
        if data.len() as u64 > self.bytes_max {
            return Err(PushError::MessageTooLarge);
        }
        let ghost s0 = *self;
        let ghost w0 = self.window();
        let pos = self.tail;
        let slot = info.slot;
        self.record_slot(info);
        proof {
            assert(self.window() =~= w0);
        }
        let ghost s1 = *self;
        let ghost idx1 = s1.slots@;
        let ghost over = idx1.len() > s0.slots_max;
        let ghost first = idx1[0];
        let ghost from: int = if first.1.head > s0.head {
            first.1.head - s0.head
        } else {
            0
        };
        let ghost hs: int = if over {
            run_end(w0, from, first.0)
        } else {
            0
        };
        let ghost index2 = if over {
            idx1.drop_first()
        } else {
            idx1
        };
        proof {
            assert(s0.state().0 + s0.state().1.len() == s0.tail);
            assert(w0.take(0) =~= Seq::<WindowEntry>::empty());
        }
        match self.evict_slots() {
            Ok(()) => {},
            Err(e) => {
                return Err(e);
            },
        }
        let ghost s2 = *self;
        proof {
            assert(s2.head == s0.head + hs);
            assert(s2.slots@ == keys_above_all(index2, w0.take(hs)));
        }
        self.evict_bytes(data.len() as u64);
        proof {
            Self::lemma_evicted_trans(*self, s2, s1);
            lemma_suffix_contains(s2.slots@, s1.slots@);
        }
        let ghost s3 = *self;
        let ghost w1 = w0.subrange(hs, w0.len() as int);
        let ghost hb = bytes_start(w1, 0, data@.len(), s0.bytes_max as nat);
        proof {
            assert(s2.window() == w1);
            assert(s3.head == s2.head + hb);
        }
        let idx = self.free_tail_cell();
        proof {
            Self::lemma_evicted_trans(*self, s3, s1);
        }
        let ghost pre = *self;
        let ghost hc: int = if w1.len() - hb == s0.cap() {
            1
        } else {
            0
        };
        let ghost w2 = w1.subrange(hb, w1.len() as int);
        proof {
            assert(s3.window() == w2);
        }
        self.store_at_tail(idx, slot, info.notification, data);
        proof {
            lemma_suffix_contains(pre.slots@, s1.slots@);
            assert(self.window() =~= w0.push((info.slot, info.notification, data@)).subrange(
                self.head - s0.head,
                w0.len() + 1 as int,
            ));
            assert(self.head == s0.head + hs + hb + hc);
            lemma_dropped_index(index2, w0, w1, w2, hs, hb, hc, s2.slots@, s3.slots@, self.slots@);
            assert(self.window() =~= w0.subrange(hs + hb + hc, w0.len() as int).push(
                (info.slot, info.notification, data@),
            ));
        }
        Ok(())
    }

    /// Position in the index of slot `slot`, inserting an entry that starts
    /// at `pos` when there is none.
    fn slot_entry(&mut self, slot: u64, pos: u64) -> (i: usize)
        requires
            keys_sorted(old(self).slots@),
        ensures
            i < final(self).slots@.len(),
            i <= old(self).slots@.len(),
            final(self).slots@[i as int].0 == slot,
            keys_sorted(final(self).slots@),
            has_key(old(self).slots@, slot) ==> final(self).slots@ == old(self).slots@,
            !has_key(old(self).slots@, slot) ==> final(self).slots@ == old(self).slots@.insert(
                i as int,
                (slot, SlotInfo { head: pos, parent_slot: None, confirmed: false, finalized: false }),
            ),
            final(self).buffer == old(self).buffer,
            final(self).head == old(self).head,
            final(self).tail == old(self).tail,
            final(self).mask == old(self).mask,
            final(self).log2 == old(self).log2,
            final(self).slots_max == old(self).slots_max,
            final(self).bytes_total == old(self).bytes_total,
            final(self).bytes_max == old(self).bytes_max,
    {
        if let Some(i) = self.find_slot(slot) {
            return i;
        }
        let mut i: usize = 0;
        while i < self.slots.len() && self.slots[i].0 < slot
            invariant
                i <= self.slots@.len(),
                forall|j: int| 0 <= j < i ==> self.slots@[j].0 < slot,
            decreases self.slots@.len() - i,
        {
            i = i + 1;
        }
        let ghost s0 = self.slots@;
        let info = SlotInfo { head: pos, parent_slot: None, confirmed: false, finalized: false };
        self.slots.insert(i, (slot, info));
        proof {
            assert forall|a: int, b: int| 0 <= a < b < self.slots@.len() implies self.slots@[a].0
                < self.slots@[b].0 by {
                if i < s0.len() {
                    assert(s0[i as int].0 > slot);
                    if b > i + 1 {
                        assert(s0[i as int].0 <= s0[b - 1].0);
                    }
                }
                if a < i && b > i {
                    assert(s0[a].0 < slot);
                }
            }
        }
        i
    }
}

/// The size of a sequence of messages is the size of its first one plus the
/// size of the rest.
proof fn lemma_sum_first(w: Seq<WindowEntry>)
    requires
        w.len() > 0,
    ensures
        sum_lens(w) == w[0].2.len() + sum_lens(w.drop_first()),
    decreases w.len(),
{
    if w.len() > 1 {
        let d = w.drop_last();
        lemma_sum_first(d);
        assert(d.drop_first() =~= w.drop_first().drop_last());
        assert(w.drop_first().last() == w.last());
        assert(d[0] == w[0]);
        assert(sum_lens(w.drop_first()) == sum_lens(w.drop_first().drop_last()) + w.last().2.len());
        assert(sum_lens(w) == sum_lens(d) + w.last().2.len());
    } else {
        assert(w.drop_first() =~= Seq::<WindowEntry>::empty());
        assert(w.drop_last() =~= Seq::<WindowEntry>::empty());
        assert(sum_lens(w) == sum_lens(w.drop_last()) + w.last().2.len());
        assert(w.last() == w[0]);
    }
}

/// The size of a sequence of messages grows by the size of a pushed one.
proof fn lemma_sum_push(w: Seq<WindowEntry>, e: WindowEntry)
    ensures
        sum_lens(w.push(e)) == sum_lens(w) + e.2.len(),
{
    assert(w.push(e).drop_last() =~= w);
}

/// Removing from a list the elements that precede all kept ones, in order,
/// leaves the kept ones.
proof fn lemma_filter_split(s: Seq<(u64, SlotInfo)>, upto: u64, j: int)
    requires
        0 <= j <= s.len(),
        forall|i: int| 0 <= i < j ==> s[i].0 <= upto,
        forall|i: int| j <= i < s.len() ==> s[i].0 > upto,
    ensures
        keys_above(s, upto) == s.subrange(j, s.len() as int),
    decreases s.len(),
{
    reveal_with_fuel(Seq::filter, 1);
    if s.len() == 0 {
        assert(s.subrange(j, 0) =~= s);
    } else {
        let d = s.drop_last();
        if j < s.len() {
            lemma_filter_split(d, upto, j);
            assert(s.subrange(j, s.len() as int) =~= d.subrange(j, d.len() as int).push(s.last()));
        } else {
            lemma_filter_split(d, upto, d.len() as int);
            assert(d.subrange(d.len() as int, d.len() as int) =~= Seq::<(u64, SlotInfo)>::empty());
            assert(s.subrange(j, s.len() as int) =~= Seq::<(u64, SlotInfo)>::empty());
        }
    }
}

/// A suffix of a suffix is a suffix.
proof fn lemma_suffix_trans(a: Seq<(u64, SlotInfo)>, b: Seq<(u64, SlotInfo)>, c: Seq<(u64, SlotInfo)>)
    requires
        is_suffix(a, b),
        is_suffix(b, c),
    ensures
        is_suffix(a, c),
{
    let j1 = choose|j: int| 0 <= j <= b.len() && a == b.subrange(j, b.len() as int);
    let j2 = choose|j: int| 0 <= j <= c.len() && b == c.subrange(j, c.len() as int);
    assert(a == c.subrange(j1 + j2, c.len() as int));
}

/// Every entry of a suffix is an entry of the whole.
proof fn lemma_suffix_contains(a: Seq<(u64, SlotInfo)>, b: Seq<(u64, SlotInfo)>)
    requires
        is_suffix(a, b),
    ensures
        forall|e: (u64, SlotInfo)| a.contains(e) ==> b.contains(e),
        a.len() <= b.len(),
        keys_sorted(b) ==> keys_sorted(a),
{
    let j = choose|j: int| 0 <= j <= b.len() && a == b.subrange(j, b.len() as int);
    assert forall|e: (u64, SlotInfo)| a.contains(e) implies b.contains(e) by {
        let i = choose|i: int| 0 <= i < a.len() && a[i] == e;
        assert(b[i + j] == e);
    }
    if keys_sorted(b) {
        assert forall|x: int, y: int| 0 <= x < y < a.len() implies a[x].0 < a[y].0 by {
            assert(a[x] == b[x + j]);
            assert(a[y] == b[y + j]);
        }
    }
}

/// Removing the slots up to `v` changes nothing when every indexed slot is
/// above `s` and `v` is at most `s`; in general it is what removing from
/// the slot after `s` does.
proof fn lemma_keys_above_noop(x: Seq<(u64, SlotInfo)>, s: u64, v: u64)
    requires
        forall|e: (u64, SlotInfo)| x.contains(e) ==> e.0 > s,
    ensures
        v <= s ==> keys_above(x, v) == x,
        s < u64::MAX ==> (if (s + 1) as u64 > v {
            x
        } else {
            keys_above(x, v)
        }) == keys_above(x, v),
{
    if v <= s {
        assert forall|i: int| 0 <= i < x.len() implies x[i].0 > v by {
            assert(x.contains(x[i]));
        }
        lemma_filter_split(x, v, 0);
        assert(x.subrange(0, x.len() as int) =~= x);
    }
}

/// The index after the three evictions of a push is the index with the
/// slots of every dropped message removed.
proof fn lemma_dropped_index(
    index2: Seq<(u64, SlotInfo)>,
    w0: Seq<WindowEntry>,
    w1: Seq<WindowEntry>,
    w2: Seq<WindowEntry>,
    hs: int,
    hb: int,
    hc: int,
    slots2: Seq<(u64, SlotInfo)>,
    slots3: Seq<(u64, SlotInfo)>,
    slots4: Seq<(u64, SlotInfo)>,
)
    requires
        0 <= hs <= w0.len(),
        w1 == w0.subrange(hs, w0.len() as int),
        0 <= hb <= w1.len(),
        w2 == w1.subrange(hb, w1.len() as int),
        hc == 0 || (hc == 1 && w2.len() > 0),
        slots2 == keys_above_all(index2, w0.take(hs)),
        slots3 == keys_above_all(slots2, w1.take(hb)),
        slots4 == (if hc == 1 {
            keys_above(slots3, w2[0].0)
        } else {
            slots3
        }),
    ensures
        slots4 == keys_above_all(index2, w0.take(hs + hb + hc)),
{
    assert(w0.take(hs + hb + hc) =~= w0.take(hs) + w1.take(hb) + w2.take(hc));
    lemma_keys_above_all_append(index2, w0.take(hs), w1.take(hb));
    lemma_keys_above_all_append(index2, w0.take(hs) + w1.take(hb), w2.take(hc));
    let t = w2.take(hc);
    if hc == 1 {
        assert(t.drop_last() =~= Seq::<WindowEntry>::empty());
        assert(t.last() == w2[0]);
        assert(keys_above_all(slots3, t.drop_last()) == slots3);
        assert(keys_above_all(slots3, t) == keys_above(keys_above_all(slots3, t.drop_last()), t.last().0));
    } else {
        assert(t =~= Seq::<WindowEntry>::empty());
    }
    assert(keys_above_all(slots3, t) == slots4);
    assert(keys_above_all(index2, w0.take(hs) + w1.take(hb)) == slots3);
}

/// Dropping `a` and then `b` removes what dropping `a + b` removes.
proof fn lemma_keys_above_all_append(x: Seq<(u64, SlotInfo)>, a: Seq<WindowEntry>, b: Seq<WindowEntry>)
    ensures
        keys_above_all(x, a + b) == keys_above_all(keys_above_all(x, a), b),
    decreases b.len(),
{
    if b.len() == 0 {
        assert(a + b =~= a);
    } else {
        lemma_keys_above_all_append(x, a, b.drop_last());
        assert((a + b).drop_last() =~= a + b.drop_last());
        assert((a + b).last() == b.last());
    }
}

/// Entries taken from a list whose slots are all above `s` are above `s`.
proof fn lemma_keys_above_rest(x: Seq<(u64, SlotInfo)>, rest: Seq<(u64, SlotInfo)>, s: u64)
    requires
        forall|e: (u64, SlotInfo)| x.contains(e) ==> rest.contains(e),
        forall|i: int| 0 <= i < rest.len() ==> rest[i].0 > s,
    ensures
        forall|e: (u64, SlotInfo)| x.contains(e) ==> e.0 > s,
{
    assert forall|e: (u64, SlotInfo)| x.contains(e) implies e.0 > s by {
        assert(rest.contains(e));
        let i = choose|i: int| 0 <= i < rest.len() && rest[i] == e;
    }
}

/// In a sorted index, a key is found at its position.
proof fn lemma_key_index(s: Seq<(u64, SlotInfo)>, i: int)
    requires
        keys_sorted(s),
        0 <= i < s.len(),
    ensures
        key_index(s, s[i].0) == i,
{
    let j = key_index(s, s[i].0);
    assert(0 <= j < s.len() && s[j].0 == s[i].0);
    if j < i {
        assert(s[j].0 < s[i].0);
    } else if j > i {
        assert(s[i].0 < s[j].0);
    }
}

/// In a sorted index, the keys below `k` are exactly the first `i`.
proof fn lemma_count_sorted(s: Seq<(u64, SlotInfo)>, k: u64, i: int)
    requires
        0 <= i <= s.len(),
        forall|j: int| 0 <= j < i ==> s[j].0 < k,
        forall|j: int| i <= j < s.len() ==> s[j].0 > k,
    ensures
        count_below(s, k) == i,
    decreases s.len(),
{
    if s.len() > 0 {
        let d = s.drop_last();
        if i == s.len() {
            lemma_count_sorted(d, k, i - 1);
        } else {
            lemma_count_sorted(d, k, i);
        }
    }
}

/// In a sorted index, the entry of a key is the one found at its position.
proof fn lemma_get_key(s: Seq<(u64, SlotInfo)>, i: int)
    requires
        keys_sorted(s),
        0 <= i < s.len(),
    ensures
        has_key(s, s[i].0),
        get_key(s, s[i].0) == s[i].1,
{
    let j = choose|j: int| 0 <= j < s.len() && s[j].0 == s[i].0;
    assert(0 <= j < s.len() && s[j].0 == s[i].0);
    if j < i {
        assert(s[j].0 < s[i].0);
    } else if j > i {
        assert(s[i].0 < s[j].0);
    }
}


/// Whether a receiver with the given switches delivers notifications of kind `n`.
pub open spec fn notification_enabled(n: PluginNotification, accounts: bool, transactions: bool, entries: bool) -> bool {
    match n {
        PluginNotification::Account => accounts,
        PluginNotification::Transaction => transactions,
        PluginNotification::Entry => entries,
        _ => true,
    }
}

/// What a receive from position `next` gives, and the next position after it:
/// `Closed` on a closed channel; nothing yet at or past the tail; `Lagged`
/// when the position was overwritten (moving on when its cell is merely
/// empty); otherwise the first message from `next` on whose kind is enabled.
pub open spec fn recv_spec(
    window: Seq<WindowEntry>,
    head: int,
    tail: int,
    cap: int,
    closed: bool,
    next: int,
    filter: (bool, bool, bool),
) -> (Result<Option<Seq<u8>>, RecvError>, int)
    decreases tail - next,
{
    if closed {
        (Err(RecvError::Closed), next)
    } else if next >= tail {
        (Ok(None), next)
    } else if next < tail - cap {
        (Err(RecvError::Lagged), next)
    } else if next < head {
        (Err(RecvError::Lagged), next + 1)
    } else {
        let e = window[next - head];
        if notification_enabled(e.1, filter.0, filter.1, filter.2) {
            (Ok(Some(e.2)), next + 1)
        } else {
            recv_spec(window, head, tail, cap, closed, next + 1, filter)
        }
    }
}

impl Receiver {
    /// Position of the next message to read.
    pub closed spec fn next_pos(&self) -> u64 {
        self.next
    }

    /// Whether the stream ended with an error.
    pub closed spec fn is_finished(&self) -> bool {
        self.finished
    }

    /// The switches of accounts, transactions and entries.
    pub closed spec fn switches(&self) -> (bool, bool, bool) {
        (
            self.enable_notifications_accounts,
            self.enable_notifications_transactions,
            self.enable_notifications_entries,
        )
    }

    /// The outcome of a receive from this receiver's position on `sender`.
    pub open spec fn recv_outcome(&self, sender: &Sender) -> (Result<Option<Seq<u8>>, RecvError>, int) {
        recv_spec(
            sender.window(),
            sender.head_pos() as int,
            sender.tail_pos() as int,
            sender.cap() as int,
            sender.is_closed(),
            self.next_pos() as int,
            self.switches(),
        )
    }

    /// Reads the next message whose kind is enabled: `Ok(None)` when there
    /// is none yet, `Lagged` when the position was overwritten, `Closed`
    /// when the channel was closed.
    pub fn recv_ref(&mut self, sender: &Sender) -> (r: Result<Option<Arc<Vec<u8>>>, RecvError>)
        requires
            sender.wf(),
        ensures
            final(self).next_pos() == old(self).recv_outcome(sender).1,
            final(self).switches() == old(self).switches(),
            final(self).is_finished() == old(self).is_finished(),
            match r {
                Ok(Some(d)) => old(self).recv_outcome(sender).0 == Ok::<Option<Seq<u8>>, RecvError>(
                    Some(d@),
                ),
                Ok(None) => old(self).recv_outcome(sender).0 == Ok::<Option<Seq<u8>>, RecvError>(None),
                Err(e) => old(self).recv_outcome(sender).0 == Err::<Option<Seq<u8>>, RecvError>(e),
            },
            r matches Ok(Some(d)) ==> {
                let m = final(self).next_pos() - 1;
                let e = sender.window()[m - sender.head_pos()];
                &&& old(self).next_pos() <= m
                &&& sender.head_pos() <= m < sender.tail_pos()
                &&& d@ == e.2
                &&& (e.1 == PluginNotification::Account ==> old(self).switches().0)
                &&& (e.1 == PluginNotification::Transaction ==> old(self).switches().1)
                &&& (e.1 == PluginNotification::Entry ==> old(self).switches().2)
            },
    {
        loop
            invariant
                sender.wf(),
                self.switches() == old(self).switches(),
                self.finished == old(self).finished,
                self.next == old(self).next || self.next <= sender.tail,
                old(self).recv_outcome(sender) == self.recv_outcome(sender),
            decreases sender.tail - self.next,
        {
            let idx = sender.get_idx(self.next);
            proof {
                sender.lemma_pos_in_cell(self.next as int);
            }
            let item = &sender.buffer[idx];
            if item.closed {
                return Err(RecvError::Closed);
            }
            if item.pos != self.next {
                if item.pos < self.next {
                    return Ok(None);
                } else {
                    return Err(RecvError::Lagged);
                }
            }
            self.next = self.next + 1;
            let (kind, data) = match &item.data {
                Some(d) => (d.0, d.1.clone()),
                None => {
                    return Err(RecvError::Lagged);
                },
            };
            proof {
                assert(sender.window()[item.pos - sender.head] == sender.entry_at(item.pos as int));
            }
            let skip = match kind {
                PluginNotification::Account => !self.enable_notifications_accounts,
                PluginNotification::Transaction => !self.enable_notifications_transactions,
                PluginNotification::Entry => !self.enable_notifications_entries,
                _ => false,
            };
            if !skip {
                proof {
                    lemma_recv_spec_kinds(
                        sender.window(),
                        sender.head_pos() as int,
                        sender.tail_pos() as int,
                        sender.cap() as int,
                        sender.is_closed(),
                        old(self).next_pos() as int,
                        old(self).switches(),
                    );
                }
                return Ok(Some(data));
            }
        }
    }

    /// The stream of messages: nothing more once an error was returned,
    /// otherwise the result of a receive, ending the stream on an error.
    pub fn poll_next(&mut self, sender: &Sender) -> (r: Option<Result<Option<Arc<Vec<u8>>>, RecvError>>)
        requires
            sender.wf(),
        ensures
            old(self).is_finished() ==> r is None && *final(self) == *old(self),
            !old(self).is_finished() ==> {
                &&& r is Some
                &&& final(self).next_pos() == old(self).recv_outcome(sender).1
                &&& final(self).switches() == old(self).switches()
                &&& final(self).is_finished() == (r->0 is Err)
                &&& match r->0 {
                    Ok(Some(d)) => old(self).recv_outcome(sender).0
                        == Ok::<Option<Seq<u8>>, RecvError>(Some(d@)),
                    Ok(None) => old(self).recv_outcome(sender).0
                        == Ok::<Option<Seq<u8>>, RecvError>(None),
                    Err(e) => old(self).recv_outcome(sender).0
                        == Err::<Option<Seq<u8>>, RecvError>(e),
                }
            },
    {
        if self.finished {
            return None;
        }
        let r = self.recv_ref(sender);
        if r.is_err() {
            self.finished = true;
        }
        Some(r)
    }
}

impl Sender {
    /// The cell of any position holds a position of the last `cap` ones with
    /// the same remainder: the position itself when it is one of them, a
    /// later one when it is older, an earlier one when it is not reached yet.
    proof fn lemma_pos_in_cell(&self, p: int)
        requires
            self.ring_ok(),
            0 <= p,
        ensures
            ({
                let q = self.buffer@[self.idx(p)].pos as int;
                &&& 0 <= self.idx(p) < self.cap()
                &&& (self.tail - self.cap() <= p < self.tail ==> q == p)
                &&& (p < self.tail - self.cap() ==> q > p)
                &&& (p >= self.tail ==> q < p)
            }),
    {
        lemma_pow2_pos(self.log2@);
        let i = self.idx(p);
        let q = self.buffer@[i].pos as int;
        assert(q % (self.cap() as int) == i);
        vstd::arithmetic::div_mod::lemma_mod_twice(p, self.cap() as int);
        if self.tail - self.cap() <= p < self.tail {
            self.lemma_item_pos(p);
        }
        if p < self.tail - self.cap() {
            assert(q >= self.tail - self.cap());
        }
        if p >= self.tail {
            assert(q < self.tail);
        }
    }

    /// Marks every cell closed: receivers then get `Closed`.
    pub fn close(&mut self)
        requires
            old(self).wf(),
        ensures
            final(self).wf(),
            final(self).is_closed(),
            final(self).window() == old(self).window(),
            final(self).head_pos() == old(self).head_pos(),
            final(self).tail_pos() == old(self).tail_pos(),
            final(self).slot_index() == old(self).slot_index(),
            final(self).cap() == old(self).cap(),
            final(self).max_slots() == old(self).max_slots(),
            final(self).max_bytes() == old(self).max_bytes(),
    {
        let ghost s0 = *self;
        let n = self.buffer.len();
        let mut i: usize = 0;
        while i < n
            invariant
                n == self.buffer@.len(),
                n == s0.buffer@.len(),
                i <= n,
                self.head == s0.head,
                self.tail == s0.tail,
                self.slots == s0.slots,
                self.mask == s0.mask,
                self.log2 == s0.log2,
                self.slots_max == s0.slots_max,
                self.bytes_total == s0.bytes_total,
                self.bytes_max == s0.bytes_max,
                forall|j: int| 0 <= j < n ==> {
                    let a = #[trigger] self.buffer@[j];
                    let b = s0.buffer@[j];
                    &&& a.pos == b.pos
                    &&& a.slot == b.slot
                    &&& a.data == b.data
                    &&& (j < i ==> a.closed)
                    &&& (j >= i ==> a.closed == b.closed)
                },
            decreases n - i,
        {
            let it = &self.buffer[i];
            let data = match &it.data {
                Some(d) => Some((d.0, d.1.clone())),
                None => None,
            };
            let item = Item { pos: it.pos, slot: it.slot, data, closed: true };
            self.buffer.set(i, item);
            i = i + 1;
        }
        proof {
            lemma_pow2_pos(self.log2@);
            assert(self.window() =~= s0.window()) by {
                assert forall|k: int| 0 <= k < self.window().len() implies self.window()[k] == s0.window()[k] by {
                    assert(self.entry_at(self.head + k) == s0.entry_at(self.head + k));
                }
            }
        }
    }

    /// Whether a subscription from `replay_from_slot` succeeds, or why not:
    /// the slot must be indexed; otherwise the first indexed slot is
    /// reported, or that nothing is indexed yet.
    pub open spec fn subscribe_outcome(&self, replay_from_slot: Option<u64>) -> Result<(), SubscribeError> {
        match replay_from_slot {
            None => Ok(()),
            Some(slot) => if has_key(self.slot_index(), slot) {
                Ok(())
            } else if self.slot_index().len() > 0 {
                Err(SubscribeError::SlotNotAvailable { first_available: self.slot_index()[0].0 })
            } else {
                Err(SubscribeError::NotInitialized)
            },
        }
    }

    /// A receiver starting at the first message of `replay_from_slot`, or at
    /// the tail; the filter turns kinds of notifications off.
    pub fn subscribe(&self, replay_from_slot: Option<u64>, filter: Option<RichatFilter>) -> (r: Result<Receiver, SubscribeError>)
        requires
            self.wf(),
        ensures
            match replay_from_slot {
                None => r is Ok && r->Ok_0.next_pos() == self.tail_pos(),
                Some(slot) => if has_key(self.slot_index(), slot) {
                    r is Ok && r->Ok_0.next_pos() == get_key(self.slot_index(), slot).head
                } else if self.slot_index().len() > 0 {
                    r == Err::<Receiver, SubscribeError>(
                        SubscribeError::SlotNotAvailable { first_available: self.slot_index()[0].0 },
                    )
                } else {
                    r == Err::<Receiver, SubscribeError>(SubscribeError::NotInitialized)
                },
            },
            match r {
                Ok(_) => self.subscribe_outcome(replay_from_slot) is Ok,
                Err(e) => self.subscribe_outcome(replay_from_slot) == Err::<(), SubscribeError>(e),
            },
            r matches Ok(rx) ==> {
                &&& !rx.is_finished()
                &&& rx.switches() == match filter {
                    None => (true, true, true),
                    Some(f) => (!f.disable_accounts, !f.disable_transactions, !f.disable_entries),
                }
            },
            r matches Ok(rx) ==> subscribed_receiver(*self, replay_from_slot, filter, rx),
    {
        let next = match replay_from_slot {
            Some(slot) => match self.find_slot(slot) {
                Some(i) => {
                    proof {
                        lemma_get_key(self.slots@, i as int);
                    }
                    self.slots[i].1.head
                },
                None => match self.first_key() {
                    Some(key) => {
                        return Err(SubscribeError::SlotNotAvailable { first_available: key });
                    },
                    None => {
                        return Err(SubscribeError::NotInitialized);
                    },
                },
            },
            None => self.tail,
        };
        let f = match filter {
            Some(f) => f,
            None => RichatFilter { disable_accounts: false, disable_transactions: false, disable_entries: false },
        };
        Ok(Receiver {
            next,
            finished: false,
            enable_notifications_accounts: !f.disable_accounts,
            enable_notifications_transactions: !f.disable_transactions,
            enable_notifications_entries: !f.disable_entries,
        })
    }
}


/// Whether a slot entry still lacks the commitment `status` brings.
pub open spec fn misses_status(e: SlotInfo, status: SlotStatusKind) -> bool {
    (status == SlotStatusKind::Confirmed && !e.confirmed) || (status == SlotStatusKind::Rooted
        && !e.finalized)
}

/// The walk up the parent links of the index from `slot`, with at most
/// `fuel` steps: each step goes to the parent of the current slot when the
/// parent is indexed and still lacks the commitment `status`, and records it
/// with its own parent; the walk ends at the first slot whose parent is not
/// such an entry. `None` when it has not ended within `fuel` steps.
pub open spec fn missed_walk(
    index: Seq<(u64, SlotInfo)>,
    slot: u64,
    status: SlotStatusKind,
    fuel: nat,
) -> Option<Seq<(u64, Option<u64>)>>
    decreases fuel,
{
    if has_key(index, slot) && get_key(index, slot).parent_slot is Some && has_key(
        index,
        get_key(index, slot).parent_slot->0,
    ) && misses_status(get_key(index, get_key(index, slot).parent_slot->0), status) {
        let p = get_key(index, slot).parent_slot->0;
        if fuel == 0 {
            None
        } else {
            match missed_walk(index, p, status, (fuel - 1) as nat) {
                Some(rest) => Some(seq![(p, get_key(index, p).parent_slot)] + rest),
                None => None,
            }
        }
    } else {
        Some(Seq::empty())
    }
}

/// The walk of missed ancestors from `slot` ends within as many steps as the
/// index has slots: the parent links it follows do not run into a cycle (a
/// walk that ends visits each indexed slot at most once).
pub open spec fn missed_walk_ends(index: Seq<(u64, SlotInfo)>, slot: u64, status: SlotStatusKind) -> bool {
    missed_walk(index, slot, status, index.len()) is Some
}

/// The ancestors of `slot` that never got the commitment `status`, nearest
/// first, with their own parents (see `missed_walk`); empty when the walk
/// does not end.
pub open spec fn missed_chain(index: Seq<(u64, SlotInfo)>, slot: u64, status: SlotStatusKind) -> Seq<(u64, Option<u64>)> {
    match missed_walk(index, slot, status, index.len()) {
        Some(c) => c,
        None => Seq::empty(),
    }
}

/// A walk that ends within `fuel` steps takes at most `fuel` steps, and each
/// slot it records is indexed, with the parent the index holds for it.
proof fn lemma_missed_walk(index: Seq<(u64, SlotInfo)>, slot: u64, status: SlotStatusKind, fuel: nat)
    requires
        missed_walk(index, slot, status, fuel) is Some,
    ensures
        missed_walk(index, slot, status, fuel)->0.len() <= fuel,
        forall|k: int|
            0 <= k < missed_walk(index, slot, status, fuel)->0.len() ==> {
                let (p, pp) = #[trigger] missed_walk(index, slot, status, fuel)->0[k];
                &&& has_key(index, p)
                &&& pp == get_key(index, p).parent_slot
            },
    decreases fuel,
{
    if has_key(index, slot) && get_key(index, slot).parent_slot is Some && has_key(
        index,
        get_key(index, slot).parent_slot->0,
    ) && misses_status(get_key(index, get_key(index, slot).parent_slot->0), status) {
        let p = get_key(index, slot).parent_slot->0;
        lemma_missed_walk(index, p, status, (fuel - 1) as nat);
        let c = missed_walk(index, slot, status, fuel)->0;
        let rest = missed_walk(index, p, status, (fuel - 1) as nat)->0;
        assert forall|k: int| 0 <= k < c.len() implies {
            let (a, b) = #[trigger] c[k];
            &&& has_key(index, a)
            &&& b == get_key(index, a).parent_slot
        } by {
            if k > 0 {
                assert(c[k] == rest[k - 1]);
            }
        }
    }
}

/// A walk that ends within `f` steps gives the same answer with any fuel
/// that covers its steps.
proof fn lemma_walk_fuel(index: Seq<(u64, SlotInfo)>, slot: u64, status: SlotStatusKind, f: nat, g: nat)
    requires
        missed_walk(index, slot, status, f) is Some,
        missed_walk(index, slot, status, f)->0.len() <= g,
    ensures
        missed_walk(index, slot, status, g) == missed_walk(index, slot, status, f),
    decreases f,
{
    if has_key(index, slot) && get_key(index, slot).parent_slot is Some && has_key(
        index,
        get_key(index, slot).parent_slot->0,
    ) && misses_status(get_key(index, get_key(index, slot).parent_slot->0), status) {
        let p = get_key(index, slot).parent_slot->0;
        lemma_walk_fuel(index, p, status, (f - 1) as nat, (g - 1) as nat);
    }
}

/// After `j + 1` steps, a walk goes on from the slot it reached.
proof fn lemma_walk_suffix(index: Seq<(u64, SlotInfo)>, slot: u64, status: SlotStatusKind, f: nat, j: int)
    requires
        missed_walk(index, slot, status, f) is Some,
        0 <= j < missed_walk(index, slot, status, f)->0.len(),
    ensures
        j + 1 <= f,
        missed_walk(index, missed_walk(index, slot, status, f)->0[j].0, status, (f - j - 1) as nat) == Some(
            missed_walk(index, slot, status, f)->0.skip(j + 1),
        ),
    decreases f,
{
    let c = missed_walk(index, slot, status, f)->0;
    let p = get_key(index, slot).parent_slot->0;
    let rest = missed_walk(index, p, status, (f - 1) as nat)->0;
    assert(c == seq![(p, get_key(index, p).parent_slot)] + rest);
    if j == 0 {
        assert(c.skip(1) =~= rest);
    } else {
        lemma_walk_suffix(index, p, status, (f - 1) as nat, j - 1);
        assert(c[j] == rest[j - 1]);
        assert(c.skip(j + 1) =~= rest.skip(j));
    }
}

/// The slots a walk that ends goes through are all different.
proof fn lemma_walk_distinct(index: Seq<(u64, SlotInfo)>, slot: u64, status: SlotStatusKind, f: nat)
    requires
        missed_walk(index, slot, status, f) is Some,
    ensures
        missed_walk(index, slot, status, f)->0.map_values(|e: (u64, Option<u64>)| e.0).no_duplicates(),
    decreases f,
{
    let c = missed_walk(index, slot, status, f)->0;
    let nodes = c.map_values(|e: (u64, Option<u64>)| e.0);
    if c.len() > 0 {
        let p = get_key(index, slot).parent_slot->0;
        let rest = missed_walk(index, p, status, (f - 1) as nat)->0;
        lemma_walk_distinct(index, p, status, (f - 1) as nat);
        assert(c == seq![(p, get_key(index, p).parent_slot)] + rest);
        assert forall|a: int, b: int| 0 <= a < nodes.len() && 0 <= b < nodes.len() && a != b implies nodes[a]
            != nodes[b] by {
            if a > 0 && b > 0 {
                assert(nodes[a] == rest.map_values(|e: (u64, Option<u64>)| e.0)[a - 1]);
                assert(nodes[b] == rest.map_values(|e: (u64, Option<u64>)| e.0)[b - 1]);
            } else {
                let j = if a == 0 {
                    b - 1
                } else {
                    a - 1
                };
                if rest[j].0 == p {
                    lemma_walk_suffix(index, p, status, (f - 1) as nat, j);
                    lemma_missed_walk(index, p, status, (f - j - 2) as nat);
                    lemma_walk_fuel(index, p, status, (f - j - 2) as nat, (f - 1) as nat);
                    assert(rest.skip(j + 1).len() < rest.len());
                }
            }
        }
    }
}

/// A walk that ends at all ends within as many steps as the index has
/// slots, since it never goes through a slot twice. So `missed_walk_ends`
/// fails exactly when the walk never ends: the parent links it follows run
/// around a cycle.
pub proof fn lemma_walk_ends_within_index(index: Seq<(u64, SlotInfo)>, slot: u64, status: SlotStatusKind, f: nat)
    requires
        missed_walk(index, slot, status, f) is Some,
    ensures
        missed_walk_ends(index, slot, status),
        missed_walk(index, slot, status, index.len()) == missed_walk(index, slot, status, f),
{
    let c = missed_walk(index, slot, status, f)->0;
    let nodes = c.map_values(|e: (u64, Option<u64>)| e.0);
    let keys = index.map_values(|e: (u64, SlotInfo)| e.0);
    lemma_walk_distinct(index, slot, status, f);
    lemma_missed_walk(index, slot, status, f);
    nodes.unique_seq_to_set();
    keys.lemma_cardinality_of_set();
    assert forall|x: u64| nodes.to_set().contains(x) implies keys.to_set().contains(x) by {
        let k = choose|k: int| 0 <= k < nodes.len() && nodes[k] == x;
        assert(has_key(index, c[k].0));
        let i = choose|i: int| 0 <= i < index.len() && index[i].0 == x;
        assert(keys[i] == x);
    }
    vstd::set_lib::lemma_len_subset(nodes.to_set(), keys.to_set());
    lemma_walk_fuel(index, slot, status, f, index.len());
}

/// Number of indexed slots below `s`.
pub open spec fn count_below(index: Seq<(u64, SlotInfo)>, s: u64) -> nat
    decreases index.len(),
{
    if index.len() == 0 {
        0
    } else {
        count_below(index.drop_last(), s) + if index.last().0 < s {
            1nat
        } else {
            0
        }
    }
}

/// Counting below a larger bound that is past an indexed slot counts that
/// slot too.
proof fn lemma_count_below(index: Seq<(u64, SlotInfo)>, p: u64, s: u64)
    requires
        p < s,
    ensures
        count_below(index, p) <= count_below(index, s) <= index.len(),
        has_key(index, p) ==> count_below(index, p) + 1 <= count_below(index, s),
    decreases index.len(),
{
    if index.len() > 0 {
        let d = index.drop_last();
        lemma_count_below(d, p, s);
        if has_key(index, p) && index.last().0 != p {
            let i = choose|i: int| 0 <= i < index.len() && index[i].0 == p;
            assert(d[i].0 == p);
        }
    }
}

/// Nothing is below zero.
proof fn lemma_count_zero(index: Seq<(u64, SlotInfo)>)
    ensures
        count_below(index, 0) == 0,
    decreases index.len(),
{
    if index.len() > 0 {
        lemma_count_zero(index.drop_last());
    }
}

/// The messages a push stores, with what the channel records of each: a
/// slot update for each missed ancestor, farthest first, then the message
/// itself.
pub open spec fn pushed_messages(
    index: Seq<(u64, SlotInfo)>,
    message: ProtobufMessage,
    created_at: Timestamp,
) -> Seq<(MessageInfo, Seq<u8>)> {
    let own = (spec_message_info(message), spec_message(message, created_at));
    match message {
        ProtobufMessage::Slot { slot, status, .. } => {
            let kind = status_kind(status);
            let chain = missed_chain(index, slot, kind);
            if kind == SlotStatusKind::Confirmed || kind == SlotStatusKind::Rooted {
                Seq::new(
                    chain.len(),
                    |k: int|
                        (
                            MessageInfo {
                                slot: chain[chain.len() - 1 - k].0,
                                notification: PluginNotification::Slot,
                                slot_update: Some(
                                    SlotUpdate { parent: chain[chain.len() - 1 - k].1, status: kind },
                                ),
                            },
                            spec_message(
                                ProtobufMessage::Slot {
                                    slot: chain[chain.len() - 1 - k].0,
                                    parent: chain[chain.len() - 1 - k].1,
                                    status,
                                },
                                created_at,
                            ),
                        ),
                ).push(own)
            } else {
                seq![own]
            }
        },
        _ => seq![own],
    }
}

/// The window entries of stored messages.
pub open spec fn as_window(ms: Seq<(MessageInfo, Seq<u8>)>) -> Seq<WindowEntry> {
    Seq::new(ms.len(), |k: int| (ms[k].0.slot, ms[k].0.notification, ms[k].1))
}

/// The commitment a slot status carries, as far as the channel cares.
pub open spec fn status_kind(s: SlotStatus) -> SlotStatusKind {
    match s {
        SlotStatus::Processed => SlotStatusKind::Processed,
        SlotStatus::Confirmed => SlotStatusKind::Confirmed,
        SlotStatus::Rooted => SlotStatusKind::Rooted,
        _ => SlotStatusKind::Other,
    }
}

/// What the channel records of a message.
pub open spec fn spec_message_info(m: ProtobufMessage) -> MessageInfo {
    MessageInfo {
        slot: spec_message_slot(m),
        notification: spec_notification(m),
        slot_update: match m {
            ProtobufMessage::Slot { parent, status, .. } => Some(
                SlotUpdate { parent, status: status_kind(status) },
            ),
            _ => None,
        },
    }
}

/// What the channel records of a message.
pub fn message_info(m: &ProtobufMessage) -> (info: MessageInfo)
    ensures
        info == spec_message_info(*m),
{
    let slot_update = match m {
        ProtobufMessage::Slot { parent, status, .. } => {
            let kind = match status {
                SlotStatus::Processed => SlotStatusKind::Processed,
                SlotStatus::Confirmed => SlotStatusKind::Confirmed,
                SlotStatus::Rooted => SlotStatusKind::Rooted,
                _ => SlotStatusKind::Other,
            };
            Some(SlotUpdate { parent: *parent, status: kind })
        },
        _ => None,
    };
    MessageInfo { slot: m.get_slot(), notification: m.get_plugin_notification(), slot_update }
}

impl Sender {
    /// The missed ancestors of `slot` for `status`, nearest first; `None`
    /// when their walk does not end (the parent links run into a cycle).
    pub fn plan_missed_slots(&self, slot: u64, status: SlotStatusKind) -> (r: Option<Vec<(u64, Option<u64>)>>)
        requires
            self.wf(),
        ensures
            match r {
                Some(v) => missed_walk_ends(self.slot_index(), slot, status) && v@ == missed_chain(
                    self.slot_index(),
                    slot,
                    status,
                ),
                None => !missed_walk_ends(self.slot_index(), slot, status),
            },
    {
        let ghost idx = self.slots@;
        let mut out: Vec<(u64, Option<u64>)> = Vec::new();
        let mut cur = slot;
        let mut fuel: usize = self.slots.len();
        loop
            invariant
                self.wf(),
                idx == self.slots@,
                fuel <= idx.len(),
                (missed_walk(idx, cur, status, fuel as nat) is Some) <==> (missed_walk(idx, slot, status, idx.len()) is Some),
                missed_walk(idx, cur, status, fuel as nat) is Some ==> out@ + missed_walk(idx, cur, status, fuel as nat)->0
                    == missed_walk(idx, slot, status, idx.len())->0,
            ensures
                missed_walk(idx, slot, status, idx.len()) is Some,
                out@ == missed_walk(idx, slot, status, idx.len())->0,
            decreases fuel,
        {
            let i = match self.find_slot(cur) {
                Some(i) => i,
                None => {
                    assert(out@ =~= out@ + Seq::<(u64, Option<u64>)>::empty());
                    break;
                },
            };
            proof {
                lemma_get_key(self.slots@, i as int);
            }
            let p = match self.slots[i].1.parent_slot {
                Some(p) => p,
                None => {
                    assert(out@ =~= out@ + Seq::<(u64, Option<u64>)>::empty());
                    break;
                },
            };
            let j = match self.find_slot(p) {
                Some(j) => j,
                None => {
                    assert(out@ =~= out@ + Seq::<(u64, Option<u64>)>::empty());
                    break;
                },
            };
            proof {
                lemma_get_key(self.slots@, j as int);
            }
            let e = self.slots[j].1;
            let missing = (status == SlotStatusKind::Confirmed && !e.confirmed) || (status
                == SlotStatusKind::Rooted && !e.finalized);
            if !missing {
                assert(out@ =~= out@ + Seq::<(u64, Option<u64>)>::empty());
                break;
            }
            if fuel == 0 {
                return None;
            }
            let ghost prev = out@;
            out.push((p, e.parent_slot));
            proof {
                let nf = (fuel - 1) as nat;
                if missed_walk(idx, p, status, nf) is Some {
                    assert(out@ + missed_walk(idx, p, status, nf)->0 =~= prev + missed_walk(
                        idx,
                        cur,
                        status,
                        fuel as nat,
                    )->0);
                }
            }
            cur = p;
            fuel = fuel - 1;
        }
        Some(out)
    }
}



/// Storing messages one after the other, stopping at the first that
/// cannot be stored.
pub open spec fn push_all(
    st: ChannelState,
    cap: nat,
    max_slots: nat,
    max_bytes: nat,
    ps: Seq<(MessageInfo, Seq<u8>)>,
) -> Result<ChannelState, PushError>
    decreases ps.len(),
{
    if ps.len() == 0 {
        Ok(st)
    } else {
        match push_all(st, cap, max_slots, max_bytes, ps.drop_last()) {
            Ok(s1) => push_step(s1, cap, max_slots, max_bytes, ps.last().0, ps.last().1),
            Err(e) => Err(e),
        }
    }
}

/// Once storing a prefix fails, storing the whole fails the same way.
proof fn lemma_push_all_err(
    st: ChannelState,
    cap: nat,
    max_slots: nat,
    max_bytes: nat,
    ps: Seq<(MessageInfo, Seq<u8>)>,
    j: int,
)
    requires
        0 <= j <= ps.len(),
        push_all(st, cap, max_slots, max_bytes, ps.take(j)) is Err,
    ensures
        push_all(st, cap, max_slots, max_bytes, ps) == push_all(st, cap, max_slots, max_bytes, ps.take(j)),
    decreases ps.len() - j,
{
    if j < ps.len() {
        assert(ps.take(j + 1).drop_last() =~= ps.take(j));
        lemma_push_all_err(st, cap, max_slots, max_bytes, ps, j + 1);
    } else {
        assert(ps.take(j) =~= ps);
    }
}

/// What a push of `message` did to the channel: too large exactly when one
/// of the stored messages exceeds the byte limit, and then nothing changed;
/// otherwise the messages were stored one after the other as `push_step`
/// describes, stopping at the first that could not be stored. Stored when
/// every message fits and the index has room for all of them; when stored,
/// the window grew by the stored messages, the oldest ones dropped.
pub open spec fn push_outcome(
    old_s: Sender,
    new_s: Sender,
    message: ProtobufMessage,
    created_at: Timestamp,
    r: Result<(), PushError>,
) -> bool {
    let ps = pushed_messages(old_s.slot_index(), message, created_at);
    &&& (forall|j: int| 0 <= j < ps.len() ==> #[trigger] ps[j].1.len() <= old_s.max_bytes()) ==> match push_all(
        old_s.state(),
        old_s.cap(),
        old_s.max_slots(),
        old_s.max_bytes(),
        ps,
    ) {
        Ok(st) => r is Ok && new_s.head_pos() == st.0 && new_s.window() == st.1 && new_s.slot_index() == st.2,
        Err(e) => r == Err::<(), PushError>(e),
    }
    &&& (r == Err::<(), PushError>(PushError::MessageTooLarge)) <==> exists|j: int|
        0 <= j < ps.len() && #[trigger] ps[j].1.len() > old_s.max_bytes()
    &&& r == Err::<(), PushError>(PushError::MessageTooLarge) ==> new_s == old_s
    &&& (forall|j: int| 0 <= j < ps.len() ==> #[trigger] ps[j].1.len() <= old_s.max_bytes())
        && old_s.slot_index().len() + ps.len() <= old_s.max_slots() ==> r is Ok
    &&& r is Ok ==> {
        &&& new_s.wf()
        &&& new_s.tail_pos() == old_s.tail_pos() + ps.len()
        &&& old_s.head_pos() <= new_s.head_pos()
        &&& new_s.window() == (old_s.window() + as_window(ps)).subrange(
            new_s.head_pos() - old_s.head_pos(),
            old_s.window().len() + ps.len() as int,
        )
        &&& new_s.cap() == old_s.cap()
        &&& new_s.max_slots() == old_s.max_slots()
        &&& new_s.max_bytes() == old_s.max_bytes()
        &&& new_s.is_closed() == old_s.is_closed()
    }
}

/// Whether a message can be pushed: it can be encoded, its slot is below
/// `u64::MAX`, for a slot update the walk of missed ancestors ends, and the
/// positions of the messages it stores fit.
pub open spec fn push_allowed(s: Sender, message: ProtobufMessage) -> bool {
    &&& s.wf()
    &&& message_fits(message)
    &&& spec_message_slot(message) < u64::MAX
    &&& message matches ProtobufMessage::Slot { slot, status, .. } ==> missed_walk_ends(
        s.slot_index(),
        slot,
        status_kind(status),
    )
    &&& s.tail_pos() + s.slot_index().len() + 1 < u64::MAX
}

/// When their walk ends, the missed ancestors are at most as many as the
/// indexed slots, and each is an indexed slot, so below `u64::MAX`.
proof fn lemma_missed_chain_shape(s: Sender, slot: u64, status: SlotStatusKind)
    requires
        s.index_ok(),
        missed_walk_ends(s.slots@, slot, status),
    ensures
        missed_chain(s.slots@, slot, status).len() <= s.slots@.len(),
        forall|k: int|
            0 <= k < missed_chain(s.slots@, slot, status).len() ==> (#[trigger] missed_chain(
                s.slots@,
                slot,
                status,
            )[k]).0 < u64::MAX,
{
    let index = s.slots@;
    lemma_missed_walk(index, slot, status, index.len());
    let c = missed_chain(index, slot, status);
    assert forall|k: int| 0 <= k < c.len() implies (#[trigger] c[k]).0 < u64::MAX by {
        assert(has_key(index, c[k].0));
        let i = choose|i: int| 0 <= i < index.len() && index[i].0 == c[k].0;
        assert(index[i].0 < u64::MAX);
    }
}

/// Storing one more message extends the window over the stored ones.
proof fn lemma_window_step(
    w0: Seq<WindowEntry>,
    ps: Seq<WindowEntry>,
    k: int,
    h0: int,
    h: int,
    h1: int,
    w: Seq<WindowEntry>,
    w1: Seq<WindowEntry>,
)
    requires
        0 <= k < ps.len(),
        h0 <= h <= h1,
        h - h0 <= w0.len() + k,
        w == (w0 + ps.take(k)).subrange(h - h0, w0.len() + k),
        w1 == w.push(ps[k]).subrange(h1 - h, w.len() + 1 as int),
        h1 - h <= w.len() + 1,
    ensures
        w1 == (w0 + ps.take(k + 1)).subrange(h1 - h0, w0.len() + k + 1),
{
    assert(w1 =~= (w0 + ps.take(k + 1)).subrange(h1 - h0, w0.len() + k + 1));
}

/// A receiver as `subscribe` gives it: at the first message of the replayed
/// slot (at the tail without one), not finished, with the kinds of
/// notifications the filter leaves on.
pub open spec fn subscribed_receiver(s: Sender, replay_from_slot: Option<u64>, filter: Option<RichatFilter>, rx: Receiver) -> bool {
    &&& rx.next_pos() == match replay_from_slot {
        None => s.tail_pos(),
        Some(slot) => get_key(s.slot_index(), slot).head,
    }
    &&& !rx.is_finished()
    &&& rx.switches() == match filter {
        None => (true, true, true),
        Some(f) => (!f.disable_accounts, !f.disable_transactions, !f.disable_entries),
    }
}

impl Sender {
    /// Stores a message stamped with the current time (see
    /// `push_with_timestamp`). The time depends on the clock, so the outcome
    /// is stated for some creation time.
    pub fn push(&mut self, message: &ProtobufMessage, encoder: ProtobufEncoder) -> (r: Result<(), PushError>)
        requires
            old(self).wf(),
            message_fits(*message),
            spec_message_slot(*message) < u64::MAX,
            *message matches ProtobufMessage::Slot { slot, status, .. } ==> missed_walk_ends(
                old(self).slot_index(),
                slot,
                status_kind(status),
            ),
            old(self).tail_pos() + old(self).slot_index().len() + 1 < u64::MAX,
        ensures
            exists|t: Timestamp| push_outcome(*old(self), *final(self), *message, t, r),
    {
        let created_at = timestamp_now();
        self.push_with_timestamp(message, encoder, created_at)
    }

    /// Stores a message, first storing a slot update for each ancestor that
    /// missed the commitment a confirmed or rooted slot update brings
    /// (farthest first), so that subscribers see every slot reach it.
    #[verifier::rlimit(40)]
    pub fn push_with_timestamp(&mut self, message: &ProtobufMessage, encoder: ProtobufEncoder, created_at: Timestamp) -> (r: Result<(), PushError>)
        requires
            old(self).wf(),
            message_fits(*message),
            spec_message_slot(*message) < u64::MAX,
            *message matches ProtobufMessage::Slot { slot, status, .. } ==> missed_walk_ends(
                old(self).slot_index(),
                slot,
                status_kind(status),
            ),
            old(self).tail_pos() + old(self).slot_index().len() + 1 < u64::MAX,
        ensures
            push_outcome(*old(self), *final(self), *message, created_at, r),
    {
        let ghost s0 = *self;
        let ghost ps = pushed_messages(self.slots@, *message, created_at);
        let info = message_info(message);
        let data = message.encode_with_timestamp(encoder, created_at);
        let mut stack: Vec<(MessageInfo, Vec<u8>)> = Vec::new();
        stack.push((info, data));
        let ghost mut chain_len: nat = 0;
        match message {
            ProtobufMessage::Slot { slot, status, .. } => {
                let kind = match status {
                    SlotStatus::Processed => SlotStatusKind::Processed,
                    SlotStatus::Confirmed => SlotStatusKind::Confirmed,
                    SlotStatus::Rooted => SlotStatusKind::Rooted,
                    _ => SlotStatusKind::Other,
                };
                if kind == SlotStatusKind::Confirmed || kind == SlotStatusKind::Rooted {
                    proof {
                        assert(kind == status_kind(*status));
                    }
                    let chain = match self.plan_missed_slots(*slot, kind) {
                        Some(c) => c,
                        None => {
                            proof {
                                assert(false);
                            }
                            Vec::new()
                        },
                    };
                    proof {
                        chain_len = chain@.len();
                        lemma_missed_chain_shape(*self, *slot, kind);
                    }
                    let mut k: usize = 0;
                    while k < chain.len()
                        invariant
                            k <= chain@.len(),
                            chain@.len() == chain_len,
                            ps.len() == chain_len + 1,
                            chain@ == missed_chain(s0.slots@, *slot, kind),
                            kind == status_kind(*status),
                            kind == SlotStatusKind::Confirmed || kind == SlotStatusKind::Rooted,
                            message == (ProtobufMessage::Slot { slot: *slot, parent: message->parent, status: *status }),
                            ps == pushed_messages(s0.slots@, *message, created_at),
                            stack@.len() == k + 1,
                            forall|i: int| 0 <= i < stack@.len() ==> {
                                let e = #[trigger] stack@[i];
                                (e.0, e.1@) == ps[ps.len() - 1 - i]
                            },
                        decreases chain@.len() - k,
                    {
                        let (p, pp) = chain[k];
                        let st = if kind == SlotStatusKind::Confirmed {
                            SlotStatus::Confirmed
                        } else {
                            SlotStatus::Rooted
                        };
                        proof {
                            assert(st == *status);
                        }
                        let m = ProtobufMessage::Slot { slot: p, parent: pp, status: st };
                        let d = m.encode_with_timestamp(encoder, created_at);
                        let inf = MessageInfo {
                            slot: p,
                            notification: PluginNotification::Slot,
                            slot_update: Some(SlotUpdate { parent: pp, status: kind }),
                        };
                        stack.push((inf, d));
                        k = k + 1;
                    }
                }
            },
            _ => {},
        }
        assert(stack@.len() == ps.len());
        // every message must fit the byte limit on its own
        let mut i: usize = 0;
        while i < stack.len()
            invariant
                i <= stack@.len(),
                stack@.len() == ps.len(),
                forall|j: int| 0 <= j < stack@.len() ==> {
                    let e = #[trigger] stack@[j];
                    (e.0, e.1@) == ps[ps.len() - 1 - j]
                },
                forall|j: int| 0 <= j < i ==> #[trigger] stack@[j].1@.len() <= self.bytes_max,
                *self == s0,
                s0 == *old(self),
                ps == pushed_messages(s0.slots@, *message, created_at),
            decreases stack@.len() - i,
        {
            if stack[i].1.len() as u64 > self.bytes_max {
                proof {
                    assert(ps == pushed_messages(old(self).slot_index(), *message, created_at));
                    assert(ps[ps.len() - 1 - i].1.len() > old(self).max_bytes());
                }
                return Err(PushError::MessageTooLarge);
            }
            i = i + 1;
        }
        proof {
            assert forall|j: int| 0 <= j < ps.len() implies #[trigger] ps[j].1.len() <= s0.max_bytes() by {
                assert(stack@[ps.len() - 1 - j].1@.len() <= self.bytes_max);
            }
            assert(s0.window() + as_window(ps).take(0) =~= s0.window());
            assert(ps.take(0) =~= Seq::<(MessageInfo, Seq<u8>)>::empty());
            assert(s0.window().subrange(0, s0.window().len() as int) =~= s0.window());
        }
        let ghost n = ps.len();
        let ghost w0 = s0.window();
        assert(w0.len() == s0.tail - s0.head);
        let ghost pw = as_window(ps);
        while stack.len() > 0
            invariant
                n == ps.len(),
                pw == as_window(ps),
                0 < n <= stack@.len() + n,
                stack@.len() <= n,
                forall|j: int| 0 <= j < stack@.len() ==> {
                    let e = #[trigger] stack@[j];
                    (e.0, e.1@) == ps[n - 1 - j]
                },
                forall|j: int| 0 <= j < n ==> #[trigger] ps[j].1.len() <= s0.max_bytes(),
                forall|j: int| 0 <= j < n ==> {
                    let m = #[trigger] ps[j].0;
                    &&& m.slot < u64::MAX
                },
                self.wf(),
                self.tail == s0.tail + (n - stack@.len()),
                s0.tail + s0.slots@.len() + 1 < u64::MAX,
                n <= s0.slots@.len() + 1,
                s0.head <= self.head,
                self.window() == (w0 + pw.take(n - stack@.len())).subrange(
                    self.head - s0.head,
                    w0.len() + (n - stack@.len()),
                ),
                self.cap() == s0.cap(),
                self.slots_max == s0.slots_max,
                self.bytes_max == s0.bytes_max,
                self.is_closed() == s0.is_closed(),
                s0 == *old(self),
                ps == pushed_messages(s0.slots@, *message, created_at),
                w0.len() == s0.tail - s0.head,
                s0.slots@.len() + n <= s0.slots_max ==> self.slots@.len() <= s0.slots@.len() + (n - stack@.len()),
                push_all(s0.state(), s0.cap(), s0.max_slots(), s0.max_bytes(), ps.take(n - stack@.len())) matches Ok(
                    st,
                ) && st.0 == self.head && st.1 == self.window() && st.2 == self.slots@,
            decreases stack@.len(),
        {
            let ghost k: int = n - stack@.len();
            let ghost before = *self;
            proof {
                assert(before.head <= before.tail);
            }
            let (inf, d) = stack.pop().unwrap();
            proof {
                assert((inf, d@) == ps[k]);
                assert(pw[k] == (inf.slot, inf.notification, d@));
            }
            proof {
                assert(ps.take(k + 1).drop_last() =~= ps.take(k));
                assert(ps.take(k + 1).last() == ps[k]);
            }
            match self.push_msg(inf, d) {
                Ok(()) => {},
                Err(e) => {
                    proof {
                        assert(ps == pushed_messages(old(self).slot_index(), *message, created_at));
                        assert(e == PushError::HeadOverflowTail);
                        lemma_push_all_err(s0.state(), s0.cap(), s0.max_slots(), s0.max_bytes(), ps, k + 1);
                    }
                    return Err(e);
                },
            }
            proof {
                lemma_window_step(
                    w0,
                    pw,
                    k,
                    s0.head as int,
                    before.head as int,
                    self.head as int,
                    before.window(),
                    self.window(),
                );
            }
        }
        proof {
            assert(pw.take(n as int) =~= pw);
            assert(ps.take(n as int) =~= ps);
        }
        Ok(())
    }
}


/// Storing a message drops nothing when the index has room for its slot,
/// the kept messages and the new one fit the byte limit, and the ring has a
/// free cell: the message is appended and the head stays.
pub proof fn lemma_push_keeps_all(
    st: ChannelState,
    cap: nat,
    max_slots: nat,
    max_bytes: nat,
    info: MessageInfo,
    data: Seq<u8>,
)
    requires
        st.2.len() <= max_slots,
        has_key(st.2, info.slot) || st.2.len() < max_slots,
        sum_lens(st.1) + data.len() <= max_bytes,
        st.1.len() < cap,
    ensures
        push_step(st, cap, max_slots, max_bytes, info, data) matches Ok(s2) && s2.0 == st.0 && s2.1 == st.1.push(
            (info.slot, info.notification, data),
        ),
{
    let index = st.2;
    let w = st.1;
    if info.slot > 0 {
        lemma_count_below(index, 0, info.slot);
    } else {
        lemma_count_zero(index);
    }
    let idx1 = recorded_index(index, info.slot, (st.0 + w.len()) as u64, info.slot_update);
    assert(idx1.len() <= max_slots);
    assert(w.subrange(0, w.len() as int) =~= w);
    assert(bytes_start(w.subrange(0, w.len() as int), 0, data.len(), max_bytes) == 0);
}

/// The limits hold in every well-formed channel: the kept messages fit the
/// byte limit and the ring, and the index holds at most the allowed number
/// of slots, in increasing order.
pub proof fn lemma_channel_limits(s: Sender)
    requires
        s.wf(),
    ensures
        sum_lens(s.window()) <= s.max_bytes(),
        s.window().len() <= s.cap(),
        s.window().len() == s.tail_pos() - s.head_pos(),
        s.slot_index().len() <= s.max_slots(),
        keys_sorted(s.slot_index()),
{
}

/// A receiver reads the kept messages in order: from a position inside the
/// window, with every kind enabled, it gets the message at that position and
/// moves to the next one.
pub proof fn lemma_recv_in_order(s: Sender, rx: Receiver)
    requires
        s.wf(),
        !s.is_closed(),
        rx.switches() == (true, true, true),
        s.head_pos() <= rx.next_pos() < s.tail_pos(),
    ensures
        rx.recv_outcome(&s) == (
            Ok::<Option<Seq<u8>>, RecvError>(Some(s.window()[rx.next_pos() - s.head_pos()].2)),
            rx.next_pos() + 1,
        ),
{
    assert(s.tail - s.cap() <= s.head);
}

/// A receiver that has read everything waits: the outcome is `Ok(None)` and
/// its position stays.
pub proof fn lemma_recv_caught_up(s: Sender, rx: Receiver)
    requires
        !s.is_closed(),
        rx.next_pos() >= s.tail_pos(),
    ensures
        rx.recv_outcome(&s) == (Ok::<Option<Seq<u8>>, RecvError>(None), rx.next_pos() as int),
{
}

/// After the channel is closed every receive fails with `Closed`.
pub proof fn lemma_recv_closed(s: Sender, rx: Receiver)
    requires
        s.is_closed(),
    ensures
        rx.recv_outcome(&s) == (Err::<Option<Seq<u8>>, RecvError>(RecvError::Closed), rx.next_pos() as int),
{
}

/// A receiver positioned before the oldest kept message has lagged.
pub proof fn lemma_recv_lagged(s: Sender, rx: Receiver)
    requires
        s.wf(),
        !s.is_closed(),
        rx.next_pos() < s.head_pos(),
    ensures
        rx.recv_outcome(&s).0 == Err::<Option<Seq<u8>>, RecvError>(RecvError::Lagged),
{
}

/// A subscriber at the tail receives the next stored message: after one
/// more message was stored and nothing at or past the old tail was dropped,
/// a receiver at the old tail gets exactly that message.
pub proof fn lemma_push_then_recv(s0: Sender, s1: Sender, rx: Receiver, e: WindowEntry)
    requires
        s0.wf(),
        s1.wf(),
        !s1.is_closed(),
        s1.tail_pos() == s0.tail_pos() + 1,
        s0.head_pos() <= s1.head_pos() <= s0.tail_pos(),
        s1.window() == s0.window().push(e).subrange(
            s1.head_pos() - s0.head_pos(),
            s0.window().len() + 1 as int,
        ),
        rx.next_pos() == s0.tail_pos(),
        rx.switches() == (true, true, true),
    ensures
        rx.recv_outcome(&s1) == (Ok::<Option<Seq<u8>>, RecvError>(Some(e.2)), s0.tail_pos() + 1),
{
    lemma_recv_in_order(s1, rx);
    assert(s0.window().len() == s0.tail_pos() - s0.head_pos());
}


impl Sender {
    /// The numbers the metrics report: messages kept, slots indexed, bytes
    /// kept.
    pub fn metrics(&self) -> (r: (u64, usize, u64))
        requires
            self.wf(),
        ensures
            r.0 == self.window().len(),
            r.1 == self.slot_index().len(),
            r.2 == sum_lens(self.window()),
    {
        (self.tail - self.head, self.slots.len(), self.bytes_total)
    }

    /// Position the next message will take.
    pub fn tail_position(&self) -> (t: u64)
        ensures
            t == self.tail_pos(),
    {
        self.tail
    }
}

/// A receive that hands out a message hands out the first kept message from
/// the receiver's position on whose kind the switches let through: the
/// message it gives is an account update only when accounts are on, a
/// transaction only when transactions are on, an entry only when entries
/// are on; and every message it passes over is of a kind switched off.
proof fn lemma_recv_spec_kinds(
    window: Seq<WindowEntry>,
    head: int,
    tail: int,
    cap: int,
    closed: bool,
    next: int,
    filter: (bool, bool, bool),
)
    requires
        window.len() == tail - head,
    ensures
        recv_spec(window, head, tail, cap, closed, next, filter).0 matches Ok(Some(d)) ==> {
            let m = recv_spec(window, head, tail, cap, closed, next, filter).1 - 1;
            let k = window[m - head].1;
            &&& next <= m
            &&& head <= m < tail
            &&& d == window[m - head].2
            &&& (k == PluginNotification::Account ==> filter.0)
            &&& (k == PluginNotification::Transaction ==> filter.1)
            &&& (k == PluginNotification::Entry ==> filter.2)
            &&& forall|p: int|
                next <= p < m ==> {
                    let q = (#[trigger] window[p - head]).1;
                    ||| q == PluginNotification::Account && !filter.0
                    ||| q == PluginNotification::Transaction && !filter.1
                    ||| q == PluginNotification::Entry && !filter.2
                }
        },
    decreases tail - next,
{
    if !closed && next < tail && !(next < tail - cap) && !(next < head) {
        let e = window[next - head];
        if !notification_enabled(e.1, filter.0, filter.1, filter.2) {
            lemma_recv_spec_kinds(window, head, tail, cap, closed, next + 1, filter);
        }
    }
}

/// A receiver subscribed with filter `f` never hands out a kind that `f`
/// disables: when a receive gives a message, that message is the kept
/// message at the position just before the receiver's new one, it is an
/// account update only if `f` leaves accounts on (likewise transactions
/// and entries), and every message skipped on the way is of a kind `f`
/// disables.
pub proof fn lemma_recv_respects_filter(s: Sender, rx: Receiver, f: RichatFilter)
    requires
        s.wf(),
        rx.switches() == (!f.disable_accounts, !f.disable_transactions, !f.disable_entries),
    ensures
        rx.recv_outcome(&s).0 matches Ok(Some(d)) ==> {
            let m = rx.recv_outcome(&s).1 - 1;
            let k = s.window()[m - s.head_pos()].1;
            &&& rx.next_pos() <= m
            &&& s.head_pos() <= m < s.tail_pos()
            &&& d == s.window()[m - s.head_pos()].2
            &&& (k == PluginNotification::Account ==> !f.disable_accounts)
            &&& (k == PluginNotification::Transaction ==> !f.disable_transactions)
            &&& (k == PluginNotification::Entry ==> !f.disable_entries)
            &&& forall|p: int|
                rx.next_pos() <= p < m ==> {
                    let q = (#[trigger] s.window()[p - s.head_pos()]).1;
                    ||| q == PluginNotification::Account && f.disable_accounts
                    ||| q == PluginNotification::Transaction && f.disable_transactions
                    ||| q == PluginNotification::Entry && f.disable_entries
                }
        },
{
    assert(s.window().len() == s.tail_pos() - s.head_pos());
    lemma_recv_spec_kinds(
        s.window(),
        s.head_pos() as int,
        s.tail_pos() as int,
        s.cap() as int,
        s.is_closed(),
        rx.next_pos() as int,
        rx.switches(),
    );
}

} // verus!
