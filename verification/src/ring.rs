//! The broadcast ring: one writer publishes packets into pre-allocated slots,
//! every sender reads them back by sequence number.
use vstd::prelude::*;
use vstd::pervasive::VecAdditionalExecFns;

verus! {

/// The size of one slot: the largest UDP payload the forwarder receives.
pub const SLOT_BYTES: usize = 65535;

/// The number of slots the forwarder allocates.
pub const RING_CAPACITY: usize = 4096;

/// What slot `i` of a ring with `cap` slots holds after the packets `h` were
/// published in order: the last packet whose sequence number is `i` modulo
/// `cap`, or nothing when no such packet was published.
pub open spec fn slot_content(h: Seq<Seq<u8>>, cap: nat, i: nat) -> Seq<u8>
    decreases h.len(),
{
    if h.len() == 0 {
        Seq::<u8>::empty()
    } else if ((h.len() - 1) as nat) % cap == i {
        h.last()
    } else {
        slot_content(h.drop_last(), cap, i)
    }
}

/// Pre-allocated broadcast ring buffer: publishing copies into a slot that was
/// allocated up front, so the hot path allocates nothing.
pub struct BroadcastRing {
    /// One fixed-size buffer per slot.
    slots: Vec<Vec<u8>>,
    /// How many bytes of each buffer hold the packet.
    lens: Vec<usize>,
    /// The sequence number of the next packet.
    head: usize,
    capacity: usize,
    /// Every packet published so far, in order.
    history: Ghost<Seq<Seq<u8>>>,
}

impl BroadcastRing {
    /// The packets published so far, in order; packet `k` got sequence number `k`.
    pub closed spec fn published(&self) -> Seq<Seq<u8>> {
        self.history@
    }

    /// The number of slots.
    pub closed spec fn spec_capacity(&self) -> nat {
        self.capacity as nat
    }

    /// The bytes slot `i` holds.
    closed spec fn stored(&self, i: int) -> Seq<u8> {
        self.slots@[i]@.take(self.lens@[i] as int)
    }

    /// The ring's internal invariant.
    pub closed spec fn wf(&self) -> bool {
        &&& self.slots@.len() == self.capacity
        &&& self.lens@.len() == self.capacity
        &&& self.head == self.history@.len()
        &&& forall|i: int| 0 <= i < self.capacity ==> #[trigger] self.slots@[i].len() == SLOT_BYTES
        &&& forall|i: int| 0 <= i < self.capacity ==> #[trigger] self.lens@[i] <= SLOT_BYTES
        &&& forall|i: int|
            0 <= i < self.capacity ==> #[trigger] self.stored(i) == slot_content(
                self.history@,
                self.capacity as nat,
                i as nat,
            )
    }

    /// A ring of `capacity` empty slots of `SLOT_BYTES` bytes each.
    pub fn new(capacity: usize) -> (r: Self)
        ensures
            r.wf(),
            r.spec_capacity() == capacity,
            r.published() == Seq::<Seq<u8>>::empty(),
    {
        let mut slots: Vec<Vec<u8>> = Vec::new();
        let mut lens: Vec<usize> = Vec::new();
        let mut i: usize = 0;
        while i < capacity
            invariant
                i <= capacity,
                slots@.len() == i,
                lens@.len() == i,
                forall|k: int| 0 <= k < i ==> #[trigger] slots@[k].len() == SLOT_BYTES,
                forall|k: int| 0 <= k < i ==> #[trigger] lens@[k] == 0,
            decreases capacity - i,
        {
            let buf: Vec<u8> = vec![0u8; SLOT_BYTES];
            slots.push(buf);
            lens.push(0);
            i = i + 1;
        }
        let r = BroadcastRing { slots, lens, head: 0, capacity, history: Ghost(Seq::empty()) };
        assert forall|k: int| 0 <= k < capacity implies #[trigger] r.stored(k) == slot_content(
            r.history@,
            capacity as nat,
            k as nat,
        ) by {
            assert(r.stored(k) =~= Seq::<u8>::empty());
        }
        r
    }

    /// The number of slots.
    pub fn capacity(&self) -> (r: usize)
        ensures
            r == self.spec_capacity(),
    {
        self.capacity
    }

    /// The sequence number the next published packet will get.
    pub fn next_slot(&self) -> (r: usize)
        requires
            self.wf(),
        ensures
            r == self.published().len(),
    {
        self.head
    }

    /// Publishes `data` into the next slot and returns its sequence number.
    /// The packet is copied into the slot's pre-allocated buffer.
    pub fn publish(&mut self, data: &[u8]) -> (slot: usize)
        requires
            old(self).wf(),
            old(self).spec_capacity() > 0,
            data@.len() <= SLOT_BYTES,
            old(self).published().len() < usize::MAX,
        ensures
            final(self).wf(),
            final(self).spec_capacity() == old(self).spec_capacity(),
            final(self).published() == old(self).published().push(data@),
            slot == old(self).published().len(),
    {
        let slot = self.head;
        let idx = slot % self.capacity;
        let mut buf: Vec<u8> = Vec::new();
        assert(self.slots@[idx as int].len() == SLOT_BYTES);
        self.slots.set_and_swap(idx, &mut buf);
        let n = data.len();
        let mut i: usize = 0;
        while i < n
            invariant
                n == data@.len(),
                n <= SLOT_BYTES,
                i <= n,
                buf@.len() == SLOT_BYTES,
                buf@.take(i as int) == data@.take(i as int),
            decreases n - i,
        {
            buf.set(i, data[i]);
            i = i + 1;
            assert(buf@.take(i as int) =~= data@.take(i as int));
        }
        self.slots.set_and_swap(idx, &mut buf);
        self.lens.set(idx, n);
        self.head = slot + 1;
        let ghost old_history = self.history@;
        self.history = Ghost(self.history@.push(data@));
        proof {
            assert(data@.take(n as int) =~= data@);
            let h = self.history@;
            assert(h.drop_last() =~= old_history);
            assert forall|k: int| 0 <= k < self.capacity implies #[trigger] self.stored(k) == slot_content(
                h,
                self.capacity as nat,
                k as nat,
            ) by {
                if k == idx {
                    assert(((h.len() - 1) as nat) % (self.capacity as nat) == k);
                } else {
                    assert(self.slots@[k] == old(self).slots@[k]);
                    assert(self.lens@[k] == old(self).lens@[k]);
                    assert(old(self).stored(k) == slot_content(old_history, self.capacity as nat, k as nat));
                }
            }
        }
        slot
    }

    /// The bytes stored in the slot of sequence number `slot`: the packet most
    /// recently published under a sequence number equal to `slot` modulo the
    /// capacity. While fewer than `capacity` packets were published after it,
    /// that is the packet published as `slot` itself.
    pub fn read_slot(&self, slot: usize) -> (r: &[u8])
        requires
            self.wf(),
            self.spec_capacity() > 0,
        ensures
            r@ == slot_content(self.published(), self.spec_capacity(), (slot as nat) % self.spec_capacity()),
            self.published().len() <= slot + self.spec_capacity() && slot < self.published().len()
                ==> r@ == self.published()[slot as int],
    {
        let idx = slot % self.capacity;
        let len = self.lens[idx];
        assert(self.slots@[idx as int].len() == SLOT_BYTES);
        assert(self.lens@[idx as int] <= SLOT_BYTES);
        let r = vstd::slice::slice_subrange(self.slots[idx].as_slice(), 0, len);
        proof {
            assert(r@ =~= self.stored(idx as int));
            if self.published().len() <= slot + self.spec_capacity() && slot < self.published().len() {
                lemma_recent_slot(self.history@, self.capacity as nat, slot as nat);
            }
        }
        r
    }
}

/// Within the last `cap` packets, the slot of a sequence number holds the
/// packet published under that number.
pub proof fn lemma_recent_slot(h: Seq<Seq<u8>>, cap: nat, k: nat)
    requires
        cap > 0,
        k < h.len(),
        h.len() <= k + cap,
    ensures
        slot_content(h, cap, k % cap) == h[k as int],
    decreases h.len(),
{
    let last = (h.len() - 1) as nat;
    if last == k {
    } else {
        assert(last % cap != k % cap) by (nonlinear_arith)
            requires
                k < last,
                last < k + cap,
                cap > 0,
        {
            assert(last == (last / cap) * cap + last % cap);
            assert(k == (k / cap) * cap + k % cap);
            if last % cap == k % cap {
                assert((last / cap - k / cap) * cap == last - k);
                if last / cap - k / cap >= 1 {
                    assert((last / cap - k / cap) * cap >= cap);
                } else {
                    assert((last / cap - k / cap) * cap <= 0);
                }
            }
        }
        lemma_recent_slot(h.drop_last(), cap, k);
    }
}

/// The law of the ring: after any sequence of publications, a reader asking
/// for sequence number `k` reads back exactly the packet published as `k`, as
/// long as fewer than `capacity` packets were published after it.
pub proof fn read_returns_published(ring: &BroadcastRing, k: nat)
    requires
        ring.wf(),
        ring.spec_capacity() > 0,
        k < ring.published().len(),
        ring.published().len() <= k + ring.spec_capacity(),
    ensures
        slot_content(ring.published(), ring.spec_capacity(), k % ring.spec_capacity())
            == ring.published()[k as int],
{
    lemma_recent_slot(ring.published(), ring.spec_capacity(), k);
}

/// What a sender thread does next.
#[derive(Clone, Copy, Debug, PartialEq, Eq, Structural)]
pub enum SenderAction {
    /// The forwarder is stopping: leave the loop.
    Stop,
    /// Send the packet with this sequence number.
    Send(u64),
    /// Nothing new was published: yield and look again.
    Wait,
}

/// One decision of a sender thread that has sent everything before `cursor`,
/// when `published` packets are available: stop when asked to, otherwise send
/// the next packet if there is one, otherwise wait. Gives the action and the
/// cursor after it.
pub open spec fn sender_next(stop: bool, cursor: u64, published: u64) -> (SenderAction, u64) {
    if stop {
        (SenderAction::Stop, cursor)
    } else if cursor < published {
        (SenderAction::Send(cursor), (cursor + 1) as u64)
    } else {
        (SenderAction::Wait, cursor)
    }
}

/// Decides a sender thread's next step (see `sender_next`).
pub fn sender_step(stop: bool, cursor: u64, published: u64) -> (r: (SenderAction, u64))
    ensures
        r == sender_next(stop, cursor, published),
        stop ==> r == (SenderAction::Stop, cursor),
        !stop && cursor < published ==> r == (SenderAction::Send(cursor), (cursor + 1) as u64),
        !stop && cursor >= published ==> r == (SenderAction::Wait, cursor),
{
    if stop {
        (SenderAction::Stop, cursor)
    } else if cursor < published {
        (SenderAction::Send(cursor), cursor + 1)
    } else {
        (SenderAction::Wait, cursor)
    }
}

/// A sender never runs ahead of the writer: it only sends packets that were
/// published, in sequence order, and a cursor that has not passed the
/// published count never does.
pub proof fn sender_stays_behind_writer(stop: bool, cursor: u64, published: u64)
    requires
        cursor <= published,
    ensures
        sender_next(stop, cursor, published).1 <= published,
        sender_next(stop, cursor, published).0 matches SenderAction::Send(k) ==> k < published && k
            == cursor && sender_next(stop, cursor, published).1 == k + 1,
        sender_next(stop, cursor, published).0 !is Send ==> sender_next(stop, cursor, published).1
            == cursor,
{
}

/// Stopping wins: whatever the cursor and the published count, a sender told
/// to stop leaves its loop at once, with its cursor where it was; a sender not
/// told to stop never stops.
pub proof fn stop_wins(stop: bool, cursor: u64, published: u64)
    ensures
        stop ==> sender_next(stop, cursor, published) == (SenderAction::Stop, cursor),
        !stop ==> sender_next(stop, cursor, published).0 != SenderAction::Stop,
{
}

/// A sender that is not stopped sends exactly when something is pending:
/// with packets pending it sends the one at its cursor and advances by one;
/// when caught up it waits without moving.
pub proof fn sender_sends_iff_pending(cursor: u64, published: u64)
    ensures
        cursor < published ==> sender_next(false, cursor, published) == (SenderAction::Send(cursor), (
        cursor + 1) as u64),
        cursor >= published ==> sender_next(false, cursor, published) == (SenderAction::Wait, cursor),
{
}

/// `x + 1` in 64-bit wrapping arithmetic.
pub open spec fn wrapping_inc(x: u64) -> u64 {
    if x == u64::MAX { 0 } else { (x + 1) as u64 }
}

/// `x - y` in 64-bit wrapping arithmetic.
pub open spec fn wrapping_diff(x: u64, y: u64) -> u64 {
    if x >= y { (x - y) as u64 } else { (x + (u64::MAX - y) + 1) as u64 }
}

/// A progress report for the window: packets forwarded in total, and since the last report.
#[derive(Clone, Copy, Debug, PartialEq, Eq, Structural)]
pub struct ProgressReport {
    pub total: u64,
    pub since_last: u64,
}

/// The receiver's packet counter and the count at its last progress report.
#[derive(Clone, Copy, Debug, PartialEq, Eq, Structural)]
pub struct ForwardCounter {
    pub total: u64,
    pub last_report_total: u64,
}

impl ForwardCounter {
    /// A counter at zero.
    pub fn new() -> (r: Self)
        ensures
            r.total == 0,
            r.last_report_total == 0,
    {
        ForwardCounter { total: 0, last_report_total: 0 }
    }

    /// Counts one forwarded packet. When at least a second (`elapsed_ms`
    /// milliseconds since the last report) has passed, returns a report with
    /// the new total and the packets since the last report, and remembers the
    /// total as reported. The counter wraps around as an atomic counter does.
    pub fn record_packet(&mut self, elapsed_ms: u128) -> (r: Option<ProgressReport>)
        ensures
            final(self).total == wrapping_inc(old(self).total),
            elapsed_ms >= 1000 ==> r == Some(ProgressReport {
                total: final(self).total,
                since_last: wrapping_diff(final(self).total, old(self).last_report_total),
            }) && final(self).last_report_total == final(self).total,
            elapsed_ms < 1000 ==> r is None && final(self).last_report_total == old(self).last_report_total,
    {
        let total = if self.total == u64::MAX { 0 } else { self.total + 1 };
        self.total = total;
        if elapsed_ms >= 1000 {
            let last = self.last_report_total;
            let since_last = if total >= last { total - last } else { total + (u64::MAX - last) + 1 };
            self.last_report_total = total;
            Some(ProgressReport { total, since_last })
        } else {
            None
        }
    }
}

} // verus!
