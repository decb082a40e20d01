use std::collections::VecDeque;
use tokio::sync::broadcast::{Receiver, Sender};
use vstd::prelude::*;

verus! {

/// Where a console line came from.
#[derive(Debug, Clone, Copy, PartialEq, Eq, Structural)]
pub enum ConsoleStream {
    Stdout,
    Stderr,
    System,
}

/// One line of console output.
#[derive(Debug)]
pub struct ConsoleLine {
    /// Milliseconds since the Unix epoch.
    pub timestamp: u64,
    pub stream: ConsoleStream,
    pub line: String,
}

impl Clone for ConsoleLine {
    fn clone(&self) -> (r: Self)
        ensures
            r == *self,
    {
        ConsoleLine { timestamp: self.timestamp, stream: self.stream, line: self.line.clone() }
    }
}

/// How many lines the backlog keeps.
pub const BACKLOG_CAPACITY: usize = 5000;

/// How many undelivered lines the live channel buffers per subscriber.
pub const CHANNEL_CAPACITY: usize = 256;

#[verifier::external_type_specification]
#[verifier::external_body]
#[verifier::reject_recursive_types(T)]
pub struct ExBroadcastSender<T>(Sender<T>);

#[verifier::external_type_specification]
#[verifier::external_body]
#[verifier::reject_recursive_types(T)]
pub struct ExBroadcastReceiver<T>(Receiver<T>);

/// The lines sent so far on the channel that `tx` sends on, oldest first.
pub uninterp spec fn sent_lines(tx: Sender<ConsoleLine>) -> Seq<ConsoleLine>;

/// Which channel `tx` sends on.
pub uninterp spec fn sender_channel(tx: Sender<ConsoleLine>) -> int;

/// Which channel `rx` receives from.
pub uninterp spec fn receiver_channel(rx: Receiver<ConsoleLine>) -> int;

/// How many lines had been sent on its channel when `rx` was made: `rx` receives the
/// lines sent from that one on.
pub uninterp spec fn receiver_start(rx: Receiver<ConsoleLine>) -> nat;

/// `tokio::sync::broadcast::channel`: opens a channel that buffers `capacity` values,
/// on which nothing has been sent. The receiving half that it also returns is dropped at
/// once, so the channel starts with no subscriber. tokio panics on a capacity of 0 or
/// above `usize::MAX / 2`, which `requires` leaves out.
#[verifier::external_body]
fn open_broadcast(capacity: usize) -> (tx: Sender<ConsoleLine>)
    requires
        0 < capacity <= usize::MAX / 2,
    ensures
        sent_lines(tx) == Seq::<ConsoleLine>::empty(),
{
    let (tx, _rx) = tokio::sync::broadcast::channel(capacity);
    tx
}

/// `tokio::sync::broadcast::Sender::send`: sends `line` on the channel, to every current
/// subscriber; the sender stays on its channel. Whether any subscriber existed (the
/// result) depends on the channel's state and is not stated; the receivers themselves
/// are held elsewhere, so what each one then holds is not stated either.
#[verifier::external_body]
fn broadcast_send(tx: &mut Sender<ConsoleLine>, line: ConsoleLine) -> (delivered: bool)
    ensures
        sent_lines(*final(tx)) == sent_lines(*old(tx)).push(line),
        sender_channel(*final(tx)) == sender_channel(*old(tx)),
{
    tx.send(line).is_ok()
}

/// `tokio::sync::broadcast::Sender::subscribe`: a receiver on the sender's channel of the
/// values sent after this call (tokio's documentation of `subscribe`).
#[verifier::external_body]
fn broadcast_subscribe(tx: &Sender<ConsoleLine>) -> (rx: Receiver<ConsoleLine>)
    ensures
        receiver_channel(rx) == sender_channel(*tx),
        receiver_start(rx) == sent_lines(*tx).len(),
{
    tx.subscribe()
}

/// The backlog after `line` is pushed onto `backlog`: the oldest line leaves when the
/// backlog is full.
pub open spec fn pushed_backlog(backlog: Seq<ConsoleLine>, line: ConsoleLine) -> Seq<ConsoleLine> {
    if backlog.len() >= BACKLOG_CAPACITY {
        backlog.drop_first().push(line)
    } else {
        backlog.push(line)
    }
}

/// The most recent `BACKLOG_CAPACITY` lines of `all`.
pub open spec fn recent(all: Seq<ConsoleLine>) -> Seq<ConsoleLine> {
    if all.len() > BACKLOG_CAPACITY {
        all.subrange(all.len() - BACKLOG_CAPACITY, all.len() as int)
    } else {
        all
    }
}

/// Console output of one instance: a bounded backlog of recent lines and a live
/// broadcast channel. `owner` tags the bus with the instance it belongs to.
pub struct ConsoleBus {
    backlog: VecDeque<ConsoleLine>,
    tx: Sender<ConsoleLine>,
    owner: u64,
}

/// A live subscription to a console bus: `rx` receives the lines the bus broadcasts,
/// `owner` is the tag of the bus it was taken from.
pub struct Subscription {
    pub rx: Receiver<ConsoleLine>,
    pub owner: u64,
}

/// The backlog of a new bus after `lines` were pushed, one after another.
pub open spec fn backlog_after(lines: Seq<ConsoleLine>) -> Seq<ConsoleLine>
    decreases lines.len(),
{
    if lines.len() == 0 {
        Seq::empty()
    } else {
        pushed_backlog(backlog_after(lines.drop_last()), lines.last())
    }
}

impl View for ConsoleBus {
    type V = Seq<ConsoleLine>;

    closed spec fn view(&self) -> Seq<ConsoleLine> {
        self.backlog@
    }
}

impl ConsoleBus {
    /// The backlog holds the most recent `BACKLOG_CAPACITY` lines sent on the channel, so
    /// at most that many.
    pub open spec fn wf(&self) -> bool {
        &&& self@.len() <= BACKLOG_CAPACITY
        &&& self@ == recent(sent_lines(self.channel()))
    }

    /// The tag of the instance this bus belongs to.
    pub closed spec fn owner(&self) -> u64 {
        self.owner
    }

    /// The broadcast channel of this bus.
    pub closed spec fn channel(&self) -> Sender<ConsoleLine> {
        self.tx
    }

    /// An empty bus, tagged 0.
    pub fn new() -> (bus: Self)
        ensures
            bus.wf(),
            bus@ == Seq::<ConsoleLine>::empty(),
            sent_lines(bus.channel()) == Seq::<ConsoleLine>::empty(),
            bus.owner() == 0,
    {
        Self::with_owner(0)
    }

    /// An empty bus, tagged `owner`.
    pub fn with_owner(owner: u64) -> (bus: Self)
        ensures
            bus.wf(),
            bus@ == Seq::<ConsoleLine>::empty(),
            sent_lines(bus.channel()) == Seq::<ConsoleLine>::empty(),
            bus.owner() == owner,
    {
        let tx = open_broadcast(CHANNEL_CAPACITY);
        let bus = ConsoleBus { backlog: VecDeque::new(), tx, owner };
        assert(bus@ =~= recent(sent_lines(bus.channel())));
        bus
    }

    /// Records `line` in the backlog, dropping the oldest line when the backlog is
    /// full, and sends it on the channel to the current subscribers.
    pub fn push(&mut self, line: ConsoleLine)
        requires
            old(self).wf(),
        ensures
            final(self).wf(),
            final(self)@ == pushed_backlog(old(self)@, line),
            final(self).owner() == old(self).owner(),
            sent_lines(final(self).channel()) == sent_lines(old(self).channel()).push(line),
            sender_channel(final(self).channel()) == sender_channel(old(self).channel()),
    {
        let copy = line.clone();
        if self.backlog.len() >= BACKLOG_CAPACITY {
            self.backlog.pop_front();
        }
        self.backlog.push_back(line);
        let _ = broadcast_send(&mut self.tx, copy);
        proof {
            lemma_backlog_keeps_recent(sent_lines(old(self).channel()), old(self)@, line);
        }
    }

    /// A subscription to this bus's channel: it receives every line pushed from now on.
    pub fn subscribe(&self) -> (sub: Subscription)
        ensures
            sub.owner == self.owner(),
            receiver_channel(sub.rx) == sender_channel(self.channel()),
            receiver_start(sub.rx) == sent_lines(self.channel()).len(),
    {
        Subscription { rx: broadcast_subscribe(&self.tx), owner: self.owner }
    }

    /// The backlog, oldest line first.
    pub fn backlog(&self) -> (lines: Vec<ConsoleLine>)
        ensures
            lines@ == self@,
    {
        let mut lines: Vec<ConsoleLine> = Vec::new();
        let n = self.backlog.len();
        let mut i: usize = 0;
        while i < n
            invariant
                n == self.backlog@.len(),
                i <= n,
                lines@ == self.backlog@.take(i as int),
            decreases n - i,
        {
            lines.push(self.backlog[i].clone());
            assert(self.backlog@.take(i + 1) =~= self.backlog@.take(i as int).push(self.backlog@[i as int]));
            i += 1;
        }
        assert(self.backlog@.take(n as int) =~= self.backlog@);
        lines
    }
}

/// Pushing keeps exactly the most recent `BACKLOG_CAPACITY` lines: when the backlog
/// holds the recent lines of everything pushed so far, it still does after one more push.
pub proof fn lemma_backlog_keeps_recent(all: Seq<ConsoleLine>, backlog: Seq<ConsoleLine>, line: ConsoleLine)
    requires
        backlog == recent(all),
    ensures
        pushed_backlog(backlog, line) == recent(all.push(line)),
        pushed_backlog(backlog, line).len() <= BACKLOG_CAPACITY,
{
    assert(pushed_backlog(backlog, line) =~= recent(all.push(line)));
}

/// A new bus that was pushed `lines`, one after another, holds the most recent
/// `BACKLOG_CAPACITY` of them, oldest first.
pub proof fn lemma_backlog_after(lines: Seq<ConsoleLine>)
    ensures
        backlog_after(lines) == recent(lines),
        backlog_after(lines).len() <= BACKLOG_CAPACITY,
    decreases lines.len(),
{
    if lines.len() == 0 {
        assert(recent(lines) =~= Seq::<ConsoleLine>::empty());
    } else {
        let prev = lines.drop_last();
        lemma_backlog_after(prev);
        lemma_backlog_keeps_recent(prev, backlog_after(prev), lines.last());
        assert(prev.push(lines.last()) =~= lines);
    }
}

/// A subscriber that is sent the backlog and then receives from its subscription sees a
/// contiguous run of the lines pushed, up to the last: the backlog `backlog` taken when
/// `start` lines had been sent (`sent_then`), followed by every line sent after those,
/// is the tail of everything sent (`sent_now`) from one point on. No line is missed or
/// repeated between the two.
pub proof fn lemma_backlog_then_live(
    sent_then: Seq<ConsoleLine>,
    sent_now: Seq<ConsoleLine>,
    backlog: Seq<ConsoleLine>,
    start: nat,
)
    requires
        backlog == recent(sent_then),
        start == sent_then.len(),
        sent_then.len() <= sent_now.len(),
        sent_now.subrange(0, sent_then.len() as int) == sent_then,
    ensures
        ({
            let from = if sent_then.len() > BACKLOG_CAPACITY { sent_then.len() - BACKLOG_CAPACITY } else { 0 };
            backlog + sent_now.subrange(start as int, sent_now.len() as int) == sent_now.subrange(from, sent_now.len() as int)
        }),
{
    let from = if sent_then.len() > BACKLOG_CAPACITY { sent_then.len() - BACKLOG_CAPACITY } else { 0 };
    assert forall|k: int| 0 <= k < sent_then.len() implies #[trigger] sent_now[k] == sent_then[k] by {
        assert(sent_now.subrange(0, sent_then.len() as int)[k] == sent_now[k]);
    }
    assert(backlog + sent_now.subrange(start as int, sent_now.len() as int) =~= sent_now.subrange(from, sent_now.len() as int));
}

} // verus!
