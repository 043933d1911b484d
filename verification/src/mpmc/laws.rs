//! What holds of a bounded channel over any run of operations.

use crate::mpmc::bounded::{ChannelState, RxError, TxError};
use crate::mpmc::queue::QueueState;
use crate::sync::Poll;
use std::task::Waker;
use vstd::prelude::*;

verus! {

/// An operation on a channel.
pub enum Op<T> {
    TrySend(T),
    TryRecv,
    PollSend(T, Waker),
    PollRecv(Waker),
    AddTx,
    AddRx,
    DropTx,
    DropRx,
}

/// What a run of operations has done, in order.
#[verifier::ext_equal]
pub struct Log<T> {
    /// The values that were accepted.
    pub accepted: Seq<T>,
    /// The values that were received.
    pub received: Seq<T>,
    /// The senders that began to wait.
    pub tx_waited: Seq<Waker>,
    /// The senders that were woken up.
    pub tx_woken: Seq<Waker>,
    /// The receivers that began to wait.
    pub rx_waited: Seq<Waker>,
    /// The receivers that were woken up.
    pub rx_woken: Seq<Waker>,
}

/// `s` with `x` behind it, if there is an `x`.
pub open spec fn push_some<A>(s: Seq<A>, x: Option<A>) -> Seq<A> {
    match x {
        Some(x) => s.push(x),
        None => s,
    }
}

impl<T> Op<T> {
    /// The channel of capacity `n` after the operation.
    pub open spec fn apply(self, n: nat, s: ChannelState<T>) -> ChannelState<T> {
        match self {
            Op::TrySend(v) => s.after_send(n, v),
            Op::TryRecv => s.after_recv(),
            Op::PollSend(v, waker) => s.after_poll_send(n, v, waker),
            Op::PollRecv(waker) => if s.stuck() {
                s
            } else {
                s.after_poll_recv(waker)
            },
            Op::AddTx => s.with_queue(s.queue.add_tx()),
            Op::AddRx => s.with_queue(s.queue.add_rx()),
            Op::DropTx => s.with_queue(s.queue.drop_tx()),
            Op::DropRx => s.with_queue(s.queue.drop_rx()),
        }
    }

    /// What the operation adds to the log of a channel of capacity `n`.
    pub open spec fn record(self, n: nat, s: ChannelState<T>, log: Log<T>) -> Log<T> {
        match self {
            Op::TrySend(v) => if s.send_result(n) is Ok {
                Log {
                    accepted: log.accepted.push(v),
                    rx_woken: push_some(log.rx_woken, s.woken_by_send(n)),
                    ..log
                }
            } else {
                log
            },
            Op::PollSend(v, waker) => match s.poll_send_result(n) {
                Poll::Pending => Log { tx_waited: log.tx_waited.push(waker), ..log },
                Poll::Ready(Ok(_)) => Log {
                    accepted: log.accepted.push(v),
                    rx_woken: push_some(log.rx_woken, s.woken_by_send(n)),
                    ..log
                },
                Poll::Ready(Err(_)) => log,
            },
            Op::TryRecv => match s.recv_result() {
                Ok(v) => Log {
                    received: log.received.push(v),
                    tx_woken: push_some(log.tx_woken, s.woken_by_recv()),
                    ..log
                },
                Err(_) => log,
            },
            Op::PollRecv(waker) => if s.stuck() {
                log
            } else {
                match s.poll_recv_result() {
                    Poll::Pending => Log { rx_waited: log.rx_waited.push(waker), ..log },
                    Poll::Ready(Ok(v)) => Log {
                        received: log.received.push(v),
                        tx_woken: push_some(log.tx_woken, s.woken_by_recv()),
                        ..log
                    },
                    Poll::Ready(Err(_)) => log,
                }
            },
            _ => log,
        }
    }
}

/// A fresh channel of capacity `n` after a run of operations.
pub open spec fn after<T>(n: nat, ops: Seq<Op<T>>) -> ChannelState<T>
    decreases ops.len(),
{
    if ops.len() == 0 {
        ChannelState::fresh()
    } else {
        ops.last().apply(n, after(n, ops.drop_last()))
    }
}

/// The log of a run of operations on a fresh channel of capacity `n`.
pub open spec fn log<T>(n: nat, ops: Seq<Op<T>>) -> Log<T>
    decreases ops.len(),
{
    if ops.len() == 0 {
        Log {
            accepted: Seq::empty(),
            received: Seq::empty(),
            tx_waited: Seq::empty(),
            tx_woken: Seq::empty(),
            rx_waited: Seq::empty(),
            rx_woken: Seq::empty(),
        }
    } else {
        ops.last().record(n, after(n, ops.drop_last()), log(n, ops.drop_last()))
    }
}

/// The values accepted are the values received followed by the values in the
/// channel: every value is received at most once, none is lost, and they come
/// out in the order in which they went in.
pub proof fn law_fifo<T>(n: nat, ops: Seq<Op<T>>)
    ensures
        log(n, ops).accepted == log(n, ops).received + after(n, ops).queue.values,
    decreases ops.len(),
{
    if ops.len() > 0 {
        law_fifo(n, ops.drop_last());
    }
    assert(log(n, ops).accepted =~= log(n, ops).received + after(n, ops).queue.values);
}

/// A channel of capacity `n` never holds more than `n` values.
pub proof fn law_capacity<T>(n: nat, ops: Seq<Op<T>>)
    ensures
        after(n, ops).within(n),
        after(n, ops).queue.values.len() <= n,
    decreases ops.len(),
{
    if ops.len() > 0 {
        law_capacity(n, ops.drop_last());
    }
}

/// Tasks are woken up in the order in which they began to wait, each at most
/// once for each time that it began to wait.
pub proof fn law_woken_in_order<T>(n: nat, ops: Seq<Op<T>>)
    ensures
        log(n, ops).tx_waited == log(n, ops).tx_woken + after(n, ops).tx_waiting,
        log(n, ops).rx_waited == log(n, ops).rx_woken + after(n, ops).rx_waiting,
    decreases ops.len(),
{
    if ops.len() > 0 {
        law_woken_in_order(n, ops.drop_last());
    }
    assert(log(n, ops).tx_waited =~= log(n, ops).tx_woken + after(n, ops).tx_waiting);
    assert(log(n, ops).rx_waited =~= log(n, ops).rx_woken + after(n, ops).rx_waiting);
}

/// A closed channel refuses every value, and stays as it is.
pub proof fn law_closed_refuses<T>(n: nat, s: ChannelState<T>, v: T, waker: Waker)
    requires
        s.queue.head_closed,
    ensures
        s.send_result(n) == Err::<(), TxError>(TxError::Closed),
        s.poll_send_result(n) == Poll::Ready(Err::<(), TxError>(TxError::Closed)),
        s.after_send(n, v) == s,
        s.after_poll_send(n, v, waker) == s,
        s.woken_by_send(n) is None,
{
}

/// A channel that was closed stays closed.
pub proof fn law_closed_for_good<T>(n: nat, s: ChannelState<T>, op: Op<T>)
    ensures
        s.queue.head_closed ==> op.apply(n, s).queue.head_closed,
        s.queue.tail_closed ==> op.apply(n, s).queue.tail_closed,
{
}

/// When the last receiver is gone, every value is refused.
pub proof fn law_no_receivers<T>(n: nat, s: ChannelState<T>)
    requires
        s.queue.rx_count == 1,
    ensures
        s.with_queue(s.queue.drop_rx()).send_result(n) == Err::<(), TxError>(TxError::Closed),
{
}

/// When the last sender is gone, what is in the channel is still received, and
/// then there is no value to read.
pub proof fn law_no_senders<T>(s: ChannelState<T>)
    requires
        s.queue.tx_count == 1,
    ensures
        ({
            let u = s.with_queue(s.queue.drop_tx());
            &&& u.queue.head_closed
            &&& u.queue.values == s.queue.values
            &&& u.recv_result() == s.recv_result()
            &&& s.queue.values.len() == 0 ==> u.recv_result() == Err::<T, RxError>(
                RxError::NoValueToRead,
            )
        }),
{
}

/// As long as a handle is left on a side, dropping another does not close it.
pub proof fn law_handles_left<T>(s: ChannelState<T>)
    ensures
        s.queue.tx_count > 1 ==> s.queue.drop_tx().head_closed == s.queue.head_closed,
        s.queue.rx_count > 1 ==> s.queue.drop_rx().head_closed == s.queue.head_closed
            && s.queue.drop_rx().tail_closed == s.queue.tail_closed,
{
}

impl<T> Op<T> {
    /// The operation is that of a handle that there is, and a handle that it
    /// adds can be counted.
    pub open spec fn by_handle(self, s: ChannelState<T>) -> bool {
        match self {
            Op::TrySend(_) => s.queue.tx_count >= 1,
            Op::PollSend(_, _) => s.queue.tx_count >= 1,
            Op::DropTx => s.queue.tx_count >= 1,
            Op::AddTx => 1 <= s.queue.tx_count < usize::MAX,
            Op::TryRecv => s.queue.rx_count >= 1,
            Op::PollRecv(_) => s.queue.rx_count >= 1,
            Op::DropRx => s.queue.rx_count >= 1,
            Op::AddRx => 1 <= s.queue.rx_count < usize::MAX,
        }
    }
}

/// Each operation was that of a handle that there was when its turn came.
pub open spec fn by_handles<T>(n: nat, ops: Seq<Op<T>>) -> bool
    decreases ops.len(),
{
    ops.len() > 0 ==> {
        &&& by_handles(n, ops.drop_last())
        &&& ops.last().by_handle(after(n, ops.drop_last()))
    }
}

/// The tail is closed just when no receiver is left, and the head just when a
/// side has no handle left.
pub proof fn law_closed_just_when<T>(n: nat, ops: Seq<Op<T>>)
    requires
        by_handles(n, ops),
    ensures
        after(n, ops).queue.tail_closed <==> after(n, ops).queue.rx_count == 0,
        after(n, ops).queue.head_closed <==> after(n, ops).queue.tx_count == 0 || after(
            n,
            ops,
        ).queue.rx_count == 0,
    decreases ops.len(),
{
    if ops.len() > 0 {
        law_closed_just_when(n, ops.drop_last());
    }
}

/// A receiver that there is has nothing to look for just when the channel is
/// empty and all senders are gone.
pub proof fn law_stuck_just_when<T>(n: nat, ops: Seq<Op<T>>)
    requires
        by_handles(n, ops),
        after(n, ops).queue.rx_count >= 1,
    ensures
        after(n, ops).stuck() <==> after(n, ops).queue.values.len() == 0 && after(
            n,
            ops,
        ).queue.tx_count == 0,
{
    law_closed_just_when(n, ops);
}

/// A receiver that has nothing to look for never will have: whatever is done
/// with the channel, no value comes.
pub proof fn law_stuck_for_good<T>(n: nat, s: ChannelState<T>, op: Op<T>)
    requires
        s.stuck(),
        s.queue.tail_closed ==> s.queue.head_closed,
    ensures
        op.apply(n, s).queue.values == s.queue.values,
        op.apply(n, s).recv_result() is Err,
{
}

/// A run of sends.
pub open spec fn sends<T>(values: Seq<T>) -> Seq<Op<T>> {
    values.map_values(|v: T| Op::TrySend(v))
}

/// A new channel has nothing to receive, takes as many values as its capacity
/// says, and is full then.
pub proof fn law_new_channel<T>(n: nat, values: Seq<T>)
    requires
        1 <= n,
        values.len() <= n,
    ensures
        ChannelState::<T>::fresh().recv_result() == Err::<T, RxError>(RxError::NoValueToRead),
        !ChannelState::<T>::fresh().stuck(),
        ChannelState::<T>::fresh().poll_recv_result() is Pending,
        log(n, sends(values)).accepted == values,
        after(n, sends(values)) == ChannelState::<T>::fresh().with_queue(
            (QueueState { values, ..QueueState::<T>::fresh() }),
        ),
        after(n, sends(values)).send_result(n) == (if values.len() < n {
            Ok::<(), TxError>(())
        } else {
            Err::<(), TxError>(TxError::Full)
        }),
    decreases values.len(),
{
    if values.len() > 0 {
        law_new_channel(n, values.drop_last());
        assert(sends(values).drop_last() =~= sends(values.drop_last()));
        assert(values.drop_last().push(values.last()) =~= values);
    } else {
        assert(values =~= Seq::empty());
    }
    assert(after(n, sends(values)).queue.values =~= values);
    assert(after(n, sends(values)).rx_waiting =~= Seq::empty());
}

/// Dropping a handle undoes cloning one.
pub proof fn law_clone_drop<T>(s: ChannelState<T>)
    requires
        1 <= s.queue.tx_count < usize::MAX,
        1 <= s.queue.rx_count < usize::MAX,
    ensures
        s.queue.add_tx().drop_tx() == s.queue,
        s.queue.add_rx().drop_rx() == s.queue,
{
}

/// What is sent to an empty channel is what is received next, and the channel is
/// empty again.
pub proof fn law_send_recv<T>(n: nat, s: ChannelState<T>, v: T)
    requires
        1 <= n,
        s.queue.values.len() == 0,
        !s.queue.head_closed,
        !s.queue.tail_closed,
    ensures
        s.send_result(n) is Ok,
        s.after_send(n, v).recv_result() == Ok::<T, RxError>(v),
        s.after_send(n, v).after_recv().queue == s.queue,
{
    assert(s.after_send(n, v).after_recv().queue.values =~= s.queue.values);
}

/// A receive makes room for a send.
pub proof fn law_recv_makes_room<T>(n: nat, s: ChannelState<T>)
    requires
        s.within(n),
        s.recv_result() is Ok,
        !s.queue.head_closed,
    ensures
        s.after_recv().send_result(n) is Ok,
{
}

/// A channel that is not closed is full when it holds `n` values, and not before.
pub proof fn law_full<T>(n: nat, s: ChannelState<T>)
    requires
        s.within(n),
        !s.queue.head_closed,
    ensures
        s.send_result(n) == Err::<(), TxError>(TxError::Full) <==> s.queue.values.len() == n,
        s.send_result(n) is Ok <==> s.queue.values.len() < n,
{
}

/// A task that has to wait is in the list of its side, behind all others, and
/// nothing else changes.
pub proof fn law_pending_waits<T>(n: nat, s: ChannelState<T>, v: T, waker: Waker)
    ensures
        s.poll_send_result(n) is Pending ==> s.after_poll_send(n, v, waker) == (ChannelState {
            tx_waiting: s.tx_waiting.push(waker),
            ..s
        }),
        !s.stuck() && s.poll_recv_result() is Pending ==> s.after_poll_recv(waker) == (ChannelState {
            rx_waiting: s.rx_waiting.push(waker),
            ..s
        }),
{
}

/// A sender that waits alone for room is woken up by the next receive, and then
/// finds room.
pub proof fn law_send_wake_up<T>(n: nat, s: ChannelState<T>, v: T, waker: Waker)
    requires
        1 <= n,
        s.within(n),
        s.tx_waiting.len() == 0,
        !s.queue.tail_closed,
        s.poll_send_result(n) is Pending,
    ensures
        ({
            let u = s.after_poll_send(n, v, waker);
            &&& u.recv_result() is Ok
            &&& u.woken_by_recv() == Some(waker)
            &&& u.after_recv().poll_send_result(n) == Poll::Ready(Ok::<(), TxError>(()))
        }),
{
}

/// A receiver that waits alone for a value is woken up by the next send, and
/// then finds that value.
pub proof fn law_recv_wake_up<T>(n: nat, s: ChannelState<T>, v: T, waker: Waker)
    requires
        1 <= n,
        s.rx_waiting.len() == 0,
        !s.queue.head_closed,
        !s.queue.tail_closed,
        s.poll_recv_result() is Pending,
    ensures
        ({
            let u = s.after_poll_recv(waker);
            &&& u.send_result(n) is Ok
            &&& u.woken_by_send(n) == Some(waker)
            &&& !u.after_send(n, v).stuck()
            &&& u.after_send(n, v).poll_recv_result() == Poll::Ready(Ok::<T, RxError>(v))
        }),
{
}

/// A new channel is empty and open, has one handle on each side, and no one waits.
pub proof fn law_fresh<T>()
    ensures
        ChannelState::<T>::fresh().queue.values.len() == 0,
        !ChannelState::<T>::fresh().queue.head_closed,
        !ChannelState::<T>::fresh().queue.tail_closed,
        ChannelState::<T>::fresh().queue.tx_count == 1,
        ChannelState::<T>::fresh().queue.rx_count == 1,
        ChannelState::<T>::fresh().tx_waiting.len() == 0,
        ChannelState::<T>::fresh().rx_waiting.len() == 0,
{
}

/// A value is accepted just when senders are not refused and there is room, and
/// otherwise the error says which of the two it was.
pub proof fn law_send_decides<T>(n: nat, s: ChannelState<T>)
    ensures
        s.send_result(n) == Ok::<(), TxError>(()) <==> !s.queue.head_closed && s.queue.values.len()
            < n,
        s.send_result(n) == Err::<(), TxError>(TxError::Full) <==> !s.queue.head_closed
            && s.queue.values.len() >= n,
        s.send_result(n) == Err::<(), TxError>(TxError::Closed) <==> s.queue.head_closed,
{
}

/// A sender that would rather wait than be refused waits just while the channel
/// is open and full. It is never told that the channel is full.
pub proof fn law_poll_send_decides<T>(n: nat, s: ChannelState<T>)
    ensures
        s.poll_send_result(n) is Pending <==> !s.queue.head_closed && s.queue.values.len() >= n,
        s.within(n) && !s.queue.head_closed ==> (s.poll_send_result(n) is Pending
            <==> s.queue.values.len() == n),
        s.poll_send_result(n) == Poll::Ready(Ok::<(), TxError>(())) <==> !s.queue.head_closed
            && s.queue.values.len() < n,
        s.poll_send_result(n) == Poll::Ready(Err::<(), TxError>(TxError::Closed))
            <==> s.queue.head_closed,
        s.poll_send_result(n) != Poll::Ready(Err::<(), TxError>(TxError::Full)),
{
}

/// The oldest value is received just when there is one and receivers are not
/// refused. Otherwise there is no value to read, whatever the reason.
pub proof fn law_recv_decides<T>(s: ChannelState<T>)
    ensures
        s.queue.values.len() > 0 && !s.queue.tail_closed ==> s.recv_result() == Ok::<T, RxError>(
            s.queue.values[0],
        ),
        s.queue.values.len() == 0 || s.queue.tail_closed ==> s.recv_result() == Err::<T, RxError>(
            RxError::NoValueToRead,
        ),
{
}

/// A receiver that would rather wait than be refused gets the oldest value if it
/// may, and otherwise waits. It is never told that there is no value.
pub proof fn law_poll_recv_decides<T>(s: ChannelState<T>)
    ensures
        s.queue.values.len() > 0 && !s.queue.tail_closed ==> !s.stuck() && s.poll_recv_result()
            == Poll::Ready(Ok::<T, RxError>(s.queue.values[0])),
        s.queue.values.len() == 0 || s.queue.tail_closed ==> s.poll_recv_result() is Pending,
        !s.queue.tail_closed ==> (s.stuck() <==> s.queue.values.len() == 0 && s.queue.head_closed),
        s.queue.tail_closed ==> (s.stuck() <==> s.queue.values.len() > 0),
{
}

/// What an accepted value changes: it goes behind all others, and the receiver
/// that has waited longest, however many wait, is woken up and leaves the list.
/// Waiting for room makes no difference to that. A refused value changes nothing
/// and wakes up no one.
pub proof fn law_send_effect<T>(n: nat, s: ChannelState<T>, v: T, waker: Waker)
    ensures
        s.send_result(n) is Ok ==> {
            let u = s.after_send(n, v);
            &&& u.queue.values =~= s.queue.values + seq![v]
            &&& u.queue.head_closed == s.queue.head_closed
            &&& u.queue.tail_closed == s.queue.tail_closed
            &&& u.queue.tx_count == s.queue.tx_count
            &&& u.queue.rx_count == s.queue.rx_count
            &&& u.tx_waiting == s.tx_waiting
            &&& s.rx_waiting.len() > 0 ==> s.woken_by_send(n) == Some(s.rx_waiting[0])
                && u.rx_waiting =~= s.rx_waiting.drop_first()
            &&& s.rx_waiting.len() == 0 ==> s.woken_by_send(n) is None && u.rx_waiting.len() == 0
        },
        !(s.send_result(n) is Ok) ==> s.after_send(n, v) == s && s.woken_by_send(n) is None,
        !(s.poll_send_result(n) is Pending) ==> s.after_poll_send(n, v, waker) == s.after_send(n, v),
        s.poll_send_result(n) is Pending ==> {
            let u = s.after_poll_send(n, v, waker);
            &&& u.queue == s.queue
            &&& u.rx_waiting == s.rx_waiting
            &&& u.tx_waiting =~= s.tx_waiting + seq![waker]
        },
{
}

/// What a receive changes: the oldest value leaves, and the sender that has
/// waited longest, however many wait, is woken up and leaves the list. A refused
/// receive changes nothing and wakes up no one.
pub proof fn law_recv_effect<T>(s: ChannelState<T>, waker: Waker)
    ensures
        s.recv_result() is Ok ==> {
            let u = s.after_recv();
            &&& s.queue.values =~= seq![s.recv_result()->Ok_0] + u.queue.values
            &&& u.queue.head_closed == s.queue.head_closed
            &&& u.queue.tail_closed == s.queue.tail_closed
            &&& u.queue.tx_count == s.queue.tx_count
            &&& u.queue.rx_count == s.queue.rx_count
            &&& u.rx_waiting == s.rx_waiting
            &&& s.tx_waiting.len() > 0 ==> s.woken_by_recv() == Some(s.tx_waiting[0])
                && u.tx_waiting =~= s.tx_waiting.drop_first()
            &&& s.tx_waiting.len() == 0 ==> s.woken_by_recv() is None && u.tx_waiting.len() == 0
        },
        !(s.recv_result() is Ok) ==> s.after_recv() == s && s.woken_by_recv() is None,
        !(s.poll_recv_result() is Pending) ==> s.after_poll_recv(waker) == s.after_recv(),
        s.poll_recv_result() is Pending ==> {
            let u = s.after_poll_recv(waker);
            &&& u.queue == s.queue
            &&& u.tx_waiting == s.tx_waiting
            &&& u.rx_waiting =~= s.rx_waiting + seq![waker]
        },
{
}

/// What coming and going handles change: their count, and the closed flags when
/// the last one of a side goes. Values stay.
pub proof fn law_handle_effect<T>(q: QueueState<T>)
    ensures
        q.tx_count < usize::MAX ==> q.add_tx().tx_count == q.tx_count + 1,
        q.rx_count < usize::MAX ==> q.add_rx().rx_count == q.rx_count + 1,
        q.tx_count == usize::MAX ==> q.add_tx().tx_count == 0,
        q.rx_count == usize::MAX ==> q.add_rx().rx_count == 0,
        q.tx_count > 0 ==> q.drop_tx().tx_count == q.tx_count - 1,
        q.rx_count > 0 ==> q.drop_rx().rx_count == q.rx_count - 1,
        q.tx_count == 0 ==> q.drop_tx().tx_count == 0,
        q.rx_count == 0 ==> q.drop_rx().rx_count == 0,
        q.drop_tx().head_closed <==> q.head_closed || q.tx_count == 1,
        q.drop_rx().head_closed <==> q.head_closed || q.rx_count == 1,
        q.drop_rx().tail_closed <==> q.tail_closed || q.rx_count == 1,
        q.add_tx() == (QueueState { tx_count: q.add_tx().tx_count, ..q }),
        q.add_rx() == (QueueState { rx_count: q.add_rx().rx_count, ..q }),
        q.drop_tx() == (QueueState {
            tx_count: q.drop_tx().tx_count,
            head_closed: q.drop_tx().head_closed,
            ..q
        }),
        q.drop_rx() == (QueueState {
            rx_count: q.drop_rx().rx_count,
            head_closed: q.drop_rx().head_closed,
            tail_closed: q.drop_rx().tail_closed,
            ..q
        }),
{
}

/// How many sending handles there are after a run of operations: one to begin
/// with, one more for each clone, one less for each drop.
pub open spec fn tx_handles<T>(ops: Seq<Op<T>>) -> int
    decreases ops.len(),
{
    if ops.len() == 0 {
        1
    } else {
        tx_handles(ops.drop_last()) + match ops.last() {
            Op::AddTx => 1int,
            Op::DropTx => -1int,
            _ => 0int,
        }
    }
}

/// How many receiving handles there are after a run of operations.
pub open spec fn rx_handles<T>(ops: Seq<Op<T>>) -> int
    decreases ops.len(),
{
    if ops.len() == 0 {
        1
    } else {
        rx_handles(ops.drop_last()) + match ops.last() {
            Op::AddRx => 1int,
            Op::DropRx => -1int,
            _ => 0int,
        }
    }
}

/// The channel counts the handles that there are. Once no receiver is left, every
/// value is refused for that; once no sender is left, every value would be.
pub proof fn law_counts<T>(n: nat, ops: Seq<Op<T>>)
    requires
        by_handles(n, ops),
    ensures
        after(n, ops).queue.tx_count == tx_handles(ops),
        after(n, ops).queue.rx_count == rx_handles(ops),
        after(n, ops).queue.head_closed <==> tx_handles(ops) == 0 || rx_handles(ops) == 0,
        after(n, ops).queue.tail_closed <==> rx_handles(ops) == 0,
        tx_handles(ops) == 0 || rx_handles(ops) == 0 ==> after(n, ops).send_result(n) == Err::<
            (),
            TxError,
        >(TxError::Closed),
    decreases ops.len(),
{
    if ops.len() > 0 {
        law_counts(n, ops.drop_last());
    }
}

/// The next receive gives the next value in the order in which values were
/// accepted: if fewer were received than accepted, there is one, and it is that
/// one; if not, there is none.
pub proof fn law_next_received<T>(n: nat, ops: Seq<Op<T>>)
    requires
        by_handles(n, ops),
        rx_handles(ops) >= 1,
    ensures
        ({
            let accepted = log(n, ops).accepted;
            let received = log(n, ops).received;
            &&& received.len() <= accepted.len()
            &&& received =~= accepted.take(received.len() as int)
            &&& received.len() < accepted.len() ==> after(n, ops).recv_result() == Ok::<T, RxError>(
                accepted[received.len() as int],
            ) && after(n, ops).poll_recv_result() == Poll::Ready(
                Ok::<T, RxError>(accepted[received.len() as int]),
            )
            &&& received.len() == accepted.len() ==> after(n, ops).recv_result() == Err::<
                T,
                RxError,
            >(RxError::NoValueToRead)
            &&& received.len() == accepted.len() && tx_handles(ops) >= 1 ==> !after(n, ops).stuck()
                && after(n, ops).poll_recv_result() is Pending
        }),
{
    law_fifo(n, ops);
    law_counts(n, ops);
}

/// The next send is accepted if fewer than `n` values are on their way, and has
/// to wait or is refused as full if there are `n`. There are never more.
pub proof fn law_next_accepted<T>(n: nat, ops: Seq<Op<T>>)
    requires
        by_handles(n, ops),
        tx_handles(ops) >= 1,
        rx_handles(ops) >= 1,
    ensures
        ({
            let unread = log(n, ops).accepted.len() - log(n, ops).received.len();
            &&& 0 <= unread <= n
            &&& unread < n ==> after(n, ops).send_result(n) == Ok::<(), TxError>(()) && after(
                n,
                ops,
            ).poll_send_result(n) == Poll::Ready(Ok::<(), TxError>(()))
            &&& unread == n ==> after(n, ops).send_result(n) == Err::<(), TxError>(TxError::Full)
                && after(n, ops).poll_send_result(n) is Pending
        }),
{
    law_fifo(n, ops);
    law_capacity(n, ops);
    law_counts(n, ops);
}

/// Every accepted value wakes up the receiver that began to wait first of those
/// not woken up yet, and every receive the sender, as long as there is one.
pub proof fn law_next_woken<T>(n: nat, ops: Seq<Op<T>>)
    ensures
        ({
            let s = after(n, ops);
            let l = log(n, ops);
            &&& l.rx_woken.len() <= l.rx_waited.len()
            &&& l.tx_woken.len() <= l.tx_waited.len()
            &&& s.send_result(n) is Ok && l.rx_woken.len() < l.rx_waited.len()
                ==> s.woken_by_send(n) == Some(l.rx_waited[l.rx_woken.len() as int])
            &&& s.recv_result() is Ok && l.tx_woken.len() < l.tx_waited.len()
                ==> s.woken_by_recv() == Some(l.tx_waited[l.tx_woken.len() as int])
            &&& l.rx_woken.len() == l.rx_waited.len() ==> s.woken_by_send(n) is None
            &&& l.tx_woken.len() == l.tx_waited.len() ==> s.woken_by_recv() is None
        }),
{
    law_woken_in_order(n, ops);
}

/// One call of a handle: the channel that it found under the lock, and the one
/// that it left there.
pub struct Call<T> {
    pub op: Op<T>,
    pub found: ChannelState<T>,
    pub left: ChannelState<T>,
}

/// The operations of a history of calls.
pub open spec fn ops_of<T>(calls: Seq<Call<T>>) -> Seq<Op<T>> {
    calls.map_values(|call: Call<T>| call.op)
}

/// Each call found what the one before it left, the first one a fresh channel.
pub open spec fn linked<T>(n: nat, calls: Seq<Call<T>>) -> bool {
    forall|i: int|
        0 <= i < calls.len() ==> {
            &&& (#[trigger] calls[i]).left == calls[i].op.apply(n, calls[i].found)
            &&& calls[i].found == (if i == 0 {
                ChannelState::fresh()
            } else {
                calls[i - 1].left
            })
        }
}

/// A history of calls that each do one operation on what they find leaves the
/// channel as the run of those operations does, so what holds of runs holds of
/// the calls of handles, on whatever threads they are made.
pub proof fn law_calls<T>(n: nat, calls: Seq<Call<T>>)
    requires
        linked(n, calls),
    ensures
        forall|i: int|
            0 <= i < calls.len() ==> (#[trigger] calls[i]).found == after(
                n,
                ops_of(calls).take(i),
            ),
        calls.len() > 0 ==> calls.last().left == after(n, ops_of(calls)),
    decreases calls.len(),
{
    let ops = ops_of(calls);
    if calls.len() > 0 {
        let before = calls.drop_last();
        assert forall|i: int| 0 <= i < before.len() implies {
            &&& (#[trigger] before[i]).left == before[i].op.apply(n, before[i].found)
            &&& before[i].found == (if i == 0 {
                ChannelState::fresh()
            } else {
                before[i - 1].left
            })
        } by {
            assert(before[i] == calls[i]);
            if i > 0 {
                assert(before[i - 1] == calls[i - 1]);
            }
        }
        law_calls(n, before);
        assert(ops.drop_last() =~= ops_of(before));
        let last = calls.len() - 1;
        assert(calls[last].found == after(n, ops_of(before))) by {
            if last > 0 {
                assert(calls[last - 1] == before.last());
            }
        }
        assert forall|i: int| 0 <= i < calls.len() implies (#[trigger] calls[i]).found == after(
            n,
            ops.take(i),
        ) by {
            if i < last {
                assert(before[i] == calls[i]);
                assert(ops.take(i) =~= ops_of(before).take(i));
            } else {
                assert(ops.take(i) =~= ops_of(before));
            }
        }
    }
}

} // verus!
