use async_concurrent_primitives::mpmc::bounded::{bounded, Channel, RxError, TxError};
use async_concurrent_primitives::mpmc::queue::Queue;
use async_concurrent_primitives::sync::Poll;
use std::sync::atomic::{AtomicUsize, Ordering};
use std::sync::Arc;
use std::task::{Wake, Waker};

struct Count(AtomicUsize);

impl Wake for Count {
    fn wake(self: Arc<Self>) {
        self.0.fetch_add(1, Ordering::SeqCst);
    }
}

fn task() -> (Arc<Count>, Waker) {
    let count = Arc::new(Count(AtomicUsize::new(0)));
    (count.clone(), Waker::from(count))
}

fn woken(count: &Arc<Count>) -> usize {
    count.0.load(Ordering::SeqCst)
}

#[test]
fn first_in_first_out() {
    let (tx, rx) = bounded::<i32, 4>();
    let mut sent = 0;
    let mut received = 0;
    for round in 0..50 {
        for _ in 0..(round % 5) {
            if tx.try_send(sent) == Ok(()) {
                sent += 1;
            }
        }
        for _ in 0..(round % 3) {
            if let Ok(v) = rx.try_recv() {
                assert_eq!(v, received);
                received += 1;
            }
        }
        assert!(sent - received <= 4);
    }
    while let Ok(v) = rx.try_recv() {
        assert_eq!(v, received);
        received += 1;
    }
    assert_eq!(sent, received);
    assert!(sent > 8);
}

#[test]
fn a_receive_makes_room() {
    let (tx, rx) = bounded::<i32, 2>();
    assert_eq!(tx.try_send(1), Ok(()));
    assert_eq!(tx.try_send(2), Ok(()));
    assert_eq!(tx.try_send(3), Err(TxError::Full));
    assert_eq!(rx.try_recv(), Ok(1));
    assert_eq!(tx.try_send(3), Ok(()));
    assert_eq!(rx.try_recv(), Ok(2));
    assert_eq!(rx.try_recv(), Ok(3));
}

#[test]
fn what_is_left_is_received_after_the_senders_are_gone() {
    let (tx, rx) = bounded::<i32, 2>();
    tx.try_send(1).unwrap();
    tx.try_send(2).unwrap();
    drop(tx);
    assert_eq!(rx.try_recv(), Ok(1));
    assert_eq!(rx.try_recv(), Ok(2));
    assert_eq!(rx.try_recv(), Err(RxError::NoValueToRead));
    // Nothing will ever come, and no one waits for it.
    let (count, waker) = task();
    assert_eq!(rx.recv().try_poll(waker), None);
    assert_eq!(woken(&count), 0);
    assert_eq!(Arc::strong_count(&count), 1);
}

#[test]
fn one_receiver_left_keeps_the_channel_open() {
    let (tx, rx) = bounded::<i32, 2>();
    let tx2 = tx.clone();
    let rx2 = rx.clone();
    drop(rx);
    assert_eq!(tx.try_send(1), Ok(()));
    drop(tx);
    assert_eq!(tx2.try_send(2), Ok(()));
    assert_eq!(rx2.try_recv(), Ok(1));
    drop(rx2);
    assert_eq!(tx2.try_send(3), Err(TxError::Closed));
    let (_count, waker) = task();
    let mut send = tx2.send(4);
    assert_eq!(send.poll(waker), Poll::Ready(Err(TxError::Closed)));
    assert!(send.has_value());
}

#[test]
fn tasks_are_woken_in_order() {
    let (tx, rx) = bounded::<i32, 2>();
    let (first, first_waker) = task();
    let (second, second_waker) = task();
    assert_eq!(rx.recv().poll(first_waker), Poll::Pending);
    assert_eq!(rx.recv().poll(second_waker), Poll::Pending);
    tx.try_send(1).unwrap();
    assert_eq!((woken(&first), woken(&second)), (1, 0));
    tx.try_send(2).unwrap();
    assert_eq!((woken(&first), woken(&second)), (1, 1));
    assert_eq!(tx.try_send(3), Err(TxError::Full));
    assert_eq!((woken(&first), woken(&second)), (1, 1));

    let (third, third_waker) = task();
    let (fourth, fourth_waker) = task();
    let mut send3 = tx.send(3);
    let mut send4 = tx.send(4);
    assert_eq!(send3.poll(third_waker.clone()), Poll::Pending);
    assert_eq!(send4.poll(fourth_waker), Poll::Pending);
    assert!(send3.has_value());
    assert_eq!(rx.try_recv(), Ok(1));
    assert_eq!((woken(&third), woken(&fourth)), (1, 0));
    assert_eq!(send3.poll(third_waker), Poll::Ready(Ok(())));
    assert!(!send3.has_value());
    assert_eq!(rx.try_recv(), Ok(2));
    assert_eq!((woken(&third), woken(&fourth)), (1, 1));
}

#[test]
fn a_value_may_own_a_handle_of_its_channel() {
    struct Loop(#[allow(dead_code)] async_concurrent_primitives::mpmc::bounded::Tx<Loop, 1>);
    let (tx, rx) = bounded::<Loop, 1>();
    tx.try_send(Loop(tx.clone())).unwrap();
    assert_eq!(tx.try_send(Loop(tx.clone())), Err(TxError::Full));
    drop(rx.try_recv());
    drop(rx);
    assert_eq!(tx.try_send(Loop(tx.clone())), Err(TxError::Closed));
}

#[test]
fn channel_keeps_what_it_does_not_use() {
    let mut channel: Channel<i32, 1> = Channel::new();
    let (_count, waker) = task();
    let mut val = Some(1);
    let mut slot = Some(waker);
    let (r, w) = channel.poll_send(&mut val, &mut slot);
    assert_eq!(r, Poll::Ready(Ok(())));
    assert!(w.is_none() && val.is_none() && slot.is_some());
    let mut val = Some(2);
    let (r, w) = channel.poll_send(&mut val, &mut slot);
    assert_eq!(r, Poll::Pending);
    assert!(w.is_none() && val == Some(2) && slot.is_none());
    let (_count, waker) = task();
    let mut slot = Some(waker);
    let (r, w) = channel.poll_recv(&mut slot);
    assert_eq!(r, Poll::Ready(Ok(1)));
    assert!(w.is_some() && slot.is_some());
    let (r, w) = channel.poll_recv(&mut slot);
    assert_eq!(r, Poll::Pending);
    assert!(w.is_none() && slot.is_none());
    let (r, w) = channel.try_send(&mut val);
    assert_eq!(r, Ok(()));
    assert!(w.is_some() && val.is_none());
    let (r, w) = channel.try_recv();
    assert_eq!(r, Ok(2));
    assert!(w.is_none());
}

#[test]
fn cloning_and_dropping_cancel_out() {
    let mut queue: Queue<i32, 1> = Queue::new();
    queue.add_tx();
    queue.add_rx();
    queue.drop_tx();
    queue.drop_rx();
    assert_eq!(queue.try_send(&mut Some(1)), Ok(()));
    assert_eq!(queue.try_recv(), Ok(1));
    queue.drop_tx();
    assert_eq!(queue.try_send(&mut Some(1)), Err(TxError::Closed));
    assert_eq!(queue.try_recv(), Err(RxError::NoValueToRead));
}

#[test]
fn polling_again_after_the_value_is_sent() {
    let (tx, rx) = bounded::<i32, 2>();
    let (_count, waker) = task();
    let mut send = tx.send(1);
    assert_eq!(send.try_poll(waker.clone()), Some(Poll::Ready(Ok(()))));
    // There is room, but nothing to send.
    assert_eq!(send.try_poll(waker.clone()), None);
    assert_eq!(tx.try_send(2), Ok(()));
    assert_eq!(send.try_poll(waker.clone()), Some(Poll::Pending));
    assert_eq!(rx.try_recv(), Ok(1));
    assert_eq!(rx.try_recv(), Ok(2));
    assert_eq!(rx.try_recv(), Err(RxError::NoValueToRead));
    drop(rx);
    assert_eq!(send.try_poll(waker), Some(Poll::Ready(Err(TxError::Closed))));
}

#[test]
fn sending_by_try_poll_wakes_a_receiver() {
    let (tx, rx) = bounded::<i32, 1>();
    let (receiver, receiver_waker) = task();
    let (_count, waker) = task();
    assert_eq!(rx.recv().poll(receiver_waker), Poll::Pending);
    let mut send = tx.send(1);
    assert_eq!(send.try_poll(waker.clone()), Some(Poll::Ready(Ok(()))));
    assert_eq!(woken(&receiver), 1);
    let mut send = tx.send(2);
    assert_eq!(send.try_poll(waker.clone()), Some(Poll::Pending));
    assert!(send.has_value());
    assert_eq!(rx.try_recv(), Ok(1));
    assert_eq!(send.poll(waker), Poll::Ready(Ok(())));
    assert_eq!(rx.try_recv(), Ok(2));
}

#[test]
fn a_new_channel_takes_its_capacity() {
    let (tx, rx) = bounded::<i32, 5>();
    assert_eq!(rx.try_recv(), Err(RxError::NoValueToRead));
    for v in 0..5 {
        assert_eq!(tx.try_send(v), Ok(()));
    }
    assert_eq!(tx.try_send(5), Err(TxError::Full));
}

#[test]
fn closed_just_when_a_side_is_gone() {
    let mut queue: Queue<i32, 2> = Queue::new();
    assert!(queue.has_room());
    queue.add_tx();
    queue.add_rx();
    queue.drop_rx();
    queue.drop_tx();
    assert!(queue.has_room());
    assert_eq!(queue.try_send(&mut Some(1)), Ok(()));
    queue.drop_tx();
    assert!(!queue.has_room());
    assert_eq!(queue.try_send(&mut Some(2)), Err(TxError::Closed));
    // The tail is open as long as there is a receiver.
    assert_eq!(queue.try_recv(), Ok(1));

    let mut queue: Queue<i32, 2> = Queue::new();
    assert_eq!(queue.try_send(&mut Some(1)), Ok(()));
    queue.drop_rx();
    assert_eq!(queue.try_send(&mut Some(2)), Err(TxError::Closed));
    assert_eq!(queue.try_recv(), Err(RxError::NoValueToRead));
}

#[test]
fn a_receiver_waits_while_a_sender_is_left() {
    let (tx, rx) = bounded::<i32, 2>();
    let tx2 = tx.clone();
    drop(tx);
    let (count, waker) = task();
    assert_eq!(rx.recv().try_poll(waker.clone()), Some(Poll::Pending));
    assert_eq!(tx2.try_send(1), Ok(()));
    assert_eq!(woken(&count), 1);
    drop(tx2);
    assert_eq!(rx.recv().try_poll(waker.clone()), Some(Poll::Ready(Ok(1))));
    assert_eq!(rx.recv().try_poll(waker), None);
}

#[test]
fn receiving_by_try_poll_wakes_a_sender() {
    let (tx, rx) = bounded::<i32, 1>();
    let (sender, sender_waker) = task();
    let (_count, waker) = task();
    assert_eq!(tx.try_send(1), Ok(()));
    let mut send = tx.send(2);
    assert_eq!(send.poll(sender_waker), Poll::Pending);
    assert_eq!(rx.recv().try_poll(waker), Some(Poll::Ready(Ok(1))));
    assert_eq!(woken(&sender), 1);
}
