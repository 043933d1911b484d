use async_concurrent_primitives::oneshot::{
    channel, Channel, Inner, Rx, RxRef, COMPLETE, RECEIVER_WAIT, SENDER_SET,
};
use async_concurrent_primitives::sync::Poll;
use loom::{future::block_on, thread};
use std::future::Future;
use std::mem::ManuallyDrop;
use std::pin::Pin;
use std::sync::atomic::{AtomicUsize, Ordering};
use std::sync::Arc;
use std::task::{Context, Wake, Waker};

struct Count(AtomicUsize);

impl Wake for Count {
    fn wake(self: Arc<Self>) {
        self.0.fetch_add(1, Ordering::SeqCst);
    }
}

fn task() -> (Arc<Count>, Waker) {
    let count = Arc::new(Count(AtomicUsize::new(0)));
    (count.clone(), Waker::from(count))
}

fn woken(count: &Arc<Count>) -> usize {
    count.0.load(Ordering::SeqCst)
}

struct Task<'a, T>(RxRef<'a, T>);

impl<'a, T> Future for Task<'a, T> {
    type Output = Option<T>;
    fn poll(mut self: Pin<&mut Self>, cx: &mut Context<'_>) -> std::task::Poll<Self::Output> {
        match self.0.poll(cx.waker().clone()) {
            Poll::Ready(r) => std::task::Poll::Ready(r),
            Poll::Pending => std::task::Poll::Pending,
        }
    }
}

#[test]
fn recv() {
    loom::model(|| {
        let (tx, mut rx) = channel();

        let jh = thread::spawn(move || {
            block_on(async {
                let res = Task(rx.recv()).await.unwrap();
                assert_eq!(res, 42);
            });
        });

        block_on(async {
            tx.send(42);
        });

        jh.join().unwrap();
    });
}

#[test]
fn oneshot_try_recv_once() {
    let (tx, rx) = channel();
    assert_eq!(rx.try_recv(), None);
    tx.send(42);
    assert_eq!(rx.try_recv(), Some(42));
    assert_eq!(rx.try_recv(), None);
}

#[test]
fn oneshot_first_value_counts() {
    let (tx, rx) = channel();
    tx.send(1);
    tx.send(2);
    assert_eq!(rx.try_recv(), Some(1));
    tx.send(3);
    assert_eq!(rx.try_recv(), None);
}

#[test]
fn oneshot_wakes_the_last_waker() {
    let (tx, mut rx): (_, Rx<i32>) = channel();
    let (first, first_waker) = task();
    let (second, second_waker) = task();
    assert_eq!(rx.poll(first_waker), Poll::Pending);
    assert_eq!(rx.poll(second_waker), Poll::Pending);
    tx.send(7);
    assert_eq!(woken(&first), 0);
    assert_eq!(woken(&second), 1);
    let (third, third_waker) = task();
    assert_eq!(rx.recv().poll(third_waker.clone()), Poll::Ready(Some(7)));
    assert_eq!(rx.poll(third_waker), Poll::Ready(None));
    assert_eq!(woken(&third), 0);
}

#[test]
fn oneshot_sent_before_poll_wakes_no_one() {
    let (tx, mut rx) = channel();
    let (count, waker) = task();
    tx.send(7);
    assert_eq!(rx.poll(waker), Poll::Ready(Some(7)));
    assert_eq!(woken(&count), 0);
}

#[test]
fn oneshot_refused_value_is_kept() {
    let mut chan: Channel<i32> = Channel::new();
    let mut val = Some(1);
    assert!(chan.send(&mut val).is_none());
    assert_eq!(val, None);
    let mut val = Some(2);
    assert!(chan.send(&mut val).is_none());
    assert_eq!(val, Some(2));
    assert_eq!(chan.try_recv(), Some(1));
}

#[test]
fn oneshot_state_words() {
    let mut inner: Inner<i32> = Inner::new();
    assert_eq!(inner.load(), 0);
    assert!(inner.waker().is_none());
    let (count, waker) = task();
    let mut slot = Some(Arc::new(waker));
    assert!(matches!(inner.poll(&mut slot), Poll::Pending));
    assert!(slot.is_none());
    assert_eq!(inner.load(), RECEIVER_WAIT);
    let mut val = Some(ManuallyDrop::new(5));
    assert!(inner.send(&mut val));
    assert_eq!(inner.load(), SENDER_SET | RECEIVER_WAIT);
    // The waker stays.
    inner.waker().unwrap().wake_by_ref();
    assert_eq!(woken(&count), 1);
    assert!(inner.waker().is_some());
    assert_eq!(inner.try_recv().map(ManuallyDrop::into_inner), Some(5));
    assert_eq!(inner.load(), COMPLETE);
    assert!(inner.waker().is_some());
}

#[test]
fn oneshot_receiver_waits_while_sending() {
    // The sender looks at the state, the receiver begins to wait, the sender goes on.
    let mut inner: Inner<i32> = Inner::new();
    let loaded = inner.load();
    let (_count, waker) = task();
    let mut slot = Some(Arc::new(waker));
    assert!(matches!(inner.poll(&mut slot), Poll::Pending));
    let mut val = Some(ManuallyDrop::new(5));
    assert!(inner.send_from(loaded, &mut val));
    assert!(val.is_none());
    assert_eq!(inner.try_recv().map(ManuallyDrop::into_inner), Some(5));
}

#[test]
fn oneshot_value_comes_while_polling() {
    // The receiver looks at the state, the value is sent, the receiver goes on.
    let mut inner: Inner<i32> = Inner::new();
    let loaded = inner.load();
    let mut val = Some(ManuallyDrop::new(5));
    assert!(!inner.send(&mut val));
    let (_count, waker) = task();
    let mut slot = Some(Arc::new(waker));
    match inner.poll_from(loaded, &mut slot) {
        Poll::Ready(Some(v)) => assert_eq!(ManuallyDrop::into_inner(v), 5),
        _ => panic!("the value was sent"),
    }
    assert_eq!(inner.load(), COMPLETE);
}

#[test]
fn oneshot_stale_try_recv_finds_nothing() {
    let mut inner: Inner<i32> = Inner::new();
    let mut val = Some(ManuallyDrop::new(5));
    inner.send(&mut val);
    let loaded = inner.load();
    assert_eq!(inner.try_recv_from(loaded).map(ManuallyDrop::into_inner), Some(5));
    assert!(inner.try_recv_from(loaded).is_none());
}

#[test]
fn oneshot_wakes_by_reference() {
    let (tx, mut rx): (_, Rx<i32>) = channel();
    let (count, waker) = task();
    assert_eq!(rx.poll(waker), Poll::Pending);
    assert_eq!(Arc::strong_count(&count), 2);
    tx.send(1);
    assert_eq!(woken(&count), 1);
    assert_eq!(rx.try_recv(), Some(1));
    // The channel keeps the waker until it is gone itself.
    assert_eq!(Arc::strong_count(&count), 2);
    drop(tx);
    drop(rx);
    assert_eq!(Arc::strong_count(&count), 1);
}

#[test]
fn oneshot_value_not_received_is_not_dropped() {
    let value = Arc::new(());
    let (tx, rx) = channel();
    tx.send(value.clone());
    // A value that is refused is dropped at once.
    tx.send(value.clone());
    assert_eq!(Arc::strong_count(&value), 2);
    drop(tx);
    drop(rx);
    assert_eq!(Arc::strong_count(&value), 2);

    let (tx, rx) = channel();
    tx.send(value.clone());
    assert_eq!(Arc::strong_count(&value), 3);
    drop(rx.try_recv());
    assert_eq!(Arc::strong_count(&value), 2);
}
