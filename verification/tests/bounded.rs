use async_concurrent_primitives::mpmc::bounded::{bounded, RxError, RxRef, TxError, TxRef};
use async_concurrent_primitives::sync::Poll;
use std::sync::atomic::{AtomicUsize, Ordering};
use std::sync::mpsc::TryRecvError;
use loom::thread;
use std::future::Future;
use std::pin::Pin;
use std::sync::Arc;
use std::task::{Context, Wake, Waker};

/// Counts how often its task is woken up.
struct Count(AtomicUsize);

impl Wake for Count {
    fn wake(self: Arc<Self>) {
        self.0.fetch_add(1, Ordering::SeqCst);
    }
}

fn task() -> (Arc<Count>, Waker) {
    let count = Arc::new(Count(AtomicUsize::new(0)));
    (count.clone(), Waker::from(count))
}

fn woken(count: &Arc<Count>) -> usize {
    count.0.load(Ordering::SeqCst)
}

/// A task of the channel, as a future.
struct Task<F>(F);

impl<'a, const N: usize> Future for Task<TxRef<'a, i32, N>> {
    type Output = Result<(), TxError>;
    fn poll(mut self: Pin<&mut Self>, cx: &mut Context<'_>) -> std::task::Poll<Self::Output> {
        match self.0.poll(cx.waker().clone()) {
            Poll::Ready(r) => std::task::Poll::Ready(r),
            Poll::Pending => std::task::Poll::Pending,
        }
    }
}

impl<'a, const N: usize> Future for Task<RxRef<'a, i32, N>> {
    type Output = Result<i32, RxError>;
    fn poll(mut self: Pin<&mut Self>, cx: &mut Context<'_>) -> std::task::Poll<Self::Output> {
        match self.0.poll(cx.waker().clone()) {
            Poll::Ready(r) => std::task::Poll::Ready(r),
            Poll::Pending => std::task::Poll::Pending,
        }
    }
}

#[test]
fn try_send_and_try_recv() {
    loom::model(|| {
        let (tx, rx) = bounded::<i32, 10>();
        tx.try_send(42).unwrap();
        assert_eq!(rx.try_recv().unwrap(), 42);
    });
}

#[test]
fn try_send_and_try_recv_multi_thread() {
    loom::model(|| {
        let (tx, rx) = bounded::<i32, 10>();
        tx.try_send(42).unwrap();

        let jh = thread::spawn(move || {
            assert_eq!(rx.try_recv().unwrap(), 42);
        });
        jh.join().unwrap();
    });
}

#[test]
fn drop_rx() {
    loom::model(|| {
        let (tx, rx) = bounded::<i32, 10>();
        drop(rx);
        assert_eq!(tx.try_send(42), Err(TxError::Closed))
    });
}

#[test]
fn drop_tx() {
    loom::model(|| {
        let (tx, rx) = bounded::<i32, 10>();
        drop(tx);
        assert_eq!(rx.try_recv(), Err(RxError::NoValueToRead))
    });
}

#[test]
fn clone_rx() {
    loom::model(|| {
        let (tx, rx) = bounded::<i32, 10>();
        let rx2 = rx.clone();
        drop(rx);
        tx.try_send(42).unwrap();
        assert_eq!(rx2.try_recv(), Ok(42));
    });
}

#[test]
fn clone_drop_rx() {
    loom::model(|| {
        let (tx, rx) = bounded::<i32, 10>();
        let rx2 = rx.clone();
        let jh = thread::spawn(move || drop(rx2));
        tx.try_send(42).unwrap();
        assert_eq!(rx.try_recv(), Ok(42));
        jh.join().unwrap();
    });
}

#[test]
fn send_multiple_value() {
    loom::model(|| {
        let (tx, rx) = bounded::<i32, 10>();
        let rx2 = rx.clone();
        tx.try_send(42).unwrap();
        let jh = thread::spawn(move || {
            assert_eq!(rx2.try_recv(), Ok(42));
        });
        jh.join().unwrap();
        assert_eq!(rx.try_recv(), Err(RxError::NoValueToRead));

        tx.try_send(43).unwrap();
        assert_eq!(rx.try_recv(), Ok(43));
    });
}

#[test]
fn max_cap() {
    loom::model(|| {
        let (tx, _rx) = bounded::<i32, 1>();
        assert_eq!(tx.try_send(0), Ok(()));
        assert_eq!(tx.try_send(0), Err(TxError::Full));
    });
}

#[test]
fn send_wake_up() {
    loom::model(|| {
        let (tx, rx) = bounded::<i32, 1>();
        let (count, waker) = task();

        let mut task = tx.send(1);
        assert_eq!(task.poll(waker.clone()), Poll::Ready(Ok(())));

        let mut task = tx.send(2);
        assert_eq!(task.poll(waker.clone()), Poll::Pending);

        assert_eq!(woken(&count), 0);
        assert_eq!(rx.try_recv(), Ok(1));
        assert_eq!(woken(&count), 1);
        assert_eq!(task.poll(waker), Poll::Ready(Ok(())));
        assert_eq!(rx.try_recv(), Ok(2));
    });
}

#[test]
fn recv_wake_up() {
    loom::model(|| {
        let (tx, rx) = bounded::<i32, 1>();
        let (count, waker) = task();

        let mut rx_task = rx.recv();
        assert_eq!(rx_task.poll(waker.clone()), Poll::Pending);

        let mut tx_task = tx.send(1);
        assert_eq!(woken(&count), 0);
        assert_eq!(tx_task.poll(waker.clone()), Poll::Ready(Ok(())));
        assert_eq!(woken(&count), 1);

        assert_eq!(rx_task.poll(waker), Poll::Ready(Ok(1)));
    });
}

#[test]
fn send_wake_up_multi_thread() {
    loom::model(|| {
        let (tx, rx) = bounded::<i32, 2>();

        let jh = thread::spawn(move || {
            loom::future::block_on(async {
                let v = Task(rx.recv()).await.unwrap();

                assert_eq!(v, 1);
            });
        });

        loom::future::block_on(async {
            Task(tx.send(1)).await.unwrap();
        });

        jh.join().unwrap()
    });
}

#[test]
fn multi_threads_send_recv() {
    loom::model(|| {
        let num_task = 1;
        let msg_per_task = 1;
        let num_threads = 2;

        let (tx, rx) = bounded::<i32, 10>();

        let mut jhs = vec![];
        for _ in 0..num_threads {
            let tx = tx.clone();
            let jh = thread::spawn(move || {
                for i in 0..num_task {
                    loom::future::block_on(async {
                        for j in 0..msg_per_task {
                            tx.try_send(j + msg_per_task * i).unwrap();
                        }
                    });
                }
            });
            jhs.push(jh);
        }

        loom::future::block_on(async {
            let mut num_msg = 0;
            loop {
                if let Ok(_) = rx.try_recv() {
                    num_msg += 1;
                }
                if num_task * msg_per_task <= num_msg {
                    break;
                }

                thread::yield_now();
            }
        });

        for jh in jhs.drain(..) {
            jh.join().unwrap();
        }
    });
}

#[test]
fn inner_drop() {
    loom::model(|| {
        struct A(std::sync::mpsc::Sender<()>);
        impl Drop for A {
            fn drop(&mut self) {
                self.0.send(()).unwrap();
            }
        }

        let (sender, receiver) = std::sync::mpsc::channel::<()>();

        {
            let a1 = A(sender.clone());
            let a2 = A(sender);

            let (tx, _rx) = bounded::<A, 10>();

            tx.try_send(a1).unwrap();
            tx.try_send(a2).unwrap();
        }

        assert_eq!(receiver.try_recv().unwrap(), ());
        assert_eq!(receiver.try_recv().unwrap(), ());
        assert_eq!(receiver.try_recv(), Err(TryRecvError::Disconnected));
    });
}
