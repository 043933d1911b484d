use async_concurrent_primitives::mpsc::{channel, Inner};
use std::sync::Arc;

#[test]
fn places_are_not_dropped() {
    let value = Arc::new(());
    let mut inner: Inner<Arc<()>, 2> = Inner::new();
    inner.send(value.clone());
    inner.send(value.clone());
    drop(inner);
    assert_eq!(Arc::strong_count(&value), 3);
}

#[test]
fn nothing_is_received() {
    let (tx, mut rx) = channel::<i32, 2>();
    let tx2 = tx.clone();
    tx.send(1);
    tx2.send(2);
    assert_eq!(rx.recv(), None);
}
