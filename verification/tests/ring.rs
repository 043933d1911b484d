use async_concurrent_primitives::mpmc::bounded::{RxError, TxError};
use async_concurrent_primitives::mpmc::layout::next_power_of_two;
use async_concurrent_primitives::mpmc::ring::{Inner, RecvCheck, RecvStep, SendCheck};

#[test]
fn powers_of_two() {
    let expected = [1, 2, 4, 4, 8, 8, 8, 8, 16, 16];
    for n in 1..=10usize {
        assert_eq!(next_power_of_two(n), expected[n - 1]);
        assert_eq!(next_power_of_two(n), n.next_power_of_two());
    }
}

#[test]
fn fields_of_a_cursor() {
    let ring: Inner<u8, 10> = Inner::new();
    assert_eq!(ring.get_closed_bit(), 16);
    assert_eq!(ring.one_lap(), 32);
    let ring: Inner<u8, 1> = Inner::new();
    assert_eq!(ring.get_closed_bit(), 2);
    assert_eq!(ring.one_lap(), 4);
    let ring: Inner<u8, 4> = Inner::new();
    assert_eq!(ring.carry_up_next_power_of_two(), 8);
    assert_eq!(ring.one_lap(), 16);
}

#[test]
fn reading_a_cursor() {
    // | lap | closed | position |
    let ring: Inner<u8, 20> = Inner::new();
    assert_eq!(ring.get_buf_index(0b10_1_01101), 0b01101);
    assert_eq!(ring.pack_pos(0b01101, 0b10_1_01100), 0b10_1_01101);
    assert!(ring.is_closed(0b10_1_01101));
    assert!(!ring.is_closed(0b10_0_01101));
}

#[test]
fn advancing_a_cursor() {
    let ring: Inner<u8, 10> = Inner::new();
    assert_eq!(ring.advance(0), 1);
    assert_eq!(ring.advance(9), 32);
    assert_eq!(ring.advance(32), 33);
    assert_eq!(ring.advance(41), 64);
}

#[test]
fn a_lap_ahead_is_full() {
    let mut ring: Inner<u8, 2> = Inner::new();
    assert!(!ring.is_full(ring.load_head(), ring.load_tail()));
    for v in 0..2 {
        assert!(!ring.is_full(ring.load_head(), ring.load_tail()));
        assert_eq!(ring.try_send(&mut Some(v)), Ok(()));
    }
    assert!(ring.is_full(ring.load_head(), ring.load_tail()));
    ring.drop_rx();
    assert!(ring.is_full(ring.load_head(), ring.load_tail()));
}

#[test]
fn many_laps() {
    let mut ring: Inner<u32, 3> = Inner::new();
    for v in 0..100 {
        assert_eq!(ring.try_send(&mut Some(v)), Ok(()));
        assert_eq!(ring.try_recv(), Ok(v));
    }
    for lap in 0..100 {
        for v in 0..3 {
            assert_eq!(ring.try_send(&mut Some(3 * lap + v)), Ok(()));
        }
        let mut refused = Some(7);
        assert_eq!(ring.try_send(&mut refused), Err(TxError::Full));
        assert_eq!(refused, Some(7));
        for v in 0..3 {
            assert_eq!(ring.try_recv(), Ok(3 * lap + v));
        }
        assert_eq!(ring.try_recv(), Err(RxError::NoValueToRead));
    }
}

#[test]
fn one_bucket_many_laps() {
    let mut ring: Inner<u32, 1> = Inner::new();
    for v in 0..10 {
        assert_eq!(ring.try_send(&mut Some(v)), Ok(()));
        assert_eq!(ring.try_send(&mut Some(v)), Err(TxError::Full));
        assert_eq!(ring.try_recv(), Ok(v));
        assert_eq!(ring.try_recv(), Err(RxError::NoValueToRead));
    }
}

#[test]
fn laps_taken_off() {
    let mut ring: Inner<u32, 3> = Inner::new();
    for v in 0..8 {
        assert_eq!(ring.try_send(&mut Some(v)), Ok(()));
        assert_eq!(ring.try_recv(), Ok(v));
    }
    assert_eq!(ring.try_send(&mut Some(8)), Ok(()));
    assert_eq!(ring.load_head(), 3 * 8);
    assert_eq!(ring.load_tail(), 2 * 8 + 2);
    assert!(ring.lap_left());
    ring.rebase();
    assert_eq!(ring.load_head(), 8);
    assert_eq!(ring.load_tail(), 2);
    assert_eq!(ring.try_send(&mut Some(9)), Ok(()));
    assert_eq!(ring.try_send(&mut Some(10)), Ok(()));
    assert_eq!(ring.try_send(&mut Some(11)), Err(TxError::Full));
    assert_eq!(ring.try_recv(), Ok(8));
    assert_eq!(ring.try_recv(), Ok(9));
    assert_eq!(ring.try_recv(), Ok(10));
    assert_eq!(ring.try_recv(), Err(RxError::NoValueToRead));
}

#[test]
fn senders_publish_out_of_order() {
    let mut ring: Inner<u8, 2> = Inner::new();
    assert_eq!(ring.start_send(), Ok(0));
    assert_eq!(ring.start_send(), Ok(1));
    assert_eq!(ring.start_send(), Err(TxError::Full));
    ring.write_at(1, 11);
    ring.publish(1);
    // The first bucket is claimed but not published.
    assert_eq!(ring.start_recv(), Err(RxError::NoValueToRead));
    assert!(ring.just_inserted());
    assert!(matches!(ring.recv_step(), RecvStep::Again));
    ring.write_at(0, 10);
    ring.publish(0);
    assert_eq!(ring.get_stamp(0), 1);
    assert!(matches!(ring.recv_step(), RecvStep::Done(Ok(10))));
    assert!(matches!(ring.recv_step(), RecvStep::Done(Ok(11))));
    assert!(matches!(ring.recv_step(), RecvStep::Wait));
}

#[test]
fn a_slow_receiver_holds_its_bucket() {
    let mut ring: Inner<u8, 2> = Inner::new();
    assert_eq!(ring.try_send(&mut Some(10)), Ok(()));
    assert_eq!(ring.try_send(&mut Some(11)), Ok(()));
    assert_eq!(ring.start_recv(), Ok(0));
    assert_eq!(ring.try_recv(), Ok(11));
    // The next bucket is the one that is still being read.
    assert_eq!(ring.try_send(&mut Some(12)), Err(TxError::Full));
    assert_eq!(ring.read_at(0), 10);
    ring.release(0);
    assert_eq!(ring.get_stamp(0), 8);
    assert_eq!(ring.try_send(&mut Some(12)), Ok(()));
    assert_eq!(ring.try_recv(), Ok(12));
}

#[test]
fn overtaken_senders_look_again() {
    let mut ring: Inner<u8, 2> = Inner::new();
    let loaded = ring.load_head();
    // Another sender claims the bucket and has not published it yet.
    assert_eq!(ring.start_send(), Ok(0));
    assert_eq!(ring.start_send_from(loaded), Ok(1));
    assert_eq!(ring.start_send_from(loaded), Err(TxError::Full));
    ring.write_at(0, 10);
    ring.publish(0);
    // The bucket is published, so the old head is behind its stamp.
    assert_eq!(ring.start_send_from(loaded), Err(TxError::Full));
    assert_eq!(ring.try_recv(), Ok(10));
    assert_eq!(ring.start_send_from(loaded), Ok(0));
}

#[test]
fn overtaken_receivers_look_again() {
    let mut ring: Inner<u8, 2> = Inner::new();
    assert_eq!(ring.try_send(&mut Some(10)), Ok(()));
    assert_eq!(ring.try_send(&mut Some(11)), Ok(()));
    let loaded = ring.load_tail();
    // Another receiver takes the bucket and has not released it yet.
    assert_eq!(ring.start_recv(), Ok(0));
    assert_eq!(ring.start_recv_from(loaded), Ok(1));
    assert_eq!(ring.read_at(0), 10);
    ring.release(0);
    assert_eq!(ring.start_recv_from(loaded), Err(RxError::NoValueToRead));
}

#[test]
fn closing_overtakes_a_sender() {
    let mut ring: Inner<u8, 1> = Inner::new();
    let loaded = ring.load_head();
    ring.drop_rx();
    assert!(ring.is_closed(ring.load_head()));
    assert!(ring.is_closed(ring.load_tail()));
    assert_eq!(ring.start_send_from(loaded), Err(TxError::Closed));
    assert_eq!(ring.start_send(), Err(TxError::Closed));

    let mut ring: Inner<u8, 1> = Inner::new();
    assert_eq!(ring.try_send(&mut Some(1)), Ok(()));
    let loaded = ring.load_head();
    ring.drop_rx();
    // It saw the full ring before it was closed.
    assert_eq!(ring.start_send_from(loaded), Err(TxError::Full));
    assert_eq!(ring.start_send(), Err(TxError::Closed));
    assert_eq!(ring.start_recv(), Err(RxError::NoValueToRead));
    // The value that is left keeps the tail behind the head.
    assert!(ring.just_inserted());
    assert!(matches!(ring.recv_step(), RecvStep::Again));
}

#[test]
fn a_closed_head_is_ahead_of_an_open_tail() {
    let mut ring: Inner<u8, 2> = Inner::new();
    assert!(!ring.just_inserted());
    assert!(matches!(ring.recv_step(), RecvStep::Wait));
    ring.drop_tx();
    assert!(ring.just_inserted());
    assert!(matches!(ring.recv_step(), RecvStep::Again));
    ring.drop_rx();
    assert!(!ring.just_inserted());
    assert!(matches!(ring.recv_step(), RecvStep::Wait));
}

#[test]
fn any_bucket_is_read_as_it_was_written() {
    let mut ring: Inner<u8, 3> = Inner::new();
    ring.write_at(2, 12);
    ring.write_at(0, 10);
    assert_eq!(ring.read_at(2), 12);
    assert_eq!(ring.start_send(), Ok(0));
    ring.publish(0);
    // Published, and not taken.
    assert_eq!(ring.read_at(0), 10);
    assert_eq!((ring.load_head(), ring.load_tail()), (1, 0));
}

#[test]
fn handles_are_counted() {
    let mut ring: Inner<u8, 1> = Inner::new();
    ring.add_tx();
    ring.drop_tx();
    assert!(!ring.is_closed(ring.load_head()));
    ring.drop_tx();
    assert!(ring.is_closed(ring.load_head()));
    assert!(!ring.is_closed(ring.load_tail()));
    ring.add_rx();
    ring.drop_rx();
    assert!(!ring.is_closed(ring.load_tail()));
    ring.drop_rx();
    assert!(ring.is_closed(ring.load_tail()));
}

#[test]
fn a_sender_is_overtaken_between_check_and_commit() {
    let mut ring: Inner<u8, 2> = Inner::new();
    let loaded = ring.load_head();
    let SendCheck::Ready { next } = ring.check_send(loaded) else {
        panic!("an unused bucket awaits a sender");
    };
    assert_eq!(next, 1);
    // Another sender goes the whole way meanwhile.
    assert_eq!(ring.start_send(), Ok(0));
    ring.write_at(0, 10);
    ring.publish(0);
    assert_eq!(ring.commit_send(loaded, next), Err(1));
    assert!(matches!(ring.check_send(loaded), SendCheck::Stale));
    let SendCheck::Ready { next } = ring.check_send(1) else {
        panic!("the second bucket awaits a sender");
    };
    // One lap of two buckets is worth eight.
    assert_eq!(next, 8);
    assert_eq!(ring.commit_send(1, next), Ok(1));
    assert!(matches!(ring.check_send(ring.load_head()), SendCheck::Full));
    ring.drop_tx();
    assert!(matches!(ring.check_send(ring.load_head()), SendCheck::Closed));
}

#[test]
fn closing_overtakes_a_sender_between_check_and_commit() {
    let mut ring: Inner<u8, 2> = Inner::new();
    let loaded = ring.load_head();
    let SendCheck::Ready { next } = ring.check_send(loaded) else {
        panic!("an unused bucket awaits a sender");
    };
    ring.drop_rx();
    let closed = ring.load_head();
    assert!(ring.is_closed(closed));
    assert_eq!(ring.commit_send(loaded, next), Err(closed));
    assert_eq!(ring.start_send(), Err(TxError::Closed));
}

#[test]
fn a_receiver_is_overtaken_between_check_and_commit() {
    let mut ring: Inner<u8, 2> = Inner::new();
    assert!(matches!(ring.check_recv(ring.load_tail()), RecvCheck::Empty));
    assert_eq!(ring.try_send(&mut Some(10)), Ok(()));
    assert_eq!(ring.try_send(&mut Some(11)), Ok(()));
    let loaded = ring.load_tail();
    let RecvCheck::Ready { next } = ring.check_recv(loaded) else {
        panic!("the first bucket holds a value");
    };
    assert_eq!(ring.try_recv(), Ok(10));
    assert_eq!(ring.commit_recv(loaded, next), Err(1));
    assert!(matches!(ring.check_recv(loaded), RecvCheck::Stale));
    let RecvCheck::Ready { next } = ring.check_recv(1) else {
        panic!("the second bucket holds a value");
    };
    assert_eq!(next, 8);
    assert_eq!(ring.commit_recv(1, next), Ok(1));
    assert_eq!(ring.read_at(1), 11);
    ring.release(1);
    assert!(matches!(ring.check_recv(ring.load_tail()), RecvCheck::Empty));
}

#[test]
fn words_of_a_new_ring() {
    let ring: Inner<u8, 3> = Inner::new();
    assert_eq!((ring.load_head(), ring.load_tail()), (0, 0));
    for i in 0..3 {
        assert_eq!(ring.get_stamp(i), i);
    }
    assert!(ring.has_room());
}

#[test]
fn words_of_a_send_and_a_receive() {
    // A lap of three buckets is worth eight.
    let mut ring: Inner<u8, 3> = Inner::new();
    for v in 0..3 {
        assert_eq!(ring.try_send(&mut Some(v)), Ok(()));
    }
    assert_eq!((ring.load_head(), ring.load_tail()), (8, 0));
    assert_eq!((ring.get_stamp(0), ring.get_stamp(1), ring.get_stamp(2)), (1, 2, 3));
    // What is refused changes no word.
    assert_eq!(ring.try_send(&mut Some(3)), Err(TxError::Full));
    assert_eq!((ring.load_head(), ring.load_tail()), (8, 0));
    assert_eq!(ring.try_recv(), Ok(0));
    assert_eq!((ring.load_head(), ring.load_tail()), (8, 1));
    assert_eq!((ring.get_stamp(0), ring.get_stamp(1), ring.get_stamp(2)), (8, 2, 3));
    assert_eq!(ring.try_recv(), Ok(1));
    assert_eq!(ring.try_recv(), Ok(2));
    assert_eq!((ring.load_head(), ring.load_tail()), (8, 8));
    assert!(matches!(ring.recv_step(), RecvStep::Wait));
    assert_eq!(ring.start_recv(), Err(RxError::NoValueToRead));
    assert_eq!((ring.load_head(), ring.load_tail()), (8, 8));
}

#[test]
fn dropping_the_last_handle_adds_the_closed_bit_alone() {
    let mut ring: Inner<u8, 3> = Inner::new();
    for v in 0..4 {
        assert_eq!(ring.try_send(&mut Some(v)), Ok(()));
        assert_eq!(ring.try_recv(), Ok(v));
    }
    assert_eq!(ring.try_send(&mut Some(4)), Ok(()));
    let (head, tail) = (ring.load_head(), ring.load_tail());
    assert_eq!((head, tail), (10, 9));
    ring.add_tx();
    ring.drop_tx();
    assert_eq!((ring.load_head(), ring.load_tail()), (head, tail));
    ring.drop_tx();
    assert_eq!((ring.load_head(), ring.load_tail()), (head | ring.get_closed_bit(), tail));
    ring.drop_rx();
    assert_eq!(ring.load_head(), head | ring.get_closed_bit());
    assert_eq!(ring.load_tail(), tail | ring.get_closed_bit());
}

#[test]
fn what_was_written_is_read() {
    let mut ring: Inner<u8, 2> = Inner::new();
    assert_eq!(ring.start_send(), Ok(0));
    assert_eq!(ring.start_send(), Ok(1));
    ring.write_at(0, 10);
    ring.write_at(1, 11);
    // Before it is published, the sender itself can read it.
    assert_eq!(ring.read_at(0), 10);
    ring.write_at(0, 12);
    ring.publish(0);
    assert_eq!(ring.start_recv(), Ok(0));
    ring.publish(1);
    assert_eq!(ring.start_recv(), Ok(1));
    assert_eq!(ring.read_at(1), 11);
    ring.release(1);
    assert_eq!(ring.start_send(), Err(TxError::Full));
    assert_eq!(ring.read_at(0), 12);
}
