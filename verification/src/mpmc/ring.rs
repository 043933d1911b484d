//! The ring of buckets that a bounded channel keeps its values in.
//!
//! ```text
//!   rx                   tx
//!    |                   |
//!   [ ]   -   [ ]   -   [ ]    -> ...
//!   tail                head
//! ```
//!
//! A sender claims the bucket at the head, writes its value, and then publishes
//! it; a receiver takes the bucket at the tail, reads the value, and then
//! releases the bucket. Each of these is one step of its own, and steps of any
//! number of senders and receivers may come in any order. The stamp of a bucket
//! tells whose turn it is: `pack(N, t)` when the bucket awaits the `t`-th send,
//! `pack(N, t) + 1` when it holds the `t`-th value.

use crate::mpmc::bounded::{RxError, TxError};
use crate::mpmc::interleaving::{at, lemma_at};
use crate::mpmc::layout::{
    closed_bit, lap, law_pack_increases, lemma_bit_is_parity, lemma_fields, lemma_four_laps,
    lemma_join, lemma_mask_is_mod, lemma_one_bit, lemma_pack_fields, lemma_pack_lap, lemma_pack_next,
    lemma_pack_shift, lemma_round_down, lemma_same_position, next_power_of_two, next_pow2, pack,
    valid_capacity,
};
use crate::sync::compare_exchange;
use vstd::arithmetic::div_mod::{
    lemma_add_mod_noop, lemma_add_mod_noop_right, lemma_div_plus_one, lemma_fundamental_div_mod,
    lemma_fundamental_div_mod_converse, lemma_mod_multiples_vanish,
};
use vstd::prelude::*;

verus! {

/// One bucket of the ring.
pub struct Bucket<T> {
    data: Option<T>,
    stamp: usize,
    ticket: Ghost<nat>,
}

/// The ring: its buckets, its cursors, and how many handles there are.
pub struct Inner<T, const N: usize> {
    bucket: Vec<Bucket<T>>,
    /// A place next sender will write to.
    head: usize,
    /// A place receiver will read from.
    tail: usize,
    tx_count: usize,
    rx_count: usize,
    claimed: Ghost<nat>,
    taken: Ghost<nat>,
}

/// What a bucket is used for, and what is in it.
pub enum Slot<T> {
    /// Nobody uses the bucket.
    Free(Option<T>),
    /// A sender holds the bucket.
    Claimed(Option<T>),
    /// The bucket is there for a receiver.
    Published(Option<T>),
    /// A receiver holds the bucket.
    Taken(Option<T>),
}

/// What is in a bucket.
pub open spec fn data<T>(slot: Slot<T>) -> Option<T> {
    match slot {
        Slot::Free(data) => data,
        Slot::Claimed(data) => data,
        Slot::Published(data) => data,
        Slot::Taken(data) => data,
    }
}

/// The same use of a bucket, with something else in it.
pub open spec fn with_data<T>(slot: Slot<T>, data: Option<T>) -> Slot<T> {
    match slot {
        Slot::Free(_) => Slot::Free(data),
        Slot::Claimed(_) => Slot::Claimed(data),
        Slot::Published(_) => Slot::Published(data),
        Slot::Taken(_) => Slot::Taken(data),
    }
}

/// What a sender makes of a head that it loaded and the stamp of the bucket
/// there.
pub enum SendCheck {
    /// The head refuses senders.
    Closed,
    /// The bucket is in use since the lap before.
    Full,
    /// The head has moved on.
    Stale,
    /// The bucket awaits this send, which moves the head on to `next`.
    Ready { next: usize },
}

/// What a receiver makes of a tail that it loaded and the stamp of the bucket
/// there.
pub enum RecvCheck {
    /// The bucket holds no value yet.
    Empty,
    /// The tail has moved on.
    Stale,
    /// The bucket holds the value, and taking it moves the tail on to `next`.
    Ready { next: usize },
}

/// What comes of one attempt to receive.
pub enum RecvStep<T> {
    /// The attempt is over.
    Done(Result<T, RxError>),
    /// There is nothing to receive.
    Wait,
    /// A sender is about to publish a value.
    Again,
}

/// A ring, without the way its cursors are packed.
#[verifier::ext_equal]
pub struct RingState<T> {
    pub slots: Seq<Slot<T>>,
    /// The bucket that the next sender claims.
    pub next_send: nat,
    /// The bucket that the next receiver takes.
    pub next_recv: nat,
    /// How many buckets senders have claimed that no receiver has taken.
    pub pending: nat,
    /// Whether the head refuses senders.
    pub head_closed: bool,
    /// Whether the tail refuses receivers.
    pub tail_closed: bool,
    pub tx_count: usize,
    pub rx_count: usize,
}

impl<T> Bucket<T> {
    /// What the bucket is used for, after `claimed` sends and `taken` receives.
    spec fn slot(self, n: nat, claimed: nat, taken: nat) -> Slot<T> {
        let t = self.ticket@;
        if self.stamp == pack(n, t) {
            if t >= claimed {
                Slot::Free(self.data)
            } else {
                Slot::Claimed(self.data)
            }
        } else if t >= taken {
            Slot::Published(self.data)
        } else {
            Slot::Taken(self.data)
        }
    }

    /// The bucket awaits the send of its ticket, or that send has published it.
    spec fn wf(self, n: nat, i: int, claimed: nat, taken: nat) -> bool {
        let t = self.ticket@;
        &&& t % n == i
        &&& t < taken + n
        &&& claimed <= t + n
        &&& {
            ||| {
                &&& self.stamp == pack(n, t)
                &&& taken <= t
            }
            ||| {
                &&& self.stamp == pack(n, t) + 1
                &&& t < claimed
            }
        }
    }
}

impl<T, const N: usize> View for Inner<T, N> {
    type V = RingState<T>;

    closed spec fn view(&self) -> RingState<T> {
        RingState {
            slots: Seq::new(
                self.bucket@.len(),
                |i: int| self.bucket@[i].slot(N as nat, self.claimed@, self.taken@),
            ),
            next_send: self.claimed@ % N as nat,
            next_recv: self.taken@ % N as nat,
            pending: (self.claimed@ - self.taken@) as nat,
            head_closed: self.head != pack(N as nat, self.claimed@),
            tail_closed: self.tail != pack(N as nat, self.taken@),
            tx_count: self.tx_count,
            rx_count: self.rx_count,
        }
    }
}

impl<T, const N: usize> Inner<T, N> {
    /// The ring is in a state that its operations lead to.
    pub closed spec fn wf(&self) -> bool {
        let n = N as nat;
        &&& valid_capacity(N)
        &&& self.bucket@.len() == N
        &&& self.taken@ <= self.claimed@ <= self.taken@ + n
        &&& pack(n, self.claimed@) + lap(n) <= usize::MAX
        &&& self.head == pack(n, self.claimed@) || self.head == pack(n, self.claimed@) + closed_bit(n)
        &&& self.tail == pack(n, self.taken@) || self.tail == pack(n, self.taken@) + closed_bit(n)
        &&& forall|i: int|
            0 <= i < N ==> (#[trigger] self.bucket@[i]).wf(n, i, self.claimed@, self.taken@)
    }

    /// The head can move on by two laps before the machine word is used up.
    pub closed spec fn has_lap_left(&self) -> bool {
        self.head + 2 * lap(N as nat) <= usize::MAX
    }
}

/// Whether the closed bit of a packed position is set.
pub open spec fn closed_in(n: nat, packed: nat) -> bool {
    (packed / closed_bit(n)) % 2 == 1
}

/// A packed position without its closed bit.
pub open spec fn opened(n: nat, packed: nat) -> int {
    if closed_in(n, packed) {
        packed - closed_bit(n)
    } else {
        packed as int
    }
}

/// A packed position with its closed bit.
pub open spec fn shut(n: nat, packed: nat) -> nat {
    if closed_in(n, packed) {
        packed
    } else {
        packed + closed_bit(n)
    }
}

/// Setting the closed bit of a word shuts the position that is packed in it,
/// and clearing it opens the position.
pub proof fn law_closed_bit(capacity: usize, packed: usize)
    requires
        valid_capacity(capacity),
        shut(capacity as nat, packed as nat) <= usize::MAX,
    ensures
        ({
            let n = capacity as nat;
            let bit = closed_bit(n) as usize;
            &&& bit | packed == shut(n, packed as nat)
            &&& packed & !bit == opened(n, packed as nat)
            &&& closed_in(n, packed as nat) <==> packed & bit != 0
            &&& shut(n, packed as nat) % next_pow2(n) == packed as nat % next_pow2(n)
            &&& closed_in(n, shut(n, packed as nat))
            &&& opened(n, shut(n, packed as nat)) == opened(n, packed as nat)
        }),
{
    let n = capacity as nat;
    lemma_fields(n);
    lemma_one_bit(packed, closed_bit(n) as usize);
    lemma_bit_is_parity(packed, closed_bit(n) as usize);
    let c = closed_bit(n) as int;
    assert(c * 1 == c && c * 0 == 0);
    let m = next_pow2(n) as int;
    lemma_fundamental_div_mod(c, m);
    lemma_mod_multiples_vanish(c / m, packed as int, m);
    lemma_div_plus_one(packed as int, c);
}

/// Where a cursor goes from `packed`: to the next bucket, or from the last
/// bucket to the first one of the next lap.
pub open spec fn advanced(n: nat, packed: nat) -> int {
    if packed % next_pow2(n) + 1 == n {
        packed + lap(n) - (packed + lap(n)) % lap(n)
    } else {
        packed + 1int
    }
}

/// A cursor moves from where operation `t` finds it to where the next one does.
proof fn lemma_advanced(n: nat, t: nat)
    requires
        1 <= n,
    ensures
        advanced(n, pack(n, t)) == pack(n, t + 1),
{
    lemma_fields(n);
    lemma_pack_fields(n, t);
    lemma_pack_next(n, t);
    lemma_pack_lap(n, t);
    lemma_pack_fields(n, t + n);
}

/// Moving on from where one operation finds a cursor leads to where the next one
/// does.
pub proof fn law_advanced(n: nat, t: nat)
    requires
        1 <= n,
    ensures
        advanced(n, pack(n, t)) == pack(n, t + 1),
{
    lemma_advanced(n, t);
}

/// A cursor moves on in the same way whatever the lap.
proof fn lemma_advanced_shift(n: nat, packed: nat, k: nat)
    requires
        1 <= n,
        k * lap(n) <= packed,
    ensures
        advanced(n, (packed - k * lap(n)) as nat) == advanced(n, packed) - k * lap(n),
{
    lemma_fields(n);
    let w = lap(n) as int;
    let m = next_pow2(n) as int;
    let low = packed - k * w;
    let q = w / m;
    lemma_fundamental_div_mod(w, m);
    assert(packed == m * (q * k) + low) by (nonlinear_arith)
        requires
            low == packed - k * w,
            w == m * q,
    ;
    lemma_mod_multiples_vanish(q * k, low, m);
    assert(packed + w == w * k + (low + w)) by (nonlinear_arith)
        requires
            low == packed - k * w,
    ;
    lemma_mod_multiples_vanish(k as int, low + w, w);
}

/// Reading and making packed positions.
impl<T, const N: usize> Inner<T, N> {
    /// Whether a cursor is marked as closed.
    pub fn is_closed(&self, packed: usize) -> (r: bool)
        requires
            valid_capacity(N),
        ensures
            r == closed_in(N as nat, packed as nat),
        no_unwind
    {
        let closed_bit: usize = self.get_closed_bit();
        proof {
            lemma_fields(N as nat);
            lemma_bit_is_parity(packed, closed_bit);
            assert(closed_bit * 1 == closed_bit && closed_bit * 0 == 0);
        }
        closed_bit & packed == closed_bit
    }

    /// Whether the head is one lap ahead of the tail, so that there is no
    /// bucket left to write to.
    pub fn is_full(&self, packed_head: usize, packed_tail: usize) -> (r: bool)
        requires
            valid_capacity(N),
            opened(N as nat, packed_tail as nat) <= opened(N as nat, packed_head as nat),
        ensures
            r == (opened(N as nat, packed_head as nat) - opened(N as nat, packed_tail as nat) == lap(
                N as nat,
            )),
        no_unwind
    {
        // ignore closed bit.
        let closed_bit: usize = self.get_closed_bit();
        let head: usize = packed_head & !closed_bit;
        let tail: usize = packed_tail & !closed_bit;
        proof {
            lemma_fields(N as nat);
            lemma_one_bit(packed_head, closed_bit);
            lemma_one_bit(packed_tail, closed_bit);
        }
        head - tail == self.one_lap()
    }

    /// The distance that a cursor moves in one lap.
    pub fn one_lap(&self) -> (r: usize)
        requires
            valid_capacity(N),
        ensures
            r == lap(N as nat),
        no_unwind
    {
        proof {
            lemma_fields(N as nat);
        }
        let carried: usize = self.carry_up_next_power_of_two();
        2 * carried
    }

    /// The bit that marks a cursor as closed.
    pub fn get_closed_bit(&self) -> (r: usize)
        requires
            valid_capacity(N),
        ensures
            r == closed_bit(N as nat),
        opens_invariants none
        no_unwind
    {
        self.carry_up_next_power_of_two()
    }

    /// The smallest power of two greater than the capacity.
    pub fn carry_up_next_power_of_two(&self) -> (r: usize)
        requires
            valid_capacity(N),
        ensures
            r == closed_bit(N as nat),
        opens_invariants none
        no_unwind
    {
        proof {
            lemma_fields(N as nat);
        }
        let next: usize = next_power_of_two(N);
        if N == next {
            next_power_of_two(N + 1)
        } else {
            next
        }
    }

    /// The bucket that a cursor stands at.
    ///
    /// ```text
    /// input:  10|1|01101
    /// output: 00|0|01101
    /// ```
    pub fn get_buf_index(&self, packed: usize) -> (r: usize)
        requires
            valid_capacity(N),
        ensures
            r == packed as nat % next_pow2(N as nat),
        no_unwind
    {
        let one_lap: usize = next_power_of_two(N);
        proof {
            lemma_fields(N as nat);
            lemma_mask_is_mod(packed, one_lap);
        }
        packed & (one_lap - 1)
    }

    /// Moves a cursor to another bucket of the same lap.
    ///
    /// ```text
    /// pos:    00|0|01101
    /// packed: 10|1|01100
    /// output: 10|1|01101
    /// ```
    pub fn pack_pos(&self, pos: usize, packed: usize) -> (r: usize)
        requires
            valid_capacity(N),
            pos < next_pow2(N as nat),
        ensures
            r == packed - packed as nat % next_pow2(N as nat) + pos,
        no_unwind
    {
        let one_lap: usize = next_power_of_two(N);
        proof {
            lemma_fields(N as nat);
            lemma_join(pos, packed, one_lap);
        }
        pos | (!(one_lap - 1) & packed)
    }

    /// Moves a cursor on by one operation.
    pub fn advance(&self, packed: usize) -> (r: usize)
        requires
            valid_capacity(N),
            packed as nat % next_pow2(N as nat) < N,
            packed + lap(N as nat) <= usize::MAX,
        ensures
            r == advanced(N as nat, packed as nat),
        no_unwind
    {
        let pos: usize = self.get_buf_index(packed);
        proof {
            lemma_fields(N as nat);
        }
        if pos + 1 == N {
            // next lap
            let one_lap: usize = self.one_lap();
            proof {
                lemma_round_down((packed + one_lap) as usize, one_lap);
            }
            (packed + one_lap) & !(one_lap - 1)
        } else {
            self.pack_pos(pos + 1, packed)
        }
    }
}

/// A count with one more, which starts again from zero after the largest one.
pub open spec fn wrapping_increment(count: usize) -> usize {
    if count == usize::MAX {
        0
    } else {
        (count + 1) as usize
    }
}

/// A count with one less, which stays at zero.
pub open spec fn saturating_decrement(count: usize) -> usize {
    if count == 0 {
        0
    } else {
        (count - 1) as usize
    }
}

impl<T> RingState<T> {
    /// The ring that no one has used, with one handle on each side.
    pub open spec fn fresh(n: nat) -> Self {
        RingState {
            slots: Seq::new(n, |i: int| Slot::Free(None)),
            next_send: 0,
            next_recv: 0,
            pending: 0,
            head_closed: false,
            tail_closed: false,
            tx_count: 1,
            rx_count: 1,
        }
    }

    /// A sender claims the next bucket.
    pub open spec fn claim(self) -> Self
        recommends
            self.slots[self.next_send as int] is Free,
    {
        RingState {
            slots: self.slots.update(
                self.next_send as int,
                Slot::Claimed(self.slots[self.next_send as int]->Free_0),
            ),
            next_send: (self.next_send + 1) % self.slots.len(),
            pending: self.pending + 1,
            ..self
        }
    }

    /// A receiver takes the next bucket.
    pub open spec fn take(self) -> Self
        recommends
            self.slots[self.next_recv as int] is Published,
    {
        RingState {
            slots: self.slots.update(
                self.next_recv as int,
                Slot::Taken(self.slots[self.next_recv as int]->Published_0),
            ),
            next_recv: (self.next_recv + 1) % self.slots.len(),
            pending: (self.pending - 1) as nat,
            ..self
        }
    }

    /// There is one more sending handle. The count wraps around.
    pub open spec fn add_tx(self) -> Self {
        RingState { tx_count: wrapping_increment(self.tx_count), ..self }
    }

    /// There is one more receiving handle. The count wraps around.
    pub open spec fn add_rx(self) -> Self {
        RingState { rx_count: wrapping_increment(self.rx_count), ..self }
    }

    /// A sending handle is gone. The last one closes the head.
    pub open spec fn drop_tx(self) -> Self {
        RingState {
            tx_count: saturating_decrement(self.tx_count),
            head_closed: self.head_closed || self.tx_count == 1,
            ..self
        }
    }

    /// A receiving handle is gone. The last one closes both ends.
    pub open spec fn drop_rx(self) -> Self {
        RingState {
            rx_count: saturating_decrement(self.rx_count),
            head_closed: self.head_closed || self.rx_count == 1,
            tail_closed: self.tail_closed || self.rx_count == 1,
            ..self
        }
    }

    /// The ring with another use of one bucket.
    pub open spec fn with_slot(self, pos: int, slot: Slot<T>) -> Self {
        RingState { slots: self.slots.update(pos, slot), ..self }
    }
}

impl<T, const N: usize> Inner<T, N> {
    /// `loaded` is what the head is now, or what it once was.
    pub closed spec fn was_head(&self, loaded: usize) -> bool {
        loaded == self.head || exists|t: nat|
            t <= self.claimed@ && loaded == #[trigger] pack(N as nat, t)
    }

    /// `loaded` is what the tail is now, or what it once was.
    pub closed spec fn was_tail(&self, loaded: usize) -> bool {
        loaded == self.tail || exists|t: nat|
            t <= self.taken@ && loaded == #[trigger] pack(N as nat, t)
    }

    /// What the cursors once were, they still once were, and no stamp went back.
    /// So what a sender or a receiver has seen of the ring remains of use to it,
    /// whatever others do meanwhile.
    pub open spec fn remembers(&self, before: Self) -> bool {
        &&& forall|loaded: usize| #[trigger] before.was_head(loaded) ==> self.was_head(loaded)
        &&& forall|loaded: usize| #[trigger] before.was_tail(loaded) ==> self.was_tail(loaded)
        &&& forall|i: int|
            0 <= i < N ==> before.stamp_at(i) <= #[trigger] self.stamp_at(i)
    }

    /// No stamp is another than before.
    pub open spec fn same_stamps(&self, before: Self) -> bool {
        forall|i: int| 0 <= i < N ==> #[trigger] self.stamp_at(i) == before.stamp_at(i)
    }

    /// No stamp but that of bucket `index` is another than before, and that one
    /// is `stamp`.
    pub open spec fn restamped(&self, before: Self, index: int, stamp: int) -> bool {
        &&& self.stamp_at(index) == stamp
        &&& forall|i: int|
            0 <= i < N && i != index ==> #[trigger] self.stamp_at(i) == before.stamp_at(i)
    }

    /// The words of the cursors and the stamps are what they were.
    pub open spec fn words_kept(&self, before: Self) -> bool {
        &&& self.head_word() == before.head_word()
        &&& self.tail_word() == before.tail_word()
        &&& self.same_stamps(before)
    }

    /// All cursors and stamps are `k` laps less than before.
    pub open spec fn laps_off(&self, before: Self, k: nat) -> bool {
        &&& self.head_word() == before.head_word() - k * lap(N as nat)
        &&& self.tail_word() == before.tail_word() - k * lap(N as nat)
        &&& forall|i: int|
            0 <= i < N ==> #[trigger] self.stamp_at(i) == before.stamp_at(i) - k * lap(N as nat)
    }

    /// A claim has moved the head on, but for `k` laps that were taken off all
    /// cursors and stamps.
    pub open spec fn words_claimed(&self, before: Self, k: nat) -> bool {
        &&& self.head_word() == advanced(N as nat, before.head_word() as nat) - k * lap(N as nat)
        &&& self.tail_word() == before.tail_word() - k * lap(N as nat)
        &&& forall|i: int|
            0 <= i < N ==> #[trigger] self.stamp_at(i) == before.stamp_at(i) - k * lap(N as nat)
    }

    /// A send has moved the head on and published the bucket there.
    pub open spec fn words_sent(&self, before: Self) -> bool {
        let pos = before@.next_send as int;
        &&& self.head_word() == advanced(N as nat, before.head_word() as nat)
        &&& self.tail_word() == before.tail_word()
        &&& self.restamped(before, pos, before.stamp_at(pos) + 1)
    }

    /// A receive has moved the tail on and released the bucket there.
    pub open spec fn words_received(&self, before: Self) -> bool {
        let pos = before@.next_recv as int;
        &&& self.head_word() == before.head_word()
        &&& self.tail_word() == advanced(N as nat, before.tail_word() as nat)
        &&& self.restamped(before, pos, before.stamp_at(pos) - 1 + lap(N as nat))
    }

    /// The last sending handle has added the closed bit to the head, and another
    /// one has changed nothing.
    pub open spec fn words_tx_dropped(&self, before: Self) -> bool {
        &&& self.head_word() == (if before@.tx_count == 1 {
            shut(N as nat, before.head_word() as nat)
        } else {
            before.head_word() as nat
        })
        &&& self.tail_word() == before.tail_word()
        &&& self.same_stamps(before)
    }

    /// The last receiving handle has added the closed bit to both cursors, and
    /// another one has changed nothing.
    pub open spec fn words_rx_dropped(&self, before: Self) -> bool {
        &&& self.head_word() == (if before@.rx_count == 1 {
            shut(N as nat, before.head_word() as nat)
        } else {
            before.head_word() as nat
        })
        &&& self.tail_word() == (if before@.rx_count == 1 {
            shut(N as nat, before.tail_word() as nat)
        } else {
            before.tail_word() as nat
        })
        &&& self.same_stamps(before)
    }

    /// The words of a ring that no one has used.
    pub open spec fn words_fresh(&self) -> bool {
        &&& self.head_word() == 0
        &&& self.tail_word() == 0
        &&& forall|i: int| 0 <= i < N ==> #[trigger] self.stamp_at(i) == i
    }

    /// `loaded` is the head as it is now, but for its closed bit.
    pub closed spec fn is_open_head(&self, loaded: usize) -> bool {
        loaded == pack(N as nat, self.claimed@)
    }

    /// A bucket that the head passed is further on than the head was then, and
    /// the bucket at the head is in step with it or behind it.
    proof fn lemma_stamp_at(&self, t: nat)
        requires
            self.wf(),
            t <= self.claimed@,
        ensures
            ({
                let n = N as nat;
                let b = self.bucket@[(t % n) as int];
                &&& t % n < n
                &&& t < self.claimed@ ==> b.stamp >= pack(n, t)
                &&& t < self.taken@ ==> b.stamp >= pack(n, t) + 1
                &&& t == self.claimed@ ==> {
                    ||| b.ticket@ == t && b.stamp == pack(n, t)
                    ||| b.ticket@ + n == t && b.stamp < pack(n, t)
                }
                &&& t == self.taken@ ==> {
                    ||| b.ticket@ == t && pack(n, t) <= b.stamp <= pack(n, t) + 1
                    ||| b.ticket@ + n == t && b.stamp < pack(n, t)
                }
            }),
    {
        let n = N as nat;
        let i = (t % n) as int;
        let b = self.bucket@[i];
        let u = b.ticket@;
        lemma_fields(n);
        assert(b.wf(n, i, self.claimed@, self.taken@));
        if u < t {
            lemma_same_position(n, u, t);
        }
        if t < u {
            lemma_same_position(n, t, u);
        }
    }

    /// A ring that no one has used, with one handle on each side.
    pub fn new() -> (r: Self)
        requires
            valid_capacity(N),
        ensures
            r.wf(),
            r.has_lap_left(),
            r@ == RingState::<T>::fresh(N as nat),
            r.words_fresh(),
    {
        let mut bucket: Vec<Bucket<T>> = Vec::new();
        let mut i: usize = 0;
        proof {
            lemma_fields(N as nat);
            lemma_pack_fields(N as nat, 0);
        }
        while i < N
            invariant
                valid_capacity(N),
                i <= N,
                bucket@.len() == i,
                forall|j: int|
                    0 <= j < i ==> (#[trigger] bucket@[j]).data is None && bucket@[j].stamp == j
                        && bucket@[j].ticket@ == j,
            decreases N - i,
        {
            bucket.push(Bucket { data: None, stamp: i, ticket: Ghost(i as nat) });
            i = i + 1;
        }
        let r = Inner {
            bucket,
            head: 0,
            tail: 0,
            tx_count: 1,
            rx_count: 1,
            claimed: Ghost(0),
            taken: Ghost(0),
        };
        proof {
            lemma_small_pack(N as nat, 0);
            assert forall|j: int| 0 <= j < N implies (#[trigger] r.bucket@[j]).wf(N as nat, j, 0, 0)
                && r.bucket@[j].slot(N as nat, 0, 0) == Slot::<T>::Free(None) by {
                lemma_small_pack(N as nat, j as nat);
            }
            assert(r@.slots =~= RingState::<T>::fresh(N as nat).slots);
        }
        r
    }

    /// Looks at the bucket where the head was when it was loaded.
    pub fn check_send(&self, cur_head: usize) -> (r: SendCheck)
        requires
            self.wf(),
            self.was_head(cur_head),
        ensures
            ({
                let n = N as nat;
                let stamp = self.stamp_at((cur_head as nat % next_pow2(n)) as int);
                if closed_in(n, cur_head as nat) {
                    &&& r is Closed
                    &&& self@.head_closed
                } else if stamp < cur_head {
                    &&& r is Full
                    &&& self.is_open_head(cur_head)
                    &&& !(self@.slots[self@.next_send as int] is Free)
                } else if cur_head < stamp {
                    &&& r is Stale
                    &&& !self.is_open_head(cur_head)
                } else {
                    &&& r matches SendCheck::Ready { next } && next == advanced(n, cur_head as nat)
                    &&& self.is_open_head(cur_head) ==> self@.slots[self@.next_send as int] is Free
                }
            }),
        no_unwind
    {
        let ghost t = self.lemma_head_seen(cur_head);
        proof {
            lemma_fields(N as nat);
        }
        if self.is_closed(cur_head) {
            return SendCheck::Closed;
        }
        let stamp: usize = self.get_stamp(self.get_buf_index(cur_head));
        if stamp < cur_head {
            return SendCheck::Full;
        } else if cur_head < stamp {
            return SendCheck::Stale;
        }
        let next: usize = self.advance(cur_head);
        SendCheck::Ready { next }
    }

    /// The count of sends at which the head was `loaded`, and what the bucket
    /// there is like.
    proof fn lemma_head_seen(&self, loaded: usize) -> (t: nat)
        requires
            self.wf(),
            self.was_head(loaded),
        ensures
            t <= self.claimed@,
            loaded == self.head && t == self.claimed@ || loaded == pack(N as nat, t),
            loaded as nat % next_pow2(N as nat) == t % N as nat,
            (t % N as nat) < N,
            closed_in(N as nat, loaded as nat) ==> loaded == self.head && self@.head_closed,
            closed_in(N as nat, loaded as nat) || loaded == pack(N as nat, t) && loaded + lap(
                N as nat,
            ) <= usize::MAX,
            self.is_open_head(loaded) ==> t == self.claimed@,
            t < self.claimed@ ==> pack(N as nat, t) < pack(N as nat, self.claimed@)
                && self.stamp_at((t % N as nat) as int) >= pack(N as nat, t),
            t == self.claimed@ ==> ({
                let b = self.bucket@[(t % N as nat) as int];
                ||| b.ticket@ == t && b.stamp == pack(N as nat, t)
                ||| b.ticket@ + N == t && b.stamp < pack(N as nat, t)
            }),
    {
        let n = N as nat;
        let t: nat = if loaded == self.head || loaded == pack(n, self.claimed@) {
            self.claimed@
        } else {
            choose|t: nat| t <= self.claimed@ && loaded == #[trigger] pack(n, t)
        };
        if t < self.claimed@ {
            law_pack_increases(n, t, self.claimed@);
        }
        lemma_fields(n);
        lemma_pack_fields(n, t);
        self.lemma_stamp_at(t);
        t
    }

    /// Moves the head on from where it was loaded and found ready, unless it
    /// has moved meanwhile. Gives back the bucket that is now claimed, or else
    /// the head as it is.
    pub fn commit_send(&mut self, cur_head: usize, next: usize) -> (r: Result<usize, usize>)
        requires
            old(self).wf(),
            old(self).was_head(cur_head),
            old(self).head_word() == cur_head ==> cur_head + 2 * lap(N as nat) <= usize::MAX,
            !closed_in(N as nat, cur_head as nat),
            old(self).stamp_at((cur_head as nat % next_pow2(N as nat)) as int) >= cur_head,
            next == advanced(N as nat, cur_head as nat),
        ensures
            final(self).wf(),
            if old(self).head_word() == cur_head {
                let s = old(self)@;
                &&& !s.head_closed
                &&& s.slots[s.next_send as int] is Free
                &&& final(self)@ == s.claim()
                &&& final(self).head_word() == next
                &&& final(self).tail_word() == old(self).tail_word()
                &&& final(self).same_stamps(*old(self))
                &&& r == Ok::<usize, usize>(s.next_send as usize)
            } else {
                &&& *final(self) == *old(self)
                &&& r == Err::<usize, usize>(old(self).head_word())
            },
            final(self).remembers(*old(self)),
        no_unwind
    {
        let ghost old_self = *self;
        let ghost t = self.lemma_head_seen(cur_head);
        proof {
            lemma_fields(N as nat);
            lemma_pack_fields(N as nat, self.claimed@);
        }
        match compare_exchange(&mut self.head, cur_head, next) {
            Ok(_) => {
                proof {
                    self.claimed@ = self.claimed@ + 1;
                    lemma_advanced(N as nat, t);
                    old_self.lemma_claimed(*self);
                }
                Ok(self.get_buf_index(cur_head))
            },
            Err(now) => Err(now),
        }
    }

    /// If this sender can acquire a position to write then this function
    /// returns it, otherwise an error.
    ///
    /// `loaded` may be an old value of the head: a sender that was overtaken
    /// since it looked at the head finds out, and looks again.
    pub fn start_send_from(&mut self, loaded: usize) -> (r: Result<usize, TxError>)
        requires
            old(self).wf(),
            old(self).was_head(loaded),
            old(self).has_lap_left() || old(self)@.head_closed
                || !(old(self)@.slots[old(self)@.next_send as int] is Free),
        ensures
            final(self).wf(),
            ({
                let s = old(self)@;
                let free = s.slots[s.next_send as int] is Free;
                if s.head_closed {
                    &&& *final(self) == *old(self)
                    &&& r == Err::<usize, TxError>(
                        if old(self).is_open_head(loaded) && !free {
                            TxError::Full
                        } else {
                            TxError::Closed
                        },
                    )
                } else if free {
                    &&& final(self)@ == s.claim()
                    &&& final(self).head_word() == advanced(
                        N as nat,
                        old(self).head_word() as nat,
                    )
                    &&& final(self).tail_word() == old(self).tail_word()
                    &&& final(self).same_stamps(*old(self))
                    &&& r == Ok::<usize, TxError>(s.next_send as usize)
                } else {
                    &&& *final(self) == *old(self)
                    &&& r == Err::<usize, TxError>(TxError::Full)
                }
            }),
            final(self).remembers(*old(self)),
        no_unwind
    {
        let mut cur_head: usize = loaded;
        let ghost old_self = *self;
        loop
            invariant
                *self == old_self,
                old_self == *old(self),
                old_self.wf(),
                old_self.has_lap_left() || old_self@.head_closed
                    || !(old_self@.slots[old_self@.next_send as int] is Free),
                old_self.was_head(cur_head),
                cur_head == loaded || cur_head == old_self.head && (old_self.is_open_head(loaded)
                    ==> old_self@.slots[old_self@.next_send as int] is Free),
            decreases
                    if cur_head == old_self.head {
                        0int
                    } else {
                        1int
                    },
        {
            proof {
                lemma_fields(N as nat);
                lemma_pack_fields(N as nat, self.claimed@);
                let t = self.lemma_head_seen(cur_head);
            }
            match self.check_send(cur_head) {
                SendCheck::Closed => {
                    return Err(TxError::Closed);
                },
                SendCheck::Full => {
                    return Err(TxError::Full);
                },
                SendCheck::Stale => {
                    cur_head = self.head;
                },
                SendCheck::Ready { next } => {
                    // try to update head
                    match self.commit_send(cur_head, next) {
                        Ok(pos) => {
                            return Ok(pos);
                        },
                        Err(now) => {
                            cur_head = now;
                        },
                    }
                },
            }
        }
    }

    /// Moving the head on claims the bucket that it stood at.
    proof fn lemma_claimed(self, new: Self)
        requires
            self.wf(),
            self.head + 2 * lap(N as nat) <= usize::MAX,
            !self@.head_closed,
            self.bucket@[(self.claimed@ % N as nat) as int].stamp == self.head,
            new == (Inner {
                head: pack(N as nat, self.claimed@ + 1) as usize,
                claimed: Ghost(self.claimed@ + 1),
                ..self
            }),
        ensures
            new.wf(),
            self@.slots[self@.next_send as int] is Free,
            new@ == self@.claim(),
            new.remembers(self),
    {
        let n = N as nat;
        let h = self.claimed@;
        lemma_fields(n);
        lemma_pack_next(n, h);
        lemma_pack_fields(n, h);
        self.lemma_stamp_at(h);
        self.lemma_stamp_at(self.taken@);
        assert forall|i: int| 0 <= i < N implies (#[trigger] new.bucket@[i]).wf(
            n,
            i,
            new.claimed@,
            new.taken@,
        ) && new.bucket@[i].slot(n, new.claimed@, new.taken@) == self@.claim().slots[i] by {
            let b = self.bucket@[i];
            assert(b.wf(n, i, self.claimed@, self.taken@));
            lemma_pack_lap(n, b.ticket@);
        }
        assert(new@.slots =~= self@.claim().slots);
    }

    /// The stamp of a bucket.
    pub fn get_stamp(&self, index: usize) -> (r: usize)
        requires
            self.wf(),
            index < N,
        ensures
            r == self.stamp_at(index as int),
        no_unwind
    {
        self.bucket[index].stamp
    }

    /// The stamp of a bucket.
    pub closed spec fn stamp_at(&self, index: int) -> usize {
        self.bucket@[index].stamp
    }

    /// Looks at the bucket where the tail was when it was loaded.
    pub fn check_recv(&self, cur_tail: usize) -> (r: RecvCheck)
        requires
            self.wf(),
            self.was_tail(cur_tail),
        ensures
            ({
                let n = N as nat;
                let stamp = self.stamp_at((cur_tail as nat % next_pow2(n)) as int);
                let published = self@.slots[self@.next_recv as int] is Published;
                if stamp < cur_tail + 1 {
                    &&& r is Empty
                    &&& self@.tail_closed || !published
                } else if cur_tail + 1 < stamp {
                    &&& r is Stale
                    &&& self.tail_word() != cur_tail
                } else {
                    &&& r matches RecvCheck::Ready { next } && next == advanced(n, cur_tail as nat)
                    &&& self.tail_word() == cur_tail ==> !self@.tail_closed && published
                }
            }),
        no_unwind
    {
        let ghost t = self.lemma_tail_seen(cur_tail);
        proof {
            lemma_fields(N as nat);
        }
        let stamp: usize = self.get_stamp(self.get_buf_index(cur_tail));
        if stamp < cur_tail + 1 {
            return RecvCheck::Empty;
        } else if cur_tail + 1 < stamp {
            return RecvCheck::Stale;
        }
        let next: usize = self.advance(cur_tail);
        RecvCheck::Ready { next }
    }

    /// The count of receives at which the tail was `loaded`, and what the bucket
    /// there is like.
    proof fn lemma_tail_seen(&self, loaded: usize) -> (t: nat)
        requires
            self.wf(),
            self.was_tail(loaded),
        ensures
            t <= self.taken@,
            loaded == self.tail && t == self.taken@ || loaded == pack(N as nat, t),
            loaded as nat % next_pow2(N as nat) == t % N as nat,
            (t % N as nat) < N,
            loaded + closed_bit(N as nat) <= usize::MAX,
            loaded != self.tail || !self@.tail_closed ==> loaded + lap(N as nat) <= usize::MAX,
            self@.tail_closed ==> self.tail == pack(N as nat, self.taken@) + closed_bit(N as nat),
            t < self.taken@ ==> loaded != self.tail && self.stamp_at((t % N as nat) as int)
                >= loaded + 1,
            t == self.taken@ ==> ({
                let b = self.bucket@[(t % N as nat) as int];
                &&& b.wf(N as nat, (t % N as nat) as int, self.claimed@, self.taken@)
                &&& {
                    ||| b.ticket@ == t && pack(N as nat, t) <= b.stamp <= pack(N as nat, t) + 1
                    ||| b.ticket@ + N == t && b.stamp < pack(N as nat, t)
                }
            }),
    {
        let n = N as nat;
        let t: nat = if loaded == self.tail || loaded == pack(n, self.taken@) {
            self.taken@
        } else {
            choose|t: nat| t <= self.taken@ && loaded == #[trigger] pack(n, t)
        };
        if t < self.claimed@ {
            law_pack_increases(n, t, self.claimed@);
        }
        lemma_fields(n);
        lemma_pack_fields(n, t);
        self.lemma_stamp_at(t);
        assert(self.bucket@[(t % n) as int].wf(n, (t % n) as int, self.claimed@, self.taken@));
        t
    }

    /// Moves the tail on from where it was loaded and found ready, unless it
    /// has moved meanwhile. Gives back the bucket that is now taken, or else the
    /// tail as it is.
    pub fn commit_recv(&mut self, cur_tail: usize, next: usize) -> (r: Result<usize, usize>)
        requires
            old(self).wf(),
            old(self).was_tail(cur_tail),
            old(self).stamp_at((cur_tail as nat % next_pow2(N as nat)) as int) >= cur_tail + 1,
            next == advanced(N as nat, cur_tail as nat),
        ensures
            final(self).wf(),
            final(self).has_lap_left() == old(self).has_lap_left(),
            if old(self).tail_word() == cur_tail {
                let s = old(self)@;
                &&& !s.tail_closed
                &&& s.slots[s.next_recv as int] is Published
                &&& final(self)@ == s.take()
                &&& final(self).head_word() == old(self).head_word()
                &&& final(self).tail_word() == next
                &&& final(self).same_stamps(*old(self))
                &&& r == Ok::<usize, usize>(s.next_recv as usize)
            } else {
                &&& *final(self) == *old(self)
                &&& r == Err::<usize, usize>(old(self).tail_word())
            },
            final(self).remembers(*old(self)),
        no_unwind
    {
        let ghost old_self = *self;
        let ghost t = self.lemma_tail_seen(cur_tail);
        proof {
            lemma_fields(N as nat);
        }
        match compare_exchange(&mut self.tail, cur_tail, next) {
            Ok(_) => {
                proof {
                    self.taken@ = self.taken@ + 1;
                    lemma_advanced(N as nat, t);
                    old_self.lemma_taken(*self);
                }
                Ok(self.get_buf_index(cur_tail))
            },
            Err(now) => Err(now),
        }
    }

    /// If this receiver can acquire a position to read then this function
    /// returns it, otherwise an error.
    ///
    /// `loaded` may be an old value of the tail, as in [`Self::start_send_from`].
    pub fn start_recv_from(&mut self, loaded: usize) -> (r: Result<usize, RxError>)
        requires
            old(self).wf(),
            old(self).was_tail(loaded),
        ensures
            final(self).wf(),
            final(self).has_lap_left() == old(self).has_lap_left(),
            ({
                let s = old(self)@;
                if s.slots[s.next_recv as int] is Published && !s.tail_closed {
                    &&& final(self)@ == s.take()
                    &&& final(self).head_word() == old(self).head_word()
                    &&& final(self).tail_word() == advanced(
                        N as nat,
                        old(self).tail_word() as nat,
                    )
                    &&& final(self).same_stamps(*old(self))
                    &&& r == Ok::<usize, RxError>(s.next_recv as usize)
                } else {
                    &&& *final(self) == *old(self)
                    &&& r == Err::<usize, RxError>(RxError::NoValueToRead)
                }
            }),
            final(self).remembers(*old(self)),
        no_unwind
    {
        let mut cur_tail: usize = loaded;
        let ghost old_self = *self;
        loop
            invariant
                *self == old_self,
                old_self == *old(self),
                old_self.wf(),
                old_self.was_tail(cur_tail),
            decreases
                    if cur_tail == old_self.tail {
                        0int
                    } else {
                        1int
                    },
        {
            match self.check_recv(cur_tail) {
                RecvCheck::Empty => {
                    return Err(RxError::NoValueToRead);
                },
                RecvCheck::Stale => {
                    cur_tail = self.tail;
                },
                RecvCheck::Ready { next } => {
                    match self.commit_recv(cur_tail, next) {
                        Ok(pos) => {
                            return Ok(pos);
                        },
                        Err(now) => {
                            cur_tail = now;
                        },
                    }
                },
            }
        }
    }

    /// What a sender or a receiver has found ready, it may still try to claim
    /// or to take after any steps of others.
    pub proof fn law_ready_lasts(&self, before: Self, loaded: usize)
        requires
            before.wf(),
            self.remembers(before),
            before.was_head(loaded) || before.was_tail(loaded),
        ensures
            before.was_head(loaded) ==> self.was_head(loaded),
            before.was_tail(loaded) ==> self.was_tail(loaded),
            ({
                let index = (loaded as nat % next_pow2(N as nat)) as int;
                &&& 0 <= index < N
                &&& before.stamp_at(index) <= self.stamp_at(index)
            }),
    {
        if before.was_head(loaded) {
            let _ = before.lemma_head_seen(loaded);
        } else {
            let _ = before.lemma_tail_seen(loaded);
        }
    }

    /// Moving the tail on takes the bucket that it stood at.
    proof fn lemma_taken(self, new: Self)
        requires
            self.wf(),
            !self@.tail_closed,
            self.bucket@[(self.taken@ % N as nat) as int].stamp == self.tail + 1,
            new == (Inner {
                tail: pack(N as nat, self.taken@ + 1) as usize,
                taken: Ghost(self.taken@ + 1),
                ..self
            }),
        ensures
            new.wf(),
            self@.slots[self@.next_recv as int] is Published,
            new@ == self@.take(),
            new.remembers(self),
    {
        let n = N as nat;
        let l = self.taken@;
        lemma_fields(n);
        lemma_pack_next(n, l);
        lemma_pack_fields(n, l);
        self.lemma_stamp_at(l);
        let b = self.bucket@[(l % n) as int];
        assert(b.wf(n, (l % n) as int, self.claimed@, l));
        assert(l < self.claimed@);
        assert(pack(n, l + 1) <= pack(n, self.claimed@)) by {
            if l + 1 < self.claimed@ {
                law_pack_increases(n, l + 1, self.claimed@);
            }
        }
        assert forall|i: int| 0 <= i < N implies (#[trigger] new.bucket@[i]).wf(
            n,
            i,
            new.claimed@,
            new.taken@,
        ) && new.bucket@[i].slot(n, new.claimed@, new.taken@) == self@.take().slots[i] by {
            assert(self.bucket@[i].wf(n, i, self.claimed@, self.taken@));
        }
        assert(new@.slots =~= self@.take().slots);
    }

    /// The head as it is packed.
    pub closed spec fn head_word(&self) -> usize {
        self.head
    }

    /// The tail as it is packed.
    pub closed spec fn tail_word(&self) -> usize {
        self.tail
    }

    /// What the words of the cursors tell: which of the buckets comes next, and
    /// whether the cursor is closed. An open cursor can move on by a lap.
    pub proof fn law_words(&self)
        requires
            self.wf(),
        ensures
            valid_capacity(N),
            self@.slots.len() == N,
            self@.next_send == self.head_word() as nat % next_pow2(N as nat),
            self@.next_recv == self.tail_word() as nat % next_pow2(N as nat),
            self@.next_send < N,
            self@.next_recv < N,
            self@.head_closed == closed_in(N as nat, self.head_word() as nat),
            self@.tail_closed == closed_in(N as nat, self.tail_word() as nat),
            !self@.head_closed ==> self.head_word() + lap(N as nat) <= usize::MAX,
            !self@.tail_closed ==> self.tail_word() + lap(N as nat) <= usize::MAX,
    {
        lemma_fields(N as nat);
        lemma_pack_fields(N as nat, self.claimed@);
        lemma_pack_fields(N as nat, self.taken@);
        if self.taken@ < self.claimed@ {
            law_pack_increases(N as nat, self.taken@, self.claimed@);
        }
    }

    /// What it takes for the head to move on.
    pub proof fn law_lap_left(&self)
        ensures
            self.has_lap_left() <==> self.head_word() + 2 * lap(N as nat) <= usize::MAX,
    {
    }

    /// The head is one lap ahead of the tail just when all buckets are claimed.
    pub proof fn law_lap_ahead(&self)
        requires
            self.wf(),
        ensures
            ({
                let head = opened(N as nat, self.head_word() as nat);
                let tail = opened(N as nat, self.tail_word() as nat);
                &&& tail <= head
                &&& head - tail == lap(N as nat) <==> self@.pending == N
            }),
    {
        let n = N as nat;
        lemma_fields(n);
        lemma_pack_fields(n, self.claimed@);
        lemma_pack_fields(n, self.taken@);
        lemma_pack_lap(n, self.taken@);
        if self.taken@ < self.claimed@ {
            law_pack_increases(n, self.taken@, self.claimed@);
        }
        if self.claimed@ < self.taken@ + n {
            law_pack_increases(n, self.claimed@, self.taken@ + n);
        }
    }

    /// What the head is now.
    pub fn load_head(&self) -> (r: usize)
        ensures
            r == self.head_word(),
            self.was_head(r),
            self.wf() && !self@.head_closed ==> self.is_open_head(r),
            self.wf() && self@.head_closed ==> !self.is_open_head(r),
            self.has_lap_left() ==> r + 2 * lap(N as nat) <= usize::MAX,
        no_unwind
    {
        self.head
    }

    /// What the tail is now.
    pub fn load_tail(&self) -> (r: usize)
        ensures
            r == self.tail_word(),
            self.was_tail(r),
        no_unwind
    {
        self.tail
    }

    /// If this sender can acquire a position to write then this function
    /// returns it, otherwise an error.
    ///
    /// If the head could not move on within the machine word, whole laps are
    /// taken off first.
    pub fn start_send(&mut self) -> (r: Result<usize, TxError>)
        requires
            old(self).wf(),
        ensures
            final(self).wf(),
            ({
                let s = old(self)@;
                if s.head_closed {
                    &&& *final(self) == *old(self)
                    &&& r == Err::<usize, TxError>(TxError::Closed)
                } else if s.slots[s.next_send as int] is Free {
                    &&& final(self)@ == s.claim()
                    &&& exists|k: nat| #[trigger]
                        final(self).words_claimed(*old(self), k) && (old(self).has_lap_left() ==> k
                            == 0)
                    &&& r == Ok::<usize, TxError>(s.next_send as usize)
                } else {
                    &&& *final(self) == *old(self)
                    &&& r == Err::<usize, TxError>(TxError::Full)
                }
            }),
            r == Err::<usize, TxError>(TxError::Closed) <==> closed_in(
                N as nat,
                old(self).head_word() as nat,
            ),
            r matches Ok(pos) ==> {
                &&& pos < N
                &&& pos == old(self).head_word() as nat % next_pow2(N as nat)
                &&& final(self).head_word() as nat % next_pow2(N as nat) == (pos as nat + 1)
                    % N as nat
                &&& !closed_in(N as nat, final(self).head_word() as nat)
            },
            old(self).has_lap_left() ==> final(self).remembers(*old(self)),
        no_unwind
    {
        if !self.lap_left() && self.has_room() {
            self.rebase();
        }
        let ghost before = *self;
        let cur_head: usize = self.load_head();
        let r = self.start_send_from(cur_head);
        proof {
            old(self).law_words();
            self.law_words();
            let n = N as nat;
            let k: nat = if before == *old(self) {
                0
            } else {
                choose|k: nat| #[trigger] before.laps_off(*old(self), k)
            };
            assert(0 * lap(n) == 0);
            assert(before.laps_off(*old(self), k));
            if r is Ok {
                lemma_advanced_shift(n, old(self).head_word() as nat, k);
                assert(self.words_claimed(*old(self), k));
            }
        }
        r
    }

    /// If this receiver can acquire a position to read then this function
    /// returns it, otherwise an error.
    pub fn start_recv(&mut self) -> (r: Result<usize, RxError>)
        requires
            old(self).wf(),
        ensures
            final(self).wf(),
            final(self).has_lap_left() == old(self).has_lap_left(),
            ({
                let s = old(self)@;
                if s.slots[s.next_recv as int] is Published && !s.tail_closed {
                    &&& final(self)@ == s.take()
                    &&& final(self).head_word() == old(self).head_word()
                    &&& final(self).tail_word() == advanced(
                        N as nat,
                        old(self).tail_word() as nat,
                    )
                    &&& final(self).same_stamps(*old(self))
                    &&& r == Ok::<usize, RxError>(s.next_recv as usize)
                } else {
                    &&& *final(self) == *old(self)
                    &&& r == Err::<usize, RxError>(RxError::NoValueToRead)
                }
            }),
            r matches Ok(pos) ==> {
                &&& pos < N
                &&& pos == old(self).tail_word() as nat % next_pow2(N as nat)
                &&& final(self).tail_word() as nat % next_pow2(N as nat) == (pos as nat + 1)
                    % N as nat
                &&& !closed_in(N as nat, final(self).tail_word() as nat)
            },
            final(self).remembers(*old(self)),
        no_unwind
    {
        let cur_tail: usize = self.load_tail();
        let r = self.start_recv_from(cur_tail);
        proof {
            old(self).law_words();
            self.law_words();
        }
        r
    }

    /// Writes a value into a bucket. In the course of a send it is one that the
    /// caller has claimed.
    pub fn write_at(&mut self, index: usize, v: T)
        requires
            old(self).wf(),
            index < N,
        ensures
            final(self).wf(),
            final(self).has_lap_left() == old(self).has_lap_left(),
            final(self)@ == old(self)@.with_slot(
                index as int,
                with_data(old(self)@.slots[index as int], Some(v)),
            ),
            final(self).words_kept(*old(self)),
            final(self).remembers(*old(self)),
        no_unwind
    {
        proof {
            self.lemma_stamp_bound(index as int);
        }
        self.bucket[index].data = Some(v);
        proof {
            old(self).lemma_bucket_changed(
                *self,
                index as int,
                with_data(old(self)@.slots[index as int], Some(v)),
            );
        }
    }

    /// Hands the value in a bucket that the caller has claimed over to the
    /// receivers. A receiver that sees the new stamp also sees the value.
    pub fn publish(&mut self, index: usize)
        requires
            old(self).wf(),
            index < N,
            old(self)@.slots[index as int] is Claimed,
        ensures
            final(self).wf(),
            final(self).has_lap_left() == old(self).has_lap_left(),
            final(self)@ == old(self)@.with_slot(
                index as int,
                Slot::Published(old(self)@.slots[index as int]->Claimed_0),
            ),
            final(self).head_word() == old(self).head_word(),
            final(self).tail_word() == old(self).tail_word(),
            final(self).restamped(*old(self), index as int, old(self).stamp_at(index as int) + 1),
            final(self).remembers(*old(self)),
        no_unwind
    {
        proof {
            self.lemma_stamp_bound(index as int);
        }
        self.bucket[index].stamp = self.bucket[index].stamp + 1;
        proof {
            old(self).lemma_bucket_changed(
                *self,
                index as int,
                Slot::Published(old(self)@.slots[index as int]->Claimed_0),
            );
        }
    }

    /// Reads the value out of a bucket, which there must be. In the course of a
    /// receive it is a bucket that the caller has taken.
    pub fn read_at(&mut self, index: usize) -> (r: T)
        requires
            old(self).wf(),
            index < N,
            data(old(self)@.slots[index as int]) is Some,
        ensures
            final(self).wf(),
            final(self).has_lap_left() == old(self).has_lap_left(),
            data(old(self)@.slots[index as int]) == Some(r),
            final(self)@ == old(self)@.with_slot(
                index as int,
                with_data(old(self)@.slots[index as int], None),
            ),
            final(self).words_kept(*old(self)),
            final(self).remembers(*old(self)),
        no_unwind
    {
        proof {
            self.lemma_stamp_bound(index as int);
        }
        let mut data: Option<T> = None;
        std::mem::swap(&mut self.bucket[index].data, &mut data);
        proof {
            old(self).lemma_bucket_changed(
                *self,
                index as int,
                with_data(old(self)@.slots[index as int], None),
            );
        }
        match data {
            Some(v) => v,
            None => vstd::pervasive::unreached(),
        }
    }

    /// Gives a bucket whose value the caller has read back to the senders, for
    /// the next lap.
    pub fn release(&mut self, index: usize)
        requires
            old(self).wf(),
            index < N,
            old(self)@.slots[index as int] is Taken,
        ensures
            final(self).wf(),
            final(self).has_lap_left() == old(self).has_lap_left(),
            final(self)@ == old(self)@.with_slot(
                index as int,
                Slot::Free(old(self)@.slots[index as int]->Taken_0),
            ),
            final(self).head_word() == old(self).head_word(),
            final(self).tail_word() == old(self).tail_word(),
            final(self).restamped(
                *old(self),
                index as int,
                old(self).stamp_at(index as int) - 1 + lap(N as nat),
            ),
            final(self).remembers(*old(self)),
        no_unwind
    {
        let one_lap: usize = self.one_lap();
        proof {
            self.lemma_stamp_bound(index as int);
            lemma_pack_lap(N as nat, self.bucket@[index as int].ticket@);
        }
        let next: usize = self.bucket[index].stamp - 1 + one_lap;
        self.bucket[index].stamp = next;
        self.bucket[index].ticket = Ghost((self.bucket@[index as int].ticket@ + N) as nat);
        proof {
            assert(self.bucket@ =~= old(self).bucket@.update(index as int, self.bucket@[index as int]));
            old(self).lemma_bucket_changed(
                *self,
                index as int,
                Slot::Free(old(self)@.slots[index as int]->Taken_0),
            );
        }
    }

    /// What stamps can be without leaving the machine word.
    proof fn lemma_stamp_bound(&self, i: int)
        requires
            self.wf(),
            0 <= i < N,
        ensures
            ({
                let b = self.bucket@[i];
                &&& b.wf(N as nat, i, self.claimed@, self.taken@)
                &&& b.ticket@ < self.claimed@ ==> pack(N as nat, b.ticket@) + lap(N as nat)
                    <= usize::MAX
                &&& lap(N as nat) >= 4
            }),
    {
        let b = self.bucket@[i];
        lemma_fields(N as nat);
        assert(b.wf(N as nat, i, self.claimed@, self.taken@));
        if b.ticket@ < self.claimed@ {
            law_pack_increases(N as nat, b.ticket@, self.claimed@);
        }
    }

    /// Changing one bucket changes the use of that bucket alone.
    proof fn lemma_bucket_changed(self, new: Self, i: int, slot: Slot<T>)
        requires
            self.wf(),
            0 <= i < N,
            new == (Inner { bucket: new.bucket, ..self }),
            new.bucket@.len() == N,
            new.bucket@ == self.bucket@.update(i, new.bucket@[i]),
            new.bucket@[i].wf(N as nat, i, self.claimed@, self.taken@),
            new.bucket@[i].slot(N as nat, self.claimed@, self.taken@) == slot,
            self.bucket@[i].stamp <= new.bucket@[i].stamp,
        ensures
            new.wf(),
            new.has_lap_left() == self.has_lap_left(),
            new@ == self@.with_slot(i, slot),
            new.remembers(self),
    {
        assert forall|j: int| 0 <= j < N implies (#[trigger] new.bucket@[j]).wf(
            N as nat,
            j,
            new.claimed@,
            new.taken@,
        ) by {
            assert(self.bucket@[j].wf(N as nat, j, self.claimed@, self.taken@));
        }
        assert(new@.slots =~= self@.with_slot(i, slot).slots);
    }

    /// Whether the tail is behind the head: a sender may be about to publish what
    /// it has just inserted.
    pub fn just_inserted(&self) -> (r: bool)
        ensures
            r == (self.tail_word() < self.head_word()),
        no_unwind
    {
        let cur_head: usize = self.load_head();
        let cur_tail: usize = self.load_tail();
        cur_tail < cur_head
    }

    /// When the tail is behind the head. The closed bit counts, so a closed head
    /// is always ahead of an open tail.
    pub proof fn law_just_inserted(&self)
        requires
            self.wf(),
        ensures
            !self@.tail_closed ==> (self.tail_word() < self.head_word() <==> self@.pending > 0
                || self@.head_closed),
            self@.tail_closed && self@.head_closed ==> (self.tail_word() < self.head_word()
                <==> self@.pending > 0),
    {
        lemma_fields(N as nat);
        if self.taken@ < self.claimed@ {
            law_pack_increases(N as nat, self.taken@, self.claimed@);
        }
    }

    /// Counts one more sending handle.
    pub fn add_tx(&mut self)
        requires
            old(self).wf(),
        ensures
            final(self).wf(),
            final(self).has_lap_left() == old(self).has_lap_left(),
            final(self)@ == old(self)@.add_tx(),
            final(self).words_kept(*old(self)),
            final(self).remembers(*old(self)),
        no_unwind
    {
        self.tx_count = if self.tx_count == usize::MAX {
            0
        } else {
            self.tx_count + 1
        };
        proof {
            old(self).lemma_cursors_changed(*self);
        }
    }

    /// Counts one more receiving handle.
    pub fn add_rx(&mut self)
        requires
            old(self).wf(),
        ensures
            final(self).wf(),
            final(self).has_lap_left() == old(self).has_lap_left(),
            final(self)@ == old(self)@.add_rx(),
            final(self).words_kept(*old(self)),
            final(self).remembers(*old(self)),
        no_unwind
    {
        self.rx_count = if self.rx_count == usize::MAX {
            0
        } else {
            self.rx_count + 1
        };
        proof {
            old(self).lemma_cursors_changed(*self);
        }
    }

    /// Counts one sending handle less, and closes the head with the last one.
    pub fn drop_tx(&mut self)
        requires
            old(self).wf(),
        ensures
            final(self).wf(),
            final(self)@ == old(self)@.drop_tx(),
            final(self).words_tx_dropped(*old(self)),
            final(self).remembers(*old(self)),
        opens_invariants none
        no_unwind
    {
        let cur_tx_count: usize = self.tx_count;
        self.tx_count = if cur_tx_count == 0 {
            0
        } else {
            cur_tx_count - 1
        };
        if cur_tx_count == 1 {
            // This is the last Tx, so set Tx closed flag
            proof {
                lemma_fields(N as nat);
                self.lemma_close();
            }
            self.head = self.get_closed_bit() | self.head;
        }
        proof {
            old(self).lemma_cursors_changed(*self);
        }
    }

    /// Counts one receiving handle less, and closes both ends with the last one.
    pub fn drop_rx(&mut self)
        requires
            old(self).wf(),
        ensures
            final(self).wf(),
            final(self)@ == old(self)@.drop_rx(),
            final(self).words_rx_dropped(*old(self)),
            final(self).remembers(*old(self)),
        opens_invariants none
        no_unwind
    {
        let cur_rx_count: usize = self.rx_count;
        self.rx_count = if cur_rx_count == 0 {
            0
        } else {
            cur_rx_count - 1
        };
        if cur_rx_count == 1 {
            // This is the last Rx, so set Rx closed flag
            proof {
                lemma_fields(N as nat);
                self.lemma_close();
            }
            self.tail = self.get_closed_bit() | self.tail;
            self.head = self.get_closed_bit() | self.head;
        }
        proof {
            old(self).lemma_cursors_changed(*self);
        }
    }

    /// What setting the closed bit makes of the cursors.
    proof fn lemma_close(&self)
        requires
            valid_capacity(N),
            self.head == pack(N as nat, self.claimed@) || self.head == pack(N as nat, self.claimed@)
                + closed_bit(N as nat),
            self.tail == pack(N as nat, self.taken@) || self.tail == pack(N as nat, self.taken@)
                + closed_bit(N as nat),
        ensures
            (closed_bit(N as nat) as usize) | self.head == pack(N as nat, self.claimed@) + closed_bit(
                N as nat,
            ),
            (closed_bit(N as nat) as usize) | self.tail == pack(N as nat, self.taken@) + closed_bit(
                N as nat,
            ),
            shut(N as nat, self.head as nat) == pack(N as nat, self.claimed@) + closed_bit(N as nat),
            shut(N as nat, self.tail as nat) == pack(N as nat, self.taken@) + closed_bit(N as nat),
    {
        lemma_fields(N as nat);
        lemma_pack_fields(N as nat, self.claimed@);
        lemma_pack_fields(N as nat, self.taken@);
        lemma_one_bit(self.head, closed_bit(N as nat) as usize);
        lemma_one_bit(self.tail, closed_bit(N as nat) as usize);
    }

    /// Changing the closed bits and the counts changes nothing else.
    proof fn lemma_cursors_changed(self, new: Self)
        requires
            self.wf(),
            new == (Inner {
                head: new.head,
                tail: new.tail,
                tx_count: new.tx_count,
                rx_count: new.rx_count,
                ..self
            }),
            new.head == self.head || new.head == pack(N as nat, self.claimed@) + closed_bit(N as nat),
            new.tail == self.tail || new.tail == pack(N as nat, self.taken@) + closed_bit(N as nat),
        ensures
            new.wf(),
            new@ == (RingState {
                head_closed: self@.head_closed || new.head != self.head,
                tail_closed: self@.tail_closed || new.tail != self.tail,
                tx_count: new.tx_count,
                rx_count: new.rx_count,
                ..self@
            }),
            new.remembers(self),
    {
        lemma_fields(N as nat);
        assert forall|j: int| 0 <= j < N implies (#[trigger] new.bucket@[j]).wf(
            N as nat,
            j,
            new.claimed@,
            new.taken@,
        ) by {
            assert(self.bucket@[j].wf(N as nat, j, self.claimed@, self.taken@));
        }
        assert(new@.slots =~= self@.slots);
    }

    /// Takes whole laps off all cursors and stamps alike, so that the machine
    /// word is not used up. No one who uses the ring can tell, but for a sender
    /// or a receiver that still goes by a value it loaded before.
    pub fn rebase(&mut self)
        requires
            old(self).wf(),
        ensures
            final(self).wf(),
            final(self).has_lap_left(),
            final(self)@ == old(self)@,
            exists|k: nat| #[trigger] final(self).laps_off(*old(self), k),
        no_unwind
    {
        let one_lap: usize = self.one_lap();
        proof {
            lemma_fields(N as nat);
            lemma_four_laps(N);
        }
        let laps: usize = self.head / one_lap;
        let ghost n = N as nat;
        let ghost w = lap(n) as int;
        let ghost old_self = *self;
        proof {
            lemma_pack_fields(n, self.claimed@);
            let q = (self.claimed@ / n) as int;
            let c = closed_bit(n) as int;
            lemma_fundamental_div_mod_converse(
                pack(n, self.claimed@) + c,
                w,
                q,
                (self.claimed@ % n + c) as int,
            );
            assert(laps == self.claimed@ / n);
            lemma_fundamental_div_mod(self.head as int, w);
        }
        if laps >= 2 {
            let ghost k = (laps - 1) as nat;
            proof {
                lemma_fundamental_div_mod(self.claimed@ as int, n as int);
                assert(k * n <= self.claimed@ - n) by (nonlinear_arith)
                    requires
                        self.claimed@ >= n * laps,
                        k == laps - 1,
                ;
                assert(0 <= k * w <= self.head - w) by (nonlinear_arith)
                    requires
                        self.head >= w * laps,
                        k == laps - 1,
                        w >= 0,
                        k >= 0,
                ;
                lemma_pack_shift(n, self.claimed@, k);
                lemma_pack_shift(n, self.taken@, k);
            }
            let shift: usize = (laps - 1) * one_lap;
            self.head = self.head - shift;
            self.tail = self.tail - shift;
            let mut i: usize = 0;
            while i < N
                invariant
                    i <= N,
                    n == N as nat,
                    old_self.wf(),
                    shift == k * lap(n),
                    k * n <= old_self.claimed@ - n,
                    *self == (Inner { bucket: self.bucket, head: self.head, tail: self.tail, ..old_self
                    }),
                    self.head == old_self.head - shift,
                    self.tail == old_self.tail - shift,
                    self.bucket@.len() == N,
                    forall|j: int|
                        i <= j < N ==> #[trigger] self.bucket@[j] == old_self.bucket@[j],
                    forall|j: int|
                        0 <= j < i ==> {
                            let b = old_self.bucket@[j];
                            &&& (#[trigger] self.bucket@[j]).data == b.data
                            &&& self.bucket@[j].stamp == b.stamp - k * lap(n)
                            &&& self.bucket@[j].ticket@ == b.ticket@ - k * n
                        },
                decreases N - i,
            {
                let ghost t = self.bucket@[i as int].ticket@;
                proof {
                    assert(old_self.bucket@[i as int].wf(
                        n,
                        i as int,
                        old_self.claimed@,
                        old_self.taken@,
                    ));
                    lemma_pack_shift(n, t, k);
                }
                self.bucket[i].stamp = self.bucket[i].stamp - shift;
                self.bucket[i].ticket = Ghost((t - k * n) as nat);
                i = i + 1;
            }
            proof {
                self.claimed@ = (self.claimed@ - k * n) as nat;
                self.taken@ = (self.taken@ - k * n) as nat;
                assert forall|j: int| 0 <= j < N implies (#[trigger] self.bucket@[j]).wf(
                    n,
                    j,
                    self.claimed@,
                    self.taken@,
                ) && self.bucket@[j].slot(n, self.claimed@, self.taken@) == old_self.bucket@[j].slot(
                    n,
                    old_self.claimed@,
                    old_self.taken@,
                ) by {
                    assert(old_self.bucket@[j].wf(n, j, old_self.claimed@, old_self.taken@));
                    lemma_pack_shift(n, old_self.bucket@[j].ticket@, k);
                }
                assert(self@.slots =~= old_self@.slots);
                assert(self.head < 2 * w) by (nonlinear_arith)
                    requires
                        self.head == old_self.head - k * w,
                        old_self.head < w * laps + w,
                        k == laps - 1,
                ;
                assert(self.laps_off(old_self, k));
            }
        } else {
            proof {
                assert(self.head < 2 * w) by (nonlinear_arith)
                    requires
                        self.head < w * laps + w,
                        laps <= 1,
                        w >= 0,
                ;
                assert(0 * lap(n) == 0);
                assert(self.laps_off(old_self, 0));
            }
        }
    }

    /// Every ring that the operations lead to is consistent.
    pub proof fn law_consistent(&self)
        requires
            self.wf(),
        ensures
            self@.consistent(N as nat),
    {
        let n = N as nat;
        let l = self.taken@;
        let h = self.claimed@;
        lemma_pack_fields(n, l);
        lemma_add_mod_noop(l as int, (h - l) as int, n as int);
        lemma_add_mod_noop_right((h - l) as int, l as int, n as int);
        assert forall|k: nat| k < n implies ((#[trigger] self@.slots[at(
            n,
            self@.next_recv,
            k,
        ) as int]) is Claimed || self@.slots[at(n, self@.next_recv, k) as int] is Published) == (k
            < self@.pending) by {
            lemma_at(n, self@.next_recv, k);
            lemma_add_mod_noop_right(k as int, l as int, n as int);
            let i = at(n, self@.next_recv, k) as int;
            let b = self.bucket@[i];
            assert(i == (l + k) % n);
            assert(b.wf(n, i, h, l));
            if b.ticket@ < l + k {
                lemma_same_position(n, b.ticket@, l + k);
            }
            if l + k < b.ticket@ {
                lemma_same_position(n, l + k, b.ticket@);
            }
        }
    }

    /// Sends the value in `val`, if a bucket can be claimed: claims it, writes
    /// the value, and publishes it. Otherwise the value stays where it is.
    pub fn try_send(&mut self, val: &mut Option<T>) -> (r: Result<(), TxError>)
        requires
            old(self).wf(),
            *old(val) is Some || old(self)@.head_closed
                || !(old(self)@.slots[old(self)@.next_send as int] is Free),
        ensures
            final(self).wf(),
            ({
                let s = old(self)@;
                if s.head_closed {
                    &&& *final(self) == *old(self)
                    &&& *final(val) == *old(val)
                    &&& r == Err::<(), TxError>(TxError::Closed)
                } else if s.slots[s.next_send as int] is Free {
                    &&& final(self)@ == s.claim().with_slot(
                        s.next_send as int,
                        Slot::Published(*old(val)),
                    )
                    &&& old(self).has_lap_left() ==> final(self).words_sent(*old(self))
                    &&& *final(val) == None::<T>
                    &&& r == Ok::<(), TxError>(())
                } else {
                    &&& *final(self) == *old(self)
                    &&& *final(val) == *old(val)
                    &&& r == Err::<(), TxError>(TxError::Full)
                }
            }),
        no_unwind
    {
        proof {
            self.law_consistent();
        }
        match self.start_send() {
            Err(e) => Err(e),
            Ok(pos) => {
                let mut taken: Option<T> = None;
                std::mem::swap(val, &mut taken);
                match taken {
                    Some(v) => {
                        self.write_at(pos, v);
                        // It is guaranteed that a receiver that sees this updated stamp must
                        // also see the latest written value `v`.
                        self.publish(pos);
                        proof {
                            let s = old(self)@;
                            assert(self@.slots =~= s.claim().with_slot(
                                pos as int,
                                Slot::Published(Some(v)),
                            ).slots);
                        }
                    },
                    None => {},
                }
                Ok(())
            },
        }
    }

    /// Whether a bucket could be claimed.
    pub fn has_room(&self) -> (r: bool)
        requires
            self.wf(),
        ensures
            r == (!self@.head_closed && self@.slots[self@.next_send as int] is Free),
        no_unwind
    {
        proof {
            self.law_words();
        }
        match self.check_send(self.load_head()) {
            SendCheck::Ready { .. } => true,
            _ => false,
        }
    }

    /// If the next bucket is published, its value is there.
    pub open spec fn holds_next(&self) -> bool {
        self@.slots[self@.next_recv as int] is Published ==> data(
            self@.slots[self@.next_recv as int],
        ) is Some
    }

    /// Receives a value: takes a bucket, reads the value, and releases it.
    pub fn try_recv(&mut self) -> (r: Result<T, RxError>)
        requires
            old(self).wf(),
            old(self).holds_next(),
        ensures
            final(self).wf(),
            ({
                let s = old(self)@;
                let slot = s.slots[s.next_recv as int];
                if slot is Published && !s.tail_closed {
                    &&& final(self)@ == s.take().with_slot(s.next_recv as int, Slot::Free(None))
                    &&& final(self).words_received(*old(self))
                    &&& r == Ok::<T, RxError>(slot->Published_0->0)
                } else {
                    &&& *final(self) == *old(self)
                    &&& r == Err::<T, RxError>(RxError::NoValueToRead)
                }
            }),
        no_unwind
    {
        proof {
            self.law_consistent();
        }
        match self.start_recv() {
            Err(e) => Err(e),
            Ok(pos) => {
                // read at the position taken (not the next one)
                let res = self.read_at(pos);
                self.release(pos);
                proof {
                    let s = old(self)@;
                    assert(self@.slots =~= s.take().with_slot(pos as int, Slot::Free(None)).slots);
                }
                Ok(res)
            },
        }
    }

    /// One attempt of a receiver that would rather wait than be refused.
    pub fn recv_step(&mut self) -> (r: RecvStep<T>)
        requires
            old(self).wf(),
            old(self).holds_next(),
        ensures
            final(self).wf(),
            ({
                let s = old(self)@;
                let slot = s.slots[s.next_recv as int];
                if slot is Published && !s.tail_closed {
                    &&& final(self)@ == s.take().with_slot(s.next_recv as int, Slot::Free(None))
                    &&& final(self).words_received(*old(self))
                    &&& r == RecvStep::Done(Ok::<T, RxError>(slot->Published_0->0))
                } else {
                    &&& *final(self) == *old(self)
                    &&& r == (if old(self).tail_word() < old(self).head_word() {
                        RecvStep::<T>::Again
                    } else {
                        RecvStep::<T>::Wait
                    })
                }
            }),
        no_unwind
    {
        match self.try_recv() {
            Err(RxError::NoValueToRead) => {
                // check if just inserted?
                if self.just_inserted() {
                    RecvStep::Again
                } else {
                    RecvStep::Wait
                }
            },
            Err(RxError::Closed) => RecvStep::Done(Err(RxError::Closed)),
            Ok(res) => RecvStep::Done(Ok(res)),
        }
    }

    /// Whether the head can move on without taking laps off first.
    pub fn lap_left(&self) -> (r: bool)
        requires
            valid_capacity(N),
        ensures
            r == self.has_lap_left(),
        no_unwind
    {
        let one_lap: usize = self.one_lap();
        proof {
            lemma_fields(N as nat);
        }
        self.head <= usize::MAX - 2 * one_lap
    }
}

/// In the first lap a cursor is just a position.
proof fn lemma_small_pack(n: nat, t: nat)
    requires
        t < n,
    ensures
        pack(n, t) == t,
        t % n == t,
{
    vstd::arithmetic::div_mod::lemma_small_mod(t, n);
    vstd::arithmetic::div_mod::lemma_basic_div(t as int, n as int);
    assert(0 * lap(n) == 0);
}

} // verus!
