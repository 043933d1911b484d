//! What holds of a ring whatever the order in which senders and receivers take
//! their steps.

use crate::mpmc::ring::{data, with_data, RingState, Slot};
use vstd::arithmetic::div_mod::{
    lemma_add_mod_noop, lemma_add_mod_noop_right, lemma_mod_add_multiples_vanish,
    lemma_mod_division_less_than_divisor, lemma_small_mod,
};
use vstd::prelude::*;

verus! {

/// The bucket `k` places after `start` in a ring of `n` buckets.
pub open spec fn at(n: nat, start: nat, k: nat) -> nat {
    (start + k) % n
}

/// How many places after `start` bucket `pos` comes in a ring of `n` buckets.
pub open spec fn offset(n: nat, start: nat, pos: nat) -> nat {
    ((pos + n - start) as nat) % n
}

/// Going round the ring and measuring how far one went undo one another.
pub(crate) proof fn lemma_at(n: nat, start: nat, k: nat)
    requires
        start < n,
        k < n,
    ensures
        at(n, start, k) < n,
        at(n, start, k) == (if start + k < n {
            (start + k) as int
        } else {
            start + k - n
        }),
        offset(n, start, at(n, start, k)) == k,
        at(n, start, offset(n, start, k)) == k,
        offset(n, start, k) < n,
{
    if start + k < n {
        lemma_small_mod(start + k, n);
    } else {
        lemma_mod_add_multiples_vanish(start + k - n, n as int);
        lemma_small_mod((start + k - n) as nat, n);
    }
    lemma_mod_add_multiples_vanish(k as int, n as int);
    lemma_small_mod(k, n);
    if k >= start {
        lemma_mod_add_multiples_vanish(k - start, n as int);
        lemma_small_mod((k - start) as nat, n);
    } else {
        lemma_small_mod((k + n - start) as nat, n);
    }
}

impl<T> RingState<T> {
    /// The buckets in use by senders and not taken by receivers lie side by
    /// side, from where the next receiver takes to where the next sender claims.
    pub open spec fn consistent(self, n: nat) -> bool {
        &&& 1 <= n
        &&& self.slots.len() == n
        &&& self.next_recv < n
        &&& self.pending <= n
        &&& self.next_send == (self.next_recv + self.pending) % n
        &&& forall|k: nat|
            k < n ==> ((#[trigger] self.slots[at(n, self.next_recv, k) as int]) is Claimed
                || self.slots[at(n, self.next_recv, k) as int] is Published) == (k < self.pending)
    }

    /// The buckets in use by senders and not taken by receivers, oldest first.
    pub open spec fn items(self) -> Seq<Slot<T>> {
        Seq::new(
            self.pending,
            |k: int| self.slots[at(self.slots.len(), self.next_recv, k as nat) as int],
        )
    }
}

/// Claiming a bucket puts it behind all others that are in use.
pub proof fn law_claim<T>(s: RingState<T>, n: nat)
    requires
        s.consistent(n),
        s.slots[s.next_send as int] is Free,
    ensures
        s.claim().consistent(n),
        s.pending < n,
        s.claim().items() == s.items().push(
            Slot::Claimed(s.slots[s.next_send as int]->Free_0),
        ),
{
    let u = s.claim();
    if s.pending == n {
        lemma_mod_add_multiples_vanish(s.next_recv as int, n as int);
        lemma_small_mod(s.next_recv, n);
        lemma_at(n, s.next_recv, 0);
        assert(s.slots[at(n, s.next_recv, 0) as int] is Free);
    }
    lemma_at(n, s.next_recv, s.pending);
    assert(u.next_send == (u.next_recv + u.pending) % n) by {
        lemma_add_mod_noop_right(1, (s.next_recv + s.pending) as int, n as int);
    }
    assert forall|k: nat| k < n implies ((#[trigger] u.slots[at(n, u.next_recv, k) as int]) is Claimed
        || u.slots[at(n, u.next_recv, k) as int] is Published) == (k < u.pending) by {
        lemma_at(n, s.next_recv, k);
        assert(s.slots[at(n, s.next_recv, k) as int] == s.slots[at(n, s.next_recv, k) as int]);
    }
    let claimed = Slot::Claimed(s.slots[s.next_send as int]->Free_0);
    assert forall|k: int| 0 <= k < u.pending implies #[trigger] u.items()[k] == s.items().push(
        claimed,
    )[k] by {
        lemma_at(n, s.next_recv, k as nat);
    }
    assert(u.items() =~= s.items().push(claimed));
}

/// Receivers take the oldest bucket that is in use.
pub proof fn law_take<T>(s: RingState<T>, n: nat)
    requires
        s.consistent(n),
        s.slots[s.next_recv as int] is Published,
    ensures
        s.take().consistent(n),
        s.pending > 0,
        s.items()[0] == s.slots[s.next_recv as int],
        s.take().items() == s.items().drop_first(),
{
    let u = s.take();
    lemma_at(n, s.next_recv, 0);
    assert(s.slots[at(n, s.next_recv, 0) as int] is Published);
    lemma_at(n, s.next_recv, 1nat % n);
    if s.next_recv + 1 < n {
        lemma_small_mod(s.next_recv + 1, n);
    } else {
        lemma_mod_add_multiples_vanish(0, n as int);
        lemma_small_mod(0, n);
    }
    assert(u.next_recv == (s.next_recv + 1) % n);
    assert(u.next_send == (u.next_recv + u.pending) % n) by {
        lemma_add_mod_noop((s.next_recv + 1) as int, u.pending as int, n as int);
        lemma_add_mod_noop_right(u.pending as int, (s.next_recv + 1) as int, n as int);
    }
    assert forall|k: nat| k < n implies {
        &&& ((#[trigger] u.slots[at(n, u.next_recv, k) as int]) is Claimed || u.slots[at(
            n,
            u.next_recv,
            k,
        ) as int] is Published) == (k < u.pending)
        &&& k < u.pending ==> u.slots[at(n, u.next_recv, k) as int] == s.slots[at(
            n,
            s.next_recv,
            k + 1,
        ) as int]
    } by {
        lemma_at(n, u.next_recv, k);
        if k + 1 < n {
            lemma_at(n, s.next_recv, k + 1);
            assert(at(n, u.next_recv, k) == at(n, s.next_recv, k + 1));
        } else {
            assert(at(n, u.next_recv, k) == s.next_recv);
        }
    }
    assert(u.items() =~= s.items().drop_first());
}

/// What a sender does with a bucket that it has claimed changes that one item.
pub proof fn law_item_changed<T>(s: RingState<T>, n: nat, pos: nat, slot: Slot<T>)
    requires
        s.consistent(n),
        pos < n,
        s.slots[pos as int] is Claimed || s.slots[pos as int] is Published,
        slot is Claimed || slot is Published,
    ensures
        s.with_slot(pos as int, slot).consistent(n),
        offset(n, s.next_recv, pos) < s.pending,
        s.items()[offset(n, s.next_recv, pos) as int] == s.slots[pos as int],
        s.with_slot(pos as int, slot).items() == s.items().update(
            offset(n, s.next_recv, pos) as int,
            slot,
        ),
{
    let u = s.with_slot(pos as int, slot);
    let j = offset(n, s.next_recv, pos);
    lemma_at(n, s.next_recv, pos);
    assert(s.slots[at(n, s.next_recv, j) as int] == s.slots[pos as int]);
    assert forall|k: nat| k < n implies ((#[trigger] u.slots[at(n, u.next_recv, k) as int]) is Claimed
        || u.slots[at(n, u.next_recv, k) as int] is Published) == (k < u.pending) by {
        lemma_at(n, s.next_recv, k);
        assert(s.slots[at(n, s.next_recv, k) as int] == s.slots[at(n, s.next_recv, k) as int]);
    }
    assert forall|k: int| 0 <= k < u.pending implies #[trigger] u.items()[k] == s.items().update(
        j as int,
        slot,
    )[k] by {
        lemma_at(n, s.next_recv, k as nat);
    }
    assert(u.items() =~= s.items().update(j as int, slot));
}

/// What a receiver does with a bucket that it has taken changes no item.
pub proof fn law_items_kept<T>(s: RingState<T>, n: nat, pos: nat, slot: Slot<T>)
    requires
        s.consistent(n),
        pos < n,
        s.slots[pos as int] is Free || s.slots[pos as int] is Taken,
        slot is Free || slot is Taken,
    ensures
        s.with_slot(pos as int, slot).consistent(n),
        s.with_slot(pos as int, slot).items() == s.items(),
{
    let u = s.with_slot(pos as int, slot);
    assert forall|k: nat| k < n implies {
        &&& ((#[trigger] u.slots[at(n, u.next_recv, k) as int]) is Claimed || u.slots[at(
            n,
            u.next_recv,
            k,
        ) as int] is Published) == (k < u.pending)
        &&& k < u.pending ==> u.slots[at(n, u.next_recv, k) as int] == s.slots[at(
            n,
            s.next_recv,
            k,
        ) as int]
    } by {
        lemma_at(n, s.next_recv, k);
        assert(s.slots[at(n, s.next_recv, k) as int] == s.slots[at(n, s.next_recv, k) as int]);
    }
    assert(u.items() =~= s.items());
}

/// One step of a sender, a receiver, or a handle.
pub enum Step<T> {
    Claim,
    Write(nat, T),
    Publish(nat),
    Take,
    Read(nat),
    Release(nat),
    AddTx,
    AddRx,
    DropTx,
    DropRx,
}

/// What was sent, in the order in which buckets were claimed, with `None` for
/// what is not published yet, and what was received, in the order in which
/// buckets were taken.
#[verifier::ext_equal]
pub struct History<T> {
    pub sent: Seq<Option<T>>,
    pub received: Seq<T>,
}

impl<T> Step<T> {
    /// The step can be taken.
    pub open spec fn enabled(self, s: RingState<T>) -> bool {
        match self {
            Step::Claim => !s.head_closed && s.slots[s.next_send as int] is Free,
            Step::Write(pos, _) => pos < s.slots.len() && s.slots[pos as int] is Claimed,
            Step::Publish(pos) => pos < s.slots.len() && (s.slots[pos as int] matches Slot::Claimed(
                Some(_),
            )),
            Step::Take => !s.tail_closed && (s.slots[s.next_recv as int] matches Slot::Published(
                Some(_),
            )),
            Step::Read(pos) => pos < s.slots.len() && data(s.slots[pos as int]) is Some && (
            s.slots[pos as int] is Claimed || s.slots[pos as int] is Taken),
            Step::Release(pos) => pos < s.slots.len() && s.slots[pos as int] == Slot::<T>::Taken(None),
            _ => true,
        }
    }

    /// What the step makes of the ring.
    pub open spec fn apply(self, s: RingState<T>) -> RingState<T> {
        match self {
            Step::Claim => s.claim(),
            Step::Write(pos, v) => s.with_slot(pos as int, Slot::Claimed(Some(v))),
            Step::Publish(pos) => s.with_slot(
                pos as int,
                Slot::Published(s.slots[pos as int]->Claimed_0),
            ),
            Step::Take => s.take(),
            Step::Read(pos) => s.with_slot(pos as int, with_data(s.slots[pos as int], None)),
            Step::Release(pos) => s.with_slot(pos as int, Slot::Free(None)),
            Step::AddTx => s.add_tx(),
            Step::AddRx => s.add_rx(),
            Step::DropTx => s.drop_tx(),
            Step::DropRx => s.drop_rx(),
        }
    }

    /// What the step adds to the history.
    pub open spec fn record(self, s: RingState<T>, h: History<T>) -> History<T> {
        match self {
            Step::Claim => History { sent: h.sent.push(None), ..h },
            Step::Publish(pos) => History {
                sent: h.sent.update(
                    (h.received.len() + offset(s.slots.len(), s.next_recv, pos)) as int,
                    s.slots[pos as int]->Claimed_0,
                ),
                ..h
            },
            Step::Take => History {
                received: h.received.push(s.slots[s.next_recv as int]->Published_0->0),
                ..h
            },
            _ => h,
        }
    }
}

/// Each step could be taken when its turn came.
pub open spec fn possible<T>(s: RingState<T>, steps: Seq<Step<T>>) -> bool
    decreases steps.len(),
{
    steps.len() > 0 ==> {
        &&& possible(s, steps.drop_last())
        &&& steps.last().enabled(after(s, steps.drop_last()))
    }
}

/// The ring after a run of steps.
pub open spec fn after<T>(s: RingState<T>, steps: Seq<Step<T>>) -> RingState<T>
    decreases steps.len(),
{
    if steps.len() == 0 {
        s
    } else {
        steps.last().apply(after(s, steps.drop_last()))
    }
}

/// The history of a run of steps.
pub open spec fn history<T>(s: RingState<T>, steps: Seq<Step<T>>) -> History<T>
    decreases steps.len(),
{
    if steps.len() == 0 {
        History { sent: Seq::empty(), received: Seq::empty() }
    } else {
        steps.last().record(after(s, steps.drop_last()), history(s, steps.drop_last()))
    }
}

/// What a bucket in use holds for receivers.
pub open spec fn published<T>(slot: Slot<T>) -> Option<T> {
    match slot {
        Slot::Published(data) => data,
        _ => None,
    }
}

/// Every step keeps the ring consistent.
pub proof fn law_step<T>(n: nat, s: RingState<T>, step: Step<T>)
    requires
        s.consistent(n),
        step.enabled(s),
    ensures
        step.apply(s).consistent(n),
        s.next_send < n,
{
    lemma_mod_division_less_than_divisor((s.next_recv + s.pending) as int, n as int);
    match step {
        Step::Claim => {
            law_claim(s, n);
        },
        Step::Write(pos, v) => {
            law_item_changed(s, n, pos, Slot::Claimed(Some(v)));
        },
        Step::Publish(pos) => {
            law_item_changed(s, n, pos, Slot::Published(s.slots[pos as int]->Claimed_0));
        },
        Step::Take => {
            law_take(s, n);
        },
        Step::Read(pos) => {
            if s.slots[pos as int] is Claimed {
                law_item_changed(s, n, pos, Slot::Claimed(None));
            } else {
                law_items_kept(s, n, pos, Slot::Taken(None));
            }
        },
        Step::Release(pos) => {
            law_items_kept(s, n, pos, Slot::Free(None));
        },
        _ => {
            lemma_same_items(s, step.apply(s), n);
        },
    }
}

/// Whatever the order in which senders and receivers take their steps, what was
/// sent is what was received followed by what is in the ring: no value is lost,
/// none is received twice, and all are received in the order of their claims.
pub proof fn law_interleaving<T>(n: nat, steps: Seq<Step<T>>)
    requires
        1 <= n,
        possible(RingState::<T>::fresh(n), steps),
    ensures
        after(RingState::<T>::fresh(n), steps).consistent(n),
        ({
            let s = after(RingState::<T>::fresh(n), steps);
            let h = history(RingState::<T>::fresh(n), steps);
            h.sent == h.received.map_values(|v: T| Some(v)) + s.items().map_values(
                |slot: Slot<T>| published(slot),
            )
        }),
    decreases steps.len(),
{
    let start = RingState::<T>::fresh(n);
    let some = |v: T| Some(v);
    let seen = |slot: Slot<T>| published(slot);
    if steps.len() == 0 {
        lemma_small_mod(0, n);
        assert forall|k: nat| k < n implies (#[trigger] start.slots[at(n, 0, k) as int]) is Free by {
            lemma_at(n, 0, k);
        }
        assert(start.items() =~= Seq::empty());
    } else {
        let before = steps.drop_last();
        let step = steps.last();
        law_interleaving(n, before);
        let s = after(start, before);
        let h = history(start, before);
        let u = after(start, steps);
        let g = history(start, steps);
        match step {
            Step::Claim => {
                law_claim(s, n);
            },
            Step::Write(pos, v) => {
                law_item_changed(s, n, pos, Slot::Claimed(Some(v)));
            },
            Step::Publish(pos) => {
                law_item_changed(s, n, pos, Slot::Published(s.slots[pos as int]->Claimed_0));
            },
            Step::Take => {
                law_take(s, n);
            },
            Step::Read(pos) => {
                if s.slots[pos as int] is Claimed {
                    law_item_changed(s, n, pos, Slot::Claimed(None));
                } else {
                    law_items_kept(s, n, pos, Slot::Taken(None));
                }
            },
            Step::Release(pos) => {
                law_items_kept(s, n, pos, Slot::Free(None));
            },
            _ => {
                lemma_same_items(s, u, n);
            },
        }
        assert(g.sent =~= g.received.map_values(some) + u.items().map_values(seen));
    }
}

/// A send is a run of three steps: claim, write, and publish.
pub proof fn law_send_steps<T>(n: nat, s: RingState<T>, v: T)
    requires
        s.consistent(n),
        Step::<T>::Claim.enabled(s),
    ensures
        ({
            let pos = s.next_send;
            let steps = seq![Step::Claim, Step::Write(pos, v), Step::Publish(pos)];
            &&& possible(s, steps)
            &&& after(s, steps) == s.claim().with_slot(pos as int, Slot::Published(Some(v)))
        }),
{
    let pos = s.next_send;
    let steps = seq![Step::Claim, Step::Write(pos, v), Step::Publish(pos)];
    lemma_mod_division_less_than_divisor((s.next_recv + s.pending) as int, n as int);
    lemma_three_steps(s, steps);
    assert(after(s, steps).slots =~= s.claim().with_slot(pos as int, Slot::Published(Some(v))).slots);
}

/// A receive is a run of three steps: take, read, and release.
pub proof fn law_recv_steps<T>(n: nat, s: RingState<T>)
    requires
        s.consistent(n),
        Step::<T>::Take.enabled(s),
    ensures
        ({
            let pos = s.next_recv;
            let steps = seq![Step::Take, Step::Read(pos), Step::Release(pos)];
            &&& possible(s, steps)
            &&& after(s, steps) == s.take().with_slot(pos as int, Slot::Free(None))
        }),
{
    let pos = s.next_recv;
    let steps = seq![Step::Take, Step::Read(pos), Step::Release(pos)];
    lemma_three_steps(s, steps);
    assert(after(s, steps).slots =~= s.take().with_slot(pos as int, Slot::Free(None)).slots);
}

/// A run of three steps, step by step.
proof fn lemma_three_steps<T>(s: RingState<T>, steps: Seq<Step<T>>)
    requires
        steps.len() == 3,
    ensures
        ({
            let s1 = steps[0].apply(s);
            let s2 = steps[1].apply(s1);
            &&& possible(s, steps) == (steps[0].enabled(s) && steps[1].enabled(s1) && steps[2].enabled(
                s2,
            ))
            &&& after(s, steps) == steps[2].apply(s2)
        }),
{
    reveal_with_fuel(after, 4);
    reveal_with_fuel(possible, 4);
    let two = steps.drop_last();
    let one = two.drop_last();
    assert(one.drop_last().len() == 0);
    assert(one.last() == steps[0] && two.last() == steps[1]);
}

/// No step but its own touches a bucket that a sender or a receiver holds.
pub proof fn law_exclusive<T>(n: nat, s: RingState<T>, step: Step<T>, pos: nat)
    requires
        s.consistent(n),
        pos < n,
        s.slots[pos as int] is Claimed || s.slots[pos as int] is Taken,
        step.enabled(s),
        !(step matches Step::Write(p, _) && p == pos),
        !(step matches Step::Publish(p) && p == pos),
        !(step matches Step::Read(p) && p == pos),
        !(step matches Step::Release(p) && p == pos),
    ensures
        step.apply(s).slots[pos as int] == s.slots[pos as int],
{
    lemma_mod_division_less_than_divisor((s.next_recv + s.pending) as int, n as int);
}

/// What a sender writes to a bucket stays there until it is written again or
/// read: whatever steps others take, and whether or not the bucket is published
/// and taken meanwhile, a read gives back the value that was written.
pub proof fn law_read_back<T>(n: nat, s: RingState<T>, pos: nat, v: T, steps: Seq<Step<T>>)
    requires
        s.consistent(n),
        Step::Write(pos, v).enabled(s),
        possible(Step::Write(pos, v).apply(s), steps),
        forall|i: int|
            0 <= i < steps.len() ==> !(#[trigger] steps[i] matches Step::Write(p, _) && p == pos)
                && !(steps[i] matches Step::Read(p) && p == pos),
    ensures
        ({
            let u = after(Step::Write(pos, v).apply(s), steps);
            &&& u.consistent(n)
            &&& data(u.slots[pos as int]) == Some(v)
            &&& Step::<T>::Read(pos).enabled(u) <==> !(u.slots[pos as int] is Published)
        }),
    decreases steps.len(),
{
    let start = Step::Write(pos, v).apply(s);
    if steps.len() == 0 {
        law_step(n, s, Step::Write(pos, v));
    } else {
        let before = steps.drop_last();
        assert forall|i: int| 0 <= i < before.len() implies !(#[trigger] before[i] matches Step::Write(
            p,
            _,
        ) && p == pos) && !(before[i] matches Step::Read(p) && p == pos) by {
            assert(before[i] == steps[i]);
        }
        law_read_back(n, s, pos, v, before);
        assert(steps.last() == steps[steps.len() - 1]);
        law_step(n, after(start, before), steps.last());
    }
}

/// The ring after each of `accesses`, in order, has put something into a bucket
/// or taken it out.
pub open spec fn accessed<T>(s: RingState<T>, accesses: Seq<(nat, Option<T>)>) -> RingState<T>
    decreases accesses.len(),
{
    if accesses.len() == 0 {
        s
    } else {
        let before = accessed(s, accesses.drop_last());
        let (pos, value) = accesses.last();
        before.with_slot(pos as int, with_data(before.slots[pos as int], value))
    }
}

/// What was written to a bucket is read from it, whoever uses the bucket, if
/// only other buckets were written to and read from in between.
pub proof fn law_write_read<T>(
    s: RingState<T>,
    pos: nat,
    v: T,
    accesses: Seq<(nat, Option<T>)>,
)
    requires
        pos < s.slots.len(),
        forall|i: int|
            0 <= i < accesses.len() ==> (#[trigger] accesses[i]).0 != pos && accesses[i].0
                < s.slots.len(),
    ensures
        ({
            let written = s.with_slot(pos as int, with_data(s.slots[pos as int], Some(v)));
            let u = accessed(written, accesses);
            &&& data(u.slots[pos as int]) == Some(v)
            &&& u == (RingState { slots: u.slots, ..s })
            &&& u.slots.len() == s.slots.len()
        }),
    decreases accesses.len(),
{
    if accesses.len() > 0 {
        let before = accesses.drop_last();
        assert forall|i: int| 0 <= i < before.len() implies (#[trigger] before[i]).0 != pos
            && before[i].0 < s.slots.len() by {
            assert(before[i] == accesses[i]);
        }
        law_write_read(s, pos, v, before);
        assert(accesses.last() == accesses[accesses.len() - 1]);
    }
}

/// The flags and the counts do not tell which buckets are in use.
proof fn lemma_same_items<T>(s: RingState<T>, u: RingState<T>, n: nat)
    requires
        s.consistent(n),
        u.slots == s.slots,
        u.next_send == s.next_send,
        u.next_recv == s.next_recv,
        u.pending == s.pending,
    ensures
        u.consistent(n),
        u.items() == s.items(),
{
    assert(u.items() =~= s.items());
}

/// A new ring has `n` empty buckets that nobody uses, is open on both sides, and
/// has one handle on each.
pub proof fn law_fresh<T>(n: nat)
    ensures
        ({
            let s = RingState::<T>::fresh(n);
            &&& s.slots.len() == n
            &&& forall|i: int| 0 <= i < n ==> #[trigger] s.slots[i] == Slot::<T>::Free(None)
            &&& s.next_send == 0
            &&& s.next_recv == 0
            &&& s.pending == 0
            &&& !s.head_closed
            &&& !s.tail_closed
            &&& s.tx_count == 1
            &&& s.rx_count == 1
        }),
{
}

/// What a claim and a take change: the bucket that is next, which goes over to the
/// sender or the receiver with what is in it, and which bucket is next then.
pub proof fn law_claim_take_effect<T>(s: RingState<T>, pos: int)
    requires
        s.slots.len() > 0,
        s.next_send < s.slots.len(),
        s.next_recv < s.slots.len(),
        0 <= pos < s.slots.len(),
    ensures
        s.slots[s.next_send as int] matches Slot::Free(d) ==> {
            let u = s.claim();
            &&& u.slots.len() == s.slots.len()
            &&& u.slots[pos] == (if pos == s.next_send {
                Slot::Claimed(d)
            } else {
                s.slots[pos]
            })
            &&& u.next_send == (s.next_send + 1) % s.slots.len()
            &&& u.pending == s.pending + 1
            &&& u == (RingState {
                slots: u.slots,
                next_send: u.next_send,
                pending: u.pending,
                ..s
            })
        },
        s.slots[s.next_recv as int] matches Slot::Published(d) ==> {
            let u = s.take();
            &&& u.slots.len() == s.slots.len()
            &&& u.slots[pos] == (if pos == s.next_recv {
                Slot::Taken(d)
            } else {
                s.slots[pos]
            })
            &&& u.next_recv == (s.next_recv + 1) % s.slots.len()
            &&& s.pending > 0 ==> u.pending == s.pending - 1
            &&& u == (RingState {
                slots: u.slots,
                next_recv: u.next_recv,
                pending: u.pending,
                ..s
            })
        },
{
}

/// What writing and reading change: what is in the one bucket, not its use, and
/// nothing else.
pub proof fn law_data_effect<T>(s: RingState<T>, index: int, value: Option<T>, pos: int)
    requires
        0 <= index < s.slots.len(),
        0 <= pos < s.slots.len(),
    ensures
        ({
            let slot = with_data(s.slots[index], value);
            let u = s.with_slot(index, slot);
            &&& data(slot) == value
            &&& slot is Free <==> s.slots[index] is Free
            &&& slot is Claimed <==> s.slots[index] is Claimed
            &&& slot is Published <==> s.slots[index] is Published
            &&& slot is Taken <==> s.slots[index] is Taken
            &&& u.slots.len() == s.slots.len()
            &&& u.slots[index] == slot
            &&& pos != index ==> u.slots[pos] == s.slots[pos]
            &&& u == (RingState { slots: u.slots, ..s })
        }),
{
}

/// What coming and going handles change: their count, and the closed flags when
/// the last one of a side goes. Buckets and cursors stay.
pub proof fn law_handle_effect<T>(s: RingState<T>)
    ensures
        s.tx_count < usize::MAX ==> s.add_tx().tx_count == s.tx_count + 1,
        s.rx_count < usize::MAX ==> s.add_rx().rx_count == s.rx_count + 1,
        s.tx_count == usize::MAX ==> s.add_tx().tx_count == 0,
        s.rx_count == usize::MAX ==> s.add_rx().rx_count == 0,
        s.tx_count > 0 ==> s.drop_tx().tx_count == s.tx_count - 1,
        s.rx_count > 0 ==> s.drop_rx().rx_count == s.rx_count - 1,
        s.tx_count == 0 ==> s.drop_tx().tx_count == 0,
        s.rx_count == 0 ==> s.drop_rx().rx_count == 0,
        s.drop_tx().head_closed <==> s.head_closed || s.tx_count == 1,
        s.drop_rx().head_closed <==> s.head_closed || s.rx_count == 1,
        s.drop_rx().tail_closed <==> s.tail_closed || s.rx_count == 1,
        s.add_tx() == (RingState { tx_count: s.add_tx().tx_count, ..s }),
        s.add_rx() == (RingState { rx_count: s.add_rx().rx_count, ..s }),
        s.drop_tx() == (RingState {
            tx_count: s.drop_tx().tx_count,
            head_closed: s.drop_tx().head_closed,
            ..s
        }),
        s.drop_rx() == (RingState {
            rx_count: s.drop_rx().rx_count,
            head_closed: s.drop_rx().head_closed,
            tail_closed: s.drop_rx().tail_closed,
            ..s
        }),
{
}

} // verus!
