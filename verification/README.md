# async_concurrent_primitives

Channels for concurrent tasks, verified with Verus.

- `mpmc::bounded`: an array based bounded channel with any number of senders
  and receivers.
- `oneshot`: a channel that can send or receive a value only once.
- `linked_list`: an intrusive list whose nodes live in a vector.
- `mpsc`: places for the values of one receiver.

## The bounded channel

The channel is built in layers, each with its own contract:

| module | what it is |
| --- | --- |
| `mpmc::layout` | packing a lap, a closed bit and a position into one word |
| `mpmc::ring` | the buckets and the steps of senders and receivers |
| `mpmc::interleaving` | what holds for every order of those steps |
| `mpmc::queue` | the ring between operations: a bounded queue |
| `mpmc::bounded` | the channel with its wait lists, and the handles |
| `mpmc::laws` | what holds for every run of operations |

A send is three steps (claim, write, publish) and a receive is three steps
(take, read, release). `law_interleaving` says that no value is lost or doubled
and that values come out in the order of their claims, whatever the order in
which the steps of different senders and receivers come.

To claim a bucket, a sender loads the head, looks at the bucket there
(`check_send`) and moves the head on if it is still where it was (`commit_send`);
a receiver does the same with the tail. Others may take any steps in between:
`law_ready_lasts` says that what was seen remains of use, and `commit_send` and
`commit_recv` say what comes of it.

The handles share the channel behind a lock. What a handle finds there is what
the other handles left, so its contract speaks of the channel that the lock gave:
it says which lock was taken, that the result and the channel that is left are
those of the operation on the channel that was found, and which task was handed
to `Waker::wake` or `Waker::wake_by_ref`. The functions that make a channel say that it is a fresh one
that the lock was put around. What an operation does to a channel is said by the
exact contracts of `Channel`.

A receiver looks again as long as the tail is behind the head, and a closed head
is ahead of an open tail. So once the channel is empty and the senders are gone, a
receiver that would rather wait looks for ever. `RxRef::poll` must not be called
then; `RxRef::try_poll` looks once, and says so.

No value and no waker of a caller is dropped, and no task is woken up, while the
lock is held. That is no contract but the form of the code: what a caller hands in
is in a local variable, or in the `TxRef`, before the lock is taken; operations
take it out of there by `&mut Option` and give back what is to be woken up; and of
the locals that own something the guard is made last, so that it is dropped first.
The waker of a oneshot receiver stays in the channel when it is woken up, so the
sender gets a share of it.

What is trusted is in `shared`: the lock and the wakers of `std`.

`app/` holds the futures of the channels.
