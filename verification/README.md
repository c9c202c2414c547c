# async-io

The core of a runtime for asynchronous I/O: a reactor that keeps the wakers of tasks waiting on I/O sources
and timers, and the threads that drive it.

- `src/` is a Verus library. It decides; it performs no I/O, reads no clock and takes no locks. Each function
  states in its contract what it returns and changes, over the views of the types. `src/laws.rs` states what
  holds of several functions together, such as that no future is completed by a stale event, that no waker is
  lost, and that every due timer fires once and in order.
- `app/` is the runtime around it: the poller, the clock, the parkers, the helper thread and `block_on`. It
  performs the actions that the library asks for and reports what came of them.
- `tests/` runs the library on concrete values.

What is not proved is what the library believes of the code that it calls: `slab::Slab`,
`concurrent_queue::ConcurrentQueue`, `BTreeMap::split_off`, and `Waker::will_wake`. Each such belief
stands in the contract of a small function with a doc comment, in `src/slots.rs`, `src/reactor.rs` and
`src/timers.rs`.
