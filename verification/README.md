# flume

A multi-producer, multi-consumer channel, bounded or not, with blocking, non-blocking and timed
operations. The channel is a state machine verified with Verus; threads, locks and clocks stand
around it.

- `src/` is the library.
  - `model.rs`: what the state of a channel is, and what each operation makes of it.
  - `hook.rs`: signals, and the hooks that stand in the waiting lists.
  - `shared.rs`: the state and its operations, proved to do what the model says.
  - `sender.rs`, `receiver.rs`, `weak.rs`, `iterator.rs`: the handles.
  - `error.rs`: the errors.
  - `laws.rs`: what holds of the channel as a whole: order, conservation of messages, waiting,
    disconnection, capacity, handles.
- `app/` puts the state behind a lock and parks the threads whose operations have to wait.
- `tests/` runs the library.
