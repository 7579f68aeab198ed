# data_structures

Thread-coordination structures whose decisions are verified with Verus.

Each structure keeps its shared state behind one mutex. `src/` holds that
state as a plain type, with every decision taken under the lock written as a
verified step: the step says, for the current state, what the calling thread
does next (proceed with a result, sleep on the condition variable, compute,
send, ...) and how the state changes. Laws about whole runs of steps are
public proof functions next to the step functions.

- `execution_limiter`: admission of at most `n` simultaneous executions.
- `ranking_barrier`: a barrier that fills with `limit` threads and releases them with ranks.
- `cache`: a memoizing table where each value is computed by one thread.
- `mpmc_channel`: a bounded FIFO channel with shutdown.
- `delayed_queue`: elements released in order of their due instant.
- `dispatcher`: the subscriber list of a broadcast dispatcher.
- `looper`: the decision loop of a message-processing worker.

`app/` is the program: it wraps each state in `Mutex`/`Condvar`, runs the
threads and channels, and asks the library at each step.
