# meerkat

The runtime of a small reactive language, with its decision logic verified by Verus.

Variables and definitions each have a worker. A manager gives out locks, runs transactions
on variables, replaces code while the program runs, and shares the nodes with other managers.

- `src/` is the verified library. Every step of a worker, of a transaction and of a code
  update is a function from a state and an incoming message to the next state and the
  messages to send; its contract says which.
  - `collections`, `text`, `expr`, `transaction`, `lock`, `message`, `graph`: data
  - `varworker`, `defworker`, `batch`, `deflaws`: workers
  - `manager`: locks, code updates (`locks`, `versions`, `install`, `apply`, `cycles`,
    `update`, `change`, `chains`), transactions (`txn`, `commit`) and values (`values`)
  - `session`: what a client sends and gets
- `app/` performs what the library asks for: channels, tasks, and clients over WebSocket.
- `tests/` runs the library.

A channel is known to the library by its address (`Endpoint`). Sets and maps are lists
without repetitions; where an order is open, contracts hold for every order.

Proof functions whose names begin with `law_` state what holds across several steps.
