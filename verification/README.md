# protohackers

Servers for the Protohackers network challenges, with their protocol logic
verified by Verus.

## Layout

- `src/` is the verified library, one module per concern:
  - `primality`: modular arithmetic and the deterministic Miller-Rabin test;
    `number_theory` holds Euclid's lemma and Fermat's little theorem, from which
    the test is shown to accept every prime.
  - `means`: timestamped prices and their means.
  - `chat`: the chat room and the messages it sends.
  - `udb`: the key-value store that answers over UDP.
  - `mob`: rewriting Boguscoin addresses.
  - `speed`: snapshots, tickets, dispatchers and the client connection steps
    of the speed daemon.
  - `lrcp`: the line reversal control protocol: message syntax, sessions and
    routing.
  - `isl`: the insecure sockets layer: cipher specs, encoding, decoding and
    toy requests.
  - `jobs`: the job centre: priority queues, locks and waiting clients.
  - `text`, `unicode`: byte and character utilities shared by the others.
- `tests/` runs the library on concrete inputs.
- `app/` is the program around the library: sockets, threads, async tasks,
  JSON, and the average-speed computation in floating point. Its first
  argument names the server to run.
