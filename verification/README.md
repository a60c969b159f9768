# dcsbridge

The DCS-Bridge broker's logic and its command-line client, verified with
Verus.

- `src/` is the library. Every function in it carries a contract that Verus
  proves: the record encoder and the answers it builds, the drop-oldest
  rings, each connection's three class queues and their merge in `seq`
  order, the writer's fan-out and retained set, the registration tables,
  the inbound frame checks and the reader's decisions, the bridge's state,
  the configuration table, and the client's frames, gap counting and hex.
  The public proof functions named `law_*` state what holds across calls.
- `tests/` runs the library on concrete values.
- `app/` is what the library leaves to ordinary Rust: the command-line
  verbs, sockets, threads, parking and the clock, and the protobuf decoding
  of the messages the client prints.

`sha2` computes the schema hash, behind one trusted wrapper whose contract
names the hash as a function of the bytes; `prost` supplies the decoder's
error type and, in `app/`, the decoding itself. `String::push`, which vstd
leaves without a contract, has a wrapper of its own; every other line of
text the library spells is built and proved in it.
