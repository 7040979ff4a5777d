# new_pbft

A node of a blockchain kept consistent by PBFT (Practical Byzantine Fault
Tolerance), with its logic verified by Verus.

- `src/` is the verified library: the messages and their byte format
  (`wire`, `codec`), their RSA signatures (`key`), the block store and its
  chain rules (`store`, `database`), the consensus state (`pbft`, `state`),
  how a node answers each message and timer (`message`, `lib.rs`), and the
  console commands (`command`). Each handler returns the actions to carry
  out (datagrams to send, a timer to reset, a view number to keep).
- `app/` is the program that runs a node: it reads the configuration and
  keys, loads the chain from RocksDB into the library's in-memory store and
  copies back every pair that store writes, joins the multicast group, and
  carries out the actions the library returns.
- `tests/` runs the library on concrete values.

The laws that the library proves stand in `src/` as public proof functions
whose names begin with `law_`.
