# claim_table

The forwarding table of a peer-to-peer VPN, verified with Verus.

Peers claim address ranges. The table finds the peer that an address belongs to,
which is the one whose claim has the longest prefix of the address, and remembers
what it found. Claims and remembered addresses time out.

- `src/` is the library. `state.rs` says what a table holds and what each
  operation makes of it; `table.rs` is proved to do just that; `laws.rs` proves
  what follows for the table as a whole, and `history.rs` what holds after any
  series of calls.
- `tests/` runs the library.
- `app/` is what ties the table to the operating system: socket addresses, the
  clock and output. It is not verified.

What is not proved is stated in `cache.rs`: what `HashMap` does with the hasher of
the `fnv` crate.
