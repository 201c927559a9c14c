# ip_generators

A scanner that walks the IPv4 address space and records the host names
that reverse lookups give. The library (`src/`, verified with Verus) holds
the logic; `app/` holds the program around it (command line, threads,
queues, DNS lookups, the checkpoint file, printing).

Library modules:

- `generators`: the generators the program runs — a sequential walk
  (`SequentialGenerator`), a congruential generator (`LCG`, with the
  `Recurrence` it runs), four shuffled decks of octets (`PoorMans`) — the
  `IPGenerator` that holds one of them, and `generators::generator`, the
  decisions of the generator thread (`prepare`, `generate_step`);
  `generators::poor_mans_pass` proves that one pass of the shuffled decks
  repeats no address, and `generators::checks` tests, before a call, the
  conditions the generators' functions require.
- `octet_generators`: the generators with wide octet counters and 128-bit
  skips, with their own `IPGenerator` and generator-thread decisions.
- `octets`: octets of an address and how they are put back together.
- `resolv`: which addresses are worth a lookup, and how a sequential walk
  leaves a block that is not.
- `names`: dotted decimal text of an address, human ordering of host names
  and the names worth recording.
- `display`: the lines the program prints.
- `message`: the messages the threads exchange.
- `signals`: which thread a keyboard interrupt tells to stop.
- `rng`: the calls into `rand` and `rand_chacha`.

Each module states its laws as public proof functions (`law_*`).
