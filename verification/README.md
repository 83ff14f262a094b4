# roker

A publish/subscribe message broker whose messages travel through a ring
buffer meant to live in shared memory, with topic patterns (`*` for one
level, `#` for all remaining levels).

- `src/` is the library, verified with Verus:
  - `topic.rs`: topic levels and pattern matching;
  - `broker/ring_buffer.rs`: the ring of length-prefixed records and the
    metadata block in front of it;
  - `broker/mod.rs`: the broker (client registry, subscriptions, publish,
    receive, statistics), with its behaviour stated on `BrokerState`;
  - `client/mod.rs`: publisher and subscriber helpers, batches;
  - `wire.rs`: the bincode encoding of messages;
  - `error.rs`, `lib.rs`: errors and their texts, configuration, ids,
    topics, messages.
- `app/` holds what touches the operating system: the shared-memory segment
  the ring is copied to and from, the serde and `Display` forms of the
  types, and waiting for a message with a timeout.

A segment is `METADATA_SIZE` (1024) bytes longer than its ring: the
metadata block (write position, sequence number, magic number, version)
comes first, then the ring data. `Broker::connect` takes the ring to be the
segment's length less those 1024 bytes, the size `Broker::new` made it, and
checks the magic number and version before anything else. A record is
written only if it is shorter than the ring (`BufferFull` otherwise), and
its bytes wrap around at the ring's end.
