# ingestion_consumer

Verified offset ledgers for a Kafka ingestion consumer.

- `src/offset_ledger.rs`: one partition's ledger. Delivered offsets are
  charged in offset order; completions mark them; the frontier is the offset
  after the longest completed prefix, and taking it drops that prefix.
- `src/observer.rs`: one ledger per topic partition, each stamped with the
  assignment epoch that founded it. It decides which charges and completions
  reach a ledger (stale work from an earlier assignment drops), compares the
  frontiers with the commit spans, drains after a commit, and forgets revoked
  partitions. Contracts are stated over a map from partition to (epoch, slots).
- `app/lib.rs`: the shared observer around the verified one: the mutex, the
  assignment epoch that the rebalance callback bumps, and the metrics and logs.
