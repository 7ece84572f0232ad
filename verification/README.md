# sherlog_ring_buffer

A logging ring buffer in two tiers, written in Verus:

- `memory` — a volatile in-memory byte ring that takes records through
  reserve / write / commit, with a bounded overflow queue for when it is full.
- `disk` — a persistent ring in a memory-mapped region, behind a
  checksummed control block, and `Cursor` for reading records back and
  committing how far they were consumed.
- `flush` — one step of moving records from the first tier to the second.
- `ios`, `jni` — the logic behind the platform bindings.

`src/` is the verified library: each public function carries a contract over
spec-level views of the buffers (`Seq<u8>` regions, `Seq` of record views,
control-block values), and the `lemma_*` proof functions state properties
that span several calls (records come back in the order they were written,
reopening a region restores its control block, a committed cursor position is
where the next cursor starts).

`app/` is ordinary Rust around it: process-wide shared buffers behind locks,
file mapping, the flush daemon thread, and the Swift and JNI exports.
