# richat

A verified library for streaming Solana Geyser notifications: the plugin's
message channel, the protobuf encoding of its messages, subscription filters
and their limits, the framing of the TCP and QUIC transports, and the
server-side bookkeeping of subscribers. The functions in `src/` are
verified by Verus against their `requires`/`ensures` contracts; the few
calls into outside crates and std (key and base58/base64 decoding, CPU
affinity, the clock) stand behind trusted wrappers whose contracts say what
their documentation promises, and nothing where the answer depends on the
machine.

Layout:

- `src/wire.rs` – protobuf varints and fields.
- `src/encoding.rs`, `src/transaction.rs` – `SubscribeUpdate` bytes for
  accounts, slots, transactions, entries and block metadata.
- `src/channel.rs` – the bounded ring of encoded messages with its slot index,
  message/slot/byte limits, missed slot-status repair, and subscribers.
- `src/plugin.rs` – plugin configuration and the notification entry points.
- `src/filter.rs`, `src/request.rs` – subscription requests, their limits and
  their conversion to filters and back.
- `src/transport.rs`, `src/client.rs` – frames, access tokens, request
  handling, the QUIC client's settings and in-order delivery of QUIC
  streams.
- `src/server.rs` – block metadata storage, message caches, per-client queues,
  the worker tick, the handling of a client's requests, and worker
  configuration.
- `src/config.rs` – `taskset` CPU lists, numbers and access tokens in
  configuration files.
- `app/` – I/O around the library: configuration files, locking, sockets and
  the worker loop.

`tests/` holds the executable tests.
