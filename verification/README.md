# vofa_next

Verified core of a serial / CAN debugging assistant, written in Verus.

- `src/` is the library. Every function carries a `requires` / `ensures`
  contract proved by Verus; the laws that relate several functions are public
  proof functions (`lemma_*`).
- `tests/` runs the library on concrete values.
- `app/` is the runtime around it: float-valued codecs, DSP filters and
  waveform buffers, load-ratio history, the asynchronous ISO-TP session task
  and subscription cancellation.

Modules of the library:

| module | contents |
|---|---|
| `checksum`, `hex`, `bytes` | frame checksums, HEX text parsing, byte search |
| `decoder_block`, `schema_frame`, `protocol_config`, `frame_encoder` | frame schema blocks, field layouts, frame assembly and encoding |
| `can`, `can_load`, `logic`, `diagnostic` | CAN frames, filters and buffers, bus-load window, logic-analyzer buffers, UDS / OBD-II / J1939 tables |
| `raw`, `raw_filter`, `ring_buffer`, `window` | raw-byte history with cursor reads, filters, ring buffer, waveform time windows |
| `isotp` | ISO-TP frame layouts, reassembly and the request state machine |
| `transport`, `frame`, `update` | connection registry, transport records, update channels |
| `byte_plan`, `topo` | byte plane of the node graph: port domains, routes and a topological order with cycle detection |
| `compiled_graph` | queries on a compiled graph: node ids by kind, inverse-FFT sources, frame-decoder settings |
