# arc_gateway

A verified core of an HTTP gateway, written in Verus.

- `src/` holds the library: HTTP/2 framing, settings, flow control, stream
  tables, zero-copy receive buffers, HPACK use, the downstream and upstream
  HTTP/2 connection state machines and the bridge between them, routing and
  route selection, path rewriting and header changes, upstream balancing
  and the upstream registry, L7 protection, cluster circuit
  breaking, control-plane decisions and configuration diffing. Every
  function there carries a `requires`/`ensures` contract checked by Verus.
- `tests/` runs the library on concrete inputs.
- `app/` is the `arc logs` command-line tool built on the library.

The pools, sinks and connection stores that the library calls back into
(`BufOps`, `DownstreamSink`, `UpstreamSink`, `DownConnStore`) are traits for
the embedding program to implement; their contracts describe what those
implementations must do.
