# taudio

A library for building audio processing pipelines: sources, processors and sinks
connected output to input, planned once and then run batch by batch.

`src/` is the verified core:

- `id`: numeric ids, id sequences and containers indexed by id.
- `pipeline`: the builder of a pipeline layout, the graph of its connections
  with a topological order naming every node, and the plan of which buffer each connection uses
  (`template`, `wiring`). For layouts whose connection graph has no cycle and
  keeps every connection, and in which no output is read twice (every layout
  whose nodes read only from nodes added before them is one), the plan is
  proved to wire every input
  to the buffer its source writes, to never give two live connections the same
  buffer, and to use exactly as many buffers as connections are live at the
  busiest turn.
- `wav`: the byte layout of wave files and the interleaving of channels.
- `err`, `node`, `sample`, `sinks`, `dupe`: errors and channel-count checks,
  node configuration records, sample formats, per-channel sample storage, and
  fallible duplication.

`app/` holds what runs around the core: the floating point signal code
(waveforms, oscillators, automation), the node traits and their trait objects,
the runtime sample loop, and file output.
