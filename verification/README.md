# bowst

Core of a market maker, written in Verus: exact fixed-point prices and quantities, order books
kept in step with a venue's depth stream, rings between threads, an append-only journal, latency
telemetry, and the logic of the `bowst-md` market-data tool. Every function of the library is
verified against its contract.

- `src/fixed`, `units`, `ids`, `instrument`, `time`, `event`: numbers, identifiers and clocks.
- `src/book`: ladders of price levels, books of two sides, and their synchronization.
- `src/ring`, `bytes_ring`, `counter`: bounded rings between one producer and one consumer.
- `src/journal`: the on-disk format, the writer's decisions and the reader.
- `src/telemetry`: latency histograms, the text exposition format and the scrape server's rules.
- `src/md`: the tool's arguments, status board, metrics, report lines and verdicts.
- `src/messages`: what errors say.
- `src/text`, `ascii`, `le`: helpers for text and little-endian integers.

Modules whose names end in `laws` state what holds across functions, as public proof functions.

`app/` is the ordinary Rust around the library: files, sockets, threads and the venue adapter.
`tests/` runs the library on concrete values.

What is not proved is stated where it is used, on the functions that call the standard library or
`crc32fast` without a proof: each says in its doc comment what it claims of the call.
