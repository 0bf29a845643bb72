# rust_core

A trade-bar engine for a Binance futures feed: raw trade messages are parsed into
fixed-point trades, each symbol is interned to a dense id, every symbol is routed to
exactly one core, and each core folds its trades into OHLC/delta bars with a radix
footprint per bar. Closed bars are kept in a bounded history.

The library in `src/` is written in Verus. Its own functions carry contracts that Verus
proves; the few calls into std and serde_json (`Arc::clone`, the std channel, the JSON
parser, `to_lowercase`) sit behind small `external_body` wrappers whose contracts are
trusted, and some of those state nothing about the result.

- `ingest`: payload parsing and validation, fixed-point decimals, symbol hashing.
- `text`: character scanners shared by the parsers.
- `directory`, `map_entry`, `shard`: symbol interning, lookup tables and routing.
- `spsc`, `worker`, `hub`: per-core queues, the router, the worker's drain step.
- `bar_core`, `footprint`, `policy`, `closer`: bar folding, footprint levels, close
  rules, bounded closed-bar history.
- `exchange`, `stream`: the exchangeInfo readers, the combined stream URL and payload,
  the reconnect backoff.
- `gateway`: the seqlock sequence rules.

`app/` holds the demo program: argument handling, the REST fetch, the WebSocket loop,
the worker threads and the seqlock cell.
