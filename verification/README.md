# seraphim

Records what `tracing` reports (callsites, spans, events, span entries and
exits) into an append-only store, and serves the stored events to a client.

- `src/` is the verified library: the store and its file framing
  (`store`, `frame`, and `journal`, which records what the file took), the
  layer's decisions (`layer`, `record`), the levels and event records
  (`types`), the request handling, codecs and update batching of the
  servers (`net`, `net_iroh`), the text form of endpoint addresses
  (`address`), and what the client files and shows of the events it is sent
  (`client`).
- `app/` holds what talks to the outside: the `tracing_subscriber::Layer`
  impl, the file that a file-backed store writes to, the TCP and `iroh`
  servers, the setup functions, the serde forms of the records, and the
  client program.
- `tests/` exercises the library on concrete values.
