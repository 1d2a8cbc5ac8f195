# rusty-mqtt

A small MQTT 3.1.1 broker on Tokio, whose core is written in Verus and proved
against its contracts.

## Layout

- `src/` — the verified library (`rusty_mqtt`):
  - `codec.rs`: Remaining Length (Variable Byte Integer) reading and writing,
    frame lengths, QoS 0 PUBLISH parsing (topic names with wildcards are
    discarded) and encoding, with the round trip
    and framing laws.
  - `subscribe_handlers/storage.rs`: MQTT topic filter matching (`+`, `#`)
    and the `TopicRouter` that stores subscribers per topic filter, with the
    laws on subscribing, publishing, unsubscribing and client removal.
  - `subscribe_handlers/mod.rs`, `mvp.rs`, `wildcards.rs`: SUBACK
    generation and the older subscription handlers and routers.
  - `client_registry.rs`: the registry of connected clients and the takeover
    protocol on client ID collision, with its laws.
  - `server.rs`: packet classification, CONNECT parsing and validation,
    SUBSCRIBE and UNSUBSCRIBE handling with the QoS the broker grants,
    `ConnectionSession`, which decides what a connection does for each frame
    and how long it may wait for the next one, the takeover steps of an
    accepted CONNECT and the cleanup when a connection ends, with the
    delivery, takeover and cleanup laws.
  - `config.rs`: broker configuration, validation and the bind address.
  - `mqtt_protocol.rs`: reading the first packet off a byte stream.
  - `bytes_text.rs`, `platform.rs`, `assoc.rs`: byte helpers, the declared
    outside types (`bytes::Bytes`, `tokio::sync::mpsc::Sender`, ...) with the
    contracts of the calls into them, and association-list lemmas.
- `tests/` — tests of the library on concrete values.
- `app/` — the executable: configuration file, TCP listener, connection tasks.
