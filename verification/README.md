# ddcp

Database-to-database copy: replication of cr-sqlite databases between peers
over Veilid.

- `src/` is the verified library:
  - `proto/` holds the messages peers exchange (`codec`), their
    position-independent word layout (`layout`, `encode`, `roundtrip`), the
    stream framing done by the `capnp` crate (`framing`), and the framing of
    sealed messages (`seal`). Messages of several segments, linked by far
    pointers, are read too, within the reader's limit of words read; lists
    of primitives or pointers read as lists of structs. Decoding the encoding of any request, response
    or node status within the reader's limit gives it back.
  - `ident` keeps the peers by name; `sync` decides when and what to pull
    from a peer and how to answer a request; `db` decides versions around
    the database; `tracker` lays a node's status out in its DHT record and
    decides when to publish it; `node` reads network updates; `command`
    maps commands to actions; `cli` resolves the files the program uses.
- `app/` is the `ddcp` program: argument parsing, the database through
  tokio-rusqlite, the Veilid node, and the async loops. veilid-core is not
  among the build's dependencies: its dependency tree is too large to bring
  in, so `app/` does not build as it stands.
- `tests/` exercises the library.
