# Veyra

Read-optimised projection primitives for a travel-search engine. PostgreSQL stays the system of
record; Veyra derives what search needs, and refuses to answer where it cannot prove the answer.

## Layout

- `src/` is the verified library. Every function carries its contract, and Verus proves it.
  - `availability`: bitmap index of rooms by night, and the rooms free for a whole stay.
  - `pricing`: fixed-point nightly prices and quotes with occupancy adjustments.
  - `party`: travelers, ages, guardians, relationships, groups and rooming intents.
  - `occupancy`: validation of one room against a party and a hotel policy.
  - `cdc`: logical replication. `pgoutput` decodes the protocol, `transaction` and `stream` keep
    transaction boundaries, `journal` and `checkpoint` are the durable records, `processor` and
    `live` decide when a position may be acknowledged, `bootstrap` covers the initial snapshot.
    `model`, `assembler`, `codec`, `durable`, `progress` and `pump` are the raw-transaction log and
    its coordinator; `pg_lsn`, `postgres`, `resume` and `snapshot` face the database.
  - `ordered`, `text`: ordered lists and diagnostic texts shared by the above.
- `app/` holds what needs files, sockets or a database. It performs what the library asks for and
  reports how it went.
- `tests/` exercises the library from outside.

Proof functions named `law_*` state what holds of the library as a whole.

The library trusts five outside functions, each behind a small wrapper whose comment says what is
believed of it: UTF-8 decoding and debug quoting of the standard library, the `crc32c` checksum, and
the text form of `pgwire_replication::Lsn` in both directions.
