# Versioned Data Engine

Records in versions: a library that tells what differs between two sets of JSON
records, applies and undoes such differences, and keeps datasets and their saved
versions so that they survive a restart. The library is written in Verus: what
each function does is stated in its contract and proved.

## Layout

- `src/` is the library.
  - Foundations: `text`, `numeral`, `number` (exact decimals of any size),
    `sorted_map`, `tree` (documents as mathematical values), `json`, `value`
    (equality by what numbers stand for, reading and writing by path),
    `pointer` (JSON Pointers), `first`.
  - Differences: `fault`, `rows`, `change`, `delta` (`diff`), `replay` (`apply`),
    and `laws`, which states what the two promise together.
  - Entry files: `crc`, `frame`, `names`, `entries`.
  - Event logs: `event`, `persist` (checks and replay), `journal` (commits, and
    what a log restores).
  - Services: `input` (reading JSON text with serde_json), `collections` and
    `dataset`.
- `tests/` holds the tests.
- `app/` is the HTTP service around the library: routes, files and start-up.

## Service

`VDE_BIND` sets the address to listen on (default `127.0.0.1:8080`),
`VDE_DATA_DIR` the data directory (default `data`).

| Route | Method | Purpose |
| --- | --- | --- |
| `/health` | GET | health check |
| `/version` | GET | name and version of the service |
| `/datasets/records` | POST | write a batch of records |
| `/versions` | POST | save the dataset as the next version |
| `/snapshots?version=N[&key=K]` | GET | read a saved version |
| `/collections/{c}/records` | PUT | write a batch to a collection |
| `/collections/{c}/snapshots` | POST, GET | freeze a collection, list its snapshots |
| `/collections/{c}/snapshots/{v}` | GET | read a snapshot |
| `/collections/{c}/snapshots/{a}/diff/{b}` | GET | compare two snapshots |
