# Skynet

The decision logic of a small content delivery network, verified with Verus.

Clients ask a control plane which edge should serve an object. Each edge keeps a byte-capped
least-recently-used cache, fetches an object from the origin once however many clients want it at
a time, and counts what it does in Prometheus metrics. Steering hashes each key onto a replica set
and takes the viable replica of the lowest score, with a bonus for an edge that holds the object.

## Layout

| Module | What it holds |
|---|---|
| `cache` | the byte-capped cache |
| `singleflight` | one origin fetch per key at a time |
| `telemetry`, `metric_id` | the counters of an edge, and how Prometheus tells them apart |
| `edge`, `edge_laws` | what an edge does with a request and with an answer of the origin |
| `steering`, `steering_laws` | replica sets and the choice of an edge |
| `control` | the registry of edges, and locating an object |
| `dns` | answering address queries |
| `origin` | the mock origin |
| `traffic` | load, and what came of it |
| `wait` | waiting until a server listens |
| `text`, `binary64` | strings, and the order of floating-point numbers |

`src/` is the library. Functions whose contracts are believed rather than proved are marked
`external_body` or `assume_specification`; the comment above each says what it claims of the
outside crate that it calls. Public proof functions named `law_..` state what holds across several
calls.

`app/` holds the programs: HTTP, DNS, timers, environment, JSON, and the floating-point scores.
The library sees a score as its 64 bits and compares scores as the numbers they stand for.
