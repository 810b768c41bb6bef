# Propylaea

An edge proxy that stands between Hecate agents and their server. It lets
through the agents' API and nothing else, checks signatures and enrollment
tokens before the server sees a request, limits how often a client may ask, and
keeps release artifacts in a cache.

The decisions are in the library under `src/`, written in Verus: each function
states what it returns or changes, and each promise that spans several functions
is a proof function beside them. The program under `app/` reads files, speaks
HTTP and runs the tasks.

| Module | What it decides |
| --- | --- |
| `gateway` | the course of a request: screening, credentials, enrollment |
| `allowlist` | exposed routes, sizes of bodies, relayed headers |
| `client_ip` | the client behind a trusted reverse proxy |
| `validate` | signed requests and enrollment tokens |
| `nonce` | nonces that were used before |
| `state` | identity, readiness and rate limits |
| `sync` | enrollment, synchronization and heartbeats |
| `forward` | what goes to the server and what comes back |
| `artifact_cache` | fills, entity tags, room and eviction |
| `config`, `cli`, `identity` | environment, command line, stored identity |
| `signing`, `crypto`, `encoding`, `ids` | keys, signatures, digests, base64, identifiers |
| `headers`, `tables`, `clock` | header maps, concurrent maps and clocks |
| `text`, `ip`, `records`, `web` | texts, addresses, records, methods and statuses |

What is believed of other crates stands in the doc comments of the functions
marked `external_body`; the rest is proved.
