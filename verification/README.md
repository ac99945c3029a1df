# torrent

The decision logic of a BitTorrent client, verified with Verus.

`src/` is the library. It does no I/O: sockets, files and timers hand in plain
values, and the library answers with what to do next. Times are nanoseconds
taken from one clock (`time`), addresses are plain values (`addr`).

| Module | What it decides |
| --- | --- |
| `session::peer_mgr`, `session::peer_manager` | which peers to connect to, and when to try again |
| `session::download` | which blocks to request and serve, whom to unchoke, what a piece is worth |
| `session::swarm` | the tasks of a torrent's loop, its pipeline, peer exchange, super seeding |
| `session::registry`, `session::torrent` | the torrents of a session and their lifecycle |
| `session::webseed` | which ranges to ask a web seed for, and what to make of the answer |
| `session::seed` | hashing data into a torrent and checking it |
| `peer::stream`, `peer::utp` | handshakes, frames, and the uTP connection |
| `dht` | lookups, answers to queries, matching of responses |
| `net` | URLs, redirects, HTTP request heads and responses |

Each function states its result over a mathematical model: a view of the data
type it works on. Proof functions whose names start with `law_` state what holds
across functions.

Calls into other crates stand behind small functions marked
`#[verifier::external_body]`, whose comments say what is taken for granted.

`app/` drives the library with tokio. Byte formats, congestion control, piece
selection, trackers and storage are traits there (`app/codec.rs`).
