# fetorrent_core

A BitTorrent engine whose protocol logic is verified with Verus, with a daemon, a command-line
client and an HTTP/WebSocket API around it.

## Layout

- `src/` — the verified library. Every function states its behaviour in `requires` /
  `ensures` over spec functions, and Verus proves the code against it.
  - `bencode`: decoding (with depth and size limits) and canonical encoding, with the
    round-trip laws between them.
  - `magnet`, `torrent`: magnet URIs and `.torrent` files, the info hash, file layout.
  - `pieces`, `storage`: piece and block bookkeeping, and where blocks lie in the files.
  - `peer/*`: the wire protocol (handshake, message framing), the per-peer state machine
    and the pool of peers to dial.
  - `tracker/*`: HTTP and UDP tracker requests and answers.
  - `torrent_task`, `engine`: the decisions a torrent's task and the engine take — what to
    request, metadata assembly, progress reports, admission of torrents.
  - `hash`, `hexcode`, `urlcode`, `text`, `random`: the few calls into `sha1`, `hex`,
    `urlencoding`, std and `rand`, each behind a small trusted wrapper whose contract is
    documented next to it.
- `tests/` — tests on concrete values, run against the compiled library.
- `app/` — the program around the library: the daemon, the CLI, the API server, file and
  network I/O, and the event loops that carry out what the library decides.
