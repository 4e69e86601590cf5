# rbt

A small BitTorrent client: a bencode library and the client's torrent logic,
written in Verus. The library (`src/`) is verified; the program around it
(`app/`) reads the torrent file, talks to the tracker and the peers, and hands
the bytes it receives to the library.

- `src/bencode`: the bencode decoder and encoder over a mathematical model of
  bencoded values (`types.rs`, `decode.rs`, `encode.rs`), the laws that tie
  them together (`roundtrip.rs`), and a parser that keeps the bytes each value
  was read from (`parse.rs`).
- `src/torrent`: reading a torrent's metainfo (`format.rs`), peer wire
  messages (`message.rs`), what a peer's answer to the handshake does to it
  (`peer.rs`), the tracker's announce parameters and response
  (`tracker.rs`), and the form-urlencoded query of an announce (`query.rs`).
- `src/decimal.rs`, `src/scan.rs`, `src/utf8.rs`: decimal numerals, byte
  search, and UTF-8 text from bytes.
- `app/`: `main`, the file, network and thread work, and JSON output.
