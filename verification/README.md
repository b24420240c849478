# torrent_client

A BitTorrent client whose decisions are verified with Verus.

- `src/` is the verified library:
  - `action.rs`: peer wire messages, peer manager events, file store requests;
  - `wire.rs`: the handshake, message frames and their decoding, with the
    round-trip laws;
  - `bits.rs`: piece bitfields (`bit_vec::BitVec`) and their byte layout;
  - `torrent.rs`, `tracker.rs`: metainfo, piece geometry, info hash, tracker
    requests, announce URLs and tracker responses;
  - `file.rs`: checking the pieces on disk, block offsets in the file;
  - `peer_manager.rs`: the download state machine (events, choking, rarest
    first requests, announces, keep-alives) and its laws;
  - `peer_id.rs`, `text.rs`, `hash.rs`: peer ids, decimal and Latin-1 text,
    SHA-1.
- `app/` is the program around it: command line, tokio tasks, sockets, files,
  HTTP, and serde (bencode) reading and writing.
- `tests/` runs the library on concrete values.
