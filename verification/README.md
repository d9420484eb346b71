# bittorrent_starter_rust

A small BitTorrent client whose protocol logic is verified with Verus.

- `src/` is the verified library:
  - `common`: percent-encoding and percent-decoding of URL components,
    with the law that decoding an encoding gives the bytes back;
  - `decoder`: bencode values and their JSON rendering;
  - `magnet`: magnet links (`xt`, `dn`, `tr`) and the info hash they carry;
  - `torrent`: the info dictionary, piece hashes and piece lengths, piece
    verification by SHA-1;
  - `tracker`: the announce URL and compact peer lists;
  - `peer`: the handshake and its wire form, message framing, and the
    decisions taken while connecting to a peer and downloading a piece.
- `app/` is the command-line program: argument parsing, files, HTTP, TCP and
  the serde forms of metainfo files and extension messages.
- `tests/` exercises the library on concrete values.
