# metainfo

Typed BitTorrent metainfo, verified with Verus: the bytes of a `.torrent` file, or of a bare
info dict from a magnet metadata exchange, become a `Metainfo`, with the v1 info-hash that
identifies the swarm.

- `src/bencode/` is the wire format. `grammar.rs` says which bytes write a value and proves that
  no encoding continues another; `encode.rs` and `decode.rs` write and read exactly that.
  Only canonical input (sorted, unique keys) is accepted.
- `src/info.rs` reads the info dict, `src/torrent.rs` the whole file. Each reader has a spec
  function that says what the value means and which error comes where it means nothing.
- `src/hash.rs` holds the info-hash and its hexadecimal form.
- `app/` adds the formatting and error traits of the standard library.

Not proved, but relied on: `sha1::Sha1::digest` is a function of its input, `str::from_utf8`
decodes UTF-8, `String::push` appends a character.
