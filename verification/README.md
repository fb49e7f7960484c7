# minechat-protocol

The MineChat protocol: linking a chat client to a Minecraft server, and
exchanging chat packets with it. Packets are CBOR maps with integer keys,
framed with their sizes (unsigned 32-bit, big-endian) and compressed with
zstd; connections run over TLS with the server's certificate pinned.

This crate is verified with Verus. Its contracts state what each function
returns; proof functions state the laws that tie them together: a packet's
bytes, and a packet's frame, read back as the same packet whenever a chat
message's content is of the kind its format names (CommonMark text under
"commonmark", component JSON under "components"); otherwise the content
comes back in the kind the format names. A frame reads back the same way
whatever bytes follow it on the stream, and reading takes the frame's bytes
alone.

Packets with indefinite-length strings, arrays or maps are read through
their definite-length form; `cbor::deserialize_envelope`, which gives
positions in its input, takes definite lengths only.

Layout:

- `src/` — the verified library: packets and payloads (`packets`,
  `payloads`), the CBOR reader and writer (`cbor`), CBOR data items as
  serde_cbor parses them and the normalisation of their map keys
  (`cbor_tree`), framing (`stream`), the
  client's decisions during linking and authentication (`client`),
  certificate pinning (`tls`), message content (`types`), terminal
  rendering of text components (`ansi`), and error types and constants
  (`protocol`).
- `app/` — the I/O around it: async message streams over tokio, TLS
  connections over rustls, the client handshake as async functions, and the
  serde-facing pieces (generic CBOR, `Display` for errors, component
  conversion).
- `tests/` — tests of the library.
