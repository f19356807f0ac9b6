# group_chat

An end-to-end encrypted group chat: a line-based TCP server that routes sealed
blobs it cannot read, and a client that seals each message once per recipient
with X25519 and XChaCha20-Poly1305.

Layout:

- `src/` — the verified library (Verus).
  - `text.rs` — whitespace, trimming, splitting, decimal numbers, ordering,
    sorting and joining of text.
  - `protocol.rs` — the address, the control-line prefixes, public keys as
    base64, the key two people share, sealing and opening messages.
  - `rooms.rs` — who is connected and which room each person is in; listings.
  - `server.rs` — every decision of the server: login, each command, logout.
  - `client.rs` — the client's decisions: control lines, member lists, what a
    typed line becomes.
  - `end_to_end.rs` — how a chat line travels from client to server to client.
- `tests/` — tests of the library.
- `app/` — the programs: `group_chat server [port|address]` and
  `group_chat client [port|address]`; networking, threads and the terminal.
