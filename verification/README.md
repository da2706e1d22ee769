# zumble_crypt

Encryption of voice datagrams between a server and its clients, verified with
Verus.

A datagram carries one byte of its nonce, three bytes of its tag, and the packet
encrypted with AES-128 in offset codebook mode. The receiver finds the nonce from
that one byte, tells late datagrams from repeated ones, and keeps statistics.

- `src/block.rs`: blocks as numbers and as bytes, doubling in GF(2^128)
- `src/ocb.rs`: the mode of operation
- `src/order.rs`: byte orders, and the block that stands for a nonce
- `src/window.rs`: nonces, and where a datagram stands among those received
- `src/clock.rs`: instants, and the wait between two resets
- `src/model.rs`: what a state is, and what becomes of it
- `src/crypt.rs`: the state itself, `CryptState`
- `src/laws.rs`: what holds across operations
- `src/metrics.rs`, `src/error.rs`: event counts and errors
- `src/cipher.rs`, `src/buffer.rs`, `src/entropy.rs`: what is taken from the
  crates `aes`, `bytes` and `ring`, and is trusted; `src/clock.rs` and
  `src/order.rs` hold what is trusted of the standard library
- `app/`: logging, the exported metrics, and the voice packet codec's place
