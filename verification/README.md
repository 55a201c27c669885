# bc_rust

A small proof-of-work block chain, driven over HTTP by a browser front end,
with its logic verified by Verus.

- `src/digest.rs`: the bytes a block hashes (previous hash, text, nonce in
  little-endian order), SHA-256 and hexadecimal encoding, the difficulty test
  (a hash read as a big-endian number is below `2^(256 - 4 * leading_zeros)`,
  proved equivalent to `leading_zeros` leading zero hex digits), and the
  parallel nonce search.
- `src/request.rs`: the parameters of the front end's requests, with the
  leftmost-first semantics of the patterns that describe them.
- `src/block.rs`: a block, its invariant, and mining.
- `src/chain.rs`: the chain; adding a block and mining the chain again after a
  block changed keep the blocks linked by their hashes.
- `src/server.rs`: what the server does with each request, as a function from
  state and request to new state and action.
- `app/main.rs`: the TCP loop, the `output.json` file and the JSON encoding.
