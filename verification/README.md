# merkle_store

An encrypted file store. The server keeps up to eight file records in a
Merkle tree of SHA3-256 hashes (`src/merkle.rs`) and answers client
commands (`src/server.rs`); the client encrypts uploads with AES-256-CBC
and checks fetched files against the root hash it was given
(`src/client.rs`). Messages travel as rkyv-serialized packets behind a
16-digit hexadecimal length header (`src/framing.rs`).

`src/` is verified with Verus; the hash, cipher and random-number calls go
through the trusted wrappers in `src/digest.rs` and `src/cipher.rs`.
`app/` holds the two programs (`server`, and the client command line),
the sockets, and the rkyv serialization.
