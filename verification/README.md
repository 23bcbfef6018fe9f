# fast-floe

Fast Lightweight Online Encryption (FLOE) in Verus: authenticated encryption
for large files and byte streams, with bounded memory, random access, and a
choice of cryptography providers.

FLOE splits a message into segments of a length the caller chooses, then
encrypts and authenticates each segment independently. A recipient can decrypt
a large message one segment at a time, or seek directly to any part of the
ciphertext.

## Layout

| Path | What it holds |
|------|---------------|
| `src/model.rs` | The wire format: headers, sessions, segments, and what they decrypt to |
| `src/message.rs` | `encrypt` and `decrypt` for whole messages, and the laws of whole messages |
| `src/integrity.rs` | With which error a damaged message is rejected |
| `src/parameters.rs`, `src/layout.rs` | Segment lengths, message layouts, segment framing |
| `src/state.rs`, `src/low_level.rs` | Segments in any order, in parallel, and in place |
| `src/online.rs`, `src/counter.rs` | Segments strictly in order |
| `src/io.rs`, `src/io/` | Streams: an encrypting writer and reader, a decrypting reader, and what any sequence of operations on a reader comes to |
| `src/random_access.rs` | Reading segments and ranges of a seekable ciphertext |
| `src/key.rs`, `src/header.rs`, `src/buffer.rs`, `src/error.rs` | Keys, headers, reusable storage, errors |
| `src/provider.rs`, `src/backends.rs`, `src/backends/` | The providers aws-lc-rs, ring, and RustCrypto |
| `src/primitives.rs`, `src/secret.rs`, `src/bytes.rs`, `src/wire.rs` | What the rest is built on |
| `app/` | `std::io` adapters, `std::error::Error`, and iterators around the library |
| `tests/` | Tests of the library |

## What is proved

Every function of `src/` is verified against its contract, but for the wrappers
around outside functions, whose contracts are trusted. Among the laws that the
contracts give:

- A message decrypts to the plaintext that was encrypted, whatever IV and
  nonces were drawn, and whichever providers encrypt and decrypt.
- No message that decrypts can be cut short or extended, and each cut or
  extension has its exact error. Another header tag, another segment tag, and
  another key or other associated data that give another header tag are
  rejected.
- Reading a segment or a range at random gives what decrypting the complete
  message gives there.
- What a finished encrypting writer or reader has produced decrypts to all the
  plaintext that it was given; a decrypting reader reads every such message
  without an error, and of a damaged one serves exactly the plaintext of the
  segments before the damage.
- No nonce of a batch is used twice, and encryption fails for want of random
  bytes only where no nonce is left and drawing more can fail.

AES-256-GCM and HMAC-SHA-384 are named, not defined: the wrappers in
`src/backends/` say of each provider that it computes these functions. Of random
bytes nothing is said.

## Providers

The build contains aws-lc-rs, ring, and RustCrypto, and so has no default
provider: name one when a key is made.

```rust
use fast_floe::{decrypt, encrypt, Key, Parameters, Provider};

let key = Key::generate_with_provider(Provider::AWS_LC_RS)?;
let parameters = Parameters::from_segment_length(4096)?;
let ciphertext = encrypt(&key, b"context", parameters, b"plaintext")?;
assert_eq!(decrypt(&key, b"context", &ciphertext)?, b"plaintext");
```

There is no BoringSSL provider: the `boring` crate builds its library from
source, which takes `cmake` and `libclang`.

## Streams

The types of `io` and `random_access` decide what to read and write, and leave
reading and writing to the caller. An operation returns the step that is due;
the caller moves the bytes, reports what came of it, and calls the operation
again. The adapters in `app/` do this for `std::io::{Read, Write, Seek}`.
