# cry

Passphrase-based file encryption and deterministic Ed25519 identities, verified with
[Verus](https://github.com/verus-lang/verus).

- `src/` is the library. Every function states in its contract what it returns, and Verus
  proves it.
- `app/` is the command-line program around the library: arguments, prompts, files, processes.
- `tests/` runs the library on concrete values.

## Modules

| Module       | Contents                                                              |
|--------------|-----------------------------------------------------------------------|
| `cipher`     | Sealing and opening of files, chunk by chunk                          |
| `header`     | The authenticated file header                                         |
| `kdf`        | Keys from passphrases (Argon2id)                                      |
| `crydna`     | Identities: derivation, public forms, signatures, OpenSSH export      |
| `ssh`        | Arguments for, and output of, the tools of an SSH session             |
| `passphrase` | Passphrases from a file or a prompt                                   |
| `keygen`     | Random key files and their fingerprints                               |
| `bench`      | What a benchmark runs                                                 |
| `error`      | Errors and their messages                                             |
| `secret`     | Secrets that are wiped when they go out of use                        |
| `hex`, `text`, `bytes` | Hexadecimal, text and big-endian integers                   |
| `primitives` | What is relied on of the cryptographic crates, without proof          |

## File format

```
Header  73 bytes
  magic         4 bytes  "CRY\x02"
  algorithm     1 byte   1 = AES-256-GCM, 2 = ChaCha20-Poly1305
  salt         16 bytes  Argon2 salt, random per file
  nonce        12 bytes  base nonce, random per file
  chunk count   8 bytes  big-endian
  tag          32 bytes  HMAC-SHA256 over all preceding bytes
Chunks, as many as the header says
  length        4 bytes  big-endian
  data          N bytes  ciphertext and 16-byte tag
```

## What is proved

- Decrypting an encrypted file gives the plaintext back; decrypting any proper prefix of it, or
  the file with anything behind it, fails (`cipher::encrypt_with`).
- A body that is accepted consists of chunks that were sealed, each for its position, and of
  nothing else (`cipher::decrypt_chunks`).
- Reading and writing a file piece by piece comes to the same (`cipher::law_streamed_encryption`,
  `cipher::law_streamed_decryption`).
- An accepted header is, byte for byte, the one that is written for its fields
  (`header::law_accepted_is_written`).
- The chunks of a file have different nonces (`cipher::law_nonces_distinct`) and different
  associated data (`cipher::law_aad_injective`).
- A signature verifies under the public key that belongs to the signing key
  (`crydna::Identity::sign_content`).
- Different identities hash different bytes into their salt (`crydna::law_identities_differ`).
- A temporary key file is restricted to the user before the key is written to it
  (`ssh::KeyFile`).

The proofs rest on the contracts in `primitives` and `secret`, and on those of `String::push`
and `std::str::from_utf8` in `text`. That AES-256-GCM, ChaCha20-Poly1305 and HMAC cannot be forged is not
part of them.
