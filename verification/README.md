# rconn

A small network service protocol. Each message is a 4-byte big-endian header
size, a JSON header (`act`, `custom_data_size`, `data`) and custom data. The
library also offers a session cipher, `RCipher`, that callers apply to data
themselves: AES-128 over blocks of 16 bytes, padded with 1 to 16 bytes that
each hold the padding size. Sending and reading messages do not encrypt or
decrypt anything. The AES key is the first half of SHA-256 over a key
exchanged at connection time and a constant key shared by both sides.

- `src/frame.rs`: the size field and the message layout, with round-trip proofs.
- `src/crypto.rs`: the session cipher (`RCipher`), verified over named AES and
  SHA-256 results; the calls into `aes`, `sha2` and `rand` sit in small
  trusted wrappers.
- `src/net_service.rs`: the header, the announced custom data size and the
  reader that gathers exactly the bytes a message announces.
- `app/`: stream I/O, JSON (de)serialisation and the handler traits.
