# office-crypto-core

Decryption of documents protected with the Office "agile" encryption scheme,
written in Verus.

- `src/agile.rs`: the encryption descriptor (read from XML events), the
  password-based key derivation, and the segment-wise decryption of the
  encrypted package, each with its specification and the laws they obey.
- `src/encoding.rs`: little-endian integers, UTF-16LE, UTF-8, decimal numbers
  and base64.
- `src/crypto.rs`: SHA-512 (`sha2`) and AES-256-CBC (`aes`, `cbc`), with the
  CBC chaining stated over the AES block function.
- `src/xml.rs`: the XML events handed out by `quick_xml`.
- `src/error.rs`: the error type.
- `app/lib.rs`: entry points that read the descriptor and the package from
  seekable streams.
