# handoff_gcm

AES-GCM with two-byte IVs and one-byte tags, as Handoff and Universal Clipboard
advertisements use it, and a builder for such advertisements. Written in Verus:
every function in `src/` has a contract, and all but those of the thin wrappers
around AES and GHASH are proved.

Proved does not mean accepted by Apple devices: the use of GCM is derived from
its definition, and neither the packets nor the advertisements have been
validated against real Apple traffic.

- `src/primitives.rs`: AES and GHASH from the `aes` and `ghash` crates, with the
  contracts that are taken on trust.
- `src/aes_cipher.rs`: AES with a key of 16, 24 or 32 bytes.
- `src/block.rs`: blocks, padding, the block counter, exclusive-or.
- `src/field.rs`: the field that GHASH computes in, and what GHASH is.
- `src/gcm.rs`: sealing and opening.
- `src/advertise.rs`: the advertisement builder.
- `src/error.rs`: the errors and their messages.
- `src/laws.rs`: what holds across these functions, such as that opening undoes
  sealing.
- `app/`: the error as a standard error, and the place of the radio.
