# Axon

A container for model weights, and what reads it. A `.axon` file holds a header,
a JSON manifest, a table of tensor descriptors and the bytes of the tensors, each
aligned to sixty-four bytes.

- `src/` is the library. Every function in it has a contract that Verus proves:
  writing and reading containers, reading SafeTensors and GGUF files, layering
  adapters over a base model, caching tensors, planning the forward passes of two
  kinds of transformers, and the decisions of sampling and of a conversation.
  Calls into `byteorder`, `serde_json` and parts of `std` stand behind small functions whose
  contracts are believed; each says what it claims.
- `app/` is the `axon` command, the C interface and the engines: files, memory
  maps, and arithmetic on numbers with a fraction, which the library plans and
  does not perform.
- `tests/` runs the library.

A number with a fraction is its bits in the library: thirty-two or sixty-four of
them, or sixteen in a block of quantized values.
