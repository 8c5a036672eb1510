# tiny_llm

The input boundary of a small language model, verified with Verus.

- `src/tokenizer.rs`: `ByteTokenizer`, whose vocabulary is the 256 byte
  values. `encode` returns the UTF-8 bytes of a text as token IDs; `decode`
  rejects the first ID above 255 with its position, and otherwise decodes the
  bytes as UTF-8 or reports where they stop being valid. Proved: decoding
  inverts encoding, and encoding inverts every successful decoding.
- `src/data.rs`: `split_tokens` cuts a token sequence into a training and a
  validation portion; `next_token_windows` yields every next-token example
  (inputs `tokens[s..s+T]`, targets `tokens[s+1..s+T+1]`). Proved: the count
  is `max(N - T, 0)`, targets are the inputs shifted by one, and examples of
  either portion never cross the split.
- `src/describe.rs`: decimal numbers and text for the error messages.
- `app/lib.rs`: `Display`, `Error` and `Iterator` on thin copies of the
  library's types.
