# gigatoken

A verified core for fast byte-level tokenization, written in Verus.

`src/` is the library, verified by Verus; its public functions state what
they do in contracts:

- `pretokenize/`: the GPT-2 pretokenization pattern, as a specification
  (`pattern.rs`), a direct matcher (`scalar.rs`) and a byte-level state
  machine (`state_machine.rs`), both proved to produce exactly the pattern's
  pieces; the GPT-4 (cl100k) and Qwen2 patterns with their matcher
  (`cl100k.rs`) and the run-time choice between schemes (`options.rs`); counting pretokens, splitting a corpus at document separators and
  cutting it into per-thread chunks, and counting weighted table rows
  (`counting.rs`).
- `bpe.rs`: merge rules and rank-ordered byte-pair merging.
- `tiktoken/`: the BPE tokenizer with its memoizing caches (a packed front
  cache, a short-key map and a long-key map), added-token splitting, NFC
  normalization, rebuilding merges from a rank-ordered vocabulary, and the
  proof that decoding gives back what was encoded (`roundtrip.rs`).
- `encode/`: the pretoken hash and the streaming line encoder.
- `wordpiece.rs`, `sentencepiece.rs`: WordPiece and SentencePiece-BPE.
- `hub/`: HuggingFace Hub repo ids, cache directory layout, URLs, and the
  download resolution as a state machine whose steps the caller performs.
- `input.rs`: file format detection and JSON-lines documents.
- `simd/`, `unicode_tables.rs`, `unicode.rs`, `bytemap.rs`, `token.rs`:
  table lookups, character classes, a byte-string map and token ids.

Calls into outside crates (ICU, aho-corasick, sonic-rs, rayon) stand behind
small trusted wrappers whose contracts say what those crates document.

`app/` is the unverified shell: the command-line program, file and network
I/O, threads, the Python bindings, and the floating-point unigram model.

`tests/` exercises the library on concrete inputs.
