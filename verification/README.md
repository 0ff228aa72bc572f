# AetherArch core

The library behind the `.aet` archiver, written in Verus: executable Rust whose behaviour is
stated in `requires` and `ensures` clauses and proved.

## Layout

- `src/format.rs`, `src/header.rs`, `src/block.rs`: constants, identifiers and the records of
  the container: archive header, file entries, solid groups, blocks, index, footer.
- `src/coding/`: the range coder over 15-bit frequency tables (`rans`, `cdf`), the reversible
  transforms (`bwt_preprocess`, `lz77_preprocess`, `byteplane_preprocess`, `bcj`), LZ4 and
  Zstandard.
- `src/entropy/`: the counts of the predictors, their saved states, and the trait between
  predictors and coder.
- `src/dictionary.rs`, `src/builtin_dicts.rs`: pretrained predictor states.
- `src/chunker.rs`, `src/analyzer.rs`, `src/grouper.rs`: chunks, content types and solid groups.
- `src/crypto.rs`: key derivation and authenticated encryption of blocks.
- `src/cloud/`: names of remote objects, endpoints, and reading by ranges.
- `src/commands.rs`: rules of the command line.
- `src/bytes.rs`, `src/text.rs`, `src/strings.rs`, `src/hashing.rs`, `src/error.rs`: what the
  rest is built from.
- `app/`: the program around the library: files, prompts, name lookup, and all floating-point
  arithmetic.
- `tests/`: tests against the compiled library.

## What is proved

Functions state what they return for every input they accept, errors and their texts included.
Where another crate, a storage backend or the machine decides (a compressed block, random bytes,
the room in a buffer, the answer of a backend), the contract says what was asked for and what is
made of each answer. Properties that span functions are public proof functions beside them, among
them:

- what is read back of a record, a transformed block, a saved predictor state or a dictionary is
  what was written;
- one changed byte of a block header, a trailer or a footer is noticed, but for the bytes of a
  header that carry nothing;
- the range decoder gives back what the encoder took, for given tables and for every predictor
  that answers as the trait says;
- where a backend answers with the bytes of an object, a read gives those at the position;
- chunks and groups cover their input, once;
- an extracted entry stays below the output directory.

Probabilities are floating-point numbers and are computed in `app/`. The library receives
integers (scaled probabilities, entropies and weights as bit patterns) and proves what it makes
of them: whatever comes in, a frequency table that goes out is well formed.

## What is trusted

Calls into other crates stand behind small functions marked `external_body`, each with a comment
that says what its contract claims: BLAKE3, CRC32, Argon2, AES-GCM, ChaCha20-Poly1305, constant-time
comparison and erasure, random bytes of the operating system, suffix sorting, FastCDC, LZ4,
Zstandard, and of the standard library two functions on strings and the capacity of a buffer.
Results that cannot be stated in a few lines have a name, and the contracts
speak of that name.
