# bpe_tokenizer

A byte-pair-encoding tokenizer whose logic is verified with Verus.

- `src/` is the verified library:
  - `pair_model` states what training computes: pair totals, merging a pair,
    the best pair, and the whole sequence of greedy merges (`bpe_merges`).
  - `pair_index` and `pair_tree` are the two structures training keeps up to
    date: pair info by pair, and the ordered set of `(count, pair)` keys.
  - `train` holds the steps of a training round, `trainer` the training loop,
    proved to produce exactly `bpe_merges`.
  - `encode_decode` encodes text with a vocabulary; `merge` declares a second
    encoder that is not implemented.
  - `pretokenizing` holds chunk boundaries, document splitting at a special
    token and pretoken counting (with `memchr` and `regex`).
  - `byte_order` and `key_order` give the orders on bytes, pairs and keys;
    `laws` states properties across calls.
- The original keeps pair info in a `HashMap` keyed by pairs of byte
  strings and the keys in a `BTreeSet`. vstd's specifications of these
  collections promise their behaviour only for key types that obey its key
  model, which covers integer keys; a declared form was not tried. Both are
  replaced by `PairIndex` (distinct keys as its invariant) and `PairTree`
  (strictly sorted as its invariant), which give the same operations with
  proved contracts.
- `app/` is the program: it reads and memory-maps the corpus, runs one
  thread per chunk, trains, and writes the vocabulary.
- `tests/` runs the library on concrete inputs.
