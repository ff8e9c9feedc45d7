# synaptclip

The core of SynaptClip, a clipboard manager, written in Verus. The
functions in `src/` carry contracts that the verifier proves, except for
seven small wrappers around standard-library calls (`str::trim`,
`str::to_lowercase`, `str::split_whitespace`, `str::find`,
`std::str::from_utf8`, collecting characters into a `String`, and
`Arc::clone`) and one around `rand::random::<bool>()`, marked
`#[verifier::external_body]`, whose contracts are trusted as the
documentation states them (the coin flip's has none), and the
uninterpreted `lowercase`, which names what `str::to_lowercase` returns.

## Layout

- `src/text.rs` — string helpers shared by the rest (trimming, lowercasing,
  words, decimal formatting).
- `src/search/` — the search machinery: a compressed trie for prefix search,
  suffix arrays for substring search, edit distance and the fuzzy searcher,
  a Bloom filter for duplicate detection, the clip classifier, a
  double-ended priority queue, Huffman coding of large clips, and the
  search engine that combines them.
- `src/dsa/` — the persistent list with its undo history, the skip list
  that ranks clips by an integer key, and the union-find that groups
  related clips.
- `src/capture.rs` — what happens to a captured clip: repeats, automatic
  categories, the undo history and grouping.
- `src/clipboard.rs` — watcher records and errors, the decisions the
  watchers take between reads, and the log format of the GNOME Clipboard
  History extension.
- `src/platform.rs` — clipboard backend detection and start-at-login files.
- `src/commands.rs` — the order search hits are shown in, setting effects,
  and undoing deletions.
- `src/synapt.rs`, `src/tray.rs`, `src/crash.rs` — the Synapt bridge rules,
  the shared tray, and the crash report.
- `tests/` — tests run against the compiled library.
- `app/` — ordinary Rust around the library: files, processes, the
  environment, serialisation, and the floating-point ranking score with
  its conversion to the skip list's integer key.

Laws of the library are stated as public proof functions next to the code
they concern, for example `lemma_decode_encode` (decoding gives back what
was encoded) and `lemma_frequent_codes_shorter` in `src/search/huffman.rs`,
`lemma_codes_prefix_free`, `lemma_freq_table`, `lemma_tree_leaves`,
`lemma_tree_weights`, `lemma_tree_leaf_counts` and `lemma_encoded_len` there too, `lemma_parse_resumes` and
`lemma_parse_boundary` in `src/clipboard.rs`, `lemma_lev_triangle` in
`src/search/fuzzy.rs`, `lemma_groups_disjoint` and `lemma_group_of_member`
in `src/dsa/union_find.rs`, and `lemma_ranked_sorted` in
`src/dsa/skip_list.rs`.
