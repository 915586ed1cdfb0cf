# lei

Comfort rules for a two-handed keyboard layout, and a generator of comfortable key
sequences ("spells"), verified with Verus.

* `src/kagi.rs`, `src/keymap.rs`: keys, the layout and the consonant table.
* `src/rules.rs`: the two- and three-key comfort rules.
* `src/score.rs`, `src/spell.rs`: costs of keys and the characters that may come next.
* `src/flat.rs`, `src/generate.rs`: growing levels of spells and writing them as text.
* `src/trie.rs`, `src/syllable.rs`, `src/hangul.rs`, `src/hangul_flat.rs`: the hangul
  letter of each step, looked up in a `trie_rs` trie.
* `src/laws.rs`: properties that hold across the functions.
* `app/main.rs`: the command line program that writes tables under `table/`.
