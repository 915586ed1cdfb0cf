//! Comfort rules for a two-handed keyboard layout, and a generator of comfortable key
//! sequences ("spells").
//!
//! Every key (`Kagi`) is described by the hand (`Sayu`), the finger (`Yubi`) and the row
//! (`Dan`) that strike it. The rules decide which key sequences are comfortable to type;
//! the generator enumerates comfortable sequences level by level, and the hangul part
//! attaches a composed hangul syllable to each step.

mod charmap;
mod encoding;
mod flat;
mod generate;
mod hangul;
mod hangul_flat;
mod hangul_laws;
mod kagi;
mod keymap;
mod laws;
mod level_laws;
mod lists;
mod rules;
mod score;
mod spell;
mod spell_laws;
mod syllable;
mod text;
mod text_laws;
mod trie;

pub use charmap::{
    distinct_keys, has_key, lemma_from_seq_distinct, lemma_lookup, lookup, map_from_seq, map_insert,
    CharMap,
};
pub use encoding::{
    lemma_byte_prefix_char_prefix, lemma_encode_concat, lemma_encode_injective, lemma_encode_len,
    lemma_prefix_char_boundary,
};
pub use flat::{
    children, clone_levels, clone_spells, extensions, flatlist_go, grow_defined, grow_levels,
    kept_levels, last_char, lemma_children_ready, lemma_grow_defined, level_ready, next_level,
    second_last_char, singletons, spell_ready,
};
pub use generate::{
    decimal, digit_char, generate_flatlist, generated_levels, lemma_first_chars_in_keymap, len_vec,
    lines, reduce_lines, render_levels, rendered, spell_file_name, spell_file_name_spec,
    u8_decimal,
};
pub use hangul::{
    add_hangul, final_letter, find_hangul, find_hangul_defined, find_hangul_spec, hangul_candidates,
    keyed_pairs, last_of, may_follow_hand, next_chars_with_hangul, next_hangul_defined,
    next_hangul_spec, pick_syllable, picked_syllable, traslate_in_hangul, vowel, vowel_of,
    with_letters, CharComposition,
};
pub use hangul_flat::{
    clone_pair_levels, clone_pairs, flatlist_go_with_hangul, generate_flatlist_with_hangul,
    generated_hangul_levels, grow_hangul, grow_hangul_defined, hangul_extensions, hangul_next_level,
    kept_pair_levels, layout_level, layout_spell, lemma_grow_hangul_layout, lemma_level_count_step,
    level_count, pair_line, rendered_pairs, SpellPair,
};
pub use hangul_laws::{
    keep_apart, law_complete_composes_vowel, law_consonant_table, law_first_hangul_listing, law_fluent_rule_exact,
    law_little_fluent_rule_exact, law_other_hand_vowels_distinct, law_step_after_key_before,
    law_next_hangul_cheapest_first, law_next_hangul_members, law_two_key_rule_exact, law_vowel_other_hand, law_vowel_same_hand,
};
pub use spell_laws::{
    law_first_characters, law_layout_table, law_next_chars_cheapest_first, law_next_chars_members,
    law_row_heights, law_step_cost, lemma_sort_members,
};
pub use kagi::{dan_to_num, row_height, Dan, GenerateSetting, Kagi, Rules2, Sayu, Table, Yubi};
pub use keymap::{
    hangul_cmap, hangul_entries, keymap_entries, keymapping, lemma_hangul_distinct,
    lemma_keymap_distinct,
};
pub use laws::{
    fluent_hangul_levels, fluent_hangul_spell, fluent_levels, fluent_spell, law_best_is_shortest, law_next_chars_before_filter, law_next_hangul_is_lettered,
    lemma_filter_sort, lemma_sort_map, letter_for, lettered, not_blocked_by, on_char, on_first, tag,
    law_clash_is_two_key_rule, law_finger_check_order_free, law_generated_hangul_spells_fluent,
    law_generated_spells_fluent, law_grow_levels_keeps_and_counts, law_layout_keys_type_themselves,
    law_lookup_after_insert, law_next_chars_allowed, law_no_key_follows_itself,
    law_pair_checks_symmetric, law_prefix_and_rest, law_rule_strictness, law_spacing_positions,
};
pub use level_laws::{
    chained, hangul_chained, law_children_members, law_grown_hangul_levels, law_grown_levels,
    law_hangul_children_members,
};
pub use lists::{
    column_at, flat_seq, lemma_flat_seq_map, lemma_flat_seq_member, longest_row, transpose,
    vec_flatten, views_of,
};
pub use rules::{
    allowed_by, allowed_fluent, allowed_little_fluent, allowed_pre, fu_yubi_pre, fu_yubi_prre,
    row_leap, row_leap_among, rule2, rule_fluent, rule_pre, rule_wn_little_fluent, same_finger,
    same_finger_among, yue_dan_pre, yue_dan_prre,
};
pub use score::{
    base_score, blocked_by, clashes, finger_point, insert_by_score, lemma_sort_by_score, score,
    score_sorted, sort_by_score, sort_scored,
};
pub use spell::{
    before_info, candidates, chars_of, first_chars, lemma_candidates_keys, lemma_next_chars_keys,
    may_follow, next_chars, next_chars_defined, next_chars_spec,
};
pub use syllable::{
    best_key, found_key, key_score, lemma_best_of_search, lemma_shortest_members, no_repeats,
    syllable, unique_best,
};
pub use text::{
    after_prefix, best_of, chars_spacing, findbest_from_queried, least_score, lemma_least_score,
    length_score, shortest, spaced, str_chushutu_unique, with_score,
};
pub use text_laws::{
    law_best_is_unique_shortest, law_decimal_reads_back, law_syllable_of_shortest, law_transpose_rectangular, numeral_value,
};
pub use trie::{
    builder_keys, is_byte_prefix, lemma_word_keys_push, lex_less, search_result, trie_keys,
    word_keys, HangulTrie,
};
