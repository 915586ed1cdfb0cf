use vstd::prelude::*;
use vstd::utf8::encode_utf8;
use crate::charmap::{distinct_keys, has_key, lemma_lookup, lookup, map_insert};
use crate::flat::{extensions, grow_levels, last_char, next_level, second_last_char};
use crate::kagi::Kagi;
use crate::keymap::keymap_entries;
use crate::lists::{flat_seq, lemma_flat_seq_member};
use crate::rules::{
    allowed_fluent, allowed_little_fluent, allowed_pre, row_leap, same_finger, same_finger_among,
};
use crate::score::{
    blocked_by, clashes, insert_by_score, lemma_sort_by_score, score_sorted, sort_by_score,
};
use crate::hangul::{
    find_hangul_spec, hangul_candidates, may_follow_hand, next_hangul_spec, with_letters,
    CharComposition,
};
use crate::keymap::hangul_entries;
use crate::hangul_flat::{SpellPair, grow_hangul, hangul_extensions, hangul_next_level, level_count};
use crate::spell::{
    before_info, candidates, chars_of, first_chars, may_follow, next_chars_spec,
};
use crate::text::{after_prefix, best_of, length_score, shortest, spaced};

verus! {

/// Striking one finger twice and leaping a row do not depend on the order of the two keys.
pub proof fn law_pair_checks_symmetric(a: Kagi, b: Kagi)
    ensures
        same_finger(a, b) == same_finger(b, a),
        row_leap(a, b) == row_leap(b, a),
        allowed_pre(a, b) == allowed_pre(b, a),
{
}

/// The three-key finger check does not depend on the order of the three keys.
pub proof fn law_finger_check_order_free(a: Kagi, b: Kagi, c: Kagi)
    ensures
        same_finger_among(a, b, c) == same_finger_among(b, a, c),
        same_finger_among(a, b, c) == same_finger_among(a, c, b),
        same_finger_among(a, b, c) == same_finger_among(c, b, a),
{
}

/// The strict rule admits only what the lenient rule admits, and the lenient rule only
/// what the two-key rule admits.
pub proof fn law_rule_strictness(next: Kagi, pre: Kagi, prre: Kagi)
    ensures
        allowed_fluent(next, pre, prre) ==> allowed_little_fluent(next, pre, prre),
        allowed_little_fluent(next, pre, prre) ==> allowed_pre(next, pre),
{
}

/// No key may follow itself.
pub proof fn law_no_key_follows_itself(k: Kagi)
    ensures
        !allowed_pre(k, k),
{
}

/// Keeping a key away from the current one, as `next_chars` does, is the two-key rule.
pub proof fn law_clash_is_two_key_rule(v: Kagi, info: Kagi)
    ensures
        !clashes(v, info) <==> allowed_pre(v, info),
{
}

/// Every character `next_chars` offers after `current` is a key that the two-key rule
/// lets follow the current key and, when there is a key before, that key too.
pub proof fn law_next_chars_allowed(infos: Seq<(char, Kagi)>, before: Option<char>, current: char)
    requires
        distinct_keys(infos),
        infos.len() > 0,
        lookup(infos, current) is Some,
    ensures
        forall|k: int|
            0 <= k < next_chars_spec(infos, before, Some(current)).len() ==> {
                let c = #[trigger] next_chars_spec(infos, before, Some(current))[k];
                &&& lookup(infos, c) is Some
                &&& allowed_pre(lookup(infos, c).unwrap(), lookup(infos, current).unwrap())
                &&& (before_info(infos, before) matches Some(d) ==> allowed_pre(
                    lookup(infos, c).unwrap(),
                    d,
                ) && !blocked_by(d, lookup(infos, c).unwrap()))
            },
{
    let info = lookup(infos, current).unwrap();
    let bk = before_info(infos, before);
    let cands = candidates(infos, info, bk);
    let sorted = sort_by_score(cands);
    lemma_sort_by_score(cands);
    lemma_candidates_allowed(infos, info, bk);
    assert forall|k: int| 0 <= k < next_chars_spec(infos, before, Some(current)).len() implies {
        let c = #[trigger] next_chars_spec(infos, before, Some(current))[k];
        &&& lookup(infos, c) is Some
        &&& allowed_pre(lookup(infos, c).unwrap(), info)
        &&& (bk matches Some(d) ==> allowed_pre(lookup(infos, c).unwrap(), d) && !blocked_by(
            d,
            lookup(infos, c).unwrap(),
        ))
    } by {
        vstd::seq_lib::to_multiset_contains(sorted, sorted[k]);
        vstd::seq_lib::to_multiset_contains(cands, sorted[k]);
        assert(sorted.contains(sorted[k]));
        let m = choose|m: int| 0 <= m < cands.len() && cands[m] == sorted[k];
        assert(next_chars_spec(infos, before, Some(current))[k] == cands[m].0);
    }
}

/// Every candidate is an entry whose key may follow.
proof fn lemma_candidates_allowed(entries: Seq<(char, Kagi)>, info: Kagi, before: Option<Kagi>)
    requires
        distinct_keys(entries),
    ensures
        forall|m: int|
            0 <= m < candidates(entries, info, before).len() ==> {
                let c = (#[trigger] candidates(entries, info, before)[m]).0;
                &&& lookup(entries, c) is Some
                &&& may_follow(lookup(entries, c).unwrap(), info, before)
            },
{
    assert forall|m: int| 0 <= m < candidates(entries, info, before).len() implies {
        let c = (#[trigger] candidates(entries, info, before)[m]).0;
        &&& lookup(entries, c) is Some
        &&& may_follow(lookup(entries, c).unwrap(), info, before)
    } by {
        lemma_candidate_entry(entries, info, before, m);
        let i = choose|i: int|
            0 <= i < entries.len() && entries[i].0 == candidates(entries, info, before)[m].0
                && may_follow(entries[i].1, info, before);
        lemma_lookup(entries, entries[i].0);
    }
}

/// Each candidate comes from an entry that may follow.
proof fn lemma_candidate_entry(entries: Seq<(char, Kagi)>, info: Kagi, before: Option<Kagi>, m: int)
    requires
        0 <= m < candidates(entries, info, before).len(),
    ensures
        exists|i: int|
            0 <= i < entries.len() && #[trigger] entries[i].0 == candidates(entries, info, before)[m].0
                && may_follow(entries[i].1, info, before),
    decreases entries.len(),
{
    let t = entries.drop_last();
    if m < candidates(t, info, before).len() {
        lemma_candidate_entry(t, info, before, m);
        let i = choose|i: int|
            0 <= i < t.len() && #[trigger] t[i].0 == candidates(t, info, before)[m].0 && may_follow(
                t[i].1,
                info,
                before,
            );
        assert(entries[i] == t[i]);
    } else {
        let i = entries.len() - 1;
        assert(entries[i].0 == candidates(entries, info, before)[m].0);
    }
}

/// Growing levels keeps the levels there were and stops at `n` levels.
pub proof fn law_grow_levels_keeps_and_counts(
    infos: Seq<(char, Kagi)>,
    levels: Seq<Seq<Seq<char>>>,
    n: nat,
)
    ensures
        grow_levels(infos, levels, n).len() == if levels.len() < n { n } else { levels.len() },
        grow_levels(infos, levels, n).subrange(0, levels.len() as int) == levels,
    decreases n - levels.len(),
{
    if levels.len() < n {
        let next = levels.push(next_level(infos, levels));
        law_grow_levels_keeps_and_counts(infos, next, n);
        assert(next.subrange(0, levels.len() as int) == levels);
        assert(grow_levels(infos, levels, n).subrange(0, levels.len() as int) =~= next.subrange(
            0,
            levels.len() as int,
        ));
    } else {
        assert(levels.subrange(0, levels.len() as int) =~= levels);
    }
}

/// A spell of the layout whose every step obeys the two-key rule and whose every key is
/// apart from the key two steps back.
pub open spec fn fluent_spell(p: Seq<char>) -> bool {
    &&& forall|i: int| 0 <= i < p.len() ==> lookup(keymap_entries(), #[trigger] p[i]) is Some
    &&& forall|i: int|
        0 <= i < p.len() - 1 ==> allowed_pre(
            lookup(keymap_entries(), #[trigger] p[i + 1]).unwrap(),
            lookup(keymap_entries(), p[i]).unwrap(),
        )
    &&& forall|i: int|
        0 <= i < p.len() - 2 ==> !blocked_by(
            lookup(keymap_entries(), #[trigger] p[i]).unwrap(),
            lookup(keymap_entries(), p[i + 2]).unwrap(),
        )
}

/// Extending a fluent spell by what `next_chars` offers keeps it fluent.
proof fn lemma_extension_fluent(p: Seq<char>, k: int)
    requires
        p.len() > 0,
        fluent_spell(p),
        0 <= k < extensions(keymap_entries(), p).len(),
    ensures
        fluent_spell(extensions(keymap_entries(), p)[k]),
        extensions(keymap_entries(), p)[k].len() == p.len() + 1,
{
    let infos = keymap_entries();
    crate::keymap::lemma_keymap_distinct();
    assert(lookup(infos, p[p.len() - 1]) is Some);
    if p.len() >= 2 {
        assert(lookup(infos, p[p.len() - 2]) is Some);
    }
    law_next_chars_allowed(infos, second_last_char(p), p.last());
    let cs = next_chars_spec(infos, second_last_char(p), last_char(p));
    let c = cs[k];
    let q = p.push(c);
    assert(extensions(infos, p)[k] == q);
    assert forall|i: int| 0 <= i < q.len() implies lookup(keymap_entries(), #[trigger] q[i]) is Some by {
        if i < p.len() {
            assert(q[i] == p[i]);
        }
    }
    assert forall|i: int| 0 <= i < q.len() - 1 implies allowed_pre(
        lookup(keymap_entries(), #[trigger] q[i + 1]).unwrap(),
        lookup(keymap_entries(), q[i]).unwrap(),
    ) by {
        if i < p.len() - 1 {
            assert(q[i] == p[i] && q[i + 1] == p[i + 1]);
        } else {
            assert(q[i] == p.last());
        }
    }
    assert forall|i: int| 0 <= i < q.len() - 2 implies !blocked_by(
        lookup(keymap_entries(), #[trigger] q[i]).unwrap(),
        lookup(keymap_entries(), q[i + 2]).unwrap(),
    ) by {
        if i < p.len() - 2 {
            assert(q[i] == p[i] && q[i + 2] == p[i + 2]);
        } else {
            assert(q[i] == p[p.len() - 2]);
        }
    }
}

/// The levels grown with the layout from no levels: level `j` holds spells of `j + 1`
/// characters, each a fluent spell.
pub open spec fn fluent_levels(levels: Seq<Seq<Seq<char>>>) -> bool {
    forall|j: int, i: int|
        0 <= j < levels.len() && 0 <= i < levels[j].len() ==> (#[trigger] levels[j][i]).len() == j + 1
            && fluent_spell(levels[j][i])
}

proof fn lemma_grow_fluent(levels: Seq<Seq<Seq<char>>>, n: nat)
    requires
        fluent_levels(levels),
    ensures
        fluent_levels(grow_levels(keymap_entries(), levels, n)),
    decreases n - levels.len(),
{
    if levels.len() < n {
        let infos = keymap_entries();
        let next = next_level(infos, levels);
        assert forall|i: int| 0 <= i < next.len() implies (#[trigger] next[i]).len() == levels.len() + 1
            && fluent_spell(next[i]) by {
            if levels.len() == 0 {
                assert(next[i] == seq![first_chars()[i]]);
                crate::generate::lemma_first_chars_in_keymap();
                assert(lookup(infos, next[i][0]) is Some);
            } else {
                let parents = levels.last();
                let s = parents.map_values(|p: Seq<char>| extensions(infos, p));
                lemma_flat_seq_member(s, i);
                let (a, b) = choose|a: int, b: int|
                    0 <= a < s.len() && 0 <= b < s[a].len() && flat_seq(s)[i] == #[trigger] s[a][b];
                assert(parents[a] == levels[levels.len() - 1][a]);
                assert(parents[a].len() == levels.len());
                lemma_extension_fluent(parents[a], b);
            }
        }
        let grown = levels.push(next);
        assert(fluent_levels(grown)) by {
            assert forall|j: int, i: int| 0 <= j < grown.len() && 0 <= i < grown[j].len() implies (#[trigger] grown[j][i]).len()
                == j + 1 && fluent_spell(grown[j][i]) by {
                if j < levels.len() {
                    assert(grown[j] == levels[j]);
                }
            }
        }
        lemma_grow_fluent(grown, n);
    }
}

/// Every spell generated with the layout from no levels is fluent: each step obeys the
/// two-key rule, each key stays apart from the key two steps back, and the spells of level
/// `j` have `j + 1` characters.
pub proof fn law_generated_spells_fluent(n: nat, j: int, i: int)
    requires
        0 <= j < grow_levels(keymap_entries(), Seq::empty(), n).len(),
        0 <= i < grow_levels(keymap_entries(), Seq::empty(), n)[j].len(),
    ensures
        grow_levels(keymap_entries(), Seq::empty(), n)[j][i].len() == j + 1,
        fluent_spell(grow_levels(keymap_entries(), Seq::empty(), n)[j][i]),
{
    lemma_grow_fluent(Seq::empty(), n);
}

/// A picked string is one of those found, and the shortest, no longer than 100 bytes.
pub proof fn law_best_is_shortest(res: Seq<Seq<char>>)
    ensures
        best_of(res) matches Ok(one) ==> {
            &&& res.contains(one)
            &&& length_score(one) <= 100
            &&& forall|j: int| 0 <= j < res.len() ==> length_score(one) <= length_score(#[trigger] res[j])
        },
{
    if let Ok(one) = best_of(res) {
        crate::syllable::lemma_shortest_members(res);
        assert(shortest(res).contains(one));
        crate::text::lemma_least_score(res);
    }
}

/// A value stored under a key is what a lookup of that key gives; other keys keep their
/// values.
pub proof fn law_lookup_after_insert(s: Seq<(char, Kagi)>, k: char, v: Kagi, c: char)
    requires
        distinct_keys(s),
    ensures
        lookup(map_insert(s, k, v), c) == if c == k { Some(v) } else { lookup(s, c) },
        distinct_keys(map_insert(s, k, v)),
{
    lemma_lookup(s, c);
    lemma_lookup(s, k);
    let t = map_insert(s, k, v);
    if has_key(s, k) {
        let p = choose|i: int| 0 <= i < s.len() && s[i].0 == k;
        assert(distinct_keys(t)) by {
            assert forall|a: int, b: int| 0 <= a < t.len() && 0 <= b < t.len() && a != b implies t[a].0 != t[b].0 by {
                assert(t[a].0 == s[a].0);
                assert(t[b].0 == s[b].0);
            }
        }
        lemma_lookup(t, c);
        assert(t[p].0 == k);
        if c != k && has_key(s, c) {
            let m = choose|m: int| 0 <= m < s.len() && s[m].0 == c;
            assert(t[m] == s[m]);
            assert(t[m].0 == c);
        }
        if c != k && has_key(t, c) {
            let m = choose|m: int| 0 <= m < t.len() && t[m].0 == c;
            assert(t[m] == s[m]);
            assert(s[m].0 == c);
        }
    } else {
        assert(t.drop_last() == s);
        assert(distinct_keys(t)) by {
            assert forall|a: int, b: int| 0 <= a < t.len() && 0 <= b < t.len() && a != b implies t[a].0 != t[b].0 by {
                if a < s.len() && b < s.len() {
                    assert(t[a] == s[a] && t[b] == s[b]);
                } else if a < s.len() {
                    assert(t[a] == s[a]);
                } else {
                    assert(t[b] == s[b]);
                }
            }
        }
    }
}

/// Spacing puts the characters at the even positions and spaces at the odd ones.
pub proof fn law_spacing_positions(cs: Seq<char>)
    ensures
        cs.len() > 0 ==> spaced(cs).len() == 2 * cs.len() - 1,
        cs.len() == 0 ==> spaced(cs).len() == 0,
        forall|i: int|
            0 <= i < spaced(cs).len() ==> #[trigger] spaced(cs)[i] == if i % 2 == 0 {
                cs[i / 2]
            } else {
                ' '
            },
    decreases cs.len(),
{
    if cs.len() > 1 {
        let t = cs.drop_last();
        law_spacing_positions(t);
        assert forall|i: int| 0 <= i < spaced(cs).len() implies #[trigger] spaced(cs)[i] == if i % 2 == 0 {
            cs[i / 2]
        } else {
            ' '
        } by {
            if i < spaced(t).len() {
                assert(spaced(cs)[i] == spaced(t)[i]);
                if i % 2 == 0 {
                    assert(t[i / 2] == cs[i / 2]);
                }
            }
        }
    }
}

/// Cutting a leading text off: the cut text followed by the rest is the whole.
pub proof fn law_prefix_and_rest(sub: Seq<char>, rest: Seq<char>)
    ensures
        after_prefix(sub, sub + rest) == rest,
{
    crate::encoding::lemma_encode_concat(sub, rest);
    let b = encode_utf8(sub + rest);
    assert(b.subrange(encode_utf8(sub).len() as int, b.len() as int) =~= encode_utf8(rest));
    vstd::utf8::encode_utf8_decode_utf8(rest);
}

/// Every key of the layout types its own character.
pub proof fn law_layout_keys_type_themselves(c: char)
    requires
        lookup(keymap_entries(), c) is Some,
    ensures
        lookup(keymap_entries(), c).unwrap().ch == c,
        lookup(crate::keymap::hangul_entries(), c) is Some,
{
    crate::hangul_flat::lemma_layout_key(c);
}

/// A spell of the layout whose every step keeps the hand rule of the hangul tables: each
/// key is apart from the key before it and from the key two steps back.
pub open spec fn fluent_hangul_spell(p: Seq<char>) -> bool {
    &&& forall|i: int| 0 <= i < p.len() ==> lookup(keymap_entries(), #[trigger] p[i]) is Some
    &&& forall|i: int|
        0 <= i < p.len() - 1 ==> allowed_pre(
            lookup(keymap_entries(), #[trigger] p[i + 1]).unwrap(),
            lookup(keymap_entries(), p[i]).unwrap(),
        )
    &&& forall|i: int|
        0 <= i < p.len() - 2 ==> !clashes(
            lookup(keymap_entries(), #[trigger] p[i]).unwrap(),
            lookup(keymap_entries(), p[i + 2]).unwrap(),
        )
}

/// Each hangul candidate comes from an entry that may follow.
proof fn lemma_hangul_candidate_entry(
    keys: Set<Seq<u8>>,
    infos: Seq<(char, Kagi)>,
    entries: Seq<(char, Kagi)>,
    info: Kagi,
    before: Option<char>,
    m: int,
)
    requires
        0 <= m < hangul_candidates(keys, infos, entries, info, before).len(),
    ensures
        exists|i: int|
            0 <= i < entries.len() && #[trigger] entries[i].0 == hangul_candidates(
                keys,
                infos,
                entries,
                info,
                before,
            )[m].0.0 && may_follow_hand(entries[i].1, info, before_info(infos, before)),
    decreases entries.len(),
{
    let t = entries.drop_last();
    if m < hangul_candidates(keys, infos, t, info, before).len() {
        lemma_hangul_candidate_entry(keys, infos, t, info, before, m);
        let i = choose|i: int|
            0 <= i < t.len() && #[trigger] t[i].0 == hangul_candidates(keys, infos, t, info, before)[m].0.0
                && may_follow_hand(t[i].1, info, before_info(infos, before));
        assert(entries[i] == t[i]);
    } else {
        let i = entries.len() - 1;
        assert(entries[i].0 == hangul_candidates(keys, infos, entries, info, before)[m].0.0);
    }
}

/// Every character offered with a letter after a layout key may follow it by the hand rule.
proof fn lemma_next_hangul_allowed(keys: Set<Seq<u8>>, before: Option<char>, current: char, k: int)
    requires
        lookup(keymap_entries(), current) is Some,
        0 <= k < next_hangul_spec(keys, keymap_entries(), before, Some(current)).len(),
    ensures
        ({
            let infos = keymap_entries();
            let c = next_hangul_spec(keys, infos, before, Some(current))[k].0;
            &&& lookup(infos, c) is Some
            &&& may_follow_hand(
                lookup(infos, c).unwrap(),
                lookup(infos, current).unwrap(),
                before_info(infos, before),
            )
        }),
{
    let infos = keymap_entries();
    crate::keymap::lemma_keymap_distinct();
    let info = lookup(infos, current).unwrap();
    let cands = hangul_candidates(keys, infos, infos, info, before);
    let sorted = sort_by_score(cands);
    lemma_sort_by_score(cands);
    crate::hangul_flat::lemma_with_letters_from(sorted);
    let out = with_letters(sorted);
    let mm = choose|mm: int| 0 <= mm < sorted.len() && #[trigger] out[k].0 == sorted[mm].0.0;
    vstd::seq_lib::to_multiset_contains(sorted, sorted[mm]);
    vstd::seq_lib::to_multiset_contains(cands, sorted[mm]);
    assert(sorted.contains(sorted[mm]));
    let j = choose|j: int| 0 <= j < cands.len() && cands[j] == sorted[mm];
    lemma_hangul_candidate_entry(keys, infos, infos, info, before, j);
    let i = choose|i: int|
        0 <= i < infos.len() && #[trigger] infos[i].0 == cands[j].0.0 && may_follow_hand(
            infos[i].1,
            info,
            before_info(infos, before),
        );
    lemma_lookup(infos, infos[i].0);
}

/// The levels grown with letters from no levels: level `j` holds spells of `j + 1`
/// characters, each fluent by the hand rule, each with a one-letter hangul step.
pub open spec fn fluent_hangul_levels(levels: Seq<Seq<SpellPair>>) -> bool {
    forall|j: int, i: int|
        0 <= j < levels.len() && 0 <= i < levels[j].len() ==> (#[trigger] levels[j][i]).0.len() == j + 1
            && levels[j][i].1.len() == 1 && fluent_hangul_spell(levels[j][i].0)
}

proof fn lemma_grow_hangul_fluent(keys: Set<Seq<u8>>, levels: Seq<Seq<SpellPair>>, n: u8)
    requires
        fluent_hangul_levels(levels),
        levels.len() == level_count(levels.len()),
    ensures
        fluent_hangul_levels(grow_hangul(keys, keymap_entries(), levels, n)),
    decreases n - level_count(levels.len()),
{
    if level_count(levels.len()) < n {
        let infos = keymap_entries();
        let next = hangul_next_level(keys, infos, levels);
        assert forall|i: int| 0 <= i < next.len() implies (#[trigger] next[i]).0.len() == levels.len() + 1
            && next[i].1.len() == 1 && fluent_hangul_spell(next[i].0) by {
            if levels.len() == 0 {
                let firsts = next_hangul_spec(keys, infos, None, None);
                crate::hangul_flat::lemma_keyed_pairs_from(crate::keymap::hangul_entries(), first_chars());
                crate::generate::lemma_first_chars_in_keymap();
                let m = choose|m: int| 0 <= m < first_chars().len() && #[trigger] firsts[i].0 == first_chars()[m];
                assert(next[i].0 == seq![firsts[i].0]);
                assert(lookup(infos, next[i].0[0]) is Some);
            } else {
                let parents = levels.last();
                let s = parents.map_values(|p: SpellPair| hangul_extensions(keys, infos, p));
                lemma_flat_seq_member(s, i);
                let (a, b) = choose|a: int, b: int|
                    0 <= a < s.len() && 0 <= b < s[a].len() && flat_seq(s)[i] == #[trigger] s[a][b];
                let p = parents[a].0;
                assert(parents[a] == levels[levels.len() - 1][a]);
                assert(p.len() == levels.len());
                assert(fluent_hangul_spell(p));
                crate::keymap::lemma_keymap_distinct();
                assert(lookup(infos, p[p.len() - 1]) is Some);
                if p.len() >= 2 {
                    assert(lookup(infos, p[p.len() - 2]) is Some);
                }
                lemma_next_hangul_allowed(keys, second_last_char(p), p.last(), b);
                let offered = next_hangul_spec(keys, infos, second_last_char(p), last_char(p));
                let q = p.push(offered[b].0);
                assert(s[a][b] == (q, seq![offered[b].1]));
                assert forall|x: int| 0 <= x < q.len() implies lookup(keymap_entries(), #[trigger] q[x]) is Some by {
                    if x < p.len() {
                        assert(q[x] == p[x]);
                    }
                }
                assert forall|x: int| 0 <= x < q.len() - 1 implies allowed_pre(
                    lookup(keymap_entries(), #[trigger] q[x + 1]).unwrap(),
                    lookup(keymap_entries(), q[x]).unwrap(),
                ) by {
                    if x < p.len() - 1 {
                        assert(q[x] == p[x] && q[x + 1] == p[x + 1]);
                    } else {
                        assert(q[x] == p.last());
                    }
                }
                assert forall|x: int| 0 <= x < q.len() - 2 implies !clashes(
                    lookup(keymap_entries(), #[trigger] q[x]).unwrap(),
                    lookup(keymap_entries(), q[x + 2]).unwrap(),
                ) by {
                    if x < p.len() - 2 {
                        assert(q[x] == p[x] && q[x + 2] == p[x + 2]);
                    } else {
                        assert(q[x] == p[p.len() - 2]);
                    }
                }
            }
        }
        let grown = levels.push(next);
        assert(fluent_hangul_levels(grown)) by {
            assert forall|j: int, i: int| 0 <= j < grown.len() && 0 <= i < grown[j].len() implies (#[trigger] grown[j][i]).0.len()
                == j + 1 && grown[j][i].1.len() == 1 && fluent_hangul_spell(grown[j][i].0) by {
                if j < levels.len() {
                    assert(grown[j] == levels[j]);
                }
            }
        }
        crate::hangul_flat::lemma_level_count_step(levels.len(), n as int);
        lemma_grow_hangul_fluent(keys, grown, n);
    }
}

/// Every spell generated with letters and the layout from no levels is fluent by the hand
/// rule: each key is apart from the key before it and from the key two steps back; the
/// spells of level `j` have `j + 1` characters and a one-letter step.
pub proof fn law_generated_hangul_spells_fluent(keys: Set<Seq<u8>>, n: u8, j: int, i: int)
    requires
        0 <= j < grow_hangul(keys, keymap_entries(), Seq::empty(), n).len(),
        0 <= i < grow_hangul(keys, keymap_entries(), Seq::empty(), n)[j].len(),
    ensures
        grow_hangul(keys, keymap_entries(), Seq::empty(), n)[j][i].0.len() == j + 1,
        grow_hangul(keys, keymap_entries(), Seq::empty(), n)[j][i].1.len() == 1,
        fluent_hangul_spell(grow_hangul(keys, keymap_entries(), Seq::empty(), n)[j][i].0),
{
    lemma_grow_hangul_fluent(keys, Seq::empty(), n);
}

/// Keeps the entries that pass `p` in a sorted sequence: inserting before or after
/// filtering gives the same.
proof fn lemma_filter_insert<T>(s: Seq<(T, u32)>, x: (T, u32), p: spec_fn((T, u32)) -> bool)
    requires
        score_sorted(s),
    ensures
        insert_by_score(s, x).filter(p) == if p(x) {
            insert_by_score(s.filter(p), x)
        } else {
            s.filter(p)
        },
    decreases s.len(),
{
    reveal_with_fuel(Seq::filter, 2);
    broadcast use Seq::filter_distributes_over_add;
    if s.len() == 0 {
        assert(Seq::<(T, u32)>::empty().filter(p) =~= Seq::<(T, u32)>::empty());
        assert(seq![x].drop_last() =~= Seq::<(T, u32)>::empty());
    } else {
        let t = s.drop_first();
        assert(s =~= seq![s[0]] + t);
        assert(seq![s[0]].drop_last() =~= Seq::<(T, u32)>::empty());
        assert(seq![x].drop_last() =~= Seq::<(T, u32)>::empty());
        assert(Seq::<(T, u32)>::empty().filter(p) =~= Seq::<(T, u32)>::empty());
        assert(s.filter(p) == seq![s[0]].filter(p) + t.filter(p));
        if s[0].1 > x.1 {
            assert((seq![x] + s).filter(p) == seq![x].filter(p) + s.filter(p));
            if p(x) {
                let f = s.filter(p);
                if f.len() > 0 {
                    assert(f.contains(f[0]));
                    s.lemma_filter_contains_rev(p, f[0]);
                    let j = choose|j: int| 0 <= j < s.len() && s[j] == f[0];
                    assert(s[0].1 <= s[j].1);
                }
                assert(seq![x].filter(p) =~= seq![x]);
            } else {
                assert(seq![x].filter(p) =~= Seq::<(T, u32)>::empty());
                assert(Seq::<(T, u32)>::empty() + s.filter(p) =~= s.filter(p));
            }
        } else {
            assert(score_sorted(t)) by {
                assert forall|i: int, j: int| 0 <= i <= j < t.len() implies t[i].1 <= t[j].1 by {
                    assert(t[i] == s[i + 1] && t[j] == s[j + 1]);
                }
            }
            lemma_filter_insert(t, x, p);
            let it = insert_by_score(t, x);
            assert((seq![s[0]] + it).filter(p) == seq![s[0]].filter(p) + it.filter(p));
            if p(s[0]) {
                assert(seq![s[0]].filter(p) =~= seq![s[0]]);
                let f = s.filter(p);
                assert(f =~= seq![s[0]] + t.filter(p));
                assert(f[0] == s[0]);
                assert(f.drop_first() =~= t.filter(p));
            } else {
                assert(seq![s[0]].filter(p) =~= Seq::<(T, u32)>::empty());
                assert(Seq::<(T, u32)>::empty() + it.filter(p) =~= it.filter(p));
                assert(Seq::<(T, u32)>::empty() + t.filter(p) =~= t.filter(p));
            }
        }
    }
}

/// Sorting by score, stably, commutes with keeping the entries that pass `p`.
pub proof fn lemma_filter_sort<T>(s: Seq<(T, u32)>, p: spec_fn((T, u32)) -> bool)
    ensures
        sort_by_score(s).filter(p) == sort_by_score(s.filter(p)),
    decreases s.len(),
{
    reveal_with_fuel(Seq::filter, 1);
    if s.len() == 0 {
        assert(s.filter(p) =~= s);
    } else {
        let t = s.drop_last();
        lemma_filter_sort(t, p);
        lemma_sort_by_score(t);
        lemma_filter_insert(sort_by_score(t), s.last(), p);
        if p(s.last()) {
            let f = s.filter(p);
            assert(f == t.filter(p).push(s.last()));
            assert(f.drop_last() =~= t.filter(p));
            assert(f.last() == s.last());
        } else {
            assert(s.filter(p) == t.filter(p));
        }
    }
}

/// The character test lifted to scored entries.
pub open spec fn on_char<T>(q: spec_fn(char) -> bool) -> spec_fn((char, T)) -> bool {
    |x: (char, T)| q(x.0)
}

/// Keeping the entries whose character passes `q`, then taking the characters, is taking
/// the characters, then keeping those that pass.
proof fn lemma_chars_of_filter(s: Seq<(char, u32)>, q: spec_fn(char) -> bool)
    ensures
        chars_of(s.filter(on_char::<u32>(q))) == chars_of(s).filter(q),
    decreases s.len(),
{
    reveal_with_fuel(Seq::filter, 1);
    if s.len() == 0 {
        assert(s.filter(on_char::<u32>(q)) =~= s);
        assert(chars_of(s) =~= Seq::<char>::empty());
    } else {
        let t = s.drop_last();
        lemma_chars_of_filter(t, q);
        assert(chars_of(s).drop_last() =~= chars_of(t));
        assert(chars_of(s).last() == s.last().0);
        if q(s.last().0) {
            assert(chars_of(t.filter(on_char::<u32>(q)).push(s.last())) =~= chars_of(
                t.filter(on_char::<u32>(q)),
            ).push(s.last().0));
        }
    }
}

/// Keys that the key typed two steps back, `d`, does not rule out.
pub open spec fn not_blocked_by(infos: Seq<(char, Kagi)>, d: Kagi) -> spec_fn(char) -> bool {
    |k: char| !blocked_by(d, lookup(infos, k).unwrap())
}

/// The candidates after a key before are the candidates without it, kept when that key
/// does not rule them out.
proof fn lemma_candidates_before(infos: Seq<(char, Kagi)>, entries: Seq<(char, Kagi)>, info: Kagi, d: Kagi)
    requires
        forall|i: int| 0 <= i < entries.len() ==> lookup(infos, #[trigger] entries[i].0) == Some(entries[i].1),
    ensures
        candidates(entries, info, Some(d)) == candidates(entries, info, None).filter(
            on_char::<u32>(not_blocked_by(infos, d)),
        ),
    decreases entries.len(),
{
    reveal_with_fuel(Seq::filter, 1);
    let p = on_char::<u32>(not_blocked_by(infos, d));
    if entries.len() == 0 {
        assert(candidates(entries, info, None).filter(p) =~= Seq::<(char, u32)>::empty());
    } else {
        let t = entries.drop_last();
        assert forall|i: int| 0 <= i < t.len() implies lookup(infos, #[trigger] t[i].0) == Some(t[i].1) by {
            assert(t[i] == entries[i]);
        }
        lemma_candidates_before(infos, t, info, d);
        let (k, v) = entries.last();
        assert(lookup(infos, entries[entries.len() - 1].0) == Some(entries[entries.len() - 1].1));
        let c = candidates(entries, info, None);
        if may_follow(v, info, None) {
            assert(c.drop_last() =~= candidates(t, info, None));
            assert(c.last() == (k, crate::score::score(v, info)));
        } else {
            assert(c == candidates(t, info, None));
        }
    }
}

/// With a key typed before, `next_chars` offers what it offers without one, less the keys
/// that the key before rules out by finger or by the upper and lower rows (of either
/// hand); neither the key before nor the current key is ever offered.
pub proof fn law_next_chars_before_filter(infos: Seq<(char, Kagi)>, b: char, c: char)
    requires
        distinct_keys(infos),
        lookup(infos, c) is Some,
        lookup(infos, b) is Some,
    ensures
        next_chars_spec(infos, Some(b), Some(c)) == next_chars_spec(infos, None, Some(c)).filter(
            not_blocked_by(infos, lookup(infos, b).unwrap()),
        ),
        !next_chars_spec(infos, Some(b), Some(c)).contains(b),
        !next_chars_spec(infos, Some(b), Some(c)).contains(c),
{
    let d = lookup(infos, b).unwrap();
    let info = lookup(infos, c).unwrap();
    assert(infos.len() > 0);
    assert forall|i: int| 0 <= i < infos.len() implies lookup(infos, #[trigger] infos[i].0) == Some(infos[i].1) by {
        lemma_lookup(infos, infos[i].0);
    }
    lemma_candidates_before(infos, infos, info, d);
    let q = not_blocked_by(infos, d);
    let p = on_char::<u32>(q);
    let plain = candidates(infos, info, None);
    lemma_filter_sort(plain, p);
    lemma_chars_of_filter(sort_by_score(plain), q);
    law_next_chars_allowed(infos, Some(b), c);
    let r = next_chars_spec(infos, Some(b), Some(c));
    if r.contains(b) {
        let k = choose|k: int| 0 <= k < r.len() && r[k] == b;
        assert(!blocked_by(d, lookup(infos, r[k]).unwrap()));
    }
    if r.contains(c) {
        let k = choose|k: int| 0 <= k < r.len() && r[k] == c;
        assert(allowed_pre(lookup(infos, r[k]).unwrap(), info));
    }
}

/// The entry with its first part replaced by `g` of it; the score stays.
pub open spec fn on_first<A, B>(g: spec_fn(A) -> B) -> spec_fn((A, u32)) -> (B, u32) {
    |x: (A, u32)| (g(x.0), x.1)
}

/// Inserting by score commutes with changing the entries but not their scores.
proof fn lemma_insert_map<A, B>(s: Seq<(A, u32)>, x: (A, u32), g: spec_fn(A) -> B)
    ensures
        insert_by_score(s.map_values(on_first(g)), on_first(g)(x)) == insert_by_score(s, x).map_values(
            on_first(g),
        ),
    decreases s.len(),
{
    let f = on_first(g);
    if s.len() == 0 {
        assert(seq![x].map_values(f) =~= seq![f(x)]);
    } else {
        let t = s.drop_first();
        assert(s.map_values(f).drop_first() =~= t.map_values(f));
        assert(s.map_values(f)[0] == f(s[0]));
        if s[0].1 > x.1 {
            assert((seq![x] + s).map_values(f) =~= seq![f(x)] + s.map_values(f));
        } else {
            lemma_insert_map(t, x, g);
            assert((seq![s[0]] + insert_by_score(t, x)).map_values(f) =~= seq![f(s[0])]
                + insert_by_score(t, x).map_values(f));
        }
    }
}

/// Sorting by score commutes with changing the entries but not their scores.
pub proof fn lemma_sort_map<A, B>(s: Seq<(A, u32)>, g: spec_fn(A) -> B)
    ensures
        sort_by_score(s.map_values(on_first(g))) == sort_by_score(s).map_values(on_first(g)),
    decreases s.len(),
{
    let f = on_first(g);
    if s.len() == 0 {
        assert(s.map_values(f) =~= Seq::<(B, u32)>::empty());
        assert(sort_by_score(s).map_values(f) =~= Seq::<(B, u32)>::empty());
    } else {
        let t = s.drop_last();
        lemma_sort_map(t, g);
        lemma_insert_map(sort_by_score(t), s.last(), g);
        assert(s.map_values(f).drop_last() =~= t.map_values(f));
        assert(s.map_values(f).last() == f(s.last()));
    }
}

/// The letter of the step from the current key `info` to the key `k`, with no key before.
pub open spec fn letter_for(keys: Set<Seq<u8>>, infos: Seq<(char, Kagi)>, info: Kagi, k: char) -> Option<
    char,
> {
    find_hangul_spec(
        keys,
        hangul_entries(),
        infos,
        None,
        info,
        lookup(infos, k).unwrap(),
        CharComposition::Complete,
    )
}

/// A key with the letter of the step to it.
pub open spec fn tag(keys: Set<Seq<u8>>, infos: Seq<(char, Kagi)>, info: Kagi) -> spec_fn(char) -> (
    char,
    Option<char>,
) {
    |k: char| (k, letter_for(keys, infos, info, k))
}

/// The characters of `cs` that have a letter, each with it, in order.
pub open spec fn lettered(keys: Set<Seq<u8>>, infos: Seq<(char, Kagi)>, info: Kagi, cs: Seq<char>) -> Seq<
    (char, char),
>
    decreases cs.len(),
{
    if cs.len() == 0 {
        Seq::empty()
    } else {
        let r = lettered(keys, infos, info, cs.drop_last());
        match letter_for(keys, infos, info, cs.last()) {
            Some(h) => r.push((cs.last(), h)),
            None => r,
        }
    }
}

/// With no key before, the lettered candidates are the plain candidates, each key tagged
/// with the letter of its step.
proof fn lemma_hangul_candidates_tagged(
    keys: Set<Seq<u8>>,
    infos: Seq<(char, Kagi)>,
    entries: Seq<(char, Kagi)>,
    info: Kagi,
)
    requires
        forall|i: int| 0 <= i < entries.len() ==> lookup(infos, #[trigger] entries[i].0) == Some(entries[i].1),
    ensures
        hangul_candidates(keys, infos, entries, info, None) == candidates(entries, info, None).map_values(
            on_first(tag(keys, infos, info)),
        ),
    decreases entries.len(),
{
    let f = on_first(tag(keys, infos, info));
    if entries.len() == 0 {
        assert(candidates(entries, info, None).map_values(f) =~= Seq::<((char, Option<char>), u32)>::empty());
    } else {
        let t = entries.drop_last();
        assert forall|i: int| 0 <= i < t.len() implies lookup(infos, #[trigger] t[i].0) == Some(t[i].1) by {
            assert(t[i] == entries[i]);
        }
        lemma_hangul_candidates_tagged(keys, infos, t, info);
        assert(lookup(infos, entries[entries.len() - 1].0) == Some(entries[entries.len() - 1].1));
        let (k, v) = entries.last();
        if may_follow(v, info, None) {
            assert(candidates(entries, info, None).map_values(f) =~= candidates(t, info, None).map_values(
                f,
            ).push(f((k, crate::score::score(v, info)))));
        }
    }
}

/// Keeping the tagged entries that have a letter gives the lettered characters.
proof fn lemma_with_letters_tagged(
    keys: Set<Seq<u8>>,
    infos: Seq<(char, Kagi)>,
    info: Kagi,
    s: Seq<(char, u32)>,
)
    ensures
        with_letters(s.map_values(on_first(tag(keys, infos, info)))) == lettered(
            keys,
            infos,
            info,
            chars_of(s),
        ),
    decreases s.len(),
{
    let f = on_first(tag(keys, infos, info));
    if s.len() > 0 {
        let t = s.drop_last();
        lemma_with_letters_tagged(keys, infos, info, t);
        assert(s.map_values(f).drop_last() =~= t.map_values(f));
        assert(chars_of(s).drop_last() =~= chars_of(t));
        assert(chars_of(s).last() == s.last().0);
    } else {
        assert(chars_of(s) =~= Seq::<char>::empty());
    }
}

/// With no key before, the letters `next_chars_with_hangul` offers are those
/// `next_chars` offers, in the same order, each with the letter of its step; characters
/// without a letter are left out.
pub proof fn law_next_hangul_is_lettered(keys: Set<Seq<u8>>, infos: Seq<(char, Kagi)>, c: char)
    requires
        distinct_keys(infos),
        lookup(infos, c) is Some,
    ensures
        next_hangul_spec(keys, infos, None, Some(c)) == lettered(
            keys,
            infos,
            lookup(infos, c).unwrap(),
            next_chars_spec(infos, None, Some(c)),
        ),
{
    let info = lookup(infos, c).unwrap();
    assert(infos.len() > 0);
    assert forall|i: int| 0 <= i < infos.len() implies lookup(infos, #[trigger] infos[i].0) == Some(infos[i].1) by {
        lemma_lookup(infos, infos[i].0);
    }
    lemma_hangul_candidates_tagged(keys, infos, infos, info);
    let plain = candidates(infos, info, None);
    lemma_sort_map(plain, tag(keys, infos, info));
    lemma_with_letters_tagged(keys, infos, info, sort_by_score(plain));
}

} // verus!
