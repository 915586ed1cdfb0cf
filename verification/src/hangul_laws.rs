use vstd::prelude::*;
use crate::charmap::{distinct_keys, lemma_lookup, lookup};
use crate::hangul::{
    keyed_pairs, find_hangul_spec, hangul_candidates, may_follow_hand, next_hangul_spec, with_letters,
    CharComposition,
};
use crate::score::{lemma_sort_by_score, score, score_sorted, sort_by_score};
use crate::spell_laws::lemma_sort_members;
use crate::spell::{before_info, first_chars};
use crate::kagi::{Dan, Kagi, Yubi};
use crate::keymap::{hangul_entries, keymap_entries, lemma_hangul_distinct};
use crate::rules::{allowed_fluent, allowed_little_fluent, allowed_pre};
use crate::syllable::syllable;
use crate::text::spaced;

verus! {

/// A move to a key of the other hand stands for the vowel of that key's row and finger,
/// whatever the key it starts from: on the upper row ring ㅑ, middle ㅐ, index ㅕ; on the
/// home row ring ㅏ, middle ㅣ, index ㅓ; on the lower row ring ㅖ, middle ㅒ, index ㅔ. The
/// thumb and the little finger stand for no vowel.
pub proof fn law_vowel_other_hand(
    keys: Set<Seq<u8>>,
    cmap: Seq<(char, char)>,
    infos: Seq<(char, Kagi)>,
    cur: Kagi,
    next: Kagi,
)
    requires
        cur.sayu != next.sayu,
    ensures
        find_hangul_spec(keys, cmap, infos, None, cur, next, CharComposition::Last) == match (
            next.dan,
            next.yubi,
        ) {
            (Dan::Jo, Yubi::Kusuri) => Some('ㅑ'),
            (Dan::Jo, Yubi::Naka) => Some('ㅐ'),
            (Dan::Jo, Yubi::Hitosashi) => Some('ㅕ'),
            (Dan::Chu, Yubi::Kusuri) => Some('ㅏ'),
            (Dan::Chu, Yubi::Naka) => Some('ㅣ'),
            (Dan::Chu, Yubi::Hitosashi) => Some('ㅓ'),
            (Dan::Ge, Yubi::Kusuri) => Some('ㅖ'),
            (Dan::Ge, Yubi::Naka) => Some('ㅒ'),
            (Dan::Ge, Yubi::Hitosashi) => Some('ㅔ'),
            _ => None,
        },
{
}

/// A move within one hand, between two of the index, middle and ring fingers, stands for
/// a vowel of the row it ends on: ㅡ or ㅢ on the home row, ㅜ or ㅠ on the upper row, ㅗ or ㅛ
/// on the lower row. The first of each pair is for a move to the middle finger or from the
/// middle finger to the index finger, the second for the other moves. Any other move
/// within one hand stands for no vowel.
pub proof fn law_vowel_same_hand(
    keys: Set<Seq<u8>>,
    cmap: Seq<(char, char)>,
    infos: Seq<(char, Kagi)>,
    cur: Kagi,
    next: Kagi,
)
    requires
        cur.sayu == next.sayu,
    ensures
        ({
            let fingers = |y: Yubi| y == Yubi::Hitosashi || y == Yubi::Naka || y == Yubi::Kusuri;
            let first = next.yubi == Yubi::Naka || (cur.yubi == Yubi::Naka && next.yubi
                == Yubi::Hitosashi);
            find_hangul_spec(keys, cmap, infos, None, cur, next, CharComposition::Last) == if fingers(
                cur.yubi,
            ) && fingers(next.yubi) && cur.yubi != next.yubi {
                match next.dan {
                    Dan::Chu => Some(if first { 'ㅡ' } else { 'ㅢ' }),
                    Dan::Jo => Some(if first { 'ㅜ' } else { 'ㅠ' }),
                    Dan::Ge => Some(if first { 'ㅗ' } else { 'ㅛ' }),
                }
            } else {
                None
            }
        }),
{
}

/// From any key, two moves to the other hand that stand for a vowel stand for the same
/// vowel only when they end on the same row and finger.
pub proof fn law_other_hand_vowels_distinct(
    keys: Set<Seq<u8>>,
    cmap: Seq<(char, char)>,
    infos: Seq<(char, Kagi)>,
    cur: Kagi,
    n1: Kagi,
    n2: Kagi,
)
    requires
        cur.sayu != n1.sayu,
        cur.sayu != n2.sayu,
        find_hangul_spec(keys, cmap, infos, None, cur, n1, CharComposition::Last) is Some,
        find_hangul_spec(keys, cmap, infos, None, cur, n1, CharComposition::Last)
            == find_hangul_spec(keys, cmap, infos, None, cur, n2, CharComposition::Last),
    ensures
        n1.dan == n2.dan,
        n1.yubi == n2.yubi,
{
}

/// Composed, the letter of a step with no key before is the syllable the trie gives for
/// the consonant of the current key followed by the vowel of the step; with no vowel there
/// is no letter.
pub proof fn law_complete_composes_vowel(
    keys: Set<Seq<u8>>,
    cmap: Seq<(char, char)>,
    infos: Seq<(char, Kagi)>,
    cur: Kagi,
    next: Kagi,
)
    ensures
        find_hangul_spec(keys, cmap, infos, None, cur, next, CharComposition::Complete) == match find_hangul_spec(
            keys,
            cmap,
            infos,
            None,
            cur,
            next,
            CharComposition::Last,
        ) {
            None => None,
            Some(v) => syllable(keys, spaced(seq![lookup(cmap, cur.ch).unwrap(), v])),
        },
{
}

/// With a key `b` typed before the current key, the letter of the step is the syllable the
/// trie gives for three letters: the consonant of `b`, the vowel of the move from `b` to
/// the current key, and a final letter for the next key, which is ㄵ for `m`, ㄶ for `c`
/// and the key's own consonant for every other key. Without a vowel there is no letter;
/// the composition asked for does not matter.
pub proof fn law_step_after_key_before(
    keys: Set<Seq<u8>>,
    cmap: Seq<(char, char)>,
    infos: Seq<(char, Kagi)>,
    b: char,
    cur: Kagi,
    next: Kagi,
    composi: CharComposition,
)
    ensures
        find_hangul_spec(keys, cmap, infos, Some(b), cur, next, composi) == match find_hangul_spec(
            keys,
            cmap,
            infos,
            None,
            lookup(infos, b).unwrap(),
            cur,
            CharComposition::Last,
        ) {
            None => None,
            Some(v) => syllable(
                keys,
                spaced(
                    seq![
                        lookup(cmap, b).unwrap(),
                        v,
                        if next.ch == 'm' {
                            'ㄵ'
                        } else if next.ch == 'c' {
                            'ㄶ'
                        } else {
                            lookup(cmap, next.ch).unwrap()
                        },
                    ],
                ),
            ),
        },
{
}

/// The consonant of each key: w ㅂ, e ㅋ, r ㅌ, u ㅈ, i ㄹ, o ㅊ, s ㅁ, d ㄱ, f ㄷ, j ㅇ, k ㄴ, l ㅅ,
/// z ㅍ, x ㄲ, c ㄸ, m ㅉ, n ㅎ, v ㅆ. Every key of the layout has one, and no two keys share
/// a consonant.
pub proof fn law_consonant_table()
    ensures
        lookup(hangul_entries(), 'w') == Some('ㅂ'),
        lookup(hangul_entries(), 'e') == Some('ㅋ'),
        lookup(hangul_entries(), 'r') == Some('ㅌ'),
        lookup(hangul_entries(), 'u') == Some('ㅈ'),
        lookup(hangul_entries(), 'i') == Some('ㄹ'),
        lookup(hangul_entries(), 'o') == Some('ㅊ'),
        lookup(hangul_entries(), 's') == Some('ㅁ'),
        lookup(hangul_entries(), 'd') == Some('ㄱ'),
        lookup(hangul_entries(), 'f') == Some('ㄷ'),
        lookup(hangul_entries(), 'j') == Some('ㅇ'),
        lookup(hangul_entries(), 'k') == Some('ㄴ'),
        lookup(hangul_entries(), 'l') == Some('ㅅ'),
        lookup(hangul_entries(), 'z') == Some('ㅍ'),
        lookup(hangul_entries(), 'x') == Some('ㄲ'),
        lookup(hangul_entries(), 'c') == Some('ㄸ'),
        lookup(hangul_entries(), 'm') == Some('ㅉ'),
        lookup(hangul_entries(), 'n') == Some('ㅎ'),
        lookup(hangul_entries(), 'v') == Some('ㅆ'),
        forall|i: int|
            0 <= i < keymap_entries().len() ==> lookup(
                hangul_entries(),
                #[trigger] keymap_entries()[i].0,
            ) is Some,
        forall|a: char, b: char|
            lookup(hangul_entries(), a) is Some && #[trigger] lookup(hangul_entries(), a)
                == #[trigger] lookup(hangul_entries(), b) ==> a == b,
{
    reveal_with_fuel(lookup, 19);
    let s = hangul_entries();
    lemma_hangul_distinct();
    assert forall|i: int| 0 <= i < s.len() implies consonant_rank(#[trigger] s[i].1) == i by {
        if i == 0 {
        } else if i == 1 {
        } else if i == 2 {
        } else if i == 3 {
        } else if i == 4 {
        } else if i == 5 {
        } else if i == 6 {
        } else if i == 7 {
        } else if i == 8 {
        } else if i == 9 {
        } else if i == 10 {
        } else if i == 11 {
        } else if i == 12 {
        } else if i == 13 {
        } else if i == 14 {
        } else if i == 15 {
        } else if i == 16 {
        } else if i == 17 {
        }
    }
    assert forall|a: char, b: char|
        lookup(hangul_entries(), a) is Some && #[trigger] lookup(hangul_entries(), a)
            == #[trigger] lookup(hangul_entries(), b) implies a == b by {
        lemma_lookup(s, a);
        lemma_lookup(s, b);
        let i = choose|i: int| 0 <= i < s.len() && s[i].0 == a;
        let j = choose|j: int| 0 <= j < s.len() && s[j].0 == b;
        assert(consonant_rank(s[i].1) == i);
        assert(consonant_rank(s[j].1) == j);
    }
}

/// The position of a consonant in the consonant table.
spec fn consonant_rank(h: char) -> int {
    match h {
        'ㅂ' => 0,
        'ㅋ' => 1,
        'ㅌ' => 2,
        'ㅈ' => 3,
        'ㄹ' => 4,
        'ㅊ' => 5,
        'ㅁ' => 6,
        'ㄱ' => 7,
        'ㄷ' => 8,
        'ㅇ' => 9,
        'ㄴ' => 10,
        'ㅅ' => 11,
        'ㅍ' => 12,
        'ㄲ' => 13,
        'ㄸ' => 14,
        'ㅉ' => 15,
        'ㅎ' => 16,
        'ㅆ' => 17,
        _ => -1,
    }
}

/// Two keys of one hand keep apart: they are struck by the same finger, or one lies on
/// the upper and the other on the lower row.
pub open spec fn keep_apart(a: Kagi, b: Kagi) -> bool {
    a.sayu == b.sayu && (a.yubi == b.yubi || (a.dan == Dan::Jo && b.dan == Dan::Ge) || (a.dan
        == Dan::Ge && b.dan == Dan::Jo))
}

/// The two-key rule lets `next` follow `pre` exactly when the two keys do not keep apart.
pub proof fn law_two_key_rule_exact(next: Kagi, pre: Kagi)
    ensures
        allowed_pre(next, pre) <==> !keep_apart(next, pre),
{
}

/// The strict rule admits three keys exactly when no two of them keep apart, the key
/// typed next and the key two steps back included; it is the two-key rule on every pair.
pub proof fn law_fluent_rule_exact(next: Kagi, pre: Kagi, prre: Kagi)
    ensures
        allowed_fluent(next, pre, prre) <==> !keep_apart(next, pre) && !keep_apart(next, prre)
            && !keep_apart(pre, prre),
        allowed_fluent(next, pre, prre) <==> allowed_pre(next, pre) && allowed_pre(next, prre)
            && allowed_pre(pre, prre),
{
}

/// The lenient rule admits three keys exactly when the last step keeps no two keys apart
/// and no finger of one hand repeats among the three.
pub proof fn law_little_fluent_rule_exact(next: Kagi, pre: Kagi, prre: Kagi)
    ensures
        allowed_little_fluent(next, pre, prre) <==> !keep_apart(next, pre) && !(next.sayu
            == prre.sayu && next.yubi == prre.yubi) && !(pre.sayu == prre.sayu && pre.yubi
            == prre.yubi),
{
}

/// The entries that carry a letter give exactly the pairs of character and letter.
proof fn lemma_with_letters_members(s: Seq<((char, Option<char>), u32)>, k: char, h: char)
    ensures
        with_letters(s).contains((k, h)) <==> exists|j: int|
            0 <= j < s.len() && (#[trigger] s[j]).0 == (k, Some(h)),
    decreases s.len(),
{
    if s.len() > 0 {
        let t = s.drop_last();
        lemma_with_letters_members(t, k, h);
        let r = with_letters(t);
        if exists|j: int| 0 <= j < t.len() && (#[trigger] t[j]).0 == (k, Some(h)) {
            let j = choose|j: int| 0 <= j < t.len() && (#[trigger] t[j]).0 == (k, Some(h));
            assert(s[j] == t[j]);
        }
        if exists|j: int| 0 <= j < s.len() && (#[trigger] s[j]).0 == (k, Some(h)) {
            let j = choose|j: int| 0 <= j < s.len() && (#[trigger] s[j]).0 == (k, Some(h));
            if j < t.len() {
                assert(t[j] == s[j]);
            }
        }
        match s.last().0.1 {
            Some(g) => {
                let w = r.push((s.last().0.0, g));
                assert(with_letters(s) == w);
                if w.contains((k, h)) {
                    let i = choose|i: int| 0 <= i < w.len() && w[i] == (k, h);
                    if i < r.len() {
                        assert(r[i] == w[i]);
                    }
                }
                if r.contains((k, h)) {
                    let i = choose|i: int| 0 <= i < r.len() && r[i] == (k, h);
                    assert(w[i] == r[i]);
                }
                if s.last().0 == (k, Some(h)) {
                    assert(w[w.len() - 1] == (k, h));
                }
            },
            None => {},
        }
    }
}

/// A key is a candidate with letter `h` exactly when some entry for it may follow and the
/// trie gives its step the letter `h`.
proof fn lemma_candidate_members(
    keys: Set<Seq<u8>>,
    infos: Seq<(char, Kagi)>,
    entries: Seq<(char, Kagi)>,
    info: Kagi,
    before: Option<char>,
    k: char,
    h: char,
)
    ensures
        (exists|j: int|
            0 <= j < hangul_candidates(keys, infos, entries, info, before).len() && (
            #[trigger] hangul_candidates(keys, infos, entries, info, before)[j]).0 == (k, Some(h)))
            <==> (exists|i: int|
            0 <= i < entries.len() && (#[trigger] entries[i]).0 == k && may_follow_hand(
                entries[i].1,
                info,
                before_info(infos, before),
            ) && find_hangul_spec(
                keys,
                hangul_entries(),
                infos,
                before,
                info,
                entries[i].1,
                CharComposition::Complete,
            ) == Some(h)),
    decreases entries.len(),
{
    if entries.len() > 0 {
        let t = entries.drop_last();
        lemma_candidate_members(keys, infos, t, info, before, k, h);
        let c = hangul_candidates(keys, infos, entries, info, before);
        let r = hangul_candidates(keys, infos, t, info, before);
        let (kk, v) = entries.last();
        let ok = may_follow_hand(v, info, before_info(infos, before));
        let good = |i: int|
            0 <= i < entries.len() && entries[i].0 == k && may_follow_hand(
                entries[i].1,
                info,
                before_info(infos, before),
            ) && find_hangul_spec(
                keys,
                hangul_entries(),
                infos,
                before,
                info,
                entries[i].1,
                CharComposition::Complete,
            ) == Some(h);
        if ok {
            assert(c.drop_last() == r);
        } else {
            assert(c == r);
        }
        if exists|j: int| 0 <= j < c.len() && (#[trigger] c[j]).0 == (k, Some(h)) {
            let j = choose|j: int| 0 <= j < c.len() && (#[trigger] c[j]).0 == (k, Some(h));
            if j < r.len() {
                assert(c[j] == r[j]);
                let i = choose|i: int|
                    0 <= i < t.len() && (#[trigger] t[i]).0 == k && may_follow_hand(
                        t[i].1,
                        info,
                        before_info(infos, before),
                    ) && find_hangul_spec(
                        keys,
                        hangul_entries(),
                        infos,
                        before,
                        info,
                        t[i].1,
                        CharComposition::Complete,
                    ) == Some(h);
                assert(entries[i] == t[i]);
                assert(good(i));
            } else {
                assert(good(entries.len() - 1));
            }
        }
        if exists|i: int|
            0 <= i < entries.len() && (#[trigger] entries[i]).0 == k && may_follow_hand(
                entries[i].1,
                info,
                before_info(infos, before),
            ) && find_hangul_spec(
                keys,
                hangul_entries(),
                infos,
                before,
                info,
                entries[i].1,
                CharComposition::Complete,
            ) == Some(h) {
            let i = choose|i: int|
                0 <= i < entries.len() && (#[trigger] entries[i]).0 == k && may_follow_hand(
                    entries[i].1,
                    info,
                    before_info(infos, before),
                ) && find_hangul_spec(
                    keys,
                    hangul_entries(),
                    infos,
                    before,
                    info,
                    entries[i].1,
                    CharComposition::Complete,
                ) == Some(h);
            if i < t.len() {
                assert(t[i] == entries[i]);
                let j = choose|j: int| 0 <= j < r.len() && (#[trigger] r[j]).0 == (k, Some(h));
                assert(c[j] == r[j]);
            } else {
                assert(c[c.len() - 1].0 == (k, Some(h)));
            }
        }
    }
}

/// The letters `next_chars_with_hangul` offers after `current`, typed after `before`: a
/// key is offered with the letter `h` exactly when it does not keep apart from the current
/// key, does not keep apart from the key before (which rules out keys of its own hand only),
/// and `h` is the letter of the step to it.
pub proof fn law_next_hangul_members(
    keys: Set<Seq<u8>>,
    infos: Seq<(char, Kagi)>,
    before: Option<char>,
    c: char,
    k: char,
    h: char,
)
    requires
        distinct_keys(infos),
        lookup(infos, c) is Some,
        before matches Some(b) ==> lookup(infos, b) is Some,
    ensures
        next_hangul_spec(keys, infos, before, Some(c)).contains((k, h)) <==> {
            &&& lookup(infos, k) is Some
            &&& !keep_apart(lookup(infos, k).unwrap(), lookup(infos, c).unwrap())
            &&& (before matches Some(b) ==> !keep_apart(
                lookup(infos, b).unwrap(),
                lookup(infos, k).unwrap(),
            ))
            &&& find_hangul_spec(
                keys,
                hangul_entries(),
                infos,
                before,
                lookup(infos, c).unwrap(),
                lookup(infos, k).unwrap(),
                CharComposition::Complete,
            ) == Some(h)
        },
{
    let info = lookup(infos, c).unwrap();
    lemma_lookup(infos, c);
    lemma_lookup(infos, k);
    assert(infos.len() > 0);
    let cand = hangul_candidates(keys, infos, infos, info, before);
    lemma_with_letters_members(sort_by_score(cand), k, h);
    lemma_sort_members(cand, (k, Some(h)));
    lemma_candidate_members(keys, infos, infos, info, before, k, h);
    if lookup(infos, k) is Some {
        let i = choose|i: int| 0 <= i < infos.len() && infos[i].0 == k;
        assert(lookup(infos, k) == Some(infos[i].1));
        if exists|i2: int|
            0 <= i2 < infos.len() && (#[trigger] infos[i2]).0 == k && may_follow_hand(
                infos[i2].1,
                info,
                before_info(infos, before),
            ) && find_hangul_spec(
                keys,
                hangul_entries(),
                infos,
                before,
                info,
                infos[i2].1,
                CharComposition::Complete,
            ) == Some(h) {
            let i2 = choose|i2: int|
                0 <= i2 < infos.len() && (#[trigger] infos[i2]).0 == k && may_follow_hand(
                    infos[i2].1,
                    info,
                    before_info(infos, before),
                ) && find_hangul_spec(
                    keys,
                    hangul_entries(),
                    infos,
                    before,
                    info,
                    infos[i2].1,
                    CharComposition::Complete,
                ) == Some(h);
            assert(i2 == i);
        }
        if !keep_apart(infos[i].1, info) && (before matches Some(b) ==> !keep_apart(
            lookup(infos, b).unwrap(),
            infos[i].1,
        )) && find_hangul_spec(
            keys,
            hangul_entries(),
            infos,
            before,
            info,
            infos[i].1,
            CharComposition::Complete,
        ) == Some(h) {
            assert(may_follow_hand(infos[i].1, info, before_info(infos, before)));
        }
    }
}

/// Pairing the characters that have a letter with it: when every character has one, each
/// is paired, in order.
proof fn lemma_keyed_pairs_all(cmap: Seq<(char, char)>, cs: Seq<char>)
    requires
        forall|i: int| 0 <= i < cs.len() ==> lookup(cmap, #[trigger] cs[i]) is Some,
    ensures
        keyed_pairs(cmap, cs) == cs.map_values(|c: char| (c, lookup(cmap, c).unwrap())),
    decreases cs.len(),
{
    if cs.len() > 0 {
        let t = cs.drop_last();
        assert forall|i: int| 0 <= i < t.len() implies lookup(cmap, #[trigger] t[i]) is Some by {
            assert(t[i] == cs[i]);
        }
        lemma_keyed_pairs_all(cmap, t);
        assert(lookup(cmap, cs[cs.len() - 1]) is Some);
        assert(cs.map_values(|c: char| (c, lookup(cmap, c).unwrap())) =~= t.map_values(
            |c: char| (c, lookup(cmap, c).unwrap()),
        ).push((cs.last(), lookup(cmap, cs.last()).unwrap())));
    } else {
        assert(cs.map_values(|c: char| (c, lookup(cmap, c).unwrap())) =~= Seq::<(char, char)>::empty());
    }
}

/// With no current key, `next_chars_with_hangul` offers the starting keys, cheapest first,
/// each with its consonant: k ㄴ, d ㄱ, j ㅇ, f ㄷ, l ㅅ, s ㅁ, i ㄹ, e ㅋ, r ㅌ, u ㅈ, m ㅉ, c ㄸ,
/// o ㅊ, w ㅂ, n ㅎ, x ㄲ, v ㅆ, z ㅍ.
pub proof fn law_first_hangul_listing(keys: Set<Seq<u8>>, infos: Seq<(char, Kagi)>, before: Option<char>)
    ensures
        next_hangul_spec(keys, infos, before, None) == seq![
            ('k', 'ㄴ'), ('d', 'ㄱ'), ('j', 'ㅇ'), ('f', 'ㄷ'), ('l', 'ㅅ'), ('s', 'ㅁ'),
            ('i', 'ㄹ'), ('e', 'ㅋ'), ('r', 'ㅌ'), ('u', 'ㅈ'), ('m', 'ㅉ'), ('c', 'ㄸ'),
            ('o', 'ㅊ'), ('w', 'ㅂ'), ('n', 'ㅎ'), ('x', 'ㄲ'), ('v', 'ㅆ'), ('z', 'ㅍ'),
        ],
{
    law_consonant_table();
    let cs = first_chars();
    assert forall|i: int| 0 <= i < cs.len() implies lookup(hangul_entries(), #[trigger] cs[i]) is Some by {
        if i == 0 {
        } else if i == 1 {
        } else if i == 2 {
        } else if i == 3 {
        } else if i == 4 {
        } else if i == 5 {
        } else if i == 6 {
        } else if i == 7 {
        } else if i == 8 {
        } else if i == 9 {
        } else if i == 10 {
        } else if i == 11 {
        } else if i == 12 {
        } else if i == 13 {
        } else if i == 14 {
        } else if i == 15 {
        } else if i == 16 {
        } else if i == 17 {
        }
    }
    lemma_keyed_pairs_all(hangul_entries(), cs);
    assert(cs.map_values(|c: char| (c, lookup(hangul_entries(), c).unwrap())) =~= seq![
        ('k', 'ㄴ'), ('d', 'ㄱ'), ('j', 'ㅇ'), ('f', 'ㄷ'), ('l', 'ㅅ'), ('s', 'ㅁ'),
        ('i', 'ㄹ'), ('e', 'ㅋ'), ('r', 'ㅌ'), ('u', 'ㅈ'), ('m', 'ㅉ'), ('c', 'ㄸ'),
        ('o', 'ㅊ'), ('w', 'ㅂ'), ('n', 'ㅎ'), ('x', 'ㄲ'), ('v', 'ㅆ'), ('z', 'ㅍ'),
    ]);
}

/// Keeping the entries that carry a letter keeps their order: taken from a sequence sorted
/// by a cost of the character, the pairs come cheapest first, each from some entry.
proof fn lemma_with_letters_sorted(s: Seq<((char, Option<char>), u32)>, cost: spec_fn(char) -> u32)
    requires
        score_sorted(s),
        forall|m: int| 0 <= m < s.len() ==> (#[trigger] s[m]).1 == cost(s[m].0.0),
    ensures
        forall|i: int|
            0 <= i < with_letters(s).len() ==> exists|m: int|
                0 <= m < s.len() && (#[trigger] with_letters(s)[i]).0 == s[m].0.0,
        forall|i: int, j: int|
            0 <= i <= j < with_letters(s).len() ==> cost((#[trigger] with_letters(s)[i]).0) <= cost(
                (#[trigger] with_letters(s)[j]).0,
            ),
    decreases s.len(),
{
    if s.len() > 0 {
        let t = s.drop_last();
        assert forall|m: int| 0 <= m < t.len() implies (#[trigger] t[m]).1 == cost(t[m].0.0) by {
            assert(t[m] == s[m]);
        }
        assert forall|a: int, b: int| 0 <= a <= b < t.len() implies t[a].1 <= t[b].1 by {
            assert(t[a] == s[a] && t[b] == s[b]);
        }
        lemma_with_letters_sorted(t, cost);
        let r = with_letters(t);
        let w = with_letters(s);
        let last = s[s.len() - 1];
        assert forall|i: int| 0 <= i < r.len() implies cost((#[trigger] r[i]).0) <= last.1 by {
            let m = choose|m: int| 0 <= m < t.len() && (#[trigger] r[i]).0 == t[m].0.0;
            assert(t[m] == s[m]);
        }
        assert forall|i: int| 0 <= i < w.len() implies exists|m: int|
            0 <= m < s.len() && (#[trigger] w[i]).0 == s[m].0.0 by {
            if i < r.len() {
                assert(w[i] == r[i]);
                let m = choose|m: int| 0 <= m < t.len() && (#[trigger] r[i]).0 == t[m].0.0;
                assert(t[m] == s[m]);
            } else {
                assert(w[i].0 == s[s.len() - 1].0.0);
            }
        }
        assert forall|i: int, j: int| 0 <= i <= j < w.len() implies cost((#[trigger] w[i]).0) <= cost(
            (#[trigger] w[j]).0,
        ) by {
            if j < r.len() {
                assert(w[i] == r[i] && w[j] == r[j]);
            } else if i < r.len() {
                assert(w[i] == r[i]);
                assert(w[j].0 == last.0.0);
            }
        }
    }
}

/// Every lettered candidate carries the cost of typing its key after the current one.
proof fn lemma_hangul_candidates_cost(
    keys: Set<Seq<u8>>,
    infos: Seq<(char, Kagi)>,
    entries: Seq<(char, Kagi)>,
    info: Kagi,
    before: Option<char>,
)
    requires
        forall|i: int| 0 <= i < entries.len() ==> lookup(infos, #[trigger] entries[i].0) == Some(entries[i].1),
    ensures
        forall|m: int|
            0 <= m < hangul_candidates(keys, infos, entries, info, before).len() ==> (
            #[trigger] hangul_candidates(keys, infos, entries, info, before)[m]).1 == score(
                lookup(infos, hangul_candidates(keys, infos, entries, info, before)[m].0.0).unwrap(),
                info,
            ),
    decreases entries.len(),
{
    if entries.len() > 0 {
        let t = entries.drop_last();
        assert forall|i: int| 0 <= i < t.len() implies lookup(infos, #[trigger] t[i].0) == Some(t[i].1) by {
            assert(t[i] == entries[i]);
        }
        lemma_hangul_candidates_cost(keys, infos, t, info, before);
        assert(lookup(infos, entries[entries.len() - 1].0) == Some(entries[entries.len() - 1].1));
        let c = hangul_candidates(keys, infos, entries, info, before);
        let r = hangul_candidates(keys, infos, t, info, before);
        assert forall|m: int| 0 <= m < c.len() implies (#[trigger] c[m]).1 == score(
            lookup(infos, c[m].0.0).unwrap(),
            info,
        ) by {
            if m < r.len() {
                assert(c[m] == r[m]);
            }
        }
    }
}

/// `next_chars_with_hangul` offers its keys cheapest first, with or without a key before:
/// along what it offers after a current key, the cost of typing each key after the current
/// one never decreases.
pub proof fn law_next_hangul_cheapest_first(
    keys: Set<Seq<u8>>,
    infos: Seq<(char, Kagi)>,
    before: Option<char>,
    c: char,
    i: int,
    j: int,
)
    requires
        distinct_keys(infos),
        lookup(infos, c) is Some,
        0 <= i <= j < next_hangul_spec(keys, infos, before, Some(c)).len(),
    ensures
        score(
            lookup(infos, next_hangul_spec(keys, infos, before, Some(c))[i].0).unwrap(),
            lookup(infos, c).unwrap(),
        ) <= score(
            lookup(infos, next_hangul_spec(keys, infos, before, Some(c))[j].0).unwrap(),
            lookup(infos, c).unwrap(),
        ),
{
    broadcast use vstd::seq_lib::group_to_multiset_ensures;
    let info = lookup(infos, c).unwrap();
    lemma_lookup(infos, c);
    assert(infos.len() > 0);
    assert forall|n: int| 0 <= n < infos.len() implies lookup(infos, #[trigger] infos[n].0) == Some(infos[n].1) by {
        lemma_lookup(infos, infos[n].0);
    }
    let cand = hangul_candidates(keys, infos, infos, info, before);
    let sorted = sort_by_score(cand);
    lemma_sort_by_score(cand);
    lemma_hangul_candidates_cost(keys, infos, infos, info, before);
    let cost = |k: char| score(lookup(infos, k).unwrap(), info);
    assert forall|m: int| 0 <= m < sorted.len() implies (#[trigger] sorted[m]).1 == cost(sorted[m].0.0) by {
        vstd::seq_lib::to_multiset_contains(sorted, sorted[m]);
        vstd::seq_lib::to_multiset_contains(cand, sorted[m]);
        assert(sorted.contains(sorted[m]));
        assert(cand.contains(sorted[m]));
        let q = choose|q: int| 0 <= q < cand.len() && cand[q] == sorted[m];
        assert(cand[q].1 == score(lookup(infos, cand[q].0.0).unwrap(), info));
    }
    lemma_with_letters_sorted(sorted, cost);
    let r = with_letters(sorted);
    assert(next_hangul_spec(keys, infos, before, Some(c)) == r);
    assert(cost(r[i].0) <= cost(r[j].0));
}

} // verus!
