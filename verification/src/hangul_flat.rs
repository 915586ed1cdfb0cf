use vstd::prelude::*;
use crate::charmap::{CharMap, has_key, lemma_lookup, lookup};
use crate::flat::{last_char, second_last_char};
use crate::generate::{len_vec, lemma_first_chars_in_keymap, lines, reduce_lines};
use crate::hangul::{
    CharComposition, find_hangul_defined, hangul_candidates, keyed_pairs, may_follow_hand,
    next_chars_with_hangul, next_hangul_defined, next_hangul_spec, with_letters,
};
use crate::keymap::{hangul_entries, keymap_entries, keymapping, lemma_keymap_distinct};
use crate::score::{clashes, lemma_sort_by_score, sort_by_score};
use crate::spell::{before_info, first_chars};
use crate::kagi::{GenerateSetting, Kagi};
use crate::lists::{flat_seq, lemma_flat_seq_map, lemma_flat_seq_member, views_of};
use crate::text::push_char;
use crate::trie::HangulTrie;

verus! {

/// A spell with the hangul letter of its last step.
pub type SpellPair = (Seq<char>, Seq<char>);

/// The spells one character longer than the spell of `p`, each with its letter.
pub open spec fn hangul_extensions(keys: Set<Seq<u8>>, infos: Seq<(char, Kagi)>, p: SpellPair) -> Seq<
    SpellPair,
> {
    next_hangul_spec(keys, infos, second_last_char(p.0), last_char(p.0)).map_values(
        |ch: (char, char)| (p.0.push(ch.0), seq![ch.1]),
    )
}

/// The level of spells that follows `levels`.
pub open spec fn hangul_next_level(
    keys: Set<Seq<u8>>,
    infos: Seq<(char, Kagi)>,
    levels: Seq<Seq<SpellPair>>,
) -> Seq<SpellPair> {
    if levels.len() == 0 {
        next_hangul_spec(keys, infos, None, None).map_values(
            |ch: (char, char)| (seq![ch.0], seq![ch.1]),
        )
    } else {
        flat_seq(levels.last().map_values(|p: SpellPair| hangul_extensions(keys, infos, p)))
    }
}

/// The level count as the `u32` that the generator compares.
pub open spec fn level_count(n: nat) -> int {
    n as int % 0x1_0000_0000
}

/// Below the limit, one more level counts one more.
pub proof fn lemma_level_count_step(n: nat, limit: int)
    requires
        level_count(n) < limit <= 255,
    ensures
        level_count(n + 1) == level_count(n) + 1,
{
    assert((n + 1) % 0x1_0000_0000 == n % 0x1_0000_0000 + 1) by (nonlinear_arith)
        requires
            n % 0x1_0000_0000 < 255,
            n >= 0,
    ;
}

/// `levels` with levels of spells added while their count, as a `u32`, is below `n`.
pub open spec fn grow_hangul(
    keys: Set<Seq<u8>>,
    infos: Seq<(char, Kagi)>,
    levels: Seq<Seq<SpellPair>>,
    n: u8,
) -> Seq<Seq<SpellPair>>
    decreases n - level_count(levels.len()),
{
    if level_count(levels.len()) < n {
        proof {
            lemma_level_count_step(levels.len(), n as int);
        }
        grow_hangul(keys, infos, levels.push(hangul_next_level(keys, infos, levels)), n)
    } else {
        levels
    }
}

/// Every level that growing `levels` extends can be extended.
pub open spec fn grow_hangul_defined(
    keys: Set<Seq<u8>>,
    infos: Seq<(char, Kagi)>,
    levels: Seq<Seq<SpellPair>>,
    n: u8,
) -> bool
    decreases n - level_count(levels.len()),
{
    level_count(levels.len()) < n ==> {
        &&& levels.len() > 0 ==> forall|i: int|
            0 <= i < levels.last().len() ==> next_hangul_defined(
                infos,
                second_last_char(#[trigger] levels.last()[i].0),
                last_char(levels.last()[i].0),
            )
        &&& {
            proof {
                lemma_level_count_step(levels.len(), n as int);
            }
            grow_hangul_defined(keys, infos, levels.push(hangul_next_level(keys, infos, levels)), n)
        }
    }
}

/// All inner vectors joined, moved rather than copied.
fn join_levels<T>(v: Vec<Vec<T>>) -> (r: Vec<T>)
    ensures
        r@ == flat_seq(views_of(v@)),
{
    let mut rest = v;
    let ghost all = views_of(rest@);
    let mut r: Vec<T> = Vec::new();
    let ghost mut i: int = 0;
    while rest.len() > 0
        invariant
            0 <= i <= all.len(),
            views_of(rest@) == all.subrange(i, all.len() as int),
            r@ == flat_seq(all.subrange(0, i)),
        decreases rest@.len(),
    {
        let ghost old_rest = rest@;
        let mut first = rest.remove(0);
        proof {
            assert(views_of(old_rest).len() == all.len() - i);
            assert(views_of(old_rest)[0] == all.subrange(i, all.len() as int)[0]);
            assert(first@ == all[i]);
            assert(all.subrange(0, i + 1).drop_last() =~= all.subrange(0, i));
        }
        r.append(&mut first);
        proof {
            i = i + 1;
            assert forall|k: int| 0 <= k < rest@.len() implies #[trigger] views_of(rest@)[k] == all.subrange(i, all.len() as int)[k] by {
                assert(rest@[k] == old_rest[k + 1]);
                assert(views_of(old_rest)[k + 1] == all.subrange(i - 1, all.len() as int)[k + 1]);
            }
            assert(views_of(rest@) =~= all.subrange(i, all.len() as int));
        }
    }
    proof {
        assert(all.subrange(0, i) == all);
    }
    r
}

/// A one-character string.
fn char_string(c: char) -> (s: String)
    ensures
        s@ == seq![c],
{
    let mut s = String::new();
    push_char(&mut s, c);
    proof {
        assert(s@ =~= seq![c]);
    }
    s
}

/// A copy of a list of spells with their letters.
pub fn clone_pairs(v: &Vec<(String, String)>) -> (r: Vec<(String, String)>)
    ensures
        r.deep_view() == v.deep_view(),
{
    let mut r: Vec<(String, String)> = Vec::new();
    let n = v.len();
    let mut i: usize = 0;
    while i < n
        invariant
            n == v@.len(),
            i <= n,
            r@.len() == i,
            forall|k: int| 0 <= k < i ==> (#[trigger] r@[k]).deep_view() == v@[k].deep_view(),
        decreases n - i,
    {
        let p = (v[i].0.clone(), v[i].1.clone());
        r.push(p);
        i = i + 1;
    }
    proof {
        assert(r.deep_view() =~= v.deep_view());
    }
    r
}

/// A copy of a list of levels of spells with their letters.
pub fn clone_pair_levels(v: &Vec<Vec<(String, String)>>) -> (r: Vec<Vec<(String, String)>>)
    ensures
        r.deep_view() == v.deep_view(),
{
    let mut r: Vec<Vec<(String, String)>> = Vec::new();
    let n = v.len();
    let mut i: usize = 0;
    while i < n
        invariant
            n == v@.len(),
            i <= n,
            r@.len() == i,
            forall|k: int| 0 <= k < i ==> (#[trigger] r@[k]).deep_view() == v@[k].deep_view(),
        decreases n - i,
    {
        r.push(clone_pairs(&v[i]));
        i = i + 1;
    }
    proof {
        assert(r.deep_view() =~= v.deep_view());
    }
    r
}

/// The spells one character longer than `spell`, each with the letter of its last step.
fn extend_hangul(
    hangul_trie: &HangulTrie,
    nth_next: u32,
    spell: &String,
    infos: &CharMap<Kagi>,
) -> (r: Vec<(String, String)>)
    requires
        next_hangul_defined(infos@, second_last_char(spell@), last_char(spell@)),
    ensures
        r.deep_view() == hangul_extensions(hangul_trie.keys(), infos@, (spell@, Seq::empty())),
{
    let len = spell.as_str().unicode_len();
    let current = if len > 0 {
        Some(spell.as_str().get_char(len - 1))
    } else {
        None
    };
    let before = if len > 1 {
        Some(spell.as_str().get_char(len - 2))
    } else {
        None
    };
    let next = next_chars_with_hangul(hangul_trie, nth_next, before, current, infos);
    let n = next.len();
    let mut r: Vec<(String, String)> = Vec::new();
    let mut i: usize = 0;
    while i < n
        invariant
            n == next@.len(),
            next@ == next_hangul_spec(hangul_trie.keys(), infos@, second_last_char(spell@), last_char(spell@)),
            i <= n,
            r@.len() == i,
            forall|k: int|
                0 <= k < i ==> (#[trigger] r@[k]).deep_view() == (
                    spell@.push(next@[k].0),
                    seq![next@[k].1],
                ),
        decreases n - i,
    {
        let (c, h) = next[i];
        let mut child = spell.clone();
        push_char(&mut child, c);
        r.push((child, char_string(h)));
        i = i + 1;
    }
    proof {
        assert(r.deep_view() =~= hangul_extensions(hangul_trie.keys(), infos@, (spell@, Seq::empty())));
    }
    r
}

/// `usize` to `u32` keeps the low 32 bits.
proof fn lemma_u32_of_usize(x: usize)
    ensures
        (x as u32) as int == x as int % 0x1_0000_0000,
{
    assert((x as u32) as int == x as int % 0x1_0000_0000) by (bit_vector);
}

/// What `flatlist_go_with_hangul` hands back from the grown levels.
pub open spec fn kept_pair_levels(levels: Seq<Seq<SpellPair>>, lenonly: bool) -> Seq<Seq<SpellPair>> {
    if lenonly {
        seq![levels.last()]
    } else {
        levels
    }
}

/// Like `flatlist_go`, with the hangul letter of each spell's last step beside it.
pub fn flatlist_go_with_hangul(
    hangul_trie: &HangulTrie,
    setting: &GenerateSetting,
    infos: &CharMap<Kagi>,
    spellsbylen: &mut Vec<Vec<(String, String)>>,
) -> (r: Vec<Vec<(String, String)>>)
    requires
        grow_hangul_defined(hangul_trie.keys(), infos@, old(spellsbylen).deep_view(), setting.len),
        setting.lenonly ==> old(spellsbylen).len() > 0 || level_count(old(spellsbylen)@.len()) < setting.len,
    ensures
        final(spellsbylen).deep_view() == grow_hangul(
            hangul_trie.keys(),
            infos@,
            old(spellsbylen).deep_view(),
            setting.len,
        ),
        r.deep_view() == kept_pair_levels(final(spellsbylen).deep_view(), setting.lenonly),
    decreases setting.len - level_count(old(spellsbylen)@.len()),
{
    let ghost levels = spellsbylen.deep_view();
    let count = spellsbylen.len();
    let nth_next = #[verifier::truncate] (count as u32);
    proof {
        lemma_u32_of_usize(count);
    }
    if nth_next < setting.len as u32 {
        let mut childs: Vec<Vec<(String, String)>> = Vec::new();
        if count == 0 {
            let spells = next_chars_with_hangul(hangul_trie, nth_next, None, None, infos);
            let n = spells.len();
            let mut first: Vec<(String, String)> = Vec::new();
            let mut i: usize = 0;
            while i < n
                invariant
                    n == spells@.len(),
                    spells@ == next_hangul_spec(hangul_trie.keys(), infos@, None, None),
                    i <= n,
                    first@.len() == i,
                    forall|k: int|
                        0 <= k < i ==> (#[trigger] first@[k]).deep_view() == (
                            seq![spells@[k].0],
                            seq![spells@[k].1],
                        ),
                decreases n - i,
            {
                let (c, h) = spells[i];
                first.push((char_string(c), char_string(h)));
                i = i + 1;
            }
            childs.push(first);
            proof {
                let e = seq![hangul_next_level(hangul_trie.keys(), infos@, levels)];
                assert(first.deep_view() =~= e[0]);
                assert(childs.deep_view() =~= e);
                assert(e.drop_last() =~= Seq::<Seq<SpellPair>>::empty());
                assert(flat_seq(e.drop_last()) == Seq::<SpellPair>::empty());
                assert(Seq::<SpellPair>::empty() + e.last() =~= e.last());
            }
        } else {
            let parents = &spellsbylen[count - 1];
            let m = parents.len();
            let mut j: usize = 0;
            while j < m
                invariant
                    m == parents@.len(),
                    parents.deep_view() == levels.last(),
                    levels.len() > 0,
                    levels.len() == count,
                    level_count(levels.len()) < setting.len,
                    forall|i: int|
                        0 <= i < levels.last().len() ==> next_hangul_defined(
                            infos@,
                            second_last_char(#[trigger] levels.last()[i].0),
                            last_char(levels.last()[i].0),
                        ),
                    j <= m,
                    childs@.len() == j,
                    forall|k: int|
                        0 <= k < j ==> (#[trigger] childs@[k]).deep_view() == hangul_extensions(
                            hangul_trie.keys(),
                            infos@,
                            parents@[k].deep_view(),
                        ),
                decreases m - j,
            {
                proof {
                    assert(parents.deep_view()[j as int] == parents@[j as int].deep_view());
                    assert(levels.last()[j as int].0 == parents@[j as int].0@);
                }
                let ext = extend_hangul(hangul_trie, nth_next, &parents[j].0, infos);
                childs.push(ext);
                j = j + 1;
            }
            proof {
                assert(childs.deep_view() =~= levels.last().map_values(
                    |p: SpellPair| hangul_extensions(hangul_trie.keys(), infos@, p),
                ));
            }
        }
        let ghost cv = childs.deep_view();
        let ghost cs = childs@;
        let flat = join_levels(childs);
        proof {
            let vs = views_of(cs);
            let f = |p: (String, String)| p.deep_view();
            assert forall|i: int| 0 <= i < vs.len() implies #[trigger] vs[i].map_values(f) == cv[i] by {
                assert(vs[i].map_values(f) =~= cs[i].deep_view());
            }
            assert(vs.map_values(|x: Seq<(String, String)>| x.map_values(f)) =~= cv);
            lemma_flat_seq_map(vs, f);
            assert(flat.deep_view() =~= flat@.map_values(f));
            assert(flat.deep_view() == hangul_next_level(hangul_trie.keys(), infos@, levels));
        }
        spellsbylen.push(flat);
        proof {
            lemma_level_count_step(levels.len(), setting.len as int);
            assert(spellsbylen.deep_view() =~= levels.push(hangul_next_level(hangul_trie.keys(), infos@, levels)));
        }
        flatlist_go_with_hangul(hangul_trie, setting, infos, spellsbylen)
    } else {
        if setting.lenonly {
            let last = clone_pairs(&spellsbylen[count - 1]);
            let mut r: Vec<Vec<(String, String)>> = Vec::new();
            r.push(last);
            r
        } else {
            clone_pair_levels(spellsbylen)
        }
    }
}

} // verus!

verus! {

/// Every character of the spell is a key of the layout, and there is at least one.
pub open spec fn layout_spell(p: Seq<char>) -> bool {
    p.len() > 0 && forall|i: int| 0 <= i < p.len() ==> lookup(keymap_entries(), #[trigger] p[i]) is Some
}

/// Every key of the layout types its own character and has a consonant.
proof fn lemma_layout_keys()
    ensures
        forall|i: int|
            0 <= i < keymap_entries().len() ==> (#[trigger] keymap_entries()[i]).0 == keymap_entries()[i].1.ch
                && lookup(hangul_entries(), keymap_entries()[i].0) is Some,
{
    assert forall|i: int| 0 <= i < keymap_entries().len() implies (#[trigger] keymap_entries()[i]).0
        == keymap_entries()[i].1.ch && lookup(hangul_entries(), keymap_entries()[i].0) is Some by {
        lemma_lookup(hangul_entries(), keymap_entries()[i].0);
        if i == 0 {
            assert(hangul_entries()[0].0 == 'w');
        } else         if i == 1 {
            assert(hangul_entries()[1].0 == 'e');
        } else         if i == 2 {
            assert(hangul_entries()[2].0 == 'r');
        } else         if i == 3 {
            assert(hangul_entries()[6].0 == 's');
        } else         if i == 4 {
            assert(hangul_entries()[7].0 == 'd');
        } else         if i == 5 {
            assert(hangul_entries()[8].0 == 'f');
        } else         if i == 6 {
            assert(hangul_entries()[12].0 == 'z');
        } else         if i == 7 {
            assert(hangul_entries()[13].0 == 'x');
        } else         if i == 8 {
            assert(hangul_entries()[14].0 == 'c');
        } else         if i == 9 {
            assert(hangul_entries()[3].0 == 'u');
        } else         if i == 10 {
            assert(hangul_entries()[4].0 == 'i');
        } else         if i == 11 {
            assert(hangul_entries()[5].0 == 'o');
        } else         if i == 12 {
            assert(hangul_entries()[9].0 == 'j');
        } else         if i == 13 {
            assert(hangul_entries()[10].0 == 'k');
        } else         if i == 14 {
            assert(hangul_entries()[11].0 == 'l');
        } else         if i == 15 {
            assert(hangul_entries()[15].0 == 'm');
        } else         if i == 16 {
            assert(hangul_entries()[16].0 == 'n');
        } else         if i == 17 {
            assert(hangul_entries()[17].0 == 'v');
        }
    }
}

/// A layout key types its own character and has a consonant.
pub proof fn lemma_layout_key(c: char)
    requires
        lookup(keymap_entries(), c) is Some,
    ensures
        lookup(keymap_entries(), c).unwrap().ch == c,
        lookup(hangul_entries(), c) is Some,
{
    lemma_layout_keys();
    lemma_lookup(keymap_entries(), c);
    lemma_keymap_distinct();
    let i = choose|i: int| 0 <= i < keymap_entries().len() && keymap_entries()[i].0 == c;
    assert(keymap_entries()[i].0 == c);
}

/// The layout can give a letter for every step from a layout spell.
proof fn lemma_layout_spell_ready(p: Seq<char>)
    requires
        layout_spell(p),
    ensures
        next_hangul_defined(keymap_entries(), second_last_char(p), last_char(p)),
{
    let infos = keymap_entries();
    let c = p.last();
    assert(lookup(infos, p[p.len() - 1]) is Some);
    lemma_layout_key(c);
    let info = lookup(infos, c).unwrap();
    if p.len() >= 2 {
        assert(lookup(infos, p[p.len() - 2]) is Some);
        lemma_layout_key(p[p.len() - 2]);
    }
    lemma_layout_keys();
    assert forall|i: int| 0 <= i < infos.len() implies {
        let v = #[trigger] infos[i].1;
        &&& (!clashes(v, info) && second_last_char(p) is Some) ==> before_info(infos, second_last_char(p)) is Some
        &&& may_follow_hand(v, info, before_info(infos, second_last_char(p))) ==> find_hangul_defined(
            hangul_entries(),
            infos,
            second_last_char(p),
            info,
            v,
            CharComposition::Complete,
        )
    } by {
        assert(infos[i].0 == infos[i].1.ch);
    }
}

/// Every character that `with_letters` keeps comes from an entry.
pub proof fn lemma_with_letters_from(s: Seq<((char, Option<char>), u32)>)
    ensures
        forall|k: int|
            0 <= k < with_letters(s).len() ==> exists|m: int|
                0 <= m < s.len() && #[trigger] with_letters(s)[k].0 == s[m].0.0,
    decreases s.len(),
{
    if s.len() > 0 {
        let t = s.drop_last();
        lemma_with_letters_from(t);
        assert forall|k: int| 0 <= k < with_letters(s).len() implies exists|m: int|
            0 <= m < s.len() && #[trigger] with_letters(s)[k].0 == s[m].0.0 by {
            if k < with_letters(t).len() {
                let m = choose|m: int| 0 <= m < t.len() && #[trigger] with_letters(t)[k].0 == t[m].0.0;
                assert(s[m] == t[m]);
            } else {
                assert(with_letters(s)[k].0 == s[s.len() - 1].0.0);
            }
        }
    }
}

/// Every candidate is a key of the entries.
proof fn lemma_hangul_candidates_keys(
    keys: Set<Seq<u8>>,
    infos: Seq<(char, Kagi)>,
    entries: Seq<(char, Kagi)>,
    info: Kagi,
    before: Option<char>,
)
    ensures
        forall|m: int|
            0 <= m < hangul_candidates(keys, infos, entries, info, before).len() ==> has_key(
                entries,
                (#[trigger] hangul_candidates(keys, infos, entries, info, before)[m]).0.0,
            ),
    decreases entries.len(),
{
    if entries.len() > 0 {
        let t = entries.drop_last();
        lemma_hangul_candidates_keys(keys, infos, t, info, before);
        let c = hangul_candidates(keys, infos, entries, info, before);
        assert forall|m: int| 0 <= m < c.len() implies has_key(entries, (#[trigger] c[m]).0.0) by {
            if m < hangul_candidates(keys, infos, t, info, before).len() {
                let i = choose|i: int| 0 <= i < t.len() && t[i].0 == c[m].0.0;
                assert(entries[i].0 == c[m].0.0);
            } else {
                assert(entries[entries.len() - 1].0 == c[m].0.0);
            }
        }
    }
}

/// Every character of `keyed_pairs` comes from `cs`.
pub proof fn lemma_keyed_pairs_from(cmap: Seq<(char, char)>, cs: Seq<char>)
    ensures
        forall|k: int|
            0 <= k < keyed_pairs(cmap, cs).len() ==> exists|m: int|
                0 <= m < cs.len() && #[trigger] keyed_pairs(cmap, cs)[k].0 == cs[m],
    decreases cs.len(),
{
    if cs.len() > 0 {
        let t = cs.drop_last();
        lemma_keyed_pairs_from(cmap, t);
        assert forall|k: int| 0 <= k < keyed_pairs(cmap, cs).len() implies exists|m: int|
            0 <= m < cs.len() && #[trigger] keyed_pairs(cmap, cs)[k].0 == cs[m] by {
            if k < keyed_pairs(cmap, t).len() {
                let m = choose|m: int| 0 <= m < t.len() && #[trigger] keyed_pairs(cmap, t)[k].0 == t[m];
                assert(cs[m] == t[m]);
            } else {
                assert(keyed_pairs(cmap, cs)[k].0 == cs[cs.len() - 1]);
            }
        }
    }
}

/// Every character offered after a layout spell is a layout key.
proof fn lemma_next_hangul_layout(keys: Set<Seq<u8>>, p: Seq<char>)
    requires
        layout_spell(p),
    ensures
        forall|k: int|
            0 <= k < next_hangul_spec(keys, keymap_entries(), second_last_char(p), last_char(p)).len()
                ==> lookup(
                keymap_entries(),
                (#[trigger] next_hangul_spec(keys, keymap_entries(), second_last_char(p), last_char(p))[k]).0,
            ) is Some,
{
    let infos = keymap_entries();
    let c = p.last();
    assert(lookup(infos, p[p.len() - 1]) is Some);
    let info = lookup(infos, c).unwrap();
    let cands = hangul_candidates(keys, infos, infos, info, second_last_char(p));
    let sorted = sort_by_score(cands);
    let out = with_letters(sorted);
    lemma_sort_by_score(cands);
    lemma_with_letters_from(sorted);
    lemma_hangul_candidates_keys(keys, infos, infos, info, second_last_char(p));
    assert forall|k: int| 0 <= k < out.len() implies lookup(infos, (#[trigger] out[k]).0) is Some by {
        let m = choose|m: int| 0 <= m < sorted.len() && #[trigger] out[k].0 == sorted[m].0.0;
        vstd::seq_lib::to_multiset_contains(sorted, sorted[m]);
        vstd::seq_lib::to_multiset_contains(cands, sorted[m]);
        assert(sorted.contains(sorted[m]));
        let j = choose|j: int| 0 <= j < cands.len() && cands[j] == sorted[m];
        assert(has_key(infos, cands[j].0.0));
        lemma_lookup(infos, out[k].0);
    }
}

/// Every spell of the level is a layout spell.
pub open spec fn layout_level(level: Seq<SpellPair>) -> bool {
    forall|i: int| 0 <= i < level.len() ==> layout_spell(#[trigger] level[i].0)
}

proof fn lemma_next_level_layout(keys: Set<Seq<u8>>, levels: Seq<Seq<SpellPair>>)
    requires
        levels.len() > 0 ==> layout_level(levels.last()),
    ensures
        layout_level(hangul_next_level(keys, keymap_entries(), levels)),
{
    let infos = keymap_entries();
    let next = hangul_next_level(keys, infos, levels);
    if levels.len() == 0 {
        let firsts = next_hangul_spec(keys, infos, None, None);
        lemma_keyed_pairs_from(hangul_entries(), first_chars());
        lemma_first_chars_in_keymap();
        assert forall|i: int| 0 <= i < next.len() implies layout_spell(#[trigger] next[i].0) by {
            let m = choose|m: int| 0 <= m < first_chars().len() && #[trigger] firsts[i].0 == first_chars()[m];
            assert(next[i].0 == seq![firsts[i].0]);
            assert(lookup(infos, first_chars()[m]) is Some);
        }
    } else {
        let parents = levels.last();
        let s = parents.map_values(|p: SpellPair| hangul_extensions(keys, infos, p));
        assert forall|k: int| 0 <= k < next.len() implies layout_spell(#[trigger] next[k].0) by {
            lemma_flat_seq_member(s, k);
            let (i, j) = choose|i: int, j: int|
                0 <= i < s.len() && 0 <= j < s[i].len() && flat_seq(s)[k] == #[trigger] s[i][j];
            let p = parents[i];
            assert(layout_spell(p.0));
            lemma_next_hangul_layout(keys, p.0);
            let offered = next_hangul_spec(keys, infos, second_last_char(p.0), last_char(p.0));
            assert(lookup(infos, offered[j].0) is Some);
            let q = p.0.push(offered[j].0);
            assert(s[i][j].0 == q);
            assert forall|x: int| 0 <= x < q.len() implies lookup(infos, #[trigger] q[x]) is Some by {
                if x < p.0.len() {
                    assert(q[x] == p.0[x]);
                }
            }
        }
    }
}

/// Growing from layout spells never needs a missing key.
pub proof fn lemma_grow_hangul_layout(keys: Set<Seq<u8>>, levels: Seq<Seq<SpellPair>>, n: u8)
    requires
        levels.len() > 0 ==> layout_level(levels.last()),
    ensures
        grow_hangul_defined(keys, keymap_entries(), levels, n),
    decreases n - level_count(levels.len()),
{
    if level_count(levels.len()) < n {
        if levels.len() > 0 {
            assert forall|i: int| 0 <= i < levels.last().len() implies next_hangul_defined(
                keymap_entries(),
                second_last_char(#[trigger] levels.last()[i].0),
                last_char(levels.last()[i].0),
            ) by {
                lemma_layout_spell_ready(levels.last()[i].0);
            }
        }
        lemma_next_level_layout(keys, levels);
        lemma_level_count_step(levels.len(), n as int);
        let next = levels.push(hangul_next_level(keys, keymap_entries(), levels));
        assert(next.last() == hangul_next_level(keys, keymap_entries(), levels));
        lemma_grow_hangul_layout(keys, next, n);
    }
}

/// A spell and its letter on one line, separated by a space.
pub open spec fn pair_line(p: SpellPair) -> Seq<char> {
    p.0 + seq![' '] + p.1
}

/// A table of spells with letters as text: each pair on a line of its own, a blank line
/// after each level.
pub open spec fn rendered_pairs(levels: Seq<Seq<SpellPair>>) -> Seq<char> {
    lines(levels.map_values(|l: Seq<SpellPair>| lines(l.map_values(|p: SpellPair| pair_line(p)))))
}

/// The levels that hangul generation produces with the key layout.
pub open spec fn generated_hangul_levels(keys: Set<Seq<u8>>, setting: GenerateSetting) -> Seq<
    Seq<SpellPair>,
> {
    kept_pair_levels(grow_hangul(keys, keymap_entries(), Seq::empty(), setting.len), setting.lenonly)
}

/// One level of pairs as text.
fn render_pairs(l: &Vec<(String, String)>) -> (s: String)
    ensures
        s@ == lines(l.deep_view().map_values(|p: SpellPair| pair_line(p))),
{
    let mut lines_out: Vec<String> = Vec::new();
    let n = l.len();
    let mut i: usize = 0;
    while i < n
        invariant
            n == l@.len(),
            i <= n,
            lines_out@.len() == i,
            forall|k: int| 0 <= k < i ==> (#[trigger] lines_out@[k])@ == pair_line(l@[k].deep_view()),
        decreases n - i,
    {
        let mut line = l[i].0.clone();
        push_char(&mut line, ' ');
        line.append(l[i].1.as_str());
        proof {
            assert(line@ =~= pair_line(l@[i as int].deep_view()));
        }
        lines_out.push(line);
        i = i + 1;
    }
    proof {
        assert(lines_out.deep_view() =~= l.deep_view().map_values(|p: SpellPair| pair_line(p)));
    }
    reduce_lines(&lines_out)
}

/// Generates the spell table of `setting` with the key layout and the hangul letter of
/// each step: the number of entries of each kept level, and the table as text.
pub fn generate_flatlist_with_hangul(setting: &GenerateSetting, hangul_trie: &HangulTrie) -> (r: (
    Vec<u64>,
    String,
))
    requires
        setting.lenonly ==> setting.len > 0,
    ensures
        r.0@.len() == generated_hangul_levels(hangul_trie.keys(), *setting).len(),
        forall|i: int|
            0 <= i < r.0@.len() ==> #[trigger] r.0@[i] == generated_hangul_levels(
                hangul_trie.keys(),
                *setting,
            )[i].len(),
        r.1@ == rendered_pairs(generated_hangul_levels(hangul_trie.keys(), *setting)),
{
    let infos = keymapping();
    let mut spellsbylen: Vec<Vec<(String, String)>> = Vec::new();
    proof {
        assert(spellsbylen.deep_view() =~= Seq::<Seq<SpellPair>>::empty());
        lemma_grow_hangul_layout(hangul_trie.keys(), spellsbylen.deep_view(), setting.len);
    }
    let t = flatlist_go_with_hangul(hangul_trie, setting, &infos, &mut spellsbylen);
    let lengths = len_vec(&t);
    let mut levels_out: Vec<String> = Vec::new();
    let n = t.len();
    let mut i: usize = 0;
    while i < n
        invariant
            n == t@.len(),
            i <= n,
            levels_out@.len() == i,
            forall|k: int|
                0 <= k < i ==> (#[trigger] levels_out@[k])@ == lines(
                    t@[k].deep_view().map_values(|p: SpellPair| pair_line(p)),
                ),
        decreases n - i,
    {
        levels_out.push(render_pairs(&t[i]));
        i = i + 1;
    }
    let content = reduce_lines(&levels_out);
    proof {
        assert(levels_out.deep_view() =~= t.deep_view().map_values(
            |l: Seq<SpellPair>| lines(l.map_values(|p: SpellPair| pair_line(p))),
        ));
        assert forall|i: int| 0 <= i < lengths@.len() implies #[trigger] lengths@[i] == generated_hangul_levels(hangul_trie.keys(), *setting)[i].len() by {
            assert(t.deep_view()[i] == t@[i].deep_view());
        }
    }
    (lengths, content)
}

} // verus!
