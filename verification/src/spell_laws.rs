use vstd::prelude::*;
use crate::charmap::{distinct_keys, lemma_lookup, lookup};
use crate::hangul_laws::keep_apart;
use crate::kagi::{Dan, Kagi, Sayu, Yubi, row_height};
use crate::keymap::keymap_entries;
use crate::score::{lemma_sort_by_score, score, score_sorted, sort_by_score};
use crate::spell::{before_info, candidates, chars_of, first_chars, may_follow, next_chars_spec};

verus! {

/// The layout: on the left hand w e r over s d f over z x c, on the right hand u i o over
/// j k l over m n v, struck by the ring, middle and index fingers as on a keyboard (the
/// index finger nearest the middle of the board).
pub proof fn law_layout_table()
    ensures
        lookup(keymap_entries(), 'w') == Some(Kagi { ch: 'w', yubi: Yubi::Kusuri, dan: Dan::Jo, sayu: Sayu::Left }),
        lookup(keymap_entries(), 'e') == Some(Kagi { ch: 'e', yubi: Yubi::Naka, dan: Dan::Jo, sayu: Sayu::Left }),
        lookup(keymap_entries(), 'r') == Some(Kagi { ch: 'r', yubi: Yubi::Hitosashi, dan: Dan::Jo, sayu: Sayu::Left }),
        lookup(keymap_entries(), 's') == Some(Kagi { ch: 's', yubi: Yubi::Kusuri, dan: Dan::Chu, sayu: Sayu::Left }),
        lookup(keymap_entries(), 'd') == Some(Kagi { ch: 'd', yubi: Yubi::Naka, dan: Dan::Chu, sayu: Sayu::Left }),
        lookup(keymap_entries(), 'f') == Some(Kagi { ch: 'f', yubi: Yubi::Hitosashi, dan: Dan::Chu, sayu: Sayu::Left }),
        lookup(keymap_entries(), 'z') == Some(Kagi { ch: 'z', yubi: Yubi::Kusuri, dan: Dan::Ge, sayu: Sayu::Left }),
        lookup(keymap_entries(), 'x') == Some(Kagi { ch: 'x', yubi: Yubi::Naka, dan: Dan::Ge, sayu: Sayu::Left }),
        lookup(keymap_entries(), 'c') == Some(Kagi { ch: 'c', yubi: Yubi::Hitosashi, dan: Dan::Ge, sayu: Sayu::Left }),
        lookup(keymap_entries(), 'u') == Some(Kagi { ch: 'u', yubi: Yubi::Hitosashi, dan: Dan::Jo, sayu: Sayu::Right }),
        lookup(keymap_entries(), 'i') == Some(Kagi { ch: 'i', yubi: Yubi::Naka, dan: Dan::Jo, sayu: Sayu::Right }),
        lookup(keymap_entries(), 'o') == Some(Kagi { ch: 'o', yubi: Yubi::Kusuri, dan: Dan::Jo, sayu: Sayu::Right }),
        lookup(keymap_entries(), 'j') == Some(Kagi { ch: 'j', yubi: Yubi::Hitosashi, dan: Dan::Chu, sayu: Sayu::Right }),
        lookup(keymap_entries(), 'k') == Some(Kagi { ch: 'k', yubi: Yubi::Naka, dan: Dan::Chu, sayu: Sayu::Right }),
        lookup(keymap_entries(), 'l') == Some(Kagi { ch: 'l', yubi: Yubi::Kusuri, dan: Dan::Chu, sayu: Sayu::Right }),
        lookup(keymap_entries(), 'm') == Some(Kagi { ch: 'm', yubi: Yubi::Hitosashi, dan: Dan::Ge, sayu: Sayu::Right }),
        lookup(keymap_entries(), 'n') == Some(Kagi { ch: 'n', yubi: Yubi::Naka, dan: Dan::Ge, sayu: Sayu::Right }),
        lookup(keymap_entries(), 'v') == Some(Kagi { ch: 'v', yubi: Yubi::Kusuri, dan: Dan::Ge, sayu: Sayu::Right }),
        keymap_entries().len() == 18,
{
    reveal_with_fuel(lookup, 19);
}

/// The cost of typing `v` after `info`. On the home row the middle finger costs 0, the
/// index finger 10, the ring finger 20 and any other finger 30; on the upper row the middle
/// finger costs 100, the index finger 300 on the left hand and 450 on the right, any other
/// finger 400; on the lower row the index finger costs 200, the middle finger 500, the ring
/// finger 600, any other finger 1000. Staying on the same hand adds 1, or 11 for the upper
/// row under the ring finger.
pub proof fn law_step_cost(v: Kagi, info: Kagi)
    ensures
        score(v, info) == (match v.dan {
            Dan::Chu => match v.yubi {
                Yubi::Naka => 0int,
                Yubi::Hitosashi => 10,
                Yubi::Kusuri => 20,
                _ => 30,
            },
            Dan::Jo => match v.yubi {
                Yubi::Naka => 100int,
                Yubi::Hitosashi => if v.sayu == Sayu::Left {
                    300int
                } else {
                    450
                },
                _ => 400,
            },
            Dan::Ge => match v.yubi {
                Yubi::Hitosashi => 200int,
                Yubi::Naka => 500,
                Yubi::Kusuri => 600,
                _ => 1000,
            },
        }) + if v.sayu != info.sayu {
            0int
        } else if v.dan == Dan::Jo && v.yubi == Yubi::Kusuri {
            11
        } else {
            1
        },
{
}

/// With no current key, `next_chars` offers the starting keys, cheapest first:
/// k d j f l s i e r u m c o w n x v z.
pub proof fn law_first_characters(infos: Seq<(char, Kagi)>, before: Option<char>)
    ensures
        next_chars_spec(infos, before, None) == seq![
            'k', 'd', 'j', 'f', 'l', 's', 'i', 'e', 'r', 'u', 'm', 'c', 'o', 'w', 'n', 'x', 'v', 'z'
        ],
{
}

/// A key is a candidate exactly when some entry for it may follow.
proof fn lemma_candidates_members(entries: Seq<(char, Kagi)>, info: Kagi, before: Option<Kagi>, k: char)
    ensures
        (exists|j: int|
            0 <= j < candidates(entries, info, before).len() && (
            #[trigger] candidates(entries, info, before)[j]).0 == k) <==> (exists|i: int|
            0 <= i < entries.len() && (#[trigger] entries[i]).0 == k && may_follow(
                entries[i].1,
                info,
                before,
            )),
    decreases entries.len(),
{
    if entries.len() > 0 {
        let t = entries.drop_last();
        lemma_candidates_members(t, info, before, k);
        let c = candidates(entries, info, before);
        let r = candidates(t, info, before);
        if may_follow(entries.last().1, info, before) {
            assert(c.drop_last() == r);
        } else {
            assert(c == r);
        }
        if exists|j: int| 0 <= j < c.len() && (#[trigger] c[j]).0 == k {
            let j = choose|j: int| 0 <= j < c.len() && (#[trigger] c[j]).0 == k;
            if j < r.len() {
                assert(c[j] == r[j]);
                let i = choose|i: int|
                    0 <= i < t.len() && (#[trigger] t[i]).0 == k && may_follow(t[i].1, info, before);
                assert(entries[i] == t[i]);
            } else {
                assert(entries[entries.len() - 1].0 == k);
            }
        }
        if exists|i: int|
            0 <= i < entries.len() && (#[trigger] entries[i]).0 == k && may_follow(
                entries[i].1,
                info,
                before,
            ) {
            let i = choose|i: int|
                0 <= i < entries.len() && (#[trigger] entries[i]).0 == k && may_follow(
                    entries[i].1,
                    info,
                    before,
                );
            if i < t.len() {
                assert(t[i] == entries[i]);
                let j = choose|j: int| 0 <= j < r.len() && (#[trigger] r[j]).0 == k;
                assert(c[j] == r[j]);
            } else {
                assert(c[c.len() - 1].0 == k);
            }
        }
    }
}

/// Sorting by score keeps the entries: an entry with first part `a` is there before
/// sorting exactly when it is there after.
pub proof fn lemma_sort_members<A>(s: Seq<(A, u32)>, a: A)
    ensures
        (exists|j: int| 0 <= j < s.len() && (#[trigger] s[j]).0 == a) <==> (exists|j: int|
            0 <= j < sort_by_score(s).len() && (#[trigger] sort_by_score(s)[j]).0 == a),
{
    broadcast use vstd::seq_lib::group_to_multiset_ensures;
    lemma_sort_by_score(s);
    let t = sort_by_score(s);
    if exists|j: int| 0 <= j < s.len() && (#[trigger] s[j]).0 == a {
        let j = choose|j: int| 0 <= j < s.len() && (#[trigger] s[j]).0 == a;
        assert(s.contains(s[j]));
        assert(t.to_multiset().count(s[j]) > 0);
        assert(t.contains(s[j]));
        let i = choose|i: int| 0 <= i < t.len() && t[i] == s[j];
        assert(t[i].0 == a);
    }
    if exists|j: int| 0 <= j < t.len() && (#[trigger] t[j]).0 == a {
        let j = choose|j: int| 0 <= j < t.len() && (#[trigger] t[j]).0 == a;
        assert(t.contains(t[j]));
        assert(s.to_multiset().count(t[j]) > 0);
        assert(s.contains(t[j]));
        let i = choose|i: int| 0 <= i < s.len() && s[i] == t[j];
        assert(s[i].0 == a);
    }
}

/// The characters `next_chars` offers after `current`, typed after `before`: exactly the
/// keys that do not keep apart from the current key (the same finger, or the upper and
/// the lower row, of one hand) and that the key before does not rule out; the key before
/// rules out its own finger and, across the upper and the lower row, of either hand.
pub proof fn law_next_chars_members(infos: Seq<(char, Kagi)>, before: Option<char>, c: char, k: char)
    requires
        distinct_keys(infos),
        lookup(infos, c) is Some,
        before matches Some(b) ==> lookup(infos, b) is Some,
    ensures
        next_chars_spec(infos, before, Some(c)).contains(k) <==> {
            &&& lookup(infos, k) is Some
            &&& !keep_apart(lookup(infos, k).unwrap(), lookup(infos, c).unwrap())
            &&& (before matches Some(b) ==> {
                let d = lookup(infos, b).unwrap();
                let v = lookup(infos, k).unwrap();
                !(d.yubi == v.yubi || (d.dan == Dan::Jo && v.dan == Dan::Ge) || (d.dan == Dan::Ge
                    && v.dan == Dan::Jo))
            })
        },
{
    let info = lookup(infos, c).unwrap();
    lemma_lookup(infos, c);
    lemma_lookup(infos, k);
    assert(infos.len() > 0);
    let cand = candidates(infos, info, before_info(infos, before));
    let sorted = sort_by_score(cand);
    let r = next_chars_spec(infos, before, Some(c));
    assert(r == chars_of(sorted));
    lemma_sort_members(cand, k);
    lemma_candidates_members(infos, info, before_info(infos, before), k);
    if r.contains(k) {
        let j = choose|j: int| 0 <= j < r.len() && r[j] == k;
        assert(sorted[j].0 == k);
    }
    if exists|j: int| 0 <= j < sorted.len() && (#[trigger] sorted[j]).0 == k {
        let j = choose|j: int| 0 <= j < sorted.len() && (#[trigger] sorted[j]).0 == k;
        assert(r[j] == k);
    }
    if lookup(infos, k) is Some {
        let i = choose|i: int| 0 <= i < infos.len() && infos[i].0 == k;
        assert(lookup(infos, k) == Some(infos[i].1));
        if exists|i2: int|
            0 <= i2 < infos.len() && (#[trigger] infos[i2]).0 == k && may_follow(
                infos[i2].1,
                info,
                before_info(infos, before),
            ) {
            let i2 = choose|i2: int|
                0 <= i2 < infos.len() && (#[trigger] infos[i2]).0 == k && may_follow(
                    infos[i2].1,
                    info,
                    before_info(infos, before),
                );
            assert(i2 == i);
        }
    }
}

/// Every candidate carries the cost of typing its key after the current one.
proof fn lemma_candidates_cost(
    infos: Seq<(char, Kagi)>,
    entries: Seq<(char, Kagi)>,
    info: Kagi,
    before: Option<Kagi>,
)
    requires
        forall|i: int| 0 <= i < entries.len() ==> lookup(infos, #[trigger] entries[i].0) == Some(entries[i].1),
    ensures
        forall|m: int|
            0 <= m < candidates(entries, info, before).len() ==> (#[trigger] candidates(
                entries,
                info,
                before,
            )[m]).1 == score(lookup(infos, candidates(entries, info, before)[m].0).unwrap(), info),
    decreases entries.len(),
{
    if entries.len() > 0 {
        let t = entries.drop_last();
        assert forall|i: int| 0 <= i < t.len() implies lookup(infos, #[trigger] t[i].0) == Some(t[i].1) by {
            assert(t[i] == entries[i]);
        }
        lemma_candidates_cost(infos, t, info, before);
        assert(lookup(infos, entries[entries.len() - 1].0) == Some(entries[entries.len() - 1].1));
        let c = candidates(entries, info, before);
        let r = candidates(t, info, before);
        assert forall|m: int| 0 <= m < c.len() implies (#[trigger] c[m]).1 == score(
            lookup(infos, c[m].0).unwrap(),
            info,
        ) by {
            if m < r.len() {
                assert(c[m] == r[m]);
            }
        }
    }
}

/// `next_chars` offers the keys cheapest first: along what it offers after a current key,
/// the cost of typing each key after the current one never decreases.
pub proof fn law_next_chars_cheapest_first(
    infos: Seq<(char, Kagi)>,
    before: Option<char>,
    c: char,
    i: int,
    j: int,
)
    requires
        distinct_keys(infos),
        lookup(infos, c) is Some,
        0 <= i <= j < next_chars_spec(infos, before, Some(c)).len(),
    ensures
        score(
            lookup(infos, next_chars_spec(infos, before, Some(c))[i]).unwrap(),
            lookup(infos, c).unwrap(),
        ) <= score(
            lookup(infos, next_chars_spec(infos, before, Some(c))[j]).unwrap(),
            lookup(infos, c).unwrap(),
        ),
{
    broadcast use vstd::seq_lib::group_to_multiset_ensures;
    let info = lookup(infos, c).unwrap();
    lemma_lookup(infos, c);
    assert(infos.len() > 0);
    assert forall|n: int| 0 <= n < infos.len() implies lookup(infos, #[trigger] infos[n].0) == Some(infos[n].1) by {
        lemma_lookup(infos, infos[n].0);
    }
    let cand = candidates(infos, info, before_info(infos, before));
    let sorted = sort_by_score(cand);
    lemma_sort_by_score(cand);
    lemma_candidates_cost(infos, infos, info, before_info(infos, before));
    let r = next_chars_spec(infos, before, Some(c));
    assert(r == chars_of(sorted));
    assert(r[i] == sorted[i].0 && r[j] == sorted[j].0);
    assert(sorted[i].1 <= sorted[j].1);
    vstd::seq_lib::to_multiset_contains(sorted, sorted[i]);
    vstd::seq_lib::to_multiset_contains(cand, sorted[i]);
    assert(sorted.contains(sorted[i]));
    assert(cand.contains(sorted[i]));
    let mi = choose|m: int| 0 <= m < cand.len() && cand[m] == sorted[i];
    vstd::seq_lib::to_multiset_contains(sorted, sorted[j]);
    vstd::seq_lib::to_multiset_contains(cand, sorted[j]);
    assert(sorted.contains(sorted[j]));
    assert(cand.contains(sorted[j]));
    let mj = choose|m: int| 0 <= m < cand.len() && cand[m] == sorted[j];
    assert(cand[mi].1 == score(lookup(infos, cand[mi].0).unwrap(), info));
    assert(cand[mj].1 == score(lookup(infos, cand[mj].0).unwrap(), info));
}

/// The rows by height: the lower row 0, the home row 1, the upper row 2.
pub proof fn law_row_heights()
    ensures
        row_height(Dan::Ge) == 0,
        row_height(Dan::Chu) == 1,
        row_height(Dan::Jo) == 2,
{
}

} // verus!
