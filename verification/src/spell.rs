use vstd::prelude::*;
use crate::charmap::{CharMap, has_key, lemma_lookup, lookup};
use crate::kagi::{Dan, Kagi};
use crate::score::{
    blocked_by, clashes, lemma_sort_by_score, score, score_of, sort_by_score, sort_scored,
};
use crate::text::push_char;

verus! {

/// Every candidate is a key of the entries.
pub proof fn lemma_candidates_keys(entries: Seq<(char, Kagi)>, info: Kagi, before: Option<Kagi>)
    ensures
        forall|m: int|
            0 <= m < candidates(entries, info, before).len() ==> has_key(
                entries,
                #[trigger] candidates(entries, info, before)[m].0,
            ),
    decreases entries.len(),
{
    if entries.len() > 0 {
        let t = entries.drop_last();
        lemma_candidates_keys(t, info, before);
        let c = candidates(entries, info, before);
        assert forall|m: int| 0 <= m < c.len() implies has_key(entries, #[trigger] c[m].0) by {
            if m < candidates(t, info, before).len() {
                let i = choose|i: int| 0 <= i < t.len() && t[i].0 == c[m].0;
                assert(entries[i].0 == c[m].0);
            } else {
                assert(entries[entries.len() - 1].0 == c[m].0);
            }
        }
    }
}

/// Every character that `next_chars` offers after a current character is a key.
pub proof fn lemma_next_chars_keys(infos: Seq<(char, Kagi)>, before: Option<char>, current: char)
    ensures
        forall|k: int|
            0 <= k < next_chars_spec(infos, before, Some(current)).len() ==> lookup(
                infos,
                #[trigger] next_chars_spec(infos, before, Some(current))[k],
            ) is Some,
{
    if infos.len() > 0 {
        let cands = candidates(infos, lookup(infos, current).unwrap(), before_info(infos, before));
        let sorted = sort_by_score(cands);
        lemma_sort_by_score(cands);
        lemma_candidates_keys(infos, lookup(infos, current).unwrap(), before_info(infos, before));
        assert forall|k: int| 0 <= k < sorted.len() implies lookup(infos, #[trigger] sorted[k].0) is Some by {
            vstd::seq_lib::to_multiset_contains(sorted, sorted[k]);
            vstd::seq_lib::to_multiset_contains(cands, sorted[k]);
            assert(sorted.contains(sorted[k]));
            let m = choose|m: int| 0 <= m < cands.len() && cands[m] == sorted[k];
            assert(has_key(infos, cands[m].0));
            lemma_lookup(infos, sorted[k].0);
        }
    }
}

/// The characters a spell may start with, cheapest first.
pub open spec fn first_chars() -> Seq<char> {
    seq!['k', 'd', 'j', 'f', 'l', 's', 'i', 'e', 'r', 'u', 'm', 'c', 'o', 'w', 'n', 'x', 'v', 'z']
}

/// `v` may come next after `info`, given the key typed before `info`, if any.
pub open spec fn may_follow(v: Kagi, info: Kagi, before: Option<Kagi>) -> bool {
    !(clashes(v, info) || (before matches Some(d) && blocked_by(d, v)))
}

/// The keys of `entries` that may come next, each with its cost, in the order of
/// `entries`.
pub open spec fn candidates(entries: Seq<(char, Kagi)>, info: Kagi, before: Option<Kagi>) -> Seq<
    (char, u32),
>
    decreases entries.len(),
{
    if entries.len() == 0 {
        Seq::empty()
    } else {
        let rest = candidates(entries.drop_last(), info, before);
        let (k, v) = entries.last();
        if may_follow(v, info, before) {
            rest.push((k, score(v, info)))
        } else {
            rest
        }
    }
}

/// The characters of scored entries.
pub open spec fn chars_of(s: Seq<(char, u32)>) -> Seq<char> {
    s.map_values(|p: (char, u32)| p.0)
}

/// The key typed two steps back, looked up by its character.
pub open spec fn before_info(infos: Seq<(char, Kagi)>, before: Option<char>) -> Option<Kagi> {
    match before {
        None => None,
        Some(b) => lookup(infos, b),
    }
}

/// The characters that may follow `current` (typed after `before`), cheapest first;
/// with no current character, the characters a spell starts with.
pub open spec fn next_chars_spec(
    infos: Seq<(char, Kagi)>,
    before: Option<char>,
    current: Option<char>,
) -> Seq<char> {
    match current {
        None => first_chars(),
        Some(c) => if infos.len() == 0 {
            Seq::empty()
        } else {
            chars_of(
                sort_by_score(
                    candidates(infos, lookup(infos, c).unwrap(), before_info(infos, before)),
                ),
            )
        },
    }
}

/// The inputs on which `next_chars` finds every key it looks up: the current character
/// whenever the map has an entry, and the character before it whenever some key does not
/// clash with the current one.
pub open spec fn next_chars_defined(
    infos: Seq<(char, Kagi)>,
    before: Option<char>,
    current: Option<char>,
) -> bool {
    match current {
        None => true,
        Some(c) => infos.len() == 0 || (lookup(infos, c) is Some && ((before is Some && exists|
            i: int,
        | 0 <= i < infos.len() && !clashes(infos[i].1, lookup(infos, c).unwrap()))
            ==> before_info(infos, before) is Some)),
    }
}

/// The characters that may follow `current` (typed after `before`), ordered by cost.
pub fn next_chars(before: Option<char>, current: Option<char>, infos: &CharMap<Kagi>) -> (s:
    String)
    requires
        next_chars_defined(infos@, before, current),
    ensures
        s@ == next_chars_spec(infos@, before, current),
{
    match current {
        None => {
            let mut s = String::new();
            let cs = ['k', 'd', 'j', 'f', 'l', 's', 'i', 'e', 'r', 'u', 'm', 'c', 'o', 'w', 'n', 'x', 'v', 'z'];
            let mut i: usize = 0;
            while i < 18
                invariant
                    cs@ == first_chars(),
                    i <= 18,
                    s@ == first_chars().take(i as int),
                decreases 18 - i,
            {
                push_char(&mut s, cs[i]);
                proof {
                    assert(first_chars().take(i + 1) == first_chars().take(i as int).push(cs@[i as int]));
                }
                i = i + 1;
            }
            proof {
                assert(first_chars().take(18) == first_chars());
            }
            s
        },
        Some(cur) => {
            let entries = infos.as_vec();
            let n = entries.len();
            let mut cands: Vec<(char, u32)> = Vec::new();
            if n > 0 {
                let info: Kagi = *infos.get(&cur).unwrap();
                let ghost bk = before_info(infos@, before);
                let mut i: usize = 0;
                while i < n
                    invariant
                        n == entries@.len(),
                        entries@ == infos@,
                        i <= n,
                        lookup(infos@, cur) == Some(info),
                        bk == before_info(infos@, before),
                        next_chars_defined(infos@, before, Some(cur)),
                        cands@ == candidates(entries@.take(i as int), info, bk),
                    decreases n - i,
                {
                    let (k, v) = entries[i];
                    let clash = v.sayu == info.sayu && (v.yubi == info.yubi || (v.dan == Dan::Jo
                        && info.dan == Dan::Ge) || (v.dan == Dan::Ge && info.dan
                        == Dan::Jo));
                    let ok = if clash {
                        false
                    } else {
                        match before {
                            None => true,
                            Some(b) => {
                                proof {
                                    assert(!clashes(infos@[i as int].1, info));
                                }
                                let d: Kagi = *infos.get(&b).unwrap();
                                !(d.yubi == v.yubi || (d.dan == Dan::Jo && v.dan
                                    == Dan::Ge) || (d.dan == Dan::Ge && v.dan
                                    == Dan::Jo))
                            },
                        }
                    };
                    proof {
                        assert(entries@.take(i + 1).drop_last() == entries@.take(i as int));
                        assert(entries@.take(i + 1).last() == (k, v));
                    }
                    if ok {
                        let sc = score_of(&v, &info);
                        cands.push((k, sc));
                    }
                    i = i + 1;
                }
                proof {
                    assert(entries@.take(n as int) == entries@);
                }
            }
            let sorted = sort_scored(&cands);
            let mut s = String::new();
            let m = sorted.len();
            let mut j: usize = 0;
            while j < m
                invariant
                    m == sorted@.len(),
                    j <= m,
                    s@ == chars_of(sorted@.take(j as int)),
                decreases m - j,
            {
                push_char(&mut s, sorted[j].0);
                proof {
                    assert(chars_of(sorted@.take(j + 1)) == chars_of(sorted@.take(j as int)).push(sorted@[j as int].0));
                }
                j = j + 1;
            }
            proof {
                assert(sorted@.take(m as int) == sorted@);
            }
            s
        },
    }
}

} // verus!
