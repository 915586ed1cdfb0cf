use vstd::prelude::*;
use vstd::utf8::encode_utf8;
use crate::charmap::{CharMap, lookup};
use crate::encoding::{lemma_byte_prefix_char_prefix, lemma_encode_len, lemma_prefix_char_boundary};
use crate::flat::last_char;
use crate::kagi::{Dan, Kagi, Yubi};
use crate::keymap::{hangul_cmap, hangul_entries};
use crate::score::{clashes, score, score_of, sort_by_score, sort_scored};
use crate::spell::{before_info, first_chars};
use crate::syllable::{lemma_best_of_search, syllable};
use crate::text::{after_prefix, best_of, chars_spacing, findbest_from_queried, spaced, str_chushutu_unique};
use crate::trie::HangulTrie;

verus! {

/// Whether `find_hangul` yields the vowel alone or the whole composed syllable.
#[derive(PartialEq, Eq, Structural, Clone, Copy, Debug)]
pub enum CharComposition {
    Last,
    Complete,
}

/// The vowel that the move from `cur` to `next` stands for.
pub open spec fn vowel_of(cur: Kagi, next: Kagi) -> Option<char> {
    if cur.sayu == next.sayu {
        match next.dan {
            Dan::Chu => match (cur.yubi, next.yubi) {
                (Yubi::Hitosashi, Yubi::Naka) => Some('ㅡ'),
                (Yubi::Hitosashi, Yubi::Kusuri) => Some('ㅢ'),
                (Yubi::Naka, Yubi::Kusuri) => Some('ㅢ'),
                (Yubi::Naka, Yubi::Hitosashi) => Some('ㅡ'),
                (Yubi::Kusuri, Yubi::Naka) => Some('ㅡ'),
                (Yubi::Kusuri, Yubi::Hitosashi) => Some('ㅢ'),
                _ => None,
            },
            Dan::Jo => match (cur.yubi, next.yubi) {
                (Yubi::Hitosashi, Yubi::Naka) => Some('ㅜ'),
                (Yubi::Hitosashi, Yubi::Kusuri) => Some('ㅠ'),
                (Yubi::Naka, Yubi::Kusuri) => Some('ㅠ'),
                (Yubi::Naka, Yubi::Hitosashi) => Some('ㅜ'),
                (Yubi::Kusuri, Yubi::Naka) => Some('ㅜ'),
                (Yubi::Kusuri, Yubi::Hitosashi) => Some('ㅠ'),
                _ => None,
            },
            Dan::Ge => match (cur.yubi, next.yubi) {
                (Yubi::Hitosashi, Yubi::Naka) => Some('ㅗ'),
                (Yubi::Hitosashi, Yubi::Kusuri) => Some('ㅛ'),
                (Yubi::Naka, Yubi::Kusuri) => Some('ㅛ'),
                (Yubi::Naka, Yubi::Hitosashi) => Some('ㅗ'),
                (Yubi::Kusuri, Yubi::Naka) => Some('ㅗ'),
                (Yubi::Kusuri, Yubi::Hitosashi) => Some('ㅛ'),
                _ => None,
            },
        }
    } else {
        match next.dan {
            Dan::Chu => match next.yubi {
                Yubi::Naka => Some('ㅣ'),
                Yubi::Kusuri => Some('ㅏ'),
                Yubi::Hitosashi => Some('ㅓ'),
                _ => None,
            },
            Dan::Jo => match next.yubi {
                Yubi::Kusuri => Some('ㅑ'),
                Yubi::Naka => Some('ㅐ'),
                Yubi::Hitosashi => Some('ㅕ'),
                _ => None,
            },
            Dan::Ge => match next.yubi {
                Yubi::Hitosashi => Some('ㅔ'),
                Yubi::Naka => Some('ㅒ'),
                Yubi::Kusuri => Some('ㅖ'),
                _ => None,
            },
        }
    }
}

/// The vowel that the move from `cur` to `next` stands for.
pub fn vowel(cur: &Kagi, next: &Kagi) -> (v: Option<char>)
    ensures
        v == vowel_of(*cur, *next),
{
    if cur.sayu == next.sayu {
        match next.dan {
            Dan::Chu => match cur.yubi {
                Yubi::Hitosashi => match next.yubi {
                    Yubi::Naka => Some('ㅡ'),
                    Yubi::Kusuri => Some('ㅢ'),
                    _ => None,
                },
                Yubi::Naka => match next.yubi {
                    Yubi::Kusuri => Some('ㅢ'),
                    Yubi::Hitosashi => Some('ㅡ'),
                    _ => None,
                },
                Yubi::Kusuri => match next.yubi {
                    Yubi::Naka => Some('ㅡ'),
                    Yubi::Hitosashi => Some('ㅢ'),
                    _ => None,
                },
                _ => None,
            },
            Dan::Jo => match cur.yubi {
                Yubi::Hitosashi => match next.yubi {
                    Yubi::Naka => Some('ㅜ'),
                    Yubi::Kusuri => Some('ㅠ'),
                    _ => None,
                },
                Yubi::Naka => match next.yubi {
                    Yubi::Kusuri => Some('ㅠ'),
                    Yubi::Hitosashi => Some('ㅜ'),
                    _ => None,
                },
                Yubi::Kusuri => match next.yubi {
                    Yubi::Naka => Some('ㅜ'),
                    Yubi::Hitosashi => Some('ㅠ'),
                    _ => None,
                },
                _ => None,
            },
            Dan::Ge => match cur.yubi {
                Yubi::Hitosashi => match next.yubi {
                    Yubi::Naka => Some('ㅗ'),
                    Yubi::Kusuri => Some('ㅛ'),
                    _ => None,
                },
                Yubi::Naka => match next.yubi {
                    Yubi::Kusuri => Some('ㅛ'),
                    Yubi::Hitosashi => Some('ㅗ'),
                    _ => None,
                },
                Yubi::Kusuri => match next.yubi {
                    Yubi::Naka => Some('ㅗ'),
                    Yubi::Hitosashi => Some('ㅛ'),
                    _ => None,
                },
                _ => None,
            },
        }
    } else {
        match next.dan {
            Dan::Chu => match next.yubi {
                Yubi::Naka => Some('ㅣ'),
                Yubi::Kusuri => Some('ㅏ'),
                Yubi::Hitosashi => Some('ㅓ'),
                _ => None,
            },
            Dan::Jo => match next.yubi {
                Yubi::Kusuri => Some('ㅑ'),
                Yubi::Naka => Some('ㅐ'),
                Yubi::Hitosashi => Some('ㅕ'),
                _ => None,
            },
            Dan::Ge => match next.yubi {
                Yubi::Hitosashi => Some('ㅔ'),
                Yubi::Naka => Some('ㅒ'),
                Yubi::Kusuri => Some('ㅖ'),
                _ => None,
            },
        }
    }
}

/// The last character of a string, if any.
pub fn last_of(s: &String) -> (c: Option<char>)
    ensures
        c == last_char(s@),
{
    let n = s.as_str().unicode_len();
    if n == 0 {
        None
    } else {
        Some(s.as_str().get_char(n - 1))
    }
}

/// What follows the query in the single shortest string found, or nothing when there is
/// no single shortest string: the last character of that rest.
pub open spec fn picked_syllable(query: Seq<char>, found: Seq<Seq<char>>) -> Option<char> {
    match best_of(found) {
        Ok(one) => last_char(after_prefix(query, one)),
        Err(_) => None,
    }
}

/// From the strings a search for `query` found, the last character of what follows the
/// query in the single shortest one; nothing when no single string is shortest.
pub fn pick_syllable(query: &str, found: &Vec<String>) -> (c: Option<char>)
    requires
        encode_utf8(query@).len() <= usize::MAX,
        best_of(found.deep_view()) matches Ok(one) ==> vstd::utf8::is_char_boundary(
            encode_utf8(one),
            encode_utf8(query@).len() as int,
        ),
    ensures
        c == picked_syllable(query@, found.deep_view()),
{
    match findbest_from_queried(found) {
        Ok(one) => {
            let postfix = str_chushutu_unique(query, one.as_str());
            last_of(&postfix)
        },
        Err(_kouho) => None,
    }
}

/// The length of the spaced text.
proof fn lemma_spaced_len(cs: Seq<char>)
    ensures
        spaced(cs).len() <= 2 * cs.len(),
    decreases cs.len(),
{
    if cs.len() > 1 {
        lemma_spaced_len(cs.drop_last());
    }
}

/// The syllable the trie gives for the spaced letters `cs`.
fn syllable_of(hangul_trie: &HangulTrie, cs: &[char]) -> (c: Option<char>)
    requires
        cs@.len() <= 3,
    ensures
        c == syllable(hangul_trie.keys(), spaced(cs@)),
{
    let q = chars_spacing(cs);
    let found = hangul_trie.prefix_search_trie(q.as_str());
    proof {
        lemma_best_of_search(hangul_trie.keys(), q@, found.deep_view());
        lemma_spaced_len(cs@);
        lemma_encode_len(q@);
        if let Ok(one) = best_of(found.deep_view()) {
            lemma_byte_prefix_char_prefix(q@, one);
            lemma_prefix_char_boundary(q@, one);
        }
    }
    pick_syllable(q.as_str(), &found)
}

/// The letter for the key after next: two keys stand for double consonants, every other
/// key for its own consonant.
pub open spec fn final_letter(cmap: Seq<(char, char)>, next: Kagi) -> char {
    if next.ch == 'm' {
        'ㄵ'
    } else if next.ch == 'c' {
        'ㄶ'
    } else {
        lookup(cmap, next.ch).unwrap()
    }
}

/// The hangul letter for a step of a spell. With a key before the current one: the
/// syllable of the consonant of that key, the vowel of its move to the current key, and
/// the letter of the next key. Without: the vowel of the move from the current key to the
/// next alone, or composed with the consonant of the current key.
pub open spec fn find_hangul_spec(
    keys: Set<Seq<u8>>,
    cmap: Seq<(char, char)>,
    infos: Seq<(char, Kagi)>,
    before: Option<char>,
    cur: Kagi,
    next: Kagi,
    composi: CharComposition,
) -> Option<char> {
    match before {
        Some(b) => match vowel_of(lookup(infos, b).unwrap(), cur) {
            Some(v) => syllable(keys, spaced(seq![lookup(cmap, b).unwrap(), v, final_letter(cmap, next)])),
            None => None,
        },
        None => match composi {
            CharComposition::Last => vowel_of(cur, next),
            CharComposition::Complete => match vowel_of(cur, next) {
                None => None,
                Some(v) => syllable(keys, spaced(seq![lookup(cmap, cur.ch).unwrap(), v])),
            },
        },
    }
}

/// The inputs on which `find_hangul` finds every key it looks up.
pub open spec fn find_hangul_defined(
    cmap: Seq<(char, char)>,
    infos: Seq<(char, Kagi)>,
    before: Option<char>,
    cur: Kagi,
    next: Kagi,
    composi: CharComposition,
) -> bool {
    match before {
        Some(b) => {
            &&& lookup(cmap, b) is Some
            &&& lookup(infos, b) is Some
            &&& next.ch != 'm' && next.ch != 'c' ==> lookup(cmap, next.ch) is Some
        },
        None => composi == CharComposition::Complete && vowel_of(cur, next) is Some ==> lookup(
            cmap,
            cur.ch,
        ) is Some,
    }
}

/// The hangul letter for the step from `current_info` to `next_info`, given the key typed
/// before, if any (see `find_hangul_spec`). `nth_next` is the level the step belongs to.
pub fn find_hangul(
    hangul_trie: &HangulTrie,
    hangul_cmap: &CharMap<char>,
    infos: &CharMap<Kagi>,
    nth_next: u32,
    before: Option<char>,
    current_info: &Kagi,
    next_info: &Kagi,
    composi: CharComposition,
) -> (h: Option<char>)
    requires
        find_hangul_defined(hangul_cmap@, infos@, before, *current_info, *next_info, composi),
    ensures
        h == find_hangul_spec(
            hangul_trie.keys(),
            hangul_cmap@,
            infos@,
            before,
            *current_info,
            *next_info,
            composi,
        ),
    decreases (if before is Some { 1int } else { 0int }),
{
    match before {
        Some(before) => {
            let h0 = *hangul_cmap.get(&before).unwrap();
            let before_info = infos.get(&before).unwrap();
            let h1 = find_hangul(
                hangul_trie,
                hangul_cmap,
                infos,
                1,
                None,
                before_info,
                current_info,
                CharComposition::Last,
            );
            let h2 = match next_info.ch {
                'm' => 'ㄵ',
                'c' => 'ㄶ',
                _ => *hangul_cmap.get(&next_info.ch).unwrap(),
            };
            if let Some(h1) = h1 {
                let cs = [h0, h1, h2];
                proof {
                    assert(cs@ == seq![h0, h1, h2]);
                }
                syllable_of(hangul_trie, &cs)
            } else {
                None
            }
        },
        None => {
            let v = vowel(current_info, next_info);
            match composi {
                CharComposition::Last => v,
                CharComposition::Complete => {
                    match v {
                        None => None,
                        Some(v) => {
                            let conso = *hangul_cmap.get(&current_info.ch).unwrap();
                            let cs = [conso, v];
                            proof {
                                assert(cs@ == seq![conso, v]);
                            }
                            syllable_of(hangul_trie, &cs)
                        },
                    }
                },
            }
        },
    }
}

} // verus!

verus! {

/// Each character of `cs` that `cmap` has, with its letter, in the order of `cs`.
pub open spec fn keyed_pairs(cmap: Seq<(char, char)>, cs: Seq<char>) -> Seq<(char, char)>
    decreases cs.len(),
{
    if cs.len() == 0 {
        Seq::empty()
    } else {
        let r = keyed_pairs(cmap, cs.drop_last());
        match lookup(cmap, cs.last()) {
            Some(h) => r.push((cs.last(), h)),
            None => r,
        }
    }
}

/// `v` may come next after `info`, given the key typed before `info`: neither key of the
/// same hand keeps it apart.
pub open spec fn may_follow_hand(v: Kagi, info: Kagi, before: Option<Kagi>) -> bool {
    !(clashes(v, info) || (before matches Some(d) && clashes(d, v)))
}

/// The keys of `entries` that may come next, each with its letter (if the trie gives one)
/// and its cost, in the order of `entries`.
pub open spec fn hangul_candidates(
    keys: Set<Seq<u8>>,
    infos: Seq<(char, Kagi)>,
    entries: Seq<(char, Kagi)>,
    info: Kagi,
    before: Option<char>,
) -> Seq<((char, Option<char>), u32)>
    decreases entries.len(),
{
    if entries.len() == 0 {
        Seq::empty()
    } else {
        let rest = hangul_candidates(keys, infos, entries.drop_last(), info, before);
        let (k, v) = entries.last();
        if may_follow_hand(v, info, before_info(infos, before)) {
            rest.push(
                (
                    (
                        k,
                        find_hangul_spec(
                            keys,
                            hangul_entries(),
                            infos,
                            before,
                            info,
                            v,
                            CharComposition::Complete,
                        ),
                    ),
                    score(v, info),
                ),
            )
        } else {
            rest
        }
    }
}

/// The entries that have a letter, as character and letter.
pub open spec fn with_letters(s: Seq<((char, Option<char>), u32)>) -> Seq<(char, char)>
    decreases s.len(),
{
    if s.len() == 0 {
        Seq::empty()
    } else {
        let r = with_letters(s.drop_last());
        match s.last().0.1 {
            Some(h) => r.push((s.last().0.0, h)),
            None => r,
        }
    }
}

/// The characters that may follow `current` (typed after `before`), cheapest first, each
/// with its hangul letter; those without a letter are left out. With no current character:
/// the starting characters with their consonants.
pub open spec fn next_hangul_spec(
    keys: Set<Seq<u8>>,
    infos: Seq<(char, Kagi)>,
    before: Option<char>,
    current: Option<char>,
) -> Seq<(char, char)> {
    match current {
        None => keyed_pairs(hangul_entries(), first_chars()),
        Some(c) => if infos.len() == 0 {
            Seq::empty()
        } else {
            with_letters(
                sort_by_score(
                    hangul_candidates(keys, infos, infos, lookup(infos, c).unwrap(), before),
                ),
            )
        },
    }
}

/// The inputs on which `next_chars_with_hangul` finds every key it looks up.
pub open spec fn next_hangul_defined(
    infos: Seq<(char, Kagi)>,
    before: Option<char>,
    current: Option<char>,
) -> bool {
    match current {
        None => true,
        Some(c) => infos.len() == 0 || (lookup(infos, c) is Some && forall|i: int|
            0 <= i < infos.len() ==> {
                let v = #[trigger] infos[i].1;
                let info = lookup(infos, c).unwrap();
                &&& (!clashes(v, info) && before is Some) ==> before_info(infos, before) is Some
                &&& may_follow_hand(v, info, before_info(infos, before)) ==> find_hangul_defined(
                    hangul_entries(),
                    infos,
                    before,
                    info,
                    v,
                    CharComposition::Complete,
                )
            }),
    }
}

/// The characters that may follow `current` (typed after `before`), ordered by cost, each
/// with the hangul letter of the step; `nth_next` is the level the step belongs to.
pub fn next_chars_with_hangul(
    hangul_trie: &HangulTrie,
    nth_next: u32,
    before: Option<char>,
    current: Option<char>,
    infos: &CharMap<Kagi>,
) -> (r: Vec<(char, char)>)
    requires
        next_hangul_defined(infos@, before, current),
    ensures
        r@ == next_hangul_spec(hangul_trie.keys(), infos@, before, current),
{
    let hangul_cmap = hangul_cmap();
    match current {
        None => {
            let cs = ['k', 'd', 'j', 'f', 'l', 's', 'i', 'e', 'r', 'u', 'm', 'c', 'o', 'w', 'n', 'x', 'v', 'z'];
            let mut r: Vec<(char, char)> = Vec::new();
            let mut i: usize = 0;
            while i < 18
                invariant
                    cs@ == first_chars(),
                    hangul_cmap@ == hangul_entries(),
                    i <= 18,
                    r@ == keyed_pairs(hangul_entries(), first_chars().take(i as int)),
                decreases 18 - i,
            {
                let c = cs[i];
                proof {
                    assert(first_chars().take(i + 1).drop_last() == first_chars().take(i as int));
                    assert(first_chars().take(i + 1).last() == c);
                }
                match hangul_cmap.get(&c) {
                    Some(h) => r.push((c, *h)),
                    None => {},
                }
                i = i + 1;
            }
            proof {
                assert(first_chars().take(18) == first_chars());
            }
            r
        },
        Some(cur) => {
            let entries = infos.as_vec();
            let n = entries.len();
            let mut scored: Vec<((char, Option<char>), u32)> = Vec::new();
            if n > 0 {
                let info: Kagi = *infos.get(&cur).unwrap();
                let ghost bk = before_info(infos@, before);
                let mut i: usize = 0;
                while i < n
                    invariant
                        n == entries@.len(),
                        entries@ == infos@,
                        hangul_cmap@ == hangul_entries(),
                        i <= n,
                        lookup(infos@, cur) == Some(info),
                        bk == before_info(infos@, before),
                        next_hangul_defined(infos@, before, Some(cur)),
                        scored@ == hangul_candidates(
                            hangul_trie.keys(),
                            infos@,
                            entries@.take(i as int),
                            info,
                            before,
                        ),
                    decreases n - i,
                {
                    let (k, v) = entries[i];
                    proof {
                        assert(infos@[i as int].1 == v);
                    }
                    let clash = v.sayu == info.sayu && (v.yubi == info.yubi || (v.dan == Dan::Jo
                        && info.dan == Dan::Ge) || (v.dan == Dan::Ge && info.dan == Dan::Jo));
                    let ok = if clash {
                        false
                    } else {
                        match before {
                            None => true,
                            Some(b) => {
                                let d: Kagi = *infos.get(&b).unwrap();
                                !(d.sayu == v.sayu && (d.yubi == v.yubi || (d.dan == Dan::Jo && v.dan
                                    == Dan::Ge) || (d.dan == Dan::Ge && v.dan == Dan::Jo)))
                            },
                        }
                    };
                    proof {
                        assert(entries@.take(i + 1).drop_last() == entries@.take(i as int));
                        assert(entries@.take(i + 1).last() == (k, v));
                    }
                    if ok {
                        let basescore = score_of(&v, &info);
                        let hangul = find_hangul(
                            hangul_trie,
                            &hangul_cmap,
                            infos,
                            nth_next,
                            before,
                            &info,
                            &v,
                            CharComposition::Complete,
                        );
                        scored.push(((k, hangul), basescore));
                    }
                    i = i + 1;
                }
                proof {
                    assert(entries@.take(n as int) == entries@);
                }
            }
            let sorted = sort_scored(&scored);
            let mut r: Vec<(char, char)> = Vec::new();
            let m = sorted.len();
            let mut j: usize = 0;
            while j < m
                invariant
                    m == sorted@.len(),
                    j <= m,
                    r@ == with_letters(sorted@.take(j as int)),
                decreases m - j,
            {
                let (c, _s) = sorted[j];
                proof {
                    assert(sorted@.take(j + 1).drop_last() == sorted@.take(j as int));
                }
                if let Some(h) = c.1 {
                    r.push((c.0, h));
                }
                j = j + 1;
            }
            proof {
                assert(sorted@.take(m as int) == sorted@);
            }
            r
        },
    }
}

} // verus!

verus! {

/// A placeholder table: a single spell `kari`, whatever the spells given.
pub fn add_hangul(spells: Vec<Vec<String>>) -> (r: Vec<Vec<String>>)
    ensures
        r.deep_view() == seq![seq![seq!['k', 'a', 'r', 'i']]],
{
    let mut inner: Vec<String> = Vec::new();
    let mut kari = String::new();
    kari.append("kari");
    proof {
        reveal_strlit("kari");
        assert(kari@ =~= seq!['k', 'a', 'r', 'i']);
    }
    inner.push(kari);
    proof {
        assert(inner.deep_view() =~= seq![seq!['k', 'a', 'r', 'i']]);
    }
    let mut r: Vec<Vec<String>> = Vec::new();
    r.push(inner);
    proof {
        assert(r.deep_view() =~= seq![seq![seq!['k', 'a', 'r', 'i']]]);
    }
    r
}

/// A placeholder translation: `lsdf`, whatever the spell.
pub fn traslate_in_hangul(spell: &str) -> (r: String)
    ensures
        r@ == seq!['l', 's', 'd', 'f'],
{
    let mut r = String::new();
    r.append("lsdf");
    proof {
        reveal_strlit("lsdf");
        assert(r@ =~= seq!['l', 's', 'd', 'f']);
    }
    r
}

} // verus!
