use vstd::prelude::*;
use crate::charmap::{CharMap, distinct_keys, lemma_from_seq_distinct};
use crate::kagi::{Dan, Kagi, Sayu, Yubi};

verus! {

/// The keys of the layout, in the order the layout lists them.
pub open spec fn keymap_entries() -> Seq<(char, Kagi)> {
    seq![
        ('w', Kagi { ch: 'w', yubi: Yubi::Kusuri, dan: Dan::Jo, sayu: Sayu::Left }),
        ('e', Kagi { ch: 'e', yubi: Yubi::Naka, dan: Dan::Jo, sayu: Sayu::Left }),
        ('r', Kagi { ch: 'r', yubi: Yubi::Hitosashi, dan: Dan::Jo, sayu: Sayu::Left }),
        ('s', Kagi { ch: 's', yubi: Yubi::Kusuri, dan: Dan::Chu, sayu: Sayu::Left }),
        ('d', Kagi { ch: 'd', yubi: Yubi::Naka, dan: Dan::Chu, sayu: Sayu::Left }),
        ('f', Kagi { ch: 'f', yubi: Yubi::Hitosashi, dan: Dan::Chu, sayu: Sayu::Left }),
        ('z', Kagi { ch: 'z', yubi: Yubi::Kusuri, dan: Dan::Ge, sayu: Sayu::Left }),
        ('x', Kagi { ch: 'x', yubi: Yubi::Naka, dan: Dan::Ge, sayu: Sayu::Left }),
        ('c', Kagi { ch: 'c', yubi: Yubi::Hitosashi, dan: Dan::Ge, sayu: Sayu::Left }),
        ('u', Kagi { ch: 'u', yubi: Yubi::Hitosashi, dan: Dan::Jo, sayu: Sayu::Right }),
        ('i', Kagi { ch: 'i', yubi: Yubi::Naka, dan: Dan::Jo, sayu: Sayu::Right }),
        ('o', Kagi { ch: 'o', yubi: Yubi::Kusuri, dan: Dan::Jo, sayu: Sayu::Right }),
        ('j', Kagi { ch: 'j', yubi: Yubi::Hitosashi, dan: Dan::Chu, sayu: Sayu::Right }),
        ('k', Kagi { ch: 'k', yubi: Yubi::Naka, dan: Dan::Chu, sayu: Sayu::Right }),
        ('l', Kagi { ch: 'l', yubi: Yubi::Kusuri, dan: Dan::Chu, sayu: Sayu::Right }),
        ('m', Kagi { ch: 'm', yubi: Yubi::Hitosashi, dan: Dan::Ge, sayu: Sayu::Right }),
        ('n', Kagi { ch: 'n', yubi: Yubi::Naka, dan: Dan::Ge, sayu: Sayu::Right }),
        ('v', Kagi { ch: 'v', yubi: Yubi::Kusuri, dan: Dan::Ge, sayu: Sayu::Right }),
    ]
}

/// The position of a layout key in `keymap_entries`.
spec fn keymap_index(c: char) -> int {
    match c {
        'w' => 0,
        'e' => 1,
        'r' => 2,
        's' => 3,
        'd' => 4,
        'f' => 5,
        'z' => 6,
        'x' => 7,
        'c' => 8,
        'u' => 9,
        'i' => 10,
        'o' => 11,
        'j' => 12,
        'k' => 13,
        'l' => 14,
        'm' => 15,
        'n' => 16,
        'v' => 17,
        _ => -1,
    }
}

pub proof fn lemma_keymap_distinct()
    ensures
        distinct_keys(keymap_entries()),
{
    let s = keymap_entries();
    assert forall|i: int| 0 <= i < s.len() implies keymap_index(#[trigger] s[i].0) == i by {
        if i == 0 {
        } else         if i == 1 {
        } else         if i == 2 {
        } else         if i == 3 {
        } else         if i == 4 {
        } else         if i == 5 {
        } else         if i == 6 {
        } else         if i == 7 {
        } else         if i == 8 {
        } else         if i == 9 {
        } else         if i == 10 {
        } else         if i == 11 {
        } else         if i == 12 {
        } else         if i == 13 {
        } else         if i == 14 {
        } else         if i == 15 {
        } else         if i == 16 {
        } else         if i == 17 {
        }
    }
}

/// The key layout: eighteen keys, three fingers per hand on three rows.
pub fn keymapping() -> (m: CharMap<Kagi>)
    ensures
        m@ == keymap_entries(),
{
    let v = vec![
        ('w', Kagi { ch: 'w', yubi: Yubi::Kusuri, dan: Dan::Jo, sayu: Sayu::Left }),
        ('e', Kagi { ch: 'e', yubi: Yubi::Naka, dan: Dan::Jo, sayu: Sayu::Left }),
        ('r', Kagi { ch: 'r', yubi: Yubi::Hitosashi, dan: Dan::Jo, sayu: Sayu::Left }),
        ('s', Kagi { ch: 's', yubi: Yubi::Kusuri, dan: Dan::Chu, sayu: Sayu::Left }),
        ('d', Kagi { ch: 'd', yubi: Yubi::Naka, dan: Dan::Chu, sayu: Sayu::Left }),
        ('f', Kagi { ch: 'f', yubi: Yubi::Hitosashi, dan: Dan::Chu, sayu: Sayu::Left }),
        ('z', Kagi { ch: 'z', yubi: Yubi::Kusuri, dan: Dan::Ge, sayu: Sayu::Left }),
        ('x', Kagi { ch: 'x', yubi: Yubi::Naka, dan: Dan::Ge, sayu: Sayu::Left }),
        ('c', Kagi { ch: 'c', yubi: Yubi::Hitosashi, dan: Dan::Ge, sayu: Sayu::Left }),
        ('u', Kagi { ch: 'u', yubi: Yubi::Hitosashi, dan: Dan::Jo, sayu: Sayu::Right }),
        ('i', Kagi { ch: 'i', yubi: Yubi::Naka, dan: Dan::Jo, sayu: Sayu::Right }),
        ('o', Kagi { ch: 'o', yubi: Yubi::Kusuri, dan: Dan::Jo, sayu: Sayu::Right }),
        ('j', Kagi { ch: 'j', yubi: Yubi::Hitosashi, dan: Dan::Chu, sayu: Sayu::Right }),
        ('k', Kagi { ch: 'k', yubi: Yubi::Naka, dan: Dan::Chu, sayu: Sayu::Right }),
        ('l', Kagi { ch: 'l', yubi: Yubi::Kusuri, dan: Dan::Chu, sayu: Sayu::Right }),
        ('m', Kagi { ch: 'm', yubi: Yubi::Hitosashi, dan: Dan::Ge, sayu: Sayu::Right }),
        ('n', Kagi { ch: 'n', yubi: Yubi::Naka, dan: Dan::Ge, sayu: Sayu::Right }),
        ('v', Kagi { ch: 'v', yubi: Yubi::Kusuri, dan: Dan::Ge, sayu: Sayu::Right }),
    ];
    proof {
        assert(v@ == keymap_entries());
        lemma_keymap_distinct();
        lemma_from_seq_distinct(v@);
    }
    CharMap::from_vec(v)
}

/// The consonant letter each key stands for, in the order the table lists them.
pub open spec fn hangul_entries() -> Seq<(char, char)> {
    seq![
        ('w', 'ㅂ'),
        ('e', 'ㅋ'),
        ('r', 'ㅌ'),
        ('u', 'ㅈ'),
        ('i', 'ㄹ'),
        ('o', 'ㅊ'),
        ('s', 'ㅁ'),
        ('d', 'ㄱ'),
        ('f', 'ㄷ'),
        ('j', 'ㅇ'),
        ('k', 'ㄴ'),
        ('l', 'ㅅ'),
        ('z', 'ㅍ'),
        ('x', 'ㄲ'),
        ('c', 'ㄸ'),
        ('m', 'ㅉ'),
        ('n', 'ㅎ'),
        ('v', 'ㅆ'),
    ]
}

spec fn hangul_index(c: char) -> int {
    match c {
        'w' => 0,
        'e' => 1,
        'r' => 2,
        'u' => 3,
        'i' => 4,
        'o' => 5,
        's' => 6,
        'd' => 7,
        'f' => 8,
        'j' => 9,
        'k' => 10,
        'l' => 11,
        'z' => 12,
        'x' => 13,
        'c' => 14,
        'm' => 15,
        'n' => 16,
        'v' => 17,
        _ => -1,
    }
}

pub proof fn lemma_hangul_distinct()
    ensures
        distinct_keys(hangul_entries()),
{
    let s = hangul_entries();
    assert forall|i: int| 0 <= i < s.len() implies hangul_index(#[trigger] s[i].0) == i by {
        if i == 0 {
        } else         if i == 1 {
        } else         if i == 2 {
        } else         if i == 3 {
        } else         if i == 4 {
        } else         if i == 5 {
        } else         if i == 6 {
        } else         if i == 7 {
        } else         if i == 8 {
        } else         if i == 9 {
        } else         if i == 10 {
        } else         if i == 11 {
        } else         if i == 12 {
        } else         if i == 13 {
        } else         if i == 14 {
        } else         if i == 15 {
        } else         if i == 16 {
        } else         if i == 17 {
        }
    }
}

/// The hangul consonant letter of each key.
pub fn hangul_cmap() -> (m: CharMap<char>)
    ensures
        m@ == hangul_entries(),
{
    let v = vec![
        ('w', 'ㅂ'),
        ('e', 'ㅋ'),
        ('r', 'ㅌ'),
        ('u', 'ㅈ'),
        ('i', 'ㄹ'),
        ('o', 'ㅊ'),
        ('s', 'ㅁ'),
        ('d', 'ㄱ'),
        ('f', 'ㄷ'),
        ('j', 'ㅇ'),
        ('k', 'ㄴ'),
        ('l', 'ㅅ'),
        ('z', 'ㅍ'),
        ('x', 'ㄲ'),
        ('c', 'ㄸ'),
        ('m', 'ㅉ'),
        ('n', 'ㅎ'),
        ('v', 'ㅆ'),
    ];
    proof {
        assert(v@ == hangul_entries());
        lemma_hangul_distinct();
        lemma_from_seq_distinct(v@);
    }
    CharMap::from_vec(v)
}

} // verus!
