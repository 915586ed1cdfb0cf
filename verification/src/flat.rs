use vstd::prelude::*;
use crate::charmap::{CharMap, lookup};
use crate::kagi::{GenerateSetting, Kagi};
use crate::lists::{flat_seq, lemma_flat_seq_map, lemma_flat_seq_member, vec_flatten, views_of};
use crate::spell::{
    first_chars, lemma_next_chars_keys, next_chars, next_chars_defined, next_chars_spec,
};
use crate::text::push_char;

verus! {

/// The last character of a spell, if any.
pub open spec fn last_char(s: Seq<char>) -> Option<char> {
    if s.len() == 0 {
        None
    } else {
        Some(s.last())
    }
}

/// The character before the last one, if any.
pub open spec fn second_last_char(s: Seq<char>) -> Option<char> {
    if s.len() < 2 {
        None
    } else {
        Some(s[s.len() - 2])
    }
}

/// The spells one character longer than `p`, in the order `next_chars` offers the
/// characters.
pub open spec fn extensions(infos: Seq<(char, Kagi)>, p: Seq<char>) -> Seq<Seq<char>> {
    next_chars_spec(infos, second_last_char(p), last_char(p)).map_values(|c: char| p.push(c))
}

/// The extensions of every spell of `parents`, parent after parent.
pub open spec fn children(infos: Seq<(char, Kagi)>, parents: Seq<Seq<char>>) -> Seq<Seq<char>> {
    flat_seq(parents.map_values(|p: Seq<char>| extensions(infos, p)))
}

/// One-character spells.
pub open spec fn singletons(cs: Seq<char>) -> Seq<Seq<char>> {
    cs.map_values(|c: char| seq![c])
}

/// The level that follows `levels`: the starting characters, or the children of the last
/// level.
pub open spec fn next_level(infos: Seq<(char, Kagi)>, levels: Seq<Seq<Seq<char>>>) -> Seq<
    Seq<char>,
> {
    if levels.len() == 0 {
        singletons(first_chars())
    } else {
        children(infos, levels.last())
    }
}

/// `levels` with levels added until there are `n` of them.
pub open spec fn grow_levels(infos: Seq<(char, Kagi)>, levels: Seq<Seq<Seq<char>>>, n: nat) -> Seq<
    Seq<Seq<char>>,
>
    decreases n - levels.len(),
{
    if levels.len() < n {
        grow_levels(infos, levels.push(next_level(infos, levels)), n)
    } else {
        levels
    }
}

/// `next_chars` can extend the spell `p`.
pub open spec fn spell_ready(infos: Seq<(char, Kagi)>, p: Seq<char>) -> bool {
    next_chars_defined(infos, second_last_char(p), last_char(p))
}

/// Every level that growing `levels` to `n` levels extends can be extended.
pub open spec fn grow_defined(infos: Seq<(char, Kagi)>, levels: Seq<Seq<Seq<char>>>, n: nat) -> bool
    decreases n - levels.len(),
{
    levels.len() < n ==> {
        &&& levels.len() > 0 ==> forall|i: int|
            0 <= i < levels.last().len() ==> spell_ready(infos, #[trigger] levels.last()[i])
        &&& grow_defined(infos, levels.push(next_level(infos, levels)), n)
    }
}

/// What `flatlist_go` hands back from the grown levels.
pub open spec fn kept_levels(levels: Seq<Seq<Seq<char>>>, lenonly: bool) -> Seq<Seq<Seq<char>>> {
    if lenonly {
        seq![levels.last()]
    } else {
        levels
    }
}

/// Every spell of the level is non-empty and can be extended.
pub open spec fn level_ready(infos: Seq<(char, Kagi)>, level: Seq<Seq<char>>) -> bool {
    forall|i: int| 0 <= i < level.len() ==> #[trigger] level[i].len() > 0 && spell_ready(infos, level[i])
}

/// The children of extendable non-empty spells are extendable and non-empty.
pub proof fn lemma_children_ready(infos: Seq<(char, Kagi)>, parents: Seq<Seq<char>>)
    requires
        level_ready(infos, parents),
    ensures
        level_ready(infos, children(infos, parents)),
{
    let s = parents.map_values(|p: Seq<char>| extensions(infos, p));
    assert forall|k: int| 0 <= k < children(infos, parents).len() implies #[trigger] children(
        infos,
        parents,
    )[k].len() > 0 && spell_ready(infos, children(infos, parents)[k]) by {
        lemma_flat_seq_member(s, k);
        let (i, j) = choose|i: int, j: int|
            0 <= i < s.len() && 0 <= j < s[i].len() && flat_seq(s)[k] == #[trigger] s[i][j];
        let p = parents[i];
        assert(level_ready(infos, parents));
        assert(p.len() > 0 && spell_ready(infos, p));
        let cs = next_chars_spec(infos, second_last_char(p), last_char(p));
        let c = cs[j];
        let q = p.push(c);
        assert(s[i][j] == q);
        lemma_next_chars_keys(infos, second_last_char(p), p.last());
        assert(lookup(infos, c) is Some);
        assert(infos.len() > 0);
        assert(last_char(q) == Some(c));
        assert(q[q.len() - 2] == p.last());
        assert(second_last_char(q) == Some(p.last()));
    }
}

/// Growing from levels whose last level can be extended, when every starting character
/// is a key, never needs a missing key.
pub proof fn lemma_grow_defined(infos: Seq<(char, Kagi)>, levels: Seq<Seq<Seq<char>>>, n: nat)
    requires
        infos.len() > 0 ==> forall|i: int|
            0 <= i < first_chars().len() ==> lookup(infos, #[trigger] first_chars()[i]) is Some,
        levels.len() > 0 ==> level_ready(infos, levels.last()),
    ensures
        grow_defined(infos, levels, n),
    decreases n - levels.len(),
{
    if levels.len() < n {
        let next = next_level(infos, levels);
        if levels.len() == 0 {
            assert forall|i: int| 0 <= i < next.len() implies #[trigger] next[i].len() > 0
                && spell_ready(infos, next[i]) by {
                assert(next[i] == seq![first_chars()[i]]);
            }
        } else {
            lemma_children_ready(infos, levels.last());
        }
        lemma_grow_defined(infos, levels.push(next), n);
    }
}

/// A copy of a list of spells.
pub fn clone_spells(v: &Vec<String>) -> (r: Vec<String>)
    ensures
        r.deep_view() == v.deep_view(),
{
    let mut r: Vec<String> = Vec::new();
    let n = v.len();
    let mut i: usize = 0;
    while i < n
        invariant
            n == v@.len(),
            i <= n,
            r@.len() == i,
            forall|k: int| 0 <= k < i ==> (#[trigger] r@[k])@ == v@[k]@,
        decreases n - i,
    {
        r.push(v[i].clone());
        i = i + 1;
    }
    proof {
        assert(r.deep_view() =~= v.deep_view());
    }
    r
}

/// A copy of a list of levels.
pub fn clone_levels(v: &Vec<Vec<String>>) -> (r: Vec<Vec<String>>)
    ensures
        r.deep_view() == v.deep_view(),
{
    let mut r: Vec<Vec<String>> = Vec::new();
    let n = v.len();
    let mut i: usize = 0;
    while i < n
        invariant
            n == v@.len(),
            i <= n,
            r@.len() == i,
            forall|k: int| 0 <= k < i ==> (#[trigger] r@[k]).deep_view() == v@[k].deep_view(),
        decreases n - i,
    {
        r.push(clone_spells(&v[i]));
        i = i + 1;
    }
    proof {
        assert(r.deep_view() =~= v.deep_view());
    }
    r
}

/// The characters of a string, each as a one-character string.
fn split_chars(s: &String) -> (r: Vec<String>)
    ensures
        r.deep_view() == singletons(s@),
{
    let n = s.as_str().unicode_len();
    let mut r: Vec<String> = Vec::new();
    let mut i: usize = 0;
    while i < n
        invariant
            n == s@.len(),
            i <= n,
            r@.len() == i,
            forall|k: int| 0 <= k < i ==> (#[trigger] r@[k])@ == seq![s@[k]],
        decreases n - i,
    {
        let c = s.as_str().get_char(i);
        let mut one = String::new();
        push_char(&mut one, c);
        proof {
            assert(one@ =~= seq![c]);
        }
        r.push(one);
        i = i + 1;
    }
    proof {
        assert(r.deep_view() =~= singletons(s@));
    }
    r
}

/// The spells one character longer than `p`.
fn extend_spell(p: &String, infos: &CharMap<Kagi>) -> (r: Vec<String>)
    requires
        spell_ready(infos@, p@),
    ensures
        r.deep_view() == extensions(infos@, p@),
{
    let len = p.as_str().unicode_len();
    let current = if len > 0 {
        Some(p.as_str().get_char(len - 1))
    } else {
        None
    };
    let before = if len > 1 {
        Some(p.as_str().get_char(len - 2))
    } else {
        None
    };
    let next = next_chars(before, current, infos);
    let ghost cs = next@;
    let n = next.as_str().unicode_len();
    let mut r: Vec<String> = Vec::new();
    let mut i: usize = 0;
    while i < n
        invariant
            n == cs.len(),
            cs == next@,
            cs == next_chars_spec(infos@, second_last_char(p@), last_char(p@)),
            i <= n,
            r@.len() == i,
            forall|k: int| 0 <= k < i ==> (#[trigger] r@[k])@ == p@.push(cs[k]),
        decreases n - i,
    {
        let c = next.as_str().get_char(i);
        let mut child = p.clone();
        push_char(&mut child, c);
        r.push(child);
        i = i + 1;
    }
    proof {
        assert(r.deep_view() =~= extensions(infos@, p@));
    }
    r
}

/// Adds levels of spells to `spellsbylen` until it holds `setting.len` levels: the first
/// level holds the starting characters, every further level the extensions of the
/// spells of the level before. Hands back the last level alone when `setting.lenonly`,
/// else every level.
pub fn flatlist_go(
    setting: &GenerateSetting,
    infos: &CharMap<Kagi>,
    spellsbylen: &mut Vec<Vec<String>>,
) -> (r: Vec<Vec<String>>)
    requires
        grow_defined(infos@, old(spellsbylen).deep_view(), setting.len as nat),
        setting.lenonly ==> old(spellsbylen).len() > 0 || setting.len > 0,
    ensures
        final(spellsbylen).deep_view() == grow_levels(
            infos@,
            old(spellsbylen).deep_view(),
            setting.len as nat,
        ),
        r.deep_view() == kept_levels(final(spellsbylen).deep_view(), setting.lenonly),
    decreases setting.len - old(spellsbylen).len(),
{
    let ghost levels = spellsbylen.deep_view();
    let count = spellsbylen.len();
    if count < setting.len as usize {
        let mut childs: Vec<Vec<String>> = Vec::new();
        if count == 0 {
            let spells = next_chars(None, None, infos);
            childs.push(split_chars(&spells));
            proof {
                assert(childs.deep_view() =~= seq![singletons(first_chars())]);
                let e = seq![singletons(first_chars())];
                assert(e.drop_last() =~= Seq::<Seq<Seq<char>>>::empty());
                assert(flat_seq(e.drop_last()) == Seq::<Seq<char>>::empty());
                assert(Seq::<Seq<char>>::empty() + singletons(first_chars()) =~= singletons(first_chars()));
                assert(flat_seq(e) == singletons(first_chars()));
            }
        } else {
            let parents = &spellsbylen[count - 1];
            let m = parents.len();
            let mut j: usize = 0;
            while j < m
                invariant
                    m == parents@.len(),
                    parents.deep_view() == levels.last(),
                    levels.len() > 0,
                    forall|i: int|
                        0 <= i < levels.last().len() ==> spell_ready(
                            infos@,
                            #[trigger] levels.last()[i],
                        ),
                    j <= m,
                    childs@.len() == j,
                    forall|k: int|
                        0 <= k < j ==> (#[trigger] childs@[k]).deep_view() == extensions(
                            infos@,
                            parents@[k]@,
                        ),
                decreases m - j,
            {
                proof {
                    assert(parents.deep_view()[j as int] == parents@[j as int]@);
                    assert(spell_ready(infos@, levels.last()[j as int]));
                }
                let ext = extend_spell(&parents[j], infos);
                childs.push(ext);
                j = j + 1;
            }
            proof {
                assert(childs.deep_view() =~= levels.last().map_values(
                    |p: Seq<char>| extensions(infos@, p),
                ));
            }
        }
        let ghost cv = childs.deep_view();
        let flat = vec_flatten(&mut childs);
        proof {
            let vs = views_of(childs@);
            let f = |s: String| s@;
            assert forall|i: int| 0 <= i < vs.len() implies #[trigger] vs[i].map_values(f) == cv[i] by {
                assert(vs[i].map_values(f) =~= childs@[i].deep_view());
            }
            assert(vs.map_values(|x: Seq<String>| x.map_values(f)) =~= cv);
            lemma_flat_seq_map(vs, f);
            assert forall|k: int| 0 <= k < flat@.len() implies flat.deep_view()[k] == flat_seq(cv)[k] by {
                assert(cloned(flat_seq(vs)[k], flat@[k]));
            }
            assert(flat.deep_view() == flat_seq(cv));
            assert(flat_seq(cv) == next_level(infos@, levels));
        }
        spellsbylen.push(flat);
        proof {
            assert(spellsbylen.deep_view() =~= levels.push(next_level(infos@, levels)));
        }
        flatlist_go(setting, infos, spellsbylen)
    } else {
        if setting.lenonly {
            let last = clone_spells(&spellsbylen[count - 1]);
            let mut r: Vec<Vec<String>> = Vec::new();
            r.push(last);
            r
        } else {
            clone_levels(spellsbylen)
        }
    }
}

} // verus!
