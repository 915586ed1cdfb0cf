use vstd::prelude::*;
use crate::flat::{children, extensions, grow_levels, last_char, next_level, second_last_char, singletons};
use crate::hangul::next_hangul_spec;
use crate::hangul_flat::{SpellPair, grow_hangul, hangul_extensions, hangul_next_level, level_count};
use crate::kagi::Kagi;
use crate::lists::{flat_seq, lemma_flat_seq_member};
use crate::spell::{first_chars, next_chars_spec};

verus! {

/// Every entry of an inner sequence is in the flattened sequence.
proof fn lemma_flat_seq_has<T>(s: Seq<Seq<T>>, i: int, j: int)
    requires
        0 <= i < s.len(),
        0 <= j < s[i].len(),
    ensures
        flat_seq(s).contains(s[i][j]),
    decreases s.len(),
{
    let t = s.drop_last();
    assert(flat_seq(s) == flat_seq(t) + s.last());
    if i < t.len() {
        assert(t[i] == s[i]);
        lemma_flat_seq_has(t, i, j);
        let k = choose|k: int| 0 <= k < flat_seq(t).len() && flat_seq(t)[k] == t[i][j];
        assert(flat_seq(s)[k] == s[i][j]);
    } else {
        assert(flat_seq(s)[flat_seq(t).len() + j] == s[i][j]);
    }
}

/// The spells of the level after `parents` are exactly the spells one character longer
/// than a spell of `parents`, whose last character `next_chars` offers after that spell
/// (given its last two characters).
pub proof fn law_children_members(infos: Seq<(char, Kagi)>, parents: Seq<Seq<char>>, q: Seq<char>)
    ensures
        children(infos, parents).contains(q) <==> {
            &&& q.len() > 0
            &&& parents.contains(q.drop_last())
            &&& next_chars_spec(
                infos,
                second_last_char(q.drop_last()),
                last_char(q.drop_last()),
            ).contains(q.last())
        },
{
    let s = parents.map_values(|p: Seq<char>| extensions(infos, p));
    assert(children(infos, parents) == flat_seq(s));
    if children(infos, parents).contains(q) {
        let k = choose|k: int| 0 <= k < flat_seq(s).len() && flat_seq(s)[k] == q;
        lemma_flat_seq_member(s, k);
        let (i, j) = choose|i: int, j: int|
            0 <= i < s.len() && 0 <= j < s[i].len() && flat_seq(s)[k] == #[trigger] s[i][j];
        let p = parents[i];
        let cs = next_chars_spec(infos, second_last_char(p), last_char(p));
        assert(s[i] == extensions(infos, p));
        assert(s[i][j] == p.push(cs[j]));
        assert(q.drop_last() == p);
        assert(parents.contains(p));
        assert(cs.contains(q.last()));
    }
    if q.len() > 0 && parents.contains(q.drop_last()) && next_chars_spec(
        infos,
        second_last_char(q.drop_last()),
        last_char(q.drop_last()),
    ).contains(q.last()) {
        let p = q.drop_last();
        let i = choose|i: int| 0 <= i < parents.len() && parents[i] == p;
        let cs = next_chars_spec(infos, second_last_char(p), last_char(p));
        let j = choose|j: int| 0 <= j < cs.len() && cs[j] == q.last();
        assert(s[i] == extensions(infos, p));
        assert(s[i][j] == p.push(cs[j]));
        assert(p.push(q.last()) == q);
        lemma_flat_seq_has(s, i, j);
    }
}

/// The levels built one after another: each holds what the one before it leads to.
pub open spec fn chained(infos: Seq<(char, Kagi)>, levels: Seq<Seq<Seq<char>>>) -> bool {
    &&& levels.len() > 0 ==> levels[0] == singletons(first_chars())
    &&& forall|j: int| 0 <= j < levels.len() - 1 ==> #[trigger] levels[j + 1] == children(infos, levels[j])
}

proof fn lemma_grow_chained(infos: Seq<(char, Kagi)>, levels: Seq<Seq<Seq<char>>>, n: nat)
    requires
        chained(infos, levels),
    ensures
        chained(infos, grow_levels(infos, levels, n)),
    decreases n - levels.len(),
{
    if levels.len() < n {
        let next = levels.push(next_level(infos, levels));
        assert(chained(infos, next)) by {
            assert forall|j: int| 0 <= j < next.len() - 1 implies #[trigger] next[j + 1] == children(
                infos,
                next[j],
            ) by {
                if j < levels.len() - 1 {
                    assert(next[j + 1] == levels[j + 1]);
                }
            }
        }
        lemma_grow_chained(infos, next, n);
    }
}

/// Generating `n` levels from none: `n` levels, the first holding the one-character
/// spells of the starting characters, each later one the children of the level before.
pub proof fn law_grown_levels(infos: Seq<(char, Kagi)>, n: nat)
    ensures
        grow_levels(infos, Seq::empty(), n).len() == n,
        n > 0 ==> grow_levels(infos, Seq::empty(), n)[0] == singletons(first_chars()),
        forall|j: int|
            0 <= j < n - 1 ==> #[trigger] grow_levels(infos, Seq::empty(), n)[j + 1] == children(
                infos,
                grow_levels(infos, Seq::empty(), n)[j],
            ),
{
    crate::laws::law_grow_levels_keeps_and_counts(infos, Seq::empty(), n);
    lemma_grow_chained(infos, Seq::empty(), n);
}

/// The spells with letters of the level after `parents` are exactly: a spell one character
/// longer than a spell of `parents`, with the one letter that `next_chars_with_hangul`
/// offers with that character after the spell of the parent.
pub proof fn law_hangul_children_members(
    keys: Set<Seq<u8>>,
    infos: Seq<(char, Kagi)>,
    parents: Seq<SpellPair>,
    q: SpellPair,
)
    ensures
        flat_seq(parents.map_values(|p: SpellPair| hangul_extensions(keys, infos, p))).contains(q)
            <==> {
            &&& q.0.len() > 0
            &&& q.1.len() == 1
            &&& exists|i: int| 0 <= i < parents.len() && (#[trigger] parents[i]).0 == q.0.drop_last()
            &&& next_hangul_spec(
                keys,
                infos,
                second_last_char(q.0.drop_last()),
                last_char(q.0.drop_last()),
            ).contains((q.0.last(), q.1[0]))
        },
{
    let s = parents.map_values(|p: SpellPair| hangul_extensions(keys, infos, p));
    if flat_seq(s).contains(q) {
        let k = choose|k: int| 0 <= k < flat_seq(s).len() && flat_seq(s)[k] == q;
        lemma_flat_seq_member(s, k);
        let (i, j) = choose|i: int, j: int|
            0 <= i < s.len() && 0 <= j < s[i].len() && flat_seq(s)[k] == #[trigger] s[i][j];
        let p = parents[i];
        let cs = next_hangul_spec(keys, infos, second_last_char(p.0), last_char(p.0));
        assert(s[i] == hangul_extensions(keys, infos, p));
        assert(s[i][j] == (p.0.push(cs[j].0), seq![cs[j].1]));
        assert(q.0.drop_last() == p.0);
        assert(parents[i].0 == q.0.drop_last());
        assert(cs[j] == (q.0.last(), q.1[0]));
        assert(cs.contains((q.0.last(), q.1[0])));
    }
    if q.0.len() > 0 && q.1.len() == 1 && (exists|i: int|
        0 <= i < parents.len() && (#[trigger] parents[i]).0 == q.0.drop_last()) && next_hangul_spec(
        keys,
        infos,
        second_last_char(q.0.drop_last()),
        last_char(q.0.drop_last()),
    ).contains((q.0.last(), q.1[0])) {
        let i = choose|i: int| 0 <= i < parents.len() && (#[trigger] parents[i]).0 == q.0.drop_last();
        let p = parents[i];
        let cs = next_hangul_spec(keys, infos, second_last_char(p.0), last_char(p.0));
        let j = choose|j: int| 0 <= j < cs.len() && cs[j] == (q.0.last(), q.1[0]);
        assert(s[i] == hangul_extensions(keys, infos, p));
        assert(s[i][j] == (p.0.push(cs[j].0), seq![cs[j].1]));
        assert(p.0.push(q.0.last()) == q.0);
        assert(seq![q.1[0]] == q.1);
        lemma_flat_seq_has(s, i, j);
    }
}

/// Levels of spells with letters built one after another.
pub open spec fn hangul_chained(
    keys: Set<Seq<u8>>,
    infos: Seq<(char, Kagi)>,
    levels: Seq<Seq<SpellPair>>,
) -> bool {
    &&& levels.len() > 0 ==> levels[0] == hangul_next_level(keys, infos, Seq::empty())
    &&& forall|j: int|
        0 <= j < levels.len() - 1 ==> #[trigger] levels[j + 1] == flat_seq(
            levels[j].map_values(|p: SpellPair| hangul_extensions(keys, infos, p)),
        )
}

proof fn lemma_grow_hangul_chained(
    keys: Set<Seq<u8>>,
    infos: Seq<(char, Kagi)>,
    levels: Seq<Seq<SpellPair>>,
    n: u8,
)
    requires
        hangul_chained(keys, infos, levels),
    ensures
        hangul_chained(keys, infos, grow_hangul(keys, infos, levels, n)),
    decreases n - level_count(levels.len()),
{
    if level_count(levels.len()) < n {
        crate::hangul_flat::lemma_level_count_step(levels.len(), n as int);
        let next = levels.push(hangul_next_level(keys, infos, levels));
        assert(hangul_chained(keys, infos, next)) by {
            assert forall|j: int| 0 <= j < next.len() - 1 implies #[trigger] next[j + 1] == flat_seq(
                next[j].map_values(|p: SpellPair| hangul_extensions(keys, infos, p)),
            ) by {
                if j < levels.len() - 1 {
                    assert(next[j + 1] == levels[j + 1]);
                }
            }
        }
        lemma_grow_hangul_chained(keys, infos, next, n);
    }
}

/// Generating levels of spells with letters from none: the first level holds the starting
/// characters with their letters, each later one the spells with letters that the level
/// before leads to.
pub proof fn law_grown_hangul_levels(keys: Set<Seq<u8>>, infos: Seq<(char, Kagi)>, n: u8)
    ensures
        hangul_chained(keys, infos, grow_hangul(keys, infos, Seq::empty(), n)),
{
    lemma_grow_hangul_chained(keys, infos, Seq::empty(), n);
}

} // verus!
