use vstd::prelude::*;
use vstd::multiset::Multiset;
use crate::kagi::{Dan, Kagi, Sayu, Yubi};

verus! {

/// A pair of keys of one hand that `next_chars` keeps apart: the same finger, or the
/// upper and the lower row.
pub open spec fn clashes(v: Kagi, info: Kagi) -> bool {
    v.sayu == info.sayu && (v.yubi == info.yubi || (v.dan == Dan::Jo && info.dan == Dan::Ge) || (
    v.dan == Dan::Ge && info.dan == Dan::Jo))
}

/// The key typed two steps back rules out `v`: the same finger or the upper and the lower
/// row, whichever hand.
pub open spec fn blocked_by(d: Kagi, v: Kagi) -> bool {
    d.yubi == v.yubi || (d.dan == Dan::Jo && v.dan == Dan::Ge) || (d.dan == Dan::Ge && v.dan
        == Dan::Jo)
}

/// The cost of a finger on the home row, in tens.
pub open spec fn finger_point(y: Yubi) -> u32 {
    match y {
        Yubi::Naka => 0,
        Yubi::Hitosashi => 1,
        Yubi::Kusuri => 2,
        _ => 3,
    }
}

/// The cost of reaching a key, whatever came before it.
pub open spec fn base_score(v: Kagi) -> u32 {
    match v.dan {
        Dan::Chu => (finger_point(v.yubi) * 10) as u32,
        Dan::Jo => match v.yubi {
            Yubi::Naka => 100,
            Yubi::Hitosashi => if v.sayu == Sayu::Left {
                300
            } else {
                450
            },
            _ => 400,
        },
        Dan::Ge => match v.yubi {
            Yubi::Hitosashi => 200,
            Yubi::Naka => 500,
            Yubi::Kusuri => 600,
            _ => 1000,
        },
    }
}

/// The cost of typing `v` right after `info`: the base cost, plus a charge for staying on
/// the same hand.
pub open spec fn score(v: Kagi, info: Kagi) -> u32 {
    (base_score(v) + if v.sayu == info.sayu {
        if v.dan == Dan::Jo && v.yubi == Yubi::Kusuri {
            11int
        } else {
            1int
        }
    } else {
        0int
    }) as u32
}

pub(crate) fn finger_point_of(y: &Yubi) -> (p: u32)
    ensures
        p == finger_point(*y),
{
    match y {
        Yubi::Naka => 0,
        Yubi::Hitosashi => 1,
        Yubi::Kusuri => 2,
        _ => 3,
    }
}

/// The cost of typing `v` right after `info`.
pub(crate) fn score_of(v: &Kagi, info: &Kagi) -> (s: u32)
    ensures
        s == score(*v, *info),
{
    let mut basescore: u32 = match v.dan {
        Dan::Chu => finger_point_of(&v.yubi) * 10,
        Dan::Jo => match v.yubi {
            Yubi::Naka => 100,
            Yubi::Hitosashi => if v.sayu == Sayu::Left {
                300
            } else {
                450
            },
            _ => 400,
        },
        Dan::Ge => match v.yubi {
            Yubi::Hitosashi => 200,
            Yubi::Naka => 500,
            Yubi::Kusuri => 600,
            _ => 1000,
        },
    };
    basescore = basescore + if v.sayu == info.sayu {
        if v.dan == Dan::Jo && v.yubi == Yubi::Kusuri {
            11
        } else {
            1
        }
    } else {
        0
    };
    basescore
}

/// Places `x` after every leading entry whose score does not exceed its own.
pub open spec fn insert_by_score<T>(s: Seq<(T, u32)>, x: (T, u32)) -> Seq<(T, u32)>
    decreases s.len(),
{
    if s.len() == 0 {
        seq![x]
    } else if s[0].1 > x.1 {
        seq![x] + s
    } else {
        seq![s[0]] + insert_by_score(s.drop_first(), x)
    }
}

/// The entries ordered by score; entries of equal score keep their order (a stable sort).
pub open spec fn sort_by_score<T>(s: Seq<(T, u32)>) -> Seq<(T, u32)>
    decreases s.len(),
{
    if s.len() == 0 {
        s
    } else {
        insert_by_score(sort_by_score(s.drop_last()), s.last())
    }
}

/// The scores never decrease along the sequence.
pub open spec fn score_sorted<T>(s: Seq<(T, u32)>) -> bool {
    forall|i: int, j: int| 0 <= i <= j < s.len() ==> s[i].1 <= s[j].1
}

/// Inserting before the first entry of higher score.
proof fn lemma_insert_at<T>(s: Seq<(T, u32)>, x: (T, u32), p: int)
    requires
        0 <= p <= s.len(),
        forall|j: int| 0 <= j < p ==> s[j].1 <= x.1,
        p < s.len() ==> s[p].1 > x.1,
    ensures
        insert_by_score(s, x) == s.insert(p, x),
    decreases s.len(),
{
    if s.len() > 0 {
        if p == 0 {
            assert(seq![x] + s == s.insert(0, x));
        } else {
            let t = s.drop_first();
            assert forall|j: int| 0 <= j < p - 1 implies t[j].1 <= x.1 by {
                assert(t[j] == s[j + 1]);
            }
            lemma_insert_at(t, x, p - 1);
            assert(seq![s[0]] + t.insert(p - 1, x) == s.insert(p, x));
        }
    } else {
        assert(seq![x] == s.insert(0, x));
    }
}

/// Inserting keeps a sorted sequence sorted and adds exactly the inserted entry.
proof fn lemma_insert_sorted<T>(s: Seq<(T, u32)>, x: (T, u32))
    requires
        score_sorted(s),
    ensures
        score_sorted(insert_by_score(s, x)),
        insert_by_score(s, x).to_multiset() == s.to_multiset().insert(x),
        insert_by_score(s, x).len() == s.len() + 1,
    decreases s.len(),
{
    broadcast use vstd::seq_lib::group_to_multiset_ensures;
    if s.len() == 0 {
        assert(insert_by_score(s, x) == seq![x]);
        assert(seq![x] == s.push(x));
    } else if s[0].1 > x.1 {
        let r = seq![x] + s;
        assert(r == s.insert(0, x));
        vstd::seq_lib::lemma_seq_union_to_multiset_commutative(seq![x], s);
        vstd::seq_lib::lemma_multiset_commutative(seq![x], s);
        assert(seq![x].to_multiset() == Multiset::empty().insert(x)) by {
            assert(seq![x] == Seq::<(T, u32)>::empty().push(x));
        }
        assert forall|i: int, j: int| 0 <= i <= j < r.len() implies r[i].1 <= r[j].1 by {
            if i > 0 {
                assert(r[i] == s[i - 1]);
                assert(r[j] == s[j - 1]);
            } else if j > 0 {
                assert(r[j] == s[j - 1]);
            }
        }
    } else {
        let t = s.drop_first();
        assert(score_sorted(t)) by {
            assert forall|i: int, j: int| 0 <= i <= j < t.len() implies t[i].1 <= t[j].1 by {
                assert(t[i] == s[i + 1]);
                assert(t[j] == s[j + 1]);
            }
        }
        lemma_insert_sorted(t, x);
        let it = insert_by_score(t, x);
        let r = seq![s[0]] + it;
        vstd::seq_lib::lemma_multiset_commutative(seq![s[0]], it);
        vstd::seq_lib::lemma_multiset_commutative(seq![s[0]], t);
        assert(seq![s[0]] + t == s);
        // every entry of `it` is an entry of `t` or `x`, all at least `s[0]`'s score
        assert forall|k: int| 0 <= k < it.len() implies s[0].1 <= #[trigger] it[k].1 by {
            assert(it.to_multiset().count(it[k]) > 0);
            assert(t.to_multiset().insert(x).count(it[k]) > 0);
            if it[k] != x {
                assert(t.to_multiset().count(it[k]) > 0);
                assert(t.contains(it[k]));
                let m = choose|m: int| 0 <= m < t.len() && t[m] == it[k];
                assert(t[m] == s[m + 1]);
            }
        }
        assert forall|i: int, j: int| 0 <= i <= j < r.len() implies r[i].1 <= r[j].1 by {
            if i > 0 {
                assert(r[i] == it[i - 1]);
                assert(r[j] == it[j - 1]);
            } else if j > 0 {
                assert(r[j] == it[j - 1]);
            }
        }
    }
}

/// The order by score is sorted and holds exactly the entries it was given.
pub proof fn lemma_sort_by_score<T>(s: Seq<(T, u32)>)
    ensures
        score_sorted(sort_by_score(s)),
        sort_by_score(s).to_multiset() == s.to_multiset(),
        sort_by_score(s).len() == s.len(),
    decreases s.len(),
{
    broadcast use vstd::seq_lib::group_to_multiset_ensures;
    if s.len() > 0 {
        lemma_sort_by_score(s.drop_last());
        lemma_insert_sorted(sort_by_score(s.drop_last()), s.last());
        assert(s.drop_last().push(s.last()) == s);
    }
}

/// Sorts entries by score, keeping the order of entries of equal score.
pub fn sort_scored<T: Copy>(v: &Vec<(T, u32)>) -> (r: Vec<(T, u32)>)
    ensures
        r@ == sort_by_score(v@),
{
    let mut r: Vec<(T, u32)> = Vec::new();
    let n = v.len();
    let mut i: usize = 0;
    while i < n
        invariant
            n == v@.len(),
            i <= n,
            r@ == sort_by_score(v@.take(i as int)),
        decreases n - i,
    {
        let x = v[i];
        let m = r.len();
        let mut p: usize = 0;
        while p < m && r[p].1 <= x.1
            invariant
                m == r@.len(),
                p <= m,
                forall|j: int| 0 <= j < p ==> r@[j].1 <= x.1,
            decreases m - p,
        {
            p = p + 1;
        }
        proof {
            lemma_insert_at(r@, x, p as int);
            assert(v@.take(i + 1).drop_last() == v@.take(i as int));
        }
        r.insert(p, x);
        i = i + 1;
    }
    proof {
        assert(v@.take(n as int) == v@);
    }
    r
}

} // verus!
