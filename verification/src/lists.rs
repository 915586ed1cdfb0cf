use vstd::prelude::*;

verus! {

/// The inner sequences one after another.
pub open spec fn flat_seq<T>(s: Seq<Seq<T>>) -> Seq<T>
    decreases s.len(),
{
    if s.len() == 0 {
        Seq::empty()
    } else {
        flat_seq(s.drop_last()) + s.last()
    }
}

/// Mapping every element before or after flattening gives the same sequence.
pub proof fn lemma_flat_seq_map<A, B>(s: Seq<Seq<A>>, f: spec_fn(A) -> B)
    ensures
        flat_seq(s.map_values(|x: Seq<A>| x.map_values(f))) == flat_seq(s).map_values(f),
    decreases s.len(),
{
    if s.len() > 0 {
        lemma_flat_seq_map(s.drop_last(), f);
        assert(s.map_values(|x: Seq<A>| x.map_values(f)).drop_last() == s.drop_last().map_values(
            |x: Seq<A>| x.map_values(f),
        ));
        assert(flat_seq(s).map_values(f) == flat_seq(s.drop_last()).map_values(f) + s.last().map_values(f));
    }
}

/// Every element of the flattened sequence comes from one of the inner sequences.
pub proof fn lemma_flat_seq_member<T>(s: Seq<Seq<T>>, k: int)
    requires
        0 <= k < flat_seq(s).len(),
    ensures
        exists|i: int, j: int|
            0 <= i < s.len() && 0 <= j < s[i].len() && flat_seq(s)[k] == #[trigger] s[i][j],
    decreases s.len(),
{
    let t = s.drop_last();
    if k < flat_seq(t).len() {
        lemma_flat_seq_member(t, k);
        let (i, j) = choose|i: int, j: int|
            0 <= i < t.len() && 0 <= j < t[i].len() && flat_seq(t)[k] == #[trigger] t[i][j];
        assert(s[i][j] == t[i][j]);
    } else {
        let j = k - flat_seq(t).len();
        assert(flat_seq(s)[k] == s[s.len() - 1][j]);
    }
}

/// The contents of each inner vector.
pub open spec fn views_of<T>(v: Seq<Vec<T>>) -> Seq<Seq<T>> {
    v.map_values(|x: Vec<T>| x@)
}

/// The elements of all inner vectors, one vector after another, each a clone of the
/// element it copies. The vector itself is left as it is.
pub fn vec_flatten<T: Clone>(v: &mut Vec<Vec<T>>) -> (r: Vec<T>)
    ensures
        *final(v) == *old(v),
        r@.len() == flat_seq(views_of(old(v)@)).len(),
        forall|k: int| 0 <= k < r@.len() ==> cloned(flat_seq(views_of(old(v)@))[k], #[trigger] r@[k]),
{
    let mut r: Vec<T> = Vec::new();
    let n = v.len();
    let ghost vs = views_of(v@);
    let mut i: usize = 0;
    while i < n
        invariant
            n == v@.len(),
            vs == views_of(v@),
            i <= n,
            r@.len() == flat_seq(vs.take(i as int)).len(),
            forall|k: int| 0 <= k < r@.len() ==> cloned(flat_seq(vs.take(i as int))[k], #[trigger] r@[k]),
        decreases n - i,
    {
        let inner = &v[i];
        let m = inner.len();
        let ghost base = flat_seq(vs.take(i as int));
        let mut j: usize = 0;
        while j < m
            invariant
                m == inner@.len(),
                inner@ == vs[i as int],
                j <= m,
                r@.len() == base.len() + j,
                forall|k: int| 0 <= k < r@.len() ==> cloned((base + inner@.take(j as int))[k], #[trigger] r@[k]),
            decreases m - j,
        {
            let x = inner[j].clone();
            r.push(x);
            proof {
                assert forall|k: int| 0 <= k < r@.len() implies cloned((base + inner@.take(j + 1))[k], #[trigger] r@[k]) by {
                    if k < r@.len() - 1 {
                        assert((base + inner@.take(j + 1))[k] == (base + inner@.take(j as int))[k]);
                    }
                }
            }
            j = j + 1;
        }
        proof {
            assert(vs.take(i + 1).drop_last() == vs.take(i as int));
            assert(inner@.take(m as int) == inner@);
            assert(flat_seq(vs.take(i + 1)) == base + inner@);
        }
        i = i + 1;
    }
    proof {
        assert(vs.take(n as int) == vs);
    }
    r
}

} // verus!

verus! {

/// The length of the longest row.
pub open spec fn longest_row<T>(ll: Seq<Seq<T>>) -> nat
    decreases ll.len(),
{
    if ll.len() == 0 {
        0
    } else {
        let m = longest_row(ll.drop_last());
        if ll.last().len() > m {
            ll.last().len()
        } else {
            m
        }
    }
}

/// The `i`-th entries of the rows that have one, row after row.
pub open spec fn column_at<T>(ll: Seq<Seq<T>>, i: int) -> Seq<T>
    decreases ll.len(),
{
    if ll.len() == 0 {
        Seq::empty()
    } else {
        column_at(ll.drop_last(), i) + if 0 <= i < ll.last().len() {
            seq![ll.last()[i]]
        } else {
            Seq::empty()
        }
    }
}

/// Rows turned into columns: the `i`-th result holds the `i`-th entry of every row long
/// enough to have one, in row order; there are as many results as the longest row has
/// entries.
pub fn transpose<T: Copy>(ll: &[Vec<T>]) -> (store: Vec<Vec<T>>)
    ensures
        store@.len() == longest_row(views_of(ll@)),
        forall|i: int| 0 <= i < store@.len() ==> #[trigger] store@[i]@ == column_at(views_of(ll@), i),
{
    let mut store: Vec<Vec<T>> = Vec::new();
    let ghost rows = views_of(ll@);
    let n = ll.len();
    let mut k: usize = 0;
    while k < n
        invariant
            n == ll@.len(),
            rows == views_of(ll@),
            k <= n,
            store@.len() == longest_row(rows.take(k as int)),
            forall|i: int| 0 <= i < store@.len() ==> #[trigger] store@[i]@ == column_at(rows.take(k as int), i),
        decreases n - k,
    {
        let row = &ll[k];
        let m = row.len();
        let ghost before = store@;
        let ghost prefix = rows.take(k as int);
        let ghost next = rows.take(k + 1);
        proof {
            assert(next.drop_last() == prefix);
            assert(next.last() == row@);
        }
        let mut j: usize = 0;
        while j < m
            invariant
                m == row@.len(),
                next.last() == row@,
                next.drop_last() == prefix,
                before.len() == longest_row(prefix),
                forall|i: int| 0 <= i < before.len() ==> #[trigger] before[i]@ == column_at(prefix, i),
                j <= m,
                store@.len() == if before.len() > j { before.len() } else { j as nat },
                forall|i: int|
                    0 <= i < store@.len() ==> #[trigger] store@[i]@ == column_at(prefix, i) + if i < j {
                        seq![row@[i]]
                    } else {
                        Seq::empty()
                    },
            decreases m - j,
        {
            let d = row[j];
            if j < store.len() {
                let mut list = Vec::new();
                store.set_and_swap(j, &mut list);
                list.push(d);
                store.set_and_swap(j, &mut list);
            } else {
                let mut fresh: Vec<T> = Vec::new();
                fresh.push(d);
                store.push(fresh);
                proof {
                    assert(column_at(prefix, j as int) == Seq::<T>::empty()) by {
                        lemma_column_past_end(prefix, j as int);
                    }
                }
            }
            proof {
                assert forall|i: int| 0 <= i < store@.len() implies #[trigger] store@[i]@ == column_at(prefix, i) + if i < j + 1 {
                    seq![row@[i]]
                } else {
                    Seq::empty()
                } by {
                    if i == j {
                        if j < before.len() {
                            assert(column_at(prefix, i) + Seq::<T>::empty() == column_at(prefix, i));
                        }
                        assert(column_at(prefix, i) + seq![row@[i]] == column_at(prefix, i).push(row@[i]));
                    }
                }
            }
            j = j + 1;
        }
        proof {
            assert forall|i: int| 0 <= i < store@.len() implies #[trigger] store@[i]@ == column_at(next, i) by {
                if i >= m {
                    assert(column_at(prefix, i) + Seq::<T>::empty() == column_at(prefix, i));
                }
            }
        }
        k = k + 1;
    }
    proof {
        assert(rows.take(n as int) == rows);
    }
    store
}

/// No row reaches past the longest one.
proof fn lemma_column_past_end<T>(ll: Seq<Seq<T>>, i: int)
    requires
        i >= longest_row(ll),
    ensures
        column_at(ll, i) == Seq::<T>::empty(),
    decreases ll.len(),
{
    if ll.len() > 0 {
        lemma_column_past_end(ll.drop_last(), i);
        assert(Seq::<T>::empty() + Seq::<T>::empty() == Seq::<T>::empty());
    }
}

} // verus!
