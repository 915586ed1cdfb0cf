use vstd::prelude::*;

verus! {

/// No key occurs twice among the entries.
pub open spec fn distinct_keys<V>(s: Seq<(char, V)>) -> bool {
    forall|i: int, j: int| 0 <= i < s.len() && 0 <= j < s.len() && i != j ==> s[i].0 != s[j].0
}

/// Some entry has key `c`.
pub open spec fn has_key<V>(s: Seq<(char, V)>, c: char) -> bool {
    exists|i: int| 0 <= i < s.len() && s[i].0 == c
}

/// The value stored under `c`: that of the last entry with key `c`, if any.
pub open spec fn lookup<V>(s: Seq<(char, V)>, c: char) -> Option<V>
    decreases s.len(),
{
    if s.len() == 0 {
        None
    } else if s.last().0 == c {
        Some(s.last().1)
    } else {
        lookup(s.drop_last(), c)
    }
}

/// `lookup` finds exactly the keys that occur, and with distinct keys it finds the entry
/// at the key's position.
pub proof fn lemma_lookup<V>(s: Seq<(char, V)>, c: char)
    ensures
        lookup(s, c) is Some <==> has_key(s, c),
        distinct_keys(s) ==> forall|i: int|
            0 <= i < s.len() && #[trigger] s[i].0 == c ==> lookup(s, c) == Some(s[i].1),
    decreases s.len(),
{
    if s.len() > 0 {
        let t = s.drop_last();
        lemma_lookup(t, c);
        if has_key(s, c) && s.last().0 != c {
            let i = choose|i: int| 0 <= i < s.len() && s[i].0 == c;
            assert(t[i].0 == c);
        }
        if has_key(t, c) {
            let i = choose|i: int| 0 <= i < t.len() && t[i].0 == c;
            assert(s[i].0 == c);
        }
    }
}

/// Inserting under a key replaces its entry, or adds one at the end.
pub open spec fn map_insert<V>(s: Seq<(char, V)>, k: char, v: V) -> Seq<(char, V)> {
    if has_key(s, k) {
        s.update(choose|i: int| 0 <= i < s.len() && s[i].0 == k, (k, v))
    } else {
        s.push((k, v))
    }
}

/// Inserting every pair of `s` in turn into an empty map.
pub open spec fn map_from_seq<V>(s: Seq<(char, V)>) -> Seq<(char, V)>
    decreases s.len(),
{
    if s.len() == 0 {
        Seq::empty()
    } else {
        map_insert(map_from_seq(s.drop_last()), s.last().0, s.last().1)
    }
}

/// With distinct keys, inserting the pairs in turn keeps them as they are.
pub proof fn lemma_from_seq_distinct<V>(s: Seq<(char, V)>)
    requires
        distinct_keys(s),
    ensures
        map_from_seq(s) == s,
    decreases s.len(),
{
    if s.len() > 0 {
        let t = s.drop_last();
        assert(distinct_keys(t));
        lemma_from_seq_distinct(t);
        if has_key(t, s.last().0) {
            let i = choose|i: int| 0 <= i < t.len() && t[i].0 == s.last().0;
            assert(s[i].0 == s[s.len() - 1].0);
        }
        assert(t.push(s.last()) == s);
    }
}

/// A map keyed by characters that keeps its entries in insertion order.
pub struct CharMap<V> {
    entries: Vec<(char, V)>,
}

impl<V> View for CharMap<V> {
    type V = Seq<(char, V)>;

    closed spec fn view(&self) -> Seq<(char, V)> {
        self.entries@
    }
}

impl<V> CharMap<V> {
    #[verifier::type_invariant]
    closed spec fn keys_unique(self) -> bool {
        distinct_keys(self.entries@)
    }

    /// An empty map.
    pub fn new() -> (m: Self)
        ensures
            m@ == Seq::<(char, V)>::empty(),
    {
        CharMap { entries: Vec::new() }
    }

    /// The number of keys.
    pub fn len(&self) -> (n: usize)
        ensures
            n == self@.len(),
    {
        self.entries.len()
    }

    /// The entries in insertion order.
    pub fn as_vec(&self) -> (v: &Vec<(char, V)>)
        ensures
            v@ == self@,
            distinct_keys(self@),
    {
        proof {
            use_type_invariant(self);
        }
        &self.entries
    }

    /// The position of key `k`, if it is present.
    fn position(&self, k: char) -> (r: Option<usize>)
        ensures
            match r {
                Some(i) => i < self@.len() && self@[i as int].0 == k,
                None => !has_key(self@, k),
            },
    {
        let n = self.entries.len();
        let mut i: usize = 0;
        while i < n
            invariant
                n == self@.len(),
                self@ == self.entries@,
                i <= n,
                forall|j: int| 0 <= j < i ==> self@[j].0 != k,
            decreases n - i,
        {
            if self.entries[i].0 == k {
                return Some(i);
            }
            i = i + 1;
        }
        None
    }

    /// The value stored under `k`.
    pub fn get(&self, k: &char) -> (r: Option<&V>)
        ensures
            match r {
                Some(v) => lookup(self@, *k) == Some(*v),
                None => lookup(self@, *k) is None,
            },
    {
        proof {
            use_type_invariant(self);
            lemma_lookup(self@, *k);
        }
        match self.position(*k) {
            Some(i) => Some(&self.entries[i].1),
            None => None,
        }
    }

    /// Whether `k` is a key.
    pub fn contains_key(&self, k: &char) -> (b: bool)
        ensures
            b == has_key(self@, *k),
    {
        self.position(*k).is_some()
    }

    /// Stores `v` under `k` and hands back the value it replaces, if any.
    pub fn insert(&mut self, k: char, v: V) -> (old_value: Option<V>)
        ensures
            final(self)@ == map_insert(old(self)@, k, v),
            match old_value {
                Some(o) => lookup(old(self)@, k) == Some(o),
                None => lookup(old(self)@, k) is None,
            },
            forall|c: char| lookup(final(self)@, c) == if c == k { Some(v) } else { lookup(old(self)@, c) },
    {
        proof {
            use_type_invariant(&*self);
            lemma_lookup(self@, k);
        }
        let ghost before = self@;
        let pos = self.position(k);
        let mut entries: Vec<(char, V)> = Vec::new();
        std::mem::swap(&mut entries, &mut self.entries);
        match pos {
            Some(i) => {
                let ghost j = choose|j: int| 0 <= j < before.len() && before[j].0 == k;
                assert(j == i);
                let mut pair = (k, v);
                entries.set_and_swap(i, &mut pair);
                proof {
                    assert(entries@ == map_insert(before, k, v));
                    assert(distinct_keys(entries@)) by {
                        assert forall|a: int, b: int| 0 <= a < entries@.len() && 0 <= b < entries@.len() && a != b
                            implies entries@[a].0 != entries@[b].0 by {
                            assert(entries@[a].0 == before[a].0);
                            assert(entries@[b].0 == before[b].0);
                        }
                    }
                }
                self.entries = entries;
                proof {
                    assert(self@ == map_insert(before, k, v));
                    lemma_lookup(self@, k);
                    assert forall|c: char| lookup(self@, c) == if c == k { Some(v) } else { lookup(before, c) } by {
                        lemma_lookup(self@, c);
                        lemma_lookup(before, c);
                        if c == k {
                            assert(self@[i as int].0 == k);
                        } else {
                            if has_key(before, c) {
                                let m = choose|m: int| 0 <= m < before.len() && before[m].0 == c;
                                assert(self@[m] == before[m]);
                                assert(self@[m].0 == c);
                            }
                            if has_key(self@, c) {
                                let m = choose|m: int| 0 <= m < self@.len() && self@[m].0 == c;
                                assert(self@[m] == before[m]);
                                assert(before[m].0 == c);
                            }
                        }
                    }
                }
                Some(pair.1)
            },
            None => {
                entries.push((k, v));
                self.entries = entries;
                proof {
                    assert(self@ == map_insert(before, k, v));
                    assert forall|c: char| lookup(self@, c) == if c == k { Some(v) } else { lookup(before, c) } by {
                        assert(self@.drop_last() == before);
                    }
                }
                None
            },
        }
    }

    /// A map holding the pairs of `pairs`; a later pair with the same key replaces an
    /// earlier one.
    pub fn from_vec(pairs: Vec<(char, V)>) -> (m: Self)
        ensures
            m@ == map_from_seq(pairs@),
    {
        let mut m = CharMap::new();
        let mut rest = pairs;
        let ghost all = rest@;
        let ghost mut i: int = 0;
        while rest.len() > 0
            invariant
                0 <= i <= all.len(),
                rest@ == all.subrange(i, all.len() as int),
                m@ == map_from_seq(all.subrange(0, i)),
            decreases rest@.len(),
        {
            let (k, v) = rest.remove(0);
            proof {
                assert(all.subrange(0, i + 1).drop_last() == all.subrange(0, i));
                assert(all[i] == (k, v));
            }
            m.insert(k, v);
            proof {
                i = i + 1;
                assert(rest@ == all.subrange(i, all.len() as int));
            }
        }
        proof {
            assert(all.subrange(0, i) == all);
        }
        m
    }
}

} // verus!
