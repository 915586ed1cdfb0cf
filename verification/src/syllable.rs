use vstd::prelude::*;
use vstd::utf8::{decode_utf8, encode_utf8};
use crate::encoding::lemma_encode_injective;
use crate::flat::last_char;
use crate::text::{after_prefix, best_of, least_score, length_score, shortest, with_score};
use crate::trie::{is_byte_prefix, lex_less, search_result};

verus! {

/// `k` is a key that a search for `q` finds.
pub open spec fn found_key(keys: Set<Seq<u8>>, q: Seq<char>, k: Seq<u8>) -> bool {
    keys.contains(k) && is_byte_prefix(encode_utf8(q), k)
}

/// The length of a key as `findbest_from_queried` scores it.
pub open spec fn key_score(k: Seq<u8>) -> i32 {
    (k.len() as usize) as i32
}

/// `k` is a shortest key found for `q`, and no longer than 100 bytes.
pub open spec fn best_key(keys: Set<Seq<u8>>, q: Seq<char>, k: Seq<u8>) -> bool {
    &&& found_key(keys, q, k)
    &&& key_score(k) <= 100
    &&& forall|k2: Seq<u8>| #[trigger] found_key(keys, q, k2) ==> key_score(k) <= key_score(k2)
}

/// Exactly one key is a best key for `q`.
pub open spec fn unique_best(keys: Set<Seq<u8>>, q: Seq<char>) -> bool {
    exists|k: Seq<u8>| #[trigger] best_key(keys, q, k) && forall|k2: Seq<u8>| #[trigger] best_key(keys, q, k2) ==> k2 == k
}

/// The character a trie gives for the query `q`: when exactly one shortest key begins
/// with `q`, the last character of what follows `q` in it.
pub open spec fn syllable(keys: Set<Seq<u8>>, q: Seq<char>) -> Option<char> {
    if unique_best(keys, q) {
        let k = choose|k: Seq<u8>| best_key(keys, q, k);
        last_char(decode_utf8(k.subrange(encode_utf8(q).len() as int, k.len() as int)))
    } else {
        None
    }
}

/// No entry occurs twice.
pub open spec fn no_repeats<T>(s: Seq<T>) -> bool {
    forall|i: int, j: int| 0 <= i < j < s.len() ==> s[i] != s[j]
}

proof fn lemma_with_score_members(res: Seq<Seq<char>>, m: i32)
    ensures
        forall|x: Seq<char>| #[trigger] with_score(res, m).contains(x) <==> (res.contains(x) && length_score(x) == m),
        no_repeats(res) ==> no_repeats(with_score(res, m)),
    decreases res.len(),
{
    if res.len() > 0 {
        let t = res.drop_last();
        lemma_with_score_members(t, m);
        let w = with_score(res, m);
        let wt = with_score(t, m);
        assert forall|x: Seq<char>| #[trigger] w.contains(x) implies (res.contains(x) && length_score(x) == m) by {
            let i = choose|i: int| 0 <= i < w.len() && w[i] == x;
            if i < wt.len() {
                assert(wt[i] == x);
                assert(wt.contains(x));
                assert(t.contains(x));
                let j = choose|j: int| 0 <= j < t.len() && t[j] == x;
                assert(res[j] == x);
            } else {
                assert(res[res.len() - 1] == x);
            }
        }
        assert forall|x: Seq<char>| res.contains(x) && length_score(x) == m implies #[trigger] w.contains(x) by {
            let j = choose|j: int| 0 <= j < res.len() && res[j] == x;
            if j < t.len() {
                assert(t[j] == x);
                assert(t.contains(x));
                assert(wt.contains(x));
                let i = choose|i: int| 0 <= i < wt.len() && wt[i] == x;
                assert(w[i] == x);
            } else {
                assert(w[w.len() - 1] == x);
            }
        }
        if no_repeats(res) {
            assert(no_repeats(t));
            if length_score(res.last()) == m {
                assert forall|i: int, j: int| 0 <= i < j < w.len() implies w[i] != w[j] by {
                    if j == w.len() - 1 {
                        assert(w[i] == wt[i]);
                        assert(wt.contains(wt[i]));
                        assert(t.contains(wt[i]));
                        let k = choose|k: int| 0 <= k < t.len() && t[k] == wt[i];
                        assert(res[k] == t[k]);
                    } else {
                        assert(w[i] == wt[i]);
                        assert(w[j] == wt[j]);
                    }
                }
            }
        }
    }
}

proof fn lemma_least_attained(res: Seq<Seq<char>>)
    ensures
        least_score(res) == 100 || exists|j: int| 0 <= j < res.len() && length_score(#[trigger] res[j]) == least_score(res),
    decreases res.len(),
{
    if res.len() > 0 {
        let t = res.drop_last();
        lemma_least_attained(t);
        if least_score(res) != 100 && least_score(res) == least_score(t) {
            let j = choose|j: int| 0 <= j < t.len() && length_score(#[trigger] t[j]) == least_score(t);
            assert(res[j] == t[j]);
        } else if least_score(res) != 100 {
            assert(length_score(res[res.len() - 1]) == least_score(res));
        }
    }
}

/// The shortest strings are the strings found with the least score.
pub proof fn lemma_shortest_members(res: Seq<Seq<char>>)
    ensures
        forall|x: Seq<char>| #[trigger] shortest(res).contains(x) <==> (res.contains(x) && length_score(x) == least_score(res)),
{
    lemma_with_score_members(res, least_score(res));
}

/// A search finds no string twice.
proof fn lemma_found_no_repeats(keys: Set<Seq<u8>>, q: Seq<char>, found: Seq<Seq<char>>)
    requires
        search_result(keys, q, found),
    ensures
        no_repeats(found),
{
    assert forall|i: int, j: int| 0 <= i < j < found.len() implies found[i] != found[j] by {
        assert(lex_less(encode_utf8(found[i]), encode_utf8(found[j])));
    }
}

/// A found string has the least score exactly when its key is a best key.
proof fn lemma_least_iff_best(keys: Set<Seq<u8>>, q: Seq<char>, found: Seq<Seq<char>>)
    requires
        search_result(keys, q, found),
    ensures
        forall|j: int|
            0 <= j < found.len() ==> (length_score(#[trigger] found[j]) == least_score(found) <==> best_key(
                keys,
                q,
                encode_utf8(found[j]),
            )),
{
    let m = least_score(found);
    lemma_least_attained(found);
    crate::text::lemma_least_score(found);
    assert forall|j: int| 0 <= j < found.len() implies (length_score(#[trigger] found[j]) == m <==> best_key(
        keys,
        q,
        encode_utf8(found[j]),
    )) by {
        let k = encode_utf8(found[j]);
        assert(found_key(keys, q, k));
        if length_score(found[j]) == m {
            assert forall|k2: Seq<u8>| #[trigger] found_key(keys, q, k2) implies key_score(k) <= key_score(k2) by {
                let i = choose|i: int| 0 <= i < found.len() && encode_utf8(#[trigger] found[i]) == k2;
                assert(length_score(found[i]) >= m);
            }
        }
        if best_key(keys, q, k) {
            if m != 100 {
                let j0 = choose|j0: int| 0 <= j0 < found.len() && length_score(#[trigger] found[j0]) == m;
                assert(found_key(keys, q, encode_utf8(found[j0])));
            }
        }
    }
}

proof fn lemma_single_is_unique(keys: Set<Seq<u8>>, q: Seq<char>, found: Seq<Seq<char>>)
    requires
        search_result(keys, q, found),
        shortest(found).len() == 1,
    ensures
        unique_best(keys, q),
        best_key(keys, q, encode_utf8(shortest(found)[0])),
        syllable(keys, q) == last_char(after_prefix(q, shortest(found)[0])),
{
    let m = least_score(found);
    let s = shortest(found);
    lemma_with_score_members(found, m);
    lemma_least_iff_best(keys, q, found);
    let one = s[0];
    assert(s.contains(one));
    let j = choose|j: int| 0 <= j < found.len() && found[j] == one;
    let k = encode_utf8(one);
    assert(length_score(found[j]) == m);
    assert(best_key(keys, q, k));
    assert forall|k2: Seq<u8>| #[trigger] best_key(keys, q, k2) implies k2 == k by {
        let i = choose|i: int| 0 <= i < found.len() && encode_utf8(#[trigger] found[i]) == k2;
        assert(length_score(found[i]) == m);
        assert(found.contains(found[i]));
        assert(s.contains(found[i]));
        let l = choose|l: int| 0 <= l < s.len() && s[l] == found[i];
        assert(l == 0);
    }
    assert(unique_best(keys, q));
    let c = choose|c: Seq<u8>| best_key(keys, q, c);
    assert(c == k);
}

proof fn lemma_unique_is_single(keys: Set<Seq<u8>>, q: Seq<char>, found: Seq<Seq<char>>)
    requires
        search_result(keys, q, found),
        unique_best(keys, q),
    ensures
        shortest(found).len() == 1,
{
    let m = least_score(found);
    let s = shortest(found);
    lemma_found_no_repeats(keys, q, found);
    lemma_with_score_members(found, m);
    lemma_least_iff_best(keys, q, found);
    let k = choose|k: Seq<u8>| #[trigger] best_key(keys, q, k) && forall|k2: Seq<u8>| #[trigger] best_key(keys, q, k2) ==> k2 == k;
    assert(found_key(keys, q, k));
    let i = choose|i: int| 0 <= i < found.len() && encode_utf8(#[trigger] found[i]) == k;
    assert(length_score(found[i]) == m);
    assert(found.contains(found[i]));
    assert(s.contains(found[i]));
    if s.len() >= 2 {
        assert(s.contains(s[0]));
        assert(s.contains(s[1]));
        let a = choose|a: int| 0 <= a < found.len() && found[a] == s[0];
        let b = choose|b: int| 0 <= b < found.len() && found[b] == s[1];
        assert(best_key(keys, q, encode_utf8(found[a])));
        assert(best_key(keys, q, encode_utf8(found[b])));
        lemma_encode_injective(found[a], found[b]);
        assert(false);
    }
}

/// Picking the best of a search result agrees with the best key of the searched keys: the
/// pick succeeds exactly when one key is best, and then it picks that key.
pub proof fn lemma_best_of_search(keys: Set<Seq<u8>>, q: Seq<char>, found: Seq<Seq<char>>)
    requires
        search_result(keys, q, found),
    ensures
        best_of(found) is Ok <==> unique_best(keys, q),
        best_of(found) matches Ok(one) ==> best_key(keys, q, encode_utf8(one)) && is_byte_prefix(
            encode_utf8(q),
            encode_utf8(one),
        ) && syllable(keys, q) == last_char(after_prefix(q, one)),
{
    if shortest(found).len() == 1 {
        lemma_single_is_unique(keys, q, found);
    } else if unique_best(keys, q) {
        lemma_unique_is_single(keys, q, found);
    }
}

} // verus!
