use vstd::prelude::*;
use crate::generate::decimal;
use vstd::utf8::{decode_utf8, encode_utf8};
use crate::lists::{column_at, longest_row};
use crate::text::{best_of, least_score, length_score, lemma_least_score, shortest, with_score};
use crate::syllable::{best_key, found_key, key_score, syllable, unique_best};

verus! {

/// The number a string of decimal digits reads as.
pub open spec fn numeral_value(s: Seq<char>) -> int
    decreases s.len(),
{
    if s.len() == 0 {
        0
    } else {
        numeral_value(s.drop_last()) * 10 + (s.last() as int - '0' as int)
    }
}

/// The decimal numeral of `n` is made of digits, has no leading zero, and reads as `n`.
pub proof fn law_decimal_reads_back(n: nat)
    ensures
        decimal(n).len() >= 1,
        forall|i: int| 0 <= i < decimal(n).len() ==> '0' <= #[trigger] decimal(n)[i] <= '9',
        decimal(n)[0] == '0' ==> n == 0,
        numeral_value(decimal(n)) == n,
    decreases n,
{
    if n >= 10 {
        law_decimal_reads_back(n / 10);
        let t = decimal(n / 10);
        let s = decimal(n);
        assert(s == t.push(((48 + n % 10) as char)));
        assert(s.drop_last() == t);
        assert(((48 + n % 10) as char) as int == 48 + n % 10);
        assert forall|i: int| 0 <= i < s.len() implies '0' <= #[trigger] s[i] <= '9' by {
            if i < t.len() {
                assert(s[i] == t[i]);
            }
        }
        assert(s[0] == t[0]);
        assert(numeral_value(s) == numeral_value(t) * 10 + (s.last() as int - '0' as int));
        assert(n == (n / 10) * 10 + n % 10);
    } else {
        let s = decimal(n);
        assert(((48 + n) as char) as int == 48 + n);
        assert(s.drop_last() =~= Seq::<char>::empty());
        assert(numeral_value(s) == numeral_value(s.drop_last()) * 10 + (s.last() as int - '0' as int));
    }
}

/// Turning rows of equal length `n` into columns gives `n` columns; column `i` holds the
/// `i`-th entry of every row, in row order.
pub proof fn law_transpose_rectangular<T>(ll: Seq<Seq<T>>, n: nat)
    requires
        forall|r: int| 0 <= r < ll.len() ==> (#[trigger] ll[r]).len() == n,
    ensures
        ll.len() > 0 ==> longest_row(ll) == n,
        forall|i: int|
            0 <= i < n ==> (#[trigger] column_at(ll, i)).len() == ll.len() && forall|r: int|
                0 <= r < ll.len() ==> #[trigger] column_at(ll, i)[r] == ll[r][i],
    decreases ll.len(),
{
    if ll.len() > 0 {
        let t = ll.drop_last();
        assert forall|r: int| 0 <= r < t.len() implies (#[trigger] t[r]).len() == n by {
            assert(t[r] == ll[r]);
        }
        law_transpose_rectangular(t, n);
        if t.len() == 0 {
            assert(longest_row(t) == 0);
        }
        assert(ll.last() == ll[ll.len() - 1]);
        assert forall|i: int| 0 <= i < n implies (#[trigger] column_at(ll, i)).len() == ll.len()
            && forall|r: int| 0 <= r < ll.len() ==> #[trigger] column_at(ll, i)[r] == ll[r][i] by {
            let c = column_at(ll, i);
            assert(c == column_at(t, i) + seq![ll.last()[i]]);
            assert forall|r: int| 0 <= r < ll.len() implies #[trigger] column_at(ll, i)[r] == ll[r][i] by {
                if r < t.len() {
                    assert(column_at(t, i)[r] == t[r][i]);
                    assert(t[r] == ll[r]);
                }
            }
        }
    }
}

/// When a search for `q` finds the encoding of `q` followed by `rest`, no longer than 100
/// bytes, and scores every other key it finds longer, the trie gives the last character of
/// `rest`.
pub proof fn law_syllable_of_shortest(keys: Set<Seq<u8>>, q: Seq<char>, rest: Seq<char>)
    requires
        rest.len() > 0,
        keys.contains(encode_utf8(q + rest)),
        encode_utf8(q + rest).len() <= 100,
        forall|k: Seq<u8>|
            #[trigger] found_key(keys, q, k) && k != encode_utf8(q + rest) ==> key_score(
                encode_utf8(q + rest),
            ) < key_score(k),
    ensures
        syllable(keys, q) == Some(rest.last()),
{
    let k = encode_utf8(q + rest);
    crate::encoding::lemma_encode_concat(q, rest);
    assert(k.subrange(0, encode_utf8(q).len() as int) =~= encode_utf8(q));
    assert(found_key(keys, q, k));
    assert(key_score(k) == k.len());
    assert(best_key(keys, q, k));
    assert forall|k2: Seq<u8>| #[trigger] best_key(keys, q, k2) implies k2 == k by {
        if k2 != k {
            assert(found_key(keys, q, k2));
        }
    }
    assert(unique_best(keys, q));
    let c = choose|c: Seq<u8>| best_key(keys, q, c);
    assert(c == k);
    assert(k.subrange(encode_utf8(q).len() as int, k.len() as int) =~= encode_utf8(rest));
    vstd::utf8::encode_utf8_decode_utf8(rest);
}

/// The least score is 100 or the score of some string.
proof fn lemma_least_attained(res: Seq<Seq<char>>)
    ensures
        least_score(res) == 100 || exists|j: int|
            0 <= j < res.len() && length_score(#[trigger] res[j]) == least_score(res),
    decreases res.len(),
{
    if res.len() > 0 {
        let t = res.drop_last();
        lemma_least_attained(t);
        if least_score(res) != 100 && least_score(res) != length_score(res.last()) {
            let j = choose|j: int| 0 <= j < t.len() && length_score(#[trigger] t[j]) == least_score(t);
            assert(res[j] == t[j]);
        }
        if least_score(res) == length_score(res.last()) {
            assert(length_score(res[res.len() - 1]) == least_score(res));
        }
    }
}

/// Counting the strings of a score: none, exactly one, or at least two.
proof fn lemma_with_score_count(res: Seq<Seq<char>>, m: i32)
    ensures
        (forall|k: int| 0 <= k < res.len() ==> length_score(#[trigger] res[k]) != m) ==> with_score(
            res,
            m,
        ).len() == 0,
        forall|j: int|
            0 <= j < res.len() && length_score(#[trigger] res[j]) == m && (forall|k: int|
                0 <= k < res.len() && k != j ==> length_score(#[trigger] res[k]) != m) ==> with_score(
                res,
                m,
            ) == seq![res[j]],
        forall|j: int, k: int|
            0 <= j < res.len() && 0 <= k < res.len() && j != k && length_score(#[trigger] res[j]) == m
                && length_score(#[trigger] res[k]) == m ==> with_score(res, m).len() >= 2,
    decreases res.len(),
{
    if res.len() > 0 {
        let t = res.drop_last();
        lemma_with_score_count(t, m);
        let n = res.len() - 1;
        if forall|k: int| 0 <= k < res.len() ==> length_score(#[trigger] res[k]) != m {
            assert forall|k: int| 0 <= k < t.len() implies length_score(#[trigger] t[k]) != m by {
                assert(t[k] == res[k]);
            }
            assert(length_score(res[n]) != m);
        }
        assert forall|j: int|
            0 <= j < res.len() && length_score(#[trigger] res[j]) == m && (forall|k: int|
                0 <= k < res.len() && k != j ==> length_score(#[trigger] res[k]) != m) implies with_score(
            res,
            m,
        ) == seq![res[j]] by {
            if j == n {
                assert forall|k: int| 0 <= k < t.len() implies length_score(#[trigger] t[k]) != m by {
                    assert(t[k] == res[k]);
                    assert(k != j);
                }
                assert(with_score(t, m).len() == 0);
                assert(with_score(t, m).push(res[j]) =~= seq![res[j]]);
            } else {
                assert(t[j] == res[j]);
                assert forall|k: int| 0 <= k < t.len() && k != j implies length_score(#[trigger] t[k]) != m by {
                    assert(t[k] == res[k]);
                }
                assert(length_score(res[n]) != m);
            }
        }
        assert forall|j: int, k: int|
            0 <= j < res.len() && 0 <= k < res.len() && j != k && length_score(#[trigger] res[j]) == m
                && length_score(#[trigger] res[k]) == m implies with_score(res, m).len() >= 2 by {
            if j < n && k < n {
                assert(t[j] == res[j] && t[k] == res[k]);
            } else if j == n {
                assert(t[k] == res[k]);
                assert(with_score(t, m).len() >= 1) by {
                    if with_score(t, m).len() == 0 {
                        assert(forall|i: int| 0 <= i < t.len() ==> length_score(#[trigger] t[i]) != m);
                    }
                }
            } else {
                assert(t[j] == res[j]);
                assert(with_score(t, m).len() >= 1) by {
                    if with_score(t, m).len() == 0 {
                        assert(forall|i: int| 0 <= i < t.len() ==> length_score(#[trigger] t[i]) != m);
                    }
                }
            }
        }
    }
}

/// Picking the best of the strings found succeeds exactly when one string, no longer than
/// 100 bytes, is strictly shorter than every other entry; it then picks that string.
pub proof fn law_best_is_unique_shortest(res: Seq<Seq<char>>)
    ensures
        best_of(res) is Ok <==> exists|j: int|
            0 <= j < res.len() && length_score(#[trigger] res[j]) <= 100 && forall|k: int|
                0 <= k < res.len() && k != j ==> length_score(res[j]) < length_score(#[trigger] res[k]),
        forall|j: int|
            0 <= j < res.len() && length_score(#[trigger] res[j]) <= 100 && (forall|k: int|
                0 <= k < res.len() && k != j ==> length_score(res[j]) < length_score(#[trigger] res[k]))
                ==> best_of(res) == Ok::<Seq<char>, Seq<Seq<char>>>(res[j]),
{
    lemma_least_score(res);
    lemma_least_attained(res);
    let m = least_score(res);
    lemma_with_score_count(res, m);
    assert forall|j: int|
        0 <= j < res.len() && length_score(#[trigger] res[j]) <= 100 && (forall|k: int|
            0 <= k < res.len() && k != j ==> length_score(res[j]) < length_score(#[trigger] res[k]))
            implies best_of(res) == Ok::<Seq<char>, Seq<Seq<char>>>(res[j]) by {
        assert(m <= length_score(res[j]));
        if m != 100 {
            let k = choose|k: int| 0 <= k < res.len() && length_score(#[trigger] res[k]) == m;
            if k != j {
                assert(length_score(res[j]) < length_score(res[k]));
            }
        }
        assert(m == length_score(res[j]));
        assert forall|k: int| 0 <= k < res.len() && k != j implies length_score(#[trigger] res[k]) != m by {
            assert(length_score(res[j]) < length_score(res[k]));
        }
        assert(shortest(res) == seq![res[j]]);
    }
    if best_of(res) is Ok {
        assert(shortest(res).len() == 1);
        if m == 100 && !exists|j: int| 0 <= j < res.len() && length_score(#[trigger] res[j]) == m {
            assert(forall|k: int| 0 <= k < res.len() ==> length_score(#[trigger] res[k]) != m);
        }
        let j = choose|j: int| 0 <= j < res.len() && length_score(#[trigger] res[j]) == m;
        assert forall|k: int| 0 <= k < res.len() && k != j implies length_score(res[j]) < length_score(
            #[trigger] res[k],
        ) by {
            if length_score(res[k]) == m {
                assert(with_score(res, m).len() >= 2);
            }
        }
    }
}

} // verus!
