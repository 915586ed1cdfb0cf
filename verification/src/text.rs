use vstd::prelude::*;
use vstd::utf8::{decode_utf8, encode_utf8, is_char_boundary};

verus! {

/// `String::push`: appends one character.
#[verifier::external_body]
pub(crate) fn push_char(s: &mut String, c: char)
    ensures
        final(s)@ == old(s)@.push(c),
{
    s.push(c)
}

/// The characters of `cs` with one space between neighbours.
pub open spec fn spaced(cs: Seq<char>) -> Seq<char>
    decreases cs.len(),
{
    if cs.len() <= 1 {
        cs
    } else {
        spaced(cs.drop_last()) + seq![' ', cs.last()]
    }
}

/// Joins the characters of `cs`, one space between neighbours.
pub fn chars_spacing(cs: &[char]) -> (s: String)
    ensures
        s@ == spaced(cs@),
{
    let mut s = String::new();
    let n = cs.len();
    let mut i: usize = 0;
    while i < n
        invariant
            n == cs@.len(),
            i <= n,
            s@ == spaced(cs@.take(i as int)),
        decreases n - i,
    {
        if i > 0 {
            push_char(&mut s, ' ');
        }
        push_char(&mut s, cs[i]);
        proof {
            assert(cs@.take(i + 1).drop_last() == cs@.take(i as int));
        }
        i = i + 1;
    }
    proof {
        assert(cs@.take(n as int) == cs@);
    }
    s
}

} // verus!

verus! {

/// The length of a string as the byte count `findbest_from_queried` compares: the byte
/// length of its UTF-8 encoding, taken as an `i32`.
pub open spec fn length_score(s: Seq<char>) -> i32 {
    (encode_utf8(s).len() as usize) as i32
}

/// The least of 100 and the length scores of `res`.
pub open spec fn least_score(res: Seq<Seq<char>>) -> i32
    decreases res.len(),
{
    if res.len() == 0 {
        100
    } else {
        let m = least_score(res.drop_last());
        let f = length_score(res.last());
        if f < m {
            f
        } else {
            m
        }
    }
}

/// The strings of `res` whose length score is `m`, in order.
pub open spec fn with_score(res: Seq<Seq<char>>, m: i32) -> Seq<Seq<char>>
    decreases res.len(),
{
    if res.len() == 0 {
        Seq::empty()
    } else {
        let r = with_score(res.drop_last(), m);
        if length_score(res.last()) == m {
            r.push(res.last())
        } else {
            r
        }
    }
}

/// The shortest strings of `res`, none longer than 100 bytes.
pub open spec fn shortest(res: Seq<Seq<char>>) -> Seq<Seq<char>> {
    with_score(res, least_score(res))
}

/// The single shortest string, or else all the shortest ones (none, or several).
pub open spec fn best_of(res: Seq<Seq<char>>) -> Result<Seq<char>, Seq<Seq<char>>> {
    if shortest(res).len() == 1 {
        Ok(shortest(res)[0])
    } else {
        Err(shortest(res))
    }
}

/// No string scores below the least score.
pub proof fn lemma_least_score(res: Seq<Seq<char>>)
    ensures
        least_score(res) <= 100,
        forall|j: int| 0 <= j < res.len() ==> least_score(res) <= length_score(#[trigger] res[j]),
    decreases res.len(),
{
    if res.len() > 0 {
        lemma_least_score(res.drop_last());
        assert forall|j: int| 0 <= j < res.len() implies least_score(res) <= length_score(#[trigger] res[j]) by {
            if j < res.len() - 1 {
                assert(res[j] == res.drop_last()[j]);
            }
        }
    }
}

/// A score below every string's score picks no string.
proof fn lemma_with_score_empty(res: Seq<Seq<char>>, m: i32)
    requires
        forall|j: int| 0 <= j < res.len() ==> m < length_score(#[trigger] res[j]),
    ensures
        with_score(res, m) == Seq::<Seq<char>>::empty(),
    decreases res.len(),
{
    if res.len() > 0 {
        assert forall|j: int| 0 <= j < res.drop_last().len() implies m < length_score(#[trigger] res.drop_last()[j]) by {
            assert(res.drop_last()[j] == res[j]);
        }
        lemma_with_score_empty(res.drop_last(), m);
        assert(m < length_score(res[res.len() - 1]));
    }
}

/// Among the strings found, the single shortest one, or else every shortest one. Strings
/// longer than 100 bytes never count.
pub fn findbest_from_queried(res: &Vec<String>) -> (r: Result<String, Vec<String>>)
    ensures
        match r {
            Ok(s) => best_of(res.deep_view()) == Ok::<Seq<char>, Seq<Seq<char>>>(s@),
            Err(v) => best_of(res.deep_view()) == Err::<Seq<char>, Seq<Seq<char>>>(v.deep_view()),
        },
{
    let ghost all = res.deep_view();
    let mut store: Vec<String> = Vec::new();
    let mut saitan: i32 = 100;
    let n = res.len();
    let mut i: usize = 0;
    while i < n
        invariant
            n == res@.len(),
            all == res.deep_view(),
            i <= n,
            saitan == least_score(all.take(i as int)),
            store.deep_view() == with_score(all.take(i as int), saitan),
        decreases n - i,
    {
        let f = &res[i];
        let flen = #[verifier::truncate] (f.as_str().len() as i32);
        let ghost prefix = all.take(i as int);
        let ghost next = all.take(i + 1);
        proof {
            assert(next.drop_last() == prefix);
            assert(next.last() == f@);
            assert(flen == length_score(f@));
        }
        if saitan > flen {
            proof {
                lemma_least_score(prefix);
                lemma_with_score_empty(prefix, flen);
            }
            let mut fresh: Vec<String> = Vec::new();
            fresh.push(f.clone());
            store = fresh;
            saitan = flen;
            proof {
                assert(store.deep_view() =~= with_score(next, saitan));
            }
        } else if saitan == flen {
            store.push(f.clone());
            proof {
                assert(store.deep_view() =~= with_score(next, saitan));
            }
        } else {
        }
        i = i + 1;
    }
    proof {
        assert(all.take(n as int) == all);
    }
    let count = store.len();
    if count == 0 {
        Err(store)
    } else if count > 1 {
        Err(store)
    } else {
        let best = store[count - 1].clone();
        proof {
            assert(store.deep_view()[0] == store@[0]@);
        }
        Ok(best)
    }
}

/// The part of `from` after as many bytes as `sub` has.
pub open spec fn after_prefix(sub: Seq<char>, from: Seq<char>) -> Seq<char> {
    decode_utf8(encode_utf8(from).subrange(encode_utf8(sub).len() as int, encode_utf8(from).len() as int))
}

/// The rest of `from` once the first `sub.len()` bytes are cut off; the cut must fall
/// between two characters of `from`.
pub fn str_chushutu_unique(sub: &str, from: &str) -> (r: String)
    requires
        encode_utf8(sub@).len() <= usize::MAX,
        is_char_boundary(encode_utf8(from@), encode_utf8(sub@).len() as int),
    ensures
        r@ == after_prefix(sub@, from@),
        encode_utf8(r@) == encode_utf8(from@).subrange(encode_utf8(sub@).len() as int, encode_utf8(from@).len() as int),
{
    let (_left, right) = from.split_at(sub.len());
    let r = right.to_string();
    proof {
        vstd::string::to_string_from_display_ensures_for_str(right, r);
        vstd::utf8::encode_utf8_decode_utf8(right@);
        assert(r@ == right@);
    }
    r
}

} // verus!
