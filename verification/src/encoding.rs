use vstd::prelude::*;
use vstd::utf8::{
    decode_first_scalar, encode_scalar, encode_utf8, is_char_boundary, length_of_first_scalar,
    pop_first_scalar,
};

verus! {

/// The first scalar of an encoding spans the encoding of the first character, and the
/// rest is the encoding of the other characters.
proof fn lemma_encode_first(s: Seq<char>)
    requires
        s.len() > 0,
    ensures
        encode_utf8(s) == encode_scalar(s[0] as u32) + encode_utf8(s.drop_first()),
        length_of_first_scalar(encode_utf8(s)) == encode_scalar(s[0] as u32).len(),
        decode_first_scalar(encode_utf8(s)) == s[0] as u32,
        pop_first_scalar(encode_utf8(s)) == encode_utf8(s.drop_first()),
        1 <= encode_scalar(s[0] as u32).len() <= 4,
{
    vstd::utf8::encode_utf8_first_scalar(s);
    assert(pop_first_scalar(encode_utf8(s)) =~= encode_utf8(s.drop_first()));
}

/// The encoding of joined texts is the encodings joined.
pub proof fn lemma_encode_concat(a: Seq<char>, b: Seq<char>)
    ensures
        encode_utf8(a + b) == encode_utf8(a) + encode_utf8(b),
    decreases a.len(),
{
    if a.len() > 0 {
        lemma_encode_concat(a.drop_first(), b);
        assert((a + b).drop_first() =~= a.drop_first() + b);
        assert((a + b)[0] == a[0]);
        assert(encode_utf8(a + b) =~= encode_scalar(a[0] as u32) + encode_utf8(a.drop_first() + b));
        assert(encode_utf8(a) =~= encode_scalar(a[0] as u32) + encode_utf8(a.drop_first()));
    } else {
        assert(a + b =~= b);
    }
}

/// Each character takes at most four bytes.
pub proof fn lemma_encode_len(s: Seq<char>)
    ensures
        s.len() <= encode_utf8(s).len() <= 4 * s.len(),
        s.len() == 0 <==> encode_utf8(s).len() == 0,
    decreases s.len(),
{
    if s.len() > 0 {
        lemma_encode_first(s);
        lemma_encode_len(s.drop_first());
    }
}

/// Different texts have different encodings.
pub proof fn lemma_encode_injective(a: Seq<char>, b: Seq<char>)
    requires
        encode_utf8(a) == encode_utf8(b),
    ensures
        a == b,
{
    vstd::utf8::encode_utf8_decode_utf8(a);
    vstd::utf8::encode_utf8_decode_utf8(b);
}

/// When the encoding of `p` begins the encoding of `s`, the text `p` begins the text `s`.
pub proof fn lemma_byte_prefix_char_prefix(p: Seq<char>, s: Seq<char>)
    requires
        encode_utf8(p).len() <= encode_utf8(s).len(),
        encode_utf8(s).subrange(0, encode_utf8(p).len() as int) == encode_utf8(p),
    ensures
        p.len() <= s.len(),
        s.subrange(0, p.len() as int) == p,
    decreases p.len(),
{
    if p.len() > 0 {
        let a = encode_utf8(p);
        let b = encode_utf8(s);
        lemma_encode_len(p);
        lemma_encode_len(s);
        lemma_encode_first(p);
        lemma_encode_first(s);
        assert(a[0] == b[0]);
        let l = length_of_first_scalar(a);
        assert(length_of_first_scalar(b) == l);
        assert forall|k: int| 0 <= k < l implies a[k] == b[k] by {
            assert(b.subrange(0, a.len() as int)[k] == b[k]);
        }
        assert(decode_first_scalar(a) == decode_first_scalar(b));
        vstd::utf8::char_u32_cast(p[0], decode_first_scalar(a));
        vstd::utf8::char_u32_cast(s[0], decode_first_scalar(b));
        assert(p[0] == s[0]);
        let pa = encode_utf8(p.drop_first());
        let pb = encode_utf8(s.drop_first());
        assert(pa == a.subrange(l, a.len() as int));
        assert(pb == b.subrange(l, b.len() as int));
        assert(pb.subrange(0, pa.len() as int) =~= pa);
        lemma_byte_prefix_char_prefix(p.drop_first(), s.drop_first());
        assert(s.subrange(0, p.len() as int) =~= seq![s[0]] + s.drop_first().subrange(0, p.len() - 1));
        assert(p =~= seq![p[0]] + p.drop_first());
    }
}

/// The encoding of a leading part of a text ends between two characters.
pub proof fn lemma_prefix_char_boundary(p: Seq<char>, s: Seq<char>)
    requires
        p.len() <= s.len(),
        s.subrange(0, p.len() as int) == p,
    ensures
        is_char_boundary(encode_utf8(s), encode_utf8(p).len() as int),
        encode_utf8(p).len() <= encode_utf8(s).len(),
    decreases p.len(),
{
    vstd::utf8::encode_utf8_valid_utf8(s);
    lemma_encode_len(p);
    lemma_encode_len(s);
    if p.len() > 0 {
        lemma_encode_first(p);
        lemma_encode_first(s);
        assert(p[0] == s[0]) by {
            assert(s.subrange(0, p.len() as int)[0] == s[0]);
        }
        assert(s.drop_first().subrange(0, p.len() - 1) =~= p.drop_first()) by {
            assert forall|k: int| 0 <= k < p.len() - 1 implies s.drop_first()[k] == p.drop_first()[k] by {
                assert(s.subrange(0, p.len() as int)[k + 1] == s[k + 1]);
            }
        }
        lemma_prefix_char_boundary(p.drop_first(), s.drop_first());
        vstd::utf8::encode_utf8_valid_utf8(s.drop_first());
    }
}

} // verus!
