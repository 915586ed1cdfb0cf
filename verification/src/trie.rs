use vstd::prelude::*;
use vstd::utf8::{encode_utf8, valid_utf8};
use trie_rs::{Trie, TrieBuilder};

verus! {

/// The trie type of `trie_rs`, whose contents are opaque here.
#[verifier::external_type_specification]
#[verifier::external_body]
#[verifier::reject_recursive_types(Label)]
pub struct ExTrie<Label>(Trie<Label>);

/// The trie builder type of `trie_rs`, whose contents are opaque here.
#[verifier::external_type_specification]
#[verifier::external_body]
#[verifier::reject_recursive_types(Label)]
pub struct ExTrieBuilder<Label>(TrieBuilder<Label>);

/// The byte strings a trie holds.
pub uninterp spec fn trie_keys(t: Trie<u8>) -> Set<Seq<u8>>;

/// The byte strings a trie builder has been given.
pub uninterp spec fn builder_keys(b: TrieBuilder<u8>) -> Set<Seq<u8>>;

/// `p` is the beginning of `s`.
pub open spec fn is_byte_prefix(p: Seq<u8>, s: Seq<u8>) -> bool {
    p.len() <= s.len() && s.subrange(0, p.len() as int) == p
}

/// `a` comes before `b` in lexicographic byte order.
pub open spec fn lex_less(a: Seq<u8>, b: Seq<u8>) -> bool {
    exists|k: int|
        0 <= k <= a.len() && k <= b.len() && a.subrange(0, k) == b.subrange(0, k) && ((k == a.len()
            && k < b.len()) || (k < a.len() && k < b.len() && a[k] < b[k]))
}

/// `found` is what a predictive search for `q` over `keys` gives: the keys that begin with
/// the bytes of `q`, each once, in lexicographic byte order.
pub open spec fn search_result(keys: Set<Seq<u8>>, q: Seq<char>, found: Seq<Seq<char>>) -> bool {
    &&& forall|i: int|
        0 <= i < found.len() ==> keys.contains(encode_utf8(#[trigger] found[i])) && is_byte_prefix(
            encode_utf8(q),
            encode_utf8(found[i]),
        )
    &&& forall|k: Seq<u8>|
        keys.contains(k) && is_byte_prefix(encode_utf8(q), k) ==> exists|i: int|
            0 <= i < found.len() && encode_utf8(#[trigger] found[i]) == k
    &&& forall|i: int, j: int|
        0 <= i < j < found.len() ==> lex_less(encode_utf8(#[trigger] found[i]), encode_utf8(#[trigger] found[j]))
}

/// `TrieBuilder::new`: a builder that holds no key yet.
#[verifier::external_body]
fn trie_builder_new() -> (b: TrieBuilder<u8>)
    ensures
        builder_keys(b) == Set::<Seq<u8>>::empty(),
{
    TrieBuilder::new()
}

/// `TrieBuilder::push`: adds the UTF-8 bytes of `word` as a key. The builder panics on an
/// empty key, so the word must not be empty.
#[verifier::external_body]
fn trie_builder_push(b: &mut TrieBuilder<u8>, word: &str)
    requires
        word@.len() > 0,
    ensures
        builder_keys(*final(b)) == builder_keys(*old(b)).insert(encode_utf8(word@)),
{
    b.push(word)
}

/// `TrieBuilder::build`: a trie holding the keys the builder was given.
#[verifier::external_body]
fn trie_builder_build(b: TrieBuilder<u8>) -> (t: Trie<u8>)
    ensures
        trie_keys(t) == builder_keys(b),
{
    b.build()
}

/// `Trie::predictive_search`, collected into strings: every key that begins with the bytes
/// of `query`, once each, in lexicographic byte order. Collecting a key into a `String`
/// panics unless the key is valid UTF-8, so every key must be.
#[verifier::external_body]
fn trie_predictive_search(t: &Trie<u8>, query: &str) -> (r: Vec<String>)
    requires
        forall|k: Seq<u8>| trie_keys(*t).contains(k) ==> valid_utf8(k),
    ensures
        search_result(trie_keys(*t), query@, r.deep_view()),
{
    t.predictive_search::<String, _>(query).collect()
}

/// The keys a trie built from `words` holds: the bytes of every non-empty word.
pub open spec fn word_keys(words: Seq<Seq<char>>) -> Set<Seq<u8>> {
    Set::new(|k: Seq<u8>| exists|i: int| 0 <= i < words.len() && words[i].len() > 0 && k == encode_utf8(#[trigger] words[i]))
}

/// One more word adds its bytes to the keys, unless it is empty.
pub proof fn lemma_word_keys_push(words: Seq<Seq<char>>)
    requires
        words.len() > 0,
    ensures
        word_keys(words) == if words.last().len() > 0 {
            word_keys(words.drop_last()).insert(encode_utf8(words.last()))
        } else {
            word_keys(words.drop_last())
        },
{
    let before = words.drop_last();
    let w = words.last();
    assert forall|k: Seq<u8>| word_keys(before).contains(k) implies word_keys(words).contains(k) by {
        let j = choose|j: int| 0 <= j < before.len() && before[j].len() > 0 && k == encode_utf8(#[trigger] before[j]);
        assert(words[j] == before[j]);
    }
    assert forall|k: Seq<u8>| word_keys(words).contains(k) && k != encode_utf8(w) implies word_keys(before).contains(k) by {
        let j = choose|j: int| 0 <= j < words.len() && words[j].len() > 0 && k == encode_utf8(#[trigger] words[j]);
        assert(words[j] == before[j]);
    }
    if w.len() > 0 {
        assert(words[words.len() - 1] == w);
        assert(word_keys(words) =~= word_keys(before).insert(encode_utf8(w)));
    } else {
        assert forall|k: Seq<u8>| word_keys(words).contains(k) implies word_keys(before).contains(k) by {
            let j = choose|j: int| 0 <= j < words.len() && words[j].len() > 0 && k == encode_utf8(#[trigger] words[j]);
            assert(words[j] == before[j]);
        }
        assert(word_keys(words) =~= word_keys(before));
    }
}

/// A trie of words whose keys are all valid UTF-8 text.
pub struct HangulTrie {
    trie: Trie<u8>,
}

impl HangulTrie {
    #[verifier::type_invariant]
    closed spec fn keys_are_text(self) -> bool {
        forall|k: Seq<u8>| trie_keys(self.trie).contains(k) ==> valid_utf8(k)
    }

    /// The byte strings the trie holds.
    pub closed spec fn keys(&self) -> Set<Seq<u8>> {
        trie_keys(self.trie)
    }

    /// A trie holding every non-empty word of `words`; empty words are skipped.
    pub fn new(words: &Vec<String>) -> (t: Self)
        ensures
            t.keys() == word_keys(words.deep_view()),
    {
        let mut b = trie_builder_new();
        let n = words.len();
        let mut i: usize = 0;
        while i < n
            invariant
                n == words@.len(),
                i <= n,
                builder_keys(b) == word_keys(words.deep_view().take(i as int)),
            decreases n - i,
        {
            let w = words[i].as_str();
            proof {
                lemma_word_keys_push(words.deep_view().take(i + 1));
                assert(words.deep_view().take(i + 1).drop_last() == words.deep_view().take(i as int));
                assert(words.deep_view().take(i + 1).last() == w@);
            }
            if w.unicode_len() > 0 {
                trie_builder_push(&mut b, w);
            }
            i = i + 1;
        }
        proof {
            assert(words.deep_view().take(n as int) == words.deep_view());
        }
        let trie = trie_builder_build(b);
        proof {
            broadcast use vstd::utf8::encode_utf8_valid_utf8;
            assert forall|k: Seq<u8>| trie_keys(trie).contains(k) implies valid_utf8(k) by {
                let ws = words.deep_view();
                let j = choose|j: int| 0 <= j < ws.len() && ws[j].len() > 0 && k == encode_utf8(#[trigger] ws[j]);
            }
        }
        HangulTrie { trie }
    }

    /// Every key that begins with the bytes of `query`, once each, in lexicographic byte
    /// order.
    pub fn prefix_search_trie(&self, query: &str) -> (r: Vec<String>)
        ensures
            search_result(self.keys(), query@, r.deep_view()),
    {
        proof {
            use_type_invariant(self);
        }
        trie_predictive_search(&self.trie, query)
    }
}

} // verus!
