use vstd::prelude::*;
use crate::charmap::{lemma_lookup, lookup};
use crate::flat::{flatlist_go, grow_levels, kept_levels, lemma_grow_defined};
use crate::kagi::GenerateSetting;
use crate::keymap::{keymap_entries, keymapping};
use crate::spell::first_chars;
use crate::text::push_char;

verus! {

/// Each line followed by a line break.
pub open spec fn lines(ls: Seq<Seq<char>>) -> Seq<char>
    decreases ls.len(),
{
    if ls.len() == 0 {
        Seq::empty()
    } else {
        lines(ls.drop_last()) + ls.last() + seq!['\n']
    }
}

/// A level table as text: every spell on a line of its own, and a blank line after each
/// level.
pub open spec fn rendered(levels: Seq<Seq<Seq<char>>>) -> Seq<char> {
    lines(levels.map_values(|l: Seq<Seq<char>>| lines(l)))
}

/// The levels that generation produces with the key layout.
pub open spec fn generated_levels(setting: GenerateSetting) -> Seq<Seq<Seq<char>>> {
    kept_levels(grow_levels(keymap_entries(), Seq::empty(), setting.len as nat), setting.lenonly)
}

/// Every starting character is a key of the layout.
pub proof fn lemma_first_chars_in_keymap()
    ensures
        forall|i: int|
            0 <= i < first_chars().len() ==> lookup(keymap_entries(), #[trigger] first_chars()[i]) is Some,
{
    assert forall|i: int| 0 <= i < first_chars().len() implies lookup(keymap_entries(), #[trigger] first_chars()[i]) is Some by {
        lemma_lookup(keymap_entries(), first_chars()[i]);
        if i == 0 {
            assert(keymap_entries()[13].0 == 'k');
        } else         if i == 1 {
            assert(keymap_entries()[4].0 == 'd');
        } else         if i == 2 {
            assert(keymap_entries()[12].0 == 'j');
        } else         if i == 3 {
            assert(keymap_entries()[5].0 == 'f');
        } else         if i == 4 {
            assert(keymap_entries()[14].0 == 'l');
        } else         if i == 5 {
            assert(keymap_entries()[3].0 == 's');
        } else         if i == 6 {
            assert(keymap_entries()[10].0 == 'i');
        } else         if i == 7 {
            assert(keymap_entries()[1].0 == 'e');
        } else         if i == 8 {
            assert(keymap_entries()[2].0 == 'r');
        } else         if i == 9 {
            assert(keymap_entries()[9].0 == 'u');
        } else         if i == 10 {
            assert(keymap_entries()[15].0 == 'm');
        } else         if i == 11 {
            assert(keymap_entries()[8].0 == 'c');
        } else         if i == 12 {
            assert(keymap_entries()[11].0 == 'o');
        } else         if i == 13 {
            assert(keymap_entries()[0].0 == 'w');
        } else         if i == 14 {
            assert(keymap_entries()[16].0 == 'n');
        } else         if i == 15 {
            assert(keymap_entries()[7].0 == 'x');
        } else         if i == 16 {
            assert(keymap_entries()[17].0 == 'v');
        } else         if i == 17 {
            assert(keymap_entries()[6].0 == 'z');
        }
    }
}

/// Joins the strings, each followed by a line break.
pub fn reduce_lines(ls: &Vec<String>) -> (s: String)
    ensures
        s@ == lines(ls.deep_view()),
{
    let mut s = String::new();
    let n = ls.len();
    let mut i: usize = 0;
    while i < n
        invariant
            n == ls@.len(),
            i <= n,
            s@ == lines(ls.deep_view().take(i as int)),
        decreases n - i,
    {
        s.append(ls[i].as_str());
        push_char(&mut s, '\n');
        proof {
            assert(ls.deep_view().take(i + 1).drop_last() =~= ls.deep_view().take(i as int));
        }
        i = i + 1;
    }
    proof {
        assert(ls.deep_view().take(n as int) =~= ls.deep_view());
    }
    s
}

/// A level table as text: every spell on a line of its own, a blank line after each level.
pub fn render_levels(t: &Vec<Vec<String>>) -> (s: String)
    ensures
        s@ == rendered(t.deep_view()),
{
    let mut s = String::new();
    let n = t.len();
    let ghost ls = t.deep_view().map_values(|l: Seq<Seq<char>>| lines(l));
    let mut i: usize = 0;
    while i < n
        invariant
            n == t@.len(),
            ls == t.deep_view().map_values(|l: Seq<Seq<char>>| lines(l)),
            i <= n,
            s@ == lines(ls.take(i as int)),
        decreases n - i,
    {
        let level = reduce_lines(&t[i]);
        s.append(level.as_str());
        push_char(&mut s, '\n');
        proof {
            assert(ls.take(i + 1).drop_last() =~= ls.take(i as int));
        }
        i = i + 1;
    }
    proof {
        assert(ls.take(n as int) =~= ls);
    }
    s
}

/// The number of entries of each inner vector.
pub fn len_vec<T>(t: &Vec<Vec<T>>) -> (r: Vec<u64>)
    ensures
        r@.len() == t@.len(),
        forall|i: int| 0 <= i < t@.len() ==> #[trigger] r@[i] == t@[i]@.len(),
{
    let mut r: Vec<u64> = Vec::new();
    let n = t.len();
    let mut i: usize = 0;
    while i < n
        invariant
            n == t@.len(),
            i <= n,
            r@.len() == i,
            forall|k: int| 0 <= k < i ==> #[trigger] r@[k] == t@[k]@.len(),
        decreases n - i,
    {
        r.push(t[i].len() as u64);
        i = i + 1;
    }
    r
}

/// Generates the spell table of `setting` with the key layout: the number of spells of
/// each kept level, and the table as text.
pub fn generate_flatlist(setting: &GenerateSetting) -> (r: (Vec<u64>, String))
    requires
        setting.lenonly ==> setting.len > 0,
    ensures
        r.0@.len() == generated_levels(*setting).len(),
        forall|i: int|
            0 <= i < r.0@.len() ==> #[trigger] r.0@[i] == generated_levels(*setting)[i].len(),
        r.1@ == rendered(generated_levels(*setting)),
{
    let infos = keymapping();
    let mut spellsbylen: Vec<Vec<String>> = Vec::new();
    proof {
        lemma_first_chars_in_keymap();
        assert(spellsbylen.deep_view() =~= Seq::<Seq<Seq<char>>>::empty());
        lemma_grow_defined(infos@, spellsbylen.deep_view(), setting.len as nat);
    }
    let t = flatlist_go(setting, &infos, &mut spellsbylen);
    let lengths = len_vec(&t);
    let content = render_levels(&t);
    proof {
        assert forall|i: int| 0 <= i < lengths@.len() implies #[trigger] lengths@[i] == generated_levels(*setting)[i].len() by {
            assert(t.deep_view()[i] == t@[i].deep_view());
        }
    }
    (lengths, content)
}

/// The decimal digit character of `d`.
pub open spec fn digit_char(d: nat) -> char {
    (48 + d) as char
}

/// The decimal numeral of `n`.
pub open spec fn decimal(n: nat) -> Seq<char>
    decreases n,
{
    if n < 10 {
        seq![digit_char(n)]
    } else {
        decimal(n / 10).push(digit_char(n % 10))
    }
}

fn digit(d: u8) -> (c: char)
    requires
        d < 10,
    ensures
        c == digit_char(d as nat),
{
    (48 + d) as char
}

/// The decimal numeral of a byte.
pub fn u8_decimal(n: u8) -> (s: String)
    ensures
        s@ == decimal(n as nat),
{
    let mut s = String::new();
    if n >= 100 {
        push_char(&mut s, digit(n / 100));
    }
    if n >= 10 {
        push_char(&mut s, digit((n / 10) % 10));
    }
    push_char(&mut s, digit(n % 10));
    proof {
        reveal_with_fuel(decimal, 3);
        if n >= 100 {
            assert(decimal(n as nat / 10) == decimal(n as nat / 100).push(digit_char((n as nat / 10) % 10)));
            assert(s@ =~= decimal(n as nat));
        } else if n >= 10 {
            assert(s@ =~= decimal(n as nat));
        } else {
            assert(s@ =~= decimal(n as nat));
        }
    }
    s
}

/// The name of the file a spell table goes to: `spell`, the spell length, `_only` when
/// only the last level is kept, `_hangul` when the table carries hangul letters, and
/// `.txt`.
pub open spec fn spell_file_name_spec(with_hangul: bool, setting: GenerateSetting) -> Seq<char> {
    seq!['s', 'p', 'e', 'l', 'l'] + decimal(setting.len as nat) + (if setting.lenonly {
        seq!['_', 'o', 'n', 'l', 'y']
    } else {
        Seq::empty()
    }) + (if with_hangul {
        seq!['_', 'h', 'a', 'n', 'g', 'u', 'l']
    } else {
        Seq::empty()
    }) + seq!['.', 't', 'x', 't']
}

/// The name of the file a spell table goes to.
pub fn spell_file_name(with_hangul: bool, setting: &GenerateSetting) -> (name: String)
    ensures
        name@ == spell_file_name_spec(with_hangul, *setting),
{
    let mut name = String::new();
    name.append("spell");
    let num = u8_decimal(setting.len);
    name.append(num.as_str());
    if setting.lenonly {
        name.append("_only");
    }
    if with_hangul {
        name.append("_hangul");
    }
    name.append(".txt");
    proof {
        reveal_strlit("spell");
        reveal_strlit("_only");
        reveal_strlit("_hangul");
        reveal_strlit(".txt");
        assert(name@ =~= spell_file_name_spec(with_hangul, *setting));
    }
    name
}

} // verus!
