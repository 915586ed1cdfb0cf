use lei::{
    add_hangul, chars_spacing, dan_to_num, findbest_from_queried, find_hangul, flatlist_go,
    flatlist_go_with_hangul, fu_yubi_pre, fu_yubi_prre, generate_flatlist, generate_flatlist_with_hangul,
    hangul_cmap, keymapping, last_of, len_vec, next_chars, next_chars_with_hangul, pick_syllable,
    reduce_lines, render_levels, rule2, rule_fluent, rule_pre, rule_wn_little_fluent, sort_scored,
    spell_file_name, str_chushutu_unique, transpose, traslate_in_hangul, u8_decimal, vec_flatten,
    vowel, yue_dan_pre, yue_dan_prre, CharComposition, CharMap, Dan, GenerateSetting, HangulTrie,
    Kagi, Rules2, Sayu, Table, Yubi,
};

fn key(c: char) -> Kagi {
    *keymapping().get(&c).unwrap()
}

fn setting(len: u8, lenonly: bool) -> GenerateSetting {
    GenerateSetting { len, lenonly, table: Table::Nv, rule: Rules2::Fluent }
}

fn strings(v: &[&str]) -> Vec<String> {
    v.iter().map(|s| s.to_string()).collect()
}

#[test]
fn dan_heights() {
    assert_eq!(dan_to_num(&Dan::Ge), 0);
    assert_eq!(dan_to_num(&Dan::Chu), 1);
    assert_eq!(dan_to_num(&Dan::Jo), 2);
}

#[test]
fn same_finger_pairs() {
    // w (left ring, upper) and s (left ring, home)
    assert!(fu_yubi_pre(&key('w'), &key('s')));
    // w and o: ring fingers of different hands
    assert!(!fu_yubi_pre(&key('w'), &key('o')));
    assert!(fu_yubi_prre(&key('d'), &key('k'), &key('e')));
    assert!(!fu_yubi_prre(&key('d'), &key('k'), &key('f')));
}

#[test]
fn row_leap_pairs() {
    // r (left upper) and c (left lower) leap over the home row
    assert!(yue_dan_pre(&key('r'), &key('c')));
    assert!(yue_dan_pre(&key('c'), &key('r')));
    // r and f are neighbouring rows
    assert!(!yue_dan_pre(&key('r'), &key('f')));
    // r and m: different hands
    assert!(!yue_dan_pre(&key('r'), &key('m')));
    assert!(yue_dan_prre(&key('k'), &key('r'), &key('x')));
    assert!(!yue_dan_prre(&key('k'), &key('r'), &key('f')));
}

#[test]
fn two_key_rule() {
    assert!(rule_pre(&key('d'), &key('k')));
    assert!(!rule_pre(&key('d'), &key('e')));
    assert!(!rule_pre(&key('e'), &key('c')));
    assert!(!rule_pre(&key('k'), &key('k')));
}

#[test]
fn three_key_rules() {
    // next j, pre d, prre s: no finger repeats and no row is leapt over
    assert!(rule_fluent(&key('j'), &key('d'), &key('s')));
    // pre e and prre c leap rows on the left hand: strict rule refuses, lenient accepts
    assert!(!rule_fluent(&key('j'), &key('e'), &key('c')));
    assert!(rule_wn_little_fluent(&key('j'), &key('e'), &key('c')));
    // the same finger two steps apart is refused by both
    assert!(!rule_fluent(&key('j'), &key('d'), &key('e')));
    assert!(!rule_wn_little_fluent(&key('j'), &key('d'), &key('e')));
}

#[test]
fn rule2_uses_the_key_before() {
    let infos = keymapping();
    let j = key('j');
    let e = key('e');
    assert!(!rule2(&Rules2::Fluent, &j, &e, &Some('c'), &infos));
    assert!(rule2(&Rules2::WnLittleFluent, &j, &e, &Some('c'), &infos));
    assert!(rule2(&Rules2::Fluent, &j, &e, &None, &infos));
    assert!(!rule2(&Rules2::Fluent, &key('d'), &e, &None, &infos));
}

#[test]
fn layout_table() {
    let m = keymapping();
    assert_eq!(m.len(), 18);
    let w = m.get(&'w').unwrap();
    assert_eq!(*w, Kagi { ch: 'w', yubi: Yubi::Kusuri, dan: Dan::Jo, sayu: Sayu::Left });
    let v = m.get(&'v').unwrap();
    assert_eq!(*v, Kagi { ch: 'v', yubi: Yubi::Kusuri, dan: Dan::Ge, sayu: Sayu::Right });
    assert!(m.get(&'q').is_none());
    for (c, k) in m.as_vec().iter() {
        assert_eq!(*c, k.ch);
    }
}

#[test]
fn consonant_table() {
    let h = hangul_cmap();
    assert_eq!(h.len(), 18);
    assert_eq!(*h.get(&'d').unwrap(), 'ㄱ');
    assert_eq!(*h.get(&'v').unwrap(), 'ㅆ');
    assert!(h.get(&'q').is_none());
}

#[test]
fn charmap_insert_replaces() {
    let mut m: CharMap<u32> = CharMap::new();
    assert_eq!(m.insert('a', 1), None);
    assert_eq!(m.insert('b', 2), None);
    assert_eq!(m.insert('a', 3), Some(1));
    assert_eq!(m.len(), 2);
    assert_eq!(*m.get(&'a').unwrap(), 3);
    assert_eq!(*m.get(&'b').unwrap(), 2);
    assert!(m.contains_key(&'b'));
    assert!(!m.contains_key(&'c'));
    let f = CharMap::from_vec(vec![('x', 1u32), ('y', 2), ('x', 5)]);
    assert_eq!(f.len(), 2);
    assert_eq!(*f.get(&'x').unwrap(), 5);
    assert_eq!(f.as_vec()[0].0, 'x');
}

#[test]
fn first_characters() {
    let infos = keymapping();
    assert_eq!(next_chars(None, None, &infos), "kdjflsierumcownxvz");
}

#[test]
fn next_after_one_key() {
    let infos = keymapping();
    assert_eq!(next_chars(None, Some('k'), &infos), "dfjslecmrwouxzv");
    assert_eq!(next_chars(None, Some('d'), &infos), "kjflsimcrowunvz");
}

#[test]
fn next_after_two_keys() {
    let infos = keymapping();
    assert_eq!(next_chars(Some('d'), Some('k'), &infos), "fjslcmrwouzv");
    assert_eq!(next_chars(Some('k'), Some('d'), &infos), "jflsmcrowuvz");
}

#[test]
fn next_with_empty_map() {
    let infos: CharMap<Kagi> = CharMap::new();
    assert_eq!(next_chars(None, Some('k'), &infos), "");
}

#[test]
fn stable_sort_by_score() {
    let v = vec![('a', 5u32), ('b', 1), ('c', 5), ('d', 0), ('e', 1)];
    let s = sort_scored(&v);
    assert_eq!(s, vec![('d', 0), ('b', 1), ('e', 1), ('a', 5), ('c', 5)]);
}

#[test]
fn levels_of_spells() {
    let infos = keymapping();
    let mut levels: Vec<Vec<String>> = Vec::new();
    let r = flatlist_go(&setting(3, false), &infos, &mut levels);
    assert_eq!(len_vec(&r), vec![18, 246, 1752]);
    assert_eq!(&r[1][..3], &strings(&["kd", "kf", "kj"])[..]);
    assert_eq!(&r[2][..5], &strings(&["kdj", "kdf", "kdl", "kds", "kdm"])[..]);
    assert_eq!(levels.len(), 3);
}

#[test]
fn last_level_only() {
    let infos = keymapping();
    let mut levels: Vec<Vec<String>> = Vec::new();
    let r = flatlist_go(&setting(2, true), &infos, &mut levels);
    assert_eq!(r.len(), 1);
    assert_eq!(r[0].len(), 246);
    assert_eq!(levels.len(), 2);
}

#[test]
fn levels_already_long_enough() {
    let infos = keymapping();
    let mut levels = vec![strings(&["x"]), strings(&["ab", "cd"])];
    let r = flatlist_go(&setting(1, false), &infos, &mut levels);
    assert_eq!(r, vec![strings(&["x"]), strings(&["ab", "cd"])]);
    let r = flatlist_go(&setting(1, true), &infos, &mut levels);
    assert_eq!(r, vec![strings(&["ab", "cd"])]);
}

#[test]
fn generated_spells_follow_the_rules() {
    let infos = keymapping();
    let mut levels: Vec<Vec<String>> = Vec::new();
    let r = flatlist_go(&setting(3, false), &infos, &mut levels);
    for (j, level) in r.iter().enumerate() {
        for spell in level {
            let cs: Vec<char> = spell.chars().collect();
            assert_eq!(cs.len(), j + 1);
            for w in cs.windows(2) {
                assert!(rule_pre(&key(w[1]), &key(w[0])));
            }
        }
    }
}

#[test]
fn generated_table_text() {
    let (lengths, text) = generate_flatlist(&setting(1, false));
    assert_eq!(lengths, vec![18]);
    assert!(text.starts_with("k\nd\nj\n"));
    assert!(text.ends_with("z\n\n"));
    let (lengths, _) = generate_flatlist(&setting(2, true));
    assert_eq!(lengths, vec![246]);
    let (lengths, text) = generate_flatlist(&setting(0, false));
    assert_eq!(lengths, Vec::<u64>::new());
    assert_eq!(text, "");
}

#[test]
fn lines_and_tables() {
    assert_eq!(reduce_lines(&strings(&["a", "bc"])), "a\nbc\n");
    assert_eq!(reduce_lines(&Vec::new()), "");
    let t = vec![strings(&["a", "b"]), strings(&["cd"])];
    assert_eq!(render_levels(&t), "a\nb\n\ncd\n\n");
    assert_eq!(len_vec(&t), vec![2, 1]);
}

#[test]
fn flatten_in_order() {
    let mut v = vec![vec![1, 2], vec![], vec![3]];
    assert_eq!(vec_flatten(&mut v), vec![1, 2, 3]);
    assert_eq!(v, vec![vec![1, 2], vec![], vec![3]]);
    let mut e: Vec<Vec<u8>> = Vec::new();
    assert_eq!(vec_flatten(&mut e), Vec::<u8>::new());
}

#[test]
fn transpose_ragged_rows() {
    let rows = vec![vec![1, 2, 3], vec![4], vec![5, 6]];
    assert_eq!(transpose(&rows), vec![vec![1, 4, 5], vec![2, 6], vec![3]]);
    let none: Vec<Vec<u8>> = Vec::new();
    assert_eq!(transpose(&none), Vec::<Vec<u8>>::new());
}

#[test]
fn spacing() {
    assert_eq!(chars_spacing(&['a', 'b', 'c']), "a b c");
    assert_eq!(chars_spacing(&['ㄱ']), "ㄱ");
    assert_eq!(chars_spacing(&[]), "");
}

#[test]
fn cut_prefix() {
    assert_eq!(str_chushutu_unique("ab", "abcd"), "cd");
    assert_eq!(str_chushutu_unique("ㄱ ㅏ", "ㄱ ㅏ 가"), " 가");
    assert_eq!(str_chushutu_unique("", "xy"), "xy");
    assert_eq!(str_chushutu_unique("xy", "xy"), "");
}

#[test]
fn best_single_shortest() {
    let r = findbest_from_queried(&strings(&["abc", "ab", "abcd"]));
    assert_eq!(r, Ok("ab".to_string()));
}

#[test]
fn best_ties_are_errors() {
    let r = findbest_from_queried(&strings(&["ab", "cd", "abc"]));
    assert_eq!(r, Err(strings(&["ab", "cd"])));
    let r = findbest_from_queried(&Vec::new());
    assert_eq!(r, Err(Vec::new()));
}

#[test]
fn best_ignores_long_strings() {
    let long = "x".repeat(101);
    let r = findbest_from_queried(&vec![long.clone()]);
    assert_eq!(r, Err(Vec::new()));
    let hundred = "y".repeat(100);
    let r = findbest_from_queried(&vec![long, hundred.clone()]);
    assert_eq!(r, Ok(hundred));
}

#[test]
fn best_counts_bytes() {
    // "가" takes three bytes, "ab" two
    let r = findbest_from_queried(&strings(&["가", "ab"]));
    assert_eq!(r, Ok("ab".to_string()));
}

#[test]
fn numerals_and_file_names() {
    assert_eq!(u8_decimal(0), "0");
    assert_eq!(u8_decimal(7), "7");
    assert_eq!(u8_decimal(42), "42");
    assert_eq!(u8_decimal(100), "100");
    assert_eq!(u8_decimal(255), "255");
    assert_eq!(spell_file_name(false, &setting(3, false)), "spell3.txt");
    assert_eq!(spell_file_name(true, &setting(3, true)), "spell3_only_hangul.txt");
    assert_eq!(spell_file_name(true, &setting(12, false)), "spell12_hangul.txt");
}

#[test]
fn placeholders() {
    assert_eq!(add_hangul(vec![strings(&["a"])]), vec![strings(&["kari"])]);
    assert_eq!(traslate_in_hangul("anything"), "lsdf");
}

#[test]
fn vowels() {
    // same hand, home row, middle to ring
    assert_eq!(vowel(&key('d'), &key('s')), Some('ㅢ'));
    assert_eq!(vowel(&key('d'), &key('f')), Some('ㅡ'));
    // other hand: the next key alone decides
    assert_eq!(vowel(&key('d'), &key('k')), Some('ㅣ'));
    assert_eq!(vowel(&key('d'), &key('o')), Some('ㅑ'));
    assert_eq!(vowel(&key('d'), &key('m')), Some('ㅔ'));
    // same hand, same finger: no vowel
    assert_eq!(vowel(&key('d'), &key('e')), None);
}

#[test]
fn last_character() {
    assert_eq!(last_of(&"abc".to_string()), Some('c'));
    assert_eq!(last_of(&" 가".to_string()), Some('가'));
    assert_eq!(last_of(&String::new()), None);
}

fn sample_trie() -> HangulTrie {
    HangulTrie::new(&strings(&[
        "ㄱ ㅣ 기",
        "ㄱ ㅣ ㅅ 깃",
        "ㄴ ㅣ 니",
        "ㄴ ㅣ 니ㅣ",
        "ㄱ ㅡ 그",
        "",
    ]))
}

#[test]
fn trie_search() {
    let t = sample_trie();
    let found = t.prefix_search_trie("ㄱ ㅣ");
    // lexicographic by bytes: 'ㅅ' (E3 85 85) comes before '기' (EA B8 B0)
    assert_eq!(found, strings(&["ㄱ ㅣ ㅅ 깃", "ㄱ ㅣ 기"]));
    assert_eq!(t.prefix_search_trie("ㄷ"), Vec::<String>::new());
    assert_eq!(t.prefix_search_trie("ㄱ ㅡ 그"), strings(&["ㄱ ㅡ 그"]));
}

#[test]
fn picking_a_syllable() {
    let found = strings(&["ㄱ ㅣ 기", "ㄱ ㅣ ㅅ 깃"]);
    assert_eq!(pick_syllable("ㄱ ㅣ", &found), Some('기'));
    let tie = strings(&["ㄴ ㅣ 니", "ㄴ ㅣ 닉"]);
    assert_eq!(pick_syllable("ㄴ ㅣ", &tie), None);
    assert_eq!(pick_syllable("ㄴ ㅣ", &Vec::new()), None);
}

#[test]
fn hangul_for_a_step() {
    let t = sample_trie();
    let cmap = hangul_cmap();
    let infos = keymapping();
    // d then k: consonant of d and the vowel of the move
    assert_eq!(
        find_hangul(&t, &cmap, &infos, 0, None, &key('d'), &key('k'), CharComposition::Complete),
        Some('기')
    );
    assert_eq!(
        find_hangul(&t, &cmap, &infos, 0, None, &key('d'), &key('k'), CharComposition::Last),
        Some('ㅣ')
    );
    // d, k, then l: consonant of d, vowel of d to k, consonant of l
    assert_eq!(
        find_hangul(&t, &cmap, &infos, 1, Some('d'), &key('k'), &key('l'), CharComposition::Complete),
        Some('깃')
    );
    // nothing in the trie for s then k
    assert_eq!(
        find_hangul(&t, &cmap, &infos, 0, None, &key('s'), &key('k'), CharComposition::Complete),
        None
    );
    // the same finger twice has no vowel
    assert_eq!(
        find_hangul(&t, &cmap, &infos, 0, None, &key('d'), &key('e'), CharComposition::Complete),
        None
    );
}

#[test]
fn next_with_hangul() {
    let t = sample_trie();
    let infos = keymapping();
    let first = next_chars_with_hangul(&t, 0, None, None, &infos);
    assert_eq!(first.len(), 18);
    assert_eq!(first[0], ('k', 'ㄴ'));
    assert_eq!(first[1], ('d', 'ㄱ'));
    // after d, only k and f have a syllable in the sample trie, cheapest first
    let after_d = next_chars_with_hangul(&t, 1, None, Some('d'), &infos);
    assert_eq!(after_d, vec![('k', '기'), ('f', '그')]);
}

#[test]
fn hangul_levels() {
    let t = sample_trie();
    let infos = keymapping();
    let mut levels: Vec<Vec<(String, String)>> = Vec::new();
    let r = flatlist_go_with_hangul(&t, &setting(2, false), &infos, &mut levels);
    assert_eq!(r.len(), 2);
    assert_eq!(r[0].len(), 18);
    assert_eq!(r[0][1], ("d".to_string(), "ㄱ".to_string()));
    assert!(r[1].contains(&("dk".to_string(), "기".to_string())));
    let (lengths, text) = generate_flatlist_with_hangul(&setting(1, false), &t);
    assert_eq!(lengths, vec![18]);
    assert!(text.starts_with("k ㄴ\nd ㄱ\n"));
}

#[test]
fn finger_check_ignores_order() {
    let ks = ['d', 'k', 'e', 'f', 'w', 'o'];
    for &a in &ks {
        for &b in &ks {
            for &c in &ks {
                let (x, y, z) = (key(a), key(b), key(c));
                let r = fu_yubi_prre(&x, &y, &z);
                assert_eq!(r, fu_yubi_prre(&y, &x, &z));
                assert_eq!(r, fu_yubi_prre(&x, &z, &y));
                assert_eq!(r, fu_yubi_prre(&z, &y, &x));
            }
        }
    }
}

#[test]
fn rules_from_strict_to_lenient() {
    let infos = keymapping();
    for (a, ka) in infos.as_vec().iter() {
        for (b, kb) in infos.as_vec().iter() {
            for (c, kc) in infos.as_vec().iter() {
                let _ = (a, b, c);
                if rule_fluent(ka, kb, kc) {
                    assert!(rule_wn_little_fluent(ka, kb, kc));
                }
                if rule_wn_little_fluent(ka, kb, kc) {
                    assert!(rule_pre(ka, kb));
                }
            }
        }
    }
}

#[test]
fn hangul_spells_follow_the_hand_rule() {
    let t = sample_trie();
    let infos = keymapping();
    let mut levels: Vec<Vec<(String, String)>> = Vec::new();
    let r = flatlist_go_with_hangul(&t, &setting(3, false), &infos, &mut levels);
    for (j, level) in r.iter().enumerate() {
        for (spell, letter) in level {
            let cs: Vec<char> = spell.chars().collect();
            assert_eq!(cs.len(), j + 1);
            assert_eq!(letter.chars().count(), 1);
            for w in cs.windows(2) {
                assert!(rule_pre(&key(w[1]), &key(w[0])));
            }
            for w in cs.windows(3) {
                assert!(rule_pre(&key(w[2]), &key(w[0])));
            }
        }
    }
}

#[test]
fn key_before_only_filters() {
    let infos = keymapping();
    let keys: Vec<char> = infos.as_vec().iter().map(|p| p.0).collect();
    for &b in &keys {
        for &c in &keys {
            let d = key(b);
            let without: String = next_chars(None, Some(c), &infos)
                .chars()
                .filter(|k| {
                    let v = key(*k);
                    !(d.yubi == v.yubi
                        || (d.dan == Dan::Jo && v.dan == Dan::Ge)
                        || (d.dan == Dan::Ge && v.dan == Dan::Jo))
                })
                .collect();
            let with = next_chars(Some(b), Some(c), &infos);
            assert_eq!(with, without);
            assert!(!with.contains(b));
            assert!(!with.contains(c));
        }
    }
    // d and k sit on different hands; k's finger and rows are what count
    assert_eq!(next_chars(Some('d'), Some('k'), &infos), "fjslcmrwouzv");
}

#[test]
fn hangul_steps_follow_the_plain_order() {
    let t = sample_trie();
    let infos = keymapping();
    let cmap = hangul_cmap();
    let keys: Vec<char> = infos.as_vec().iter().map(|p| p.0).collect();
    for &c in &keys {
        let expected: Vec<(char, char)> = next_chars(None, Some(c), &infos)
            .chars()
            .filter_map(|k| {
                find_hangul(&t, &cmap, &infos, 1, None, &key(c), &key(k), CharComposition::Complete)
                    .map(|h| (k, h))
            })
            .collect();
        assert_eq!(next_chars_with_hangul(&t, 1, None, Some(c), &infos), expected);
    }
}
