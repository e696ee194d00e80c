use code_trie::analyse::shortest::{dictionary, shortest};
use code_trie::encode::{append_decimal, SegmentationFailure};
use code_trie::rev_dict::RevDict;
use code_trie::trie::Trie;

fn trie_of(entries: &[(&str, &str)]) -> Trie {
    let mut trie = Trie::new();
    for (word, code) in entries {
        trie.insert(code.to_string(), word.to_string());
    }
    trie
}

fn links_agree(trie: &Trie, node: usize) -> bool {
    for &child in trie.children(node) {
        if trie.parent(child) != Some(node) {
            return false;
        }
        if !links_agree(trie, child) {
            return false;
        }
    }
    true
}

fn pairs_of(entries: &[(&str, &str)]) -> Vec<(String, String)> {
    entries.iter().map(|(word, code)| (word.to_string(), code.to_string())).collect()
}

const GREETING: [(&str, &str); 5] =
    [("你", "n "), ("好", "h "), ("吗", "ms "), ("你好", "nau"), ("好吗", "hzms ")];

#[test]
fn shortest_test() {
    let entries = [("你", "n "), ("好", "h "), ("吗", "ms "), ("你好", "nau"), ("好吗", "hzms ")];
    let dict = dictionary(entries.iter().map(|(s1, s2)| (s1.to_string(), s2.to_string())).collect());
    let result = shortest(&"你好吗".into(), &dict);
    let ret = result.unwrap();
    assert_eq!(2, ret.len());
    assert_eq!("nau", ret[0]);
    assert_eq!("ms ", ret[1]);
}

#[test]
fn test_shortest() {
    let lines: Vec<String> = vec![
        "# an excerpt of a table".to_string(),
        "我爱\twl".to_string(),
        "读书\txhdjej".to_string(),
        "独树\txhdjej".to_string(),
        "你\tni".to_string(),
        "好\thk".to_string(),
        "你好\tnau".to_string(),
        "吗\tms".to_string(),
        "妈\tms".to_string(),
    ];
    let mut trie = Trie::new();
    trie.load_xkjd_dict(&lines);

    assert_eq!("我爱读书", trie.eval("wlxhdjej "));

    assert!(links_agree(&trie, trie.root()));

    let dict = trie.rev_dict();
    let ret = dict.shortest("你好吗").unwrap();
    assert_eq!(vec!["nau", "ms", " "], ret);
}

#[test]
fn segmentation_choice_over_a_trie() {
    let trie = trie_of(&GREETING);
    let dict = trie.rev_dict();
    let typed = dict.shortest("你好吗").unwrap();
    assert_eq!(vec!["nau".to_string(), "ms ".to_string()], typed);
    assert_eq!("你好吗", trie.eval(&typed.concat()));
}

#[test]
fn uncovered_scalar_value_is_named() {
    let entries = [("a", "1"), (" ", "2"), ("b", "3")];
    let trie = trie_of(&entries);
    let dict = trie.rev_dict();
    let failure = dict.shortest("a x b").unwrap_err();
    assert_eq!(SegmentationFailure { ch: 'x', index: 2 }, failure);
    assert_eq!('x', failure.ch);
    assert_eq!(2, failure.index);
    assert_eq!(
        "can't generate the sentence from the dictionary, see 'x' at 2",
        failure.message()
    );

    let pairs = dictionary(pairs_of(&entries));
    let failure = shortest(&"a x b".to_string(), &pairs).unwrap_err();
    assert_eq!(SegmentationFailure { ch: 'x', index: 2 }, failure);
}

#[test]
fn every_position_must_end_a_word() {
    let entries = [("ab", "1"), ("b", "2")];
    let trie = trie_of(&entries);
    let dict = trie.rev_dict();
    assert_eq!(Err(SegmentationFailure { ch: 'a', index: 0 }), dict.shortest("ab"));
    assert_eq!(
        Err(SegmentationFailure { ch: 'a', index: 0 }),
        shortest(&"ab".to_string(), &dictionary(pairs_of(&entries)))
    );
}

#[test]
fn empty_sentence_has_one_empty_fragment() {
    let trie = trie_of(&[("你", "n")]);
    let dict = trie.rev_dict();
    assert_eq!(vec!["".to_string(), " ".to_string()], dict.shortest("").unwrap());
    let bare = Trie::new();
    assert_eq!(vec!["".to_string()], bare.rev_dict().shortest("").unwrap());
    assert_eq!(vec!["".to_string()], shortest(&"".to_string(), &dictionary(Vec::new())).unwrap());
}

#[test]
fn a_space_sets_off_a_code_that_would_run_on() {
    let entries = [("你", "n"), ("你们", "ni"), ("一", "i")];
    let trie = trie_of(&entries);
    let dict = trie.rev_dict();
    let typed = dict.shortest("你一").unwrap();
    assert_eq!(vec!["n".to_string(), " i".to_string()], typed);
    assert_eq!("你一", trie.eval("n i"));
    assert_eq!("你们", trie.eval("ni"));
    assert!(trie.needs_space(trie.child(0, "n").unwrap(), "你", "i"));
    assert!(!trie.needs_space(trie.child(0, "n").unwrap(), "你们", "i"));
    assert!(!trie.needs_space(trie.child(0, "n").unwrap(), "你", "n"));
}

#[test]
fn a_last_space_commits_an_ambiguous_word() {
    let entries = [("你", "n"), ("你们", "ni")];
    let trie = trie_of(&entries);
    let dict = trie.rev_dict();
    assert_eq!(vec!["n".to_string(), " ".to_string()], dict.shortest("你").unwrap());
    assert_eq!(vec!["ni".to_string()], dict.shortest("你们").unwrap());
    assert_eq!("你", trie.eval("n "));
}

#[test]
fn leftmost_of_equal_lengths_wins() {
    let entries = [("ab", "xy"), ("a", "p"), ("b", "q")];
    let pairs = dictionary(pairs_of(&entries));
    assert_eq!(vec!["xy".to_string()], shortest(&"ab".to_string(), &pairs).unwrap());
    let trie = trie_of(&entries);
    assert_eq!(vec!["xy".to_string()], trie.rev_dict().shortest("ab").unwrap());
}

#[test]
fn leftmost_tie_can_cost_a_space() {
    let entries = [("xy", "ab"), ("u", "abc"), ("x", "k"), ("y", "m"), ("z", "c")];
    let trie = trie_of(&entries);
    let dict = trie.rev_dict();
    let typed = dict.shortest("xyz").unwrap();
    assert_eq!(vec!["ab".to_string(), " c".to_string()], typed);
    assert_eq!("xyz", trie.eval("ab c"));
    assert_eq!("xyz", trie.eval("kmc"));
}

#[test]
fn shortest_is_repeatable() {
    let trie = trie_of(&GREETING);
    let dict = trie.rev_dict();
    assert_eq!(dict.shortest("你好吗"), dict.shortest("你好吗"));
    assert_eq!(dict.shortest("你好x"), dict.shortest("你好x"));
    let pairs = dictionary(pairs_of(&GREETING));
    assert_eq!(shortest(&"好吗".to_string(), &pairs), shortest(&"好吗".to_string(), &pairs));
}

fn least_sum(pairs: &[(&str, &str)], chars: &[char], from: usize) -> Option<usize> {
    if from == chars.len() {
        return Some(0);
    }
    let mut best: Option<usize> = None;
    for to in from + 1..=chars.len() {
        let word: String = chars[from..to].iter().collect();
        if let Some((_, code)) = pairs.iter().find(|(w, _)| *w == word) {
            if let Some(rest) = least_sum(pairs, chars, to) {
                let total = code.chars().count() + rest;
                if best.map_or(true, |b| total < b) {
                    best = Some(total);
                }
            }
        }
    }
    best
}

#[test]
fn search_finds_the_least_sum_of_code_lengths() {
    let entries = [
        ("a", "qq"),
        ("b", "w"),
        ("c", "eee"),
        ("ab", "r"),
        ("bc", "tt"),
        ("abc", "yyyyy"),
        ("ca", "u"),
        ("aa", "iii"),
    ];
    let pairs = dictionary(pairs_of(&entries));
    let trie = trie_of(&entries);
    let dict = trie.rev_dict();
    for sentence in ["abc", "aab", "abca", "cab", "bcab", "aaaa", "abcabc", "a", "cc"] {
        let chars: Vec<char> = sentence.chars().collect();
        let expected = least_sum(&entries, &chars, 0).unwrap();
        let plain = shortest(&sentence.to_string(), &pairs).unwrap();
        let sum: usize = plain.iter().map(|code| code.chars().count()).sum();
        assert_eq!(expected, sum, "{}", sentence);
        let typed = dict.shortest(sentence).unwrap();
        let codes: Vec<&String> = typed.iter().filter(|f| f.as_str() != " ").collect();
        let sum: usize = codes.iter().map(|code| code.chars().count()).sum();
        assert_eq!(expected, sum, "{}", sentence);
    }
    assert_eq!(vec!["qq".to_string(), "tt".to_string()], shortest(&"abc".to_string(), &pairs).unwrap());
}

#[test]
fn index_keeps_the_shorter_code() {
    let entries = [("你", "ni"), ("你", "n"), ("好", "h"), ("好", "hao"), ("们", "m")];
    let trie = trie_of(&entries);
    let dict = trie.rev_dict();
    let (code, node) = dict.get("你").unwrap();
    assert_eq!("n", code);
    assert_eq!("n", trie.full_code(node));
    let (code, node) = dict.get("好").unwrap();
    assert_eq!("h", code);
    assert_eq!("h", trie.full_code(node));
    assert_eq!("m", dict.get("们").unwrap().0);
    assert!(dict.get("他").is_none());
}

#[test]
fn index_keeps_the_first_met_of_equal_codes() {
    let entries = [("你", "ab"), ("你", "cd"), ("你", "abc"), ("好", "abx"), ("好", "cdy"), ("好", "ef")];
    let trie = trie_of(&entries);
    let mut order: Vec<String> = Vec::new();
    let mut nodes = trie.nodes();
    while let Some(node) = nodes.next(&trie) {
        order.push(trie.full_code(node));
    }
    assert_eq!(vec!["", "ef", "cd", "cdy", "ab", "abx", "abc"], order);
    let dict = trie.rev_dict();
    assert_eq!("cd", dict.get("你").unwrap().0);
    assert_eq!("ef", dict.get("好").unwrap().0);
}

#[test]
fn index_entries_are_set_by_hand() {
    let trie = trie_of(&[("你", "ni"), ("们", "n")]);
    let long = trie.child(trie.child(0, "n").unwrap(), "i").unwrap();
    let short = trie.child(0, "n").unwrap();
    let mut dict = RevDict::new(&trie);
    assert!(dict.get("你").is_none());
    dict.insert_if_shorter("你", long);
    assert_eq!(("ni", long), {
        let (code, node) = dict.get("你").unwrap();
        (code.as_str(), node)
    });
    dict.insert_if_shorter("你", short);
    assert_eq!("n", dict.get("你").unwrap().0);
    assert_eq!(short, dict.get("你").unwrap().1);
    dict.insert_if_shorter("你", long);
    assert_eq!("n", dict.get("你").unwrap().0);
    dict.insert("你".to_string(), long);
    assert_eq!("ni", dict.get("你").unwrap().0);
    assert_eq!(long, dict.get("你").unwrap().1);
    assert_eq!(trie.node_count(), dict.source().node_count());
}

#[test]
fn single_word_at_a_leaf_round_trips() {
    let entries = [("你", "n "), ("好", "h "), ("吗", "ms "), ("你好", "nau"), ("好吗", "hzms ")];
    let trie = trie_of(&entries);
    let dict = trie.rev_dict();
    for (word, _) in entries {
        let (code, node) = dict.get(word).unwrap();
        assert_eq!(1, trie.words(node).len());
        assert!(trie.is_leaf(node));
        assert_eq!(word, trie.eval(code));
    }
}

#[test]
fn later_pair_of_a_word_gives_its_code() {
    let dict = dictionary(pairs_of(&[("a", "1"), ("b", "22"), ("a", "333")]));
    assert_eq!(vec!["333".to_string()], shortest(&"a".to_string(), &dict).unwrap());
    assert_eq!(vec!["22".to_string()], shortest(&"b".to_string(), &dict).unwrap());
    assert!(shortest(&"c".to_string(), &dict).is_err());
}

#[test]
fn failure_is_told_in_words() {
    let far = SegmentationFailure { ch: '吗', index: 1207 };
    assert_eq!("can't generate the sentence from the dictionary, see '吗' at 1207", far.message());
    let near = SegmentationFailure { ch: '\'', index: 0 };
    assert_eq!("can't generate the sentence from the dictionary, see ''' at 0", near.message());
    let ten = SegmentationFailure { ch: 'a', index: 10 };
    assert_eq!("can't generate the sentence from the dictionary, see 'a' at 10", ten.message());
    let mut text = String::from("at ");
    append_decimal(&mut text, 9);
    append_decimal(&mut text, 100);
    assert_eq!("at 9100", text);
}
