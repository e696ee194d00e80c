use code_trie::eval::selector;
use code_trie::loader::{first_index, parse_line, parse_lines, Entry};
use code_trie::trie::Trie;
use code_trie::{has_prefix, same_text};

fn pair(entry: Option<Entry>) -> Option<(String, String)> {
    entry.map(|e| (e.word, e.code))
}

fn some(word: &str, code: &str) -> Option<(String, String)> {
    Some((word.to_string(), code.to_string()))
}

#[test]
fn test_load() {
    let lines: Vec<String> = vec![
        "# an excerpt of a table".to_string(),
        "".to_string(),
        "我爱\twl".to_string(),
        "读书\txhdjej".to_string(),
        "独树\txhdjej".to_string(),
    ];
    let mut trie = Trie::new();
    trie.load_xkjd_dict(&lines);
    assert_eq!("我爱读书", trie.eval("wlxhdjej "));
}

#[test]
fn line_is_word_tab_code() {
    assert_eq!(some("你好", "nau"), pair(parse_line("你好\tnau")));
    assert_eq!(some("你", "n "), pair(parse_line("你\tn ")));
    assert_eq!(some("", "n"), pair(parse_line("\tn")));
    assert_eq!(some("你", ""), pair(parse_line("你\t")));
}

#[test]
fn line_ends_at_the_first_hash() {
    assert_eq!(some("你", "n"), pair(parse_line("你\tn# first # second")));
    assert_eq!(None, pair(parse_line("你#\tn")));
    assert_eq!(None, pair(parse_line("# 你\tn")));
    assert_eq!(None, pair(parse_line("#")));
}

#[test]
fn line_without_a_tab_holds_nothing() {
    assert_eq!(None, pair(parse_line("")));
    assert_eq!(None, pair(parse_line("你好 nau")));
    assert_eq!(None, pair(parse_line("   ")));
}

#[test]
fn code_is_all_that_follows_the_first_tab() {
    assert_eq!(some("你", "n\t100"), pair(parse_line("你\tn\t100")));
    assert_eq!(some("你", "\t100"), pair(parse_line("你\t\t100")));
    assert_eq!(some("你", "n\t"), pair(parse_line("你\tn\t# weight")));
    let mut trie = Trie::new();
    trie.load_xkjd_dict(&vec!["你\tn\t100".to_string()]);
    assert!(trie.child(0, "n").is_none());
    let node = trie.child(0, "n\t100").unwrap();
    assert_eq!(&vec!["你".to_string()], trie.words(node));
}

#[test]
fn lines_are_inserted_in_their_order() {
    let lines: Vec<String> =
        ["甲\ta", "# none", "乙\ta", "", "丙", "丁\tab# 7"].iter().map(|s| s.to_string()).collect();
    let entries = parse_lines(&lines);
    assert_eq!(3, entries.len());
    assert_eq!("丁", entries[2].word);
    assert_eq!("ab", entries[2].code);
    let mut trie = Trie::new();
    trie.load_xkjd_dict(&lines);
    let a = trie.child(0, "a").unwrap();
    assert_eq!(&vec!["甲".to_string(), "乙".to_string()], trie.words(a));
    let b = trie.child(a, "b").unwrap();
    assert_eq!(&vec!["丁".to_string()], trie.words(b));

    let mut other = Trie::new();
    other.extend(&entries);
    assert_eq!(trie.node_count(), other.node_count());
    assert_eq!(trie.eval("a2ab"), other.eval("a2ab"));
    assert_eq!("乙丁", trie.eval("a2ab"));
}

#[test]
fn first_index_is_the_length_where_nothing_is_found() {
    assert_eq!(0, first_index("", '#'));
    assert_eq!(3, first_index("你好吗", '#'));
    assert_eq!(1, first_index("你#吗#", '#'));
    assert_eq!(0, first_index("#", '#'));
}

#[test]
fn selectors_are_space_apostrophe_and_digits() {
    assert_eq!(Some(0), selector(' '));
    assert_eq!(Some(1), selector('\''));
    assert_eq!(Some(0), selector('1'));
    assert_eq!(Some(4), selector('5'));
    assert_eq!(Some(8), selector('9'));
    assert_eq!(None, selector('0'));
    assert_eq!(None, selector('a'));
    assert_eq!(None, selector(':'));
}

#[test]
fn prefixes_are_compared_by_scalar_values() {
    assert!(has_prefix("你好吗", "你好"));
    assert!(has_prefix("你好吗", ""));
    assert!(has_prefix("你好吗", "你好吗"));
    assert!(!has_prefix("你好", "你好吗"));
    assert!(!has_prefix("你好吗", "好"));
    assert!(same_text("你好", "你好"));
    assert!(!same_text("你好", "你"));
}

#[test]
fn inserted_words_stay_under_their_codes() {
    let entries = [
        ("m", "没"),
        ("nia", "哪里"),
        ("ni", "你们"),
        ("n", "你"),
        ("niab", "那边"),
        ("nib", "你呗"),
        ("ni", "你的"),
        ("", "空"),
        ("mo", "末"),
    ];
    let mut trie = Trie::new();
    for (upto, (code, word)) in entries.iter().enumerate() {
        trie.insert(code.to_string(), word.to_string());
        let mut found: Vec<(String, String)> = Vec::new();
        let mut nodes = trie.nodes();
        while let Some(node) = nodes.next(&trie) {
            for held in trie.words(node) {
                found.push((trie.full_code(node), held.clone()));
            }
        }
        let mut expected: Vec<(String, String)> =
            entries[..=upto].iter().map(|(c, w)| (c.to_string(), w.to_string())).collect();
        found.sort();
        expected.sort();
        assert_eq!(expected, found);
    }
    let ni = trie.child(trie.child(0, "n").unwrap(), "i").unwrap();
    assert_eq!(&vec!["你们".to_string(), "你的".to_string()], trie.words(ni));
}

fn next_number(state: &mut u64) -> u64 {
    *state = state.wrapping_mul(6364136223846793005).wrapping_add(1442695040888963407);
    *state >> 33
}

#[test]
fn many_insertions_keep_every_word() {
    let mut state: u64 = 7;
    let letters = ['a', 'b', 'c', '你', ' '];
    let mut trie = Trie::new();
    let mut inserted: Vec<(String, String)> = Vec::new();
    for round in 0..400 {
        let len = (next_number(&mut state) % 6) as usize;
        let code: String =
            (0..len).map(|_| letters[(next_number(&mut state) % 5) as usize]).collect();
        let word = format!("w{}", round % 150);
        trie.insert(code.clone(), word.clone());
        inserted.push((code, word));
    }
    let mut found: Vec<(String, String)> = Vec::new();
    let mut count = 0;
    let mut nodes = trie.nodes();
    while let Some(node) = nodes.next(&trie) {
        count += 1;
        let code = trie.full_code(node);
        for word in trie.words(node) {
            found.push((code.clone(), word.clone()));
        }
        for &child in trie.children(node) {
            assert_eq!(Some(node), trie.parent(child));
            assert!(!trie.code(child).is_empty());
        }
        let mut firsts: Vec<char> =
            trie.edges(node).iter().map(|label| label.chars().next().unwrap()).collect();
        firsts.sort();
        firsts.dedup();
        assert_eq!(trie.children(node).len(), firsts.len());
    }
    assert_eq!(trie.node_count(), count);
    found.sort();
    inserted.sort();
    assert_eq!(inserted, found);

    let dict = trie.rev_dict();
    for (code, word) in &inserted {
        let (best, node) = dict.get(word).unwrap();
        assert!(best.chars().count() <= code.chars().count());
        assert!(trie.words(node).contains(word));
        assert_eq!(*best, trie.full_code(node));
    }
    for round in 0..200 {
        let len = (next_number(&mut state) % 9) as usize;
        let typed: String =
            (0..len).map(|_| letters[(next_number(&mut state) % 5) as usize]).collect();
        let text = trie.eval(&typed);
        assert_eq!(text, trie.eval(&typed));
        let sentence = format!("w{}w{}", round % 150, (round * 7) % 150);
        let first = dict.shortest(&sentence);
        assert_eq!(first, dict.shortest(&sentence));
    }
}
