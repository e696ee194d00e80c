use code_trie::cursor::CodeCursor;
use code_trie::trie::Trie;
use std::collections::HashSet;

fn node_with_code(code: &str) -> (Trie, usize) {
    let mut trie = Trie::new();
    trie.insert(code.to_string(), "w".to_string());
    let node = trie.child(trie.root(), code).unwrap();
    (trie, node)
}

fn check_links(trie: &Trie, node: usize) -> bool {
    for &child in trie.children(node) {
        if trie.parent(child) != Some(node) {
            return false;
        }
        if !check_links(trie, child) {
            return false;
        }
    }
    true
}

#[test]
fn test_poll_short_code() {
    let (trie, node) = node_with_code("ni");
    let mut code = CodeCursor::new("niao".to_string());
    let matched = trie.poll(node, &mut code);
    assert_eq!(trie.code(node).len(), matched);
    assert_eq!("ao", code.into_remained());
}

#[test]
fn test_poll_long_code() {
    let (trie, node) = node_with_code("niao");
    let mut code = CodeCursor::new("ni".to_string());
    let matched = trie.poll(node, &mut code);
    assert_eq!(2, matched);
    assert!(code.into_remained().is_empty());
}

#[test]
fn test_poll_mismatched_code() {
    let (trie, node) = node_with_code("niao");
    let mut code = CodeCursor::new("nie".to_string());
    let matched = trie.poll(node, &mut code);
    assert_eq!(2, matched);
    assert_eq!("e", code.into_remained());
}

#[test]
fn test_insert_split_without_grandparent() {
    let mut root = Trie::new();
    root.insert("ni".to_string(), "你们".to_string());
    root.insert("n".to_string(), "你".to_string());

    let trie = root.child(root.root(), "n").unwrap();
    assert_eq!("n", root.code(trie));
    assert_eq!(&vec!["你".to_string()], root.words(trie));
    assert_eq!(Some(root.root()), root.parent(trie));
    assert_eq!(1, root.children(trie).len());

    let child = root.child(trie, "i").unwrap();
    assert_eq!("i", root.code(child));
    assert_eq!(&vec!["你们".to_string()], root.words(child));
    assert_eq!(Some(trie), root.parent(child));
    assert!(root.children(child).is_empty());
}

#[test]
fn test_insert_split_with_grandparent() {
    let mut root = Trie::new();
    root.insert("m".to_string(), "没".to_string());
    root.insert("ni".to_string(), "你们".to_string());
    root.insert("nia".to_string(), "哪里".to_string());
    root.insert("n".to_string(), "你".to_string());
    let top = root.root();
    assert_eq!("", root.code(top));
    assert!(root.words(top).is_empty());
    assert_eq!(None, root.parent(top));
    assert_eq!(2, root.children(top).len());

    let trie = root.child(top, "n").unwrap();
    assert_eq!("n", root.code(trie));
    assert_eq!(&vec!["你".to_string()], root.words(trie));
    assert_eq!(Some(top), root.parent(trie));
    assert_eq!(1, root.children(trie).len());

    let child = root.child(trie, "i").unwrap();
    assert_eq!("i", root.code(child));
    assert_eq!(&vec!["你们".to_string()], root.words(child));
    assert_eq!(Some(trie), root.parent(child));
    assert_eq!(1, root.children(child).len());

    let descendant = root.child(child, "a").unwrap();
    assert_eq!("a", root.code(descendant));
    assert_eq!(&vec!["哪里".to_string()], root.words(descendant));
    assert_eq!(Some(child), root.parent(descendant));
    assert_eq!(0, root.children(descendant).len());

    assert!(check_links(&root, top));
}

#[test]
fn test_insert_with_extraction() {
    let mut root = Trie::new();
    root.insert("ni".to_string(), "你们".to_string());
    root.insert("na".to_string(), "能力".to_string());
    let top = root.root();
    assert_eq!("", root.code(top));
    assert!(root.words(top).is_empty());
    assert_eq!(None, root.parent(top));
    assert_eq!(1, root.children(top).len());

    let trie = root.child(top, "n").unwrap();
    assert_eq!("n", root.code(trie));
    assert!(root.words(trie).is_empty());
    assert_eq!(Some(top), root.parent(trie));
    assert_eq!(2, root.children(trie).len());

    let child1 = root.child(trie, "i").unwrap();
    assert_eq!("i", root.code(child1));
    assert_eq!(&vec!["你们".to_string()], root.words(child1));
    assert_eq!(Some(trie), root.parent(child1));
    assert_eq!(0, root.children(child1).len());

    let child2 = root.child(trie, "a").unwrap();
    assert_eq!("a", root.code(child2));
    assert_eq!(&vec!["能力".to_string()], root.words(child2));
    assert_eq!(Some(trie), root.parent(child2));
    assert_eq!(0, root.children(child2).len());

    assert!(check_links(&root, top));
}

#[test]
fn test_nodes_iter() {
    let mut root = Trie::new();
    root.insert("m".to_string(), "没".to_string());
    root.insert("ni".to_string(), "你们".to_string());
    root.insert("nia".to_string(), "哪里".to_string());
    root.insert("n".to_string(), "你".to_string());

    let mut nodes = root.nodes();
    let mut codes: Vec<String> = Vec::new();
    while let Some(node) = nodes.next(&root) {
        codes.push(root.code(node).clone());
    }
    assert_eq!(5, codes.len());
    let expected: HashSet<String> = ["", "m", "n", "i", "a"].iter().map(|s| s.to_string()).collect();
    let found: HashSet<String> = codes.iter().map(|s| s.to_string()).collect();
    assert_eq!(expected, found);
}

#[test]
fn split_keeps_full_codes() {
    let mut root = Trie::new();
    root.insert("ni".to_string(), "你们".to_string());
    root.insert("n".to_string(), "你".to_string());
    let upper = root.child(root.root(), "n").unwrap();
    assert_eq!(1, root.children(upper).len());
    let lower = root.children(upper)[0];
    assert_eq!("n", root.full_code(upper));
    assert_eq!("ni", root.full_code(lower));
    assert_eq!(1, root.full_code_len(upper));
    assert_eq!(2, root.full_code_len(lower));
    assert_eq!(vec!["i".to_string()], root.edges(upper));
    assert!(root.is_ancestor_of(upper, lower));
    assert!(root.is_ancestor_of(root.root(), lower));
    assert!(!root.is_ancestor_of(lower, upper));
    assert!(root.is_leaf(lower));
    assert!(!root.is_leaf(upper));
    assert!(root.is_root(root.root()));
    assert!(!root.is_root(upper));
}

#[test]
fn duplicates_are_kept() {
    let mut root = Trie::new();
    root.insert("ni".to_string(), "你".to_string());
    root.insert("ni".to_string(), "你".to_string());
    let node = root.child(root.root(), "ni").unwrap();
    assert_eq!(&vec!["你".to_string(), "你".to_string()], root.words(node));
    assert_eq!(2, root.node_count());
}

#[test]
fn empty_code_goes_to_the_root() {
    let mut root = Trie::new();
    root.insert("".to_string(), "空".to_string());
    assert_eq!(&vec!["空".to_string()], root.words(root.root()));
    assert_eq!(1, root.node_count());
    assert_eq!("空", root.eval(""));
}

#[test]
fn split_in_the_middle_makes_two_children() {
    let mut root = Trie::new();
    root.insert("nia".to_string(), "a".to_string());
    root.insert("nib".to_string(), "b".to_string());
    root.insert("ni".to_string(), "c".to_string());
    root.insert("nibx".to_string(), "d".to_string());
    assert_eq!(5, root.node_count());
    let ni = root.child(root.root(), "ni").unwrap();
    assert_eq!(&vec!["c".to_string()], root.words(ni));
    let a = root.child(ni, "a").unwrap();
    let b = root.child(ni, "b").unwrap();
    assert_eq!(vec!["c".to_string(), "a".to_string(), "b".to_string()], root.candidates(ni));
    assert_eq!("nia", root.full_code(a));
    let x = root.child(b, "x").unwrap();
    assert_eq!("nibx", root.full_code(x));
    assert_eq!(vec!["b".to_string(), "d".to_string()], root.candidates(b));
}

#[test]
fn bubble_walks_to_the_root() {
    let mut root = Trie::new();
    root.insert("ni".to_string(), "你们".to_string());
    root.insert("n".to_string(), "你".to_string());
    let upper = root.child(root.root(), "n").unwrap();
    let lower = root.child(upper, "i").unwrap();
    let mut bubble = root.bubble(lower);
    assert_eq!(Some(lower), bubble.next(&root));
    assert_eq!(Some(upper), bubble.next(&root));
    assert_eq!(Some(root.root()), bubble.next(&root));
    assert_eq!(None, bubble.next(&root));
}

#[test]
fn cursor_reads_from_the_left() {
    let mut cursor = CodeCursor::new("你好ab".to_string());
    assert_eq!(0, cursor.position());
    assert_eq!(4, cursor.remained_len());
    assert_eq!(Some('好'), cursor.get_char(1));
    assert_eq!(None, cursor.get_char(4));
    assert_eq!('你', cursor.shift());
    assert_eq!("好ab", cursor.remaining());
    assert!(cursor.remaining_starts_with("好a"));
    assert!(!cursor.remaining_starts_with("好b"));
    assert!(!cursor.remaining_starts_with("好abc"));
    cursor.advance_by(2);
    assert_eq!(3, cursor.position());
    assert!(!cursor.is_empty());
    assert_eq!("你好ab", cursor.get_ref());
    assert_eq!("b", cursor.into_remained());
}

#[test]
fn eval_commits_a_single_word_at_a_leaf() {
    let mut root = Trie::new();
    root.insert("wl".to_string(), "我爱".to_string());
    root.insert("xhdjej ".to_string(), "读书".to_string());
    assert_eq!("我爱读书", root.eval("wlxhdjej "));
    assert_eq!("我爱", root.eval("wl"));
}

#[test]
fn eval_echoes_what_it_does_not_know() {
    let mut root = Trie::new();
    root.insert("ni".to_string(), "你".to_string());
    assert_eq!("xyz", root.eval("xyz"));
    assert_eq!("x你y", root.eval("xniy"));
    assert_eq!("", root.eval(""));
}

#[test]
fn eval_selects_among_candidates() {
    let mut root = Trie::new();
    root.insert("n".to_string(), "你".to_string());
    root.insert("n".to_string(), "那".to_string());
    root.insert("ni".to_string(), "你们".to_string());
    root.insert("ni".to_string(), "你的".to_string());
    root.insert("na".to_string(), "哪".to_string());
    assert_eq!("你", root.eval("n "));
    assert_eq!("那", root.eval("n'"));
    assert_eq!("你", root.eval("n1"));
    assert_eq!("那", root.eval("n2"));
    assert_eq!("你们", root.eval("n3"));
    assert_eq!("哪", root.eval("n4"));
    assert_eq!("你5", root.eval("n5"));
    assert_eq!("你x", root.eval("nx"));
    assert_eq!("你", root.eval("n"));
    assert_eq!("你们", root.eval("ni"));
    assert_eq!("你的哪", root.eval("ni'na"));
}

#[test]
fn eval_at_a_wordless_branch_echoes() {
    let mut root = Trie::new();
    root.insert("ni".to_string(), "你们".to_string());
    root.insert("na".to_string(), "能力".to_string());
    assert_eq!("x", root.eval("nx"));
    assert_eq!("", root.eval("n"));
    assert_eq!("你们能力", root.eval("nina"));
}

#[test]
fn eval_with_a_word_at_the_root_echoes_before_the_end() {
    let mut root = Trie::new();
    root.insert("".to_string(), "空".to_string());
    root.insert("a".to_string(), "啊".to_string());
    assert_eq!(" 空", root.eval(" "));
    assert_eq!("x空", root.eval("x"));
    assert_eq!("啊", root.eval("a"));
}
