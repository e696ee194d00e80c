use vstd::prelude::*;
use vstd::string::*;
use crate::texts;

verus! {

/// One node: the label of the edge from its parent, the words that end at
/// it, its parent and its children.
struct Node {
    code: String,
    words: Vec<String>,
    parent: Option<usize>,
    links: Vec<usize>,
}

/// A compressed trie from codes to candidate words. The nodes live in one
/// arena; node 0 is the root, and parents and children are arena indices.
/// Children are kept in the order in which they were attached.
pub struct Trie {
    nodes: Vec<Node>,
    rank: Ghost<spec_fn(usize) -> nat>,
}

impl Trie {
    /// The number of nodes.
    pub closed spec fn size(&self) -> nat {
        self.nodes@.len()
    }

    /// The edge label that leads from the parent to node `i`.
    pub closed spec fn segment(&self, i: usize) -> Seq<char> {
        self.nodes@[i as int].code@
    }

    /// The words that end exactly at node `i`, in insertion order.
    pub closed spec fn words_at(&self, i: usize) -> Seq<Seq<char>> {
        texts(self.nodes@[i as int].words@)
    }

    /// The parent of node `i`: none for the root.
    pub closed spec fn parent_at(&self, i: usize) -> Option<usize> {
        self.nodes@[i as int].parent
    }

    /// The children of node `i`, in the order in which they were attached.
    pub closed spec fn links_at(&self, i: usize) -> Seq<usize> {
        self.nodes@[i as int].links@
    }

    /// A measure that grows strictly from every parent to its children.
    pub closed spec fn rank(&self, i: usize) -> nat {
        (self.rank@)(i)
    }

    /// `i` is a node of the arena.
    pub open spec fn valid(&self, i: usize) -> bool {
        i < self.size()
    }

    /// A node other than the root has a label, and its parent lists it.
    pub open spec fn link_up(&self, i: usize) -> bool {
        &&& self.segment(i).len() > 0
        &&& self.parent_at(i) is Some
        &&& self.parent_at(i).unwrap() < self.size()
        &&& self.rank(self.parent_at(i).unwrap()) < self.rank(i)
        &&& self.links_at(self.parent_at(i).unwrap()).contains(i)
    }

    /// The `k`-th child of `i` is a node other than the root that names `i` as its parent.
    pub open spec fn link_down(&self, i: usize, k: int) -> bool {
        &&& 0 < self.links_at(i)[k] < self.size()
        &&& self.parent_at(self.links_at(i)[k]) == Some(i)
    }

    /// Two children of `i` begin with different scalar values.
    pub open spec fn apart(&self, i: usize, k: int, l: int) -> bool {
        self.segment(self.links_at(i)[k])[0] != self.segment(self.links_at(i)[l])[0]
    }

    /// The trie's invariant: one root with the empty label and no parent,
    /// parent and child references that agree, and siblings whose labels
    /// begin differently (so that none is a prefix of another).
    pub open spec fn wf(&self) -> bool {
        &&& self.size() >= 1
        &&& self.segment(0).len() == 0
        &&& self.parent_at(0) is None
        &&& forall|i: usize| 0 < i < self.size() ==> #[trigger] self.link_up(i)
        &&& forall|i: usize, k: int|
            i < self.size() && 0 <= k < self.links_at(i).len() ==> #[trigger] self.link_down(i, k)
        &&& forall|i: usize, k: int, l: int|
            i < self.size() && 0 <= k < l < self.links_at(i).len() ==> #[trigger] self.apart(i, k, l)
    }

    /// The concatenation of the labels on the path from the root to `i`.
    pub open spec fn code_to(&self, i: usize) -> Seq<char>
        decreases self.rank(i),
    {
        if 0 < i < self.size() && self.link_up(i) {
            self.code_to(self.parent_at(i).unwrap()) + self.segment(i)
        } else {
            Seq::empty()
        }
    }

    /// The words of the first `upto` children of `n`, child after child.
    pub open spec fn child_words(&self, n: usize, upto: int) -> Seq<Seq<char>>
        decreases upto,
    {
        if upto <= 0 {
            Seq::empty()
        } else {
            self.child_words(n, upto - 1) + self.words_at(self.links_at(n)[upto - 1])
        }
    }

    /// The node's own words followed by the words of each direct child.
    pub open spec fn candidates_of(&self, n: usize) -> Seq<Seq<char>> {
        self.words_at(n) + self.child_words(n, self.links_at(n).len() as int)
    }

    /// `a` lies on the path from `b` up to the root, `b` itself included.
    pub open spec fn on_path(&self, a: usize, b: usize) -> bool
        decreases self.rank(b),
    {
        a == b || (0 < b < self.size() && self.link_up(b) && self.on_path(a, self.parent_at(b).unwrap()))
    }

    /// The arena holds no more nodes than an index can count.
    pub proof fn lemma_size_bound(&self)
        ensures
            self.size() <= usize::MAX,
    {
        assert(self.nodes@.len() == self.nodes.len());
    }

    /// An empty trie: the root alone.
    pub fn new() -> (trie: Self)
        ensures
            trie.wf(),
            trie.size() == 1,
            trie.words_at(0).len() == 0,
            trie.links_at(0).len() == 0,
            forall|c: Seq<char>| #[trigger] trie.has_code(c) <==> c.len() == 0,
            forall|c: Seq<char>| (#[trigger] trie.lookup(c)).len() == 0,
    {
        let root = Node { code: String::new(), words: Vec::new(), parent: None, links: Vec::new() };
        let mut nodes: Vec<Node> = Vec::new();
        nodes.push(root);
        let trie = Trie { nodes, rank: Ghost(|i: usize| 0nat) };
        proof {
            assert forall|c: Seq<char>| #[trigger] trie.has_code(c) <==> c.len() == 0 by {
                if c.len() == 0 {
                    assert(trie.valid(0) && trie.code_to(0) =~= c);
                }
            }
            assert forall|c: Seq<char>| (#[trigger] trie.lookup(c)).len() == 0 by {
                if trie.has_code(c) {
                    assert(trie.node_of(c) == 0);
                }
            }
        }
        trie
    }

    /// The root's index.
    pub fn root(&self) -> (root: usize)
        ensures
            root == 0,
    {
        0
    }

    /// The number of nodes in the arena.
    pub fn node_count(&self) -> (n: usize)
        ensures
            n == self.size(),
    {
        self.nodes.len()
    }

    /// The parent of `node`: none for the root.
    pub fn parent(&self, node: usize) -> (parent: Option<usize>)
        requires
            self.valid(node),
        ensures
            parent == self.parent_at(node),
    {
        self.nodes[node].parent
    }

    /// The children of `node`, in the order in which they were attached.
    pub fn children(&self, node: usize) -> (children: &Vec<usize>)
        requires
            self.valid(node),
        ensures
            children@ == self.links_at(node),
    {
        &self.nodes[node].links
    }

    /// Whether `node` has no parent.
    pub fn is_root(&self, node: usize) -> (yes: bool)
        requires
            self.valid(node),
        ensures
            yes == (self.parent_at(node) is None),
    {
        self.nodes[node].parent.is_none()
    }

    /// Whether `node` has no children.
    pub fn is_leaf(&self, node: usize) -> (yes: bool)
        requires
            self.valid(node),
        ensures
            yes == (self.links_at(node).len() == 0),
    {
        self.nodes[node].links.len() == 0
    }

    /// The label of the edge that leads to `node`: empty for the root.
    pub fn code(&self, node: usize) -> (code: &String)
        requires
            self.valid(node),
        ensures
            code@ == self.segment(node),
    {
        &self.nodes[node].code
    }

    /// The words that end exactly at `node`, in insertion order.
    pub fn words(&self, node: usize) -> (words: &Vec<String>)
        requires
            self.valid(node),
        ensures
            texts(words@) == self.words_at(node),
    {
        &self.nodes[node].words
    }

    /// Node `i` is in `self` what it is in `before`.
    pub open spec fn same_node(&self, before: &Trie, i: usize) -> bool {
        &&& self.segment(i) == before.segment(i)
        &&& self.words_at(i) == before.words_at(i)
        &&& self.parent_at(i) == before.parent_at(i)
        &&& self.links_at(i) == before.links_at(i)
    }

    /// How the trie after `w` was appended to the words of node `k` relates
    /// to the trie before: nothing else has changed.
    pub open spec fn appended_of(&self, before: &Trie, k: usize, w: Seq<char>) -> bool {
        &&& self.size() == before.size()
        &&& self.words_at(k) == before.words_at(k).push(w)
        &&& self.segment(k) == before.segment(k)
        &&& self.parent_at(k) == before.parent_at(k)
        &&& self.links_at(k) == before.links_at(k)
        &&& forall|i: usize| i < before.size() && i != k ==> #[trigger] self.same_node(before, i)
    }

    /// How the trie after a leaf with the label `r` and the word `w` was
    /// attached under node `k` relates to the trie before: the leaf is the
    /// new last node of the arena and the new last child of `k`.
    pub open spec fn attached_of(&self, before: &Trie, k: usize, r: Seq<char>, w: Seq<char>, leaf: usize) -> bool {
        &&& leaf == before.size()
        &&& self.size() == before.size() + 1
        &&& self.segment(leaf) == r
        &&& self.words_at(leaf) == seq![w]
        &&& self.parent_at(leaf) == Some(k)
        &&& self.links_at(leaf).len() == 0
        &&& self.links_at(k) == before.links_at(k).push(leaf)
        &&& self.segment(k) == before.segment(k)
        &&& self.words_at(k) == before.words_at(k)
        &&& self.parent_at(k) == before.parent_at(k)
        &&& forall|i: usize| i < before.size() && i != k ==> #[trigger] self.same_node(before, i)
    }

    /// Appends `word` to the words of node `k`.
    pub(crate) fn push_word(&mut self, k: usize, word: String)
        requires
            old(self).wf(),
            old(self).valid(k),
        ensures
            final(self).wf(),
            final(self).appended_of(old(self), k, word@),
            final(self).size() == old(self).size(),
            final(self).words_at(k) == old(self).words_at(k).push(word@),
            forall|i: usize|
                i < old(self).size() && i != k ==> #[trigger] final(self).words_at(i) == old(self).words_at(i),
            forall|i: usize| i < old(self).size() ==> #[trigger] final(self).segment(i) == old(self).segment(i),
            forall|i: usize| i < old(self).size() ==> #[trigger] final(self).parent_at(i) == old(self).parent_at(i),
            forall|i: usize| i < old(self).size() ==> #[trigger] final(self).links_at(i) == old(self).links_at(i),
    {
        let ghost before = *self;
        self.nodes[k].words.push(word);
        proof {
            assert(self.words_at(k) =~= before.words_at(k).push(word@));
            assert forall|i: usize| i < before.size() && i != k implies #[trigger] self.same_node(&before, i) by {}
            assert(self.appended_of(&before, k, word@));
            assert forall|i: usize| 0 < i < self.size() implies #[trigger] self.link_up(i) by {
                assert(before.link_up(i));
            }
            assert forall|i: usize, j: int|
                i < self.size() && 0 <= j < self.links_at(i).len() implies #[trigger] self.link_down(i, j) by {
                assert(before.link_down(i, j));
            }
            assert forall|i: usize, j: int, l: int|
                i < self.size() && 0 <= j < l < self.links_at(i).len() implies #[trigger] self.apart(i, j, l) by {
                assert(before.apart(i, j, l));
                assert(before.link_down(i, j));
                assert(before.link_down(i, l));
            }
        }
    }

    /// Attaches a new leaf with label `code` and the single word `word` under node `k`.
    pub(crate) fn attach(&mut self, k: usize, code: String, word: String) -> (leaf: usize)
        requires
            old(self).wf(),
            old(self).valid(k),
            code@.len() > 0,
            forall|j: int|
                0 <= j < old(self).links_at(k).len() ==> old(self).segment(
                    #[trigger] old(self).links_at(k)[j],
                )[0] != code@[0],
        ensures
            final(self).wf(),
            final(self).attached_of(old(self), k, code@, word@, leaf),
            leaf == old(self).size(),
            final(self).size() == old(self).size() + 1,
            final(self).segment(leaf) == code@,
            final(self).words_at(leaf) == seq![word@],
            final(self).parent_at(leaf) == Some(k),
            final(self).links_at(leaf).len() == 0,
            final(self).links_at(k) == old(self).links_at(k).push(leaf),
            forall|i: usize| i < old(self).size() ==> #[trigger] final(self).words_at(i) == old(self).words_at(i),
            forall|i: usize| i < old(self).size() ==> #[trigger] final(self).segment(i) == old(self).segment(i),
            forall|i: usize| i < old(self).size() ==> #[trigger] final(self).parent_at(i) == old(self).parent_at(i),
            forall|i: usize|
                i < old(self).size() && i != k ==> #[trigger] final(self).links_at(i) == old(self).links_at(i),
    {
        let ghost before = *self;
        let leaf = self.nodes.len();
        let mut words: Vec<String> = Vec::new();
        words.push(word);
        self.nodes[k].links.push(leaf);
        self.nodes.push(Node { code, words, parent: Some(k), links: Vec::new() });
        let ghost prior = before.rank@;
        self.rank = Ghost(|i: usize| if i == leaf { prior(k) + 1 } else { prior(i) });
        proof {
            assert(self.words_at(leaf) =~= seq![word@]);
            assert forall|i: usize| i < before.size() && i != k implies #[trigger] self.same_node(&before, i) by {}
            assert(self.attached_of(&before, k, code@, word@, leaf));
            assert forall|i: usize| 0 < i < self.size() implies #[trigger] self.link_up(i) by {
                if i < leaf {
                    assert(before.link_up(i));
                    let p = before.parent_at(i).unwrap();
                    let j = choose|j: int| 0 <= j < before.links_at(p).len() && before.links_at(p)[j] == i;
                    assert(self.links_at(p)[j] == i);
                } else {
                    assert(self.links_at(k)[before.links_at(k).len() as int] == leaf);
                }
            }
            assert forall|i: usize, j: int|
                i < self.size() && 0 <= j < self.links_at(i).len() implies #[trigger] self.link_down(i, j) by {
                if i < leaf && j < before.links_at(i).len() {
                    assert(before.link_down(i, j));
                }
            }
            assert forall|i: usize, j: int, l: int|
                i < self.size() && 0 <= j < l < self.links_at(i).len() implies #[trigger] self.apart(i, j, l) by {
                if l < before.links_at(i).len() {
                    assert(before.apart(i, j, l));
                    assert(before.link_down(i, j));
                    assert(before.link_down(i, l));
                } else {
                    assert(before.link_down(i, j));
                    assert(before.links_at(k)[j] == self.links_at(k)[j]);
                }
            }
        }
        leaf
    }

    /// What a split of `k` leaves of a node `i` other than `k`: all but the
    /// parent of the children of `k`, which is now the new node `spawn`.
    pub open spec fn split_keeps(&self, before: &Trie, k: usize, spawn: usize, i: usize) -> bool {
        &&& self.segment(i) == before.segment(i)
        &&& self.words_at(i) == before.words_at(i)
        &&& self.links_at(i) == before.links_at(i)
        &&& self.parent_at(i) == (if before.parent_at(i) == Some(k) {
            Some(spawn)
        } else {
            before.parent_at(i)
        })
    }

    /// How the trie after splitting node `k` at `m` relates to the trie before:
    /// `k` keeps the first `m` scalar values of its label and loses its words;
    /// a new node `spawn`, the last of the arena and the only child of `k`,
    /// takes the rest of the label with the old words and the old children.
    pub open spec fn split_of(&self, before: &Trie, k: usize, m: int, spawn: usize) -> bool {
        &&& spawn == before.size()
        &&& self.size() == before.size() + 1
        &&& self.segment(k) == before.segment(k).subrange(0, m)
        &&& self.segment(spawn) == before.segment(k).subrange(m, before.segment(k).len() as int)
        &&& self.words_at(k).len() == 0
        &&& self.words_at(spawn) == before.words_at(k)
        &&& self.links_at(k) == seq![spawn]
        &&& self.links_at(spawn) == before.links_at(k)
        &&& self.parent_at(spawn) == Some(k)
        &&& self.parent_at(k) == before.parent_at(k)
        &&& forall|i: usize| i < before.size() && i != k ==> #[trigger] self.split_keeps(before, k, spawn, i)
    }

    /// Splits node `k` after the first `m` scalar values of its label.
    pub(crate) fn split(&mut self, k: usize, m: usize) -> (spawn: usize)
        requires
            old(self).wf(),
            old(self).valid(k),
            0 < m < old(self).segment(k).len(),
        ensures
            final(self).wf(),
            final(self).split_of(old(self), k, m as int, spawn),
    {
        let ghost before = *self;
        let spawn = self.nodes.len();
        proof {
            if k == 0 {
                assert(false);
            }
            assert(before.link_up(k));
        }
        let len = self.nodes[k].code.as_str().unicode_len();
        let head = String::from_str(self.nodes[k].code.as_str().substring_char(0, m));
        let tail = String::from_str(self.nodes[k].code.as_str().substring_char(m, len));
        let mut words: Vec<String> = Vec::new();
        let mut links: Vec<usize> = Vec::new();
        std::mem::swap(&mut self.nodes[k].words, &mut words);
        std::mem::swap(&mut self.nodes[k].links, &mut links);
        self.nodes[k].code = head;
        self.nodes[k].links.push(spawn);
        let mut j: usize = 0;
        while j < links.len()
            invariant
                before.wf(),
                k < before.size(),
                spawn == before.size(),
                0 < m < before.segment(k).len(),
                links@ == before.links_at(k),
                0 <= j <= links.len(),
                self.nodes@.len() == before.nodes@.len(),
                self.rank@ == before.rank@,
                forall|i: usize|
                    i < before.size() && i != k ==> {
                        &&& (#[trigger] self.nodes@[i as int]).code == before.nodes@[i as int].code
                        &&& self.nodes@[i as int].words == before.nodes@[i as int].words
                        &&& self.nodes@[i as int].links == before.nodes@[i as int].links
                        &&& self.nodes@[i as int].parent == (if links@.subrange(0, j as int).contains(i) {
                            Some(spawn)
                        } else {
                            before.nodes@[i as int].parent
                        })
                    },
                self.nodes@[k as int].code@ == before.segment(k).subrange(0, m as int),
                self.nodes@[k as int].words@.len() == 0,
                self.nodes@[k as int].links@ == seq![spawn],
                self.nodes@[k as int].parent == before.nodes@[k as int].parent,
            decreases links.len() - j,
        {
            let c = links[j];
            proof {
                assert(before.link_down(k, j as int));
                assert(before.link_up(c));
                assert(c != k);
            }
            let ghost prev = self.nodes@;
            self.nodes[c].parent = Some(spawn);
            proof {
                let done = links@.subrange(0, j as int);
                let next = links@.subrange(0, j as int + 1);
                assert(next =~= done.push(c));
                assert forall|i: usize| i < before.size() && i != k implies {
                    &&& (#[trigger] self.nodes@[i as int]).code == before.nodes@[i as int].code
                    &&& self.nodes@[i as int].words == before.nodes@[i as int].words
                    &&& self.nodes@[i as int].links == before.nodes@[i as int].links
                    &&& self.nodes@[i as int].parent == (if next.contains(i) {
                        Some(spawn)
                    } else {
                        before.nodes@[i as int].parent
                    })
                } by {
                    assert(prev[i as int].code == before.nodes@[i as int].code);
                    if i == c {
                        assert(next[j as int] == c);
                    } else {
                        if next.contains(i) {
                            let x = choose|x: int| 0 <= x < next.len() && next[x] == i;
                            assert(done[x] == i);
                        }
                        if done.contains(i) {
                            let x = choose|x: int| 0 <= x < done.len() && done[x] == i;
                            assert(next[x] == i);
                        }
                    }
                }
            }
            j = j + 1;
        }
        self.nodes.push(Node { code: tail, words, parent: Some(k), links });
        let ghost prior = before.rank@;
        self.rank = Ghost(|i: usize| if i == spawn { 2 * prior(k) + 1 } else { 2 * prior(i) });
        proof {
            assert(links@.subrange(0, links@.len() as int) =~= links@);
            assert forall|i: usize| i < before.size() && i != k implies #[trigger] self.split_keeps(
                &before,
                k,
                spawn,
                i,
            ) by {
                assert(self.nodes@[i as int].code == before.nodes@[i as int].code);
                if i != 0 {
                    assert(before.link_up(i));
                }
                if before.links_at(k).contains(i) {
                    let x = choose|x: int| 0 <= x < before.links_at(k).len() && before.links_at(k)[x] == i;
                    assert(before.link_down(k, x));
                }
            }
            assert(self.words_at(k) =~= Seq::<Seq<char>>::empty());
            assert(self.nodes@.len() == self.nodes.len());
            assert(self.segment(spawn) == before.segment(k).subrange(m as int, before.segment(k).len() as int));
            assert(self.words_at(spawn) == before.words_at(k));
            assert(self.links_at(k) == seq![spawn]);
            assert(self.split_of(&before, k, m as int, spawn));
            self.lemma_split_wf(&before, k, m as int, spawn);
        }
        spawn
    }

    /// Splitting keeps the invariant, with every old rank doubled and the new
    /// node ranked just above the node that was split.
    proof fn lemma_split_wf(&self, before: &Trie, k: usize, m: int, spawn: usize)
        requires
            before.wf(),
            0 < k < before.size(),
            0 < m < before.segment(k).len(),
            self.split_of(before, k, m, spawn),
            self.rank(spawn) == 2 * before.rank(k) + 1,
            forall|i: usize| i < before.size() ==> #[trigger] self.rank(i) == 2 * before.rank(i),
        ensures
            self.wf(),
    {
        assert(self.segment(spawn).len() > 0);
        assert(self.segment(k).len() > 0);
        assert(self.segment(k)[0] == before.segment(k)[0]);
        assert(before.link_up(k));
        assert(self.split_keeps(before, k, spawn, 0));
        assert forall|i: usize| 0 < i < self.size() implies #[trigger] self.link_up(i) by {
            if i == spawn {
                assert(self.links_at(k)[0] == spawn);
            } else if i == k {
                let p = before.parent_at(k).unwrap();
                assert(self.split_keeps(before, k, spawn, p));
                assert(p != k);
            } else {
                assert(before.link_up(i));
                assert(self.split_keeps(before, k, spawn, i));
                let p = before.parent_at(i).unwrap();
                if p != k {
                    assert(self.split_keeps(before, k, spawn, p));
                }
            }
        }
        assert forall|i: usize, j: int|
            i < self.size() && 0 <= j < self.links_at(i).len() implies #[trigger] self.link_down(i, j) by {
            if i == spawn {
                assert(before.link_down(k, j));
                let c = before.links_at(k)[j];
                assert(before.link_up(c));
                assert(self.split_keeps(before, k, spawn, c));
            } else if i == k {
            } else {
                assert(self.split_keeps(before, k, spawn, i));
                assert(before.link_down(i, j));
                let c = before.links_at(i)[j];
                if c != k {
                    assert(self.split_keeps(before, k, spawn, c));
                }
            }
        }
        assert forall|i: usize, j: int, l: int|
            i < self.size() && 0 <= j < l < self.links_at(i).len() implies #[trigger] self.apart(i, j, l) by {
            if i == spawn {
                assert(before.apart(k, j, l));
                assert(before.link_down(k, j));
                assert(before.link_down(k, l));
                let c = before.links_at(k)[j];
                let d = before.links_at(k)[l];
                assert(before.link_up(c));
                assert(before.link_up(d));
                assert(self.split_keeps(before, k, spawn, c));
                assert(self.split_keeps(before, k, spawn, d));
            } else if i == k {
            } else {
                assert(self.split_keeps(before, k, spawn, i));
                assert(before.apart(i, j, l));
                assert(before.link_down(i, j));
                assert(before.link_down(i, l));
                let c = before.links_at(i)[j];
                let d = before.links_at(i)[l];
                if c != k {
                    assert(self.split_keeps(before, k, spawn, c));
                }
                if d != k {
                    assert(self.split_keeps(before, k, spawn, d));
                }
            }
        }
    }
}

impl Default for Trie {
    /// An empty trie.
    fn default() -> (trie: Self)
        ensures
            trie.wf(),
            trie.size() == 1,
            trie.words_at(0).len() == 0,
            trie.links_at(0).len() == 0,
            forall|c: Seq<char>| #[trigger] trie.has_code(c) <==> c.len() == 0,
            forall|c: Seq<char>| (#[trigger] trie.lookup(c)).len() == 0,
    {
        Trie::new()
    }
}

} // verus!
