use vstd::prelude::*;
use vstd::string::*;
use crate::{lemma_texts_push, texts};
use crate::trie::Trie;

verus! {

/// The walk from a node up to the root, one node at a time.
pub struct Bubble {
    node: Option<usize>,
}

impl Bubble {
    /// The node that the next step hands out, if the walk is not over.
    pub closed spec fn pending(&self) -> Option<usize> {
        self.node
    }

    /// The walk that starts at `leaf`.
    pub fn new(leaf: usize) -> (bubble: Self)
        ensures
            bubble.pending() == Some(leaf),
    {
        Bubble { node: Some(leaf) }
    }

    /// Hands out the pending node and moves to its parent.
    pub fn next(&mut self, trie: &Trie) -> (node: Option<usize>)
        requires
            trie.wf(),
            old(self).pending() is Some ==> trie.valid(old(self).pending().unwrap()),
        ensures
            node == old(self).pending(),
            final(self).pending() == (match old(self).pending() {
                Some(n) => trie.parent_at(n),
                None => None,
            }),
            final(self).pending() is Some ==> trie.valid(final(self).pending().unwrap()),
    {
        match self.node {
            None => None,
            Some(n) => {
                proof {
                    if n != 0 {
                        assert(trie.link_up(n));
                    }
                }
                self.node = trie.parent(n);
                Some(n)
            },
        }
    }
}

/// A traversal of the trie that hands out every node below its start, each
/// parent before its children.
pub struct Nodes {
    stack: Vec<usize>,
}

impl Nodes {
    /// The nodes that are found and not yet handed out; the last is next.
    pub closed spec fn stack(&self) -> Seq<usize> {
        self.stack@
    }

    /// The traversal that starts at `root`.
    pub fn new(root: usize) -> (nodes: Self)
        ensures
            nodes.stack() == seq![root],
    {
        let mut stack: Vec<usize> = Vec::new();
        stack.push(root);
        Nodes { stack }
    }

    /// Hands out the last node found and puts its children in its place.
    pub fn next(&mut self, trie: &Trie) -> (node: Option<usize>)
        requires
            trie.wf(),
            forall|x: int| 0 <= x < old(self).stack().len() ==> trie.valid(#[trigger] old(self).stack()[x]),
        ensures
            match node {
                Some(n) => old(self).stack().len() > 0 && n == old(self).stack().last() && final(self).stack()
                    == old(self).stack().drop_last() + trie.links_at(n),
                None => old(self).stack().len() == 0 && final(self).stack() == old(self).stack(),
            },
            forall|x: int| 0 <= x < final(self).stack().len() ==> trie.valid(#[trigger] final(self).stack()[x]),
    {
        match self.stack.pop() {
            None => None,
            Some(n) => {
                let ghost base = self.stack@;
                assert(trie.valid(old(self).stack()[old(self).stack().len() - 1]));
                let links = trie.children(n);
                let mut k: usize = 0;
                while k < links.len()
                    invariant
                        trie.wf(),
                        trie.valid(n),
                        links@ == trie.links_at(n),
                        0 <= k <= links.len(),
                        self.stack@ == base + links@.subrange(0, k as int),
                        forall|x: int| 0 <= x < self.stack@.len() ==> trie.valid(#[trigger] self.stack@[x]),
                    decreases links.len() - k,
                {
                    let ghost prev = self.stack@;
                    proof {
                        assert(trie.link_down(n, k as int));
                    }
                    self.stack.push(links[k]);
                    k = k + 1;
                    assert(self.stack@ =~= base + links@.subrange(0, k as int));
                }
                assert(links@.subrange(0, k as int) =~= links@);
                Some(n)
            },
        }
    }
}

impl Trie {
    /// The labels of the children of `node`, in their order.
    pub open spec fn edges_of(&self, node: usize) -> Seq<Seq<char>> {
        self.links_at(node).map_values(|c: usize| self.segment(c))
    }

    /// A traversal that starts at the root.
    pub fn nodes(&self) -> (nodes: Nodes)
        ensures
            nodes.stack() == seq![0usize],
    {
        Nodes::new(0)
    }

    /// The walk from `node` up to the root.
    pub fn bubble(&self, node: usize) -> (bubble: Bubble)
        ensures
            bubble.pending() == Some(node),
    {
        Bubble::new(node)
    }

    /// The labels of the children of `node`.
    pub fn edges(&self, node: usize) -> (labels: Vec<String>)
        requires
            self.wf(),
            self.valid(node),
        ensures
            texts(labels@) == self.edges_of(node),
    {
        let links = self.children(node);
        let mut labels: Vec<String> = Vec::new();
        let mut k: usize = 0;
        while k < links.len()
            invariant
                self.wf(),
                self.valid(node),
                links@ == self.links_at(node),
                0 <= k <= links.len(),
                texts(labels@) == self.edges_of(node).subrange(0, k as int),
            decreases links.len() - k,
        {
            proof {
                assert(self.link_down(node, k as int));
            }
            let ghost prev = labels@;
            let label = self.code(links[k]).clone();
            labels.push(label);
            proof {
                lemma_texts_push(prev, label);
            }
            k = k + 1;
            assert(texts(labels@) =~= self.edges_of(node).subrange(0, k as int));
        }
        assert(self.edges_of(node).subrange(0, k as int) =~= self.edges_of(node));
        labels
    }

    /// The child of `node` whose label is `code`.
    pub fn child(&self, node: usize, code: &str) -> (child: Option<usize>)
        requires
            self.wf(),
            self.valid(node),
        ensures
            match child {
                Some(c) => self.links_at(node).contains(c) && self.valid(c) && self.segment(c) == code@
                    && self.parent_at(c) == Some(node),
                None => forall|k: int|
                    0 <= k < self.links_at(node).len() ==> self.segment(#[trigger] self.links_at(node)[k])
                        != code@,
            },
    {
        let links = self.children(node);
        let wanted = String::from_str(code);
        let mut k: usize = 0;
        while k < links.len()
            invariant
                self.wf(),
                self.valid(node),
                links@ == self.links_at(node),
                wanted@ == code@,
                0 <= k <= links.len(),
                forall|j: int| 0 <= j < k ==> self.segment(#[trigger] self.links_at(node)[j]) != code@,
            decreases links.len() - k,
        {
            let c = links[k];
            proof {
                assert(self.link_down(node, k as int));
            }
            if *self.code(c) == wanted {
                return Some(c);
            }
            k = k + 1;
        }
        None
    }

    /// Whether `a` lies on the path from `b` up to the root, `b` itself included.
    pub fn is_ancestor_of(&self, a: usize, b: usize) -> (yes: bool)
        requires
            self.wf(),
            self.valid(b),
        ensures
            yes == self.on_path(a, b),
    {
        let mut cur = b;
        loop
            invariant
                self.wf(),
                self.valid(cur),
                self.on_path(a, b) == self.on_path(a, cur),
            decreases self.rank(cur),
        {
            if cur == a {
                return true;
            }
            proof {
                if cur != 0 {
                    assert(self.link_up(cur));
                }
            }
            match self.parent(cur) {
                None => {
                    return false;
                },
                Some(p) => {
                    cur = p;
                },
            }
        }
    }

    /// The concatenation of the labels on the path from the root to `node`.
    pub fn full_code(&self, node: usize) -> (code: String)
        requires
            self.wf(),
            self.valid(node),
        ensures
            code@ == self.code_to(node),
    {
        let mut code = String::new();
        let mut cur = node;
        assert(self.code_to(cur) + code@ =~= self.code_to(node));
        loop
            invariant
                self.wf(),
                self.valid(cur),
                self.code_to(cur) + code@ == self.code_to(node),
            decreases self.rank(cur),
        {
            proof {
                if cur != 0 {
                    assert(self.link_up(cur));
                }
            }
            match self.parent(cur) {
                None => {
                    assert(self.code_to(cur) + code@ =~= code@);
                    return code;
                },
                Some(p) => {
                    let ghost tail = code@;
                    let mut longer = self.code(cur).clone();
                    longer.append(code.as_str());
                    code = longer;
                    assert(self.code_to(p) + code@ =~= self.code_to(cur) + tail);
                    cur = p;
                },
            }
        }
    }

    /// The length of the full code of `node`, in scalar values.
    pub fn full_code_len(&self, node: usize) -> (len: usize)
        requires
            self.wf(),
            self.valid(node),
        ensures
            len == self.code_to(node).len(),
    {
        let code = self.full_code(node);
        code.as_str().unicode_len()
    }
}

} // verus!
