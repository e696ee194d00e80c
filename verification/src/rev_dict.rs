use vstd::hash_map::StringHashMap;
use vstd::prelude::*;
use vstd::string::*;
use crate::texts;
use crate::trie::Trie;

verus! {

/// What the index holds for one word: the node chosen for it, and that node's full code.
struct Info {
    full_code: String,
    node: usize,
}

/// An index from words to codes over a trie that no longer changes: for
/// each word one node and that node's full code.
pub struct RevDict<'a> {
    map: StringHashMap<Info>,
    trie: &'a Trie,
}

impl<'a> RevDict<'a> {
    /// The trie that the index was made for.
    pub closed spec fn trie(&self) -> Trie {
        *self.trie
    }

    /// The index holds the word `w`.
    pub closed spec fn has(&self, w: Seq<char>) -> bool {
        self.map@.contains_key(w)
    }

    /// The code that the index gives for `w`.
    pub closed spec fn code_for(&self, w: Seq<char>) -> Seq<char> {
        self.map@[w].full_code@
    }

    /// The node that the index gives for `w`.
    pub closed spec fn node_for(&self, w: Seq<char>) -> usize {
        self.map@[w].node
    }

    /// Every word of the index has a node of the trie and that node's full code.
    pub open spec fn wf(&self) -> bool {
        &&& self.trie().wf()
        &&& forall|w: Seq<char>| #[trigger]
            self.has(w) ==> self.trie().valid(self.node_for(w)) && self.code_for(w) == self.trie().code_to(
                self.node_for(w),
            )
    }

    /// An index without words.
    pub fn new(trie: &'a Trie) -> (dict: Self)
        requires
            trie.wf(),
        ensures
            dict.wf(),
            dict.trie() == *trie,
            forall|w: Seq<char>| !#[trigger] dict.has(w),
    {
        RevDict { map: StringHashMap::new(), trie }
    }

    /// The trie that the index was made for.
    pub fn source(&self) -> (trie: &'a Trie)
        ensures
            *trie == self.trie(),
    {
        self.trie
    }

    /// The code and the node that the index gives for `word`.
    pub fn get(&self, word: &str) -> (found: Option<(&String, usize)>)
        requires
            self.wf(),
        ensures
            match found {
                Some((code, node)) => self.has(word@) && code@ == self.code_for(word@) && node == self.node_for(
                    word@,
                ) && self.trie().valid(node) && code@ == self.trie().code_to(node),
                None => !self.has(word@),
            },
    {
        match self.map.get(word) {
            Some(info) => {
                assert(self.has(word@));
                Some((&info.full_code, info.node))
            },
            None => None,
        }
    }

    /// How the index after `word` was given `node` relates to the index before.
    pub open spec fn set_from(&self, before: &RevDict, word: Seq<char>, node: usize) -> bool {
        &&& self.trie() == before.trie()
        &&& self.has(word)
        &&& self.node_for(word) == node
        &&& self.code_for(word) == self.trie().code_to(node)
        &&& forall|w: Seq<char>| w != word ==> #[trigger] self.agrees(before, w)
    }

    /// The two indexes say the same of the word `w`.
    pub open spec fn agrees(&self, before: &RevDict, w: Seq<char>) -> bool {
        &&& self.has(w) == before.has(w)
        &&& before.has(w) ==> self.node_for(w) == before.node_for(w) && self.code_for(w) == before.code_for(w)
    }

    /// Gives `word` the node `node` and its full code, whatever it had before.
    pub fn insert(&mut self, word: String, node: usize)
        requires
            old(self).wf(),
            old(self).trie().valid(node),
        ensures
            final(self).wf(),
            final(self).set_from(old(self), word@, node),
    {
        let ghost before = *self;
        let full_code = self.trie.full_code(node);
        self.map.insert(word, Info { full_code, node });
        proof {
            assert forall|w: Seq<char>| w != word@ implies #[trigger] self.agrees(&before, w) by {}
            assert forall|w: Seq<char>| #[trigger] self.has(w) implies self.trie().valid(self.node_for(w))
                && self.code_for(w) == self.trie().code_to(self.node_for(w)) by {
                if w != word@ {
                    assert(before.has(w));
                }
            }
        }
    }

    /// Gives `word` the node `node` if the word is new or the node's full
    /// code is shorter than the code that the word has.
    pub fn insert_if_shorter(&mut self, word: &str, node: usize)
        requires
            old(self).wf(),
            old(self).trie().valid(node),
        ensures
            final(self).wf(),
            final(self).trie() == old(self).trie(),
            !old(self).has(word@) || old(self).trie().code_to(node).len() < old(self).code_for(word@).len()
                ==> final(self).set_from(old(self), word@, node),
            old(self).has(word@) && old(self).trie().code_to(node).len() >= old(self).code_for(word@).len()
                ==> *final(self) == *old(self),
    {
        match self.get(word) {
            None => {
                self.insert(String::from_str(word), node);
            },
            Some((code, _)) => {
                if self.trie.full_code_len(node) < code.as_str().unicode_len() {
                    self.insert(String::from_str(word), node);
                }
            },
        }
    }
}

impl Trie {
    /// Node `n` holds the word `w`.
    pub open spec fn holds(&self, w: Seq<char>, n: usize) -> bool {
        self.valid(n) && self.words_at(n).contains(w)
    }

    /// Node `n` holds `w` in what a traversal has seen when the nodes of
    /// `visited` are behind it and it stands before word `j` of node `cur`.
    pub open spec fn holds_before(&self, w: Seq<char>, n: usize, visited: Seq<usize>, cur: usize, j: int) -> bool {
        self.valid(n) && ((visited.contains(n) && self.words_at(n).contains(w)) || (n == cur && self.words_at(
            n,
        ).subrange(0, j).contains(w)))
    }

    /// `n` stands in `order` and `m` at the same place or later.
    pub open spec fn not_after(order: Seq<usize>, n: usize, m: usize) -> bool {
        exists|p: int, q: int| 0 <= p <= q < order.len() && #[trigger] order[p] == n && #[trigger] order[q] == m
    }

    /// The full code of `n` is shorter than that of `m`, or as long with `n`
    /// not after `m` in `order`.
    pub open spec fn precedes(&self, order: Seq<usize>, n: usize, m: usize) -> bool {
        self.code_to(n).len() < self.code_to(m).len() || (self.code_to(n).len() == self.code_to(m).len()
            && Self::not_after(order, n, m))
    }

    /// What stands not after another in an order does so in a longer one.
    proof fn lemma_precedes_on(&self, order: Seq<usize>, x: usize, n: usize, m: usize)
        requires
            self.precedes(order, n, m),
        ensures
            self.precedes(order.push(x), n, m),
    {
        if Self::not_after(order, n, m) {
            let (p, q) = choose|p: int, q: int|
                0 <= p <= q < order.len() && #[trigger] order[p] == n && #[trigger] order[q] == m;
            let longer = order.push(x);
            assert(longer[p] == n && longer[q] == m);
        }
    }

    /// One more word of node `cur` seen: the holders of `w` are those
    /// before, and `cur` if that word is `w`.
    proof fn lemma_holds_step(&self, w: Seq<char>, n: usize, visited: Seq<usize>, cur: usize, j: int)
        requires
            self.valid(cur),
            0 <= j < self.words_at(cur).len(),
        ensures
            self.holds_before(w, n, visited, cur, j + 1) == (self.holds_before(w, n, visited, cur, j) || (n == cur
                && self.words_at(cur)[j] == w)),
    {
        let all = self.words_at(cur);
        let longer = all.subrange(0, j + 1);
        let shorter = all.subrange(0, j);
        if longer.contains(w) {
            let k = choose|k: int| 0 <= k < longer.len() && longer[k] == w;
            if k < j {
                assert(shorter[k] == w);
            }
        }
        if shorter.contains(w) {
            let k = choose|k: int| 0 <= k < shorter.len() && shorter[k] == w;
            assert(longer[k] == w);
        }
        if all[j] == w {
            assert(longer[j] == w);
        }
    }

    /// The index of the trie: every word that some node holds, with the node
    /// of the shortest full code that holds it, and of several such nodes the
    /// one that a depth-first traversal from the root meets first.
    pub fn rev_dict(&self) -> (dict: RevDict<'_>)
        requires
            self.wf(),
        ensures
            dict.wf(),
            dict.trie() == *self,
            forall|w: Seq<char>| #[trigger] dict.lists(w),
    {
        let mut dict = RevDict::new(self);
        let total = self.node_count();
        let mut nodes = self.nodes();
        let ghost mut visited: Seq<usize> = Seq::empty();
        let mut done = false;
        proof {
            self.lemma_frontier_start();
            assert(self.preorder() =~= visited + self.walk_order(nodes.stack(), (total - visited.len()) as nat));
            assert forall|w: Seq<char>| #[trigger] dict.gathered(w, visited) by {}
        }
        while !done
            invariant
                self.wf(),
                total == self.size(),
                dict.wf(),
                dict.trie() == *self,
                self.frontier(visited, nodes.stack()),
                visited.len() <= total,
                self.preorder() == visited + self.walk_order(nodes.stack(), (total - visited.len()) as nat),
                done ==> nodes.stack().len() == 0,
                forall|w: Seq<char>| #[trigger] dict.gathered(w, visited),
            decreases total - visited.len() + (if done { 0int } else { 1int }),
        {
            let ghost stack = nodes.stack();
            match nodes.next(self) {
                None => {
                    done = true;
                },
                Some(cur) => {
                    proof {
                        self.lemma_frontier_room(visited, stack);
                        self.lemma_frontier_step(visited, stack);
                        assert(self.valid(stack[stack.len() - 1]));
                        assert forall|w: Seq<char>| #[trigger] dict.seen(w, visited, cur, 0) by {
                            assert(dict.gathered(w, visited));
                            dict.lemma_open_node(w, visited, cur);
                        }
                    }
                    let words = self.words(cur);
                    let mut j: usize = 0;
                    while j < words.len()
                        invariant
                            self.wf(),
                            self.valid(cur),
                            texts(words@) == self.words_at(cur),
                            0 <= j <= words.len(),
                            dict.wf(),
                            dict.trie() == *self,
                            forall|w: Seq<char>| #[trigger] dict.seen(w, visited, cur, j as int),
                        decreases words.len() - j,
                    {
                        let ghost prev = dict;
                        dict.insert_if_shorter(words[j].as_str(), cur);
                        proof {
                            assert(texts(words@)[j as int] == words@[j as int]@);
                            assert forall|w: Seq<char>| #[trigger] dict.seen(w, visited, cur, j + 1) by {
                                assert(prev.seen(w, visited, cur, j as int));
                                dict.lemma_seen_step(&prev, w, visited, cur, j as int);
                            }
                        }
                        j = j + 1;
                    }
                    proof {
                        let more = visited.push(cur);
                        assert forall|w: Seq<char>| #[trigger] dict.gathered(w, more) by {
                            assert(dict.seen(w, visited, cur, j as int));
                            dict.lemma_close_node(w, visited, cur);
                        }
                        assert(self.preorder() =~= more + self.walk_order(
                            nodes.stack(),
                            (total - more.len()) as nat,
                        ));
                        visited = more;
                    }
                },
            }
        }
        proof {
            assert(self.preorder() =~= visited);
            assert forall|w: Seq<char>| #[trigger] dict.lists(w) by {
                assert(dict.gathered(w, visited));
                assert forall|n: usize| #[trigger] self.holds(w, n) implies visited.contains(n) by {
                    assert(self.awaited(visited, nodes.stack(), n));
                }
                if exists|n: usize| #[trigger] self.holds(w, n) {
                    let n = choose|n: usize| #[trigger] self.holds(w, n);
                    assert(visited.contains(n) && self.holds(w, n));
                }
                if dict.has(w) {
                    dict.lemma_entry(w);
                }
            }
        }
        dict
    }
}

impl<'a> RevDict<'a> {
    /// The index is right about `w` for the nodes of `visited`: it holds `w`
    /// if one of them does, and then with the one that precedes the others.
    pub open spec fn gathered(&self, w: Seq<char>, visited: Seq<usize>) -> bool {
        &&& self.has(w) <==> exists|n: usize| visited.contains(n) && #[trigger] self.trie().holds(w, n)
        &&& self.has(w) ==> visited.contains(self.node_for(w)) && self.trie().holds(w, self.node_for(w))
        &&& self.has(w) ==> forall|n: usize|
            visited.contains(n) && #[trigger] self.trie().holds(w, n) ==> self.trie().precedes(
                visited,
                self.node_for(w),
                n,
            )
    }

    /// The index is right about `w` for what a traversal has seen when the
    /// nodes of `visited` are behind it and it stands before word `j` of
    /// node `cur`.
    pub open spec fn seen(&self, w: Seq<char>, visited: Seq<usize>, cur: usize, j: int) -> bool {
        &&& self.has(w) <==> exists|n: usize| #[trigger] self.trie().holds_before(w, n, visited, cur, j)
        &&& self.has(w) ==> self.trie().holds_before(w, self.node_for(w), visited, cur, j)
        &&& self.has(w) ==> forall|n: usize| #[trigger]
            self.trie().holds_before(w, n, visited, cur, j) ==> self.trie().precedes(
                visited.push(cur),
                self.node_for(w),
                n,
            )
    }

    /// The index is right about `w`: it holds `w` if some node of the trie
    /// does, and then with a node that holds it, that node's full code, and
    /// no other node that holds it before that one: none with a shorter
    /// full code, and none with a full code as long that a depth-first
    /// traversal from the root meets earlier.
    pub open spec fn lists(&self, w: Seq<char>) -> bool {
        &&& self.has(w) <==> exists|n: usize| #[trigger] self.trie().holds(w, n)
        &&& self.has(w) ==> self.trie().holds(w, self.node_for(w))
        &&& self.has(w) ==> self.code_for(w) == self.trie().code_to(self.node_for(w))
        &&& self.has(w) ==> forall|n: usize| #[trigger]
            self.trie().holds(w, n) ==> self.trie().precedes(self.trie().preorder(), self.node_for(w), n)
    }

    /// The code of an entry is the full code of its node.
    pub proof fn lemma_entry(&self, w: Seq<char>)
        requires
            self.wf(),
            self.has(w),
        ensures
            self.trie().valid(self.node_for(w)),
            self.code_for(w) == self.trie().code_to(self.node_for(w)),
    {
    }

    /// With a new node before it and none of its words seen, the traversal
    /// has seen what the nodes behind it hold.
    proof fn lemma_open_node(&self, w: Seq<char>, visited: Seq<usize>, cur: usize)
        requires
            self.gathered(w, visited),
            self.trie().valid(cur),
        ensures
            self.seen(w, visited, cur, 0),
    {
        let t = self.trie();
        assert forall|n: usize|
            #[trigger] t.holds_before(w, n, visited, cur, 0) == (visited.contains(n) && t.holds(w, n)) by {
            if t.valid(n) {
                assert(!t.words_at(n).subrange(0, 0).contains(w));
            }
        }
        if self.has(w) {
            let n = choose|n: usize| visited.contains(n) && #[trigger] t.holds(w, n);
            assert(t.holds_before(w, n, visited, cur, 0));
            assert forall|n: usize| #[trigger] t.holds_before(w, n, visited, cur, 0) implies t.precedes(
                visited.push(cur),
                self.node_for(w),
                n,
            ) by {
                assert(visited.contains(n) && t.holds(w, n));
                t.lemma_precedes_on(visited, cur, self.node_for(w), n);
            }
        }
        if exists|n: usize| #[trigger] t.holds_before(w, n, visited, cur, 0) {
            let n = choose|n: usize| #[trigger] t.holds_before(w, n, visited, cur, 0);
            assert(visited.contains(n) && t.holds(w, n));
        }
    }

    /// With all words of a node seen, the node is behind the traversal.
    proof fn lemma_close_node(&self, w: Seq<char>, visited: Seq<usize>, cur: usize)
        requires
            self.trie().valid(cur),
            self.seen(w, visited, cur, self.trie().words_at(cur).len() as int),
        ensures
            self.gathered(w, visited.push(cur)),
    {
        let t = self.trie();
        let more = visited.push(cur);
        let all = t.words_at(cur);
        assert(all.subrange(0, all.len() as int) =~= all);
        assert forall|n: usize|
            #[trigger] t.holds_before(w, n, visited, cur, all.len() as int) == (more.contains(n) && t.holds(
                w,
                n,
            )) by {
            if visited.contains(n) {
                let y = choose|y: int| 0 <= y < visited.len() && visited[y] == n;
                assert(more[y] == n);
            }
            if n == cur {
                assert(more[visited.len() as int] == n);
            }
            if more.contains(n) {
                let y = choose|y: int| 0 <= y < more.len() && more[y] == n;
                if y < visited.len() {
                    assert(visited[y] == n);
                }
            }
        }
        if self.has(w) {
            let n = choose|n: usize| #[trigger] t.holds_before(w, n, visited, cur, all.len() as int);
            assert(more.contains(n) && t.holds(w, n));
            assert(t.holds_before(w, self.node_for(w), visited, cur, all.len() as int));
            assert forall|n: usize| more.contains(n) && #[trigger] t.holds(w, n) implies t.precedes(
                more,
                self.node_for(w),
                n,
            ) by {
                assert(t.holds_before(w, n, visited, cur, all.len() as int));
            }
        }
        if exists|n: usize| more.contains(n) && #[trigger] t.holds(w, n) {
            let n = choose|n: usize| more.contains(n) && #[trigger] t.holds(w, n);
            assert(t.holds_before(w, n, visited, cur, all.len() as int));
        }
    }

    /// The index stays right about every word when the traversal takes in
    /// one more word of node `cur`.
    proof fn lemma_seen_step(&self, prev: &RevDict, w: Seq<char>, visited: Seq<usize>, cur: usize, j: int)
        requires
            self.wf(),
            prev.wf(),
            self.trie() == prev.trie(),
            prev.trie().valid(cur),
            0 <= j < prev.trie().words_at(cur).len(),
            prev.seen(w, visited, cur, j),
            prev.seen(prev.trie().words_at(cur)[j], visited, cur, j),
            ({
                let x = prev.trie().words_at(cur)[j];
                &&& !prev.has(x) || prev.trie().code_to(cur).len() < prev.code_for(x).len() ==> self.set_from(
                    prev,
                    x,
                    cur,
                )
                &&& prev.has(x) && prev.trie().code_to(cur).len() >= prev.code_for(x).len() ==> *self == *prev
            }),
        ensures
            self.seen(w, visited, cur, j + 1),
    {
        let t = self.trie();
        let x = t.words_at(cur)[j];
        let order = visited.push(cur);
        assert forall|n: usize|
            #[trigger] t.holds_before(w, n, visited, cur, j + 1) == (t.holds_before(w, n, visited, cur, j) || (n
                == cur && x == w)) by {
            t.lemma_holds_step(w, n, visited, cur, j);
        }
        t.lemma_holds_step(w, cur, visited, cur, j);
        assert(order[visited.len() as int] == cur);
        assert(Trie::not_after(order, cur, cur));
        if w != x {
            if *self != *prev {
                assert(self.agrees(prev, w));
            }
            if self.has(w) {
                let n = choose|n: usize| #[trigger] t.holds_before(w, n, visited, cur, j);
                assert(t.holds_before(w, n, visited, cur, j + 1));
                t.lemma_holds_step(w, self.node_for(w), visited, cur, j);
            }
            if exists|n: usize| #[trigger] t.holds_before(w, n, visited, cur, j + 1) {
                let n = choose|n: usize| #[trigger] t.holds_before(w, n, visited, cur, j + 1);
                assert(t.holds_before(w, n, visited, cur, j));
            }
        } else {
            assert(t.holds_before(w, cur, visited, cur, j + 1));
            if !prev.has(x) {
                assert forall|n: usize| #[trigger] t.holds_before(w, n, visited, cur, j + 1) implies t.precedes(
                    order,
                    self.node_for(w),
                    n,
                ) by {
                    if n != cur {
                        assert(t.holds_before(w, n, visited, cur, j));
                    }
                }
            } else if t.code_to(cur).len() < prev.code_for(x).len() {
                prev.lemma_entry(x);
                assert forall|n: usize| #[trigger] t.holds_before(w, n, visited, cur, j + 1) implies t.precedes(
                    order,
                    self.node_for(w),
                    n,
                ) by {
                    if n != cur {
                        assert(t.holds_before(w, n, visited, cur, j));
                        assert(t.precedes(order, prev.node_for(w), n));
                    }
                }
            } else {
                prev.lemma_entry(x);
                let n0 = prev.node_for(x);
                assert(t.holds_before(w, n0, visited, cur, j));
                assert(t.holds_before(w, n0, visited, cur, j + 1));
                assert forall|n: usize| #[trigger] t.holds_before(w, n, visited, cur, j + 1) implies t.precedes(
                    order,
                    self.node_for(w),
                    n,
                ) by {
                    if t.holds_before(w, n, visited, cur, j) {
                        assert(t.precedes(order, n0, n));
                    } else {
                        if visited.contains(n0) {
                            let y = choose|y: int| 0 <= y < visited.len() && visited[y] == n0;
                            assert(order[y] == n0);
                            assert(Trie::not_after(order, n0, cur));
                        }
                    }
                }
            }
        }
    }
}

} // verus!
