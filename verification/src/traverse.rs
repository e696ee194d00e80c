use vstd::prelude::*;
use crate::trie::Trie;

verus! {

/// A sequence without repetition whose items lie below `bound` has no more
/// than `bound` items.
pub proof fn lemma_distinct_below(items: Seq<usize>, bound: nat)
    requires
        items.no_duplicates(),
        forall|x: int| 0 <= x < items.len() ==> (#[trigger] items[x]) < bound,
    ensures
        items.len() <= bound,
    decreases bound,
{
    if bound == 0 {
        if items.len() > 0 {
            assert(items[0] < bound);
        }
    } else {
        let top = (bound - 1) as nat;
        if exists|p: int| 0 <= p < items.len() && items[p] == top {
            let p = choose|p: int| 0 <= p < items.len() && items[p] == top;
            let less = items.remove(p);
            assert forall|x: int| 0 <= x < less.len() implies (#[trigger] less[x]) < top by {
                if x < p {
                    assert(less[x] == items[x]);
                    assert(items[x] != items[p]);
                } else {
                    assert(less[x] == items[x + 1]);
                    assert(items[x + 1] != items[p]);
                }
            }
            assert forall|x: int, y: int| 0 <= x < less.len() && 0 <= y < less.len() && x != y implies less[x]
                != less[y] by {
                let a = if x < p {
                    x
                } else {
                    x + 1
                };
                let b = if y < p {
                    y
                } else {
                    y + 1
                };
                assert(less[x] == items[a]);
                assert(less[y] == items[b]);
            }
            lemma_distinct_below(less, top);
        } else {
            assert forall|x: int| 0 <= x < items.len() implies (#[trigger] items[x]) < top by {
                assert(items[x] < bound);
            }
            lemma_distinct_below(items, top);
        }
    }
}

impl Trie {
    /// The nodes in the order in which a depth-first traversal hands them
    /// out, at most `fuel` of them: it takes the last node of `stack` and
    /// puts that node's children in its place.
    pub open spec fn walk_order(&self, stack: Seq<usize>, fuel: nat) -> Seq<usize>
        decreases fuel,
    {
        if fuel == 0 || stack.len() == 0 {
            Seq::empty()
        } else {
            seq![stack.last()] + self.walk_order(
                stack.drop_last() + self.links_at(stack.last()),
                (fuel - 1) as nat,
            )
        }
    }

    /// The nodes of the trie in the order of the depth-first traversal from the root.
    pub open spec fn preorder(&self) -> Seq<usize> {
        self.walk_order(seq![0usize], self.size())
    }

    /// `m` is handed out already, or it lies below a node that waits on the stack.
    pub open spec fn awaited(&self, visited: Seq<usize>, stack: Seq<usize>, m: usize) -> bool {
        visited.contains(m) || exists|x: int| 0 <= x < stack.len() && self.on_path(#[trigger] stack[x], m)
    }

    /// A state of the depth-first traversal: no node was handed out twice;
    /// no node that waits on the stack lies below another, and none that was
    /// handed out lies below one of them; every node is handed out or
    /// awaited.
    pub open spec fn frontier(&self, visited: Seq<usize>, stack: Seq<usize>) -> bool {
        &&& visited.no_duplicates()
        &&& forall|y: int| 0 <= y < visited.len() ==> self.valid(#[trigger] visited[y])
        &&& forall|x: int| 0 <= x < stack.len() ==> self.valid(#[trigger] stack[x])
        &&& forall|x: int, y: int|
            0 <= x < stack.len() && 0 <= y < visited.len() ==> !self.on_path(
                #[trigger] stack[x],
                #[trigger] visited[y],
            )
        &&& forall|x: int, y: int|
            0 <= x < stack.len() && 0 <= y < stack.len() && x != y ==> !self.on_path(
                #[trigger] stack[x],
                #[trigger] stack[y],
            )
        &&& forall|m: usize| self.valid(m) ==> #[trigger] self.awaited(visited, stack, m)
    }

    /// A node on the path to `b` does not rank above `b`.
    pub proof fn lemma_path_rank(&self, a: usize, b: usize)
        requires
            self.on_path(a, b),
        ensures
            self.rank(a) <= self.rank(b),
        decreases self.rank(b),
    {
        if a != b {
            self.lemma_path_rank(a, self.parent_at(b).unwrap());
        }
    }

    /// What lies below a child lies below its parent.
    pub proof fn lemma_path_up(&self, n: usize, c: usize, v: usize)
        requires
            0 < c < self.size(),
            self.link_up(c),
            self.parent_at(c) == Some(n),
            self.on_path(c, v),
        ensures
            self.on_path(n, v),
        decreases self.rank(v),
    {
        if v == c {
            assert(self.on_path(n, n));
        } else {
            self.lemma_path_up(n, c, self.parent_at(v).unwrap());
        }
    }

    /// What lies below `n` and is not `n` lies below a child of `n`.
    pub proof fn lemma_path_down(&self, n: usize, m: usize) -> (k: int)
        requires
            self.on_path(n, m),
            m != n,
        ensures
            0 <= k < self.links_at(n).len(),
            self.on_path(self.links_at(n)[k], m),
        decreases self.rank(m),
    {
        let p = self.parent_at(m).unwrap();
        if p == n {
            let k = choose|k: int| 0 <= k < self.links_at(n).len() && self.links_at(n)[k] == m;
            k
        } else {
            self.lemma_path_down(n, p)
        }
    }

    /// Every node lies below the root.
    pub proof fn lemma_below_root(&self, m: usize)
        requires
            self.wf(),
            self.valid(m),
        ensures
            self.on_path(0, m),
        decreases self.rank(m),
    {
        if m != 0 {
            assert(self.link_up(m));
            self.lemma_below_root(self.parent_at(m).unwrap());
        }
    }

    /// The traversal starts with the root on the stack.
    pub proof fn lemma_frontier_start(&self)
        requires
            self.wf(),
        ensures
            self.frontier(Seq::empty(), seq![0usize]),
    {
        let stack = seq![0usize];
        assert forall|m: usize| self.valid(m) implies #[trigger] self.awaited(Seq::empty(), stack, m) by {
            self.lemma_below_root(m);
            assert(self.on_path(stack[0], m));
        }
    }

    /// While a node waits, not every node is handed out.
    pub proof fn lemma_frontier_room(&self, visited: Seq<usize>, stack: Seq<usize>)
        requires
            self.wf(),
            self.frontier(visited, stack),
            stack.len() > 0,
        ensures
            visited.len() < self.size(),
            !visited.contains(stack.last()),
    {
        let n = stack.last();
        if visited.contains(n) {
            let y = choose|y: int| 0 <= y < visited.len() && visited[y] == n;
            assert(!self.on_path(stack[stack.len() - 1], visited[y]));
        }
        let more = visited.push(n);
        assert forall|x: int, y: int| 0 <= x < more.len() && 0 <= y < more.len() && x != y implies more[x]
            != more[y] by {
            if x < visited.len() && y < visited.len() {
                assert(visited[x] != visited[y]);
            } else if x < visited.len() {
                assert(visited.contains(visited[x]));
            } else {
                assert(visited.contains(visited[y]));
            }
        }
        assert forall|x: int| 0 <= x < more.len() implies (#[trigger] more[x]) < self.size() by {
            if x < visited.len() {
                assert(self.valid(visited[x]));
            } else {
                assert(self.valid(stack[stack.len() - 1]));
            }
        }
        lemma_distinct_below(more, self.size());
    }

    /// One step of the traversal keeps its state in order.
    pub proof fn lemma_frontier_step(&self, visited: Seq<usize>, stack: Seq<usize>)
        requires
            self.wf(),
            self.frontier(visited, stack),
            stack.len() > 0,
        ensures
            self.frontier(visited.push(stack.last()), stack.drop_last() + self.links_at(stack.last())),
    {
        let last = stack.len() - 1;
        let n = stack[last];
        let rest = stack.drop_last();
        let links = self.links_at(n);
        let next = rest + links;
        let more = visited.push(n);
        assert(self.valid(stack[last]));
        self.lemma_frontier_room(visited, stack);
        assert forall|x: int, y: int| 0 <= x < more.len() && 0 <= y < more.len() && x != y implies more[x]
            != more[y] by {
            if x < visited.len() && y < visited.len() {
                assert(visited[x] != visited[y]);
            } else if x < visited.len() {
                assert(visited.contains(visited[x]));
            } else {
                assert(visited.contains(visited[y]));
            }
        }
        assert forall|y: int| 0 <= y < more.len() implies self.valid(#[trigger] more[y]) by {
            if y < visited.len() {
                assert(self.valid(visited[y]));
            }
        }
        assert forall|x: int| 0 <= x < next.len() implies self.valid(#[trigger] next[x]) by {
            if x < rest.len() {
                assert(self.valid(stack[x]));
            } else {
                assert(self.link_down(n, x - rest.len()));
            }
        }
        assert forall|x: int, y: int| 0 <= x < next.len() && 0 <= y < more.len() implies !self.on_path(
            #[trigger] next[x],
            #[trigger] more[y],
        ) by {
            if x < rest.len() {
                if y < visited.len() {
                    assert(!self.on_path(stack[x], visited[y]));
                } else {
                    assert(!self.on_path(stack[x], stack[last]));
                }
            } else {
                let k = x - rest.len();
                let c = links[k];
                assert(self.link_down(n, k));
                assert(self.link_up(c));
                if self.on_path(c, more[y]) {
                    if y < visited.len() {
                        self.lemma_path_up(n, c, visited[y]);
                        assert(!self.on_path(stack[last], visited[y]));
                    } else {
                        self.lemma_path_rank(c, n);
                    }
                }
            }
        }
        assert forall|x: int, y: int| 0 <= x < next.len() && 0 <= y < next.len() && x != y implies !self.on_path(
            #[trigger] next[x],
            #[trigger] next[y],
        ) by {
            if self.on_path(next[x], next[y]) {
                if x < rest.len() && y < rest.len() {
                    assert(!self.on_path(stack[x], stack[y]));
                } else if x < rest.len() {
                    let c = links[y - rest.len()];
                    assert(self.link_down(n, y - rest.len()));
                    assert(self.link_up(c));
                    let a = stack[x];
                    assert(!self.on_path(stack[x], stack[last]));
                    assert(!self.on_path(stack[last], stack[x]));
                    if a == c {
                        assert(self.on_path(n, n));
                        assert(self.on_path(n, c));
                    }
                } else if y < rest.len() {
                    let c = links[x - rest.len()];
                    assert(self.link_down(n, x - rest.len()));
                    assert(self.link_up(c));
                    self.lemma_path_up(n, c, stack[y]);
                    assert(!self.on_path(stack[last], stack[y]));
                } else {
                    let k = x - rest.len();
                    let l = y - rest.len();
                    let c = links[k];
                    let d = links[l];
                    assert(self.link_down(n, k));
                    assert(self.link_down(n, l));
                    assert(self.link_up(c));
                    assert(self.link_up(d));
                    if c == d {
                        self.lemma_one_opener(n, k, l);
                    } else {
                        self.lemma_path_rank(c, n);
                    }
                }
            }
        }
        assert forall|m: usize| self.valid(m) implies #[trigger] self.awaited(more, next, m) by {
            assert(self.awaited(visited, stack, m));
            if visited.contains(m) {
                let y = choose|y: int| 0 <= y < visited.len() && visited[y] == m;
                assert(more[y] == m);
            } else {
                let x = choose|x: int| 0 <= x < stack.len() && self.on_path(#[trigger] stack[x], m);
                if x < last {
                    assert(next[x] == stack[x]);
                    assert(self.on_path(next[x], m));
                } else if m == n {
                    assert(more[visited.len() as int] == m);
                } else {
                    let k = self.lemma_path_down(n, m);
                    assert(next[rest.len() + k] == links[k]);
                    assert(self.on_path(next[rest.len() + k], m));
                }
            }
        }
    }

    /// From any state of the traversal on, the nodes handed out so far and
    /// those still to come are all nodes, each once.
    proof fn lemma_walk_complete(&self, visited: Seq<usize>, stack: Seq<usize>, fuel: nat)
        requires
            self.wf(),
            self.frontier(visited, stack),
            fuel + visited.len() == self.size(),
        ensures
            self.frontier(visited + self.walk_order(stack, fuel), Seq::empty()),
        decreases fuel,
    {
        if stack.len() == 0 {
            assert(visited + self.walk_order(stack, fuel) =~= visited);
            assert(stack =~= Seq::<usize>::empty());
        } else {
            self.lemma_frontier_room(visited, stack);
            self.lemma_frontier_step(visited, stack);
            let more = visited.push(stack.last());
            let next = stack.drop_last() + self.links_at(stack.last());
            self.lemma_walk_complete(more, next, (fuel - 1) as nat);
            assert(visited + self.walk_order(stack, fuel) =~= more + self.walk_order(next, (fuel - 1) as nat));
        }
    }

    /// The depth-first traversal from the root hands out every node of the
    /// trie, and none twice.
    pub proof fn law_preorder_complete(&self)
        requires
            self.wf(),
        ensures
            self.preorder().no_duplicates(),
            self.preorder().len() == self.size(),
            forall|n: usize| self.valid(n) <==> #[trigger] self.preorder().contains(n),
    {
        self.lemma_frontier_start();
        self.lemma_walk_complete(Seq::empty(), seq![0usize], self.size());
        let order = self.preorder();
        assert(Seq::<usize>::empty() + self.walk_order(seq![0usize], self.size()) =~= order);
        assert forall|n: usize| self.valid(n) implies #[trigger] order.contains(n) by {
            assert(self.awaited(order, Seq::empty(), n));
        }
        assert forall|n: usize| #[trigger] order.contains(n) implies self.valid(n) by {
            let y = choose|y: int| 0 <= y < order.len() && order[y] == n;
            assert(self.valid(order[y]));
        }
        assert forall|x: int| 0 <= x < order.len() implies (#[trigger] order[x]) < self.size() by {
            assert(self.valid(order[x]));
        }
        lemma_distinct_below(order, self.size());
        if order.len() < self.size() {
            self.lemma_size_bound();
            self.lemma_preorder_full(order);
        }
    }

    /// A sequence that holds every node has at least as many items as the trie has nodes.
    proof fn lemma_preorder_full(&self, order: Seq<usize>)
        requires
            forall|n: usize| self.valid(n) ==> #[trigger] order.contains(n),
            self.size() <= usize::MAX,
        ensures
            order.len() >= self.size(),
    {
        let all = Seq::new(self.size(), |i: int| i as usize);
        assert forall|x: int, y: int| 0 <= x < all.len() && 0 <= y < all.len() && x != y implies all[x]
            != all[y] by {}
        lemma_distinct_among(all, order);
    }
}

/// A sequence without repetition whose items all occur in `among` has no
/// more items than `among`.
pub proof fn lemma_distinct_among(items: Seq<usize>, among: Seq<usize>)
    requires
        items.no_duplicates(),
        forall|x: int| 0 <= x < items.len() ==> among.contains(#[trigger] items[x]),
    ensures
        items.len() <= among.len(),
    decreases among.len(),
{
    if among.len() == 0 {
        if items.len() > 0 {
            assert(among.contains(items[0]));
        }
    } else {
        let top = among.last();
        let fewer = among.drop_last();
        if exists|p: int| 0 <= p < items.len() && items[p] == top {
            let p = choose|p: int| 0 <= p < items.len() && items[p] == top;
            let less = items.remove(p);
            assert forall|x: int, y: int| 0 <= x < less.len() && 0 <= y < less.len() && x != y implies less[x]
                != less[y] by {
                let a = if x < p {
                    x
                } else {
                    x + 1
                };
                let b = if y < p {
                    y
                } else {
                    y + 1
                };
                assert(less[x] == items[a]);
                assert(less[y] == items[b]);
            }
            assert forall|x: int| 0 <= x < less.len() implies fewer.contains(#[trigger] less[x]) by {
                let a = if x < p {
                    x
                } else {
                    x + 1
                };
                assert(less[x] == items[a]);
                assert(items[a] != items[p]);
                assert(among.contains(items[a]));
                let q = choose|q: int| 0 <= q < among.len() && among[q] == items[a];
                assert(fewer[q] == items[a]);
            }
            lemma_distinct_among(less, fewer);
        } else {
            assert forall|x: int| 0 <= x < items.len() implies fewer.contains(#[trigger] items[x]) by {
                assert(among.contains(items[x]));
                let q = choose|q: int| 0 <= q < among.len() && among[q] == items[x];
                assert(fewer[q] == items[x]);
            }
            lemma_distinct_among(items, fewer);
        }
    }
}

} // verus!
