use vstd::prelude::*;
use crate::starts_with;
use crate::trie::Trie;

verus! {

impl Trie {
    /// Some node has the full code `c`.
    pub open spec fn has_code(&self, c: Seq<char>) -> bool {
        exists|i: usize| self.valid(i) && #[trigger] self.code_to(i) == c
    }

    /// The node whose full code is `c`, where there is one.
    pub open spec fn node_of(&self, c: Seq<char>) -> usize {
        choose|i: usize| self.valid(i) && #[trigger] self.code_to(i) == c
    }

    /// The dictionary that the trie holds: the words stored under the code
    /// `c`, in insertion order; none where no node has that full code.
    pub open spec fn lookup(&self, c: Seq<char>) -> Seq<Seq<char>> {
        if self.has_code(c) {
            self.words_at(self.node_of(c))
        } else {
            Seq::empty()
        }
    }

    /// Some full code begins with `c`: the path to some node runs through `c`.
    pub open spec fn runs_through(&self, c: Seq<char>) -> bool {
        exists|i: usize| self.valid(i) && starts_with(#[trigger] self.code_to(i), c)
    }

    /// A walk over a text that begins with the full code of `m` passes through `m`.
    pub proof fn lemma_reach(&self, m: usize, s: Seq<char>)
        requires
            self.wf(),
            self.valid(m),
            starts_with(s, self.code_to(m)),
        ensures
            self.descend(0, s) == self.descend(m, s.skip(self.code_to(m).len() as int)),
        decreases self.rank(m),
    {
        if m == 0 {
            assert(s.skip(0) =~= s);
        } else {
            assert(self.link_up(m));
            let p = self.parent_at(m).unwrap();
            let fp = self.code_to(p);
            let seg = self.segment(m);
            let fm = self.code_to(m);
            assert(fm == fp + seg);
            assert(s.subrange(0, fp.len() as int) =~= fm.subrange(0, fp.len() as int));
            assert(fm.subrange(0, fp.len() as int) =~= fp);
            self.lemma_reach(p, s);
            let rp = s.skip(fp.len() as int);
            let r = s.skip(fm.len() as int);
            assert(rp.subrange(0, seg.len() as int) =~= fm.subrange(fp.len() as int, fm.len() as int));
            assert(fm.subrange(fp.len() as int, fm.len() as int) =~= seg);
            assert(rp.skip(seg.len() as int) =~= r);
            let x = choose|x: int| 0 <= x < self.links_at(p).len() && self.links_at(p)[x] == m;
            assert(self.takes(self.links_at(p)[x], rp));
            let y = choose|y: int| 0 <= y < self.links_at(p).len() && self.takes(#[trigger] self.links_at(p)[y], rp);
            let d = self.links_at(p)[y];
            assert(self.segment(d) == rp.subrange(0, self.segment(d).len() as int));
            assert(self.segment(d)[0] == rp[0]);
            assert(seg[0] == rp[0]);
            self.lemma_one_opener(p, x, y);
            assert(self.matching_child(p, rp) == Some(m));
        }
    }

    /// No two nodes share a full code.
    pub proof fn lemma_injective(&self, i: usize, j: usize)
        requires
            self.wf(),
            self.valid(i),
            self.valid(j),
            self.code_to(i) == self.code_to(j),
        ensures
            i == j,
    {
        let s = self.code_to(i);
        assert(s.subrange(0, s.len() as int) =~= s);
        assert(s.skip(s.len() as int) =~= Seq::<char>::empty());
        self.lemma_reach(i, s);
        self.lemma_reach(j, s);
        self.lemma_descend_nothing(i);
        self.lemma_descend_nothing(j);
    }

    /// The dictionary holds under a node's full code the words of that node.
    pub proof fn lemma_lookup_at(&self, i: usize)
        requires
            self.wf(),
            self.valid(i),
        ensures
            self.has_code(self.code_to(i)),
            self.node_of(self.code_to(i)) == i,
            self.lookup(self.code_to(i)) == self.words_at(i),
    {
        let c = self.code_to(i);
        assert(self.valid(i) && self.code_to(i) == c);
        self.lemma_injective(i, self.node_of(c));
    }

    /// Where the walk below `q` cannot take the first step into `t`, no node
    /// has the full code of `q` followed by `t`.
    pub proof fn lemma_absent(&self, q: usize, t: Seq<char>)
        requires
            self.wf(),
            self.valid(q),
            t.len() > 0,
            self.matching_child(q, t) is None,
        ensures
            !self.has_code(self.code_to(q) + t),
    {
        let s = self.code_to(q) + t;
        if self.has_code(s) {
            let x = self.node_of(s);
            assert(s.subrange(0, s.len() as int) =~= s);
            assert(s.skip(s.len() as int) =~= Seq::<char>::empty());
            self.lemma_reach(x, s);
            self.lemma_descend_nothing(x);
            assert(s.subrange(0, self.code_to(q).len() as int) =~= self.code_to(q));
            assert(s.skip(self.code_to(q).len() as int) =~= t);
            self.lemma_reach(q, s);
            assert(self.descend(q, t) == (q, t));
        }
    }

    /// Full codes depend on labels and parents alone.
    pub proof fn lemma_frame(&self, before: &Trie, i: usize)
        requires
            self.wf(),
            before.wf(),
            before.valid(i),
            before.size() <= self.size(),
            forall|j: usize| j < before.size() ==> #[trigger] self.segment(j) == before.segment(j),
            forall|j: usize| j < before.size() ==> #[trigger] self.parent_at(j) == before.parent_at(j),
        ensures
            self.code_to(i) == before.code_to(i),
        decreases before.rank(i),
    {
        if i != 0 {
            assert(before.link_up(i));
            assert(self.link_up(i));
            assert(self.segment(i) == before.segment(i));
            assert(self.parent_at(i) == before.parent_at(i));
            self.lemma_frame(before, before.parent_at(i).unwrap());
        }
    }

    /// A split moves the full code of `k` to the new node, shortens that of
    /// `k`, and leaves every other full code as it was.
    pub proof fn lemma_split_codes(&self, before: &Trie, k: usize, m: int, spawn: usize, i: usize)
        requires
            self.wf(),
            before.wf(),
            0 < k < before.size(),
            0 < m < before.segment(k).len(),
            self.split_of(before, k, m, spawn),
            before.valid(i),
        ensures
            i != k ==> self.code_to(i) == before.code_to(i),
            i == k ==> self.code_to(k) == before.stem(k) + before.segment(k).subrange(0, m),
            i == k ==> self.code_to(spawn) == before.code_to(k),
        decreases before.rank(i),
    {
        if i == 0 {
        } else if i == k {
            assert(before.link_up(k));
            assert(self.link_up(k));
            let p = before.parent_at(k).unwrap();
            self.lemma_split_codes(before, k, m, spawn, p);
            assert(self.link_up(spawn));
            let seg = before.segment(k);
            assert(p != k);
            assert(self.code_to(p) == before.code_to(p));
            assert(self.code_to(k) == self.code_to(p) + seg.subrange(0, m));
            assert(self.code_to(spawn) == self.code_to(k) + seg.subrange(m, seg.len() as int));
            assert(before.code_to(k) == before.code_to(p) + seg);
            assert(seg.subrange(0, m) + seg.subrange(m, seg.len() as int) =~= seg);
            assert(self.code_to(spawn) =~= before.code_to(p) + (seg.subrange(0, m) + seg.subrange(
                m,
                seg.len() as int,
            )));
        } else {
            assert(before.link_up(i));
            assert(self.link_up(i));
            assert(self.split_keeps(before, k, spawn, i));
            let p = before.parent_at(i).unwrap();
            self.lemma_split_codes(before, k, m, spawn, p);
        }
    }

    /// Node `j` of the later trie carries what node `i` of the earlier one
    /// held, with `w` added where its full code is `s`.
    pub open spec fn carried(&self, before: &Trie, s: Seq<char>, w: Seq<char>, i: usize, j: usize) -> bool {
        &&& self.valid(j)
        &&& self.code_to(j) == before.code_to(i)
        &&& self.words_at(j) == (if before.code_to(i) == s {
            before.words_at(i).push(w)
        } else {
            before.words_at(i)
        })
    }

    /// Node `j` of the later trie is an earlier node, the node for `s` with
    /// `w` alone, or a wordless node on the way to `s`.
    pub open spec fn accounted(&self, before: &Trie, s: Seq<char>, w: Seq<char>, j: usize) -> bool {
        ||| before.has_code(self.code_to(j))
        ||| (self.code_to(j) == s && self.words_at(j) == seq![w])
        ||| (self.words_at(j).len() == 0 && starts_with(s, self.code_to(j)) && before.runs_through(
            self.code_to(j),
        ))
    }

    /// The full code `c` is new with the insertion of `code` and is not
    /// `code` itself: it is where `code` leaves the path to an earlier node.
    pub open spec fn branch_of(&self, before: &Trie, code: Seq<char>, c: Seq<char>) -> bool {
        starts_with(code, c) && before.runs_through(c) && self.lookup(c).len() == 0
    }

    /// The trie holds what `before` held and, under `code`, `word` after the
    /// words that were there. Every earlier full code is still one, `code`
    /// is one, and the only other one, if any, is the prefix of `code` at
    /// which it leaves the path to an earlier node, with no words under it.
    pub open spec fn grown_from(&self, before: &Trie, code: Seq<char>, word: Seq<char>) -> bool {
        &&& self.lookup(code) == before.lookup(code).push(word)
        &&& forall|c: Seq<char>| c != code ==> #[trigger] self.lookup(c) == before.lookup(c)
        &&& self.has_code(code)
        &&& forall|c: Seq<char>| #[trigger] before.has_code(c) ==> self.has_code(c)
        &&& forall|c: Seq<char>| #[trigger]
            self.has_code(c) ==> before.has_code(c) || c == code || self.branch_of(before, code, c)
    }

    /// From a node-by-node account of an insertion to the dictionary's change.
    pub proof fn lemma_grown(&self, before: &Trie, s: Seq<char>, w: Seq<char>, phi: spec_fn(usize) -> usize)
        requires
            self.wf(),
            before.wf(),
            forall|i: usize| before.valid(i) ==> #[trigger] self.carried(before, s, w, i, phi(i)),
            forall|j: usize| self.valid(j) ==> #[trigger] self.accounted(before, s, w, j),
            before.has_code(s) || exists|j: usize|
                self.valid(j) && #[trigger] self.code_to(j) == s && self.words_at(j) == seq![w],
        ensures
            self.grown_from(before, s, w),
    {
        assert(s.subrange(0, s.len() as int) =~= s);
        if before.has_code(s) {
            let i = before.node_of(s);
            assert(self.carried(before, s, w, i, phi(i)));
            self.lemma_lookup_at(phi(i));
            before.lemma_lookup_at(i);
        } else {
            let j = choose|j: usize| self.valid(j) && #[trigger] self.code_to(j) == s && self.words_at(j) == seq![w];
            self.lemma_lookup_at(j);
            assert(before.lookup(s).push(w) =~= seq![w]);
        }
        assert forall|c: Seq<char>| c != s implies #[trigger] self.lookup(c) == before.lookup(c) by {
            if before.has_code(c) {
                let i = before.node_of(c);
                assert(self.carried(before, s, w, i, phi(i)));
                self.lemma_lookup_at(phi(i));
                before.lemma_lookup_at(i);
            } else if self.has_code(c) {
                let j = self.node_of(c);
                assert(self.accounted(before, s, w, j));
                assert(self.lookup(c) =~= before.lookup(c));
            }
        }
        assert forall|c: Seq<char>| #[trigger] before.has_code(c) implies self.has_code(c) by {
            let i = before.node_of(c);
            assert(self.carried(before, s, w, i, phi(i)));
        }
        assert forall|c: Seq<char>| #[trigger] self.has_code(c) implies before.has_code(c) || c == s
            || self.branch_of(before, s, c) by {
            let j = self.node_of(c);
            assert(self.accounted(before, s, w, j));
            self.lemma_lookup_at(j);
        }
    }
}

} // verus!
