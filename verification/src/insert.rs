use vstd::prelude::*;
use vstd::string::*;
use crate::cursor::CodeCursor;
use crate::starts_with;
use crate::trie::Trie;

verus! {

impl Trie {
    /// What an insertion of `w` does where its walk stopped at `node` with
    /// `matched` scalar values of the label consumed and `rest` of the code
    /// left. With the whole label consumed, the word goes to `node` if no
    /// code is left, else to a new leaf under `node` with `rest` as its
    /// label. With the label consumed in part, `node` is split there first;
    /// the word then goes to `node`, which keeps the consumed part of the
    /// label, or to a new leaf under it.
    pub open spec fn acted(&self, before: &Trie, w: Seq<char>, node: usize, matched: int, rest: Seq<char>) -> bool {
        if matched == before.segment(node).len() && rest.len() == 0 {
            self.appended_of(before, node, w)
        } else if matched == before.segment(node).len() {
            exists|leaf: usize| #[trigger] self.attached_of(before, node, rest, w, leaf)
        } else if rest.len() == 0 {
            exists|mid: Trie, spawn: usize| #[trigger]
                mid.split_of(before, node, matched, spawn) && mid.wf() && self.appended_of(&mid, node, w)
        } else {
            exists|mid: Trie, spawn: usize, leaf: usize| #[trigger]
                mid.split_of(before, node, matched, spawn) && mid.wf() && #[trigger] self.attached_of(
                    &mid,
                    node,
                    rest,
                    w,
                    leaf,
                )
        }
    }

    /// The trie is `before` after the insertion of `w` under the code `s`:
    /// the walk over `s` stopped somewhere, and the trie was changed as that
    /// place asks.
    pub open spec fn placed(&self, before: &Trie, s: Seq<char>, w: Seq<char>) -> bool {
        exists|node: usize, matched: int, rest: Seq<char>| #[trigger]
            before.stopped(s, node, matched, rest) && self.acted(before, w, node, matched, rest)
    }

    /// Attaches `word` so that typing exactly `code` reaches it. The walk
    /// stops at the node that shares the longest prefix with `code`; the word
    /// goes to that node, to a new leaf below it, or, where the code leaves the
    /// node's label in the middle, to the node that a split of it makes room for.
    pub fn insert(&mut self, code: String, word: String)
        requires
            old(self).wf(),
        ensures
            final(self).wf(),
            final(self).grown_from(old(self), code@, word@),
            final(self).placed(old(self), code@, word@),
            old(self).size() <= final(self).size() <= old(self).size() + 2,
    {
        let ghost before = *self;
        let ghost s = code@;
        let ghost w = word@;
        let mut cursor = CodeCursor::new(code);
        let (node, matched) = self.try_best_to_match(&mut cursor);
        let whole = self.code(node).as_str().unicode_len();
        let ghost left = cursor.rest();
        proof {
            assert(before.stopped(s, node, matched as int, left)) by {
                assert(s =~= s.subrange(0, s.len() as int));
            }
            before.lemma_stem(node);
        }
        if cursor.is_empty() {
            if matched == whole {
                self.push_word(node, word);
                proof {
                    let seg = before.segment(node);
                    assert(seg.subrange(0, matched as int) =~= seg);
                    assert(s =~= before.code_to(node));
                    self.lemma_case_append(&before, node, s, w);
                    assert(self.acted(&before, w, node, matched as int, left));
                }
            } else {
                let spawn = self.split(node, matched);
                let ghost mid = *self;
                self.push_word(node, word);
                proof {
                    let t = before.segment(node).subrange(0, matched as int);
                    assert(s =~= before.stem(node) + t);
                    assert(!starts_with(t, before.segment(node)));
                    before.lemma_absent_beside(node, t);
                    self.lemma_case_split_word(&mid, &before, node, matched as int, spawn, s, w);
                    assert(mid.split_of(&before, node, matched as int, spawn) && mid.wf() && self.appended_of(
                        &mid,
                        node,
                        w,
                    ));
                    assert(self.acted(&before, w, node, matched as int, left));
                }
            }
        } else {
            let rest = cursor.into_remained();
            if matched == whole {
                let ghost r = rest@;
                proof {
                    let seg = before.segment(node);
                    assert(seg.subrange(0, matched as int) =~= seg);
                    assert(s =~= before.code_to(node) + r);
                    assert forall|j: int| 0 <= j < before.links_at(node).len() implies before.segment(
                        #[trigger] before.links_at(node)[j],
                    )[0] != r[0] by {
                        let c = before.links_at(node)[j];
                        assert(before.link_down(node, j));
                        assert(before.link_up(c));
                        assert(!before.opens_with(c, r[0]));
                    }
                }
                let leaf = self.attach(node, rest, word);
                proof {
                    self.lemma_case_leaf(&before, node, r, s, w, leaf);
                    assert(self.attached_of(&before, node, left, w, leaf));
                    assert(self.acted(&before, w, node, matched as int, left));
                }
            } else {
                let ghost r = rest@;
                let spawn = self.split(node, matched);
                let ghost mid = *self;
                proof {
                    assert(mid.links_at(node)[0] == spawn);
                    assert(mid.segment(spawn)[0] == before.segment(node)[matched as int]);
                }
                let leaf = self.attach(node, rest, word);
                proof {
                    let head = before.segment(node).subrange(0, matched as int);
                    let t = head + r;
                    assert(s =~= before.stem(node) + t);
                    assert(t[0] == head[0]);
                    assert(t[matched as int] == r[0]);
                    if starts_with(t, before.segment(node)) {
                        assert(t.subrange(0, before.segment(node).len() as int)[matched as int] == t[matched as int]);
                    }
                    before.lemma_absent_beside(node, t);
                    self.lemma_case_split_leaf(&mid, &before, node, matched as int, spawn, r, s, w, leaf);
                    assert(mid.split_of(&before, node, matched as int, spawn) && mid.wf() && self.attached_of(
                        &mid,
                        node,
                        left,
                        w,
                        leaf,
                    ));
                    assert(self.acted(&before, w, node, matched as int, left));
                }
            }
        }
    }

    /// No node has a full code that leaves the label of `n` in the middle.
    proof fn lemma_absent_beside(&self, n: usize, t: Seq<char>)
        requires
            self.wf(),
            0 < n < self.size(),
            t.len() > 0,
            t[0] == self.segment(n)[0],
            !starts_with(t, self.segment(n)),
        ensures
            !self.has_code(self.stem(n) + t),
    {
        assert(self.link_up(n));
        let p = self.parent_at(n).unwrap();
        let x = choose|x: int| 0 <= x < self.links_at(p).len() && self.links_at(p)[x] == n;
        assert forall|k: int| 0 <= k < self.links_at(p).len() implies !self.takes(
            #[trigger] self.links_at(p)[k],
            t,
        ) by {
            let c = self.links_at(p)[k];
            if self.takes(c, t) {
                assert(self.segment(c) == t.subrange(0, self.segment(c).len() as int));
                assert(self.segment(c)[0] == t[0]);
                self.lemma_one_opener(p, k, x);
            }
        }
        self.lemma_absent(p, t);
    }

    /// The dictionary after a word was appended at the node for `s`.
    proof fn lemma_case_append(&self, before: &Trie, n: usize, s: Seq<char>, w: Seq<char>)
        requires
            self.wf(),
            before.wf(),
            before.valid(n),
            before.code_to(n) == s,
            self.size() == before.size(),
            self.words_at(n) == before.words_at(n).push(w),
            forall|i: usize| i < before.size() && i != n ==> #[trigger] self.words_at(i) == before.words_at(i),
            forall|i: usize| i < before.size() ==> #[trigger] self.segment(i) == before.segment(i),
            forall|i: usize| i < before.size() ==> #[trigger] self.parent_at(i) == before.parent_at(i),
        ensures
            self.grown_from(before, s, w),
    {
        let phi = |i: usize| i;
        assert forall|i: usize| before.valid(i) implies #[trigger] self.carried(before, s, w, i, phi(i)) by {
            self.lemma_frame(before, i);
            if before.code_to(i) == s {
                before.lemma_injective(i, n);
            } else {
                assert(self.words_at(i) == before.words_at(i));
            }
        }
        assert forall|j: usize| self.valid(j) implies #[trigger] self.accounted(before, s, w, j) by {
            self.lemma_frame(before, j);
            assert(before.valid(j) && before.code_to(j) == self.code_to(j));
        }
        assert(before.valid(n) && before.code_to(n) == s);
        self.lemma_grown(before, s, w, phi);
    }

    /// The dictionary after a new leaf for `s` was attached below `n`.
    proof fn lemma_case_leaf(&self, before: &Trie, n: usize, r: Seq<char>, s: Seq<char>, w: Seq<char>, leaf: usize)
        requires
            self.wf(),
            before.wf(),
            before.valid(n),
            s == before.code_to(n) + r,
            r.len() > 0,
            forall|j: int|
                0 <= j < before.links_at(n).len() ==> before.segment(#[trigger] before.links_at(n)[j])[0] != r[0],
            leaf == before.size(),
            self.size() == before.size() + 1,
            self.segment(leaf) == r,
            self.words_at(leaf) == seq![w],
            self.parent_at(leaf) == Some(n),
            forall|i: usize| i < before.size() ==> #[trigger] self.words_at(i) == before.words_at(i),
            forall|i: usize| i < before.size() ==> #[trigger] self.segment(i) == before.segment(i),
            forall|i: usize| i < before.size() ==> #[trigger] self.parent_at(i) == before.parent_at(i),
        ensures
            self.grown_from(before, s, w),
    {
        assert forall|k: int| 0 <= k < before.links_at(n).len() implies !before.takes(
            #[trigger] before.links_at(n)[k],
            r,
        ) by {
            let c = before.links_at(n)[k];
            if before.takes(c, r) {
                assert(before.segment(c) == r.subrange(0, before.segment(c).len() as int));
                assert(before.segment(c)[0] == r[0]);
            }
        }
        before.lemma_absent(n, r);
        let phi = |i: usize| i;
        assert forall|i: usize| before.valid(i) implies #[trigger] self.carried(before, s, w, i, phi(i)) by {
            self.lemma_frame(before, i);
            assert(self.words_at(i) == before.words_at(i));
        }
        self.lemma_frame(before, n);
        assert(self.link_up(leaf));
        assert(self.code_to(leaf) == s);
        assert forall|j: usize| self.valid(j) implies #[trigger] self.accounted(before, s, w, j) by {
            if j < before.size() {
                self.lemma_frame(before, j);
                assert(before.valid(j) && before.code_to(j) == self.code_to(j));
            }
        }
        self.lemma_grown(before, s, w, phi);
    }

    /// The dictionary after `n` was split and the word put at its upper part.
    proof fn lemma_case_split_word(
        &self,
        mid: &Trie,
        before: &Trie,
        n: usize,
        m: int,
        spawn: usize,
        s: Seq<char>,
        w: Seq<char>,
    )
        requires
            self.wf(),
            mid.wf(),
            before.wf(),
            0 < n < before.size(),
            0 < m < before.segment(n).len(),
            mid.split_of(before, n, m, spawn),
            s == before.stem(n) + before.segment(n).subrange(0, m),
            !before.has_code(s),
            self.size() == mid.size(),
            self.words_at(n) == mid.words_at(n).push(w),
            forall|i: usize| i < mid.size() && i != n ==> #[trigger] self.words_at(i) == mid.words_at(i),
            forall|i: usize| i < mid.size() ==> #[trigger] self.segment(i) == mid.segment(i),
            forall|i: usize| i < mid.size() ==> #[trigger] self.parent_at(i) == mid.parent_at(i),
        ensures
            self.grown_from(before, s, w),
    {
        let phi = |i: usize| if i == n { spawn } else { i };
        mid.lemma_split_codes(before, n, m, spawn, n);
        assert forall|i: usize| before.valid(i) implies #[trigger] self.carried(before, s, w, i, phi(i)) by {
            mid.lemma_split_codes(before, n, m, spawn, i);
            self.lemma_frame(mid, phi(i));
            assert(self.words_at(phi(i)) == mid.words_at(phi(i)));
            if i != n {
                assert(mid.split_keeps(before, n, spawn, i));
            }
            assert(before.valid(i) && before.code_to(i) == before.code_to(i));
        }
        assert forall|j: usize| self.valid(j) implies #[trigger] self.accounted(before, s, w, j) by {
            self.lemma_frame(mid, j);
            if j == n {
                assert(mid.words_at(n) =~= Seq::<Seq<char>>::empty());
                assert(self.words_at(n) =~= seq![w]);
            } else if j == spawn {
                assert(before.valid(n) && before.code_to(n) == self.code_to(j));
            } else {
                mid.lemma_split_codes(before, n, m, spawn, j);
                assert(before.valid(j) && before.code_to(j) == self.code_to(j));
            }
        }
        self.lemma_frame(mid, n);
        assert(mid.words_at(n) =~= Seq::<Seq<char>>::empty());
        assert(self.words_at(n) =~= seq![w]);
        assert(self.valid(n) && self.code_to(n) == s && self.words_at(n) == seq![w]);
        self.lemma_grown(before, s, w, phi);
    }

    /// The dictionary after `n` was split and a new leaf for `s` attached to its upper part.
    proof fn lemma_case_split_leaf(
        &self,
        mid: &Trie,
        before: &Trie,
        n: usize,
        m: int,
        spawn: usize,
        r: Seq<char>,
        s: Seq<char>,
        w: Seq<char>,
        leaf: usize,
    )
        requires
            self.wf(),
            mid.wf(),
            before.wf(),
            0 < n < before.size(),
            0 < m < before.segment(n).len(),
            mid.split_of(before, n, m, spawn),
            s == before.stem(n) + (before.segment(n).subrange(0, m) + r),
            !before.has_code(s),
            leaf == mid.size(),
            self.size() == mid.size() + 1,
            self.segment(leaf) == r,
            self.words_at(leaf) == seq![w],
            self.parent_at(leaf) == Some(n),
            forall|i: usize| i < mid.size() ==> #[trigger] self.words_at(i) == mid.words_at(i),
            forall|i: usize| i < mid.size() ==> #[trigger] self.segment(i) == mid.segment(i),
            forall|i: usize| i < mid.size() ==> #[trigger] self.parent_at(i) == mid.parent_at(i),
        ensures
            self.grown_from(before, s, w),
    {
        let phi = |i: usize| if i == n { spawn } else { i };
        let head = before.segment(n).subrange(0, m);
        mid.lemma_split_codes(before, n, m, spawn, n);
        assert forall|i: usize| before.valid(i) implies #[trigger] self.carried(before, s, w, i, phi(i)) by {
            mid.lemma_split_codes(before, n, m, spawn, i);
            self.lemma_frame(mid, phi(i));
            assert(self.words_at(phi(i)) == mid.words_at(phi(i)));
            if i != n {
                assert(mid.split_keeps(before, n, spawn, i));
            }
            assert(before.valid(i) && before.code_to(i) == before.code_to(i));
        }
        self.lemma_frame(mid, n);
        assert(self.link_up(leaf));
        assert(self.code_to(leaf) == self.code_to(n) + r);
        assert(self.code_to(leaf) =~= s);
        assert(s.subrange(0, self.code_to(n).len() as int) =~= self.code_to(n));
        before.lemma_stem(n);
        assert(before.code_to(n).subrange(0, self.code_to(n).len() as int) =~= self.code_to(n));
        assert(before.valid(n) && starts_with(before.code_to(n), self.code_to(n)));
        assert forall|j: usize| self.valid(j) implies #[trigger] self.accounted(before, s, w, j) by {
            if j == leaf {
            } else if j == n {
                assert(self.words_at(n) == mid.words_at(n));
            } else if j == spawn {
                self.lemma_frame(mid, j);
                assert(before.valid(n) && before.code_to(n) == self.code_to(j));
            } else {
                self.lemma_frame(mid, j);
                mid.lemma_split_codes(before, n, m, spawn, j);
                assert(before.valid(j) && before.code_to(j) == self.code_to(j));
            }
        }
        assert(self.valid(leaf) && self.code_to(leaf) == s && self.words_at(leaf) == seq![w]);
        self.lemma_grown(before, s, w, phi);
    }
}

} // verus!
