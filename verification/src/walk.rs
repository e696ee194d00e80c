use vstd::prelude::*;
use vstd::string::*;
use crate::cursor::CodeCursor;
use crate::starts_with;
use crate::trie::Trie;

verus! {

/// `m` is the length of the longest common prefix of `a` and `b`.
pub open spec fn is_common_prefix_len(a: Seq<char>, b: Seq<char>, m: int) -> bool {
    &&& 0 <= m <= a.len()
    &&& m <= b.len()
    &&& a.subrange(0, m) == b.subrange(0, m)
    &&& (m == a.len() || m == b.len() || a[m] != b[m])
}

impl Trie {
    /// The label of `c` is a prefix of `rest`.
    pub open spec fn takes(&self, c: usize, rest: Seq<char>) -> bool {
        self.segment(c).len() > 0 && starts_with(rest, self.segment(c))
    }

    /// The label of `c` begins with `ch`.
    pub open spec fn opens_with(&self, c: usize, ch: char) -> bool {
        self.segment(c).len() > 0 && self.segment(c)[0] == ch
    }

    /// The child of `n` whose label is a prefix of `rest`, if there is one.
    pub open spec fn matching_child(&self, n: usize, rest: Seq<char>) -> Option<usize> {
        if exists|k: int| 0 <= k < self.links_at(n).len() && self.takes(#[trigger] self.links_at(n)[k], rest) {
            Some(
                self.links_at(n)[choose|k: int|
                    0 <= k < self.links_at(n).len() && self.takes(#[trigger] self.links_at(n)[k], rest)],
            )
        } else {
            None
        }
    }

    /// The deepest node below `n` that is reached by consuming whole labels
    /// from the front of `rest`, and what is then left of `rest`.
    pub open spec fn descend(&self, n: usize, rest: Seq<char>) -> (usize, Seq<char>)
        decreases rest.len(),
    {
        match self.matching_child(n, rest) {
            Some(c) => if 0 < self.segment(c).len() <= rest.len() {
                self.descend(c, rest.skip(self.segment(c).len() as int))
            } else {
                (n, rest)
            },
            None => (n, rest),
        }
    }

    /// The label path to the parent of `node`: empty for the root.
    pub open spec fn stem(&self, node: usize) -> Seq<char> {
        if 0 < node < self.size() && self.link_up(node) {
            self.code_to(self.parent_at(node).unwrap())
        } else {
            Seq::empty()
        }
    }

    /// Where the insertion walk over `s` stops: at `node`, with `matched`
    /// scalar values of its label consumed and `rest` of `s` left, such that
    /// the walk can go no further.
    pub open spec fn stopped(&self, s: Seq<char>, node: usize, matched: int, rest: Seq<char>) -> bool {
        &&& self.valid(node)
        &&& 0 <= matched <= self.segment(node).len()
        &&& s == self.stem(node) + self.segment(node).subrange(0, matched) + rest
        &&& matched == self.segment(node).len() ==> rest.len() == 0 || forall|k: int|
            0 <= k < self.links_at(node).len() ==> !self.opens_with(#[trigger] self.links_at(node)[k], rest[0])
        &&& matched < self.segment(node).len() ==> matched > 0 && (rest.len() == 0 || self.segment(node)[matched]
            != rest[0])
    }

    /// Two children of one node whose labels begin alike are one child.
    pub proof fn lemma_one_opener(&self, n: usize, k: int, l: int)
        requires
            self.wf(),
            self.valid(n),
            0 <= k < self.links_at(n).len(),
            0 <= l < self.links_at(n).len(),
            self.segment(self.links_at(n)[k])[0] == self.segment(self.links_at(n)[l])[0],
        ensures
            k == l,
    {
        if k < l {
            assert(self.apart(n, k, l));
        } else if l < k {
            assert(self.apart(n, l, k));
        }
    }

    /// The child of `node` whose label begins with `ch`.
    pub fn find_a_child_starts_with(&self, node: usize, ch: char) -> (child: Option<usize>)
        requires
            self.wf(),
            self.valid(node),
        ensures
            match child {
                Some(c) => self.links_at(node).contains(c) && self.valid(c) && self.opens_with(c, ch),
                None => forall|k: int|
                    0 <= k < self.links_at(node).len() ==> !self.opens_with(#[trigger] self.links_at(node)[k], ch),
            },
    {
        let links = self.children(node);
        let mut k: usize = 0;
        while k < links.len()
            invariant
                self.wf(),
                self.valid(node),
                links@ == self.links_at(node),
                0 <= k <= links.len(),
                forall|j: int| 0 <= j < k ==> !self.opens_with(#[trigger] self.links_at(node)[j], ch),
            decreases links.len() - k,
        {
            let c = links[k];
            proof {
                assert(self.link_down(node, k as int));
                assert(self.link_up(c));
            }
            let code = self.code(c).as_str();
            if code.get_char(0) == ch {
                return Some(c);
            }
            k = k + 1;
        }
        None
    }

    /// The child of `node` whose whole label the cursor's rest begins with.
    pub fn find_matching_child(&self, node: usize, cursor: &CodeCursor) -> (child: Option<usize>)
        requires
            self.wf(),
            self.valid(node),
            cursor.wf(),
        ensures
            child == self.matching_child(node, cursor.rest()),
            child is Some ==> self.valid(child.unwrap()) && self.takes(child.unwrap(), cursor.rest())
                && self.parent_at(child.unwrap()) == Some(node) && self.link_up(child.unwrap()),
    {
        let links = self.children(node);
        let mut k: usize = 0;
        while k < links.len()
            invariant
                self.wf(),
                self.valid(node),
                cursor.wf(),
                links@ == self.links_at(node),
                0 <= k <= links.len(),
                forall|j: int| 0 <= j < k ==> !self.takes(#[trigger] self.links_at(node)[j], cursor.rest()),
            decreases links.len() - k,
        {
            let c = links[k];
            proof {
                assert(self.link_down(node, k as int));
                assert(self.link_up(c));
            }
            if cursor.remaining_starts_with(self.code(c).as_str()) {
                proof {
                    let rest = cursor.rest();
                    assert(self.takes(self.links_at(node)[k as int], rest));
                    let l = choose|l: int|
                        0 <= l < self.links_at(node).len() && self.takes(#[trigger] self.links_at(node)[l], rest);
                    let d = self.links_at(node)[l];
                    assert(self.segment(c) == rest.subrange(0, self.segment(c).len() as int));
                    assert(self.segment(d) == rest.subrange(0, self.segment(d).len() as int));
                    assert(self.segment(c)[0] == rest[0]);
                    assert(self.segment(d)[0] == rest[0]);
                    self.lemma_one_opener(node, k as int, l);
                }
                return Some(c);
            }
            k = k + 1;
        }
        None
    }

    /// Consumes from the cursor the longest prefix that it has in common with
    /// the label of `node`, and returns its length.
    pub fn poll(&self, node: usize, cursor: &mut CodeCursor) -> (matched: usize)
        requires
            self.valid(node),
            old(cursor).wf(),
        ensures
            final(cursor).wf(),
            final(cursor).text() == old(cursor).text(),
            is_common_prefix_len(self.segment(node), old(cursor).rest(), matched as int),
            final(cursor).offset() == old(cursor).offset() + matched,
            final(cursor).rest() == old(cursor).rest().skip(matched as int),
    {
        let code = self.code(node).as_str();
        let len = code.unicode_len();
        let mut matched: usize = 0;
        let ghost start = cursor.rest();
        while matched < len && !cursor.is_empty() && code.get_char(matched) == cursor.get_char(0).unwrap()
            invariant
                cursor.wf(),
                cursor.text() == old(cursor).text(),
                code@ == self.segment(node),
                len == code@.len(),
                0 <= matched <= len,
                matched <= start.len(),
                start == old(cursor).rest(),
                cursor.offset() == old(cursor).offset() + matched,
                cursor.rest() == start.skip(matched as int),
                code@.subrange(0, matched as int) =~= start.subrange(0, matched as int),
            decreases len - matched,
        {
            cursor.shift();
            matched = matched + 1;
            assert(cursor.rest() =~= start.skip(matched as int));
        }
        matched
    }

    /// Walks down from the root as long as a child's whole label heads the
    /// cursor's rest, consuming the labels, and returns the node reached.
    pub fn deepest_full_code(&self, cursor: &mut CodeCursor) -> (node: usize)
        requires
            self.wf(),
            old(cursor).wf(),
        ensures
            final(cursor).wf(),
            final(cursor).text() == old(cursor).text(),
            self.valid(node),
            (node, final(cursor).rest()) == self.descend(0, old(cursor).rest()),
            self.code_to(node) + final(cursor).rest() == old(cursor).rest(),
            final(cursor).offset() == old(cursor).offset() + self.code_to(node).len(),
            final(cursor).rest().len() > 0 ==> self.matching_child(node, final(cursor).rest()) is None,
            (node == 0) == (final(cursor).rest().len() == old(cursor).rest().len()),
    {
        let mut node: usize = 0;
        let mut done = false;
        let ghost start = cursor.rest();
        assert(self.code_to(0) + start =~= start);
        while !done
            invariant
                self.wf(),
                cursor.wf(),
                cursor.text() == old(cursor).text(),
                start == old(cursor).rest(),
                self.valid(node),
                self.descend(0, start) == self.descend(node, cursor.rest()),
                self.code_to(node) + cursor.rest() == start,
                cursor.offset() == old(cursor).offset() + self.code_to(node).len(),
                (node == 0) == (cursor.rest().len() == start.len()),
                cursor.rest().len() <= start.len(),
                done ==> self.descend(node, cursor.rest()) == (node, cursor.rest()),
                done && cursor.rest().len() > 0 ==> self.matching_child(node, cursor.rest()) is None,
            decreases cursor.rest().len() + (if done { 0int } else { 1int }),
        {
            match self.find_matching_child(node, cursor) {
                None => {
                    done = true;
                },
                Some(c) => {
                    let ghost rest = cursor.rest();
                    let step = self.code(c).as_str().unicode_len();
                    cursor.advance_by(step);
                    proof {
                        assert(self.code_to(c) == self.code_to(node) + self.segment(c));
                        assert(rest =~= self.segment(c) + cursor.rest());
                        assert(self.code_to(c) + cursor.rest() =~= start);
                    }
                    node = c;
                    if cursor.is_empty() {
                        proof {
                            self.lemma_descend_nothing(c);
                        }
                        done = true;
                    }
                },
            }
        }
        node
    }

    /// With nothing left to consume the walk stays where it is.
    pub proof fn lemma_descend_nothing(&self, n: usize)
        ensures
            self.descend(n, Seq::empty()) == (n, Seq::<char>::empty()),
            self.matching_child(n, Seq::empty()) is None,
    {
        let rest = Seq::<char>::empty();
        assert forall|k: int| 0 <= k < self.links_at(n).len() implies !self.takes(
            #[trigger] self.links_at(n)[k],
            rest,
        ) by {}
    }

    /// The insertion walk: the deepest node reached by whole labels, then, if
    /// code is left, the child whose label begins with the next scalar value,
    /// as far as its label agrees with the code.
    pub fn try_best_to_match(&self, cursor: &mut CodeCursor) -> (found: (usize, usize))
        requires
            self.wf(),
            old(cursor).wf(),
        ensures
            final(cursor).wf(),
            final(cursor).text() == old(cursor).text(),
            self.stopped(old(cursor).rest(), found.0, found.1 as int, final(cursor).rest()),
            final(cursor).offset() == old(cursor).offset() + self.stem(found.0).len() + found.1,
    {
        let ghost start = cursor.rest();
        let node = self.deepest_full_code(cursor);
        let ghost mid = cursor.rest();
        let whole = self.code(node).as_str().unicode_len();
        proof {
            self.lemma_stem(node);
            assert(self.segment(node).subrange(0, whole as int) =~= self.segment(node));
        }
        if cursor.is_empty() {
            return (node, whole);
        }
        let ch = cursor.get_char(0).unwrap();
        match self.find_a_child_starts_with(node, ch) {
            Some(child) => {
                let matched = self.poll(child, cursor);
                proof {
                    let k = choose|k: int| 0 <= k < self.links_at(node).len() && self.links_at(node)[k] == child;
                    assert(self.link_down(node, k));
                    assert(self.link_up(child));
                    let seg = self.segment(child);
                    if matched == 0 {
                        assert(seg[0] == mid[0]);
                    }
                    if matched == seg.len() {
                        assert(seg.subrange(0, matched as int) =~= seg);
                        assert(self.takes(self.links_at(node)[k], mid));
                    }
                    assert(mid =~= seg.subrange(0, matched as int) + cursor.rest());
                    assert(start =~= self.stem(child) + seg.subrange(0, matched as int) + cursor.rest());
                }
                (child, matched)
            },
            None => (node, whole),
        }
    }

    /// The full code of a node is the path to its parent followed by its label.
    pub proof fn lemma_stem(&self, node: usize)
        requires
            self.wf(),
            self.valid(node),
        ensures
            self.code_to(node) == self.stem(node) + self.segment(node),
    {
        if node == 0 {
            assert(self.code_to(node) =~= self.stem(node) + self.segment(node));
        } else {
            assert(self.link_up(node));
        }
    }
}

} // verus!
