use vstd::prelude::*;
use crate::encode::SegmentationFailure;
use crate::rev_dict::RevDict;
use crate::starts_with;
use crate::trie::Trie;

verus! {

impl Trie {
    /// Every code holds in `self` at least the words that it holds in
    /// `before`, in the same order and before any others.
    pub open spec fn extends(&self, before: &Trie) -> bool {
        forall|c: Seq<char>| #[trigger] before.lookup(c).is_prefix_of(self.lookup(c))
    }

    /// Typing the full code of a node that has a word, and nothing more,
    /// gives the node's first word.
    pub proof fn law_full_code_decodes(&self, n: usize)
        requires
            self.wf(),
            self.valid(n),
            self.words_at(n).len() > 0,
        ensures
            self.decode(self.code_to(n)) == self.words_at(n)[0],
    {
        let c = self.code_to(n);
        assert(c.subrange(0, c.len() as int) =~= c);
        assert(c.skip(c.len() as int) =~= Seq::<char>::empty());
        self.lemma_reach(n, c);
        self.lemma_descend_nothing(n);
    }

    /// Of two children of one node neither has a label that begins with the
    /// label of the other.
    pub proof fn law_siblings_prefix_free(&self, n: usize, k: int, l: int)
        requires
            self.wf(),
            self.valid(n),
            0 <= k < self.links_at(n).len(),
            0 <= l < self.links_at(n).len(),
            k != l,
        ensures
            self.links_at(n)[k] != self.links_at(n)[l],
            !starts_with(self.segment(self.links_at(n)[k]), self.segment(self.links_at(n)[l])),
    {
        let c = self.links_at(n)[k];
        let d = self.links_at(n)[l];
        assert(self.link_down(n, k));
        assert(self.link_down(n, l));
        assert(self.link_up(c));
        assert(self.link_up(d));
        if starts_with(self.segment(c), self.segment(d)) {
            assert(self.segment(c).subrange(0, self.segment(d).len() as int)[0] == self.segment(c)[0]);
            self.lemma_one_opener(n, k, l);
        }
        if c == d {
            self.lemma_one_opener(n, k, l);
        }
    }

    /// No two nodes have the same full code.
    pub proof fn law_full_codes_differ(&self, i: usize, j: usize)
        requires
            self.wf(),
            self.valid(i),
            self.valid(j),
            i != j,
        ensures
            self.code_to(i) != self.code_to(j),
    {
        if self.code_to(i) == self.code_to(j) {
            self.lemma_injective(i, j);
        }
    }

    /// A walk from `m` over `t` ends at a node whose full code is that of
    /// `m` followed by what the walk consumed of `t`.
    pub proof fn lemma_descend_path(&self, m: usize, t: Seq<char>)
        requires
            self.wf(),
            self.valid(m),
        ensures
            self.valid(self.descend(m, t).0),
            self.code_to(self.descend(m, t).0) + self.descend(m, t).1 == self.code_to(m) + t,
            self.descend(m, t).1.len() > 0 ==> self.matching_child(self.descend(m, t).0, self.descend(m, t).1)
                is None,
        decreases t.len(),
    {
        match self.matching_child(m, t) {
            Some(c) => {
                let k = choose|k: int|
                    0 <= k < self.links_at(m).len() && self.takes(#[trigger] self.links_at(m)[k], t);
                assert(self.link_down(m, k));
                assert(self.link_up(c));
                let rest = t.skip(self.segment(c).len() as int);
                self.lemma_descend_path(c, rest);
                assert(t =~= self.segment(c) + rest);
                assert(self.code_to(c) + rest =~= self.code_to(m) + t);
            },
            None => {},
        }
    }

    /// The walk over `s` ends at the deepest node whose full code is a
    /// prefix of `s`, and leaves of `s` what follows that full code.
    pub proof fn law_descend_deepest(&self, s: Seq<char>, m: usize)
        requires
            self.wf(),
            self.valid(m),
            starts_with(s, self.code_to(m)),
        ensures
            self.valid(self.descend(0, s).0),
            self.code_to(self.descend(0, s).0) + self.descend(0, s).1 == s,
            self.code_to(m).len() <= self.code_to(self.descend(0, s).0).len(),
    {
        self.lemma_descend_path(0, s);
        assert(self.code_to(0) + s =~= s);
        self.lemma_reach(m, s);
        let t = s.skip(self.code_to(m).len() as int);
        self.lemma_descend_path(m, t);
        self.lemma_descend_shrinks(m, t);
    }

    /// An insertion keeps every word under its code and puts the new word
    /// under the inserted code.
    pub proof fn law_insert_extends(&self, before: &Trie, code: Seq<char>, word: Seq<char>)
        requires
            self.grown_from(before, code, word),
        ensures
            self.extends(before),
            self.lookup(code).contains(word),
    {
        let old_words = before.lookup(code);
        assert(self.lookup(code)[old_words.len() as int] == word);
        assert forall|c: Seq<char>| #[trigger] before.lookup(c).is_prefix_of(self.lookup(c)) by {
            if c == code {
                assert(old_words.push(word).subrange(0, old_words.len() as int) =~= old_words);
            } else {
                assert(self.lookup(c) == before.lookup(c));
                assert(self.lookup(c).subrange(0, self.lookup(c).len() as int) =~= self.lookup(c));
            }
        }
    }

    /// What a trie keeps of an earlier one, a yet later trie keeps too.
    pub proof fn law_extends_chain(&self, middle: &Trie, before: &Trie)
        requires
            middle.extends(before),
            self.extends(middle),
        ensures
            self.extends(before),
    {
        assert forall|c: Seq<char>| #[trigger] before.lookup(c).is_prefix_of(self.lookup(c)) by {
            let a = before.lookup(c);
            let b = middle.lookup(c);
            let d = self.lookup(c);
            assert(a.is_prefix_of(b));
            assert(b.is_prefix_of(d));
            assert(d.subrange(0, a.len() as int) =~= b.subrange(0, a.len() as int));
        }
    }

    /// A word that was inserted under a code stays at a node whose full code
    /// is that code, whatever was inserted later and whatever was split.
    pub proof fn law_full_code_integrity(&self, before: &Trie, c: Seq<char>, w: Seq<char>)
        requires
            self.wf(),
            self.extends(before),
            before.lookup(c).contains(w),
        ensures
            exists|n: usize| self.valid(n) && #[trigger] self.code_to(n) == c && self.words_at(n).contains(w),
    {
        let a = before.lookup(c);
        let b = self.lookup(c);
        assert(a.is_prefix_of(b));
        let k = choose|k: int| 0 <= k < a.len() && a[k] == w;
        assert(b.subrange(0, a.len() as int)[k] == b[k]);
        assert(b[k] == w);
        assert(self.has_code(c));
        let n = self.node_of(c);
        assert(self.valid(n) && self.code_to(n) == c && self.words_at(n).contains(w));
    }
}

impl<'a> RevDict<'a> {
    /// Where the index is right about `w` and the node that it gives for `w`
    /// has that one word and no children, decoding the code that the index
    /// gives for `w` yields `w`.
    pub proof fn law_round_trip(&self, w: Seq<char>)
        requires
            self.wf(),
            self.lists(w),
            self.has(w),
            self.trie().words_at(self.node_for(w)).len() == 1,
            self.trie().links_at(self.node_for(w)).len() == 0,
        ensures
            self.trie().decode(self.code_for(w)) == w,
    {
        let t = self.trie();
        let n = self.node_for(w);
        assert(t.holds(w, n));
        let k = choose|k: int| 0 <= k < t.words_at(n).len() && t.words_at(n)[k] == w;
        assert(k == 0);
        t.law_full_code_decodes(n);
    }

    /// The search reaches a position exactly if some word of the index ends there.
    pub proof fn law_reached(&self, s: Seq<char>, i: int)
        ensures
            self.reached(s, i) is Some <==> exists|j: int| 0 <= j < i && self.has(#[trigger] s.subrange(j, i)),
    {
        if i > 0 {
            self.lemma_scan_some(s, i, i);
        }
    }

    /// The search over the starts below `limit` finds something exactly if one of them counts.
    proof fn lemma_scan_some(&self, s: Seq<char>, i: int, limit: int)
        requires
            0 <= limit <= i,
        ensures
            self.scan(s, i, limit) is Some <==> exists|j: int|
                0 <= j < limit && self.has(#[trigger] s.subrange(j, i)),
        decreases limit,
    {
        if limit > 0 {
            self.lemma_scan_some(s, i, limit - 1);
            if self.has(s.subrange(limit - 1, i)) {
            } else if exists|j: int| 0 <= j < limit && self.has(#[trigger] s.subrange(j, i)) {
                let j = choose|j: int| 0 <= j < limit && self.has(#[trigger] s.subrange(j, i));
                assert(j < limit - 1);
            }
        }
    }

    /// What the search chose for a position is a start whose word the index
    /// holds, and the length is that of the start plus what the word costs.
    pub proof fn lemma_scan_sound(&self, s: Seq<char>, i: int, limit: int)
        requires
            0 <= limit <= i,
            self.scan(s, i, limit) is Some,
        ensures
            0 <= self.scan(s, i, limit).unwrap().0 < limit,
            self.has(s.subrange(self.scan(s, i, limit).unwrap().0, i)),
            self.scan(s, i, limit).unwrap().1 == self.via_of(
                s,
                self.scan(s, i, limit).unwrap().0,
                i,
                self.reached(s, self.scan(s, i, limit).unwrap().0),
            ),
        decreases limit,
    {
        if limit > 0 {
            if self.scan(s, i, limit - 1) is Some {
                self.lemma_scan_sound(s, i, limit - 1);
            }
        }
    }

    /// The search finds no length above that of any start that counts.
    pub proof fn lemma_scan_least(&self, s: Seq<char>, i: int, limit: int, j: int)
        requires
            0 <= j < limit <= i,
            self.has(s.subrange(j, i)),
        ensures
            self.scan(s, i, limit) is Some,
            self.scan(s, i, limit).unwrap().1 <= self.via_of(s, j, i, self.reached(s, j)),
        decreases limit,
    {
        if j < limit - 1 {
            self.lemma_scan_least(s, i, limit - 1, j);
        }
    }

    /// `cuts` cuts the first `i` scalar values of `s` into words of the index.
    pub open spec fn cuts_to(&self, s: Seq<char>, cuts: Seq<int>, i: int) -> bool {
        &&& cuts.len() >= 1
        &&& cuts[0] == 0
        &&& cuts.last() == i
        &&& i <= s.len()
        &&& forall|t: int| 0 <= t < cuts.len() ==> 0 <= #[trigger] cuts[t]
        &&& forall|t: int| 0 <= t < cuts.len() - 1 ==> cuts[t] < #[trigger] cuts[t + 1]
        &&& forall|t: int| 0 <= t < cuts.len() - 1 ==> self.has(s.subrange(cuts[t], #[trigger] cuts[t + 1]))
    }

    /// Whether the rule for spaces sets off the word from `j` to `i` when the
    /// word before it goes from `a` to `j` (at the start, `a` and `j` are 0).
    pub open spec fn set_off(&self, s: Seq<char>, a: int, j: int, i: int) -> bool {
        self.trie().wants_space(
            if j <= 0 {
                0
            } else {
                self.node_for(s.subrange(a, j))
            },
            s.subrange(a, j),
            self.code_for(s.subrange(j, i)),
        )
    }

    /// Where the word before the `t`-th word of `cuts` begins.
    pub open spec fn before_cut(cuts: Seq<int>, t: int) -> int {
        if t >= 1 {
            cuts[t - 1]
        } else {
            0
        }
    }

    /// The typed length of a segmentation: the lengths of the codes of its
    /// words, and one more for each word that the rule for spaces sets off
    /// from the word before it.
    pub open spec fn typed_len(&self, s: Seq<char>, cuts: Seq<int>) -> int
        decreases cuts.len(),
    {
        if cuts.len() <= 1 {
            0
        } else {
            let t = cuts.len() - 2;
            self.typed_len(s, cuts.drop_last()) + self.code_for(s.subrange(cuts[t], cuts[t + 1])).len() + (
            if self.set_off(s, Self::before_cut(cuts, t), cuts[t], cuts[t + 1]) {
                1int
            } else {
                0int
            })
        }
    }

    /// Wherever the search, coming from the word that it chose to end at a
    /// cut, sets the next word of `cuts` off by a space, the segmentation,
    /// coming from its own word, does so too.
    pub open spec fn no_dearer(&self, s: Seq<char>, cuts: Seq<int>) -> bool {
        forall|t: int|
            0 <= t < cuts.len() - 1 && self.spaced_of(s, cuts[t], #[trigger] cuts[t + 1], self.reached(s, cuts[t]))
                ==> self.set_off(s, Self::before_cut(cuts, t), cuts[t], cuts[t + 1])
    }

    /// The cuts that the search chose for the first `i` scalar values.
    pub open spec fn chosen_cuts(&self, s: Seq<char>, i: int) -> Seq<int>
        decreases i,
    {
        if i <= 0 {
            seq![0int]
        } else {
            let j = Self::origin_of(self.reached(s, i));
            if 0 <= j < i {
                self.chosen_cuts(s, j).push(i)
            } else {
                seq![0int]
            }
        }
    }

    /// The length that the search found is not above the typed length of a
    /// segmentation into words of the index, provided that the search sets
    /// no word of it off by a space that the segmentation itself does not
    /// set off.
    pub proof fn law_no_shorter_segmentation(&self, s: Seq<char>, cuts: Seq<int>, i: int)
        requires
            self.cuts_to(s, cuts, i),
            self.no_dearer(s, cuts),
        ensures
            self.cost(s, i) <= self.typed_len(s, cuts),
        decreases cuts.len(),
    {
        if cuts.len() > 1 {
            let t = cuts.len() - 2;
            let j = cuts[t];
            let front = cuts.drop_last();
            assert(cuts[t + 1] == i);
            assert forall|x: int| 0 <= x < front.len() - 1 implies front[x] < #[trigger] front[x + 1] by {
                assert(cuts[x] < cuts[x + 1]);
            }
            assert forall|x: int| 0 <= x < front.len() - 1 implies self.has(
                s.subrange(front[x], #[trigger] front[x + 1]),
            ) by {
                assert(self.has(s.subrange(cuts[x], cuts[x + 1])));
            }
            assert forall|x: int|
                0 <= x < front.len() - 1 && self.spaced_of(
                    s,
                    front[x],
                    #[trigger] front[x + 1],
                    self.reached(s, front[x]),
                ) implies self.set_off(s, Self::before_cut(front, x), front[x], front[x + 1]) by {
                assert(cuts[x + 1] == front[x + 1]);
                assert(Self::before_cut(front, x) == Self::before_cut(cuts, x));
            }
            assert(j < cuts[t + 1]);
            assert(0 <= cuts[t]);
            assert forall|x: int| 0 <= x < front.len() implies 0 <= #[trigger] front[x] by {
                assert(0 <= cuts[x]);
            }
            self.law_no_shorter_segmentation(s, front, j);
            assert(self.has(s.subrange(cuts[t], cuts[t + 1])));
            self.lemma_scan_least(s, i, i, j);
        }
    }

    /// The length that the search found is the typed length of the
    /// segmentation that it chose, which cuts the sentence into words of the index.
    pub proof fn law_cost_is_attained(&self, s: Seq<char>, i: int)
        requires
            0 <= i <= s.len(),
            forall|t: int| 1 <= t <= i ==> #[trigger] self.reached(s, t) is Some,
        ensures
            self.cuts_to(s, self.chosen_cuts(s, i), i),
            self.typed_len(s, self.chosen_cuts(s, i)) == self.cost(s, i),
            i > 0 ==> self.chosen_cuts(s, i).len() >= 2 && self.chosen_cuts(s, i)[self.chosen_cuts(s, i).len() - 2]
                == Self::origin_of(self.reached(s, i)),
        decreases i,
    {
        if i > 0 {
            assert(self.reached(s, i) is Some);
            self.lemma_scan_sound(s, i, i);
            let j = Self::origin_of(self.reached(s, i));
            self.law_cost_is_attained(s, j);
            let front = self.chosen_cuts(s, j);
            let cuts = self.chosen_cuts(s, i);
            assert(cuts == front.push(i));
            assert(cuts.drop_last() =~= front);
            assert forall|x: int| 0 <= x < cuts.len() - 1 implies cuts[x] < #[trigger] cuts[x + 1] by {
                if x < front.len() - 1 {
                    assert(front[x] < front[x + 1]);
                }
            }
            assert forall|x: int| 0 <= x < cuts.len() - 1 implies self.has(
                s.subrange(cuts[x], #[trigger] cuts[x + 1]),
            ) by {
                if x < front.len() - 1 {
                    assert(self.has(s.subrange(front[x], front[x + 1])));
                }
            }
            assert forall|x: int| 0 <= x < cuts.len() implies 0 <= #[trigger] cuts[x] by {
                if x < front.len() {
                    assert(0 <= front[x]);
                }
            }
            let t = cuts.len() - 2;
            assert(cuts[t] == j);
            if j > 0 {
                assert(Self::before_cut(cuts, t) == Self::origin_of(self.reached(s, j)));
            } else {
                assert(s.subrange(Self::before_cut(cuts, t), 0) =~= s.subrange(0, 0));
            }
        }
    }

    /// The search has one answer for a sentence: what two calls on one index
    /// and one sentence return is the same.
    pub proof fn law_one_answer(
        &self,
        s: Seq<char>,
        first: Result<Seq<Seq<char>>, SegmentationFailure>,
        second: Result<Seq<Seq<char>>, SegmentationFailure>,
    )
        requires
            self.answers(s, first),
            self.answers(s, second),
        ensures
            first == second,
    {
        match (first, second) {
            (Ok(_), Ok(_)) => {},
            (Ok(_), Err(e)) => {
                assert(self.reached(s, e.index + 1) is Some);
            },
            (Err(e), Ok(_)) => {
                assert(self.reached(s, e.index + 1) is Some);
            },
            (Err(e), Err(f)) => {
                if e.index < f.index {
                    assert(self.reached(s, e.index + 1) is Some);
                } else if f.index < e.index {
                    assert(self.reached(s, f.index + 1) is Some);
                }
            },
        }
    }
}

} // verus!
