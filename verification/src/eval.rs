use vstd::prelude::*;
use vstd::string::*;
use crate::cursor::CodeCursor;
use crate::{lemma_texts_push, texts};
use crate::trie::Trie;

verus! {

/// The candidate that a selector keystroke picks, counted from 0: a space
/// the first, an apostrophe the second, a digit from 1 to 9 the one with
/// that number. No other scalar value is a selector.
pub open spec fn selector_index(ch: char) -> Option<int> {
    if ch == ' ' {
        Some(0)
    } else if ch == '\'' {
        Some(1)
    } else if '1' <= ch && ch <= '9' {
        Some(ch as int - '1' as int)
    } else {
        None
    }
}

/// The candidate index that `ch` selects, if it is a selector keystroke.
pub fn selector(ch: char) -> (index: Option<usize>)
    ensures
        match index {
            Some(i) => selector_index(ch) == Some(i as int),
            None => selector_index(ch) is None,
        },
{
    if ch == ' ' {
        Some(0)
    } else if ch == '\'' {
        Some(1)
    } else if '1' <= ch && ch <= '9' {
        let digit: u32 = ch as u32 - '1' as u32;
        Some(digit as usize)
    } else {
        None
    }
}

impl Trie {
    /// The first word of each of the first `upto` children of `n` that has one.
    pub open spec fn child_heads(&self, n: usize, upto: int) -> Seq<Seq<char>>
        decreases upto,
    {
        if upto <= 0 {
            Seq::empty()
        } else {
            self.child_heads(n, upto - 1) + (if self.words_at(self.links_at(n)[upto - 1]).len() > 0 {
                seq![self.words_at(self.links_at(n)[upto - 1])[0]]
            } else {
                Seq::empty()
            })
        }
    }

    /// What a selector keystroke chooses from at `n`: the node's own words,
    /// then the first word of each direct child.
    pub open spec fn choices_of(&self, n: usize) -> Seq<Seq<char>> {
        self.words_at(n) + self.child_heads(n, self.links_at(n).len() as int)
    }

    /// A walk leaves no more than it was given, and less where it moved.
    pub proof fn lemma_descend_shrinks(&self, n: usize, s: Seq<char>)
        ensures
            self.descend(n, s).1.len() <= s.len(),
            self.descend(n, s).0 != n ==> self.descend(n, s).1.len() < s.len(),
        decreases s.len(),
    {
        match self.matching_child(n, s) {
            Some(c) => {
                if 0 < self.segment(c).len() <= s.len() {
                    self.lemma_descend_shrinks(c, s.skip(self.segment(c).len() as int));
                }
            },
            None => {},
        }
    }

    /// The text that the decoder makes of the typed code `s`. It walks from
    /// the root to the deepest node whose full code heads what is left.
    /// At the end of the input it commits that node's first word. Before the
    /// end, the next scalar value stands for itself where the walk did not
    /// leave the root or the node has no word; a single word at a leaf is
    /// committed with nothing consumed; otherwise a selector picks from the
    /// choices (the first word and the selector itself where it picks
    /// nothing), and any other scalar value commits the first word and is
    /// left to begin the next code.
    pub open spec fn decode(&self, s: Seq<char>) -> Seq<char>
        decreases s.len(),
    {
        let n = self.descend(0, s).0;
        let rest = self.descend(0, s).1;
        let own = self.words_at(n);
        proof {
            self.lemma_descend_shrinks(0, s);
        }
        if rest.len() == 0 {
            if own.len() > 0 {
                own[0]
            } else {
                Seq::empty()
            }
        } else if n == 0 || own.len() == 0 {
            seq![rest[0]] + self.decode(rest.skip(1))
        } else if own.len() == 1 && self.links_at(n).len() == 0 {
            own[0] + self.decode(rest)
        } else {
            match selector_index(rest[0]) {
                None => own[0] + self.decode(rest),
                Some(index) => if index < self.choices_of(n).len() {
                    self.choices_of(n)[index] + self.decode(rest.skip(1))
                } else {
                    own[0] + seq![rest[0]] + self.decode(rest.skip(1))
                },
            }
        }
    }

    /// The node's own words, as strings of their own.
    fn own_words(&self, node: usize) -> (list: Vec<String>)
        requires
            self.valid(node),
        ensures
            texts(list@) == self.words_at(node),
    {
        let mut list: Vec<String> = Vec::new();
        let own = self.words(node);
        let mut i: usize = 0;
        assert(texts(list@) =~= self.words_at(node).subrange(0, 0));
        while i < own.len()
            invariant
                texts(own@) == self.words_at(node),
                0 <= i <= own.len(),
                texts(list@) == self.words_at(node).subrange(0, i as int),
            decreases own.len() - i,
        {
            let ghost prev = list@;
            let word = own[i].clone();
            list.push(word);
            proof {
                lemma_texts_push(prev, word);
                assert(texts(own@)[i as int] == own@[i as int]@);
            }
            i = i + 1;
            assert(texts(list@) =~= self.words_at(node).subrange(0, i as int));
        }
        assert(self.words_at(node).subrange(0, i as int) =~= self.words_at(node));
        list
    }

    /// The node's own words followed by the words of each direct child.
    pub fn candidates(&self, node: usize) -> (list: Vec<String>)
        requires
            self.wf(),
            self.valid(node),
        ensures
            texts(list@) == self.candidates_of(node),
    {
        let mut list = self.own_words(node);
        assert(texts(list@) =~= self.words_at(node) + self.child_words(node, 0));
        let links = self.children(node);
        let mut k: usize = 0;
        while k < links.len()
            invariant
                self.wf(),
                self.valid(node),
                links@ == self.links_at(node),
                0 <= k <= links.len(),
                texts(list@) == self.words_at(node) + self.child_words(node, k as int),
            decreases links.len() - k,
        {
            let c = links[k];
            proof {
                assert(self.link_down(node, k as int));
            }
            let theirs = self.words(c);
            let ghost base = texts(list@);
            let mut j: usize = 0;
            while j < theirs.len()
                invariant
                    texts(theirs@) == self.words_at(c),
                    0 <= j <= theirs.len(),
                    texts(list@) == base + self.words_at(c).subrange(0, j as int),
                decreases theirs.len() - j,
            {
                let ghost prev = list@;
                let word = theirs[j].clone();
                list.push(word);
                proof {
                    lemma_texts_push(prev, word);
                    assert(texts(theirs@)[j as int] == theirs@[j as int]@);
                }
                j = j + 1;
                assert(texts(list@) =~= base + self.words_at(c).subrange(0, j as int));
            }
            k = k + 1;
            proof {
                assert(self.words_at(c).subrange(0, j as int) =~= self.words_at(c));
                assert(texts(list@) =~= self.words_at(node) + self.child_words(node, k as int));
            }
        }
        list
    }

    /// What a selector keystroke chooses from at `node`.
    pub fn choices(&self, node: usize) -> (list: Vec<String>)
        requires
            self.wf(),
            self.valid(node),
        ensures
            texts(list@) == self.choices_of(node),
    {
        let mut list = self.own_words(node);
        assert(texts(list@) =~= self.words_at(node) + self.child_heads(node, 0));
        let links = self.children(node);
        let mut k: usize = 0;
        while k < links.len()
            invariant
                self.wf(),
                self.valid(node),
                links@ == self.links_at(node),
                0 <= k <= links.len(),
                texts(list@) == self.words_at(node) + self.child_heads(node, k as int),
            decreases links.len() - k,
        {
            let c = links[k];
            proof {
                assert(self.link_down(node, k as int));
            }
            let theirs = self.words(c);
            let ghost base = texts(list@);
            if theirs.len() > 0 {
                let ghost prev = list@;
                let word = theirs[0].clone();
                list.push(word);
                proof {
                    lemma_texts_push(prev, word);
                    assert(texts(theirs@)[0] == theirs@[0]@);
                }
                assert(texts(list@) =~= base + seq![self.words_at(c)[0]]);
            } else {
                assert(texts(list@) =~= base + Seq::<Seq<char>>::empty());
            }
            k = k + 1;
            proof {
                assert(texts(list@) =~= self.words_at(node) + self.child_heads(node, k as int));
            }
        }
        list
    }

    /// Decodes a typed code into text, as the input method would.
    pub fn eval(&self, code: &str) -> (text: String)
        requires
            self.wf(),
        ensures
            text@ == self.decode(code@),
    {
        let mut cursor = CodeCursor::new(String::from_str(code));
        let mut output = String::new();
        let mut done = false;
        assert(cursor.rest() =~= code@);
        assert(output@ + self.decode(cursor.rest()) =~= self.decode(code@));
        while !done
            invariant
                self.wf(),
                cursor.wf(),
                !done ==> output@ + self.decode(cursor.rest()) == self.decode(code@),
                done ==> output@ == self.decode(code@),
            decreases cursor.rest().len() + (if done { 0int } else { 1int }),
        {
            let ghost s = cursor.rest();
            let ghost sofar = output@;
            let node = self.deepest_full_code(&mut cursor);
            let ghost rest = cursor.rest();
            let words = self.words(node);
            proof {
                self.lemma_descend_shrinks(0, s);
                assert(self.descend(0, s).0 == node);
                assert(self.descend(0, s).1 == rest);
                if words.len() > 0 {
                    assert(words[0]@ == self.words_at(node)[0]);
                }
            }
            if cursor.is_empty() {
                if words.len() > 0 {
                    output.append(words[0].as_str());
                } else {
                    assert(sofar + Seq::<char>::empty() =~= sofar);
                }
                done = true;
            } else {
                let peeked = cursor.get_char(0).unwrap();
                let near = cursor.remaining();
                let literal = near.substring_char(0, 1);
                assert(literal@ =~= seq![rest[0]]);
                if node == 0 || words.len() == 0 {
                    output.append(literal);
                    cursor.shift();
                    assert(output@ + self.decode(cursor.rest()) =~= sofar + (seq![rest[0]] + self.decode(
                        rest.skip(1),
                    )));
                } else if words.len() == 1 && self.is_leaf(node) {
                    output.append(words[0].as_str());
                    assert(output@ + self.decode(cursor.rest()) =~= sofar + (self.words_at(node)[0] + self.decode(
                        rest,
                    )));
                } else {
                    match selector(peeked) {
                        None => {
                            output.append(words[0].as_str());
                            assert(output@ + self.decode(cursor.rest()) =~= sofar + (self.words_at(node)[0]
                                + self.decode(rest)));
                        },
                        Some(index) => {
                            let list = self.choices(node);
                            if index < list.len() {
                                assert(list[index as int]@ == self.choices_of(node)[index as int]);
                                output.append(list[index].as_str());
                                cursor.shift();
                                assert(output@ + self.decode(cursor.rest()) =~= sofar + (self.choices_of(
                                    node,
                                )[index as int] + self.decode(rest.skip(1))));
                            } else {
                                output.append(words[0].as_str());
                                output.append(literal);
                                cursor.shift();
                                assert(output@ + self.decode(cursor.rest()) =~= sofar + (self.words_at(node)[0]
                                    + seq![rest[0]] + self.decode(rest.skip(1))));
                            }
                        },
                    }
                }
            }
        }
        output
    }
}

} // verus!
