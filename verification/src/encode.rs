use vstd::prelude::*;
use vstd::string::*;
use crate::{has_prefix, same_text, texts};
use crate::rev_dict::RevDict;
use crate::trie::Trie;

verus! {

/// A sentence cannot be typed: no word of the index ends with the scalar
/// value `ch`, which stands at `index` in the sentence.
#[derive(Clone, Copy, Debug, PartialEq, Eq)]
pub struct SegmentationFailure {
    pub ch: char,
    pub index: usize,
}

/// `String::push` of std appends the scalar value to the end of the string:
/// the string afterwards is the string before followed by `ch`.
pub assume_specification[ String::push ](s: &mut String, ch: char)
    ensures
        final(s)@ == old(s)@.push(ch),
;

/// The decimal digit for `d`, which is below ten.
pub open spec fn digit(d: int) -> char {
    seq!['0', '1', '2', '3', '4', '5', '6', '7', '8', '9'][d]
}

/// The decimal numeral of `n`, without leading zeros.
pub open spec fn decimal(n: nat) -> Seq<char>
    decreases n,
{
    if n < 10 {
        seq![digit(n as int)]
    } else {
        decimal(n / 10).push(digit((n % 10) as int))
    }
}

/// The failure in words: what could not be typed, and where it stands.
pub open spec fn message_of(failure: SegmentationFailure) -> Seq<char> {
    "can't generate the sentence from the dictionary, see '"@.push(failure.ch) + "' at "@ + decimal(
        failure.index as nat,
    )
}

/// Appends the decimal numeral of `n` to `out`.
pub fn append_decimal(out: &mut String, n: usize)
    ensures
        final(out)@ == old(out)@ + decimal(n as nat),
    decreases n,
{
    let ghost before = out@;
    if n >= 10 {
        append_decimal(out, n / 10);
    }
    let d = n % 10;
    proof {
        reveal_strlit("0123456789");
    }
    let numeral = "0123456789".substring_char(d, d + 1);
    assert(numeral@ =~= seq![digit(d as int)]);
    out.append(numeral);
    assert(out@ =~= before + decimal(n as nat));
}

impl SegmentationFailure {
    /// The failure in words.
    pub fn message(&self) -> (text: String)
        ensures
            text@ == message_of(*self),
    {
        let mut text = String::from_str("can't generate the sentence from the dictionary, see '");
        text.push(self.ch);
        text.append("' at ");
        append_decimal(&mut text, self.index);
        text
    }
}

/// One position of the search: the typed fragment of the word that ends
/// there, where that word begins, the typed length up to there, and the
/// word's node.
struct State {
    code: String,
    prev: usize,
    sum_len: u128,
    node: usize,
}

/// What a search returned, with each fragment as its scalar values.
pub open spec fn shown(typed: Result<Vec<String>, SegmentationFailure>) -> Result<
    Seq<Seq<char>>,
    SegmentationFailure,
> {
    match typed {
        Ok(list) => Ok(texts(list@)),
        Err(e) => Err(e),
    }
}

/// A space as a typed fragment.
pub open spec fn blank() -> Seq<char> {
    seq![' ']
}

impl Trie {
    /// Whether a code typed after a word committed at `p` must be set off by
    /// a space: the committed word is the first of at least two candidates at
    /// `p`, and some child of `p` has a label that is a prefix of the code.
    pub open spec fn wants_space(&self, p: usize, committed: Seq<char>, code: Seq<char>) -> bool {
        &&& self.candidates_of(p).len() > 1
        &&& self.candidates_of(p)[0] == committed
        &&& exists|k: int| 0 <= k < self.links_at(p).len() && self.takes(#[trigger] self.links_at(p)[k], code)
    }

    /// Whether `code`, typed after `committed` was committed at `p`, must be
    /// set off by a space.
    pub fn needs_space(&self, p: usize, committed: &str, code: &str) -> (yes: bool)
        requires
            self.wf(),
            self.valid(p),
        ensures
            yes == self.wants_space(p, committed@, code@),
    {
        let list = self.candidates(p);
        if list.len() > 1 && same_text(list[0].as_str(), committed) {
            assert(texts(list@)[0] == list@[0]@);
            let links = self.children(p);
            let mut k: usize = 0;
            while k < links.len()
                invariant
                    self.wf(),
                    self.valid(p),
                    links@ == self.links_at(p),
                    0 <= k <= links.len(),
                    self.candidates_of(p).len() > 1,
                    self.candidates_of(p)[0] == committed@,
                    forall|j: int| 0 <= j < k ==> !self.takes(#[trigger] self.links_at(p)[j], code@),
                decreases links.len() - k,
            {
                proof {
                    assert(self.link_down(p, k as int));
                    assert(self.link_up(links[k as int]));
                }
                if has_prefix(code, self.code(links[k]).as_str()) {
                    assert(self.takes(self.links_at(p)[k as int], code@));
                    return true;
                }
                k = k + 1;
            }
            false
        } else {
            assert(list.len() > 0 ==> texts(list@)[0] == list@[0]@);
            false
        }
    }

    /// Whether a word committed at `node` is one of several candidates.
    pub open spec fn ambiguous(&self, node: usize) -> bool {
        self.words_at(node).len() > 1 || self.links_at(node).len() > 0
    }
}

impl<'a> RevDict<'a> {
    /// Where the word begins that the search chose to end at a position, given what it found there.
    pub open spec fn origin_of(found: Option<(int, int)>) -> int {
        match found {
            Some(f) => f.0,
            None => 0,
        }
    }

    /// The typed length up to a position, given what the search found there.
    pub open spec fn spent_of(found: Option<(int, int)>) -> int {
        match found {
            Some(f) => f.1,
            None => 0,
        }
    }

    /// The word committed last before position `j`: empty at the start.
    pub open spec fn committed_of(s: Seq<char>, j: int, found: Option<(int, int)>) -> Seq<char> {
        s.subrange(Self::origin_of(found), j)
    }

    /// The node of the word committed last before position `j`: the root at the start.
    pub open spec fn stand_of(&self, s: Seq<char>, j: int, found: Option<(int, int)>) -> usize {
        if j <= 0 {
            0
        } else {
            self.node_for(Self::committed_of(s, j, found))
        }
    }

    /// Whether the word from `j` to `i` is typed with a space before its code.
    pub open spec fn spaced_of(&self, s: Seq<char>, j: int, i: int, found: Option<(int, int)>) -> bool {
        self.trie().wants_space(
            self.stand_of(s, j, found),
            Self::committed_of(s, j, found),
            self.code_for(s.subrange(j, i)),
        )
    }

    /// The typed length up to `i` when the last word goes from `j` to `i`.
    pub open spec fn via_of(&self, s: Seq<char>, j: int, i: int, found: Option<(int, int)>) -> int {
        Self::spent_of(found) + self.code_for(s.subrange(j, i)).len() + (if self.spaced_of(s, j, i, found) {
            1int
        } else {
            0int
        })
    }

    /// The search for position `i` over the starts below `limit`: where the
    /// chosen last word begins, and the typed length up to `i`. A start `j`
    /// counts if the index holds the word from `j` to `i`; its length is the
    /// length chosen for `j`, plus the word's code, plus one where a space
    /// must set the code off. The least length wins, and of equal lengths
    /// the leftmost start.
    pub open spec fn scan(&self, s: Seq<char>, i: int, limit: int) -> Option<(int, int)>
        decreases i, limit,
    {
        if limit <= 0 || limit > i {
            None
        } else {
            let prior = self.scan(s, i, limit - 1);
            let j = limit - 1;
            if !self.has(s.subrange(j, i)) {
                prior
            } else {
                let found = if j <= 0 {
                    None
                } else {
                    self.scan(s, j, j)
                };
                let length = self.via_of(s, j, i, found);
                match prior {
                    Some(p) => if length < p.1 {
                        Some((j, length))
                    } else {
                        prior
                    },
                    None => Some((j, length)),
                }
            }
        }
    }

    /// What the search chose for position `i`.
    pub open spec fn reached(&self, s: Seq<char>, i: int) -> Option<(int, int)> {
        if i <= 0 {
            None
        } else {
            self.scan(s, i, i)
        }
    }

    /// The least typed length that the search found for the first `i` scalar values.
    pub open spec fn cost(&self, s: Seq<char>, i: int) -> int {
        Self::spent_of(self.reached(s, i))
    }

    /// The fragment typed for the word that ends at `i`: its code, after a
    /// space where one is needed.
    pub open spec fn fragment(&self, s: Seq<char>, i: int) -> Seq<char> {
        let j = Self::origin_of(self.reached(s, i));
        let code = self.code_for(s.subrange(j, i));
        if self.spaced_of(s, j, i, self.reached(s, j)) {
            blank() + code
        } else {
            code
        }
    }

    /// The fragments typed for the first `i` scalar values, in order.
    pub open spec fn typed(&self, s: Seq<char>, i: int) -> Seq<Seq<char>>
        decreases i,
    {
        if i <= 0 {
            Seq::empty()
        } else {
            let j = Self::origin_of(self.reached(s, i));
            if 0 <= j < i {
                self.typed(s, j).push(self.fragment(s, i))
            } else {
                Seq::empty()
            }
        }
    }

    /// What is typed for the sentence `s`: the fragments of the chosen words
    /// (one empty fragment for the empty sentence), and a last space where
    /// the last word is one of several candidates at its node.
    pub open spec fn encoding(&self, s: Seq<char>) -> Seq<Seq<char>> {
        let n = s.len() as int;
        let body = if n == 0 {
            seq![Seq::<char>::empty()]
        } else {
            self.typed(s, n)
        };
        if self.trie().ambiguous(self.stand_of(s, n, self.reached(s, n))) {
            body.push(blank())
        } else {
            body
        }
    }

    /// What the search answers for the sentence `s`: where it reaches every
    /// position, the encoding; else the first position that it does not
    /// reach, by the scalar value that stands there and its index.
    pub open spec fn answers(&self, s: Seq<char>, outcome: Result<Seq<Seq<char>>, SegmentationFailure>) -> bool {
        match outcome {
            Ok(list) => list == self.encoding(s) && forall|i: int|
                1 <= i <= s.len() ==> #[trigger] self.reached(s, i) is Some,
            Err(e) => e.index < s.len() && e.ch == s[e.index as int] && self.reached(s, e.index + 1) is None
                && forall|i: int| 1 <= i <= e.index ==> #[trigger] self.reached(s, i) is Some,
        }
    }

    /// The shortest typed sequence for `sentence`, fragment by fragment, or
    /// the first scalar value with which no word of the index ends.
    pub fn shortest(&self, sentence: &str) -> (typed: Result<Vec<String>, SegmentationFailure>)
        requires
            self.wf(),
        ensures
            self.answers(sentence@, shown(typed)),
    {
        let ghost s = sentence@;
        let n = sentence.unicode_len();
        let mut dp: Vec<State> = Vec::new();
        dp.push(State { code: String::new(), prev: 0, sum_len: 0, node: 0 });
        while dp.len() <= n
            invariant
                self.wf(),
                s == sentence@,
                n == s.len(),
                1 <= dp.len() <= n + 1,
                forall|t: int| 0 <= t < dp.len() ==> #[trigger] self.recorded(s, t, dp@[t]),
            decreases n + 1 - dp.len(),
        {
            let i = dp.len();
            let mut best: Option<State> = None;
            let mut j: usize = 0;
            while j < i
                invariant
                    self.wf(),
                    s == sentence@,
                    n == s.len(),
                    i == dp.len(),
                    1 <= i <= n,
                    0 <= j <= i,
                    forall|t: int| 0 <= t < dp.len() ==> #[trigger] self.recorded(s, t, dp@[t]),
                    match best {
                        Some(b) => self.scan(s, i as int, j as int) == Some((b.prev as int, b.sum_len as int))
                            && self.chosen(s, i as int, b),
                        None => self.scan(s, i as int, j as int) is None,
                    },
                decreases i - j,
            {
                let word = sentence.substring_char(j, i);
                proof {
                    assert(self.recorded(s, j as int, dp@[j as int]));
                }
                match self.get(word) {
                    None => {},
                    Some((code, node)) => {
                        let before = &dp[j];
                        let committed = sentence.substring_char(before.prev, j);
                        let spaced = self.source().needs_space(before.node, committed, code.as_str());
                        let extra: u128 = if spaced {
                            1
                        } else {
                            0
                        };
                        let length: u128 = before.sum_len + code.as_str().unicode_len() as u128 + extra;
                        let better = match &best {
                            Some(b) => length < b.sum_len,
                            None => true,
                        };
                        if better {
                            let mut fragment = String::new();
                            if spaced {
                                proof {
                                    reveal_strlit(" ");
                                }
                                fragment.append(" ");
                                assert(fragment@ =~= blank());
                            }
                            fragment.append(code.as_str());
                            assert(!spaced ==> fragment@ =~= code@);
                            best = Some(State { code: fragment, prev: j, sum_len: length, node });
                        }
                    },
                }
                j = j + 1;
            }
            match best {
                None => {
                    let ch = sentence.get_char(i - 1);
                    proof {
                        assert forall|t: int| 1 <= t <= i - 1 implies #[trigger] self.reached(s, t) is Some by {
                            assert(self.recorded(s, t, dp@[t]));
                        }
                    }
                    return Err(SegmentationFailure { ch, index: i - 1 });
                },
                Some(state) => {
                    dp.push(state);
                },
            }
        }
        proof {
            assert forall|t: int| 1 <= t <= n implies #[trigger] self.reached(s, t) is Some by {
                assert(self.recorded(s, t, dp@[t]));
            }
            assert(self.recorded(s, n as int, dp@[n as int]));
        }
        let mut list: Vec<String> = Vec::new();
        if self.source().words(dp[n].node).len() > 1 || !self.source().is_leaf(dp[n].node) {
            proof {
                reveal_strlit(" ");
            }
            let space = String::from_str(" ");
            assert(space@ =~= blank());
            list.push(space);
            assert(texts(list@) =~= seq![blank()]);
        } else {
            assert(texts(list@) =~= Seq::<Seq<char>>::empty());
        }
        let ghost tail = texts(list@);
        if n == 0 {
            list.insert(0, String::new());
            assert(texts(list@) =~= seq![Seq::<char>::empty()] + tail);
            assert(texts(list@) =~= self.encoding(s));
            return Ok(list);
        }
        let mut at = n;
        assert(self.typed(s, at as int) + texts(list@) =~= self.typed(s, n as int) + tail);
        assert(self.typed(s, n as int) + tail =~= self.encoding(s));
        loop
            invariant
                self.wf(),
                self.typed(s, n as int) + tail == self.encoding(s),
                forall|i: int| 1 <= i <= n ==> #[trigger] self.reached(s, i) is Some,
                s == sentence@,
                n == s.len(),
                dp.len() == n + 1,
                1 <= at <= n,
                forall|t: int| 0 <= t < dp.len() ==> #[trigger] self.recorded(s, t, dp@[t]),
                self.typed(s, at as int) + texts(list@) == self.typed(s, n as int) + tail,
            decreases at,
        {
            proof {
                assert(self.recorded(s, at as int, dp@[at as int]));
            }
            let ghost rest = texts(list@);
            let fragment = dp[at].code.clone();
            list.insert(0, fragment);
            let prev = dp[at].prev;
            proof {
                assert(texts(list@) =~= seq![self.fragment(s, at as int)] + rest);
                assert(self.typed(s, prev as int) + texts(list@) =~= self.typed(s, at as int) + rest);
            }
            if prev == 0 {
                assert(self.typed(s, 0) + texts(list@) =~= texts(list@));
                return Ok(list);
            }
            at = prev;
        }
    }

    /// A state of the search holds what the search chose for position `t`.
    closed spec fn recorded(&self, s: Seq<char>, t: int, state: State) -> bool {
        &&& Self::origin_of(self.reached(s, t)) == state.prev
        &&& Self::spent_of(self.reached(s, t)) == state.sum_len
        &&& self.stand_of(s, t, self.reached(s, t)) == state.node
        &&& self.trie().valid(state.node)
        &&& state.sum_len <= t * 0x1_0000_0000_0000_0000
        &&& t > 0 ==> self.reached(s, t) is Some && state.prev < t && state.code@ == self.fragment(s, t)
        &&& t == 0 ==> state.code@.len() == 0
    }

    /// A candidate state for position `i` names the node and the fragment of its word.
    closed spec fn chosen(&self, s: Seq<char>, i: int, state: State) -> bool {
        let j = state.prev as int;
        &&& 0 <= j < i
        &&& self.has(s.subrange(j, i))
        &&& state.node == self.node_for(s.subrange(j, i))
        &&& self.trie().valid(state.node)
        &&& state.sum_len <= i * 0x1_0000_0000_0000_0000
        &&& state.code@ == (if self.spaced_of(s, j, i, self.reached(s, j)) {
            blank() + self.code_for(s.subrange(j, i))
        } else {
            self.code_for(s.subrange(j, i))
        })
    }
}

} // verus!
