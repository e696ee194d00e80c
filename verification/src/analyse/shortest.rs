use vstd::hash_map::StringHashMap;
use vstd::prelude::*;
use vstd::string::*;
use crate::encode::{shown, SegmentationFailure};
use crate::texts;

verus! {

/// The code that the dictionary gives for `w`, if it holds `w`.
pub open spec fn code_in(dict: Map<Seq<char>, String>, w: Seq<char>) -> Option<Seq<char>> {
    if dict.contains_key(w) {
        Some(dict[w]@)
    } else {
        None
    }
}

/// The code that a list of (word, code) pairs gives for `w`: that of the
/// last pair with that word.
pub open spec fn code_among(pairs: Seq<(String, String)>, w: Seq<char>) -> Option<Seq<char>>
    decreases pairs.len(),
{
    if pairs.len() == 0 {
        None
    } else if pairs.last().0@ == w {
        Some(pairs.last().1@)
    } else {
        code_among(pairs.drop_last(), w)
    }
}

/// The typed length up to a position, given what the search found there.
pub open spec fn spent(found: Option<(int, int)>) -> int {
    match found {
        Some(f) => f.1,
        None => 0,
    }
}

/// Where the last word begins, given what the search found.
pub open spec fn origin(found: Option<(int, int)>) -> int {
    match found {
        Some(f) => f.0,
        None => 0,
    }
}

/// The search for position `i` over the starts below `limit`: where the
/// chosen last word begins, and the sum of the code lengths up to `i`. A
/// start `j` counts if the dictionary holds the word from `j` to `i`. The least
/// sum wins, and of equal sums the leftmost start.
pub open spec fn scan(dict: Map<Seq<char>, String>, s: Seq<char>, i: int, limit: int) -> Option<(int, int)>
    decreases i, limit,
{
    if limit <= 0 || limit > i {
        None
    } else {
        let prior = scan(dict, s, i, limit - 1);
        let j = limit - 1;
        match code_in(dict, s.subrange(j, i)) {
            None => prior,
            Some(code) => {
                let found = if j <= 0 {
                    None
                } else {
                    scan(dict, s, j, j)
                };
                let length = spent(found) + code.len();
                match prior {
                    Some(p) => if length < p.1 {
                        Some((j, length))
                    } else {
                        prior
                    },
                    None => Some((j, length)),
                }
            },
        }
    }
}

/// What the search chose for position `i`.
pub open spec fn reached(dict: Map<Seq<char>, String>, s: Seq<char>, i: int) -> Option<(int, int)> {
    if i <= 0 {
        None
    } else {
        scan(dict, s, i, i)
    }
}

/// The codes of the words chosen for the first `i` scalar values, in order.
pub open spec fn chain(dict: Map<Seq<char>, String>, s: Seq<char>, i: int) -> Seq<Seq<char>>
    decreases i,
{
    if i <= 0 {
        Seq::empty()
    } else {
        let j = origin(reached(dict, s, i));
        if 0 <= j < i {
            match code_in(dict, s.subrange(j, i)) {
                Some(code) => chain(dict, s, j).push(code),
                None => Seq::empty(),
            }
        } else {
            Seq::empty()
        }
    }
}

/// The codes typed for the sentence `s`: one empty code for the empty sentence.
pub open spec fn codes_for(dict: Map<Seq<char>, String>, s: Seq<char>) -> Seq<Seq<char>> {
    if s.len() == 0 {
        seq![Seq::<char>::empty()]
    } else {
        chain(dict, s, s.len() as int)
    }
}

/// What the search answers for the sentence `s`: where it reaches every
/// position, the codes; else the first position that it does not reach, by
/// the scalar value that stands there and its index.
pub open spec fn answers(
    dict: Map<Seq<char>, String>,
    s: Seq<char>,
    outcome: Result<Seq<Seq<char>>, SegmentationFailure>,
) -> bool {
    match outcome {
        Ok(list) => list == codes_for(dict, s) && forall|i: int|
            1 <= i <= s.len() ==> #[trigger] reached(dict, s, i) is Some,
        Err(e) => e.index < s.len() && e.ch == s[e.index as int] && reached(dict, s, e.index + 1) is None
            && forall|i: int| 1 <= i <= e.index ==> #[trigger] reached(dict, s, i) is Some,
    }
}

/// One position of the search: the code of the word that ends there, where
/// that word begins, and the sum of the code lengths up to there.
struct State {
    code: String,
    prev: usize,
    sum_len: u128,
}

/// A state of the search holds what the search chose for position `t`.
spec fn recorded(dict: Map<Seq<char>, String>, s: Seq<char>, t: int, state: State) -> bool {
    &&& origin(reached(dict, s, t)) == state.prev
    &&& spent(reached(dict, s, t)) == state.sum_len
    &&& state.sum_len <= t * 0x1_0000_0000_0000_0000
    &&& t > 0 ==> reached(dict, s, t) is Some && state.prev < t && code_in(
        dict,
        s.subrange(state.prev as int, t),
    ) == Some(state.code@)
    &&& t == 0 ==> state.code@.len() == 0
}

/// A dictionary of the pairs; of two pairs with one word the later counts.
pub fn dictionary(pairs: Vec<(String, String)>) -> (dict: StringHashMap<String>)
    ensures
        forall|w: Seq<char>| #[trigger] code_in(dict@, w) == code_among(pairs@, w),
{
    let mut dict: StringHashMap<String> = StringHashMap::new();
    let mut k: usize = 0;
    while k < pairs.len()
        invariant
            0 <= k <= pairs.len(),
            forall|w: Seq<char>| #[trigger] code_in(dict@, w) == code_among(pairs@.take(k as int), w),
        decreases pairs.len() - k,
    {
        let ghost before = dict@;
        let word = pairs[k].0.clone();
        let code = pairs[k].1.clone();
        dict.insert(word, code);
        proof {
            assert(pairs@.take(k + 1).drop_last() =~= pairs@.take(k as int));
            assert(pairs@.take(k + 1).last() == pairs@[k as int]);
            assert forall|w: Seq<char>| #[trigger] code_in(dict@, w) == code_among(pairs@.take(k + 1), w) by {
                assert(code_in(before, w) == code_among(pairs@.take(k as int), w));
            }
        }
        k = k + 1;
    }
    assert(pairs@.take(k as int) =~= pairs@);
    dict
}

/// The codes of the segmentation of `sentence` into words of `rev_dict`
/// whose codes are shortest in sum, or the first scalar value with which no
/// word of `rev_dict` ends.
pub fn shortest(sentence: &String, rev_dict: &StringHashMap<String>) -> (typed: Result<
    Vec<String>,
    SegmentationFailure,
>)
    ensures
        answers(rev_dict@, sentence@, shown(typed)),
{
    let ghost s = sentence@;
    let ghost d = rev_dict@;
    let text = sentence.as_str();
    let n = text.unicode_len();
    let mut dp: Vec<State> = Vec::new();
    dp.push(State { code: String::new(), prev: 0, sum_len: 0 });
    while dp.len() <= n
        invariant
            s == sentence@,
            s == text@,
            d == rev_dict@,
            n == s.len(),
            1 <= dp.len() <= n + 1,
            forall|t: int| 0 <= t < dp.len() ==> #[trigger] recorded(d, s, t, dp@[t]),
        decreases n + 1 - dp.len(),
    {
        let i = dp.len();
        let mut best: Option<State> = None;
        let mut j: usize = 0;
        while j < i
            invariant
                s == sentence@,
                s == text@,
                d == rev_dict@,
                n == s.len(),
                i == dp.len(),
                1 <= i <= n,
                0 <= j <= i,
                forall|t: int| 0 <= t < dp.len() ==> #[trigger] recorded(d, s, t, dp@[t]),
                match best {
                    Some(b) => scan(d, s, i as int, j as int) == Some((b.prev as int, b.sum_len as int)) && b.prev
                        < i && b.sum_len <= i * 0x1_0000_0000_0000_0000 && code_in(
                        d,
                        s.subrange(b.prev as int, i as int),
                    ) == Some(b.code@),
                    None => scan(d, s, i as int, j as int) is None,
                },
            decreases i - j,
        {
            let word = text.substring_char(j, i);
            proof {
                assert(recorded(d, s, j as int, dp@[j as int]));
            }
            match rev_dict.get(word) {
                None => {},
                Some(code) => {
                    let length: u128 = dp[j].sum_len + code.as_str().unicode_len() as u128;
                    let better = match &best {
                        Some(b) => length < b.sum_len,
                        None => true,
                    };
                    if better {
                        best = Some(State { code: code.clone(), prev: j, sum_len: length });
                    }
                },
            }
            j = j + 1;
        }
        match best {
            None => {
                let ch = text.get_char(i - 1);
                proof {
                    assert forall|t: int| 1 <= t <= i - 1 implies #[trigger] reached(d, s, t) is Some by {
                        assert(recorded(d, s, t, dp@[t]));
                    }
                }
                return Err(SegmentationFailure { ch, index: i - 1 });
            },
            Some(state) => {
                dp.push(state);
            },
        }
    }
    proof {
        assert forall|t: int| 1 <= t <= n implies #[trigger] reached(d, s, t) is Some by {
            assert(recorded(d, s, t, dp@[t]));
        }
    }
    let mut list: Vec<String> = Vec::new();
    if n == 0 {
        list.push(String::new());
        assert(texts(list@) =~= codes_for(d, s));
        return Ok(list);
    }
    let mut at = n;
    assert(chain(d, s, at as int) + texts(list@) =~= chain(d, s, n as int));
    loop
        invariant
            s == sentence@,
            d == rev_dict@,
            n == s.len(),
            n > 0,
            dp.len() == n + 1,
            1 <= at <= n,
            forall|t: int| 0 <= t < dp.len() ==> #[trigger] recorded(d, s, t, dp@[t]),
            forall|i: int| 1 <= i <= n ==> #[trigger] reached(d, s, i) is Some,
            chain(d, s, at as int) + texts(list@) == chain(d, s, n as int),
        decreases at,
    {
        proof {
            assert(recorded(d, s, at as int, dp@[at as int]));
        }
        let ghost rest = texts(list@);
        let code = dp[at].code.clone();
        list.insert(0, code);
        let prev = dp[at].prev;
        proof {
            assert(texts(list@) =~= seq![code@] + rest);
            assert(chain(d, s, prev as int) + texts(list@) =~= chain(d, s, at as int) + rest);
        }
        if prev == 0 {
            assert(chain(d, s, 0) + texts(list@) =~= texts(list@));
            return Ok(list);
        }
        at = prev;
    }
}

/// `cuts` cuts the first `i` scalar values of `s` into words of the dictionary.
pub open spec fn cuts_to(dict: Map<Seq<char>, String>, s: Seq<char>, cuts: Seq<int>, i: int) -> bool {
    &&& cuts.len() >= 1
    &&& cuts[0] == 0
    &&& cuts.last() == i
    &&& i <= s.len()
    &&& forall|t: int| 0 <= t < cuts.len() ==> 0 <= #[trigger] cuts[t]
    &&& forall|t: int| 0 <= t < cuts.len() - 1 ==> cuts[t] < #[trigger] cuts[t + 1]
    &&& forall|t: int| 0 <= t < cuts.len() - 1 ==> code_in(dict, s.subrange(cuts[t], #[trigger] cuts[t + 1])) is Some
}

/// The sum of the lengths of the codes of the words of a segmentation.
pub open spec fn sum_len(dict: Map<Seq<char>, String>, s: Seq<char>, cuts: Seq<int>) -> int
    decreases cuts.len(),
{
    if cuts.len() <= 1 {
        0
    } else {
        let t = cuts.len() - 2;
        sum_len(dict, s, cuts.drop_last()) + (match code_in(dict, s.subrange(cuts[t], cuts[t + 1])) {
            Some(code) => code.len() as int,
            None => 0,
        })
    }
}

/// The cuts that the search chose for the first `i` scalar values.
pub open spec fn chosen_cuts(dict: Map<Seq<char>, String>, s: Seq<char>, i: int) -> Seq<int>
    decreases i,
{
    if i <= 0 {
        seq![0int]
    } else {
        let j = origin(reached(dict, s, i));
        if 0 <= j < i {
            chosen_cuts(dict, s, j).push(i)
        } else {
            seq![0int]
        }
    }
}

/// What the search chose for a position is a start whose word the dictionary
/// holds, and the sum is that of the start plus the length of the word's code.
pub proof fn lemma_scan_sound(dict: Map<Seq<char>, String>, s: Seq<char>, i: int, limit: int)
    requires
        0 <= limit <= i,
        scan(dict, s, i, limit) is Some,
    ensures
        0 <= scan(dict, s, i, limit).unwrap().0 < limit,
        code_in(dict, s.subrange(scan(dict, s, i, limit).unwrap().0, i)) is Some,
        scan(dict, s, i, limit).unwrap().1 == spent(reached(dict, s, scan(dict, s, i, limit).unwrap().0))
            + code_in(dict, s.subrange(scan(dict, s, i, limit).unwrap().0, i)).unwrap().len(),
    decreases limit,
{
    if limit > 0 {
        if scan(dict, s, i, limit - 1) is Some {
            lemma_scan_sound(dict, s, i, limit - 1);
        }
    }
}

/// The search finds no sum above that of any start that counts.
pub proof fn lemma_scan_least(dict: Map<Seq<char>, String>, s: Seq<char>, i: int, limit: int, j: int)
    requires
        0 <= j < limit <= i,
        code_in(dict, s.subrange(j, i)) is Some,
    ensures
        scan(dict, s, i, limit) is Some,
        scan(dict, s, i, limit).unwrap().1 <= spent(reached(dict, s, j)) + code_in(
            dict,
            s.subrange(j, i),
        ).unwrap().len(),
    decreases limit,
{
    if j < limit - 1 {
        lemma_scan_least(dict, s, i, limit - 1, j);
    }
}

/// The search reaches a position exactly if some word of the dictionary ends there.
pub proof fn law_reached(dict: Map<Seq<char>, String>, s: Seq<char>, i: int)
    ensures
        reached(dict, s, i) is Some <==> exists|j: int|
            0 <= j < i && code_in(dict, #[trigger] s.subrange(j, i)) is Some,
{
    if i > 0 {
        lemma_scan_some(dict, s, i, i);
    }
}

/// The search over the starts below `limit` finds something exactly if one of them counts.
proof fn lemma_scan_some(dict: Map<Seq<char>, String>, s: Seq<char>, i: int, limit: int)
    requires
        0 <= limit <= i,
    ensures
        scan(dict, s, i, limit) is Some <==> exists|j: int|
            0 <= j < limit && code_in(dict, #[trigger] s.subrange(j, i)) is Some,
    decreases limit,
{
    if limit > 0 {
        lemma_scan_some(dict, s, i, limit - 1);
        if code_in(dict, s.subrange(limit - 1, i)) is Some {
        } else if exists|j: int| 0 <= j < limit && code_in(dict, #[trigger] s.subrange(j, i)) is Some {
            let j = choose|j: int| 0 <= j < limit && code_in(dict, #[trigger] s.subrange(j, i)) is Some;
            assert(j < limit - 1);
        }
    }
}

/// No segmentation into words of the dictionary has codes of a smaller sum of
/// lengths than the search found.
pub proof fn law_least_sum(dict: Map<Seq<char>, String>, s: Seq<char>, cuts: Seq<int>, i: int)
    requires
        cuts_to(dict, s, cuts, i),
    ensures
        spent(reached(dict, s, i)) <= sum_len(dict, s, cuts),
    decreases cuts.len(),
{
    if cuts.len() > 1 {
        let t = cuts.len() - 2;
        let j = cuts[t];
        let front = cuts.drop_last();
        assert(cuts[t + 1] == i);
        assert(0 <= cuts[t]);
        assert(j < cuts[t + 1]);
        assert forall|x: int| 0 <= x < front.len() implies 0 <= #[trigger] front[x] by {
            assert(0 <= cuts[x]);
        }
        assert forall|x: int| 0 <= x < front.len() - 1 implies front[x] < #[trigger] front[x + 1] by {
            assert(cuts[x] < cuts[x + 1]);
        }
        assert forall|x: int| 0 <= x < front.len() - 1 implies code_in(
            dict,
            s.subrange(front[x], #[trigger] front[x + 1]),
        ) is Some by {
            assert(code_in(dict, s.subrange(cuts[x], cuts[x + 1])) is Some);
        }
        law_least_sum(dict, s, front, j);
        assert(code_in(dict, s.subrange(cuts[t], cuts[t + 1])) is Some);
        lemma_scan_least(dict, s, i, i, j);
    }
}

/// The sum that the search found is that of the segmentation that it chose,
/// which cuts the sentence into words of the dictionary.
pub proof fn law_sum_is_attained(dict: Map<Seq<char>, String>, s: Seq<char>, i: int)
    requires
        0 <= i <= s.len(),
        forall|t: int| 1 <= t <= i ==> #[trigger] reached(dict, s, t) is Some,
    ensures
        cuts_to(dict, s, chosen_cuts(dict, s, i), i),
        sum_len(dict, s, chosen_cuts(dict, s, i)) == spent(reached(dict, s, i)),
    decreases i,
{
    if i > 0 {
        assert(reached(dict, s, i) is Some);
        lemma_scan_sound(dict, s, i, i);
        let j = origin(reached(dict, s, i));
        law_sum_is_attained(dict, s, j);
        let front = chosen_cuts(dict, s, j);
        let cuts = chosen_cuts(dict, s, i);
        assert(cuts == front.push(i));
        assert(cuts.drop_last() =~= front);
        assert forall|x: int| 0 <= x < cuts.len() implies 0 <= #[trigger] cuts[x] by {
            if x < front.len() {
                assert(0 <= front[x]);
            }
        }
        assert forall|x: int| 0 <= x < cuts.len() - 1 implies cuts[x] < #[trigger] cuts[x + 1] by {
            if x < front.len() - 1 {
                assert(front[x] < front[x + 1]);
            }
        }
        assert forall|x: int| 0 <= x < cuts.len() - 1 implies code_in(
            dict,
            s.subrange(cuts[x], #[trigger] cuts[x + 1]),
        ) is Some by {
            if x < front.len() - 1 {
                assert(code_in(dict, s.subrange(front[x], front[x + 1])) is Some);
            }
        }
    }
}

/// The search has one answer for a sentence.
pub proof fn law_one_answer(
    dict: Map<Seq<char>, String>,
    s: Seq<char>,
    first: Result<Seq<Seq<char>>, SegmentationFailure>,
    second: Result<Seq<Seq<char>>, SegmentationFailure>,
)
    requires
        answers(dict, s, first),
        answers(dict, s, second),
    ensures
        first == second,
{
    match (first, second) {
        (Ok(_), Ok(_)) => {},
        (Ok(_), Err(e)) => {
            assert(reached(dict, s, e.index + 1) is Some);
        },
        (Err(e), Ok(_)) => {
            assert(reached(dict, s, e.index + 1) is Some);
        },
        (Err(e), Err(f)) => {
            if e.index < f.index {
                assert(reached(dict, s, e.index + 1) is Some);
            } else if f.index < e.index {
                assert(reached(dict, s, f.index + 1) is Some);
            }
        },
    }
}

} // verus!
