use vstd::prelude::*;
use vstd::string::*;
use crate::starts_with;
use crate::trie::Trie;

verus! {

/// One line of a dictionary table: a word and the code that types it.
pub struct Entry {
    pub code: String,
    pub word: String,
}

/// The position of the first `ch` in `s`: the length of `s` where it has none.
pub open spec fn first_of(s: Seq<char>, ch: char) -> int
    decreases s.len(),
{
    if s.len() == 0 || s[0] == ch {
        0
    } else {
        1 + first_of(s.skip(1), ch)
    }
}

/// What a line of a dictionary table holds, as (word, code): the line ends
/// before its first `#`; the word is what stands before the first tab, the
/// code all that follows that tab. A line without a tab holds nothing.
pub open spec fn parsed(line: Seq<char>) -> Option<(Seq<char>, Seq<char>)> {
    let text = line.subrange(0, first_of(line, '#'));
    let tab = first_of(text, '\t');
    if tab < text.len() {
        Some((text.subrange(0, tab), text.subrange(tab + 1, text.len() as int)))
    } else {
        None
    }
}

/// What the lines of a dictionary table hold, in their order.
pub open spec fn parsed_lines(lines: Seq<String>) -> Seq<(Seq<char>, Seq<char>)>
    decreases lines.len(),
{
    if lines.len() == 0 {
        Seq::empty()
    } else {
        match parsed(lines.last()@) {
            Some(item) => parsed_lines(lines.drop_last()).push(item),
            None => parsed_lines(lines.drop_last()),
        }
    }
}

/// The entries as (word, code).
pub open spec fn entry_views(entries: Seq<Entry>) -> Seq<(Seq<char>, Seq<char>)> {
    entries.map_values(|e: Entry| (e.word@, e.code@))
}

/// The words that the items give to the code `c`, in their order.
pub open spec fn added(items: Seq<(Seq<char>, Seq<char>)>, c: Seq<char>) -> Seq<Seq<char>>
    decreases items.len(),
{
    if items.len() == 0 {
        Seq::empty()
    } else if items.last().1 == c {
        added(items.drop_last(), c).push(items.last().0)
    } else {
        added(items.drop_last(), c)
    }
}

/// The position of the first `ch` in `s`, or the length of `s`.
pub fn first_index(s: &str, ch: char) -> (at: usize)
    ensures
        at == first_of(s@, ch),
        at <= s@.len(),
{
    let n = s.unicode_len();
    let mut k: usize = 0;
    assert(s@.skip(0) =~= s@);
    while k < n
        invariant
            n == s@.len(),
            0 <= k <= n,
            first_of(s@, ch) == k + first_of(s@.skip(k as int), ch),
        decreases n - k,
    {
        assert(s@.skip(k as int)[0] == s@[k as int]);
        if s.get_char(k) == ch {
            return k;
        }
        assert(s@.skip(k as int).skip(1) =~= s@.skip(k + 1));
        k = k + 1;
    }
    k
}

/// Reads one line of a dictionary table.
pub fn parse_line(line: &str) -> (entry: Option<Entry>)
    ensures
        match entry {
            Some(e) => parsed(line@) == Some((e.word@, e.code@)),
            None => parsed(line@) is None,
        },
{
    let text = line.substring_char(0, first_index(line, '#'));
    let len = text.unicode_len();
    let tab = first_index(text, '\t');
    if tab < len {
        let code = text.substring_char(tab + 1, len);
        Some(Entry { code: String::from_str(code), word: String::from_str(text.substring_char(0, tab)) })
    } else {
        None
    }
}

/// Reads the lines of a dictionary table.
pub fn parse_lines(lines: &Vec<String>) -> (entries: Vec<Entry>)
    ensures
        entry_views(entries@) == parsed_lines(lines@),
{
    let mut entries: Vec<Entry> = Vec::new();
    let mut k: usize = 0;
    assert(entry_views(entries@) =~= parsed_lines(lines@.take(0)));
    while k < lines.len()
        invariant
            0 <= k <= lines.len(),
            entry_views(entries@) == parsed_lines(lines@.take(k as int)),
        decreases lines.len() - k,
    {
        let ghost sofar = entries@;
        proof {
            assert(lines@.take(k + 1).drop_last() =~= lines@.take(k as int));
            assert(lines@.take(k + 1).last() == lines@[k as int]);
        }
        match parse_line(lines[k].as_str()) {
            Some(entry) => {
                entries.push(entry);
                assert(entry_views(entries@) =~= entry_views(sofar).push((entry.word@, entry.code@)));
            },
            None => {},
        }
        k = k + 1;
    }
    assert(lines@.take(k as int) =~= lines@);
    entries
}

/// Some item has a code that begins with `c`.
pub open spec fn heads_a_code(items: Seq<(Seq<char>, Seq<char>)>, c: Seq<char>) -> bool {
    exists|k: int| 0 <= k < items.len() && starts_with((#[trigger] items[k]).1, c)
}

impl Trie {
    /// How the trie after the insertion of `items`, one after the other,
    /// relates to the trie before. Every code holds the words that it held,
    /// followed by those that the items give it, in their order. Every
    /// earlier full code is still one, the code of every item is one, and
    /// any other one is a prefix of the code of an item.
    pub open spec fn fed_from(&self, before: &Trie, items: Seq<(Seq<char>, Seq<char>)>) -> bool {
        &&& forall|c: Seq<char>| #[trigger] self.lookup(c) == before.lookup(c) + added(items, c)
        &&& forall|c: Seq<char>| #[trigger] before.has_code(c) ==> self.has_code(c)
        &&& forall|k: int| 0 <= k < items.len() ==> self.has_code((#[trigger] items[k]).1)
        &&& forall|c: Seq<char>| #[trigger] self.has_code(c) ==> before.has_code(c) || heads_a_code(items, c)
    }

    /// The trie is what `before` becomes by the insertion of `items`, one
    /// after the other: with no item it is `before`; else it is placed, by
    /// the insertion of the last item, from a trie that the items before the
    /// last built in the same way.
    pub open spec fn built_from(&self, before: &Trie, items: Seq<(Seq<char>, Seq<char>)>) -> bool
        decreases items.len(),
    {
        if items.len() == 0 {
            *self == *before
        } else {
            exists|mid: Trie|
                mid.wf() && mid.built_from(before, items.drop_last()) && #[trigger] self.placed(
                    &mid,
                    items.last().1,
                    items.last().0,
                )
        }
    }

    /// One more insertion lengthens the chain by one trie.
    proof fn lemma_built_on(&self, mid: &Trie, before: &Trie, items: Seq<(Seq<char>, Seq<char>)>)
        requires
            items.len() > 0,
            mid.wf(),
            mid.built_from(before, items.drop_last()),
            self.placed(mid, items.last().1, items.last().0),
        ensures
            self.built_from(before, items),
    {
    }

    /// Inserts the entries in their order.
    pub fn extend(&mut self, entries: &Vec<Entry>)
        requires
            old(self).wf(),
        ensures
            final(self).wf(),
            final(self).built_from(old(self), entry_views(entries@)),
            final(self).fed_from(old(self), entry_views(entries@)),
    {
        let ghost before = *self;
        let ghost items = entry_views(entries@);
        let mut k: usize = 0;
        proof {
            assert forall|c: Seq<char>| #[trigger] self.lookup(c) == before.lookup(c) + added(items.take(0), c) by {
                assert(before.lookup(c) + Seq::<Seq<char>>::empty() =~= before.lookup(c));
            }
        }
        while k < entries.len()
            invariant
                self.wf(),
                items == entry_views(entries@),
                0 <= k <= entries.len(),
                self.built_from(&before, items.take(k as int)),
                self.fed_from(&before, items.take(k as int)),
            decreases entries.len() - k,
        {
            let ghost prev = *self;
            let code = entries[k].code.clone();
            let word = entries[k].word.clone();
            self.insert(code, word);
            proof {
                assert(items.take(k + 1).drop_last() =~= items.take(k as int));
                assert(items.take(k + 1).last() == items[k as int]);
                assert(items[k as int] == (word@, code@));
                let sofar = items.take(k as int);
                let now = items.take(k + 1);
                self.lemma_built_on(&prev, &before, now);
                assert forall|c: Seq<char>| #[trigger] self.lookup(c) == before.lookup(c) + added(now, c) by {
                    assert(prev.lookup(c) == before.lookup(c) + added(sofar, c));
                    if c == code@ {
                        assert(self.lookup(c) =~= before.lookup(c) + added(sofar, c).push(word@));
                    } else {
                        assert(self.lookup(c) == prev.lookup(c));
                    }
                }
                assert forall|c: Seq<char>| #[trigger] before.has_code(c) implies self.has_code(c) by {
                    assert(prev.has_code(c));
                }
                assert forall|x: int| 0 <= x < now.len() implies self.has_code((#[trigger] now[x]).1) by {
                    if x < k {
                        assert(sofar[x] == now[x]);
                        assert(prev.has_code(sofar[x].1));
                    }
                }
                assert forall|c: Seq<char>| #[trigger] self.has_code(c) implies before.has_code(c)
                    || heads_a_code(now, c) by {
                    if prev.has_code(c) {
                        if !before.has_code(c) {
                            let x = choose|x: int| 0 <= x < sofar.len() && starts_with((#[trigger] sofar[x]).1, c);
                            assert(now[x] == sofar[x]);
                            assert(starts_with(now[x].1, c));
                        }
                    } else {
                        assert(c == code@ || self.branch_of(&prev, code@, c));
                        assert(code@.subrange(0, code@.len() as int) =~= code@);
                        assert(starts_with(now[k as int].1, c));
                    }
                }
            }
            k = k + 1;
        }
        assert(items.take(k as int) =~= items);
    }

    /// Inserts what the lines of a dictionary table hold, line by line.
    pub fn load_xkjd_dict(&mut self, lines: &Vec<String>)
        requires
            old(self).wf(),
        ensures
            final(self).wf(),
            final(self).built_from(old(self), parsed_lines(lines@)),
            final(self).fed_from(old(self), parsed_lines(lines@)),
    {
        let entries = parse_lines(lines);
        self.extend(&entries);
    }
}

} // verus!
