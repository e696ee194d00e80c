//! The encoding engine of an input-method dictionary: a compressed trie from
//! typed codes to candidate words, the decoder that turns a typed code
//! stream into text, an index from words back to their shortest codes, and
//! the search for the shortest typed sequence that decodes to a given text.

pub mod cursor;
pub mod trie;
pub mod walk;
pub mod view;
pub mod insert;
pub mod eval;
pub mod paths;
pub mod traverse;
pub mod rev_dict;
pub mod encode;
pub mod analyse;
pub mod loader;
pub mod laws;

use vstd::prelude::*;
use vstd::string::*;

verus! {

/// `p` is a prefix of `s`.
pub open spec fn starts_with(s: Seq<char>, p: Seq<char>) -> bool {
    p.len() <= s.len() && s.subrange(0, p.len() as int) == p
}

/// The views of a sequence of strings.
pub open spec fn texts(v: Seq<String>) -> Seq<Seq<char>> {
    v.map_values(|w: String| w@)
}

/// Whether `s` begins with `p`.
pub fn has_prefix(s: &str, p: &str) -> (yes: bool)
    ensures
        yes == starts_with(s@, p@),
{
    let n = p.unicode_len();
    if n > s.unicode_len() {
        false
    } else {
        String::from_str(s.substring_char(0, n)) == String::from_str(p)
    }
}

/// Whether two string slices hold the same scalar values.
pub fn same_text(a: &str, b: &str) -> (yes: bool)
    ensures
        yes == (a@ == b@),
{
    String::from_str(a) == String::from_str(b)
}

/// The views of a sequence with one more string are the views with one more view.
pub proof fn lemma_texts_push(v: Seq<String>, x: String)
    ensures
        texts(v.push(x)) == texts(v).push(x@),
{
    assert(texts(v.push(x)) =~= texts(v).push(x@));
}

} // verus!
