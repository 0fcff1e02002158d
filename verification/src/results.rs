//! Lookup results: a single `Match` and a cursor over an ordered sequence
//! of matches.

use vstd::prelude::*;

verus! {

/// One lookup result: the matched key, its value and an integer score.
///
/// A `Match` may be empty (`found == false`): the explicit "no result"
/// sentinel, never an error.  The score is 0 for exact lookups, item
/// enumeration and completions (a fixed, neutral value); a fuzzy lookup
/// scores each match with its similarity to the query — the distance
/// budget left over, `max_edit_distance - edit_distance` — so a higher
/// score means a more similar key.
#[derive(Debug)]
pub struct Match {
    /// Whether this match holds a result at all.
    pub found: bool,
    /// The key that matched; empty for an empty match.
    pub key: Vec<u8>,
    /// The value stored under the matched key; empty for an empty match.
    pub value: Vec<u8>,
    /// Query-type-dependent relevance; see the type's documentation.
    pub score: usize,
}

impl Match {
    /// The empty match: the sentinel for "no result".
    pub fn empty() -> (m: Match)
        ensures
            !m.found,
            m.key@.len() == 0,
            m.value@.len() == 0,
            m.score == 0,
    {
        Match { found: false, key: Vec::new(), value: Vec::new(), score: 0 }
    }

    /// Whether this match is the "no result" sentinel.
    pub fn is_empty(&self) -> (r: bool)
        ensures
            r == !self.found,
    {
        !self.found
    }

    /// The matched key.
    pub fn matched_key(&self) -> (k: &Vec<u8>)
        ensures
            k == &self.key,
    {
        &self.key
    }

    /// The stored value, as raw bytes for the caller to decode.
    pub fn value_bytes(&self) -> (v: &Vec<u8>)
        ensures
            v == &self.value,
    {
        &self.value
    }

    /// The relevance score; see the type's documentation.
    pub fn get_score(&self) -> (s: usize)
        ensures
            s == self.score,
    {
        self.score
    }
}

/// A cursor over an ordered, finite sequence of matches.
///
/// The whole result sequence is owned by the iterator; it is not
/// restartable, and may be dropped at any point.
#[derive(Debug)]
pub struct MatchIterator {
    /// The matches, in result order.
    pub items: Vec<Match>,
    /// The cursor: the index of the current match.
    pub pos: usize,
}

impl MatchIterator {
    /// A cursor at the start of `items`.
    pub fn over(items: Vec<Match>) -> (it: MatchIterator)
        ensures
            it.items == items,
            it.pos == 0,
    {
        MatchIterator { items, pos: 0 }
    }

    /// Whether every match has been consumed.
    pub fn is_exhausted(&self) -> (r: bool)
        ensures
            r == (self.pos >= self.items@.len()),
    {
        self.pos >= self.items.len()
    }

    /// The match under the cursor.
    pub fn current(&self) -> (m: &Match)
        requires
            self.pos < self.items@.len(),
        ensures
            m == &self.items@[self.pos as int],
    {
        &self.items[self.pos]
    }

    /// Moves the cursor to the next match.
    pub fn advance(&mut self)
        requires
            old(self).pos < old(self).items@.len(),
        ensures
            final(self).items == old(self).items,
            final(self).pos == old(self).pos + 1,
    {
        let n = self.items.len();
        proof {
            assert(self.pos < n);
        }
        self.pos += 1;
    }

    /// How many matches are left, the current one included.
    pub fn remaining(&self) -> (n: usize)
        requires
            self.pos <= self.items@.len(),
        ensures
            n == self.items@.len() - self.pos,
    {
        self.items.len() - self.pos
    }
}

} // verus!
