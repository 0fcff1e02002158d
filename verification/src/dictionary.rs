//! The dictionary: a read-only, byte-string-keyed map opened from a
//! serialized index, answering exact, prefix, fuzzy and multi-word
//! lookups.
//!
//! Every query takes the dictionary by shared reference and its result is
//! pinned by the contract as a function of the entries and the query
//! alone, so concurrent readers of one dictionary see exactly the results
//! of sequential calls.

use vstd::prelude::*;

use crate::distance::{distance, edit_distance};
use crate::index::{
    entries_of, entries_sorted, entries_wf, entry_wf, header_ok, lemma_parse_serialize_index,
    parse_entries, parse_entry, parse_index, parse_index_bytes, serialize_index, stored_count,
    FORMAT_VERSION, OpenError,
};
use crate::order::{
    copy_bytes, is_prefix_bytes, lemma_lex_less_connected, lemma_lex_less_irrefl,
    lemma_lex_less_trans, lex_less, lex_less_bytes,
};
use crate::results::{Match, MatchIterator};
use crate::strategy::LoadingStrategyTypes;

verus! {

/// The value stored under `k` in an entry sequence, if any.
pub open spec fn lookup(es: Seq<(Seq<u8>, Seq<u8>)>, k: Seq<u8>) -> Option<Seq<u8>>
    decreases es.len(),
{
    if es.len() == 0 {
        Option::None
    } else if es[0].0 == k {
        Option::Some(es[0].1)
    } else {
        lookup(es.skip(1), k)
    }
}

proof fn lemma_lookup_at(es: Seq<(Seq<u8>, Seq<u8>)>, k: Seq<u8>, i: int)
    requires
        0 <= i < es.len(),
        es[i].0 == k,
        forall|j: int| 0 <= j < i ==> (#[trigger] es[j]).0 != k,
    ensures
        lookup(es, k) == Option::Some(es[i].1),
    decreases i,
{
    if i > 0 {
        lemma_lookup_at(es.skip(1), k, i - 1);
    }
}

proof fn lemma_lookup_none(es: Seq<(Seq<u8>, Seq<u8>)>, k: Seq<u8>)
    requires
        forall|j: int| 0 <= j < es.len() ==> (#[trigger] es[j]).0 != k,
    ensures
        lookup(es, k) is None,
    decreases es.len(),
{
    if es.len() > 0 {
        lemma_lookup_none(es.skip(1), k);
    }
}

/// A key looks up to a value exactly when some entry carries it: absence
/// of a key, and nothing else, yields the empty result.
pub proof fn lemma_lookup_is_membership(es: Seq<(Seq<u8>, Seq<u8>)>, k: Seq<u8>)
    ensures
        lookup(es, k) is Some <==> exists|i: int| 0 <= i < es.len() && (#[trigger] es[i]).0 == k,
    decreases es.len(),
{
    if es.len() > 0 && es[0].0 != k {
        lemma_lookup_is_membership(es.skip(1), k);
        if lookup(es, k) is Some {
            let j = choose|j: int| 0 <= j < es.skip(1).len() && (#[trigger] es.skip(1)[j]).0 == k;
            assert(es[j + 1].0 == k);
        }
        if exists|i: int| 0 <= i < es.len() && (#[trigger] es[i]).0 == k {
            let i = choose|i: int| 0 <= i < es.len() && (#[trigger] es[i]).0 == k;
            assert(es.skip(1)[i - 1].0 == k);
        }
    }
}

/// In a sorted entry sequence every entry is found under its own key:
/// looking up the key of the entry at any position yields its value.
pub proof fn lemma_lookup_finds(es: Seq<(Seq<u8>, Seq<u8>)>, i: int)
    requires
        entries_sorted(es),
        0 <= i < es.len(),
    ensures
        lookup(es, es[i].0) == Option::Some(es[i].1),
{
    assert forall|j: int| 0 <= j < i implies (#[trigger] es[j]).0 != es[i].0 by {
        assert(lex_less(es[j].0, es[i].0));
        lemma_lex_less_irrefl(es[i].0);
    }
    lemma_lookup_at(es, es[i].0, i);
}

/// Sorted entries carry pairwise distinct keys: an enumeration of them
/// repeats no key.
pub proof fn lemma_sorted_keys_distinct(es: Seq<(Seq<u8>, Seq<u8>)>)
    requires
        entries_sorted(es),
    ensures
        forall|i: int, j: int|
            0 <= i < j < es.len() ==> (#[trigger] es[i]).0 != (#[trigger] es[j]).0,
{
    assert forall|i: int, j: int|
        0 <= i < j < es.len() implies (#[trigger] es[i]).0 != (#[trigger] es[j]).0 by {
        assert(lex_less(es[i].0, es[j].0));
        lemma_lex_less_irrefl(es[i].0);
    }
}

proof fn lemma_parse_entries_all_wf(b: Seq<u8>, n: nat)
    requires
        parse_entries(b, n) is Some,
    ensures
        parse_entries(b, n)->Some_0.len() == n,
        forall|i: int|
            0 <= i < n ==> entry_wf(#[trigger] parse_entries(b, n)->Some_0[i]),
    decreases n,
{
    if n > 0 {
        let p = parse_entry(b)->Some_0;
        lemma_parse_entries_all_wf(p.1, (n - 1) as nat);
    }
}

/// Whether each item is the non-empty match of the entry at its position.
pub open spec fn items_match_entries(items: Seq<Match>, es: Seq<(Seq<u8>, Seq<u8>)>) -> bool {
    &&& items.len() == es.len()
    &&& forall|i: int|
        0 <= i < es.len() ==> (#[trigger] items[i]).found && items[i].key@ == es[i].0
            && items[i].value@ == es[i].1
}

/// A read-only dictionary over a validated serialized index.
///
/// One dictionary owns one loaded index for its whole lifetime; it is
/// never mutated after `new`, so any number of readers may query it at
/// once.
#[derive(Debug)]
pub struct Dictionary {
    /// The keys, in strictly increasing lexicographic order.
    pub keys: Vec<Vec<u8>>,
    /// The value stored under each key, in the same order.
    pub values: Vec<Vec<u8>>,
    /// The loading strategy chosen at open time.
    pub strategy: LoadingStrategyTypes,
}

impl Dictionary {
    /// The entries this dictionary answers from, in key order.
    pub open spec fn entries(&self) -> Seq<(Seq<u8>, Seq<u8>)> {
        entries_of(self.keys@, self.values@)
    }

    /// As many values as keys, every length within the format limits, and
    /// the keys strictly increasing.  Established by `new` and preserved
    /// forever after, the dictionary being read-only.
    pub open spec fn wf(&self) -> bool {
        self.keys@.len() == self.values@.len() && entries_wf(self.entries())
    }

    /// Opens a dictionary from the bytes of a serialized index, with the
    /// default loading strategy.  Succeeds exactly on the images the
    /// format accepts; no partially usable dictionary is ever produced.
    pub fn new(data: Vec<u8>) -> (r: Result<Dictionary, OpenError>)
        ensures
            r is Ok <==> parse_index(data@) is Some,
            r matches Ok(d) ==> d.wf() && parse_index(data@) == Option::Some(d.entries())
                && d.strategy == LoadingStrategyTypes::DEFAULT_OS,
            r matches Err(e) ==> (e == OpenError::VersionMismatch <==> header_ok(data@)
                && data@[4] != FORMAT_VERSION),
            r matches Err(e) ==> (e == OpenError::CorruptFormat <==> !(header_ok(data@)
                && data@[4] != FORMAT_VERSION)),
    {
        Self::new_with_strategy(data, LoadingStrategyTypes::DEFAULT_OS)
    }

    /// Opens a dictionary under the given loading strategy, which stays
    /// fixed for the dictionary's lifetime.
    pub fn new_with_strategy(data: Vec<u8>, loading_strategy: LoadingStrategyTypes) -> (r: Result<
        Dictionary,
        OpenError,
    >)
        ensures
            r is Ok <==> parse_index(data@) is Some,
            r matches Ok(d) ==> d.wf() && parse_index(data@) == Option::Some(d.entries())
                && d.strategy == loading_strategy,
            r matches Err(e) ==> (e == OpenError::VersionMismatch <==> header_ok(data@)
                && data@[4] != FORMAT_VERSION),
            r matches Err(e) ==> (e == OpenError::CorruptFormat <==> !(header_ok(data@)
                && data@[4] != FORMAT_VERSION)),
    {
        match parse_index_bytes(&data) {
            Ok(kv) => {
                let (ks, vs) = kv;
                proof {
                    lemma_parse_entries_all_wf(data@.skip(9), stored_count(data@));
                }
                Ok(Dictionary { keys: ks, values: vs, strategy: loading_strategy })
            },
            Err(e) => Err(e),
        }
    }

    /// The number of entries, read off the loaded arrays, never by
    /// traversal.
    pub fn size(&self) -> (n: usize)
        requires
            self.wf(),
        ensures
            n == self.entries().len(),
    {
        self.keys.len()
    }

    /// Exact lookup, by binary search over the sorted keys: the match for
    /// `key`, or the empty match if `key` is absent — never an error.
    /// Deterministic: the result is a function of the entries and the key
    /// alone.
    pub fn get(&self, key: &Vec<u8>) -> (m: Match)
        requires
            self.wf(),
        ensures
            m.found <==> lookup(self.entries(), key@) is Some,
            m.found ==> m.key@ == key@ && Option::Some(m.value@) == lookup(
                self.entries(),
                key@,
            ),
            !m.found ==> m.key@.len() == 0 && m.value@.len() == 0,
            m.score == 0,
    {
        let ghost es = self.entries();
        let n = self.keys.len();
        let mut lo: usize = 0;
        let mut hi: usize = n;
        while lo < hi
            invariant
                lo <= hi <= n,
                self.wf(),
                es == self.entries(),
                n == self.keys@.len(),
                forall|j: int| 0 <= j < lo ==> (#[trigger] es[j]).0 != key@,
                forall|j: int| hi <= j < n ==> (#[trigger] es[j]).0 != key@,
            decreases hi - lo,
        {
            let mid = lo + (hi - lo) / 2;
            proof {
                assert(es[mid as int] == (self.keys@[mid as int]@, self.values@[mid as int]@));
            }
            if lex_less_bytes(&self.keys[mid], key) {
                proof {
                    assert forall|j: int| 0 <= j < mid + 1 implies (#[trigger] es[j]).0
                        != key@ by {
                        if es[j].0 == key@ {
                            if j < mid {
                                assert(lex_less(es[j].0, es[mid as int].0));
                                lemma_lex_less_trans(key@, es[mid as int].0, key@);
                            }
                            lemma_lex_less_irrefl(key@);
                        }
                    }
                }
                lo = mid + 1;
            } else if lex_less_bytes(key, &self.keys[mid]) {
                proof {
                    assert forall|j: int| mid <= j < n implies (#[trigger] es[j]).0 != key@ by {
                        if es[j].0 == key@ {
                            if mid < j {
                                assert(lex_less(es[mid as int].0, es[j].0));
                                lemma_lex_less_trans(key@, es[mid as int].0, key@);
                            }
                            lemma_lex_less_irrefl(key@);
                        }
                    }
                }
                hi = mid;
            } else {
                proof {
                    lemma_lex_less_connected(self.keys@[mid as int]@, key@);
                    lemma_lookup_finds(es, mid as int);
                }
                return Match {
                    found: true,
                    key: copy_bytes(key),
                    value: copy_bytes(&self.values[mid]),
                    score: 0,
                };
            }
        }
        proof {
            lemma_lookup_none(es, key@);
        }
        Match::empty()
    }

    /// Enumerates every entry, in the stable serialized (key) order: one
    /// non-empty match per entry, exactly `size()` of them.
    pub fn get_all_items(&self) -> (it: MatchIterator)
        requires
            self.wf(),
        ensures
            it.pos == 0,
            items_match_entries(it.items@, self.entries()),
            forall|i: int| 0 <= i < it.items@.len() ==> (#[trigger] it.items@[i]).score == 0,
    {
        let n = self.keys.len();
        let mut items: Vec<Match> = Vec::new();
        let mut i: usize = 0;
        while i < n
            invariant
                i <= n,
                self.wf(),
                n == self.keys@.len(),
                items@.len() == i,
                forall|j: int|
                    0 <= j < i ==> (#[trigger] items@[j]).found && items@[j].key@
                        == self.entries()[j].0 && items@[j].value@ == self.entries()[j].1
                        && items@[j].score == 0,
            decreases n - i,
        {
            proof {
                assert(self.entries()[i as int] == (self.keys@[i as int]@, self.values@[i as int]@));
            }
            items.push(
                Match {
                    found: true,
                    key: copy_bytes(&self.keys[i]),
                    value: copy_bytes(&self.values[i]),
                    score: 0,
                },
            );
            i += 1;
        }
        MatchIterator::over(items)
    }
}

/// The entries whose keys start with `p`, in entry order.
pub open spec fn prefix_matches(es: Seq<(Seq<u8>, Seq<u8>)>, p: Seq<u8>) -> Seq<(Seq<u8>, Seq<u8>)>
    decreases es.len(),
{
    if es.len() == 0 {
        Seq::empty()
    } else {
        let rest = prefix_matches(es.drop_last(), p);
        if p.is_prefix_of(es.last().0) {
            rest.push(es.last())
        } else {
            rest
        }
    }
}

/// The first `cutoff` entries; all of them when `cutoff` is the unbounded
/// sentinel 0.
pub open spec fn capped(es: Seq<(Seq<u8>, Seq<u8>)>, cutoff: nat) -> Seq<(Seq<u8>, Seq<u8>)> {
    if cutoff == 0 || es.len() <= cutoff {
        es
    } else {
        es.take(cutoff as int)
    }
}

/// Every prefix match starts with the prefix and comes from the entries.
pub proof fn lemma_prefix_matches_sound(es: Seq<(Seq<u8>, Seq<u8>)>, p: Seq<u8>)
    ensures
        forall|i: int|
            0 <= i < prefix_matches(es, p).len() ==> p.is_prefix_of(
                (#[trigger] prefix_matches(es, p)[i]).0,
            ) && es.contains(prefix_matches(es, p)[i]),
    decreases es.len(),
{
    if es.len() > 0 {
        lemma_prefix_matches_sound(es.drop_last(), p);
        assert forall|i: int|
            0 <= i < prefix_matches(es, p).len() implies p.is_prefix_of(
            (#[trigger] prefix_matches(es, p)[i]).0,
        ) && es.contains(prefix_matches(es, p)[i]) by {
            let rest = prefix_matches(es.drop_last(), p);
            if i < rest.len() {
                assert(es.drop_last().contains(rest[i]));
                let j = choose|j: int|
                    0 <= j < es.drop_last().len() && es.drop_last()[j] == rest[i];
                assert(es[j] == rest[i]);
            } else {
                assert(es[es.len() - 1] == es.last());
            }
        }
    }
}

/// Every entry whose key starts with the prefix is among the prefix
/// matches.
pub proof fn lemma_prefix_matches_complete(es: Seq<(Seq<u8>, Seq<u8>)>, p: Seq<u8>, i: int)
    requires
        0 <= i < es.len(),
        p.is_prefix_of(es[i].0),
    ensures
        prefix_matches(es, p).contains(es[i]),
    decreases es.len(),
{
    if i + 1 == es.len() {
        assert(es.last() == es[i]);
        let pm = prefix_matches(es, p);
        assert(pm[pm.len() - 1] == es[i]);
    } else {
        lemma_prefix_matches_complete(es.drop_last(), p, i);
        let rest = prefix_matches(es.drop_last(), p);
        let j = choose|j: int| 0 <= j < rest.len() && rest[j] == es.drop_last()[i];
        assert(es.drop_last()[i] == es[i]);
        assert(prefix_matches(es, p)[j] == es[i]);
    }
}

impl Dictionary {
    /// The matches for all entries of `es` (given as this dictionary's
    /// entry range `[0, n)`) whose keys start with `prefix`.
    fn collect_prefix_matches(&self, prefix: &Vec<u8>) -> (items: Vec<Match>)
        requires
            self.wf(),
        ensures
            items_match_entries(items@, prefix_matches(self.entries(), prefix@)),
            forall|i: int| 0 <= i < items@.len() ==> (#[trigger] items@[i]).score == 0,
    {
        let n = self.keys.len();
        let mut items: Vec<Match> = Vec::new();
        let mut i: usize = 0;
        proof {
            assert(self.entries().take(0) =~= Seq::<(Seq<u8>, Seq<u8>)>::empty());
        }
        while i < n
            invariant
                i <= n,
                self.wf(),
                n == self.keys@.len(),
                items_match_entries(items@, prefix_matches(self.entries().take(i as int), prefix@)),
                forall|j: int| 0 <= j < items@.len() ==> (#[trigger] items@[j]).score == 0,
            decreases n - i,
        {
            let ghost es = self.entries();
            proof {
                assert(es[i as int] == (self.keys@[i as int]@, self.values@[i as int]@));
                assert(es.take(i + 1).drop_last() =~= es.take(i as int));
                assert(es.take(i + 1).last() == es[i as int]);
            }
            if is_prefix_bytes(prefix, &self.keys[i]) {
                items.push(
                    Match {
                        found: true,
                        key: copy_bytes(&self.keys[i]),
                        value: copy_bytes(&self.values[i]),
                        score: 0,
                    },
                );
            }
            i += 1;
        }
        proof {
            assert(self.entries().take(n as int) =~= self.entries());
        }
        items
    }

    /// Prefix completion: the entries whose keys start with `key`, in key
    /// order, at most `cutoff` of them when `cutoff > 0`, all of them when
    /// `cutoff` is the unbounded sentinel 0.
    pub fn get_prefix_completions(&self, key: &Vec<u8>, cutoff: usize) -> (it: MatchIterator)
        requires
            self.wf(),
        ensures
            it.pos == 0,
            items_match_entries(
                it.items@,
                capped(prefix_matches(self.entries(), key@), cutoff as nat),
            ),
            forall|i: int| 0 <= i < it.items@.len() ==> (#[trigger] it.items@[i]).score == 0,
    {
        let mut items = self.collect_prefix_matches(key);
        if cutoff > 0 && items.len() > cutoff {
            let ghost before = items@;
            items.truncate(cutoff);
            proof {
                let pm = prefix_matches(self.entries(), key@);
                assert(items@ =~= before.take(cutoff as int));
                assert(capped(pm, cutoff as nat) == pm.take(cutoff as int));
            }
        }
        MatchIterator::over(items)
    }
}

/// A byte that separates the words of a phrase: ASCII space, tab,
/// line feed or carriage return.
pub open spec fn is_phrase_space(b: u8) -> bool {
    b == 32 || b == 9 || b == 10 || b == 13
}

pub open spec fn norm_rec(p: Seq<u8>, after_space: bool) -> Seq<u8>
    decreases p.len(),
{
    if p.len() == 0 {
        Seq::empty()
    } else if is_phrase_space(p[0]) {
        if after_space {
            norm_rec(p.skip(1), true)
        } else {
            seq![32u8] + norm_rec(p.skip(1), true)
        }
    } else {
        seq![p[0]] + norm_rec(p.skip(1), false)
    }
}

/// A phrase with its leading whitespace dropped and every other run of
/// whitespace collapsed to one space — the tokenization this engine
/// gives multi-word completion.  A trailing space survives as one space,
/// so a phrase ending in whitespace completes among the continuations of
/// its last full word.
pub open spec fn normalize_phrase(p: Seq<u8>) -> Seq<u8> {
    norm_rec(p, true)
}

/// Normalizes a phrase: drops leading whitespace and collapses each
/// remaining whitespace run to a single space.
pub fn normalize_phrase_bytes(phrase: &Vec<u8>) -> (r: Vec<u8>)
    ensures
        r@ == normalize_phrase(phrase@),
{
    let n = phrase.len();
    let mut out: Vec<u8> = Vec::new();
    let mut after_space = true;
    let mut i: usize = 0;
    proof {
        assert(phrase@.skip(0) =~= phrase@);
    }
    while i < n
        invariant
            i <= n,
            n == phrase@.len(),
            normalize_phrase(phrase@) == out@ + norm_rec(phrase@.skip(i as int), after_space),
        decreases n - i,
    {
        let ghost rem = phrase@.skip(i as int);
        proof {
            assert(rem[0] == phrase@[i as int]);
            assert(rem.skip(1) =~= phrase@.skip(i + 1));
        }
        let ghost prev = out@;
        let b = phrase[i];
        if b == 32 || b == 9 || b == 10 || b == 13 {
            if !after_space {
                out.push(32);
                after_space = true;
                proof {
                    assert(prev + (seq![32u8] + norm_rec(phrase@.skip(i + 1), true)) =~= out@
                        + norm_rec(phrase@.skip(i + 1), true));
                }
            }
        } else {
            out.push(b);
            after_space = false;
            proof {
                assert(prev + (seq![b] + norm_rec(phrase@.skip(i + 1), false)) =~= out@ + norm_rec(
                    phrase@.skip(i + 1),
                    false,
                ));
            }
        }
        i += 1;
    }
    proof {
        assert(norm_rec(phrase@.skip(n as int), after_space) =~= Seq::<u8>::empty());
        assert(out@ + Seq::<u8>::empty() =~= out@);
    }
    out
}

impl Dictionary {
    /// Multi-word completion: the phrase is normalized (leading
    /// whitespace dropped, every whitespace run collapsed to one space),
    /// then every entry continuing it is returned — all words before the
    /// last match exactly, the last word as a prefix.  Capped at `cutoff`
    /// results, 0 meaning unbounded.
    pub fn get_multi_word_completions(&self, key: &Vec<u8>, cutoff: usize) -> (it: MatchIterator)
        requires
            self.wf(),
        ensures
            it.pos == 0,
            items_match_entries(
                it.items@,
                capped(prefix_matches(self.entries(), normalize_phrase(key@)), cutoff as nat),
            ),
            forall|i: int| 0 <= i < it.items@.len() ==> (#[trigger] it.items@[i]).score == 0,
    {
        let normalized = normalize_phrase_bytes(key);
        self.get_prefix_completions(&normalized, cutoff)
    }
}

/// The entries whose keys lie at edit distance exactly `d` from `q`, in
/// entry order.
pub open spec fn entries_at_distance(es: Seq<(Seq<u8>, Seq<u8>)>, q: Seq<u8>, d: nat) -> Seq<
    (Seq<u8>, Seq<u8>),
>
    decreases es.len(),
{
    if es.len() == 0 {
        Seq::empty()
    } else {
        let rest = entries_at_distance(es.drop_last(), q, d);
        if edit_distance(q, es.last().0) == d {
            rest.push(es.last())
        } else {
            rest
        }
    }
}

/// The entries within edit distance `d` of `q`: those at distance 0, then
/// those at distance 1, and so on up to `d`; within one distance, in entry
/// order.
pub open spec fn fuzzy_matches(es: Seq<(Seq<u8>, Seq<u8>)>, q: Seq<u8>, d: nat) -> Seq<
    (Seq<u8>, Seq<u8>),
>
    decreases d,
{
    if d == 0 {
        entries_at_distance(es, q, 0)
    } else {
        fuzzy_matches(es, q, (d - 1) as nat) + entries_at_distance(es, q, d)
    }
}

/// Every entry at distance `d` comes from the entries and lies at exactly
/// that distance.
pub proof fn lemma_at_distance_sound(es: Seq<(Seq<u8>, Seq<u8>)>, q: Seq<u8>, d: nat)
    ensures
        forall|i: int|
            0 <= i < entries_at_distance(es, q, d).len() ==> es.contains(
                #[trigger] entries_at_distance(es, q, d)[i],
            ) && edit_distance(q, entries_at_distance(es, q, d)[i].0) == d,
    decreases es.len(),
{
    if es.len() > 0 {
        lemma_at_distance_sound(es.drop_last(), q, d);
        assert forall|i: int|
            0 <= i < entries_at_distance(es, q, d).len() implies es.contains(
            #[trigger] entries_at_distance(es, q, d)[i],
        ) && edit_distance(q, entries_at_distance(es, q, d)[i].0) == d by {
            let rest = entries_at_distance(es.drop_last(), q, d);
            if i < rest.len() {
                assert(es.drop_last().contains(rest[i]));
                let j = choose|j: int|
                    0 <= j < es.drop_last().len() && es.drop_last()[j] == rest[i];
                assert(es[j] == rest[i]);
            } else {
                assert(es[es.len() - 1] == es.last());
            }
        }
    }
}

/// Every entry at distance exactly `d` is among the distance-`d` matches.
pub proof fn lemma_at_distance_complete(es: Seq<(Seq<u8>, Seq<u8>)>, q: Seq<u8>, d: nat, i: int)
    requires
        0 <= i < es.len(),
        edit_distance(q, es[i].0) == d,
    ensures
        entries_at_distance(es, q, d).contains(es[i]),
    decreases es.len(),
{
    if i + 1 == es.len() {
        assert(es.last() == es[i]);
        let b = entries_at_distance(es, q, d);
        assert(b[b.len() - 1] == es[i]);
    } else {
        lemma_at_distance_complete(es.drop_last(), q, d, i);
        let rest = entries_at_distance(es.drop_last(), q, d);
        let j = choose|j: int| 0 <= j < rest.len() && rest[j] == es.drop_last()[i];
        assert(es.drop_last()[i] == es[i]);
        assert(entries_at_distance(es, q, d)[j] == es[i]);
    }
}

/// Filtering by distance keeps the strict key order.
pub proof fn lemma_at_distance_sorted(es: Seq<(Seq<u8>, Seq<u8>)>, q: Seq<u8>, d: nat)
    requires
        entries_sorted(es),
    ensures
        entries_sorted(entries_at_distance(es, q, d)),
    decreases es.len(),
{
    if es.len() > 0 {
        assert(entries_sorted(es.drop_last())) by {
            assert forall|i: int, j: int|
                0 <= i < j < es.drop_last().len() implies #[trigger] lex_less(
                es.drop_last()[i].0,
                es.drop_last()[j].0,
            ) by {
                assert(es.drop_last()[i] == es[i]);
                assert(es.drop_last()[j] == es[j]);
                assert(lex_less(es[i].0, es[j].0));
            }
        }
        lemma_at_distance_sorted(es.drop_last(), q, d);
        lemma_at_distance_sound(es.drop_last(), q, d);
        let rest = entries_at_distance(es.drop_last(), q, d);
        let whole = entries_at_distance(es, q, d);
        if edit_distance(q, es.last().0) == d {
            assert forall|i: int, j: int|
                0 <= i < j < whole.len() implies #[trigger] lex_less(whole[i].0, whole[j].0) by {
                if j < rest.len() {
                    assert(lex_less(rest[i].0, rest[j].0));
                } else {
                    assert(whole[j] == es.last());
                    assert(es.drop_last().contains(rest[i]));
                    let t = choose|t: int|
                        0 <= t < es.drop_last().len() && es.drop_last()[t] == rest[i];
                    assert(es[t] == rest[i]);
                    assert(lex_less(es[t].0, es[es.len() - 1].0));
                }
            }
        }
    }
}

/// Every fuzzy match comes from the entries and lies within distance `d`.
pub proof fn lemma_fuzzy_matches_sound(es: Seq<(Seq<u8>, Seq<u8>)>, q: Seq<u8>, d: nat)
    ensures
        forall|i: int|
            0 <= i < fuzzy_matches(es, q, d).len() ==> es.contains(
                #[trigger] fuzzy_matches(es, q, d)[i],
            ) && edit_distance(q, fuzzy_matches(es, q, d)[i].0) <= d,
    decreases d,
{
    lemma_at_distance_sound(es, q, d);
    if d > 0 {
        lemma_fuzzy_matches_sound(es, q, (d - 1) as nat);
        assert forall|i: int|
            0 <= i < fuzzy_matches(es, q, d).len() implies es.contains(
            #[trigger] fuzzy_matches(es, q, d)[i],
        ) && edit_distance(q, fuzzy_matches(es, q, d)[i].0) <= d by {
            let prev = fuzzy_matches(es, q, (d - 1) as nat);
            let bucket = entries_at_distance(es, q, d);
            if i < prev.len() {
                assert(fuzzy_matches(es, q, d)[i] == prev[i]);
            } else {
                assert(fuzzy_matches(es, q, d)[i] == bucket[i - prev.len()]);
            }
        }
    }
}

/// Every entry within distance `d` of the query is among the fuzzy
/// matches.
pub proof fn lemma_fuzzy_matches_complete(es: Seq<(Seq<u8>, Seq<u8>)>, q: Seq<u8>, d: nat, i: int)
    requires
        0 <= i < es.len(),
        edit_distance(q, es[i].0) <= d,
    ensures
        fuzzy_matches(es, q, d).contains(es[i]),
    decreases d,
{
    let dist = edit_distance(q, es[i].0);
    if dist == d {
        lemma_at_distance_complete(es, q, d, i);
        let bucket = entries_at_distance(es, q, d);
        let j = choose|j: int| 0 <= j < bucket.len() && bucket[j] == es[i];
        if d == 0 {
        } else {
            let prev = fuzzy_matches(es, q, (d - 1) as nat);
            assert(fuzzy_matches(es, q, d)[prev.len() + j] == es[i]);
        }
    } else {
        lemma_fuzzy_matches_complete(es, q, (d - 1) as nat, i);
        let prev = fuzzy_matches(es, q, (d - 1) as nat);
        let j = choose|j: int| 0 <= j < prev.len() && prev[j] == es[i];
        assert(fuzzy_matches(es, q, d)[j] == es[i]);
    }
}

/// Fuzzy matches come in non-decreasing distance order, ties in strict
/// key order.
pub proof fn lemma_fuzzy_matches_ordered(es: Seq<(Seq<u8>, Seq<u8>)>, q: Seq<u8>, d: nat)
    requires
        entries_sorted(es),
    ensures
        forall|i: int, j: int|
            0 <= i < j < fuzzy_matches(es, q, d).len() ==> edit_distance(
                q,
                (#[trigger] fuzzy_matches(es, q, d)[i]).0,
            ) < edit_distance(q, (#[trigger] fuzzy_matches(es, q, d)[j]).0) || (edit_distance(
                q,
                fuzzy_matches(es, q, d)[i].0,
            ) == edit_distance(q, fuzzy_matches(es, q, d)[j].0) && lex_less(
                fuzzy_matches(es, q, d)[i].0,
                fuzzy_matches(es, q, d)[j].0,
            )),
    decreases d,
{
    lemma_at_distance_sound(es, q, d);
    lemma_at_distance_sorted(es, q, d);
    if d > 0 {
        lemma_fuzzy_matches_ordered(es, q, (d - 1) as nat);
        lemma_fuzzy_matches_sound(es, q, (d - 1) as nat);
        let prev = fuzzy_matches(es, q, (d - 1) as nat);
        let bucket = entries_at_distance(es, q, d);
        let whole = fuzzy_matches(es, q, d);
        assert forall|i: int, j: int|
            0 <= i < j < whole.len() implies edit_distance(q, (#[trigger] whole[i]).0)
            < edit_distance(q, (#[trigger] whole[j]).0) || (edit_distance(q, whole[i].0)
            == edit_distance(q, whole[j].0) && lex_less(whole[i].0, whole[j].0)) by {
            if j < prev.len() {
                assert(whole[i] == prev[i]);
                assert(whole[j] == prev[j]);
            } else if i >= prev.len() {
                assert(whole[i] == bucket[i - prev.len()]);
                assert(whole[j] == bucket[j - prev.len()]);
                assert(lex_less(bucket[i - prev.len()].0, bucket[j - prev.len()].0));
            } else {
                assert(whole[i] == prev[i]);
                assert(whole[j] == bucket[j - prev.len()]);
            }
        }
    }
}

/// No key appears twice among the fuzzy matches.
pub proof fn lemma_fuzzy_matches_distinct(es: Seq<(Seq<u8>, Seq<u8>)>, q: Seq<u8>, d: nat)
    requires
        entries_sorted(es),
    ensures
        forall|i: int, j: int|
            0 <= i < j < fuzzy_matches(es, q, d).len() ==> (#[trigger] fuzzy_matches(es, q, d)[i]).0
                != (#[trigger] fuzzy_matches(es, q, d)[j]).0,
{
    lemma_fuzzy_matches_ordered(es, q, d);
    let whole = fuzzy_matches(es, q, d);
    assert forall|i: int, j: int|
        0 <= i < j < whole.len() implies (#[trigger] whole[i]).0 != (#[trigger] whole[j]).0 by {
        if whole[i].0 == whole[j].0 {
            lemma_lex_less_irrefl(whole[i].0);
        }
    }
}

/// The fuzzy score ranks by similarity: of two matches scored against the
/// same query and distance bound, the one at strictly smaller edit
/// distance carries the strictly greater score — higher is more similar.
pub proof fn lemma_fuzzy_score_orders_by_similarity(
    q: Seq<u8>,
    max_edit_distance: usize,
    m1: Match,
    m2: Match,
)
    requires
        m1.score == max_edit_distance - edit_distance(q, m1.key@),
        m2.score == max_edit_distance - edit_distance(q, m2.key@),
        edit_distance(q, m1.key@) < edit_distance(q, m2.key@),
    ensures
        m1.score > m2.score,
{
}

impl Dictionary {
    /// The matches for all entries whose keys lie at edit distance exactly
    /// `d` from the query, each scored with the given similarity.
    fn matches_at_distance(&self, query: &Vec<u8>, d: usize, similarity: usize) -> (items: Vec<
        Match,
    >)
        requires
            self.wf(),
        ensures
            items_match_entries(items@, entries_at_distance(self.entries(), query@, d as nat)),
            forall|i: int| 0 <= i < items@.len() ==> (#[trigger] items@[i]).score == similarity,
    {
        let n = self.keys.len();
        let mut items: Vec<Match> = Vec::new();
        let mut i: usize = 0;
        proof {
            assert(self.entries().take(0) =~= Seq::<(Seq<u8>, Seq<u8>)>::empty());
        }
        while i < n
            invariant
                i <= n,
                self.wf(),
                n == self.keys@.len(),
                items_match_entries(
                    items@,
                    entries_at_distance(self.entries().take(i as int), query@, d as nat),
                ),
                forall|j: int| 0 <= j < items@.len() ==> (#[trigger] items@[j]).score
                    == similarity,
            decreases n - i,
        {
            let ghost es = self.entries();
            proof {
                assert(es[i as int] == (self.keys@[i as int]@, self.values@[i as int]@));
                assert(es.take(i + 1).drop_last() =~= es.take(i as int));
                assert(es.take(i + 1).last() == es[i as int]);
            }
            if distance(query, &self.keys[i]) == d {
                items.push(
                    Match {
                        found: true,
                        key: copy_bytes(&self.keys[i]),
                        value: copy_bytes(&self.values[i]),
                        score: similarity,
                    },
                );
            }
            i += 1;
        }
        proof {
            assert(self.entries().take(n as int) =~= self.entries());
        }
        items
    }

    /// Fuzzy lookup: the entries whose keys lie within Levenshtein
    /// distance `max_edit_distance` of `key`, each once, in non-decreasing
    /// distance order with ties in key order.  Each match is scored with
    /// its similarity, the distance budget it leaves over:
    /// `max_edit_distance - distance`.  A strictly closer match therefore
    /// carries a strictly greater score: higher means more similar.
    pub fn get_fuzzy(&self, key: &Vec<u8>, max_edit_distance: usize) -> (it: MatchIterator)
        requires
            self.wf(),
        ensures
            it.pos == 0,
            items_match_entries(
                it.items@,
                fuzzy_matches(self.entries(), key@, max_edit_distance as nat),
            ),
            forall|i: int|
                0 <= i < it.items@.len() ==> (#[trigger] it.items@[i]).score == max_edit_distance
                    - edit_distance(key@, it.items@[i].key@),
    {
        let ghost es = self.entries();
        let mut items = self.matches_at_distance(key, 0, max_edit_distance);
        proof {
            lemma_at_distance_sound(es, key@, 0);
        }
        let mut d: usize = 0;
        while d < max_edit_distance
            invariant
                d <= max_edit_distance,
                self.wf(),
                es == self.entries(),
                items_match_entries(items@, fuzzy_matches(es, key@, d as nat)),
                forall|i: int|
                    0 <= i < items@.len() ==> (#[trigger] items@[i]).score == max_edit_distance
                        - edit_distance(key@, items@[i].key@),
            decreases max_edit_distance - d,
    {
            d += 1;
            let mut bucket = self.matches_at_distance(key, d, max_edit_distance - d);
            proof {
                lemma_at_distance_sound(es, key@, d as nat);
            }
            let ghost prev_items = items@;
            let ghost prev_bucket = bucket@;
            items.append(&mut bucket);
            proof {
                let prev = fuzzy_matches(es, key@, (d - 1) as nat);
                let at_d = entries_at_distance(es, key@, d as nat);
                let whole = fuzzy_matches(es, key@, d as nat);
                assert(whole == prev + at_d);
                assert forall|i: int|
                    0 <= i < whole.len() implies (#[trigger] items@[i]).found && items@[i].key@
                    == whole[i].0 && items@[i].value@ == whole[i].1 && items@[i].score
                    == max_edit_distance - edit_distance(key@, items@[i].key@) by {
                    if i < prev.len() {
                        assert(items@[i] == prev_items[i]);
                        assert(whole[i] == prev[i]);
                    } else {
                        assert(items@[i] == prev_bucket[i - prev.len()]);
                        assert(whole[i] == at_d[i - prev.len()]);
                        assert(edit_distance(key@, at_d[i - prev.len()].0) == d);
                    }
                }
            }
        }
        MatchIterator::over(items)
    }
}

/// The decimal digits of `n`, as ASCII bytes, most significant first.
pub open spec fn dec_digits(n: nat) -> Seq<u8>
    decreases n,
{
    if n < 10 {
        seq![(48 + n) as u8]
    } else {
        dec_digits(n / 10).push((48 + n % 10) as u8)
    }
}

proof fn lemma_dec_digits_ascii(n: nat)
    ensures
        forall|i: int| 0 <= i < dec_digits(n).len() ==> 48 <= #[trigger] dec_digits(n)[i] <= 57,
    decreases n,
{
    if n >= 10 {
        lemma_dec_digits_ascii(n / 10);
        assert forall|i: int|
            0 <= i < dec_digits(n).len() implies 48 <= #[trigger] dec_digits(n)[i] <= 57 by {
            if i < dec_digits(n / 10).len() {
                assert(dec_digits(n)[i] == dec_digits(n / 10)[i]);
            }
        }
    }
}

/// The decimal digits of `x`, as ASCII bytes.
fn dec_bytes(x: usize) -> (r: Vec<u8>)
    ensures
        r@ == dec_digits(x as nat),
    decreases x,
{
    if x < 10 {
        let mut r: Vec<u8> = Vec::new();
        r.push(48 + x as u8);
        proof {
            assert(r@ =~= dec_digits(x as nat));
        }
        r
    } else {
        let mut r = dec_bytes(x / 10);
        r.push(48 + (x % 10) as u8);
        r
    }
}

/// The chars with the same code points as the given bytes.
pub open spec fn ascii_chars(b: Seq<u8>) -> Seq<char> {
    Seq::new(b.len(), |i: int| b[i] as char)
}

/// The statistics summary for an index of `n` entries.
pub open spec fn stats_chars(n: nat) -> Seq<char> {
    ascii_chars(seq![115u8, 105u8, 122u8, 101u8, 61u8] + dec_digits(n))
}

/// Relies on String::from_utf8: ASCII bytes are valid UTF-8 and decode to
/// the chars with the same code points.
#[verifier::external_body]
fn ascii_to_string(b: Vec<u8>) -> (s: String)
    requires
        forall|i: int| 0 <= i < b@.len() ==> b@[i] < 128,
    ensures
        s@ == ascii_chars(b@),
{
    String::from_utf8(b).unwrap_or_default()
}

impl Dictionary {
    /// A snapshot summary of the index: `size=` followed by the decimal
    /// entry count.  Never mutates the index.
    pub fn statistics(&self) -> (s: String)
        requires
            self.wf(),
        ensures
            s@ == stats_chars(self.entries().len()),
    {
        let mut b: Vec<u8> = Vec::new();
        b.push(115);
        b.push(105);
        b.push(122);
        b.push(101);
        b.push(61);
        let mut digits = dec_bytes(self.keys.len());
        b.append(&mut digits);
        proof {
            lemma_dec_digits_ascii(self.keys@.len());
            assert(b@ =~= seq![115u8, 105u8, 122u8, 101u8, 61u8] + dec_digits(self.keys@.len()));
        }
        ascii_to_string(b)
    }
}

/// Opening the serialized image of well-formed entries yields them all
/// back, and each key then finds exactly the value it was built with.
pub proof fn lemma_serialized_round_trip(es: Seq<(Seq<u8>, Seq<u8>)>)
    requires
        entries_wf(es),
    ensures
        parse_index(serialize_index(es)) == Option::Some(es),
        forall|i: int|
            0 <= i < es.len() ==> lookup(es, (#[trigger] es[i]).0) == Option::Some(es[i].1),
{
    lemma_parse_serialize_index(es);
    assert forall|i: int|
        0 <= i < es.len() implies lookup(es, (#[trigger] es[i]).0) == Option::Some(es[i].1) by {
        lemma_lookup_finds(es, i);
    }
}

/// Exact lookup is deterministic: any two matches that `get`'s contract
/// admits for the same entries and key agree in every observable field.
/// Queries take the dictionary by shared reference and never mutate it,
/// so concurrent readers see exactly the results of sequential calls.
pub proof fn lemma_get_deterministic(
    es: Seq<(Seq<u8>, Seq<u8>)>,
    k: Seq<u8>,
    m1: Match,
    m2: Match,
)
    requires
        m1.found <==> lookup(es, k) is Some,
        m1.found ==> m1.key@ == k && Option::Some(m1.value@) == lookup(es, k),
        !m1.found ==> m1.key@.len() == 0 && m1.value@.len() == 0,
        m1.score == 0,
        m2.found <==> lookup(es, k) is Some,
        m2.found ==> m2.key@ == k && Option::Some(m2.value@) == lookup(es, k),
        !m2.found ==> m2.key@.len() == 0 && m2.value@.len() == 0,
        m2.score == 0,
    ensures
        m1.found == m2.found,
        m1.key@ == m2.key@,
        m1.value@ == m2.value@,
        m1.score == m2.score,
{
    if !m1.found {
        assert(m1.key@ =~= m2.key@);
        assert(m1.value@ =~= m2.value@);
    }
}

/// Capping to a positive cutoff keeps at most that many entries and
/// changes none of those it keeps; the sentinel 0 keeps them all.
pub proof fn lemma_capped_bounds(es: Seq<(Seq<u8>, Seq<u8>)>, cutoff: nat)
    ensures
        cutoff > 0 ==> capped(es, cutoff).len() <= cutoff,
        cutoff == 0 ==> capped(es, cutoff) == es,
        forall|i: int|
            0 <= i < capped(es, cutoff).len() ==> #[trigger] capped(es, cutoff)[i] == es[i],
{
}

} // verus!
