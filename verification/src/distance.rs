//! Levenshtein edit distance between byte strings, the metric of fuzzy
//! lookups.

use vstd::prelude::*;

verus! {

/// The least of three naturals.
pub open spec fn min3(a: nat, b: nat, c: nat) -> nat {
    if a <= b && a <= c {
        a
    } else if b <= c {
        b
    } else {
        c
    }
}

/// Levenshtein distance: the least number of single-byte insertions,
/// deletions and substitutions that turns `a` into `b`.
pub open spec fn edit_distance(a: Seq<u8>, b: Seq<u8>) -> nat
    decreases a.len() + b.len(),
{
    if a.len() == 0 {
        b.len()
    } else if b.len() == 0 {
        a.len()
    } else {
        let del = edit_distance(a.drop_last(), b) + 1;
        let ins = edit_distance(a, b.drop_last()) + 1;
        let sub = edit_distance(a.drop_last(), b.drop_last()) + if a.last() == b.last() {
            0nat
        } else {
            1nat
        };
        min3(del, ins, sub)
    }
}

/// The edit distance never exceeds the longer string's length.
pub proof fn lemma_edit_distance_le_max(a: Seq<u8>, b: Seq<u8>)
    ensures
        edit_distance(a, b) <= a.len() || edit_distance(a, b) <= b.len(),
        edit_distance(a, b) <= a.len() + b.len(),
    decreases a.len() + b.len(),
{
    if a.len() > 0 && b.len() > 0 {
        lemma_edit_distance_le_max(a.drop_last(), b.drop_last());
    }
}

/// The Levenshtein edit distance between `a` and `b`, computed row by
/// row over the prefixes of both strings.
pub fn distance(a: &Vec<u8>, b: &Vec<u8>) -> (d: usize)
    ensures
        d == edit_distance(a@, b@),
{
    let n = a.len();
    let m = b.len();
    // row[t] holds the distance between a's first i bytes and b's first
    // t bytes; the first row compares against the empty prefix of a.
    let mut row: Vec<usize> = Vec::new();
    row.push(0);
    let mut j: usize = 0;
    proof {
        assert(a@.take(0).len() == 0);
        assert(b@.take(0).len() == 0);
    }
    while j < m
        invariant
            j <= m,
            m == b@.len(),
            row@.len() == j + 1,
            forall|t: int| 0 <= t <= j ==> row@[t] == edit_distance(a@.take(0), b@.take(t)),
        decreases m - j,
    {
        j += 1;
        proof {
            assert(a@.take(0).len() == 0);
            assert(b@.take(j as int).len() == j);
        }
        row.push(j);
    }
    let mut i: usize = 0;
    while i < n
        invariant
            i <= n,
            n == a@.len(),
            m == b@.len(),
            row@.len() == m + 1,
            forall|t: int|
                0 <= t <= m ==> row@[t] == edit_distance(a@.take(i as int), b@.take(t)),
        decreases n - i,
    {
        let mut next_row: Vec<usize> = Vec::new();
        next_row.push(i + 1);
        proof {
            assert(b@.take(0).len() == 0);
            assert(a@.take(i + 1).len() == i + 1);
        }
        let mut j: usize = 0;
        while j < m
            invariant
                j <= m,
                i < n,
                n == a@.len(),
                m == b@.len(),
                row@.len() == m + 1,
                forall|t: int|
                    0 <= t <= m ==> row@[t] == edit_distance(a@.take(i as int), b@.take(t)),
                next_row@.len() == j + 1,
                forall|t: int|
                    0 <= t <= j ==> next_row@[t] == edit_distance(a@.take(i + 1), b@.take(t)),
            decreases m - j,
        {
            j += 1;
            let cost: usize = if a[i] == b[j - 1] {
                0
            } else {
                1
            };
            proof {
                assert(a@.take(i + 1).drop_last() =~= a@.take(i as int));
                assert(b@.take(j as int).drop_last() =~= b@.take(j - 1));
                assert(a@.take(i + 1).last() == a@[i as int]);
                assert(b@.take(j as int).last() == b@[j - 1]);
                lemma_edit_distance_le_max(a@.take(i as int), b@.take(j - 1));
            }
            let diagonal = row[j - 1] + cost;
            let deletion = row[j];
            let insertion = next_row[j - 1];
            let shorter = if deletion < insertion {
                deletion
            } else {
                insertion
            };
            let next = if shorter < diagonal {
                shorter + 1
            } else {
                diagonal
            };
            next_row.push(next);
        }
        row = next_row;
        i += 1;
    }
    proof {
        assert(a@.take(n as int) =~= a@);
        assert(b@.take(m as int) =~= b@);
    }
    row[m]
}

} // verus!
