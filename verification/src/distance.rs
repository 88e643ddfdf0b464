//! The Levenshtein distance between two sequences of characters.

use vstd::prelude::*;

verus! {

/// The least of three numbers.
pub open spec fn least3(a: nat, b: nat, c: nat) -> nat {
    if a <= b && a <= c {
        a
    } else if b <= c {
        b
    } else {
        c
    }
}

/// What replacing the last character of one string by that of the other
/// costs: nothing where they agree.
pub open spec fn replace_cost(x: char, y: char) -> nat {
    if x == y {
        0
    } else {
        1
    }
}

/// The Levenshtein distance: the least number of insertions, deletions and
/// replacements of single characters that turn `a` into `b`.
pub open spec fn edit_distance(a: Seq<char>, b: Seq<char>) -> nat
    decreases a.len() + b.len(),
{
    if a.len() == 0 {
        b.len()
    } else if b.len() == 0 {
        a.len()
    } else {
        least3(
            edit_distance(a.drop_last(), b) + 1,
            edit_distance(a, b.drop_last()) + 1,
            edit_distance(a.drop_last(), b.drop_last()) + replace_cost(a.last(), b.last()),
        )
    }
}

/// The longer of two lengths.
pub open spec fn longer(a: nat, b: nat) -> nat {
    if a >= b {
        a
    } else {
        b
    }
}

/// The distance does not depend on the direction.
pub proof fn lemma_edit_distance_symmetric(a: Seq<char>, b: Seq<char>)
    ensures
        edit_distance(a, b) == edit_distance(b, a),
    decreases a.len() + b.len(),
{
    if a.len() > 0 && b.len() > 0 {
        lemma_edit_distance_symmetric(a.drop_last(), b);
        lemma_edit_distance_symmetric(a, b.drop_last());
        lemma_edit_distance_symmetric(a.drop_last(), b.drop_last());
    }
}

/// A string is at distance zero from itself.
pub proof fn lemma_edit_distance_same(a: Seq<char>)
    ensures
        edit_distance(a, a) == 0,
    decreases a.len(),
{
    if a.len() > 0 {
        lemma_edit_distance_same(a.drop_last());
    }
}

/// The distance is at most the length of the longer string.
pub proof fn lemma_edit_distance_bounded(a: Seq<char>, b: Seq<char>)
    ensures
        edit_distance(a, b) <= longer(a.len(), b.len()),
    decreases a.len() + b.len(),
{
    if a.len() > 0 && b.len() > 0 {
        lemma_edit_distance_bounded(a.drop_last(), b.drop_last());
    }
}

/// The Levenshtein distance between `a` and `b`, by dynamic programming
/// over the prefixes of both.
pub fn edit_distance_of(a: &Vec<char>, b: &Vec<char>) -> (d: usize)
    ensures
        d == edit_distance(a@, b@),
{
    let la = a.len();
    let lb = b.len();
    let mut prev: Vec<usize> = Vec::new();
    let mut i: usize = 0;
    while i < la
        invariant
            i <= la,
            prev.len() == i,
            forall|k: int| 0 <= k < i ==> prev[k] == k,
        decreases la - i,
    {
        prev.push(i);
        i = i + 1;
    }
    prev.push(la);
    assert(b@.subrange(0, 0) =~= Seq::<char>::empty());
    assert forall|k: int| 0 <= k <= la implies prev[k] == edit_distance(
        a@.subrange(0, k),
        b@.subrange(0, 0),
    ) by {
        assert(a@.subrange(0, k).len() == k);
    }
    let mut j: usize = 0;
    while j < lb
        invariant
            j <= lb,
            la == a.len(),
            lb == b.len(),
            prev.len() == la + 1,
            forall|k: int|
                0 <= k <= la ==> prev[k] == edit_distance(
                    a@.subrange(0, k),
                    b@.subrange(0, j as int),
                ),
        decreases lb - j,
    {
        let ghost bj = b@.subrange(0, j as int);
        let ghost bn = b@.subrange(0, j + 1);
        assert(bn.drop_last() =~= bj);
        let mut cur: Vec<usize> = Vec::new();
        cur.push(j + 1);
        assert(a@.subrange(0, 0) =~= Seq::<char>::empty());
        let mut i: usize = 0;
        while i < la
            invariant
                i <= la,
                j < lb,
                la == a.len(),
                lb == b.len(),
                prev.len() == la + 1,
                cur.len() == i + 1,
                bj == b@.subrange(0, j as int),
                bn == b@.subrange(0, j + 1),
                bn.drop_last() == bj,
                forall|k: int| 0 <= k <= la ==> prev[k] == edit_distance(a@.subrange(0, k), bj),
                forall|k: int| 0 <= k <= i ==> cur[k] == edit_distance(a@.subrange(0, k), bn),
            decreases la - i,
        {
            let ghost ai = a@.subrange(0, i as int);
            let ghost an = a@.subrange(0, i + 1);
            proof {
                assert(an.drop_last() =~= ai);
                lemma_edit_distance_bounded(ai, bn);
                lemma_edit_distance_bounded(an, bj);
                lemma_edit_distance_bounded(ai, bj);
            }
            let insert: u128 = cur[i] as u128 + 1;
            let delete: u128 = prev[i + 1] as u128 + 1;
            let replace: u128 = if a[i] == b[j] {
                prev[i] as u128
            } else {
                prev[i] as u128 + 1
            };
            let best: u128 = if insert <= delete && insert <= replace {
                insert
            } else if delete <= replace {
                delete
            } else {
                replace
            };
            proof {
                lemma_edit_distance_bounded(an, bn);
                assert(best == edit_distance(an, bn));
            }
            cur.push(best as usize);
            i = i + 1;
        }
        prev = cur;
        j = j + 1;
    }
    assert(a@.subrange(0, la as int) =~= a@);
    assert(b@.subrange(0, lb as int) =~= b@);
    prev[la]
}

} // verus!
