//! The tokens of a name are its maximal runs of alphanumeric characters.

use vstd::prelude::*;
use crate::similarity::scan;
use crate::similarity::tokens_of;
use crate::text::is_alphanumeric_char;

verus! {

/// Whether the characters of `s` from `lo` up to `hi` are alphanumeric and
/// the character before them, if there is one, is not.
pub open spec fn is_run_start(s: Seq<char>, lo: int, hi: int) -> bool {
    &&& 0 <= lo <= hi <= s.len()
    &&& forall|i: int| lo <= i < hi ==> is_alphanumeric_char(#[trigger] s[i])
    &&& (lo == 0 || !is_alphanumeric_char(s[lo - 1]))
}

/// Whether the characters of `s` from `lo` up to `hi` are a maximal run
/// of alphanumeric characters: there is one at least, and neither the
/// character before them nor the one after them is alphanumeric.
pub open spec fn is_run(s: Seq<char>, lo: int, hi: int) -> bool {
    &&& lo < hi
    &&& is_run_start(s, lo, hi)
    &&& (hi == s.len() || !is_alphanumeric_char(s[hi]))
}

/// Whether `tokens` are the runs of `s` with the given bounds, one after
/// the other.
pub open spec fn runs_at(s: Seq<char>, tokens: Seq<Seq<char>>, bounds: Seq<(int, int)>) -> bool {
    &&& bounds.len() == tokens.len()
    &&& forall|k: int|
        0 <= k < bounds.len() ==> is_run(s, (#[trigger] bounds[k]).0, bounds[k].1) && tokens[k]
            == s.subrange(bounds[k].0, bounds[k].1)
    &&& forall|k: int, m: int|
        0 <= k < m < bounds.len() ==> (#[trigger] bounds[k]).1 < (#[trigger] bounds[m]).0
}

/// Whether place `i` of a string lies within one of the bounds.
pub open spec fn covered(bounds: Seq<(int, int)>, i: int) -> bool {
    exists|k: int| 0 <= k < bounds.len() && (#[trigger] bounds[k]).0 <= i < bounds[k].1
}

/// After the first `n` characters of a string are read, the tokens that
/// are complete are the maximal runs that have ended, and the open run is
/// what has been read of the next.
pub proof fn lemma_scan_runs(s: Seq<char>, n: int) -> (r: (Seq<(int, int)>, int))
    requires
        0 <= n <= s.len(),
    ensures
        runs_at(s, scan(s.subrange(0, n)).0, r.0),
        forall|k: int| 0 <= k < r.0.len() ==> (#[trigger] r.0[k]).1 < r.1,
        is_run_start(s, r.1, n),
        scan(s.subrange(0, n)).1 == s.subrange(r.1, n),
        forall|i: int|
            0 <= i < n && is_alphanumeric_char(s[i]) ==> r.1 <= i || #[trigger] covered(r.0, i),
    decreases n,
{
    let prefix = s.subrange(0, n);
    if n == 0 {
        assert(scan(prefix).1 =~= s.subrange(0, 0));
        (Seq::empty(), 0)
    } else {
        let (bounds, start) = lemma_scan_runs(s, n - 1);
        assert(prefix.drop_last() =~= s.subrange(0, n - 1));
        assert(prefix.last() == s[n - 1]);
        let (done, run) = scan(s.subrange(0, n - 1));
        if is_alphanumeric_char(s[n - 1]) {
            assert(s.subrange(start, n) =~= s.subrange(start, n - 1).push(s[n - 1]));
            (bounds, start)
        } else if run.len() > 0 {
            let grown = bounds.push((start, n - 1));
            assert(is_run(s, start, n - 1));
            assert forall|k: int| 0 <= k < grown.len() implies is_run(
                s,
                (#[trigger] grown[k]).0,
                grown[k].1,
            ) && scan(prefix).0[k] == s.subrange(grown[k].0, grown[k].1) by {
                if k < bounds.len() {
                    assert(grown[k] == bounds[k]);
                }
            }
            assert forall|k: int, m: int| 0 <= k < m < grown.len() implies (#[trigger] grown[k]).1
                < (#[trigger] grown[m]).0 by {
                assert(grown[k] == bounds[k]);
                if m < bounds.len() {
                    assert(grown[m] == bounds[m]);
                }
            }
            assert forall|i: int| 0 <= i < n && is_alphanumeric_char(s[i]) implies n <= i
                || #[trigger] covered(grown, i) by {
                if start <= i {
                    assert(grown[bounds.len() as int].0 <= i < grown[bounds.len() as int].1);
                } else {
                    assert(covered(bounds, i));
                    let k = choose|k: int|
                        0 <= k < bounds.len() && (#[trigger] bounds[k]).0 <= i < bounds[k].1;
                    assert(grown[k] == bounds[k]);
                }
            }
            assert(scan(prefix).1 =~= s.subrange(n, n));
            (grown, n)
        } else {
            assert(start == n - 1);
            assert(scan(prefix).1 =~= s.subrange(n, n));
            (bounds, n)
        }
    }
}

/// The tokens of a string are its maximal runs of alphanumeric
/// characters, in order: each token is such a run, the runs follow one
/// another, and every alphanumeric character lies in one of them.
pub proof fn lemma_tokens_are_runs(s: Seq<char>) -> (bounds: Seq<(int, int)>)
    ensures
        runs_at(s, tokens_of(s), bounds),
        forall|i: int| 0 <= i < s.len() && is_alphanumeric_char(s[i]) ==> #[trigger] covered(bounds, i),
{
    let n = s.len() as int;
    let (ended, start) = lemma_scan_runs(s, n);
    assert(s.subrange(0, n) =~= s);
    if start < n {
        let bounds = ended.push((start, n));
        assert forall|k: int| 0 <= k < bounds.len() implies is_run(
            s,
            (#[trigger] bounds[k]).0,
            bounds[k].1,
        ) && tokens_of(s)[k] == s.subrange(bounds[k].0, bounds[k].1) by {
            if k < ended.len() {
                assert(bounds[k] == ended[k]);
            }
        }
        assert forall|k: int, m: int| 0 <= k < m < bounds.len() implies (#[trigger] bounds[k]).1 < (
        #[trigger] bounds[m]).0 by {
            assert(bounds[k] == ended[k]);
            if m < ended.len() {
                assert(bounds[m] == ended[m]);
            }
        }
        assert forall|i: int| 0 <= i < s.len() && is_alphanumeric_char(s[i]) implies #[trigger] covered(
            bounds,
            i,
        ) by {
            if start <= i {
                assert(bounds[ended.len() as int].0 <= i < bounds[ended.len() as int].1);
            } else {
                assert(covered(ended, i));
                let k = choose|k: int|
                    0 <= k < ended.len() && (#[trigger] ended[k]).0 <= i < ended[k].1;
                assert(bounds[k] == ended[k]);
            }
        }
        bounds
    } else {
        ended
    }
}

} // verus!
