//! What holds of every clustering.

use vstd::prelude::*;
use crate::cluster::GroupModel;
use crate::cluster::Progress;
use crate::cluster::Setting;
use crate::cluster::after_anchor;
use crate::cluster::build_ok;
use crate::cluster::gathered;
use crate::cluster::groups_of;
use crate::cluster::leftover_of;
use crate::cluster::lemma_closed_ok;
use crate::cluster::lemma_seeded_ok;
use crate::cluster::marked;
use crate::cluster::progress;
use crate::cluster::seeded;
use crate::cluster::unprocessed;

verus! {

/// Whether item `k` is a member of the group with number `g`.
pub open spec fn in_group(p: Progress, g: int, k: usize) -> bool {
    0 <= g < p.groups.len() && p.groups[g].members.contains(k)
}

/// Whether item `k` has left the pool.
pub open spec fn has_left(p: Progress, k: usize) -> bool {
    p.processed[k as int]
}

/// Whether a clustering in progress is sound: every group has distinct
/// members and is large enough, the members of the groups are the items
/// that have left the pool, and no item is in two groups.
pub open spec fn progress_ok(c: Setting, min_size: nat, p: Progress) -> bool {
    &&& p.processed.len() == c.n
    &&& forall|g: int|
        0 <= g < p.groups.len() ==> (#[trigger] p.groups[g]).members.no_duplicates()
            && p.groups[g].members.len() >= min_size && p.groups[g].members.len() >= 1
    &&& forall|g: int, k: usize| #[trigger] in_group(p, g, k) ==> k < c.n && has_left(p, k)
    &&& forall|k: usize| k < c.n && #[trigger] has_left(p, k) ==> exists|g: int| in_group(p, g, k)
    &&& forall|g: int, h: int, k: usize|
        #[trigger] in_group(p, g, k) && #[trigger] in_group(p, h, k) ==> g == h
}

/// A sound clustering stays sound when the next item has its turn as
/// anchor.
pub proof fn lemma_after_anchor_ok(c: Setting, min_size: nat, p: Progress, i: usize)
    requires
        progress_ok(c, min_size, p),
        i < c.n,
    ensures
        progress_ok(c, min_size, after_anchor(c, min_size, p, i)),
{
    if !p.processed[i as int] {
        let b = gathered(c, p.processed, i);
        lemma_seeded_ok(c, p.processed, i, c.n as int);
        lemma_closed_ok(c, p.processed, seeded(c, p.processed, i, c.n as int));
        assert(build_ok(c, p.processed, b));
        if b.members.len() >= min_size {
            let q = after_anchor(c, min_size, p, i);
            let last = p.groups.len() as int;
            assert(q.groups[last].members == b.members);
            assert forall|g: int| 0 <= g < q.groups.len() implies (#[trigger] q.groups[g]).members.no_duplicates()
                && q.groups[g].members.len() >= min_size && q.groups[g].members.len() >= 1 by {
                if g < last {
                    assert(q.groups[g] == p.groups[g]);
                }
            }
            assert forall|g: int, k: usize| #[trigger] in_group(q, g, k) implies k < c.n
                && has_left(q, k) by {
                if g < last {
                    assert(q.groups[g] == p.groups[g]);
                    assert(in_group(p, g, k));
                } else {
                    let t = choose|t: int| 0 <= t < b.members.len() && b.members[t] == k;
                    assert(b.members[t] < c.n);
                }
            }
            assert forall|k: usize| k < c.n && #[trigger] has_left(q, k) implies exists|g: int|
                in_group(q, g, k) by {
                if has_left(p, k) {
                    let g = choose|g: int| in_group(p, g, k);
                    assert(q.groups[g] == p.groups[g]);
                    assert(in_group(q, g, k));
                } else {
                    assert(in_group(q, last, k));
                }
            }
            assert forall|g: int, h: int, k: usize| #[trigger]
                in_group(q, g, k) && #[trigger] in_group(q, h, k) implies g == h by {
                if g < last {
                    assert(q.groups[g] == p.groups[g]);
                    assert(in_group(p, g, k));
                }
                if h < last {
                    assert(q.groups[h] == p.groups[h]);
                    assert(in_group(p, h, k));
                }
                if (g < last) != (h < last) {
                    let t = choose|t: int| 0 <= t < b.members.len() && b.members[t] == k;
                    assert(!p.processed[b.members[t] as int]);
                }
            }
        }
    }
}

/// A clustering is sound at every stage.
pub proof fn lemma_progress_ok(c: Setting, min_size: nat, upto: int)
    requires
        upto <= c.n,
    ensures
        progress_ok(c, min_size, progress(c, min_size, upto)),
    decreases upto,
{
    if upto > 0 {
        lemma_progress_ok(c, min_size, upto - 1);
        lemma_after_anchor_ok(c, min_size, progress(c, min_size, upto - 1), (upto - 1) as usize);
    }
}

/// The items left in the pool are those below `upto` that are in no
/// group, each once, in rising order.
pub proof fn lemma_unprocessed(processed: Seq<bool>, upto: int)
    requires
        upto <= processed.len(),
        upto <= usize::MAX,
    ensures
        forall|k: usize|
            unprocessed(processed, upto).contains(k) <==> k < upto && !processed[k as int],
        forall|t: int, u: int|
            0 <= t < u < unprocessed(processed, upto).len() ==> unprocessed(processed, upto)[t]
                < unprocessed(processed, upto)[u],
        forall|t: int|
            0 <= t < unprocessed(processed, upto).len() ==> (#[trigger] unprocessed(
                processed,
                upto,
            )[t]) < upto,
    decreases upto,
{
    if upto > 0 {
        lemma_unprocessed(processed, upto - 1);
        let before = unprocessed(processed, upto - 1);
        let now = unprocessed(processed, upto);
        let last = (upto - 1) as usize;
        if !processed[upto - 1] {
            assert(now == before.push(last));
            assert forall|k: usize| now.contains(k) <==> k < upto && !processed[k as int] by {
                if now.contains(k) {
                    let t = choose|t: int| 0 <= t < now.len() && now[t] == k;
                    if t < before.len() {
                        assert(before[t] == k);
                        assert(before.contains(k));
                    }
                }
                if k < upto && !processed[k as int] {
                    if k == last {
                        assert(now[before.len() as int] == k);
                    } else {
                        assert(before.contains(k));
                        let t = choose|t: int| 0 <= t < before.len() && before[t] == k;
                        assert(now[t] == k);
                    }
                }
            }
        } else {
            assert(now == before);
        }
    } else {
        assert(unprocessed(processed, upto) =~= Seq::<usize>::empty());
    }
}

/// How many of the first `upto` items have left the pool.
pub open spec fn gone(processed: Seq<bool>, upto: int) -> nat
    decreases upto,
{
    if upto <= 0 {
        0
    } else if processed[upto - 1] {
        gone(processed, upto - 1) + 1
    } else {
        gone(processed, upto - 1)
    }
}

/// How many members the first `upto` groups have together.
pub open spec fn members_total(groups: Seq<GroupModel>, upto: int) -> nat
    decreases upto,
{
    if upto <= 0 {
        0
    } else {
        members_total(groups, upto - 1) + groups[upto - 1].members.len()
    }
}

/// Of the first `upto` items, those in the pool and those that have left
/// it are `upto` together.
pub proof fn lemma_gone_or_left(processed: Seq<bool>, upto: int)
    requires
        0 <= upto <= processed.len(),
    ensures
        unprocessed(processed, upto).len() + gone(processed, upto) == upto,
    decreases upto,
{
    if upto > 0 {
        lemma_gone_or_left(processed, upto - 1);
    }
}

/// When one item leaves the pool, one more has left it.
pub proof fn lemma_gone_one_more(processed: Seq<bool>, k: int, upto: int)
    requires
        0 <= k < processed.len(),
        0 <= upto <= processed.len(),
        !processed[k],
    ensures
        gone(processed.update(k, true), upto) == gone(processed, upto) + (if k < upto {
            1nat
        } else {
            0nat
        }),
    decreases upto,
{
    if upto > 0 {
        lemma_gone_one_more(processed, k, upto - 1);
    }
}

/// When distinct items of the pool leave it, as many more have left it.
pub proof fn lemma_gone_marked(processed: Seq<bool>, members: Seq<usize>)
    requires
        processed.len() <= usize::MAX,
        members.no_duplicates(),
        forall|t: int|
            0 <= t < members.len() ==> (#[trigger] members[t]) < processed.len()
                && !processed[members[t] as int],
    ensures
        gone(marked(processed, members), processed.len() as int) == gone(
            processed,
            processed.len() as int,
        ) + members.len(),
    decreases members.len(),
{
    let n = processed.len() as int;
    if members.len() == 0 {
        assert(marked(processed, members) =~= processed);
    } else {
        let rest = members.drop_last();
        let k = members.last();
        lemma_gone_marked(processed, rest);
        let before = marked(processed, rest);
        assert(!rest.contains(k)) by {
            if rest.contains(k) {
                let t = choose|t: int| 0 <= t < rest.len() && rest[t] == k;
                assert(members[t] == members[members.len() - 1]);
            }
        }
        assert(!before[k as int]);
        assert(marked(processed, members) =~= before.update(k as int, true)) by {
            assert forall|x: int| 0 <= x < n implies marked(processed, members)[x] == before.update(
                k as int,
                true,
            )[x] by {
                if members.contains(x as usize) && x != k {
                    let t = choose|t: int| 0 <= t < members.len() && members[t] == x as usize;
                    assert(rest[t] == x as usize);
                }
                if rest.contains(x as usize) {
                    let t = choose|t: int| 0 <= t < rest.len() && rest[t] == x as usize;
                    assert(members[t] == x as usize);
                }
                if x == k {
                    assert(members[members.len() - 1] == k);
                }
            }
        }
        lemma_gone_one_more(before, k as int, n);
    }
}

/// At every stage of a clustering as many items have left the pool as the
/// groups have members.
pub proof fn lemma_progress_counts(c: Setting, min_size: nat, upto: int)
    requires
        0 <= upto <= c.n,
    ensures
        gone(progress(c, min_size, upto).processed, c.n as int) == members_total(
            progress(c, min_size, upto).groups,
            progress(c, min_size, upto).groups.len() as int,
        ),
    decreases upto,
{
    if upto > 0 {
        lemma_progress_counts(c, min_size, upto - 1);
        lemma_progress_ok(c, min_size, upto - 1);
        let p = progress(c, min_size, upto - 1);
        let i = (upto - 1) as usize;
        let q = progress(c, min_size, upto);
        if !p.processed[i as int] {
            let b = gathered(c, p.processed, i);
            lemma_seeded_ok(c, p.processed, i, c.n as int);
            lemma_closed_ok(c, p.processed, seeded(c, p.processed, i, c.n as int));
            if b.members.len() >= min_size {
                lemma_gone_marked(p.processed, b.members);
                lemma_members_total_prefix(p.groups, q.groups, p.groups.len() as int);
            }
        }
    } else {
        lemma_none_gone(progress(c, min_size, 0).processed, c.n as int);
    }
}

/// Of items that are all in the pool none has left it.
pub proof fn lemma_none_gone(processed: Seq<bool>, upto: int)
    requires
        0 <= upto <= processed.len(),
        forall|k: int| 0 <= k < processed.len() ==> !processed[k],
    ensures
        gone(processed, upto) == 0,
    decreases upto,
{
    if upto > 0 {
        lemma_none_gone(processed, upto - 1);
    }
}

/// The members of the first groups are counted alike in a longer list of
/// groups.
pub proof fn lemma_members_total_prefix(short: Seq<GroupModel>, long: Seq<GroupModel>, upto: int)
    requires
        short.is_prefix_of(long),
        upto <= short.len(),
    ensures
        members_total(short, upto) == members_total(long, upto),
    decreases upto,
{
    if upto > 0 {
        lemma_members_total_prefix(short, long, upto - 1);
    }
}

/// The count of the partition: the members of all groups and the items
/// of the leftover are as many as the items.
pub proof fn lemma_partition_counts(c: Setting, min_size: nat)
    ensures
        members_total(groups_of(c, min_size), groups_of(c, min_size).len() as int) + leftover_of(
            c,
            min_size,
        ).len() == c.n,
{
    lemma_progress_counts(c, min_size, c.n as int);
    lemma_progress_ok(c, min_size, c.n as int);
    lemma_gone_or_left(progress(c, min_size, c.n as int).processed, c.n as int);
}

/// The partition: every item is in exactly one group or in the leftover,
/// never in both and never in two groups. The members of a group are
/// distinct, at least `min_size` in number and never none; the leftover
/// holds its items once each, in input order.
pub proof fn lemma_partition(c: Setting, min_size: nat)
    ensures
        forall|k: usize|
            k < c.n ==> (leftover_of(c, min_size).contains(k) != exists|g: int|
                0 <= g < groups_of(c, min_size).len() && #[trigger] groups_of(
                    c,
                    min_size,
                )[g].members.contains(k)),
        forall|g: int, h: int, k: usize|
            0 <= g < groups_of(c, min_size).len() && 0 <= h < groups_of(c, min_size).len()
                && #[trigger] groups_of(c, min_size)[g].members.contains(k) && #[trigger] groups_of(
                c,
                min_size,
            )[h].members.contains(k) ==> g == h,
        forall|g: int|
            0 <= g < groups_of(c, min_size).len() ==> (#[trigger] groups_of(
                c,
                min_size,
            )[g]).members.no_duplicates() && groups_of(c, min_size)[g].members.len() >= min_size
                && groups_of(c, min_size)[g].members.len() >= 1,
        forall|g: int, k: usize|
            0 <= g < groups_of(c, min_size).len() && #[trigger] groups_of(
                c,
                min_size,
            )[g].members.contains(k) ==> k < c.n,
        forall|k: usize| leftover_of(c, min_size).contains(k) ==> k < c.n,
        forall|t: int, u: int|
            0 <= t < u < leftover_of(c, min_size).len() ==> leftover_of(c, min_size)[t]
                < leftover_of(c, min_size)[u],
{
    let p = progress(c, min_size, c.n as int);
    lemma_progress_ok(c, min_size, c.n as int);
    lemma_unprocessed(p.processed, c.n as int);
    assert forall|k: usize| k < c.n implies (leftover_of(c, min_size).contains(k) != exists|g: int|
        0 <= g < groups_of(c, min_size).len() && #[trigger] groups_of(c, min_size)[g].members.contains(
            k,
        )) by {
        if has_left(p, k) {
            let g = choose|g: int| in_group(p, g, k);
            assert(groups_of(c, min_size)[g].members.contains(k));
        } else {
            if exists|g: int|
                0 <= g < groups_of(c, min_size).len() && #[trigger] groups_of(
                    c,
                    min_size,
                )[g].members.contains(k) {
                let g = choose|g: int|
                    0 <= g < groups_of(c, min_size).len() && #[trigger] groups_of(
                        c,
                        min_size,
                    )[g].members.contains(k);
                assert(in_group(p, g, k));
            }
        }
    }
    assert forall|g: int, h: int, k: usize|
        0 <= g < groups_of(c, min_size).len() && 0 <= h < groups_of(c, min_size).len()
            && #[trigger] groups_of(c, min_size)[g].members.contains(k) && #[trigger] groups_of(
            c,
            min_size,
        )[h].members.contains(k) implies g == h by {
        assert(in_group(p, g, k));
        assert(in_group(p, h, k));
    }
    assert forall|g: int, k: usize|
        0 <= g < groups_of(c, min_size).len() && #[trigger] groups_of(c, min_size)[g].members.contains(
            k,
        ) implies k < c.n by {
        assert(in_group(p, g, k));
    }
}

} // verus!
