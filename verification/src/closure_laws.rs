//! Groups as classes of linked items, and what follows for thresholds.
//!
//! Two items are linked where a chain of similar pairs leads from the one
//! to the other. Where the score of a pair does not depend on its order,
//! being linked is an equivalence, the groups of a clustering are the
//! classes that are large enough, and a higher threshold can only split
//! groups.

use vstd::prelude::*;
use crate::cluster::Build;
use crate::cluster::Progress;
use crate::cluster::Setting;
use crate::cluster::after_anchor;
use crate::cluster::build_ok;
use crate::cluster::closed_group;
use crate::cluster::gathered;
use crate::cluster::groups_of;
use crate::cluster::lemma_closed_ok;
use crate::cluster::lemma_distinct_below;
use crate::cluster::lemma_scanned_ok;
use crate::cluster::lemma_seeded_ok;
use crate::cluster::lemma_swept_ok;
use crate::cluster::progress;
use crate::cluster::scanned;
use crate::cluster::seeded;
use crate::cluster::swept;
use crate::cluster_laws::has_left;
use crate::cluster_laws::in_group;
use crate::cluster_laws::lemma_after_anchor_ok;
use crate::cluster_laws::lemma_progress_ok;
use crate::cluster_laws::progress_ok;

verus! {

/// Whether the score of a pair of items does not depend on its order.
pub open spec fn symmetric(c: Setting) -> bool {
    forall|a: int, b: int| 0 <= a < c.n && 0 <= b < c.n ==> c.score(a, b) == c.score(b, a)
}

/// Whether the item at place `t + 1` of a chain is similar to the one
/// before it.
pub open spec fn hop(c: Setting, path: Seq<usize>, t: int) -> bool {
    c.similar(path[t] as int, path[t + 1] as int)
}

/// Whether `path` is a chain: a run of items, each similar to the one
/// before it.
pub open spec fn is_chain(c: Setting, path: Seq<usize>) -> bool {
    &&& path.len() >= 1
    &&& forall|t: int| 0 <= t < path.len() ==> (#[trigger] path[t]) < c.n
    &&& forall|t: int| 0 <= t < path.len() - 1 ==> #[trigger] hop(c, path, t)
}

/// Whether `path` is a chain from `a` to `b`.
pub open spec fn chain_between(c: Setting, path: Seq<usize>, a: usize, b: usize) -> bool {
    is_chain(c, path) && path[0] == a && path.last() == b
}

/// Whether a chain of similar pairs leads from `a` to `b`.
pub open spec fn linked(c: Setting, a: usize, b: usize) -> bool {
    exists|path: Seq<usize>| chain_between(c, path, a, b)
}

/// The items to which a chain leads from `a`.
pub open spec fn class_of(c: Setting, a: usize) -> Set<usize> {
    Set::new(|k: usize| linked(c, a, k))
}

/// Whether with an item that has left the pool all items have left it to
/// which it is linked.
pub open spec fn pool_closed(c: Setting, processed: Seq<bool>) -> bool {
    forall|a: usize, b: usize|
        a < c.n && processed[a as int] && #[trigger] linked(c, a, b) ==> processed[b as int]
}

/// Every item is linked to itself.
pub proof fn lemma_linked_self(c: Setting, a: usize)
    requires
        a < c.n,
    ensures
        linked(c, a, a),
{
    assert(chain_between(c, seq![a], a, a));
}

/// A chain can be made longer by an item that is similar to its last.
pub proof fn lemma_linked_step(c: Setting, a: usize, m: usize, k: usize)
    requires
        linked(c, a, m),
        k < c.n,
        c.similar(m as int, k as int),
    ensures
        linked(c, a, k),
{
    let path = choose|path: Seq<usize>| chain_between(c, path, a, m);
    let longer = path.push(k);
    assert forall|t: int| 0 <= t < longer.len() - 1 implies #[trigger] hop(c, longer, t) by {
        if t < path.len() - 1 {
            assert(hop(c, path, t));
        }
    }
    assert(chain_between(c, longer, a, k));
}

/// Two chains, the second beginning where the first ends, make one.
pub proof fn lemma_linked_transitive(c: Setting, a: usize, b: usize, d: usize)
    requires
        linked(c, a, b),
        linked(c, b, d),
    ensures
        linked(c, a, d),
{
    let first = choose|path: Seq<usize>| chain_between(c, path, a, b);
    let second = choose|path: Seq<usize>| chain_between(c, path, b, d);
    let joined = first + second.drop_first();
    assert forall|t: int| 0 <= t < joined.len() - 1 implies #[trigger] hop(c, joined, t) by {
        if t < first.len() - 1 {
            assert(hop(c, first, t));
        } else {
            assert(hop(c, second, t - first.len() + 1));
        }
    }
    assert(chain_between(c, joined, a, d));
}

/// Where scores are symmetric, a chain can be walked backwards.
pub proof fn lemma_linked_symmetric(c: Setting, a: usize, b: usize)
    requires
        symmetric(c),
        linked(c, a, b),
    ensures
        linked(c, b, a),
{
    let path = choose|path: Seq<usize>| chain_between(c, path, a, b);
    let back = path.reverse();
    assert forall|t: int| 0 <= t < back.len() - 1 implies #[trigger] hop(c, back, t) by {
        let u = path.len() - 2 - t;
        assert(hop(c, path, u));
        assert(back[t] == path[u + 1]);
        assert(back[t + 1] == path[u]);
        assert(path[u] < c.n);
        assert(path[u + 1] < c.n);
    }
    assert(chain_between(c, back, b, a));
}

/// A chain under a threshold is a chain under every lower threshold.
pub proof fn lemma_linked_lower(c: Setting, d: Setting, a: usize, b: usize)
    requires
        c.n == d.n,
        c.source == d.source,
        d.threshold <= c.threshold,
        linked(c, a, b),
    ensures
        linked(d, a, b),
{
    let path = choose|path: Seq<usize>| chain_between(c, path, a, b);
    assert forall|t: int| 0 <= t < path.len() - 1 implies #[trigger] hop(d, path, t) by {
        assert(hop(c, path, t));
    }
    assert(chain_between(d, path, a, b));
}

/// Whether every member of a gathering is linked to item `i`.
pub open spec fn all_linked(c: Setting, i: usize, b: Build) -> bool {
    forall|t: int| 0 <= t < b.members.len() ==> linked(c, i, #[trigger] b.members[t])
}

/// Whether every item of the pool that is similar to member `m` is a
/// member.
pub open spec fn covers(c: Setting, processed: Seq<bool>, b: Build, m: usize, end: int) -> bool {
    forall|k: usize|
        k < end && !processed[k as int] && c.similar(m as int, k as int) ==> #[trigger] b.members.contains(
            k,
        )
}

/// Every item that seeding takes is linked to the anchor.
pub proof fn lemma_seeded_linked(c: Setting, processed: Seq<bool>, i: usize, end: int)
    requires
        processed.len() == c.n,
        i < c.n,
        end <= c.n,
    ensures
        all_linked(c, i, seeded(c, processed, i, end)),
    decreases end,
{
    lemma_linked_self(c, i);
    if end > i + 1 {
        lemma_seeded_linked(c, processed, i, end - 1);
        let b = seeded(c, processed, i, end - 1);
        let j = (end - 1) as usize;
        if !processed[end - 1] && c.similar(i as int, end - 1) {
            lemma_linked_step(c, i, i, j);
            let b2 = seeded(c, processed, i, end);
            assert forall|t: int| 0 <= t < b2.members.len() implies linked(
                c,
                i,
                #[trigger] b2.members[t],
            ) by {
                if t < b.members.len() {
                    assert(b2.members[t] == b.members[t]);
                }
            }
        }
    }
}

/// Holding a member against the items takes only items that are linked to
/// the anchor, and takes every item of the pool that is similar to the
/// member.
pub proof fn lemma_scanned_linked(
    c: Setting,
    processed: Seq<bool>,
    i: usize,
    b: Build,
    m: usize,
    end: int,
)
    requires
        processed.len() == c.n,
        build_ok(c, processed, b),
        all_linked(c, i, b),
        linked(c, i, m),
        end <= c.n,
    ensures
        all_linked(c, i, scanned(c, processed, b, m, end)),
        covers(c, processed, scanned(c, processed, b, m, end), m, end),
    decreases end,
{
    if end > 0 {
        lemma_scanned_linked(c, processed, i, b, m, end - 1);
        lemma_scanned_ok(c, processed, b, m, end - 1);
        let b1 = scanned(c, processed, b, m, end - 1);
        let b2 = scanned(c, processed, b, m, end);
        let k = (end - 1) as usize;
        if !processed[end - 1] && !b1.members.contains(k) && c.similar(m as int, end - 1) {
            lemma_linked_step(c, i, m, k);
            assert forall|t: int| 0 <= t < b2.members.len() implies linked(
                c,
                i,
                #[trigger] b2.members[t],
            ) by {
                if t < b1.members.len() {
                    assert(b2.members[t] == b1.members[t]);
                }
            }
            assert(b2.members[b1.members.len() as int] == k);
        }
        assert forall|x: usize|
            x < end && !processed[x as int] && c.similar(m as int, x as int) implies #[trigger] b2.members.contains(
            x,
        ) by {
            if x < end - 1 {
                assert(b1.members.contains(x));
                let t = choose|t: int| 0 <= t < b1.members.len() && b1.members[t] == x;
                assert(b2.members[t] == x);
            } else {
                if b1.members.contains(x) {
                    let t = choose|t: int| 0 <= t < b1.members.len() && b1.members[t] == x;
                    assert(b2.members[t] == x);
                } else {
                    assert(b2.members[b1.members.len() as int] == x);
                }
            }
        }
    }
}

/// Whether a member of the wider gathering is every member of the
/// narrower one.
pub proof fn lemma_prefix_contains(short: Seq<usize>, long: Seq<usize>, k: usize)
    requires
        short.is_prefix_of(long),
        short.contains(k),
    ensures
        long.contains(k),
{
    let t = choose|t: int| 0 <= t < short.len() && short[t] == k;
    assert(long[t] == k);
}

/// A sweep takes only items that are linked to the anchor, and takes
/// every item of the pool that is similar to one of the members it went
/// through.
pub proof fn lemma_swept_linked(
    c: Setting,
    processed: Seq<bool>,
    i: usize,
    current: Seq<usize>,
    b: Build,
    upto: int,
)
    requires
        processed.len() == c.n,
        build_ok(c, processed, b),
        all_linked(c, i, b),
        upto <= current.len(),
        forall|t: int| 0 <= t < current.len() ==> linked(c, i, #[trigger] current[t]),
    ensures
        all_linked(c, i, swept(c, processed, current, b, upto)),
        forall|t: int|
            0 <= t < upto ==> covers(
                c,
                processed,
                swept(c, processed, current, b, upto),
                #[trigger] current[t],
                c.n as int,
            ),
    decreases upto,
{
    if upto > 0 {
        lemma_swept_linked(c, processed, i, current, b, upto - 1);
        lemma_swept_ok(c, processed, current, b, upto - 1);
        let b1 = swept(c, processed, current, b, upto - 1);
        let m = current[upto - 1];
        lemma_scanned_linked(c, processed, i, b1, m, c.n as int);
        lemma_scanned_ok(c, processed, b1, m, c.n as int);
        let b2 = swept(c, processed, current, b, upto);
        assert forall|t: int| 0 <= t < upto implies covers(
            c,
            processed,
            b2,
            #[trigger] current[t],
            c.n as int,
        ) by {
            if t < upto - 1 {
                assert(covers(c, processed, b1, current[t], c.n as int));
                assert forall|k: usize|
                    k < c.n && !processed[k as int] && c.similar(
                        current[t] as int,
                        k as int,
                    ) implies #[trigger] b2.members.contains(k) by {
                    assert(b1.members.contains(k));
                    lemma_prefix_contains(b1.members, b2.members, k);
                }
            }
        }
    }
}

/// Whether every item of the pool that is similar to a member is a
/// member.
pub open spec fn closed_under_similar(c: Setting, processed: Seq<bool>, b: Build) -> bool {
    forall|t: int|
        0 <= t < b.members.len() ==> covers(c, processed, b, #[trigger] b.members[t], c.n as int)
}

/// What closing yields holds only items that are linked to the anchor,
/// and holds every item of the pool that is similar to one of its
/// members.
pub proof fn lemma_closed_linked(c: Setting, processed: Seq<bool>, i: usize, b: Build)
    requires
        processed.len() == c.n,
        build_ok(c, processed, b),
        all_linked(c, i, b),
    ensures
        all_linked(c, i, closed_group(c, processed, b)),
        closed_under_similar(c, processed, closed_group(c, processed, b)),
    decreases c.n - b.members.len(),
{
    let b2 = swept(c, processed, b.members, b, b.members.len() as int);
    lemma_swept_ok(c, processed, b.members, b, b.members.len() as int);
    lemma_swept_linked(c, processed, i, b.members, b, b.members.len() as int);
    lemma_distinct_below(b2.members, c.n as nat);
    if b.members.len() < b2.members.len() <= c.n {
        lemma_closed_linked(c, processed, i, b2);
    } else {
        assert(b2.members =~= b.members);
        assert forall|t: int| 0 <= t < b2.members.len() implies covers(
            c,
            processed,
            b2,
            #[trigger] b2.members[t],
            c.n as int,
        ) by {
            assert(b2.members[t] == b.members[t]);
        }
    }
}

/// Where scores are symmetric and the pool is closed, what is gathered
/// around an anchor is the class of the anchor.
pub proof fn lemma_gathered_is_class(c: Setting, processed: Seq<bool>, i: usize)
    requires
        symmetric(c),
        processed.len() == c.n,
        pool_closed(c, processed),
        i < c.n,
        !processed[i as int],
    ensures
        gathered(c, processed, i).members.to_set() == class_of(c, i),
        build_ok(c, processed, gathered(c, processed, i)),
        gathered(c, processed, i).members[0] == i,
{
    let s = seeded(c, processed, i, c.n as int);
    let b = gathered(c, processed, i);
    lemma_seeded_ok(c, processed, i, c.n as int);
    lemma_seeded_linked(c, processed, i, c.n as int);
    lemma_closed_ok(c, processed, s);
    lemma_closed_linked(c, processed, i, s);
    assert(b.members[0] == s.members[0]);
    assert forall|k: usize| class_of(c, i).contains(k) implies b.members.to_set().contains(k) by {
        let path = choose|path: Seq<usize>| chain_between(c, path, i, k);
        lemma_chain_inside(c, processed, i, b, path, path.len() - 1);
    }
    assert forall|k: usize| b.members.to_set().contains(k) implies class_of(c, i).contains(k) by {
        let t = choose|t: int| 0 <= t < b.members.len() && b.members[t] == k;
        assert(linked(c, i, b.members[t]));
    }
    assert(b.members.to_set() =~= class_of(c, i));
}

/// Every item of a chain from the anchor is a member of a gathering that
/// holds the anchor and is closed, where the pool is closed.
pub proof fn lemma_chain_inside(
    c: Setting,
    processed: Seq<bool>,
    i: usize,
    b: Build,
    path: Seq<usize>,
    upto: int,
)
    requires
        symmetric(c),
        processed.len() == c.n,
        pool_closed(c, processed),
        i < c.n,
        !processed[i as int],
        is_chain(c, path),
        path[0] == i,
        0 <= upto < path.len(),
        b.members.len() >= 1,
        b.members[0] == i,
        closed_under_similar(c, processed, b),
    ensures
        b.members.contains(path[upto]),
    decreases upto,
{
    if upto == 0 {
        assert(b.members[0] == path[0]);
    } else {
        lemma_chain_inside(c, processed, i, b, path, upto - 1);
        let m = path[upto - 1];
        let k = path[upto];
        let t = choose|t: int| 0 <= t < b.members.len() && b.members[t] == m;
        assert(covers(c, processed, b, b.members[t], c.n as int));
        assert(hop(c, path, upto - 1));
        assert(k < c.n);
        // The item is linked to the anchor, so it is in the pool as the
        // anchor is.
        let front = path.subrange(0, upto + 1);
        assert forall|u: int| 0 <= u < front.len() - 1 implies #[trigger] hop(c, front, u) by {
            assert(hop(c, path, u));
        }
        assert(chain_between(c, front, i, k));
        if processed[k as int] {
            lemma_linked_symmetric(c, i, k);
        }
        assert(b.members.contains(k));
    }
}

/// Whether item `k` is similar to the member at place `t` of the group
/// with number `g`.
pub open spec fn near_member(c: Setting, p: Progress, g: int, t: int, k: usize) -> bool {
    &&& 0 <= g < p.groups.len()
    &&& 0 <= t < p.groups[g].members.len()
    &&& k < c.n
    &&& c.similar(p.groups[g].members[t] as int, k as int)
}

/// Whether the member at place `t` of the group with number `g` is linked
/// to the first member of the group.
pub open spec fn member_linked(c: Setting, p: Progress, g: int, t: int) -> bool {
    linked(c, p.groups[g].members[0], p.groups[g].members[t])
}

/// Whether every group is closed: a chain of similar pairs leads from its
/// first member to each of its members, and every item that is similar
/// to one of its members is in the group or in a group made before it.
pub open spec fn groups_closed(c: Setting, p: Progress) -> bool {
    &&& forall|g: int, t: int|
        0 <= g < p.groups.len() && 0 <= t < p.groups[g].members.len() ==> #[trigger] member_linked(
            c,
            p,
            g,
            t,
        )
    &&& forall|g: int, t: int, k: usize| #[trigger]
        near_member(c, p, g, t, k) ==> exists|h: int| 0 <= h <= g && in_group(p, h, k)
}

/// Closed groups stay closed, and the next group is closed.
pub proof fn lemma_after_anchor_closed(c: Setting, min_size: nat, p: Progress, i: usize)
    requires
        i < c.n,
        progress_ok(c, min_size, p),
        groups_closed(c, p),
    ensures
        groups_closed(c, after_anchor(c, min_size, p, i)),
{
    let q = after_anchor(c, min_size, p, i);
    if !p.processed[i as int] {
        let s = seeded(c, p.processed, i, c.n as int);
        let b = gathered(c, p.processed, i);
        lemma_seeded_ok(c, p.processed, i, c.n as int);
        lemma_seeded_linked(c, p.processed, i, c.n as int);
        lemma_closed_ok(c, p.processed, s);
        lemma_closed_linked(c, p.processed, i, s);
        assert(b.members[0] == s.members[0]);
        if b.members.len() >= min_size {
            let last = p.groups.len() as int;
            assert(q.groups[last].members == b.members);
            assert forall|g: int, t: int|
                0 <= g < q.groups.len() && 0 <= t < q.groups[g].members.len() implies #[trigger] member_linked(
                c,
                q,
                g,
                t,
            ) by {
                if g < last {
                    assert(q.groups[g] == p.groups[g]);
                    assert(member_linked(c, p, g, t));
                } else {
                    assert(linked(c, i, b.members[t]));
                }
            }
            assert forall|g: int, t: int, k: usize| #[trigger]
                near_member(c, q, g, t, k) implies exists|h: int| 0 <= h <= g && in_group(q, h, k) by {
                if g < last {
                    assert(q.groups[g] == p.groups[g]);
                    assert(near_member(c, p, g, t, k));
                    let h = choose|h: int| 0 <= h <= g && in_group(p, h, k);
                    assert(q.groups[h] == p.groups[h]);
                    assert(in_group(q, h, k));
                } else {
                    if p.processed[k as int] {
                        assert(has_left(p, k));
                        let h = choose|h: int| in_group(p, h, k);
                        assert(q.groups[h] == p.groups[h]);
                        assert(in_group(q, h, k));
                    } else {
                        assert(covers(c, p.processed, b, b.members[t], c.n as int));
                        assert(b.members.contains(k));
                        assert(in_group(q, last, k));
                    }
                }
            }
        }
    }
}

/// The groups are closed at every stage of a clustering.
pub proof fn lemma_progress_closed(c: Setting, min_size: nat, upto: int)
    requires
        0 <= upto <= c.n,
    ensures
        groups_closed(c, progress(c, min_size, upto)),
    decreases upto,
{
    if upto > 0 {
        lemma_progress_closed(c, min_size, upto - 1);
        lemma_progress_ok(c, min_size, upto - 1);
        lemma_after_anchor_closed(
            c,
            min_size,
            progress(c, min_size, upto - 1),
            (upto - 1) as usize,
        );
    }
}

/// Closure: in every clustering a chain of similar pairs leads from the
/// first member of a group to each of its members, and every item that
/// is similar to a member of a group is in that group or in a group that
/// was made before it.
pub proof fn lemma_groups_closed(c: Setting, min_size: nat)
    ensures
        forall|g: int, t: int|
            0 <= g < groups_of(c, min_size).len() && 0 <= t < groups_of(c, min_size)[g].members.len()
                ==> linked(
                c,
                groups_of(c, min_size)[g].members[0],
                #[trigger] groups_of(c, min_size)[g].members[t],
            ),
        forall|g: int, t: int, k: usize|
            0 <= g < groups_of(c, min_size).len() && 0 <= t < groups_of(c, min_size)[g].members.len()
                && k < c.n && #[trigger] c.similar(
                groups_of(c, min_size)[g].members[t] as int,
                k as int,
            ) ==> exists|h: int|
                0 <= h <= g && #[trigger] groups_of(c, min_size)[h].members.contains(k),
{
    let p = progress(c, min_size, c.n as int);
    lemma_progress_closed(c, min_size, c.n as int);
    assert forall|g: int, t: int|
        0 <= g < groups_of(c, min_size).len() && 0 <= t < groups_of(c, min_size)[g].members.len() implies linked(
        c,
        groups_of(c, min_size)[g].members[0],
        #[trigger] groups_of(c, min_size)[g].members[t],
    ) by {
        assert(member_linked(c, p, g, t));
    }
    assert forall|g: int, t: int, k: usize|
        0 <= g < groups_of(c, min_size).len() && 0 <= t < groups_of(c, min_size)[g].members.len() && k
            < c.n && #[trigger] c.similar(
            groups_of(c, min_size)[g].members[t] as int,
            k as int,
        ) implies exists|h: int|
        0 <= h <= g && #[trigger] groups_of(c, min_size)[h].members.contains(k) by {
        assert(near_member(c, p, g, t, k));
        let h = choose|h: int| 0 <= h <= g && in_group(p, h, k);
        assert(groups_of(c, min_size)[h].members.contains(k));
    }
}

/// Whether the clustering has so far made groups of whole classes only:
/// the pool is closed, the members of every group are the class of its
/// first member, and every earlier item that is still in the pool has a
/// class of fewer than `min_size` items.
pub open spec fn classes_ok(c: Setting, min_size: nat, p: Progress, upto: int) -> bool {
    &&& progress_ok(c, min_size, p)
    &&& pool_closed(c, p.processed)
    &&& forall|g: int|
        0 <= g < p.groups.len() ==> (#[trigger] p.groups[g]).members.to_set() == class_of(
            c,
            p.groups[g].members[0],
        )
    &&& forall|i: usize| i < upto && !#[trigger] has_left(p, i) ==> small_class(c, min_size, i)
}

/// Whether fewer than `min_size` items are linked to item `i`.
pub open spec fn small_class(c: Setting, min_size: nat, i: usize) -> bool {
    exists|s: Seq<usize>| counts_class(c, s, i) && s.len() < min_size
}

/// Whether `s` holds the items that are linked to `i`, each once.
pub open spec fn counts_class(c: Setting, s: Seq<usize>, i: usize) -> bool {
    s.no_duplicates() && s.to_set() == class_of(c, i)
}

/// Where scores are symmetric, the clustering makes groups of whole
/// classes, anchor by anchor.
pub proof fn lemma_after_anchor_classes(c: Setting, min_size: nat, p: Progress, i: usize)
    requires
        symmetric(c),
        i < c.n,
        classes_ok(c, min_size, p, i as int),
    ensures
        classes_ok(c, min_size, after_anchor(c, min_size, p, i), i + 1),
{
    let q = after_anchor(c, min_size, p, i);
    lemma_after_anchor_ok(c, min_size, p, i);
    if !p.processed[i as int] {
        let b = gathered(c, p.processed, i);
        lemma_gathered_is_class(c, p.processed, i);
        if b.members.len() >= min_size {
            let last = p.groups.len() as int;
            assert forall|g: int| 0 <= g < q.groups.len() implies (#[trigger] q.groups[g]).members.to_set()
                == class_of(c, q.groups[g].members[0]) by {
                if g < last {
                    assert(q.groups[g] == p.groups[g]);
                }
            }
            assert forall|x: usize, y: usize|
                x < c.n && q.processed[x as int] && #[trigger] linked(c, x, y) implies q.processed[y as int] by {
                let path = choose|path: Seq<usize>| chain_between(c, path, x, y);
                assert(path[path.len() - 1] < c.n);
                if p.processed[x as int] {
                    assert(p.processed[y as int]);
                } else {
                    assert(b.members.contains(x));
                    assert(b.members.to_set().contains(x));
                    assert(linked(c, i, x));
                    lemma_linked_transitive(c, i, x, y);
                    assert(class_of(c, i).contains(y));
                    assert(b.members.to_set().contains(y));
                    assert(b.members.contains(y));
                }
            }
            assert forall|x: usize| x < i + 1 && !#[trigger] has_left(q, x) implies small_class(
                c,
                min_size,
                x,
            ) by {
                if x == i {
                    lemma_linked_self(c, i);
                    assert(class_of(c, i).contains(i));
                    assert(b.members.to_set().contains(i));
                    assert(b.members.contains(i));
                } else {
                    assert(!has_left(p, x));
                }
            }
        } else {
            assert forall|x: usize| x < i + 1 && !#[trigger] has_left(q, x) implies small_class(
                c,
                min_size,
                x,
            ) by {
                if x == i {
                    assert(counts_class(c, b.members, i));
                }
            }
        }
    } else {
        assert forall|x: usize| x < i + 1 && !#[trigger] has_left(q, x) implies small_class(
            c,
            min_size,
            x,
        ) by {
            assert(x != i);
        }
    }
}

/// Where scores are symmetric, the clustering has at every stage made
/// groups of whole classes only.
pub proof fn lemma_progress_classes(c: Setting, min_size: nat, upto: int)
    requires
        symmetric(c),
        0 <= upto <= c.n,
    ensures
        classes_ok(c, min_size, progress(c, min_size, upto), upto),
    decreases upto,
{
    lemma_progress_ok(c, min_size, upto);
    if upto > 0 {
        lemma_progress_classes(c, min_size, upto - 1);
        lemma_after_anchor_classes(
            c,
            min_size,
            progress(c, min_size, upto - 1),
            (upto - 1) as usize,
        );
    }
}

/// Where scores are symmetric, the groups are the classes of linked items
/// that have at least `min_size` items: the members of a group are the
/// items linked to its first member, and an item is in a group exactly
/// where its class is not small.
pub proof fn lemma_groups_are_classes(c: Setting, min_size: nat)
    requires
        symmetric(c),
    ensures
        forall|g: int, k: usize|
            0 <= g < groups_of(c, min_size).len() ==> (#[trigger] groups_of(
                c,
                min_size,
            )[g].members.contains(k) <==> linked(c, groups_of(c, min_size)[g].members[0], k)),
        forall|i: usize|
            i < c.n ==> (small_class(c, min_size, i) <==> !exists|g: int|
                0 <= g < groups_of(c, min_size).len() && #[trigger] groups_of(
                    c,
                    min_size,
                )[g].members.contains(i)),
{
    let p = progress(c, min_size, c.n as int);
    lemma_progress_classes(c, min_size, c.n as int);
    assert forall|g: int, k: usize| 0 <= g < groups_of(c, min_size).len() implies (
    #[trigger] groups_of(c, min_size)[g].members.contains(k) <==> linked(
        c,
        groups_of(c, min_size)[g].members[0],
        k,
    )) by {
        let members = p.groups[g].members;
        assert(members.to_set().contains(k) <==> class_of(c, members[0]).contains(k));
    }
    assert forall|i: usize| i < c.n implies (small_class(c, min_size, i) <==> !exists|g: int|
        0 <= g < groups_of(c, min_size).len() && #[trigger] groups_of(c, min_size)[g].members.contains(
            i,
        )) by {
        if has_left(p, i) {
            let g = choose|g: int| in_group(p, g, i);
            assert(groups_of(c, min_size)[g].members.contains(i));
            lemma_member_class_large(c, min_size, p, g, i);
        } else {
            if exists|g: int|
                0 <= g < groups_of(c, min_size).len() && #[trigger] groups_of(
                    c,
                    min_size,
                )[g].members.contains(i) {
                let g = choose|g: int|
                    0 <= g < groups_of(c, min_size).len() && #[trigger] groups_of(
                        c,
                        min_size,
                    )[g].members.contains(i);
                assert(in_group(p, g, i));
            }
        }
    }
}

/// The class of a member of a group is the set of the members, and so
/// not small.
pub proof fn lemma_member_class_large(c: Setting, min_size: nat, p: Progress, g: int, i: usize)
    requires
        symmetric(c),
        classes_ok(c, min_size, p, 0),
        in_group(p, g, i),
    ensures
        class_of(c, i) == p.groups[g].members.to_set(),
        !small_class(c, min_size, i),
{
    let members = p.groups[g].members;
    let a = members[0];
    assert(members.to_set().contains(i));
    assert(linked(c, a, i));
    lemma_linked_symmetric(c, a, i);
    assert forall|k: usize| class_of(c, i).contains(k) <==> members.to_set().contains(k) by {
        if linked(c, i, k) {
            lemma_linked_transitive(c, a, i, k);
            assert(class_of(c, a).contains(k));
        }
        if members.to_set().contains(k) {
            assert(class_of(c, a).contains(k));
            lemma_linked_transitive(c, i, a, k);
        }
    }
    assert(class_of(c, i) =~= members.to_set());
    members.unique_seq_to_set();
    if small_class(c, min_size, i) {
        let s = choose|s: Seq<usize>| counts_class(c, s, i) && s.len() < min_size;
        s.unique_seq_to_set();
    }
}

/// Monotonicity: where scores are symmetric, every group under a
/// threshold lies within one group under any lower threshold, so that
/// raising the threshold splits groups and lets none grow.
pub proof fn lemma_higher_threshold_splits(low: Setting, high: Setting, min_size: nat, g: int)
    requires
        symmetric(low),
        low.n == high.n,
        low.source == high.source,
        low.threshold <= high.threshold,
        0 <= g < groups_of(high, min_size).len(),
    ensures
        exists|h: int|
            0 <= h < groups_of(low, min_size).len() && within(
                groups_of(high, min_size)[g].members,
                #[trigger] groups_of(low, min_size)[h].members,
            ),
{
    assert(symmetric(high)) by {
        assert forall|a: int, b: int| 0 <= a < high.n && 0 <= b < high.n implies high.score(a, b)
            == high.score(b, a) by {
            assert(low.score(a, b) == low.score(b, a));
        }
    }
    let ph = progress(high, min_size, high.n as int);
    let pl = progress(low, min_size, low.n as int);
    lemma_progress_classes(high, min_size, high.n as int);
    lemma_progress_classes(low, min_size, low.n as int);
    let members = ph.groups[g].members;
    let a = members[0];
    assert(members.contains(a));
    assert(in_group(ph, g, a));
    lemma_member_class_large(high, min_size, ph, g, a);
    members.unique_seq_to_set();
    assert(class_of(high, a).subset_of(class_of(low, a))) by {
        assert forall|k: usize| class_of(high, a).contains(k) implies class_of(low, a).contains(k) by {
            lemma_linked_lower(high, low, a, k);
        }
    }
    if !has_left(pl, a) {
        let s = choose|s: Seq<usize>| counts_class(low, s, a) && s.len() < min_size;
        s.unique_seq_to_set();
        vstd::seq_lib::seq_to_set_is_finite(s);
        vstd::set_lib::lemma_len_subset(class_of(high, a), class_of(low, a));
        assert(false);
    }
    let h = choose|h: int| in_group(pl, h, a);
    lemma_member_class_large(low, min_size, pl, h, a);
    assert forall|k: usize| members.contains(k) implies pl.groups[h].members.contains(k) by {
        assert(members.to_set().contains(k));
        assert(class_of(low, a).contains(k));
        assert(pl.groups[h].members.to_set().contains(k));
    }
    assert(within(groups_of(high, min_size)[g].members, groups_of(low, min_size)[h].members));
}

/// Whether every item of `inner` is an item of `outer`.
pub open spec fn within(inner: Seq<usize>, outer: Seq<usize>) -> bool {
    forall|k: usize| inner.contains(k) ==> outer.contains(k)
}

} // verus!
