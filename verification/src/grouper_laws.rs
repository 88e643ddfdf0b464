//! What holds of every grouping of names.

use vstd::prelude::*;
use crate::cli::Algorithm;
use crate::closure_laws::lemma_higher_threshold_splits;
use crate::closure_laws::symmetric;
use crate::closure_laws::within;
use crate::cluster::GroupModel;
use crate::cluster::groups_of;
use crate::cluster_laws::lemma_partition_counts;
use crate::cluster_laws::members_total;
use crate::grouper::GroupView;
use crate::grouper::GroupingView;
use crate::grouper::grouping;
use crate::grouper::member_names;
use crate::grouper::name_setting;
use crate::grouper::rank_from;
use crate::grouper::ranked;
use crate::metric_laws::lemma_similarity_symmetric;

verus! {

/// The group with number `t`, counted from zero in the order in which the
/// groups were made, with its names.
pub open spec fn named_group(names: Seq<Seq<char>>, groups: Seq<GroupModel>, t: int) -> GroupView {
    GroupView {
        id: (t + 1) as nat,
        files: member_names(names, groups[t].members),
        similarity: groups[t].similarity,
    }
}

/// Whether the groups come by falling similarity, and among groups of one
/// similarity by rising number.
pub open spec fn falling(r: Seq<GroupView>) -> bool {
    forall|a: int, b: int|
        0 <= a < b < r.len() ==> r[a].similarity > r[b].similarity || (r[a].similarity
            == r[b].similarity && r[a].id < r[b].id)
}

/// The place of a group stands after every group of at least its
/// similarity that the search went through.
pub proof fn lemma_rank_from(r: Seq<GroupView>, similarity: nat, from: int)
    requires
        0 <= from <= r.len(),
    ensures
        from <= rank_from(r, similarity, from) <= r.len(),
        forall|k: int| from <= k < rank_from(r, similarity, from) ==> r[k].similarity >= similarity,
        rank_from(r, similarity, from) < r.len() ==> r[rank_from(r, similarity, from)].similarity
            < similarity,
    decreases r.len() - from,
{
    if from < r.len() && r[from].similarity >= similarity {
        lemma_rank_from(r, similarity, from + 1);
    }
}

/// The ranked groups are the groups that were made, each once with its
/// number and names, by falling similarity and among groups of one
/// similarity in the order in which they were made.
pub proof fn lemma_ranked(names: Seq<Seq<char>>, groups: Seq<GroupModel>, upto: int)
    requires
        0 <= upto <= groups.len(),
    ensures
        ranked(names, groups, upto).len() == upto,
        falling(ranked(names, groups, upto)),
        forall|t: int|
            0 <= t < upto ==> ranked(names, groups, upto).contains(
                #[trigger] named_group(names, groups, t),
            ),
        forall|q: int|
            0 <= q < upto ==> exists|t: int|
                0 <= t < upto && #[trigger] ranked(names, groups, upto)[q] == named_group(
                    names,
                    groups,
                    t,
                ),
    decreases upto,
{
    if upto > 0 {
        lemma_ranked(names, groups, upto - 1);
        let before = ranked(names, groups, upto - 1);
        let g = named_group(names, groups, upto - 1);
        let place = rank_from(before, g.similarity, 0);
        lemma_rank_from(before, g.similarity, 0);
        let now = ranked(names, groups, upto);
        assert(now == before.insert(place, g));
        assert forall|q: int| 0 <= q < upto implies exists|t: int|
            0 <= t < upto && #[trigger] now[q] == named_group(names, groups, t) by {
            if q < place {
                assert(now[q] == before[q]);
                let t = choose|t: int| 0 <= t < upto - 1 && before[q] == named_group(names, groups, t);
                assert(now[q] == named_group(names, groups, t));
            } else if q == place {
                assert(now[q] == named_group(names, groups, upto - 1));
            } else {
                assert(now[q] == before[q - 1]);
                let t = choose|t: int|
                    0 <= t < upto - 1 && before[q - 1] == named_group(names, groups, t);
                assert(now[q] == named_group(names, groups, t));
            }
        }
        assert forall|t: int| 0 <= t < upto implies now.contains(
            #[trigger] named_group(names, groups, t),
        ) by {
            if t == upto - 1 {
                assert(now[place] == g);
            } else {
                let q = choose|q: int|
                    0 <= q < before.len() && before[q] == named_group(names, groups, t);
                if q < place {
                    assert(now[q] == before[q]);
                } else {
                    assert(now[q + 1] == before[q]);
                }
            }
        }
        assert forall|a: int, b: int| 0 <= a < b < now.len() implies now[a].similarity
            > now[b].similarity || (now[a].similarity == now[b].similarity && now[a].id
            < now[b].id) by {
            let oa = if a < place {
                a
            } else {
                a - 1
            };
            let ob = if b < place {
                b
            } else {
                b - 1
            };
            if a == place {
                assert(now[b] == before[ob]);
                if ob > place {
                    assert(before[place].similarity > before[ob].similarity || (
                    before[place].similarity == before[ob].similarity));
                }
            } else if b == place {
                assert(now[a] == before[oa]);
                let t = choose|t: int|
                    0 <= t < upto - 1 && before[oa] == named_group(names, groups, t);
                assert(before[oa].id < g.id);
            } else {
                assert(now[a] == before[oa]);
                assert(now[b] == before[ob]);
            }
        }
    }
}

/// The groups of a grouping come by falling similarity, each group that
/// was made is among them once, and the counts are those of the lists.
pub proof fn lemma_grouping_ranked(
    names: Seq<Seq<char>>,
    threshold: u8,
    algorithm: Algorithm,
    case_sensitive: bool,
    min_group_size: usize,
)
    ensures
        falling(grouping(names, threshold, algorithm, case_sensitive, min_group_size).groups),
        grouping(names, threshold, algorithm, case_sensitive, min_group_size).groups.len()
            == grouping(names, threshold, algorithm, case_sensitive, min_group_size).groups_found,
        grouping(names, threshold, algorithm, case_sensitive, min_group_size).ungrouped.len()
            == grouping(
            names,
            threshold,
            algorithm,
            case_sensitive,
            min_group_size,
        ).ungrouped_files,
{
    let c = name_setting(names, threshold, algorithm, case_sensitive);
    let groups = groups_of(c, min_group_size as nat);
    lemma_ranked(names, groups, groups.len() as int);
}

/// How many names the first `upto` groups hold together.
pub open spec fn files_total(groups: Seq<GroupView>, upto: int) -> nat
    decreases upto,
{
    if upto <= 0 {
        0
    } else {
        files_total(groups, upto - 1) + groups[upto - 1].files.len()
    }
}

/// The names of the first groups are counted alike in two lists that
/// begin alike.
pub proof fn lemma_files_total_same(a: Seq<GroupView>, b: Seq<GroupView>, upto: int)
    requires
        0 <= upto <= a.len(),
        upto <= b.len(),
        forall|k: int| 0 <= k < upto ==> a[k] == b[k],
    ensures
        files_total(a, upto) == files_total(b, upto),
    decreases upto,
{
    if upto > 0 {
        lemma_files_total_same(a, b, upto - 1);
    }
}

/// A group that is put into a list adds its names to the count.
pub proof fn lemma_files_total_insert(r: Seq<GroupView>, place: int, g: GroupView, upto: int)
    requires
        0 <= place <= r.len(),
        place < upto <= r.len() + 1,
    ensures
        files_total(r.insert(place, g), upto) == files_total(r, upto - 1) + g.files.len(),
    decreases upto,
{
    let now = r.insert(place, g);
    if upto - 1 > place {
        lemma_files_total_insert(r, place, g, upto - 1);
        assert(now[upto - 1] == r[upto - 2]);
    } else {
        lemma_files_total_same(now, r, place);
        assert(now[place] == g);
    }
}

/// The ranked groups hold as many names as the groups have members.
pub proof fn lemma_ranked_counts(names: Seq<Seq<char>>, groups: Seq<GroupModel>, upto: int)
    requires
        0 <= upto <= groups.len(),
    ensures
        files_total(ranked(names, groups, upto), upto) == members_total(groups, upto),
    decreases upto,
{
    if upto > 0 {
        lemma_ranked_counts(names, groups, upto - 1);
        lemma_ranked(names, groups, upto - 1);
        let before = ranked(names, groups, upto - 1);
        let g = named_group(names, groups, upto - 1);
        lemma_rank_from(before, g.similarity, 0);
        lemma_files_total_insert(before, rank_from(before, g.similarity, 0), g, upto);
    }
}

/// The count of the partition: the groups and the list of ungrouped
/// names hold as many names as were given.
pub proof fn lemma_grouping_counts(
    names: Seq<Seq<char>>,
    threshold: u8,
    algorithm: Algorithm,
    case_sensitive: bool,
    min_group_size: usize,
)
    requires
        names.len() <= usize::MAX,
    ensures
        files_total(
            grouping(names, threshold, algorithm, case_sensitive, min_group_size).groups,
            grouping(names, threshold, algorithm, case_sensitive, min_group_size).groups.len() as int,
        ) + grouping(names, threshold, algorithm, case_sensitive, min_group_size).ungrouped_files
            == grouping(names, threshold, algorithm, case_sensitive, min_group_size).total_files,
{
    let c = name_setting(names, threshold, algorithm, case_sensitive);
    let groups = groups_of(c, min_group_size as nat);
    lemma_ranked(names, groups, groups.len() as int);
    lemma_ranked_counts(names, groups, groups.len() as int);
    lemma_partition_counts(c, min_group_size as nat);
}

/// Idempotence: two groupings of the same names under the same settings
/// are the same, group by group and name by name.
pub proof fn lemma_grouping_repeats(
    first: GroupingView,
    second: GroupingView,
    names: Seq<Seq<char>>,
    threshold: u8,
    algorithm: Algorithm,
    case_sensitive: bool,
    min_group_size: usize,
)
    requires
        first == grouping(names, threshold, algorithm, case_sensitive, min_group_size),
        second == grouping(names, threshold, algorithm, case_sensitive, min_group_size),
    ensures
        first == second,
        first.groups.len() == second.groups.len(),
        forall|g: int| 0 <= g < first.groups.len() ==> first.groups[g].files == second.groups[g].files,
{
}

/// The scores of names do not depend on the order of the names.
pub proof fn lemma_name_setting_symmetric(
    names: Seq<Seq<char>>,
    threshold: u8,
    algorithm: Algorithm,
    case_sensitive: bool,
)
    requires
        names.len() <= usize::MAX,
    ensures
        symmetric(name_setting(names, threshold, algorithm, case_sensitive)),
{
    let c = name_setting(names, threshold, algorithm, case_sensitive);
    assert forall|a: int, b: int| 0 <= a < c.n && 0 <= b < c.n implies c.score(a, b) == c.score(
        b,
        a,
    ) by {
        lemma_similarity_symmetric(names[a], names[b], algorithm, case_sensitive);
    }
}

/// Whether every name of `inner` is a name of `outer`.
pub open spec fn names_within(inner: Seq<Seq<char>>, outer: Seq<Seq<char>>) -> bool {
    forall|s: Seq<char>| inner.contains(s) ==> outer.contains(s)
}

/// Monotonicity: under every algorithm each group of names under a
/// threshold lies within one group under any lower threshold, so that
/// raising the threshold splits groups and lets none grow.
pub proof fn lemma_grouping_monotone(
    names: Seq<Seq<char>>,
    low: u8,
    high: u8,
    algorithm: Algorithm,
    case_sensitive: bool,
    min_group_size: usize,
    g: int,
)
    requires
        names.len() <= usize::MAX,
        low <= high,
        0 <= g < grouping(names, high, algorithm, case_sensitive, min_group_size).groups.len(),
    ensures
        exists|h: int|
            0 <= h < grouping(names, low, algorithm, case_sensitive, min_group_size).groups.len()
                && names_within(
                grouping(names, high, algorithm, case_sensitive, min_group_size).groups[g].files,
                #[trigger] grouping(
                    names,
                    low,
                    algorithm,
                    case_sensitive,
                    min_group_size,
                ).groups[h].files,
            ),
{
    let cl = name_setting(names, low, algorithm, case_sensitive);
    let ch = name_setting(names, high, algorithm, case_sensitive);
    let min = min_group_size as nat;
    let made_low = groups_of(cl, min);
    let made_high = groups_of(ch, min);
    let ranked_low = ranked(names, made_low, made_low.len() as int);
    let ranked_high = ranked(names, made_high, made_high.len() as int);
    lemma_name_setting_symmetric(names, low, algorithm, case_sensitive);
    lemma_ranked(names, made_low, made_low.len() as int);
    lemma_ranked(names, made_high, made_high.len() as int);
    let t = choose|t: int|
        0 <= t < made_high.len() && ranked_high[g] == named_group(names, made_high, t);
    assert(cl.threshold <= ch.threshold) by (nonlinear_arith)
        requires
            cl.threshold == low as nat * crate::score::PERCENT as nat,
            ch.threshold == high as nat * crate::score::PERCENT as nat,
            low <= high,
    ;
    lemma_higher_threshold_splits(cl, ch, min, t);
    let u = choose|u: int|
        0 <= u < made_low.len() && within(made_high[t].members, #[trigger] made_low[u].members);
    assert(ranked_low.contains(named_group(names, made_low, u)));
    let h = choose|h: int|
        0 <= h < ranked_low.len() && ranked_low[h] == named_group(names, made_low, u);
    let inner = member_names(names, made_high[t].members);
    let outer = member_names(names, made_low[u].members);
    assert forall|s: Seq<char>| inner.contains(s) implies outer.contains(s) by {
        let x = choose|x: int| 0 <= x < inner.len() && inner[x] == s;
        let k = made_high[t].members[x];
        assert(made_high[t].members.contains(k));
        assert(made_low[u].members.contains(k));
        let y = choose|y: int| 0 <= y < made_low[u].members.len() && made_low[u].members[y] == k;
        assert(outer[y] == s);
    }
    assert(names_within(
        grouping(names, high, algorithm, case_sensitive, min_group_size).groups[g].files,
        grouping(names, low, algorithm, case_sensitive, min_group_size).groups[h].files,
    ));
}

} // verus!
