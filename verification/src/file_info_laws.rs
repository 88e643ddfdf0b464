//! What holds of every grouping of files by content and name.

use vstd::prelude::*;
use crate::file_info::FileView;
use crate::file_info::SimilarityGroupView;
use crate::file_info::SimilarityType;
use crate::file_info::TierBuild;
use crate::file_info::TierProgress;
use crate::file_info::absorbed;
use crate::file_info::group_name;
use crate::file_info::member_files;
use crate::file_info::name_ratio;
use crate::file_info::name_score;
use crate::file_info::pair_match;
use crate::file_info::tier_after_anchor;
use crate::file_info::tier_grouping;
use crate::file_info::tier_progress;
use crate::file_info::tier_rank_from;
use crate::file_info::tier_ranked;
use crate::distance::lemma_edit_distance_bounded;
use crate::file_info::name_form;
use crate::score::SCALE;
use crate::score::lemma_ratio_bounded;

verus! {

/// The score of a pair that is alike.
pub open spec fn pair_score(files: Seq<FileView>, a: int, b: int) -> nat {
    pair_match(files[a], files[b])->0.score
}

/// Whether file `b` is alike to file `a`.
pub open spec fn alike(files: Seq<FileView>, a: int, b: int) -> bool {
    pair_match(files[a], files[b]) is Some
}

/// Whether a gathering around anchor `i` is sound: it begins with the
/// anchor, its members come in input order and are in the pool, each
/// later member is alike to the anchor, and its score is at most the
/// score of each such pair.
pub open spec fn tier_build_ok(
    files: Seq<FileView>,
    processed: Seq<bool>,
    i: usize,
    end: int,
    b: TierBuild,
) -> bool {
    &&& b.members.len() >= 1
    &&& b.members[0] == i
    &&& b.score <= SCALE
    &&& forall|t: int, u: int| 0 <= t < u < b.members.len() ==> b.members[t] < b.members[u]
    &&& forall|t: int|
        1 <= t < b.members.len() ==> (#[trigger] b.members[t]) < end && !processed[b.members[t] as int]
            && alike(files, i as int, b.members[t] as int) && b.score <= pair_score(
            files,
            i as int,
            b.members[t] as int,
        )
    &&& forall|j: usize|
        i < j < end && !processed[j as int] && alike(files, i as int, j as int)
            ==> #[trigger] b.members.contains(j)
}

/// The similarity of two names is at most one.
pub proof fn lemma_name_score_bounded(a: Seq<char>, b: Seq<char>)
    ensures
        name_score(a, b) <= SCALE,
{
    let x = name_form(a);
    let y = name_form(b);
    lemma_edit_distance_bounded(x, y);
    lemma_ratio_bounded(name_ratio(a, b).0, name_ratio(a, b).1);
}

/// The score of a pair that is alike is at most one.
pub proof fn lemma_pair_score_bounded(a: FileView, b: FileView)
    requires
        pair_match(a, b) is Some,
    ensures
        pair_match(a, b)->0.score <= SCALE,
{
    lemma_name_score_bounded(a.name, b.name);
}

/// What is gathered around an anchor is sound.
pub proof fn lemma_absorbed_ok(files: Seq<FileView>, processed: Seq<bool>, i: usize, end: int)
    requires
        processed.len() == files.len(),
        i < files.len(),
        end <= files.len(),
        files.len() <= usize::MAX,
    ensures
        tier_build_ok(files, processed, i, end, absorbed(files, processed, i, end)),
    decreases end,
{
    let now = absorbed(files, processed, i, end);
    if end > i + 1 {
        lemma_absorbed_ok(files, processed, i, end - 1);
        let b = absorbed(files, processed, i, end - 1);
        let j = (end - 1) as usize;
        if !processed[end - 1] && alike(files, i as int, end - 1) {
            lemma_pair_score_bounded(files[i as int], files[end - 1]);
            assert(now.members == b.members.push(j));
            assert forall|t: int, u: int| 0 <= t < u < now.members.len() implies now.members[t]
                < now.members[u] by {
                if u < b.members.len() {
                    assert(now.members[t] == b.members[t]);
                    assert(now.members[u] == b.members[u]);
                } else if t >= 1 {
                    assert(b.members[t] < end - 1);
                }
            }
            assert forall|t: int| 1 <= t < now.members.len() implies (#[trigger] now.members[t])
                < end && !processed[now.members[t] as int] && alike(
                files,
                i as int,
                now.members[t] as int,
            ) && now.score <= pair_score(files, i as int, now.members[t] as int) by {
                if t < b.members.len() {
                    assert(now.members[t] == b.members[t]);
                }
            }
            assert forall|k: usize|
                i < k < end && !processed[k as int] && alike(
                    files,
                    i as int,
                    k as int,
                ) implies #[trigger] now.members.contains(k) by {
                if k < end - 1 {
                    assert(b.members.contains(k));
                    let t = choose|t: int| 0 <= t < b.members.len() && b.members[t] == k;
                    assert(now.members[t] == k);
                } else {
                    assert(now.members[b.members.len() as int] == k);
                }
            }
        } else {
            assert(now == b);
        }
    } else {
        assert(now.members =~= seq![i]);
    }
}

/// Whether file `k` is a member of the group with number `g`.
pub open spec fn in_tier_group(p: TierProgress, g: int, k: usize) -> bool {
    0 <= g < p.groups.len() && p.groups[g].members.contains(k)
}

/// Whether the member at place `t` of the group with number `g` is alike
/// to the first member of the group, by a score that is at least the
/// score of the group.
pub open spec fn member_alike(files: Seq<FileView>, p: TierProgress, g: int, t: int) -> bool {
    &&& p.groups[g].members[t] < files.len()
    &&& alike(files, p.groups[g].members[0] as int, p.groups[g].members[t] as int)
    &&& p.groups[g].score <= pair_score(
        files,
        p.groups[g].members[0] as int,
        p.groups[g].members[t] as int,
    )
}

/// Whether a grouping in progress is sound: every group has two members
/// or more, in input order; every member is out of the pool; every member
/// but the first is alike to the first; no file is in two groups.
pub open spec fn tier_ok(files: Seq<FileView>, p: TierProgress) -> bool {
    &&& p.processed.len() == files.len()
    &&& forall|g: int|
        0 <= g < p.groups.len() ==> (#[trigger] p.groups[g]).members.len() >= 2 && p.groups[g].score
            <= SCALE
    &&& forall|g: int, t: int, u: int|
        0 <= g < p.groups.len() && 0 <= t < u < p.groups[g].members.len() ==> (
        #[trigger] p.groups[g].members[t]) < (#[trigger] p.groups[g].members[u])
    &&& forall|g: int, t: int|
        0 <= g < p.groups.len() && 1 <= t < p.groups[g].members.len() ==> #[trigger] member_alike(
            files,
            p,
            g,
            t,
        )
    &&& forall|g: int, k: usize| #[trigger]
        in_tier_group(p, g, k) ==> k < files.len() && p.processed[k as int]
    &&& forall|g: int, h: int, k: usize|
        #[trigger] in_tier_group(p, g, k) && #[trigger] in_tier_group(p, h, k) ==> g == h
}

/// A sound grouping stays sound when the next file has its turn as
/// anchor.
pub proof fn lemma_tier_after_anchor_ok(files: Seq<FileView>, p: TierProgress, i: usize)
    requires
        tier_ok(files, p),
        i < files.len(),
        files.len() <= usize::MAX,
    ensures
        tier_ok(files, tier_after_anchor(files, p, i)),
{
    if !p.processed[i as int] {
        let n = files.len() as int;
        let b = absorbed(files, p.processed, i, n);
        lemma_absorbed_ok(files, p.processed, i, n);
        let q = tier_after_anchor(files, p, i);
        let last = p.groups.len() as int;
        assert forall|g: int, k: usize| #[trigger] in_tier_group(q, g, k) implies k < files.len()
            && q.processed[k as int] by {
            if g < last {
                assert(q.groups[g] == p.groups[g]);
                assert(in_tier_group(p, g, k));
            } else {
                let t = choose|t: int| 0 <= t < b.members.len() && b.members[t] == k;
                if t >= 1 {
                    assert(b.members[t] < n);
                }
            }
        }
        if b.members.len() > 1 {
            assert(q.groups[last].members == b.members);
            assert forall|g: int| 0 <= g < q.groups.len() implies (#[trigger] q.groups[g]).members.len()
                >= 2 && q.groups[g].score <= SCALE by {
                if g < last {
                    assert(q.groups[g] == p.groups[g]);
                }
            }
            assert forall|g: int, t: int, u: int|
                0 <= g < q.groups.len() && 0 <= t < u < q.groups[g].members.len() implies (
            #[trigger] q.groups[g].members[t]) < (#[trigger] q.groups[g].members[u]) by {
                if g < last {
                    assert(q.groups[g] == p.groups[g]);
                }
            }
            assert forall|g: int, t: int|
                0 <= g < q.groups.len() && 1 <= t < q.groups[g].members.len() implies #[trigger] member_alike(
                files,
                q,
                g,
                t,
            ) by {
                if g < last {
                    assert(q.groups[g] == p.groups[g]);
                    assert(member_alike(files, p, g, t));
                } else {
                    assert(b.members[t] < n);
                }
            }
            assert forall|g: int, h: int, k: usize|
                #[trigger] in_tier_group(q, g, k) && #[trigger] in_tier_group(q, h, k) implies g
                == h by {
                if g < last {
                    assert(q.groups[g] == p.groups[g]);
                    assert(in_tier_group(p, g, k));
                }
                if h < last {
                    assert(q.groups[h] == p.groups[h]);
                    assert(in_tier_group(p, h, k));
                }
                if (g < last) != (h < last) {
                    let t = choose|t: int| 0 <= t < b.members.len() && b.members[t] == k;
                    if t >= 1 {
                        assert(!p.processed[b.members[t] as int]);
                    }
                }
            }
        } else {
            assert(q.groups == p.groups);
            assert forall|g: int, t: int|
                0 <= g < q.groups.len() && 1 <= t < q.groups[g].members.len() implies #[trigger] member_alike(
                files,
                q,
                g,
                t,
            ) by {
                assert(member_alike(files, p, g, t));
            }
            assert forall|g: int, h: int, k: usize|
                #[trigger] in_tier_group(q, g, k) && #[trigger] in_tier_group(q, h, k) implies g
                == h by {
                assert(in_tier_group(p, g, k));
                assert(in_tier_group(p, h, k));
            }
        }
    }
}

/// A grouping of files is sound at every stage.
pub proof fn lemma_tier_progress_ok(files: Seq<FileView>, upto: int)
    requires
        upto <= files.len(),
        files.len() <= usize::MAX,
    ensures
        tier_ok(files, tier_progress(files, upto)),
    decreases upto,
{
    if upto > 0 {
        lemma_tier_progress_ok(files, upto - 1);
        lemma_tier_after_anchor_ok(files, tier_progress(files, upto - 1), (upto - 1) as usize);
    }
}

/// Two files of one hash, given alone, are one group of identical files
/// with the score one, whatever their names and sizes.
pub proof fn lemma_two_files_of_one_hash(files: Seq<FileView>)
    requires
        files.len() == 2,
        files[0].hash is Some,
        files[0].hash == files[1].hash,
    ensures
        tier_grouping(files) == seq![
            SimilarityGroupView {
                id: group_name(0),
                files: files,
                similarity_type: SimilarityType::Identical,
                similarity_score: SCALE as nat,
            },
        ],
{
    let start = tier_progress(files, 0);
    let first = tier_progress(files, 1);
    let second = tier_progress(files, 2);
    assert(first == tier_after_anchor(files, start, 0));
    assert(second == tier_after_anchor(files, first, 1));
    let b0 = absorbed(files, start.processed, 0, 1);
    assert(b0.members == seq![0usize]);
    let b = absorbed(files, start.processed, 0, 2);
    assert(!start.processed[1]);
    assert(pair_match(files[0], files[1]) is Some);
    assert(b.members == seq![0usize].push(1usize));
    assert(b.members =~= seq![0usize, 1usize]);
    assert(b.tier == SimilarityType::Identical);
    assert(b.score == SCALE);
    assert(first.groups.len() == 1);
    assert(b.members.contains(1usize)) by {
        assert(b.members[1] == 1usize);
    }
    assert(first.processed[1]);
    assert(second == first);
    let groups = second.groups;
    let none = tier_ranked(files, groups, 0);
    assert(none.len() == 0);
    assert(tier_rank_from(none, groups[0].score, 0) == 0);
    let one = tier_ranked(files, groups, 1);
    assert(member_files(files, groups[0].members) =~= files);
    assert(one =~= seq![
        SimilarityGroupView {
            id: group_name(0),
            files: files,
            similarity_type: SimilarityType::Identical,
            similarity_score: SCALE as nat,
        },
    ]);
}

/// In every grouping of files a group has two members or more, in input
/// order; every member but the first is alike to the first, by a score
/// that is at least the score of the group; and no file is in two groups.
pub proof fn lemma_tier_groups(files: Seq<FileView>)
    requires
        files.len() <= usize::MAX,
    ensures
        tier_ok(files, tier_progress(files, files.len() as int)),
{
    lemma_tier_progress_ok(files, files.len() as int);
}

} // verus!
