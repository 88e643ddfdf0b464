//! Grouping a list of file names by the similarity of the names.

use vstd::prelude::*;
use crate::cli::Algorithm;
use crate::cluster::GroupModel;
use crate::cluster::IndexGroup;
use crate::cluster::Pairs;
use crate::cluster::ScoreSource;
use crate::cluster::Setting;
use crate::cluster::cluster;
use crate::cluster::group_models;
use crate::cluster::groups_of;
use crate::cluster::leftover_of;
use crate::cluster_laws::lemma_partition;
use crate::score::PERCENT;
use crate::score::Score;
use crate::text::string_views;

verus! {

/// A group of similar files.
#[derive(Clone, Debug)]
pub struct Group {
    /// The number of the group, counted from one in the order in which the
    /// groups were made.
    pub id: usize,
    /// The names of the members, in the order in which they joined.
    pub files: Vec<String>,
    /// The mean of the scores by which the members joined.
    pub similarity: Score,
}

/// The counts of a grouping.
#[derive(Clone, Copy, Debug)]
pub struct Summary {
    /// The number of names that were given.
    pub total_files: usize,
    /// The number of groups.
    pub groups_found: usize,
    /// The number of names in no group.
    pub ungrouped_files: usize,
    /// The threshold, in billionths.
    pub threshold_used: u64,
}

/// The outcome of a grouping.
#[derive(Debug)]
pub struct GroupingResult {
    /// The groups, by falling similarity; among groups of one similarity
    /// the one made first comes first.
    pub groups: Vec<Group>,
    /// The names in no group, in input order.
    pub ungrouped: Vec<String>,
    /// The counts.
    pub summary: Summary,
}

/// A group, as contracts see it.
pub struct GroupView {
    pub id: nat,
    pub files: Seq<Seq<char>>,
    pub similarity: nat,
}

/// The outcome of a grouping, as contracts see it.
pub struct GroupingView {
    pub groups: Seq<GroupView>,
    pub ungrouped: Seq<Seq<char>>,
    pub total_files: nat,
    pub groups_found: nat,
    pub ungrouped_files: nat,
    pub threshold_used: nat,
}

impl View for Group {
    type V = GroupView;

    open spec fn view(&self) -> GroupView {
        GroupView {
            id: self.id as nat,
            files: string_views(self.files@),
            similarity: self.similarity@,
        }
    }
}

impl View for GroupingResult {
    type V = GroupingView;

    open spec fn view(&self) -> GroupingView {
        GroupingView {
            groups: group_views(self.groups@),
            ungrouped: string_views(self.ungrouped@),
            total_files: self.summary.total_files as nat,
            groups_found: self.summary.groups_found as nat,
            ungrouped_files: self.summary.ungrouped_files as nat,
            threshold_used: self.summary.threshold_used as nat,
        }
    }
}

/// The views of a sequence of groups.
pub open spec fn group_views(groups: Seq<Group>) -> Seq<GroupView> {
    groups.map_values(|g: Group| g@)
}

/// The names of the items with the given numbers.
pub open spec fn member_names(names: Seq<Seq<char>>, members: Seq<usize>) -> Seq<Seq<char>> {
    members.map_values(|k: usize| names[k as int])
}

/// The place of a group of the given similarity among `ranked`, looked for
/// from place `from` on: before the first group of lower similarity.
pub open spec fn rank_from(ranked: Seq<GroupView>, similarity: nat, from: int) -> int
    decreases ranked.len() - from,
{
    if from >= ranked.len() {
        ranked.len() as int
    } else if ranked[from].similarity < similarity {
        from
    } else {
        rank_from(ranked, similarity, from + 1)
    }
}

/// The first `upto` groups with their names and numbers, by falling
/// similarity; among groups of one similarity the one made first comes
/// first.
pub open spec fn ranked(names: Seq<Seq<char>>, groups: Seq<GroupModel>, upto: int) -> Seq<GroupView>
    decreases upto,
{
    if upto <= 0 {
        Seq::empty()
    } else {
        let before = ranked(names, groups, upto - 1);
        let g = groups[upto - 1];
        before.insert(
            rank_from(before, g.similarity, 0),
            GroupView {
                id: upto as nat,
                files: member_names(names, g.members),
                similarity: g.similarity,
            },
        )
    }
}

/// The setting in which names are clustered.
pub open spec fn name_setting(
    names: Seq<Seq<char>>,
    threshold: u8,
    algorithm: Algorithm,
    case_sensitive: bool,
) -> Setting {
    Setting {
        n: names.len() as usize,
        source: ScoreSource::Names { names, algorithm, case_sensitive },
        threshold: threshold as nat * PERCENT as nat,
    }
}

/// The grouping of a list of names: two names are similar where their
/// similarity reaches `threshold` percent, and a group has at least
/// `min_group_size` members.
pub open spec fn grouping(
    names: Seq<Seq<char>>,
    threshold: u8,
    algorithm: Algorithm,
    case_sensitive: bool,
    min_group_size: usize,
) -> GroupingView {
    let c = name_setting(names, threshold, algorithm, case_sensitive);
    let groups = groups_of(c, min_group_size as nat);
    let leftover = leftover_of(c, min_group_size as nat);
    GroupingView {
        groups: ranked(names, groups, groups.len() as int),
        ungrouped: member_names(names, leftover),
        total_files: names.len(),
        groups_found: groups.len(),
        ungrouped_files: leftover.len(),
        threshold_used: threshold as nat * PERCENT as nat,
    }
}

/// The place of a group of the given similarity among `groups`.
fn rank_position(groups: &Vec<Group>, similarity: Score) -> (p: usize)
    ensures
        p == rank_from(group_views(groups@), similarity@, 0),
        p <= groups.len(),
{
    let n = groups.len();
    let wanted = similarity.billionths();
    let mut p: usize = 0;
    while p < n
        invariant
            p <= n,
            n == groups.len(),
            wanted == similarity@,
            rank_from(group_views(groups@), similarity@, 0) == rank_from(
                group_views(groups@),
                similarity@,
                p as int,
            ),
        decreases n - p,
    {
        if groups[p].similarity.billionths() < wanted {
            return p;
        }
        p = p + 1;
    }
    p
}

/// Copies of the names with the given numbers.
fn names_of(files: &Vec<String>, members: &Vec<usize>) -> (names: Vec<String>)
    requires
        forall|t: int| 0 <= t < members.len() ==> (#[trigger] members[t]) < files.len(),
    ensures
        string_views(names@) == member_names(string_views(files@), members@),
{
    let size = members.len();
    let mut names: Vec<String> = Vec::new();
    let mut t: usize = 0;
    while t < size
        invariant
            t <= size,
            size == members.len(),
            forall|u: int| 0 <= u < members.len() ==> (#[trigger] members[u]) < files.len(),
            string_views(names@) == member_names(
                string_views(files@),
                members@.subrange(0, t as int),
            ),
        decreases size - t,
    {
        let name = files[members[t]].clone();
        proof {
            let seen = members@.subrange(0, t as int);
            assert(members@.subrange(0, t + 1) =~= seen.push(members@[t as int]));
            assert(string_views(names@.push(name)) =~= string_views(names@).push(name@));
            assert(member_names(string_views(files@), seen.push(members@[t as int]))
                =~= member_names(string_views(files@), seen).push(name@));
        }
        names.push(name);
        t = t + 1;
    }
    assert(members@.subrange(0, size as int) =~= members@);
    names
}

/// Groups similar names. Two names are similar where their similarity
/// under `algorithm` reaches `threshold` percent. Around each name that is
/// in no group yet, in input order, every name is gathered that a chain
/// of similar names links to it; the gathering becomes a group where it
/// has at least `min_group_size` members.
pub fn group_files(
    files: Vec<String>,
    threshold: u8,
    algorithm: &Algorithm,
    case_sensitive: bool,
    min_group_size: usize,
) -> (r: GroupingResult)
    ensures
        r@ == grouping(
            string_views(files@),
            threshold,
            *algorithm,
            case_sensitive,
            min_group_size,
        ),
{
    let ghost names = string_views(files@);
    let ghost c = name_setting(names, threshold, *algorithm, case_sensitive);
    let ghost min = min_group_size as nat;
    let threshold_used: u64 = (threshold as u64) * PERCENT;
    let pairs = Pairs::Names { files: &files, algorithm: *algorithm, case_sensitive };
    assert(pairs.setting(threshold_used as nat) == c);
    let clustering = cluster(&pairs, threshold_used, min_group_size);
    proof {
        lemma_partition(c, min);
    }
    let found = clustering.groups.len();
    let ghost models = group_models(clustering.groups@);
    let mut groups: Vec<Group> = Vec::new();
    let mut t: usize = 0;
    assert(group_views(groups@) =~= ranked(names, models, 0));
    while t < found
        invariant
            t <= found,
            found == clustering.groups.len(),
            names == string_views(files@),
            models == group_models(clustering.groups@),
            models == groups_of(c, min),
            c.n == files.len(),
            forall|g: int, k: usize|
                0 <= g < groups_of(c, min).len() && #[trigger] groups_of(c, min)[g].members.contains(
                    k,
                ) ==> k < c.n,
            group_views(groups@) == ranked(names, models, t as int),
            groups.len() == t,
        decreases found - t,
    {
        let source: &IndexGroup = &clustering.groups[t];
        proof {
            assert(models[t as int] == source@);
            assert forall|u: int| 0 <= u < source.members.len() implies (#[trigger] source.members[u])
                < files.len() by {
                assert(groups_of(c, min)[t as int].members.contains(source.members[u]));
            }
        }
        let group = Group {
            id: t + 1,
            files: names_of(&files, &source.members),
            similarity: source.similarity,
        };
        let place = rank_position(&groups, group.similarity);
        proof {
            assert(group_views(groups@.insert(place as int, group)) =~= group_views(groups@).insert(
                place as int,
                group@,
            ));
        }
        groups.insert(place, group);
        t = t + 1;
    }
    proof {
        assert forall|u: int| 0 <= u < clustering.leftover.len() implies (
        #[trigger] clustering.leftover[u]) < files.len() by {
            assert(leftover_of(c, min).contains(clustering.leftover[u]));
        }
    }
    let ungrouped = names_of(&files, &clustering.leftover);
    let summary = Summary {
        total_files: files.len(),
        groups_found: found,
        ungrouped_files: ungrouped.len(),
        threshold_used,
    };
    assert(string_views(ungrouped@).len() == ungrouped.len());
    GroupingResult { groups, ungrouped, summary }
}

/// A grouper with its settings.
pub struct FileGrouper {
    threshold: Score,
    algorithm: Algorithm,
    case_sensitive: bool,
    min_group_size: usize,
}

impl FileGrouper {
    /// The threshold of this grouper, in billionths.
    pub closed spec fn threshold(&self) -> nat {
        self.threshold@
    }

    /// The algorithm of this grouper.
    pub closed spec fn algorithm(&self) -> Algorithm {
        self.algorithm
    }

    /// Whether this grouper tells upper case from lower case.
    pub closed spec fn case_sensitive(&self) -> bool {
        self.case_sensitive
    }

    /// The least number of members that a group of this grouper has.
    pub closed spec fn min_group_size(&self) -> usize {
        self.min_group_size
    }

    /// A grouper with the given threshold, which compares by the
    /// composite algorithm without regard to case and makes groups of two
    /// or more.
    pub fn new(threshold: Score) -> (r: Self)
        ensures
            r.threshold() == threshold@,
            r.algorithm() == Algorithm::Auto,
            !r.case_sensitive(),
            r.min_group_size() == 2,
    {
        Self { threshold, algorithm: Algorithm::Auto, case_sensitive: false, min_group_size: 2 }
    }

    /// Groups the names by the settings of this grouper; its threshold
    /// counts in whole percent, rounded down.
    pub fn group_files(&mut self, files: Vec<String>) -> (r: GroupingResult)
        ensures
            r@ == grouping(
                string_views(files@),
                (old(self).threshold() / PERCENT as nat) as u8,
                old(self).algorithm(),
                old(self).case_sensitive(),
                old(self).min_group_size(),
            ),
            *final(self) == *old(self),
    {
        let threshold_u8 = self.threshold.percent();
        group_files(files, threshold_u8, &self.algorithm, self.case_sensitive, self.min_group_size)
    }
}

} // verus!
