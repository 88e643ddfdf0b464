//! Grouping files by content and name: files of the same content, files of
//! the same size with alike names, and files with almost the same name.

use vstd::prelude::*;
use crate::cluster::mark;
use crate::cluster::marked;
use crate::digest::content_hash;
use crate::digest::content_hash_of;
use crate::distance::edit_distance;
use crate::distance::edit_distance_of;
use crate::distance::lemma_edit_distance_bounded;
use crate::distance::longer;
use crate::score::Ratio;
use crate::score::Score;
use crate::score::SCALE;
use crate::score::lesser;
use crate::score::ratio_billionths;
use crate::text::alphanumeric_only;
use crate::text::chars_of;
use crate::text::decimal;
use crate::text::decimal_string;
use crate::text::keep_alphanumeric;
use crate::text::lowercase_of;
use crate::text::same_chars;
use crate::text::string_of;

verus! {

/// What is known of a file.
#[derive(Debug)]
pub struct FileInfo {
    /// The name of the file, without its directory.
    pub name: String,
    /// The size of the file in bytes.
    pub size: u64,
    /// The extension of the name.
    pub file_type: String,
    /// When the file was last changed, in seconds since the epoch.
    pub last_modified: u64,
    /// Where the file is.
    pub path: String,
    /// The content hash of the file, once it has been computed.
    pub hash: Option<String>,
}

/// A file, as contracts see it.
pub struct FileView {
    pub name: Seq<char>,
    pub size: u64,
    pub file_type: Seq<char>,
    pub last_modified: u64,
    pub path: Seq<char>,
    pub hash: Option<Seq<char>>,
}

impl View for FileInfo {
    type V = FileView;

    open spec fn view(&self) -> FileView {
        FileView {
            name: self.name@,
            size: self.size,
            file_type: self.file_type@,
            last_modified: self.last_modified,
            path: self.path@,
            hash: match self.hash {
                Some(h) => Some(h@),
                None => None,
            },
        }
    }
}

impl Clone for FileInfo {
    fn clone(&self) -> (r: Self)
        ensures
            r@ == self@,
    {
        FileInfo {
            name: self.name.clone(),
            size: self.size,
            file_type: self.file_type.clone(),
            last_modified: self.last_modified,
            path: self.path.clone(),
            hash: match &self.hash {
                Some(h) => Some(h.clone()),
                None => None,
            },
        }
    }
}

/// By what the members of a group are alike.
#[derive(Clone, Copy, Debug, PartialEq, Eq, Structural)]
pub enum SimilarityType {
    /// The same content.
    Identical,
    /// Almost the same name.
    Name,
    /// The same size.
    Size,
    /// The same size and alike names.
    Content,
}

/// A group of alike files.
#[derive(Debug)]
pub struct SimilarityGroup {
    /// The name of the group: `group-` and the number of groups made
    /// before it.
    pub id: String,
    /// The anchor of the group and the files gathered around it, in input
    /// order.
    pub files: Vec<FileInfo>,
    /// By what the members are alike.
    pub similarity_type: SimilarityType,
    /// The least score by which a member joined.
    pub similarity_score: Score,
}

/// The groups that an analysis found.
#[derive(Debug)]
pub struct FileInfoResult {
    /// The groups, by falling score.
    pub groups: Vec<SimilarityGroup>,
}

/// A group of alike files, as contracts see it.
pub struct SimilarityGroupView {
    pub id: Seq<char>,
    pub files: Seq<FileView>,
    pub similarity_type: SimilarityType,
    pub similarity_score: nat,
}

impl View for SimilarityGroup {
    type V = SimilarityGroupView;

    open spec fn view(&self) -> SimilarityGroupView {
        SimilarityGroupView {
            id: self.id@,
            files: file_views(self.files@),
            similarity_type: self.similarity_type,
            similarity_score: self.similarity_score@,
        }
    }
}

/// The views of a sequence of files.
pub open spec fn file_views(files: Seq<FileInfo>) -> Seq<FileView> {
    files.map_values(|f: FileInfo| f@)
}

/// The views of a sequence of groups.
pub open spec fn similarity_group_views(groups: Seq<SimilarityGroup>) -> Seq<SimilarityGroupView> {
    groups.map_values(|g: SimilarityGroup| g@)
}

/// The form in which names are compared: the alphanumeric characters of
/// the name in lower case.
pub open spec fn name_form(s: Seq<char>) -> Seq<char> {
    alphanumeric_only(lowercase_of(s))
}

/// The similarity of two names as a part of a whole: one where their
/// forms are the same, zero where one form is empty, else one minus the
/// edit distance of the forms relative to the longer form.
pub open spec fn name_ratio(a: Seq<char>, b: Seq<char>) -> (nat, nat) {
    let x = name_form(a);
    let y = name_form(b);
    if x == y {
        (1, 1)
    } else if x.len() == 0 || y.len() == 0 {
        (0, 1)
    } else {
        let whole = longer(x.len(), y.len());
        ((whole - edit_distance(x, y)) as nat, whole)
    }
}

/// The similarity of two names, in billionths.
pub open spec fn name_score(a: Seq<char>, b: Seq<char>) -> nat {
    ratio_billionths(name_ratio(a, b).0, name_ratio(a, b).1)
}

/// Whether the similarity of two names is more than the given number of
/// tenths.
pub open spec fn name_above_tenths(a: Seq<char>, b: Seq<char>, tenths: nat) -> bool {
    name_ratio(a, b).0 * 10 > tenths * name_ratio(a, b).1
}

/// How a pair of files is alike.
pub struct PairModel {
    pub tier: SimilarityType,
    pub score: nat,
}

/// How file `b` is alike to file `a`, by the first of three rules that
/// applies: both have a hash and the hashes are the same; the sizes are
/// the same and the names are more than eight tenths similar; the names
/// are more than nine tenths similar.
pub open spec fn pair_match(a: FileView, b: FileView) -> Option<PairModel> {
    if a.hash is Some && b.hash is Some && a.hash == b.hash {
        Some(PairModel { tier: SimilarityType::Identical, score: SCALE as nat })
    } else if a.size == b.size && name_above_tenths(a.name, b.name, 8) {
        Some(PairModel { tier: SimilarityType::Content, score: name_score(a.name, b.name) })
    } else if name_above_tenths(a.name, b.name, 9) {
        Some(PairModel { tier: SimilarityType::Name, score: name_score(a.name, b.name) })
    } else {
        None
    }
}

/// A group that is being gathered around an anchor.
pub struct TierBuild {
    pub members: Seq<usize>,
    pub tier: SimilarityType,
    pub score: nat,
}

impl TierBuild {
    /// The gathering after item `k` joined by match `m`: the first match
    /// that is not by content sets the tier, and the score is the least
    /// so far.
    pub open spec fn with(self, k: usize, m: PairModel) -> TierBuild {
        TierBuild {
            members: self.members.push(k),
            tier: if self.tier == SimilarityType::Identical {
                m.tier
            } else {
                self.tier
            },
            score: lesser(self.score, m.score),
        }
    }
}

/// The anchor `i` with every later file below `end` that is in the pool
/// and alike to it.
pub open spec fn absorbed(files: Seq<FileView>, processed: Seq<bool>, i: usize, end: int) -> TierBuild
    decreases end,
{
    if end <= i + 1 {
        TierBuild { members: seq![i], tier: SimilarityType::Identical, score: SCALE as nat }
    } else {
        let b = absorbed(files, processed, i, end - 1);
        let j = end - 1;
        if processed[j] {
            b
        } else {
            match pair_match(files[i as int], files[j]) {
                Some(m) => b.with(j as usize, m),
                None => b,
            }
        }
    }
}

/// A group of files by their numbers in the input.
pub struct TierGroupModel {
    pub members: Seq<usize>,
    pub tier: SimilarityType,
    pub score: nat,
}

/// How far the grouping has come.
pub struct TierProgress {
    pub processed: Seq<bool>,
    pub groups: Seq<TierGroupModel>,
}

/// The grouping after file `i` had its turn as anchor: the anchor and
/// what it gathered leave the pool, and are a group where the anchor is
/// not alone.
pub open spec fn tier_after_anchor(files: Seq<FileView>, p: TierProgress, i: usize) -> TierProgress {
    if p.processed[i as int] {
        p
    } else {
        let b = absorbed(files, p.processed, i, files.len() as int);
        TierProgress {
            processed: marked(p.processed, b.members),
            groups: if b.members.len() > 1 {
                p.groups.push(TierGroupModel { members: b.members, tier: b.tier, score: b.score })
            } else {
                p.groups
            },
        }
    }
}

/// The grouping after the first `upto` files had their turn as anchor.
pub open spec fn tier_progress(files: Seq<FileView>, upto: int) -> TierProgress
    decreases upto,
{
    if upto <= 0 {
        TierProgress { processed: Seq::new(files.len(), |k: int| false), groups: Seq::empty() }
    } else {
        tier_after_anchor(files, tier_progress(files, upto - 1), (upto - 1) as usize)
    }
}

/// The files with the given numbers.
pub open spec fn member_files(files: Seq<FileView>, members: Seq<usize>) -> Seq<FileView> {
    members.map_values(|k: usize| files[k as int])
}

/// The name of the group before which `made` groups were made.
pub open spec fn group_name(made: nat) -> Seq<char> {
    seq!['g', 'r', 'o', 'u', 'p', '-'] + decimal(made)
}

/// The place of a group of the given score among `ranked`, looked for
/// from place `from` on: before the first group of lower score.
pub open spec fn tier_rank_from(ranked: Seq<SimilarityGroupView>, score: nat, from: int) -> int
    decreases ranked.len() - from,
{
    if from >= ranked.len() {
        ranked.len() as int
    } else if ranked[from].similarity_score < score {
        from
    } else {
        tier_rank_from(ranked, score, from + 1)
    }
}

/// The first `upto` groups with their files and names, by falling score;
/// among groups of one score the one made first comes first.
pub open spec fn tier_ranked(files: Seq<FileView>, groups: Seq<TierGroupModel>, upto: int) -> Seq<
    SimilarityGroupView,
>
    decreases upto,
{
    if upto <= 0 {
        Seq::empty()
    } else {
        let before = tier_ranked(files, groups, upto - 1);
        let g = groups[upto - 1];
        before.insert(
            tier_rank_from(before, g.score, 0),
            SimilarityGroupView {
                id: group_name((upto - 1) as nat),
                files: member_files(files, g.members),
                similarity_type: g.tier,
                similarity_score: g.score,
            },
        )
    }
}

/// The groups of alike files among `files`.
pub open spec fn tier_grouping(files: Seq<FileView>) -> Seq<SimilarityGroupView> {
    let groups = tier_progress(files, files.len() as int).groups;
    tier_ranked(files, groups, groups.len() as int)
}

impl FileInfo {
    /// The content hash of the file. Where it is not yet known it is
    /// computed from `data`, the bytes of the file, and kept; where it is
    /// known, `data` is not looked at.
    pub fn calculate_hash(&mut self, data: &[u8]) -> (hash: String)
        ensures
            old(self)@.hash is Some ==> hash@ == old(self)@.hash->0 && final(self)@ == old(self)@,
            old(self)@.hash is None ==> hash@ == content_hash_of(data@) && final(self)@ == (FileView {
                hash: Some(content_hash_of(data@)),
                ..old(self)@
            }),
    {
        if let Some(known) = &self.hash {
            return known.clone();
        }
        let hash_string = content_hash(data);
        self.hash = Some(hash_string.clone());
        hash_string
    }
}

/// The file that `file` is once its bytes were asked for: itself where
/// it has a hash, itself with the hash of the bytes where it has none and
/// the bytes were read, and none where it has no hash and the bytes were
/// not read.
pub open spec fn with_read(file: FileView, read: Option<Seq<u8>>) -> Option<FileView> {
    if file.hash is Some {
        Some(file)
    } else {
        match read {
            Some(data) => Some(FileView { hash: Some(content_hash_of(data)), ..file }),
            None => None,
        }
    }
}

/// What was read for the file at place `i`: nothing where the list of
/// reads ends before it.
pub open spec fn read_at(reads: Seq<Option<Vec<u8>>>, i: int) -> Option<Seq<u8>> {
    if i < reads.len() {
        match reads[i] {
            Some(data) => Some(data@),
            None => None,
        }
    } else {
        None
    }
}

/// The first `upto` files that can be grouped, in order, each with its
/// hash: a file that has no hash and whose bytes were not read is left
/// out.
pub open spec fn readable(files: Seq<FileView>, reads: Seq<Option<Vec<u8>>>, upto: int) -> Seq<
    FileView,
>
    decreases upto,
{
    if upto <= 0 {
        Seq::empty()
    } else {
        match with_read(files[upto - 1], read_at(reads, upto - 1)) {
            Some(file) => readable(files, reads, upto - 1).push(file),
            None => readable(files, reads, upto - 1),
        }
    }
}

/// Gives each file its hash and leaves out the files that could not be
/// read. `reads` holds for each file, at its place, the bytes that were
/// read of it, or nothing where the read failed. A file that has a hash
/// stays as it is; a file without a hash gets the hash of its bytes, or
/// is left out where it has none. The files that stay keep their order.
pub fn readable_files(files: Vec<FileInfo>, reads: Vec<Option<Vec<u8>>>) -> (kept: Vec<FileInfo>)
    ensures
        file_views(kept@) == readable(file_views(files@), reads@, files.len() as int),
{
    let n = files.len();
    let ghost views = file_views(files@);
    let mut kept: Vec<FileInfo> = Vec::new();
    let mut i: usize = 0;
    assert(file_views(kept@) =~= readable(views, reads@, 0));
    while i < n
        invariant
            i <= n,
            n == files.len(),
            views == file_views(files@),
            file_views(kept@) == readable(views, reads@, i as int),
        decreases n - i,
    {
        let mut file = files[i].clone();
        if file.hash.is_some() {
            assert(file_views(kept@.push(file)) =~= file_views(kept@).push(file@));
            kept.push(file);
        } else if i < reads.len() {
            if let Some(data) = &reads[i] {
                file.calculate_hash(data.as_slice());
                assert(file_views(kept@.push(file)) =~= file_views(kept@).push(file@));
                kept.push(file);
            }
        }
        i = i + 1;
    }
    kept
}

/// The form in which a name is compared: its alphanumeric characters in
/// lower case.
pub fn normalize_name(s: &str) -> (r: String)
    ensures
        r@ == name_form(s@),
{
    let lower = s.to_lowercase();
    let chars = chars_of(lower.as_str());
    let kept = keep_alphanumeric(&chars, chars.len());
    assert(chars@.subrange(0, chars.len() as int) =~= chars@);
    string_of(&kept)
}

/// The similarity of two names as an exact quotient.
pub fn name_similarity_ratio(name1: &str, name2: &str) -> (r: Ratio)
    ensures
        r.well_formed(),
        (r.num as nat, r.den as nat) == name_ratio(name1@, name2@),
{
    let n1 = normalize_name(name1);
    let n2 = normalize_name(name2);
    let chars1 = chars_of(n1.as_str());
    let chars2 = chars_of(n2.as_str());
    if same_chars(&chars1, &chars2) {
        return Ratio { num: 1, den: 1 };
    }
    let len1 = chars1.len();
    let len2 = chars2.len();
    if len1 == 0 || len2 == 0 {
        return Ratio { num: 0, den: 1 };
    }
    let distance = edit_distance_of(&chars1, &chars2);
    let max_length = if len1 >= len2 {
        len1
    } else {
        len2
    };
    proof {
        lemma_edit_distance_bounded(chars1@, chars2@);
    }
    Ratio { num: (max_length - distance) as u128, den: max_length as u128 }
}

/// The similarity of two names: one minus the edit distance of their
/// alphanumeric characters in lower case, relative to the longer of the
/// two.
pub fn calculate_name_similarity(name1: &str, name2: &str) -> (r: Score)
    ensures
        r@ == name_score(name1@, name2@),
{
    name_similarity_ratio(name1, name2).score()
}

/// How a pair of files is alike.
#[derive(Clone, Copy, Debug)]
pub struct PairMatch {
    /// The rule by which the files are alike.
    pub tier: SimilarityType,
    /// The score of the pair.
    pub score: Score,
}

impl View for PairMatch {
    type V = PairModel;

    open spec fn view(&self) -> PairModel {
        PairModel { tier: self.tier, score: self.score@ }
    }
}

/// The view of a match, if there is one.
pub open spec fn match_view(m: Option<PairMatch>) -> Option<PairModel> {
    match m {
        Some(m) => Some(m@),
        None => None,
    }
}

/// Whether both files have a hash and the hashes are the same.
fn same_hash(a: &FileInfo, b: &FileInfo) -> (same: bool)
    ensures
        same == (a@.hash is Some && b@.hash is Some && a@.hash == b@.hash),
{
    match (&a.hash, &b.hash) {
        (Some(hash1), Some(hash2)) => *hash1 == *hash2,
        _ => false,
    }
}

/// How file `b` is alike to file `a`, if it is.
pub fn match_files(a: &FileInfo, b: &FileInfo) -> (m: Option<PairMatch>)
    ensures
        match_view(m) == pair_match(a@, b@),
{
    if same_hash(a, b) {
        return Some(PairMatch { tier: SimilarityType::Identical, score: Score::one() });
    }
    let ratio = name_similarity_ratio(a.name.as_str(), b.name.as_str());
    if a.size == b.size && ratio.exceeds_tenths(8) {
        return Some(PairMatch { tier: SimilarityType::Content, score: ratio.score() });
    }
    if ratio.exceeds_tenths(9) {
        return Some(PairMatch { tier: SimilarityType::Name, score: ratio.score() });
    }
    None
}

/// A group that is being gathered around an anchor.
struct TierCandidate {
    members: Vec<usize>,
    tier: SimilarityType,
    score: Score,
}

impl View for TierCandidate {
    type V = TierBuild;

    closed spec fn view(&self) -> TierBuild {
        TierBuild { members: self.members@, tier: self.tier, score: self.score@ }
    }
}

/// Gathers the anchor `i` and every later file of the pool that is alike
/// to it.
fn absorb(files: &Vec<FileInfo>, processed: &Vec<bool>, i: usize) -> (b: TierCandidate)
    requires
        processed.len() == files.len(),
        i < files.len(),
    ensures
        b@ == absorbed(file_views(files@), processed@, i, files.len() as int),
        forall|t: int| 0 <= t < b.members.len() ==> (#[trigger] b.members[t]) < files.len(),
        b.members.len() >= 1,
{
    let n = files.len();
    let mut b = TierCandidate {
        members: Vec::new(),
        tier: SimilarityType::Identical,
        score: Score::one(),
    };
    b.members.push(i);
    assert(b.members@ =~= seq![i]);
    let mut j: usize = i + 1;
    while j < n
        invariant
            i < j <= n,
            n == files.len(),
            processed.len() == n,
            b@ == absorbed(file_views(files@), processed@, i, j as int),
            forall|t: int| 0 <= t < b.members.len() ==> (#[trigger] b.members[t]) < n,
            b.members.len() >= 1,
        decreases n - j,
    {
        if !processed[j] {
            if let Some(m) = match_files(&files[i], &files[j]) {
                b.members.push(j);
                if b.tier == SimilarityType::Identical {
                    b.tier = m.tier;
                }
                b.score = b.score.least(m.score);
            }
        }
        j = j + 1;
    }
    b
}

/// Copies of the files with the given numbers.
fn files_of(files: &Vec<FileInfo>, members: &Vec<usize>) -> (copies: Vec<FileInfo>)
    requires
        forall|t: int| 0 <= t < members.len() ==> (#[trigger] members[t]) < files.len(),
    ensures
        file_views(copies@) == member_files(file_views(files@), members@),
{
    let size = members.len();
    let mut copies: Vec<FileInfo> = Vec::new();
    let mut t: usize = 0;
    while t < size
        invariant
            t <= size,
            size == members.len(),
            forall|u: int| 0 <= u < members.len() ==> (#[trigger] members[u]) < files.len(),
            file_views(copies@) == member_files(file_views(files@), members@.subrange(0, t as int)),
        decreases size - t,
    {
        let copy = files[members[t]].clone();
        proof {
            let seen = members@.subrange(0, t as int);
            assert(members@.subrange(0, t + 1) =~= seen.push(members@[t as int]));
            assert(file_views(copies@.push(copy)) =~= file_views(copies@).push(copy@));
            assert(member_files(file_views(files@), seen.push(members@[t as int])) =~= member_files(
                file_views(files@),
                seen,
            ).push(copy@));
        }
        copies.push(copy);
        t = t + 1;
    }
    assert(members@.subrange(0, size as int) =~= members@);
    copies
}

/// The place of a group of the given score among `groups`.
fn tier_rank_position(groups: &Vec<SimilarityGroup>, score: Score) -> (p: usize)
    ensures
        p == tier_rank_from(similarity_group_views(groups@), score@, 0),
        p <= groups.len(),
{
    let n = groups.len();
    let wanted = score.billionths();
    let mut p: usize = 0;
    while p < n
        invariant
            p <= n,
            n == groups.len(),
            wanted == score@,
            tier_rank_from(similarity_group_views(groups@), score@, 0) == tier_rank_from(
                similarity_group_views(groups@),
                score@,
                p as int,
            ),
        decreases n - p,
    {
        if groups[p].similarity_score.billionths() < wanted {
            return p;
        }
        p = p + 1;
    }
    p
}

/// The name of the group before which `made` groups were made.
fn name_group(made: usize) -> (id: String)
    ensures
        id@ == group_name(made as nat),
{
    let mut id = String::new();
    id.push('g');
    id.push('r');
    id.push('o');
    id.push('u');
    id.push('p');
    id.push('-');
    assert(id@ =~= seq!['g', 'r', 'o', 'u', 'p', '-']);
    let number = decimal_string(made);
    id.append(number.as_str());
    id
}

/// Groups alike files. Around each file that is in no group yet, in input
/// order, the later files that are alike to it are gathered: those of the
/// same hash, those of the same size with a name more than eight tenths
/// similar, and those with a name more than nine tenths similar. Each
/// file is held against the anchor alone. A gathering of two or more is a
/// group; the groups come by falling score.
pub fn group_similar_files(files: Vec<FileInfo>) -> (groups: Vec<SimilarityGroup>)
    ensures
        similarity_group_views(groups@) == tier_grouping(file_views(files@)),
{
    let n = files.len();
    let ghost views = file_views(files@);
    let mut processed: Vec<bool> = Vec::new();
    let mut k: usize = 0;
    while k < n
        invariant
            k <= n,
            processed.len() == k,
            forall|u: int| 0 <= u < k ==> !processed[u],
        decreases n - k,
    {
        processed.push(false);
        k = k + 1;
    }
    assert(processed@ =~= tier_progress(views, 0).processed);
    let mut groups: Vec<SimilarityGroup> = Vec::new();
    let ghost mut made: Seq<TierGroupModel> = Seq::empty();
    assert(similarity_group_views(groups@) =~= tier_ranked(views, made, 0));
    let mut i: usize = 0;
    while i < n
        invariant
            i <= n,
            n == files.len(),
            views == file_views(files@),
            processed.len() == n,
            processed@ == tier_progress(views, i as int).processed,
            made == tier_progress(views, i as int).groups,
            groups.len() == made.len(),
            similarity_group_views(groups@) == tier_ranked(views, made, made.len() as int),
        decreases n - i,
    {
        if !processed[i] {
            let b = absorb(&files, &processed, i);
            mark(&mut processed, &b.members);
            if b.members.len() > 1 {
                let ghost before = made;
                proof {
                    made = made.push(TierGroupModel { members: b.members@, tier: b.tier, score: b.score@ });
                    lemma_tier_ranked_prefix(views, before, made, before.len() as int);
                }
                let group = SimilarityGroup {
                    id: name_group(groups.len()),
                    files: files_of(&files, &b.members),
                    similarity_type: b.tier,
                    similarity_score: b.score,
                };
                let place = tier_rank_position(&groups, group.similarity_score);
                proof {
                    assert(similarity_group_views(groups@.insert(place as int, group))
                        =~= similarity_group_views(groups@).insert(place as int, group@));
                }
                groups.insert(place, group);
            }
        }
        i = i + 1;
    }
    groups
}

/// The ranking of the first groups does not depend on the groups that
/// follow them.
pub proof fn lemma_tier_ranked_prefix(
    files: Seq<FileView>,
    short: Seq<TierGroupModel>,
    long: Seq<TierGroupModel>,
    upto: int,
)
    requires
        short.is_prefix_of(long),
        upto <= short.len(),
    ensures
        tier_ranked(files, short, upto) == tier_ranked(files, long, upto),
    decreases upto,
{
    if upto > 0 {
        lemma_tier_ranked_prefix(files, short, long, upto - 1);
    }
}

} // verus!
