//! Transitive clustering of items, given a score for every ordered pair.
//!
//! Items are numbered from zero in input order. Anchor by anchor, the items
//! that are not yet in a group and that a chain of similar pairs links to
//! the anchor are gathered; a gathering that is large enough becomes a
//! group and its members leave the pool, a smaller one is forgotten and
//! its members stay in the pool.
//!
//! Which items have left the pool is held as one flag for each item, in
//! input order; a clustering owns its flags and nothing else reads them.

use vstd::prelude::*;
use crate::cli::Algorithm;
use crate::score::Score;
use crate::score::SCALE;
use crate::score::score_values;
use crate::text::string_views;
use crate::similarity::calculate_similarity;
use crate::similarity::similarity;

verus! {

/// Where the scores of the ordered pairs of items come from.
pub enum ScoreSource {
    /// The items are names, scored by an algorithm.
    Names { names: Seq<Seq<char>>, algorithm: Algorithm, case_sensitive: bool },
    /// The scores are given, in billionths: row `i` holds the scores of
    /// item `i` with every item.
    Table { rows: Seq<Seq<nat>> },
}

impl ScoreSource {
    /// The number of items.
    pub open spec fn len(self) -> nat {
        match self {
            ScoreSource::Names { names, .. } => names.len(),
            ScoreSource::Table { rows } => rows.len(),
        }
    }

    /// The score of item `j` against item `i`, in billionths.
    pub open spec fn score(self, i: int, j: int) -> nat {
        match self {
            ScoreSource::Names { names, algorithm, case_sensitive } => similarity(
                names[i],
                names[j],
                algorithm,
                case_sensitive,
            ),
            ScoreSource::Table { rows } => rows[i][j],
        }
    }
}

/// What a clustering depends on.
pub struct Setting {
    /// The number of items.
    pub n: usize,
    /// The scores of the ordered pairs of items.
    pub source: ScoreSource,
    /// The score from which on two items are similar, in billionths.
    pub threshold: nat,
}

impl Setting {
    /// The score of item `b` against item `a`, in billionths.
    pub open spec fn score(self, a: int, b: int) -> nat {
        self.source.score(a, b)
    }

    /// Whether item `b` is similar to item `a`.
    pub open spec fn similar(self, a: int, b: int) -> bool {
        self.score(a, b) >= self.threshold
    }
}

/// A group that is being gathered: its members in the order in which they
/// joined, and the sum and number of the scores by which they joined.
pub struct Build {
    pub members: Seq<usize>,
    pub sum: nat,
    pub count: nat,
}

impl Build {
    /// The gathering after item `k` joined by score `s`.
    pub open spec fn with(self, k: usize, s: nat) -> Build {
        Build { members: self.members.push(k), sum: self.sum + s, count: self.count + 1 }
    }

    /// The mean of the scores by which the members joined, rounded down;
    /// one where no score was recorded.
    pub open spec fn mean(self) -> nat {
        if self.count == 0 {
            SCALE as nat
        } else {
            self.sum / self.count
        }
    }
}

/// A group of items: its members in the order in which they joined, and
/// its aggregate similarity in billionths.
pub struct GroupModel {
    pub members: Seq<usize>,
    pub similarity: nat,
}

/// How far a clustering has come: which items are in a group, and the
/// groups in the order in which they were made.
pub struct Progress {
    pub processed: Seq<bool>,
    pub groups: Seq<GroupModel>,
}

/// The anchor `i` with every later item below `end` that is in the pool
/// and similar to it.
pub open spec fn seeded(c: Setting, processed: Seq<bool>, i: usize, end: int) -> Build
    decreases end,
{
    if end <= i + 1 {
        Build { members: seq![i], sum: 0, count: 0 }
    } else {
        let b = seeded(c, processed, i, end - 1);
        let j = end - 1;
        if !processed[j] && c.similar(i as int, j) {
            b.with(j as usize, c.score(i as int, j))
        } else {
            b
        }
    }
}

/// The gathering `b` after member `m` was held against every item below
/// `end`: each item of the pool that is not yet a member and is similar
/// to `m` has joined.
pub open spec fn scanned(c: Setting, processed: Seq<bool>, b: Build, m: usize, end: int) -> Build
    decreases end,
{
    if end <= 0 {
        b
    } else {
        let b1 = scanned(c, processed, b, m, end - 1);
        let k = end - 1;
        if !processed[k] && !b1.members.contains(k as usize) && c.similar(m as int, k) {
            b1.with(k as usize, c.score(m as int, k))
        } else {
            b1
        }
    }
}

/// The gathering `b` after the first `upto` of the members `current` were
/// each held against every item.
pub open spec fn swept(
    c: Setting,
    processed: Seq<bool>,
    current: Seq<usize>,
    b: Build,
    upto: int,
) -> Build
    decreases upto,
{
    if upto <= 0 {
        b
    } else {
        scanned(
            c,
            processed,
            swept(c, processed, current, b, upto - 1),
            current[upto - 1],
            c.n as int,
        )
    }
}

/// The gathering `b` swept again and again, until a sweep adds no member.
pub open spec fn closed_group(c: Setting, processed: Seq<bool>, b: Build) -> Build
    decreases c.n - b.members.len(),
{
    let b2 = swept(c, processed, b.members, b, b.members.len() as int);
    if b.members.len() < b2.members.len() <= c.n {
        closed_group(c, processed, b2)
    } else {
        b2
    }
}

/// The pool after the given members have left it.
pub open spec fn marked(processed: Seq<bool>, members: Seq<usize>) -> Seq<bool> {
    Seq::new(processed.len(), |k: int| processed[k] || members.contains(k as usize))
}

/// What is gathered around anchor `i`.
pub open spec fn gathered(c: Setting, processed: Seq<bool>, i: usize) -> Build {
    closed_group(c, processed, seeded(c, processed, i, c.n as int))
}

/// The clustering after item `i` had its turn as anchor: what was
/// gathered around it is a group where it has at least `min_size` members.
pub open spec fn after_anchor(c: Setting, min_size: nat, p: Progress, i: usize) -> Progress {
    if p.processed[i as int] {
        p
    } else {
        let b = gathered(c, p.processed, i);
        if b.members.len() >= min_size {
            Progress {
                processed: marked(p.processed, b.members),
                groups: p.groups.push(GroupModel { members: b.members, similarity: b.mean() }),
            }
        } else {
            p
        }
    }
}

/// The clustering after the first `upto` items had their turn as anchor.
pub open spec fn progress(c: Setting, min_size: nat, upto: int) -> Progress
    decreases upto,
{
    if upto <= 0 {
        Progress { processed: Seq::new(c.n as nat, |k: int| false), groups: Seq::empty() }
    } else {
        after_anchor(c, min_size, progress(c, min_size, upto - 1), (upto - 1) as usize)
    }
}

/// The items below `upto` that are in no group, in input order.
pub open spec fn unprocessed(processed: Seq<bool>, upto: int) -> Seq<usize>
    decreases upto,
{
    if upto <= 0 {
        Seq::empty()
    } else if processed[upto - 1] {
        unprocessed(processed, upto - 1)
    } else {
        unprocessed(processed, upto - 1).push((upto - 1) as usize)
    }
}

/// The groups of a clustering, in the order in which they were made.
pub open spec fn groups_of(c: Setting, min_size: nat) -> Seq<GroupModel> {
    progress(c, min_size, c.n as int).groups
}

/// The items that a clustering leaves in no group, in input order.
pub open spec fn leftover_of(c: Setting, min_size: nat) -> Seq<usize> {
    unprocessed(progress(c, min_size, c.n as int).processed, c.n as int)
}

/// Whether a gathering is sound: its members are distinct items of the
/// pool, and each but the first joined by one score.
pub open spec fn build_ok(c: Setting, processed: Seq<bool>, b: Build) -> bool {
    &&& b.members.no_duplicates()
    &&& forall|t: int|
        0 <= t < b.members.len() ==> (#[trigger] b.members[t]) < c.n && !processed[b.members[t] as int]
    &&& b.members.len() == b.count + 1
}

/// Distinct numbers below `n` are at most `n` in number.
pub proof fn lemma_distinct_below(s: Seq<usize>, n: nat)
    requires
        s.no_duplicates(),
        forall|t: int| 0 <= t < s.len() ==> (#[trigger] s[t]) < n,
    ensures
        s.len() <= n,
{
    let si = s.map_values(|x: usize| x as int);
    assert(si.no_duplicates());
    si.unique_seq_to_set();
    vstd::set_lib::lemma_int_range(0, n as int);
    let range = vstd::set_lib::set_int_range(0, n as int);
    assert(si.to_set().subset_of(range)) by {
        assert forall|x: int| si.to_set().contains(x) implies range.contains(x) by {
            let t = choose|t: int| 0 <= t < si.len() && si[t] == x;
            assert(s[t] < n);
        }
    }
    vstd::set_lib::lemma_len_subset(si.to_set(), range);
}

/// Seeding yields a sound gathering that begins with the anchor.
pub proof fn lemma_seeded_ok(c: Setting, processed: Seq<bool>, i: usize, end: int)
    requires
        processed.len() == c.n,
        i < c.n,
        !processed[i as int],
        end <= c.n,
    ensures
        build_ok(c, processed, seeded(c, processed, i, end)),
        seeded(c, processed, i, end).members[0] == i,
        forall|t: int|
            0 <= t < seeded(c, processed, i, end).members.len() ==> i <= (#[trigger] seeded(
                c,
                processed,
                i,
                end,
            ).members[t]) && (seeded(c, processed, i, end).members[t] < end || t == 0),
    decreases end,
{
    if end > i + 1 {
        lemma_seeded_ok(c, processed, i, end - 1);
        let b = seeded(c, processed, i, end - 1);
        let j = (end - 1) as usize;
        if !processed[end - 1] && c.similar(i as int, end - 1) {
            let b2 = b.with(j, c.score(i as int, end - 1));
            assert forall|t: int, u: int|
                0 <= t < b2.members.len() && 0 <= u < b2.members.len() && t != u implies b2.members[t]
                != b2.members[u] by {
                if t < b.members.len() {
                    assert(b.members[t] < j);
                }
                if u < b.members.len() {
                    assert(b.members[u] < j);
                }
            }
            assert forall|t: int| 0 <= t < b2.members.len() implies (#[trigger] b2.members[t]) < c.n
                && !processed[b2.members[t] as int] && i <= b2.members[t] && (b2.members[t] < end
                || t == 0) by {
                if t < b.members.len() {
                    assert(b2.members[t] == b.members[t]);
                }
            }
        }
    }
}

/// Holding a member against the items keeps a gathering sound and keeps
/// its earlier members in place.
pub proof fn lemma_scanned_ok(c: Setting, processed: Seq<bool>, b: Build, m: usize, end: int)
    requires
        processed.len() == c.n,
        build_ok(c, processed, b),
        end <= c.n,
    ensures
        build_ok(c, processed, scanned(c, processed, b, m, end)),
        b.members.is_prefix_of(scanned(c, processed, b, m, end).members),
    decreases end,
{
    if end > 0 {
        lemma_scanned_ok(c, processed, b, m, end - 1);
        let b1 = scanned(c, processed, b, m, end - 1);
        let k = (end - 1) as usize;
        if !processed[end - 1] && !b1.members.contains(k) && c.similar(m as int, end - 1) {
            let b2 = b1.with(k, c.score(m as int, end - 1));
            assert forall|t: int, u: int|
                0 <= t < b2.members.len() && 0 <= u < b2.members.len() && t != u implies b2.members[t]
                != b2.members[u] by {
                if t < b1.members.len() {
                    assert(b1.members.contains(b1.members[t]));
                }
                if u < b1.members.len() {
                    assert(b1.members.contains(b1.members[u]));
                }
            }
            assert forall|t: int| 0 <= t < b2.members.len() implies (#[trigger] b2.members[t]) < c.n
                && !processed[b2.members[t] as int] by {
                if t < b1.members.len() {
                    assert(b2.members[t] == b1.members[t]);
                }
            }
        }
    }
}

/// A sweep keeps a gathering sound and keeps its earlier members in place.
pub proof fn lemma_swept_ok(
    c: Setting,
    processed: Seq<bool>,
    current: Seq<usize>,
    b: Build,
    upto: int,
)
    requires
        processed.len() == c.n,
        build_ok(c, processed, b),
    ensures
        build_ok(c, processed, swept(c, processed, current, b, upto)),
        b.members.is_prefix_of(swept(c, processed, current, b, upto).members),
    decreases upto,
{
    if upto > 0 {
        lemma_swept_ok(c, processed, current, b, upto - 1);
        lemma_scanned_ok(
            c,
            processed,
            swept(c, processed, current, b, upto - 1),
            current[upto - 1],
            c.n as int,
        );
    }
}

/// Closing keeps a gathering sound and keeps its earlier members in place.
pub proof fn lemma_closed_ok(c: Setting, processed: Seq<bool>, b: Build)
    requires
        processed.len() == c.n,
        build_ok(c, processed, b),
    ensures
        build_ok(c, processed, closed_group(c, processed, b)),
        b.members.is_prefix_of(closed_group(c, processed, b).members),
    decreases c.n - b.members.len(),
{
    let b2 = swept(c, processed, b.members, b, b.members.len() as int);
    lemma_swept_ok(c, processed, b.members, b, b.members.len() as int);
    if b.members.len() < b2.members.len() <= c.n {
        lemma_closed_ok(c, processed, b2);
    }
}

/// A source of scores for the ordered pairs of a list of items.
pub enum Pairs<'a> {
    /// The items are names, scored by an algorithm.
    Names { files: &'a Vec<String>, algorithm: Algorithm, case_sensitive: bool },
    /// The scores are given: row `i` holds the scores of item `i` with
    /// every item.
    Table { scores: &'a Vec<Vec<Score>> },
}

impl<'a> View for Pairs<'a> {
    type V = ScoreSource;

    open spec fn view(&self) -> ScoreSource {
        match self {
            Pairs::Names { files, algorithm, case_sensitive } => ScoreSource::Names {
                names: string_views(files@),
                algorithm: *algorithm,
                case_sensitive: *case_sensitive,
            },
            Pairs::Table { scores } => ScoreSource::Table { rows: score_rows(scores@) },
        }
    }
}

/// The views of the rows of a table of scores.
pub open spec fn score_rows(scores: Seq<Vec<Score>>) -> Seq<Seq<nat>> {
    scores.map_values(|row: Vec<Score>| score_values(row@))
}

impl<'a> Pairs<'a> {
    /// The number of items.
    pub open spec fn len(&self) -> nat {
        self@.len()
    }

    /// Whether a table is square.
    pub open spec fn well_formed(&self) -> bool {
        match self {
            Pairs::Names { .. } => true,
            Pairs::Table { scores } => forall|i: int|
                0 <= i < scores@.len() ==> (#[trigger] scores@[i])@.len() == scores@.len(),
        }
    }

    /// The setting of a clustering over these scores.
    pub open spec fn setting(&self, threshold: nat) -> Setting {
        Setting { n: self.len() as usize, source: self@, threshold }
    }

    /// The number of items.
    pub fn count(&self) -> (n: usize)
        ensures
            n == self.len(),
    {
        match self {
            Pairs::Names { files, .. } => files.len(),
            Pairs::Table { scores } => scores.len(),
        }
    }

    /// The score of item `j` against item `i`.
    pub fn get(&self, i: usize, j: usize) -> (s: Score)
        requires
            self.well_formed(),
            i < self.len(),
            j < self.len(),
        ensures
            s@ == self@.score(i as int, j as int),
            s@ <= SCALE,
    {
        let s = match self {
            Pairs::Names { files, algorithm, case_sensitive } => calculate_similarity(
                files[i].as_str(),
                files[j].as_str(),
                algorithm,
                *case_sensitive,
            ),
            Pairs::Table { scores } => scores[i][j],
        };
        proof {
            use_type_invariant(&s);
        }
        s
    }
}

/// A group that is being gathered.
pub struct Candidate {
    /// The members, in the order in which they joined.
    pub members: Vec<usize>,
    /// The sum of the scores by which they joined, in billionths.
    pub sum: u128,
    /// The number of those scores.
    pub count: usize,
}

impl View for Candidate {
    type V = Build;

    open spec fn view(&self) -> Build {
        Build { members: self.members@, sum: self.sum as nat, count: self.count as nat }
    }
}

impl Candidate {
    /// Whether the sum is one that the recorded scores can have.
    pub open spec fn sum_bounded(&self) -> bool {
        self.sum <= self.count * SCALE
    }

    /// Adds member `k`, which joined by score `s`.
    fn add(&mut self, k: usize, s: Score)
        requires
            old(self).sum_bounded(),
            old(self).count < usize::MAX,
        ensures
            final(self)@ == old(self)@.with(k, s@),
            final(self).sum_bounded(),
    {
        proof {
            use_type_invariant(&s);
            assert(self.count * SCALE + SCALE == (self.count + 1) * SCALE) by (nonlinear_arith);
            assert((self.count + 1) * SCALE <= usize::MAX * SCALE) by (nonlinear_arith)
                requires
                    self.count + 1 <= usize::MAX,
            ;
        }
        self.members.push(k);
        self.sum = self.sum + s.billionths() as u128;
        self.count = self.count + 1;
    }

    /// The mean of the recorded scores, rounded down; one where there are
    /// none.
    fn mean(&self) -> (r: Score)
        requires
            self.sum_bounded(),
        ensures
            r@ == self@.mean(),
    {
        if self.count == 0 {
            Score::one()
        } else {
            proof {
                let t = self.sum as int;
                let k = self.count as int;
                let s = SCALE as int;
                assert(t / k <= s) by (nonlinear_arith)
                    requires
                        t <= k * s,
                        k > 0,
                ;
            }
            let q: u128 = self.sum / (self.count as u128);
            Score::from_billionths(q as u64)
        }
    }
}

/// Whether `k` is among `members`.
pub fn is_member(members: &Vec<usize>, k: usize) -> (b: bool)
    ensures
        b == members@.contains(k),
{
    let n = members.len();
    let mut t: usize = 0;
    while t < n
        invariant
            t <= n,
            n == members.len(),
            forall|u: int| 0 <= u < t ==> members@[u] != k,
        decreases n - t,
    {
        if members[t] == k {
            return true;
        }
        t = t + 1;
    }
    false
}

/// Gathers the anchor `i` and every later item of the pool that is
/// similar to it.
fn seed(pairs: &Pairs, threshold: u64, processed: &Vec<bool>, i: usize) -> (b: Candidate)
    requires
        pairs.well_formed(),
        processed.len() == pairs.len(),
        i < pairs.len(),
        !processed[i as int],
    ensures
        b@ == seeded(pairs.setting(threshold as nat), processed@, i, pairs.len() as int),
        b.sum_bounded(),
{
    let n = pairs.count();
    let ghost c = pairs.setting(threshold as nat);
    let mut b = Candidate { members: Vec::new(), sum: 0, count: 0 };
    b.members.push(i);
    assert(b.members@ =~= seq![i]);
    let mut j: usize = i + 1;
    while j < n
        invariant
            i < j <= n,
            n == pairs.len(),
            pairs.well_formed(),
            processed.len() == n,
            !processed[i as int],
            c == pairs.setting(threshold as nat),
            b@ == seeded(c, processed@, i, j as int),
            b.sum_bounded(),
        decreases n - j,
    {
        proof {
            lemma_seeded_ok(c, processed@, i, j as int);
            lemma_distinct_below(b.members@, c.n as nat);
        }
        if !processed[j] {
            let s = pairs.get(i, j);
            if s.billionths() >= threshold {
                b.add(j, s);
            }
        }
        j = j + 1;
    }
    b
}

/// Holds member `m` against every item: each item of the pool that is not
/// yet a member and is similar to `m` joins.
fn scan_member(pairs: &Pairs, threshold: u64, processed: &Vec<bool>, b: &mut Candidate, m: usize)
    requires
        pairs.well_formed(),
        processed.len() == pairs.len(),
        m < pairs.len(),
        build_ok(pairs.setting(threshold as nat), processed@, old(b)@),
        old(b).sum_bounded(),
    ensures
        final(b)@ == scanned(
            pairs.setting(threshold as nat),
            processed@,
            old(b)@,
            m,
            pairs.len() as int,
        ),
        final(b).sum_bounded(),
{
    let n = pairs.count();
    let ghost c = pairs.setting(threshold as nat);
    let ghost start = b@;
    let mut k: usize = 0;
    while k < n
        invariant
            k <= n,
            n == pairs.len(),
            m < n,
            pairs.well_formed(),
            processed.len() == n,
            c == pairs.setting(threshold as nat),
            build_ok(c, processed@, start),
            b@ == scanned(c, processed@, start, m, k as int),
            b.sum_bounded(),
        decreases n - k,
    {
        proof {
            lemma_scanned_ok(c, processed@, start, m, k as int);
            lemma_distinct_below(b.members@, c.n as nat);
        }
        if !processed[k] && !is_member(&b.members, k) {
            let s = pairs.get(m, k);
            if s.billionths() >= threshold {
                b.add(k, s);
            }
        }
        k = k + 1;
    }
}

/// Sweeps and sweeps again, until a sweep adds no member.
fn close(pairs: &Pairs, threshold: u64, processed: &Vec<bool>, b: &mut Candidate)
    requires
        pairs.well_formed(),
        processed.len() == pairs.len(),
        build_ok(pairs.setting(threshold as nat), processed@, old(b)@),
        old(b).sum_bounded(),
    ensures
        final(b)@ == closed_group(pairs.setting(threshold as nat), processed@, old(b)@),
        final(b).sum_bounded(),
{
    let n = pairs.count();
    let ghost c = pairs.setting(threshold as nat);
    let ghost first = b@;
    let mut added_any = true;
    proof {
        lemma_distinct_below(b.members@, c.n as nat);
    }
    while added_any
        invariant
            n == pairs.len(),
            pairs.well_formed(),
            processed.len() == n,
            c == pairs.setting(threshold as nat),
            build_ok(c, processed@, b@),
            b.members.len() <= n,
            b.sum_bounded(),
            added_any ==> closed_group(c, processed@, first) == closed_group(c, processed@, b@),
            !added_any ==> closed_group(c, processed@, first) == b@,
        decreases
                n - b.members.len(),
                (if added_any {
                    1int
                } else {
                    0int
                }),
    {
        let ghost before = b@;
        let current = b.members.clone();
        let size = current.len();
        let mut t: usize = 0;
        while t < size
            invariant
                t <= size,
                size == current.len(),
                current@ == before.members,
                n == pairs.len(),
                pairs.well_formed(),
                processed.len() == n,
                c == pairs.setting(threshold as nat),
                build_ok(c, processed@, before),
                b@ == swept(c, processed@, before.members, before, t as int),
                b.sum_bounded(),
            decreases size - t,
        {
            proof {
                lemma_swept_ok(c, processed@, before.members, before, t as int);
                assert(before.members[t as int] < c.n);
            }
            scan_member(pairs, threshold, processed, b, current[t]);
            t = t + 1;
        }
        proof {
            lemma_swept_ok(c, processed@, before.members, before, size as int);
            lemma_distinct_below(b.members@, c.n as nat);
        }
        added_any = b.members.len() > size;
    }
}

/// Takes the given members out of the pool.
pub fn mark(processed: &mut Vec<bool>, members: &Vec<usize>)
    requires
        forall|t: int| 0 <= t < members.len() ==> (#[trigger] members[t]) < old(processed).len(),
    ensures
        final(processed)@ == marked(old(processed)@, members@),
{
    let size = members.len();
    let ghost start = processed@;
    let mut t: usize = 0;
    assert(processed@ =~= marked(start, members@.subrange(0, 0)));
    while t < size
        invariant
            t <= size,
            size == members.len(),
            processed.len() == start.len(),
            forall|u: int| 0 <= u < members.len() ==> (#[trigger] members[u]) < start.len(),
            processed@ == marked(start, members@.subrange(0, t as int)),
        decreases size - t,
    {
        let k = members[t];
        processed.set(k, true);
        proof {
            let seen = members@.subrange(0, t as int);
            let next = members@.subrange(0, t + 1);
            assert(next =~= seen.push(k));
            assert forall|x: int| 0 <= x < start.len() implies processed@[x] == marked(start, next)[x] by {
                if seen.contains(x as usize) {
                    let u = choose|u: int| 0 <= u < seen.len() && seen[u] == x as usize;
                    assert(next[u] == x as usize);
                }
                if next.contains(x as usize) && x != k {
                    let u = choose|u: int| 0 <= u < next.len() && next[u] == x as usize;
                    assert(seen[u] == x as usize);
                }
                if x == k {
                    assert(next[t as int] == k);
                }
            }
            assert(processed@ =~= marked(start, next));
        }
        t = t + 1;
    }
    assert(members@.subrange(0, size as int) =~= members@);
}

/// A group of items, by their numbers in the input.
pub struct IndexGroup {
    /// The members, in the order in which they joined.
    pub members: Vec<usize>,
    /// The aggregate similarity of the group.
    pub similarity: Score,
}

impl View for IndexGroup {
    type V = GroupModel;

    open spec fn view(&self) -> GroupModel {
        GroupModel { members: self.members@, similarity: self.similarity@ }
    }
}

/// The views of a sequence of groups.
pub open spec fn group_models(groups: Seq<IndexGroup>) -> Seq<GroupModel> {
    groups.map_values(|g: IndexGroup| g@)
}

/// The outcome of a clustering, by item numbers.
pub struct Clustering {
    /// The groups, in the order in which they were made.
    pub groups: Vec<IndexGroup>,
    /// The items in no group, in input order.
    pub leftover: Vec<usize>,
}

/// The items that are still in the pool, in input order.
fn pool(processed: &Vec<bool>) -> (left: Vec<usize>)
    ensures
        left@ == unprocessed(processed@, processed.len() as int),
{
    let n = processed.len();
    let mut left: Vec<usize> = Vec::new();
    let mut k: usize = 0;
    while k < n
        invariant
            k <= n,
            n == processed.len(),
            left@ == unprocessed(processed@, k as int),
        decreases n - k,
    {
        if !processed[k] {
            left.push(k);
        }
        k = k + 1;
    }
    left
}

/// Clusters the items of `pairs`: two items are similar where the score
/// of the pair reaches `threshold` billionths, and a group has at least
/// `min_group_size` members.
pub fn cluster(pairs: &Pairs, threshold: u64, min_group_size: usize) -> (r: Clustering)
    requires
        pairs.well_formed(),
    ensures
        group_models(r.groups@) == groups_of(
            pairs.setting(threshold as nat),
            min_group_size as nat,
        ),
        r.leftover@ == leftover_of(pairs.setting(threshold as nat), min_group_size as nat),
{
    let n = pairs.count();
    let ghost c = pairs.setting(threshold as nat);
    let ghost min = min_group_size as nat;
    let mut processed: Vec<bool> = Vec::new();
    let mut k: usize = 0;
    while k < n
        invariant
            k <= n,
            processed.len() == k,
            forall|u: int| 0 <= u < k ==> !processed[u],
        decreases n - k,
    {
        processed.push(false);
        k = k + 1;
    }
    assert(processed@ =~= progress(c, min, 0).processed);
    let mut groups: Vec<IndexGroup> = Vec::new();
    assert(group_models(groups@) =~= progress(c, min, 0).groups);
    let mut i: usize = 0;
    while i < n
        invariant
            i <= n,
            n == pairs.len(),
            pairs.well_formed(),
            c == pairs.setting(threshold as nat),
            min == min_group_size,
            processed.len() == n,
            processed@ == progress(c, min, i as int).processed,
            group_models(groups@) == progress(c, min, i as int).groups,
        decreases n - i,
    {
        if !processed[i] {
            let mut b = seed(pairs, threshold, &processed, i);
            proof {
                lemma_seeded_ok(c, processed@, i, n as int);
                lemma_closed_ok(c, processed@, b@);
            }
            close(pairs, threshold, &processed, &mut b);
            if b.members.len() >= min_group_size {
                let similarity = b.mean();
                let ghost before = groups@;
                mark(&mut processed, &b.members);
                let group = IndexGroup { members: b.members, similarity };
                groups.push(group);
                assert(group_models(groups@) =~= group_models(before).push(group@));
            }
        }
        i = i + 1;
    }
    let leftover = pool(&processed);
    Clustering { groups, leftover }
}

} // verus!
