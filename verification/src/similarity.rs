//! How similar two names are, under each of the five algorithms.
//!
//! Every metric is a function of the two names alone and yields a
//! [`Score`]. Names are compared as they are; [`calculate_similarity`]
//! lowers both first unless the comparison is case-sensitive.

use vstd::prelude::*;
use crate::cli::Algorithm;
use crate::distance::edit_distance;
use crate::distance::longer;
use crate::distance::lemma_edit_distance_bounded;
use crate::order::Standing;
use crate::order::comes_before;
use crate::order::standing;
use crate::score::Score;
use crate::score::SCALE;
use crate::score::ratio_billionths;
use crate::score::FINE;
use crate::score::Ratio;
use crate::score::f64_fine;
use crate::score::ratio_fine;
use crate::score::rounded_blend;
use crate::score::scale_f64;
use crate::score::f64_billionths;
use crate::text::alphanumeric_only;
use crate::text::chars_of;
use crate::text::contains_run;
use crate::text::has_char;
use crate::text::is_alphanumeric_char;
use crate::text::keep_alphanumeric;
use crate::text::lowercase_of;
use crate::text::occurs_in;
use crate::text::string_of;
use crate::text::string_views;

verus! {

/// `strsim::levenshtein` returns the least number of insertions, deletions
/// and substitutions of single characters that turn one string into the
/// other.
pub assume_specification[ strsim::levenshtein ](a: &str, b: &str) -> (d: usize)
    ensures
        d == edit_distance(a@, b@),
;

/// The IEEE 754 bit pattern of what `strsim::jaro_winkler` returns.
pub uninterp spec fn jaro_winkler_bits(a: Seq<char>, b: Seq<char>) -> u64;

/// Calls `strsim::jaro_winkler` and hands out the bit pattern of the
/// number it returns. The number depends on the two strings alone. For
/// one empty string and one that is not it is zero: the function returns
/// that before it looks at any character.
#[verifier::external_body]
fn jaro_winkler_raw(a: &str, b: &str) -> (bits: u64)
    ensures
        bits == jaro_winkler_bits(a@, b@),
        (a@.len() == 0) != (b@.len() == 0) ==> bits == 0,
{
    strsim::jaro_winkler(a, b).to_bits()
}

/// Where the scan of a string stands: the tokens that are complete, and
/// the run of alphanumeric characters that is still open.
pub open spec fn scan(s: Seq<char>) -> (Seq<Seq<char>>, Seq<char>)
    decreases s.len(),
{
    if s.len() == 0 {
        (Seq::empty(), Seq::empty())
    } else {
        let (done, run) = scan(s.drop_last());
        if is_alphanumeric_char(s.last()) {
            (done, run.push(s.last()))
        } else if run.len() > 0 {
            (done.push(run), Seq::empty())
        } else {
            (done, run)
        }
    }
}

/// The tokens of a string: its maximal runs of alphanumeric characters,
/// in order.
pub open spec fn tokens_of(s: Seq<char>) -> Seq<Seq<char>> {
    let (done, run) = scan(s);
    if run.len() > 0 {
        done.push(run)
    } else {
        done
    }
}

/// The position of the last `.` in a string, if there is one.
pub open spec fn last_dot(s: Seq<char>) -> Option<int>
    decreases s.len(),
{
    if s.len() == 0 {
        None
    } else if s.last() == '.' {
        Some(s.len() - 1)
    } else {
        last_dot(s.drop_last())
    }
}

/// A name without its extension: what stands before the last `.`, or the
/// whole name where it has none.
pub open spec fn without_extension(s: Seq<char>) -> Seq<char> {
    match last_dot(s) {
        Some(at) => s.subrange(0, at),
        None => s,
    }
}

/// The form in which names are searched in one another: the alphanumeric
/// characters of the name without its extension, in lower case.
pub open spec fn normalized(s: Seq<char>) -> Seq<char> {
    lowercase_of(alphanumeric_only(without_extension(s)))
}

/// The pattern of the binary64 number one.
pub const ONE_BITS: u64 = 0x3ff0_0000_0000_0000;

/// The Levenshtein similarity of two names as a part of a whole: the
/// length of the longer name in characters less the edit distance, of
/// that length; all of one for two empty names.
pub open spec fn levenshtein_ratio(a: Seq<char>, b: Seq<char>) -> (nat, nat) {
    let whole = longer(a.len(), b.len());
    if whole == 0 {
        (1, 1)
    } else {
        ((whole - edit_distance(a, b)) as nat, whole)
    }
}

/// One minus the edit distance relative to the longer name, both counted
/// in characters; one for two empty names.
pub open spec fn levenshtein_score(a: Seq<char>, b: Seq<char>) -> nat {
    ratio_billionths(levenshtein_ratio(a, b).0, levenshtein_ratio(a, b).1)
}

/// The pattern of the Jaro-Winkler number of two names: that of one for
/// equal names, else that of the two names taken in the order of
/// strings, so that it does not depend on the order in which they are
/// given.
pub open spec fn jaro_pattern(a: Seq<char>, b: Seq<char>) -> u64 {
    if a == b {
        ONE_BITS
    } else if comes_before(a, b) {
        jaro_winkler_bits(a, b)
    } else {
        jaro_winkler_bits(b, a)
    }
}

/// The Jaro-Winkler similarity of two names.
pub open spec fn jaro_score(a: Seq<char>, b: Seq<char>) -> nat {
    f64_billionths(jaro_pattern(a, b))
}

/// The token similarity of two names as a part of a whole: the tokens
/// that the names share, of all their tokens; all of one where neither
/// name has a token, none of one where only one has.
pub open spec fn token_ratio(a: Seq<char>, b: Seq<char>) -> (nat, nat) {
    let ta = tokens_of(a);
    let tb = tokens_of(b);
    if ta.len() == 0 && tb.len() == 0 {
        (1, 1)
    } else if ta.len() == 0 || tb.len() == 0 {
        (0, 1)
    } else {
        (ta.to_set().intersect(tb.to_set()).len(), ta.to_set().union(tb.to_set()).len())
    }
}

/// The tokens that two names share, relative to all their tokens; one
/// where neither name has a token, zero where only one has.
pub open spec fn token_score(a: Seq<char>, b: Seq<char>) -> nat {
    ratio_billionths(token_ratio(a, b).0, token_ratio(a, b).1)
}

/// The score of one normalized name against another that is not shorter:
/// the quotient of their lengths in characters where the first occurs in
/// the second.
pub open spec fn contained_score(short: Seq<char>, long: Seq<char>) -> nat {
    if occurs_in(short, long) {
        ratio_billionths(short.len(), long.len())
    } else {
        0
    }
}

/// Whether one normalized name is contained in the other, relative to the
/// longer of the two; one where both are empty, zero where only one is.
pub open spec fn substring_score(a: Seq<char>, b: Seq<char>) -> nat {
    let x = normalized(a);
    let y = normalized(b);
    if x.len() == 0 && y.len() == 0 {
        SCALE as nat
    } else if x.len() == 0 || y.len() == 0 {
        0
    } else if x.len() <= y.len() {
        contained_score(x, y)
    } else {
        contained_score(y, x)
    }
}

/// Whether a name holds an underscore, a hyphen or a space.
pub open spec fn has_delimiter(s: Seq<char>) -> bool {
    s.contains('_') || s.contains('-') || s.contains(' ')
}

/// The weighted mean of the three similarities: six tenths token, three
/// tenths Jaro-Winkler and one tenth Levenshtein for delimited names;
/// five tenths Jaro-Winkler, three tenths Levenshtein and two tenths
/// token for the others. Levenshtein and token are given as exact
/// quotients, Jaro-Winkler by its binary64 pattern; each is carried to
/// eighteen decimal places, and the mean is rounded once, to the nearest
/// billionth.
pub open spec fn auto_blend(
    levenshtein: (nat, nat),
    jaro: u64,
    token: (nat, nat),
    delimited: bool,
) -> nat {
    let l = ratio_fine(levenshtein.0, levenshtein.1);
    let j = f64_fine(jaro);
    let t = ratio_fine(token.0, token.1);
    if delimited {
        rounded_blend(6, t, 3, j, 1, l)
    } else {
        rounded_blend(5, j, 3, l, 2, t)
    }
}

/// The composite score of two names.
pub open spec fn auto_score(a: Seq<char>, b: Seq<char>) -> nat {
    auto_blend(
        levenshtein_ratio(a, b),
        jaro_pattern(a, b),
        token_ratio(a, b),
        has_delimiter(a) || has_delimiter(b),
    )
}

/// The score of two names as they are, under one algorithm.
pub open spec fn metric(a: Seq<char>, b: Seq<char>, algorithm: Algorithm) -> nat {
    match algorithm {
        Algorithm::Levenshtein => levenshtein_score(a, b),
        Algorithm::Jaro => jaro_score(a, b),
        Algorithm::Token => token_score(a, b),
        Algorithm::Substring => substring_score(a, b),
        Algorithm::Auto => auto_score(a, b),
    }
}

/// The score of two names: that of their lowercase forms, unless the
/// comparison is case-sensitive.
pub open spec fn similarity(
    a: Seq<char>,
    b: Seq<char>,
    algorithm: Algorithm,
    case_sensitive: bool,
) -> nat {
    if case_sensitive {
        metric(a, b, algorithm)
    } else {
        metric(lowercase_of(a), lowercase_of(b), algorithm)
    }
}

/// The patterns of the binary64 numbers zero and one stand for the
/// scores zero and one.
pub proof fn lemma_f64_zero_and_one()
    ensures
        f64_billionths(0) == 0,
        f64_billionths(ONE_BITS) == SCALE,
{
    vstd::arithmetic::power2::lemma_pow2_pos(1075);
    vstd::arithmetic::power2::lemma_pow2_strictly_increases(30, 1075);
    vstd::arithmetic::power2::lemma2_to64();
    assert(0x3ff0_0000_0000_0000nat / 0x10_0000_0000_0000 == 1023);
    let p = vstd::arithmetic::power2::pow2(1075) as int;
    let s = SCALE as int;
    assert(s / p == 0) by (nonlinear_arith)
        requires
            0 <= s < p,
    ;
}

/// Splits a name into its maximal runs of alphanumeric characters.
pub fn tokenize(s: &str) -> (tokens: Vec<String>)
    ensures
        string_views(tokens@) == tokens_of(s@),
{
    let chars = chars_of(s);
    let n = chars.len();
    let mut tokens: Vec<String> = Vec::new();
    let mut current = String::new();
    let mut i: usize = 0;
    assert(string_views(tokens@) =~= Seq::<Seq<char>>::empty());
    while i < n
        invariant
            i <= n,
            n == chars.len(),
            chars@ == s@,
            scan(s@.subrange(0, i as int)) == (string_views(tokens@), current@),
        decreases n - i,
    {
        let c = chars[i];
        assert(s@.subrange(0, i + 1).drop_last() =~= s@.subrange(0, i as int));
        if c.is_alphanumeric() {
            current.push(c);
        } else if !current.as_str().is_empty() {
            assert(string_views(tokens@.push(current)) =~= string_views(tokens@).push(current@));
            tokens.push(current);
            current = String::new();
        }
        i = i + 1;
    }
    assert(s@.subrange(0, n as int) =~= s@);
    if !current.as_str().is_empty() {
        assert(string_views(tokens@.push(current)) =~= string_views(tokens@).push(current@));
        tokens.push(current);
    }
    tokens
}

/// Strips the extension, drops what is not alphanumeric and lowers the
/// rest.
pub fn normalize_for_comparison(s: &str) -> (r: String)
    ensures
        r@ == normalized(s@),
{
    let chars = chars_of(s);
    let n = chars.len();
    let mut end: usize = n;
    let mut found = false;
    let mut i: usize = 0;
    while i < n
        invariant
            i <= n,
            n == chars.len(),
            chars@ == s@,
            found ==> end < i && last_dot(s@.subrange(0, i as int)) == Some(end as int),
            !found ==> end == n && last_dot(s@.subrange(0, i as int)) is None,
        decreases n - i,
    {
        assert(s@.subrange(0, i + 1).drop_last() =~= s@.subrange(0, i as int));
        if chars[i] == '.' {
            end = i;
            found = true;
        }
        i = i + 1;
    }
    assert(s@.subrange(0, n as int) =~= s@);
    let kept = keep_alphanumeric(&chars, end);
    let plain = string_of(&kept);
    plain.as_str().to_lowercase()
}

/// The Levenshtein similarity of two names as an exact quotient.
pub fn levenshtein_ratio_of(s1: &str, s2: &str) -> (r: Ratio)
    ensures
        r.well_formed(),
        (r.num as nat, r.den as nat) == levenshtein_ratio(s1@, s2@),
{
    let distance = strsim::levenshtein(s1, s2);
    let len1 = s1.unicode_len();
    let len2 = s2.unicode_len();
    let max_len = if len1 >= len2 {
        len1
    } else {
        len2
    };
    if max_len == 0 {
        Ratio { num: 1, den: 1 }
    } else {
        proof {
            lemma_edit_distance_bounded(s1@, s2@);
        }
        Ratio { num: (max_len - distance) as u128, den: max_len as u128 }
    }
}

/// The Levenshtein similarity of two names.
pub fn levenshtein_similarity(s1: &str, s2: &str) -> (r: Score)
    ensures
        r@ == levenshtein_score(s1@, s2@),
{
    levenshtein_ratio_of(s1, s2).score()
}

/// The pattern of the Jaro-Winkler number of two names. Equal names have
/// the number one; other names are handed to the outside function in the
/// order of strings.
pub fn jaro_pattern_of(s1: &str, s2: &str) -> (bits: u64)
    ensures
        bits == jaro_pattern(s1@, s2@),
        (s1@.len() == 0) != (s2@.len() == 0) ==> bits == 0,
{
    let chars1 = chars_of(s1);
    let chars2 = chars_of(s2);
    match standing(&chars1, &chars2) {
        Standing::Same => ONE_BITS,
        Standing::Before => jaro_winkler_raw(s1, s2),
        Standing::After => jaro_winkler_raw(s2, s1),
    }
}

/// The Jaro-Winkler similarity of two names.
pub fn jaro_similarity(s1: &str, s2: &str) -> (r: Score)
    ensures
        r@ == jaro_score(s1@, s2@),
        (s1@.len() == 0) != (s2@.len() == 0) ==> r@ == 0,
{
    proof {
        lemma_f64_zero_and_one();
    }
    Score::from_f64_bits(jaro_pattern_of(s1, s2))
}

/// Whether `token` is among `list`.
fn holds(list: &Vec<String>, token: &String) -> (b: bool)
    ensures
        b == string_views(list@).contains(token@),
{
    let n = list.len();
    let mut i: usize = 0;
    while i < n
        invariant
            i <= n,
            n == list.len(),
            forall|k: int| 0 <= k < i ==> string_views(list@)[k] != token@,
        decreases n - i,
    {
        if list[i] == *token {
            assert(string_views(list@)[i as int] == token@);
            return true;
        }
        i = i + 1;
    }
    false
}

/// The tokens of `tokens`, each once, in the order of their first
/// occurrence.
fn distinct(tokens: &Vec<String>) -> (d: Vec<String>)
    ensures
        string_views(d@).no_duplicates(),
        string_views(d@).to_set() == string_views(tokens@).to_set(),
{
    let n = tokens.len();
    let ghost all = string_views(tokens@);
    let mut d: Vec<String> = Vec::new();
    let mut i: usize = 0;
    assert(string_views(d@) =~= all.subrange(0, 0));
    while i < n
        invariant
            i <= n,
            n == tokens.len(),
            all == string_views(tokens@),
            string_views(d@).no_duplicates(),
            string_views(d@).to_set() == all.subrange(0, i as int).to_set(),
        decreases n - i,
    {
        let ghost before = string_views(d@);
        let ghost seen = all.subrange(0, i as int);
        proof {
            assert(all.subrange(0, i + 1) =~= seen.push(all[i as int]));
            seen.lemma_push_to_set_commute(all[i as int]);
        }
        if !holds(&d, &tokens[i]) {
            let token = tokens[i].clone();
            proof {
                assert(string_views(d@.push(token)) =~= before.push(token@));
                before.lemma_push_to_set_commute(token@);
            }
            d.push(token);
        } else {
            proof {
                assert(before.to_set().contains(all[i as int]));
                assert(before.to_set().insert(all[i as int]) =~= before.to_set());
            }
        }
        i = i + 1;
    }
    assert(all.subrange(0, n as int) =~= all);
    d
}

/// How many of the tokens of `d1` are among `d2`.
fn count_shared(d1: &Vec<String>, d2: &Vec<String>) -> (shared: usize)
    requires
        string_views(d1@).no_duplicates(),
    ensures
        shared == string_views(d1@).to_set().intersect(string_views(d2@).to_set()).len(),
        shared <= d1.len(),
{
    let n = d1.len();
    let ghost v1 = string_views(d1@);
    let ghost other = string_views(d2@).to_set();
    let mut shared: usize = 0;
    let mut i: usize = 0;
    proof {
        assert(v1.subrange(0, 0).to_set().intersect(other) =~= Set::<Seq<char>>::empty());
    }
    while i < n
        invariant
            i <= n,
            n == d1.len(),
            v1 == string_views(d1@),
            v1.no_duplicates(),
            other == string_views(d2@).to_set(),
            shared <= i,
            shared == v1.subrange(0, i as int).to_set().intersect(other).len(),
        decreases n - i,
    {
        let ghost seen = v1.subrange(0, i as int);
        let ghost x = v1[i as int];
        proof {
            assert(v1.subrange(0, i + 1) =~= seen.push(x));
            seen.lemma_push_to_set_commute(x);
            vstd::seq_lib::seq_to_set_is_finite(seen);
            vstd::seq_lib::seq_to_set_is_finite(string_views(d2@));
            assert(!seen.to_set().contains(x)) by {
                if seen.to_set().contains(x) {
                    let k = choose|k: int| 0 <= k < seen.len() && seen[k] == x;
                    assert(v1[k] == v1[i as int]);
                }
            }
        }
        if holds(d2, &d1[i]) {
            proof {
                assert(other.contains(x));
                assert(seen.to_set().insert(x).intersect(other) =~= seen.to_set().intersect(
                    other,
                ).insert(x));
            }
            shared = shared + 1;
        } else {
            proof {
                assert(seen.to_set().insert(x).intersect(other) =~= seen.to_set().intersect(other));
            }
        }
        i = i + 1;
    }
    assert(v1.subrange(0, n as int) =~= v1);
    shared
}

/// The token similarity of two names as an exact quotient.
pub fn token_ratio_of(s1: &str, s2: &str) -> (r: Ratio)
    ensures
        r.well_formed(),
        (r.num as nat, r.den as nat) == token_ratio(s1@, s2@),
{
    let tokens1 = tokenize(s1);
    let tokens2 = tokenize(s2);
    if tokens1.len() == 0 && tokens2.len() == 0 {
        return Ratio { num: 1, den: 1 };
    }
    if tokens1.len() == 0 || tokens2.len() == 0 {
        return Ratio { num: 0, den: 1 };
    }
    let set1 = distinct(&tokens1);
    let set2 = distinct(&tokens2);
    let intersection = count_shared(&set1, &set2);
    let ghost a = tokens_of(s1@).to_set();
    let ghost b = tokens_of(s2@).to_set();
    proof {
        vstd::seq_lib::seq_to_set_is_finite(tokens_of(s1@));
        vstd::seq_lib::seq_to_set_is_finite(tokens_of(s2@));
        string_views(set1@).unique_seq_to_set();
        string_views(set2@).unique_seq_to_set();
        vstd::set_lib::lemma_set_intersect_union_lens(a, b);
        vstd::set_lib::lemma_len_intersect(a, b);
        assert(a.intersect(b).subset_of(a.union(b)));
        vstd::set_lib::lemma_len_subset(a.intersect(b), a.union(b));
        assert(a.contains(tokens_of(s1@)[0]));
        assert(a.union(b).contains(tokens_of(s1@)[0]));
        assert(a.union(b).len() > 0) by {
            if a.union(b).len() == 0 {
                a.union(b).lemma_len0_is_empty();
            }
        }
    }
    let union: u128 = (set1.len() as u128) + (set2.len() as u128) - (intersection as u128);
    Ratio { num: intersection as u128, den: union }
}

/// The token similarity of two names.
pub fn token_similarity(s1: &str, s2: &str) -> (r: Score)
    ensures
        r@ == token_score(s1@, s2@),
{
    token_ratio_of(s1, s2).score()
}

/// The substring similarity of two names.
pub fn substring_similarity(s1: &str, s2: &str) -> (r: Score)
    ensures
        r@ == substring_score(s1@, s2@),
{
    let norm1 = normalize_for_comparison(s1);
    let norm2 = normalize_for_comparison(s2);
    let chars1 = chars_of(norm1.as_str());
    let chars2 = chars_of(norm2.as_str());
    let len1 = chars1.len();
    let len2 = chars2.len();
    if len1 == 0 && len2 == 0 {
        return Score::one();
    }
    if len1 == 0 || len2 == 0 {
        return Score::zero();
    }
    if len1 <= len2 {
        if contains_run(&chars2, &chars1) {
            Score::from_ratio(len1, len2)
        } else {
            Score::zero()
        }
    } else {
        if contains_run(&chars1, &chars2) {
            Score::from_ratio(len2, len1)
        } else {
            Score::zero()
        }
    }
}

/// Whether a name holds an underscore, a hyphen or a space.
pub fn is_delimited(s: &str) -> (b: bool)
    ensures
        b == has_delimiter(s@),
{
    let chars = chars_of(s);
    has_char(&chars, '_') || has_char(&chars, '-') || has_char(&chars, ' ')
}

/// Weighs the three similarities of a pair of names, by whether one of
/// the names is delimited. Levenshtein and token are given as exact
/// quotients, Jaro-Winkler by its binary64 pattern; the mean is rounded
/// once, to the nearest billionth.
pub fn blend_parts(levenshtein: Ratio, jaro: u64, token: Ratio, delimited: bool) -> (r: Score)
    requires
        levenshtein.well_formed(),
        token.well_formed(),
    ensures
        r@ == auto_blend(
            (levenshtein.num as nat, levenshtein.den as nat),
            jaro,
            (token.num as nat, token.den as nat),
            delimited,
        ),
{
    let l = levenshtein.fine();
    let j = scale_f64(jaro, FINE);
    let t = token.fine();
    if delimited {
        Score::blend(6, t, 3, j, 1, l)
    } else {
        Score::blend(5, j, 3, l, 2, t)
    }
}

/// The composite similarity of two names.
pub fn auto_similarity(s1: &str, s2: &str) -> (r: Score)
    ensures
        r@ == auto_score(s1@, s2@),
{
    let levenshtein = levenshtein_ratio_of(s1, s2);
    let jaro = jaro_pattern_of(s1, s2);
    let token = token_ratio_of(s1, s2);
    let has_delimiters = is_delimited(s1) || is_delimited(s2);
    blend_parts(levenshtein, jaro, token, has_delimiters)
}

/// The similarity of two names as they are, under one algorithm.
pub fn compare(s1: &str, s2: &str, algorithm: &Algorithm) -> (r: Score)
    ensures
        r@ == metric(s1@, s2@, *algorithm),
{
    match algorithm {
        Algorithm::Levenshtein => levenshtein_similarity(s1, s2),
        Algorithm::Jaro => jaro_similarity(s1, s2),
        Algorithm::Token => token_similarity(s1, s2),
        Algorithm::Substring => substring_similarity(s1, s2),
        Algorithm::Auto => auto_similarity(s1, s2),
    }
}

/// The similarity of two names under one algorithm. Unless the comparison
/// is case-sensitive, both names are lowered first.
pub fn calculate_similarity(s1: &str, s2: &str, algorithm: &Algorithm, case_sensitive: bool) -> (r:
    Score)
    ensures
        r@ == similarity(s1@, s2@, *algorithm, case_sensitive),
{
    if case_sensitive {
        compare(s1, s2, algorithm)
    } else {
        let lower1 = s1.to_lowercase();
        let lower2 = s2.to_lowercase();
        compare(lower1.as_str(), lower2.as_str(), algorithm)
    }
}

} // verus!
