//! What holds of the metrics for all names: every score lies between
//! zero and one, does not depend on the order of the names, and is one
//! for a name with itself.

use vstd::prelude::*;
use vstd::arithmetic::power2::pow2;
use crate::cli::Algorithm;
use crate::distance::lemma_edit_distance_bounded;
use crate::distance::lemma_edit_distance_same;
use crate::distance::lemma_edit_distance_symmetric;
use crate::order::lemma_order_strict;
use crate::order::lemma_order_total;
use crate::score::FINE;
use crate::score::HALF_STEP;
use crate::score::PERCENT;
use crate::score::SCALE;
use crate::score::STEP;
use crate::score::f64_exponent;
use crate::score::f64_fine;
use crate::score::f64_mantissa;
use crate::score::f64_negative;
use crate::score::f64_shift;
use crate::score::lemma_f64_billionths_bounded;
use crate::score::lemma_f64_reaches_percent;
use crate::score::lemma_f64_scaled_bounded;
use crate::score::lemma_ratio_bounded;
use crate::score::lemma_ratio_fine;
use crate::score::lemma_ratio_reaches_percent;
use crate::score::lemma_rounded_blend;
use crate::score::ratio_fine;
use crate::similarity::ONE_BITS;
use crate::similarity::auto_score;
use crate::similarity::contained_score;
use crate::similarity::has_delimiter;
use crate::similarity::jaro_pattern;
use crate::similarity::jaro_score;
use crate::similarity::levenshtein_ratio;
use crate::similarity::levenshtein_score;
use crate::similarity::metric;
use crate::similarity::normalized;
use crate::similarity::similarity;
use crate::similarity::substring_score;
use crate::similarity::token_ratio;
use crate::similarity::token_score;
use crate::similarity::tokens_of;
use crate::text::lemma_occurs_in_itself;
use crate::text::lowercase_of;
use crate::text::occurs_at;
use crate::text::occurs_in;

verus! {

/// The form in which a name is compared.
pub open spec fn compared_form(a: Seq<char>, case_sensitive: bool) -> Seq<char> {
    if case_sensitive {
        a
    } else {
        lowercase_of(a)
    }
}

/// A string that occurs in one that is no longer is that string.
pub proof fn lemma_occurs_in_no_longer(x: Seq<char>, y: Seq<char>)
    requires
        occurs_in(x, y),
        y.len() <= x.len(),
    ensures
        x == y,
{
    let k = choose|k: int| occurs_at(x, y, k);
    assert(y.subrange(0, y.len() as int) =~= y);
}

/// The Levenshtein similarity is a part of a whole that is not nothing.
pub proof fn lemma_levenshtein_ratio(a: Seq<char>, b: Seq<char>)
    ensures
        0 < levenshtein_ratio(a, b).1,
        levenshtein_ratio(a, b).0 <= levenshtein_ratio(a, b).1,
        levenshtein_ratio(a, b) == levenshtein_ratio(b, a),
        levenshtein_ratio(a, a).0 == levenshtein_ratio(a, a).1,
{
    lemma_edit_distance_bounded(a, b);
    lemma_edit_distance_symmetric(a, b);
    lemma_edit_distance_same(a);
}

/// The token similarity is a part of a whole that is not nothing.
pub proof fn lemma_token_ratio(a: Seq<char>, b: Seq<char>)
    ensures
        0 < token_ratio(a, b).1,
        token_ratio(a, b).0 <= token_ratio(a, b).1,
        token_ratio(a, b) == token_ratio(b, a),
        token_ratio(a, a).0 == token_ratio(a, a).1,
{
    let sa = tokens_of(a).to_set();
    let sb = tokens_of(b).to_set();
    vstd::seq_lib::seq_to_set_is_finite(tokens_of(a));
    vstd::seq_lib::seq_to_set_is_finite(tokens_of(b));
    assert(sa.intersect(sb).subset_of(sa.union(sb)));
    vstd::set_lib::lemma_len_subset(sa.intersect(sb), sa.union(sb));
    assert(sa.intersect(sb) =~= sb.intersect(sa));
    assert(sa.union(sb) =~= sb.union(sa));
    assert(sa.intersect(sa) =~= sa);
    assert(sa.union(sa) =~= sa);
    if tokens_of(a).len() > 0 {
        assert(sa.contains(tokens_of(a)[0]));
        assert(sa.union(sb).contains(tokens_of(a)[0]));
        if sa.union(sb).len() == 0 {
            sa.union(sb).lemma_len0_is_empty();
        }
    }
}

/// The pattern of the Jaro-Winkler number does not depend on the order
/// of the names, and is that of one for a name with itself.
pub proof fn lemma_jaro_pattern(a: Seq<char>, b: Seq<char>)
    ensures
        jaro_pattern(a, b) == jaro_pattern(b, a),
        jaro_pattern(a, a) == ONE_BITS,
{
    lemma_order_total(a, b);
    lemma_order_strict(a, b);
}

/// The pattern of the binary64 number one stands for all fine parts.
pub proof fn lemma_f64_fine_one()
    ensures
        f64_fine(ONE_BITS) == FINE,
{
    assert(0x3ff0_0000_0000_0000nat / 0x10_0000_0000_0000 == 1023);
}

/// The Levenshtein score is at most one.
pub proof fn lemma_levenshtein_bounded(a: Seq<char>, b: Seq<char>)
    ensures
        levenshtein_score(a, b) <= SCALE,
{
    lemma_levenshtein_ratio(a, b);
    lemma_ratio_bounded(levenshtein_ratio(a, b).0, levenshtein_ratio(a, b).1);
}

/// The token score is at most one.
pub proof fn lemma_token_bounded(a: Seq<char>, b: Seq<char>)
    ensures
        token_score(a, b) <= SCALE,
{
    lemma_token_ratio(a, b);
    lemma_ratio_bounded(token_ratio(a, b).0, token_ratio(a, b).1);
}

/// The substring score is at most one.
pub proof fn lemma_substring_bounded(a: Seq<char>, b: Seq<char>)
    ensures
        substring_score(a, b) <= SCALE,
{
    let x = normalized(a);
    let y = normalized(b);
    if x.len() <= y.len() {
        lemma_ratio_bounded(x.len(), y.len());
    } else {
        lemma_ratio_bounded(y.len(), x.len());
    }
}

/// The composite score is at most one.
pub proof fn lemma_auto_bounded(a: Seq<char>, b: Seq<char>)
    ensures
        auto_score(a, b) <= SCALE,
{
    lemma_levenshtein_ratio(a, b);
    lemma_token_ratio(a, b);
    let l = ratio_fine(levenshtein_ratio(a, b).0, levenshtein_ratio(a, b).1);
    let j = f64_fine(jaro_pattern(a, b));
    let t = ratio_fine(token_ratio(a, b).0, token_ratio(a, b).1);
    lemma_ratio_fine(levenshtein_ratio(a, b).0, levenshtein_ratio(a, b).1);
    lemma_ratio_fine(token_ratio(a, b).0, token_ratio(a, b).1);
    lemma_f64_scaled_bounded(jaro_pattern(a, b), FINE as nat);
    lemma_rounded_blend(6, t, 3, j, 1, l);
    lemma_rounded_blend(5, j, 3, l, 2, t);
}

/// A score is at most one, whatever the names and the algorithm.
pub proof fn lemma_metric_bounded(a: Seq<char>, b: Seq<char>, algorithm: Algorithm)
    ensures
        metric(a, b, algorithm) <= SCALE,
{
    lemma_levenshtein_bounded(a, b);
    lemma_f64_billionths_bounded(jaro_pattern(a, b));
    lemma_token_bounded(a, b);
    lemma_substring_bounded(a, b);
    lemma_auto_bounded(a, b);
}

/// The Levenshtein score does not depend on the order of the names.
pub proof fn lemma_levenshtein_symmetric(a: Seq<char>, b: Seq<char>)
    ensures
        levenshtein_score(a, b) == levenshtein_score(b, a),
{
    lemma_levenshtein_ratio(a, b);
}

/// The token score does not depend on the order of the names.
pub proof fn lemma_token_symmetric(a: Seq<char>, b: Seq<char>)
    ensures
        token_score(a, b) == token_score(b, a),
{
    lemma_token_ratio(a, b);
}

/// The substring score does not depend on the order of the names.
pub proof fn lemma_substring_symmetric(a: Seq<char>, b: Seq<char>)
    ensures
        substring_score(a, b) == substring_score(b, a),
{
    let x = normalized(a);
    let y = normalized(b);
    if x.len() == y.len() {
        if occurs_in(x, y) {
            lemma_occurs_in_no_longer(x, y);
        }
        if occurs_in(y, x) {
            lemma_occurs_in_no_longer(y, x);
        }
    }
}

/// The Jaro-Winkler score does not depend on the order of the names.
pub proof fn lemma_jaro_symmetric(a: Seq<char>, b: Seq<char>)
    ensures
        jaro_score(a, b) == jaro_score(b, a),
{
    lemma_jaro_pattern(a, b);
}

/// The composite score does not depend on the order of the names.
pub proof fn lemma_auto_symmetric(a: Seq<char>, b: Seq<char>)
    ensures
        auto_score(a, b) == auto_score(b, a),
{
    lemma_levenshtein_ratio(a, b);
    lemma_token_ratio(a, b);
    lemma_jaro_pattern(a, b);
    assert(has_delimiter(a) || has_delimiter(b) <==> has_delimiter(b) || has_delimiter(a));
}

/// The Levenshtein score of a name with itself is one.
pub proof fn lemma_levenshtein_of_itself(a: Seq<char>)
    ensures
        levenshtein_score(a, a) == SCALE,
{
    lemma_levenshtein_ratio(a, a);
    lemma_ratio_bounded(levenshtein_ratio(a, a).0, levenshtein_ratio(a, a).1);
}

/// The token score of a name with itself is one.
pub proof fn lemma_token_of_itself(a: Seq<char>)
    ensures
        token_score(a, a) == SCALE,
{
    lemma_token_ratio(a, a);
    lemma_ratio_bounded(token_ratio(a, a).0, token_ratio(a, a).1);
}

/// The substring score of a name with itself is one.
pub proof fn lemma_substring_of_itself(a: Seq<char>)
    ensures
        substring_score(a, a) == SCALE,
{
    let x = normalized(a);
    if x.len() > 0 {
        lemma_occurs_in_itself(x);
        lemma_ratio_bounded(x.len(), x.len());
    }
}

/// The Jaro-Winkler score of a name with itself is one.
pub proof fn lemma_jaro_of_itself(a: Seq<char>)
    ensures
        jaro_score(a, a) == SCALE,
{
    assert(0x3ff0_0000_0000_0000nat / 0x10_0000_0000_0000 == 1023);
}

/// The composite score of a name with itself is one.
pub proof fn lemma_auto_of_itself(a: Seq<char>)
    ensures
        auto_score(a, a) == SCALE,
{
    lemma_levenshtein_ratio(a, a);
    lemma_token_ratio(a, a);
    lemma_ratio_fine(levenshtein_ratio(a, a).0, levenshtein_ratio(a, a).1);
    lemma_ratio_fine(token_ratio(a, a).0, token_ratio(a, a).1);
    lemma_f64_fine_one();
    lemma_rounded_blend(6, FINE as nat, 3, FINE as nat, 1, FINE as nat);
    lemma_rounded_blend(5, FINE as nat, 3, FINE as nat, 2, FINE as nat);
}

/// Rounding loses nothing at a threshold: the Levenshtein score reaches a
/// whole percentage exactly where the exact quotient does.
pub proof fn lemma_levenshtein_reaches(a: Seq<char>, b: Seq<char>, percent: nat)
    ensures
        levenshtein_score(a, b) >= percent * PERCENT <==> levenshtein_ratio(a, b).0 * 100
            >= percent * levenshtein_ratio(a, b).1,
{
    lemma_levenshtein_ratio(a, b);
    lemma_ratio_reaches_percent(levenshtein_ratio(a, b).0, levenshtein_ratio(a, b).1, percent);
}

/// Rounding loses nothing at a threshold: the token score reaches a whole
/// percentage exactly where the exact quotient of shared tokens by all
/// tokens does.
pub proof fn lemma_token_reaches(a: Seq<char>, b: Seq<char>, percent: nat)
    ensures
        token_score(a, b) >= percent * PERCENT <==> token_ratio(a, b).0 * 100 >= percent
            * token_ratio(a, b).1,
{
    lemma_token_ratio(a, b);
    lemma_ratio_reaches_percent(token_ratio(a, b).0, token_ratio(a, b).1, percent);
}

/// Rounding loses nothing at a threshold: the score of a normalized name
/// that occurs in another reaches a whole percentage exactly where the
/// exact quotient of their lengths does.
pub proof fn lemma_contained_reaches(short: Seq<char>, long: Seq<char>, percent: nat)
    requires
        occurs_in(short, long),
        long.len() > 0,
    ensures
        contained_score(short, long) >= percent * PERCENT <==> short.len() * 100 >= percent
            * long.len(),
{
    lemma_ratio_reaches_percent(short.len(), long.len(), percent);
}

/// The Jaro-Winkler score of two names whose number `m / 2^k` lies
/// between 0 and 1 reaches a whole percentage exactly where a real number
/// that rounds to that binary64 number does: where `(2 m + 1) / 2^(k + 1)`
/// reaches it. So a pair whose number is the binary64 number nearest to
/// the percentage reaches the percentage.
pub proof fn lemma_jaro_reaches(a: Seq<char>, b: Seq<char>, percent: nat)
    requires
        !f64_negative(jaro_pattern(a, b)),
        f64_exponent(jaro_pattern(a, b)) < 1023,
    ensures
        jaro_score(a, b) >= percent * PERCENT <==> (2 * f64_mantissa(jaro_pattern(a, b)) + 1) * 100
            >= percent * pow2(f64_shift(jaro_pattern(a, b)) + 1),
{
    lemma_f64_reaches_percent(jaro_pattern(a, b), percent);
}

/// The composite score is the weighted mean of its three parts, each
/// carried to fine parts, within half a billionth: with `sum` the
/// weighted sum of the parts, in tenths of fine parts, the score times a
/// billionth lies within half a billionth of `sum`.
pub proof fn lemma_auto_close(a: Seq<char>, b: Seq<char>)
    ensures
        ({
            let l = ratio_fine(levenshtein_ratio(a, b).0, levenshtein_ratio(a, b).1);
            let j = f64_fine(jaro_pattern(a, b));
            let t = ratio_fine(token_ratio(a, b).0, token_ratio(a, b).1);
            let sum = if has_delimiter(a) || has_delimiter(b) {
                6 * t + 3 * j + 1 * l
            } else {
                5 * j + 3 * l + 2 * t
            };
            auto_score(a, b) * STEP <= sum + HALF_STEP && sum < auto_score(a, b) * STEP + HALF_STEP
        }),
{
    lemma_levenshtein_ratio(a, b);
    lemma_token_ratio(a, b);
    let l = ratio_fine(levenshtein_ratio(a, b).0, levenshtein_ratio(a, b).1);
    let j = f64_fine(jaro_pattern(a, b));
    let t = ratio_fine(token_ratio(a, b).0, token_ratio(a, b).1);
    lemma_ratio_fine(levenshtein_ratio(a, b).0, levenshtein_ratio(a, b).1);
    lemma_ratio_fine(token_ratio(a, b).0, token_ratio(a, b).1);
    lemma_f64_scaled_bounded(jaro_pattern(a, b), FINE as nat);
    lemma_rounded_blend(6, t, 3, j, 1, l);
    lemma_rounded_blend(5, j, 3, l, 2, t);
}

/// Symmetry: under every algorithm the similarity of two names does not
/// depend on their order.
pub proof fn lemma_similarity_symmetric(
    a: Seq<char>,
    b: Seq<char>,
    algorithm: Algorithm,
    case_sensitive: bool,
)
    ensures
        similarity(a, b, algorithm, case_sensitive) == similarity(b, a, algorithm, case_sensitive),
{
    let x = compared_form(a, case_sensitive);
    let y = compared_form(b, case_sensitive);
    lemma_levenshtein_symmetric(x, y);
    lemma_jaro_symmetric(x, y);
    lemma_token_symmetric(x, y);
    lemma_substring_symmetric(x, y);
    lemma_auto_symmetric(x, y);
}

/// Identity: under every algorithm the similarity of a name with itself
/// is one.
pub proof fn lemma_similarity_of_itself(a: Seq<char>, algorithm: Algorithm, case_sensitive: bool)
    ensures
        similarity(a, a, algorithm, case_sensitive) == SCALE,
{
    let x = compared_form(a, case_sensitive);
    lemma_levenshtein_of_itself(x);
    lemma_jaro_of_itself(x);
    lemma_token_of_itself(x);
    lemma_substring_of_itself(x);
    lemma_auto_of_itself(x);
}

/// Range: every similarity lies between zero and one.
pub proof fn lemma_similarity_bounded(
    a: Seq<char>,
    b: Seq<char>,
    algorithm: Algorithm,
    case_sensitive: bool,
)
    ensures
        similarity(a, b, algorithm, case_sensitive) <= SCALE,
{
    lemma_metric_bounded(
        compared_form(a, case_sensitive),
        compared_form(b, case_sensitive),
        algorithm,
    );
}

} // verus!
