use similarity_checker::cli::Algorithm;
use similarity_checker::score::Score;
use similarity_checker::similarity::auto_similarity;
use similarity_checker::score::Ratio;
use similarity_checker::similarity::blend_parts;
use similarity_checker::similarity::jaro_pattern_of;
use similarity_checker::similarity::levenshtein_ratio_of;
use similarity_checker::similarity::token_ratio_of;
use similarity_checker::similarity::calculate_similarity;
use similarity_checker::similarity::compare;
use similarity_checker::similarity::is_delimited;
use similarity_checker::similarity::jaro_similarity;
use similarity_checker::similarity::levenshtein_similarity;
use similarity_checker::similarity::normalize_for_comparison;
use similarity_checker::similarity::substring_similarity;
use similarity_checker::similarity::token_similarity;
use similarity_checker::similarity::tokenize;

fn value(score: Score) -> f64 {
    score.billionths() as f64 / 1e9
}

fn all_algorithms() -> Vec<Algorithm> {
    vec![
        Algorithm::Levenshtein,
        Algorithm::Jaro,
        Algorithm::Token,
        Algorithm::Substring,
        Algorithm::Auto,
    ]
}

#[test]
fn test_levenshtein_similarity() {
    assert!((value(levenshtein_similarity("hello", "hello")) - 1.0).abs() < f64::EPSILON);
    assert!((value(levenshtein_similarity("hello", "hallo")) - 0.8).abs() < 0.1);
    assert!((value(levenshtein_similarity("abc", "xyz")) - 0.0).abs() < 0.1);
}

#[test]
fn test_jaro_similarity() {
    assert!(value(jaro_similarity("hello", "hello")) > 0.9);
    assert!(value(jaro_similarity("hello", "hallo")) > 0.8);
}

#[test]
fn test_token_similarity() {
    assert!((value(token_similarity("report_v1.pdf", "report_v2.pdf")) - 0.5).abs() < 0.1);
    assert!((value(token_similarity("file_name_test", "file_name_prod")) - 0.5).abs() < 0.1);
}

#[test]
fn test_tokenize() {
    assert_eq!(tokenize("file_name.txt"), vec!["file", "name", "txt"]);
    assert_eq!(tokenize("report-v1"), vec!["report", "v1"]);
    assert_eq!(tokenize("simple"), vec!["simple"]);
}

#[test]
fn test_normalize_for_comparison() {
    assert_eq!(normalize_for_comparison("AI_Usage.epub"), "aiusage");
    assert_eq!(normalize_for_comparison("AI usage.epub"), "aiusage");
    assert_eq!(
        normalize_for_comparison("AI_Usage_in_MSFT-Unknown.epub"),
        "aiusageinmsftunknown"
    );
    assert_eq!(normalize_for_comparison("AI_Usage_in_MSFT.epub"), "aiusageinmsft");
    assert_eq!(normalize_for_comparison("report.pdf"), "report");
    assert_eq!(normalize_for_comparison("report_final.pdf"), "reportfinal");
}

#[test]
fn test_substring_similarity() {
    // Perfect match
    assert!((value(substring_similarity("test.txt", "test.txt")) - 1.0).abs() < f64::EPSILON);

    // Substring match with punctuation differences
    assert!(
        (value(substring_similarity("AI_Usage.epub", "AI usage.epub")) - 1.0).abs() < f64::EPSILON
    );

    // One is substring of another
    let similarity = value(substring_similarity(
        "AI_Usage_in_MSFT.epub",
        "AI_Usage_in_MSFT-Unknown.epub",
    ));
    assert!(similarity > 0.6, "Expected similarity > 0.6, got {}", similarity);

    // Simple substring case
    let similarity = value(substring_similarity("report.pdf", "report_final.pdf"));
    assert!(similarity > 0.5, "Expected similarity > 0.5, got {}", similarity);

    // No substring relationship
    assert!(
        (value(substring_similarity("file1.txt", "document2.pdf")) - 0.0).abs() < f64::EPSILON
    );

    // Empty strings
    assert!((value(substring_similarity("", "")) - 1.0).abs() < f64::EPSILON);
    assert!((value(substring_similarity("test", "")) - 0.0).abs() < f64::EPSILON);
}

#[test]
fn levenshtein_counts_edits_against_the_longer_name() {
    // kitten -> sitting takes three edits; the longer name has seven bytes.
    assert_eq!(levenshtein_similarity("kitten", "sitting").billionths(), 571_428_571);
    assert_eq!(levenshtein_similarity("abc", "abd").billionths(), 666_666_666);
    assert_eq!(levenshtein_similarity("", "").billionths(), 1_000_000_000);
    assert_eq!(levenshtein_similarity("abcd", "").billionths(), 0);
}

#[test]
fn levenshtein_measures_both_names_in_characters() {
    // One edit between two names of one character each.
    assert_eq!(levenshtein_similarity("\u{e9}", "e").billionths(), 0);
    // One edit in four characters, whatever their bytes.
    assert_eq!(levenshtein_similarity("caf\u{e9}", "cafe").billionths(), 750_000_000);
    let ratio = levenshtein_ratio_of("caf\u{e9}", "cafe");
    assert_eq!((ratio.num, ratio.den), (3, 4));
    let ratio = levenshtein_ratio_of("", "");
    assert_eq!((ratio.num, ratio.den), (1, 1));
}

#[test]
fn jaro_follows_the_outside_function() {
    let pairs = [
        ("cheeseburger", "cheese fries"),
        ("hello", "hallo"),
        ("martha", "marhta"),
        ("dixon", "dicksonx"),
        ("abcde", "abfgh"),
        ("abc", "xyz"),
    ];
    for (a, b) in pairs {
        let (first, second) = if a <= b { (a, b) } else { (b, a) };
        let number = strsim::jaro_winkler(first, second);
        assert_eq!(jaro_pattern_of(a, b), number.to_bits());
        assert_eq!(jaro_pattern_of(b, a), number.to_bits());
        assert!((value(jaro_similarity(a, b)) - number).abs() < 1e-9);
        assert_eq!(jaro_similarity(a, b).billionths(), jaro_similarity(b, a).billionths());
    }
    assert!((value(jaro_similarity("cheeseburger", "cheese fries")) - 0.866).abs() < 0.001);
    assert_eq!(jaro_similarity("martha", "marhta").billionths(), 961_111_111);
    assert_eq!(jaro_similarity("abc", "xyz").billionths(), 0);
}

#[test]
fn a_jaro_number_that_is_nearest_to_a_percentage_reaches_it() {
    // Two of five characters match and none is out of order: (2/5 + 2/5 + 1) / 3,
    // which is six tenths.
    assert_eq!(strsim::jaro_winkler("abcde", "abfgh"), 60.0 / 100.0);
    assert_eq!(jaro_similarity("abcde", "abfgh").billionths(), 600_000_000);
    assert_eq!(jaro_similarity("abfgh", "abcde").billionths(), 600_000_000);
}

#[test]
fn jaro_of_equal_names_is_one_as_the_outside_function_has_it() {
    for name in ["same", "a", "aaaa", "abab", "report_v1.pdf", ""] {
        assert_eq!(jaro_similarity(name, name).billionths(), 1_000_000_000);
        assert_eq!(strsim::jaro_winkler(name, name), 1.0);
    }
    assert_eq!(jaro_similarity("", "x").billionths(), 0);
    assert_eq!(jaro_similarity("x", "").billionths(), 0);
}

#[test]
fn token_similarity_of_names_with_two_shared_tokens_of_four() {
    assert_eq!(token_similarity("file_name.txt", "file_name.doc").billionths(), 500_000_000);
}

#[test]
fn token_similarity_counts_each_token_once() {
    // {a, b} against {a, c}: one shared token of three.
    assert_eq!(token_similarity("a a a b", "a c c").billionths(), 333_333_333);
    assert_eq!(token_similarity("...", "---").billionths(), 1_000_000_000);
    assert_eq!(token_similarity("name", "...").billionths(), 0);
}

#[test]
fn substring_similarity_of_a_stem_that_begins_the_other() {
    // "report" in "reportfinal": six of eleven.
    assert_eq!(substring_similarity("report.pdf", "report_final.pdf").billionths(), 545_454_545);
    assert_eq!(substring_similarity("report_final.pdf", "report.pdf").billionths(), 545_454_545);
}

#[test]
fn substring_similarity_finds_a_stem_in_the_middle() {
    assert_eq!(substring_similarity("bc.x", "abcd.y").billionths(), 500_000_000);
    assert_eq!(substring_similarity("bd.x", "abcd.y").billionths(), 0);
}

#[test]
fn normalize_keeps_a_name_without_extension() {
    assert_eq!(normalize_for_comparison("Read Me"), "readme");
    assert_eq!(normalize_for_comparison("archive.tar.gz"), "archivetar");
    assert_eq!(normalize_for_comparison(".hidden"), "");
}

#[test]
fn tokenize_drops_every_separator() {
    assert_eq!(tokenize("--a__b..c  "), vec!["a", "b", "c"]);
    assert_eq!(tokenize(""), Vec::<String>::new());
    assert_eq!(tokenize("_-_"), Vec::<String>::new());
    assert_eq!(tokenize("caf\u{e9} 2024"), vec!["caf\u{e9}", "2024"]);
}

fn exact_mean(a: &str, b: &str, delimited: bool) -> f64 {
    let l = levenshtein_ratio_of(a, b);
    let t = token_ratio_of(a, b);
    let l = l.num as f64 / l.den as f64;
    let t = t.num as f64 / t.den as f64;
    let j = f64::from_bits(jaro_pattern_of(a, b));
    if delimited {
        0.6 * t + 0.3 * j + 0.1 * l
    } else {
        0.5 * j + 0.3 * l + 0.2 * t
    }
}

#[test]
fn auto_weighs_tokens_most_for_delimited_names() {
    let a = "report_v1.pdf";
    let b = "report_v2.pdf";
    assert!(is_delimited(a));
    assert!((value(auto_similarity(a, b)) - exact_mean(a, b, true)).abs() < 1e-9);
    // Token 2/4, Jaro-Winkler about 0.9692, Levenshtein 12/13.
    assert!((value(auto_similarity(a, b)) - 0.683076923).abs() < 1e-6);
}

#[test]
fn auto_weighs_jaro_most_for_plain_names() {
    let a = "holiday.jpg";
    let b = "holidays.jpg";
    assert!(!is_delimited(a));
    assert!(!is_delimited(b));
    assert!((value(auto_similarity(a, b)) - exact_mean(a, b, false)).abs() < 1e-9);
}

#[test]
fn auto_is_rounded_once() {
    // Token 1, Jaro-Winkler 5/9, Levenshtein 1/3: 0.6 + 0.3 * 5/9 + 0.1 / 3 = 0.8.
    assert_eq!(token_similarity("a_b", "b_a").billionths(), 1_000_000_000);
    assert_eq!(levenshtein_similarity("a_b", "b_a").billionths(), 333_333_333);
    assert_eq!(jaro_similarity("a_b", "b_a").billionths(), 555_555_555);
    assert_eq!(auto_similarity("a_b", "b_a").billionths(), 800_000_000);
    assert_eq!(auto_similarity("b_a", "a_b").billionths(), 800_000_000);
    assert!((value(auto_similarity("a_b", "b_a")) - 0.8).abs() < 1e-9);
}

#[test]
fn auto_lies_within_a_billionth_of_the_exact_mean() {
    let names = ["a_b", "b_a", "report_v1.pdf", "Report-V2.PDF", "image001.jpg", "x y z", "q"];
    for a in names {
        for b in names {
            let delimited = is_delimited(a) || is_delimited(b);
            let got = value(auto_similarity(a, b));
            assert!((got - exact_mean(a, b, delimited)).abs() < 1e-9, "{} {} {}", a, b, got);
        }
    }
}

#[test]
fn blend_parts_with_given_parts() {
    let third = Ratio { num: 1, den: 3 };
    let whole = Ratio { num: 1, den: 1 };
    let five_ninths = (5.0f64 / 9.0).to_bits();
    assert_eq!(blend_parts(third, five_ninths, whole, true).billionths(), 800_000_000);
    assert_eq!(blend_parts(third, five_ninths - 1, whole, true).billionths(), 800_000_000);
    assert_eq!(blend_parts(third, five_ninths + 1, whole, true).billionths(), 800_000_000);
    // 0.5 * 5/9 + 0.3 / 3 + 0.2 = 0.5777...
    assert_eq!(blend_parts(third, five_ninths, whole, false).billionths(), 577_777_778);
    let l = Ratio { num: 4, den: 5 };
    let t = Ratio { num: 1, den: 2 };
    let j = 0.9f64.to_bits();
    assert_eq!(blend_parts(l, j, t, true).billionths(), 650_000_000);
    assert_eq!(blend_parts(l, j, t, false).billionths(), 790_000_000);
    let none = Ratio { num: 0, den: 7 };
    assert_eq!(blend_parts(none, 0, none, true).billionths(), 0);
    assert_eq!(blend_parts(whole, 1.0f64.to_bits(), whole, false).billionths(), 1_000_000_000);
}

#[test]
fn delimiters_are_underscore_hyphen_and_space() {
    assert!(is_delimited("a_b"));
    assert!(is_delimited("a-b"));
    assert!(is_delimited("a b"));
    assert!(!is_delimited("a.b"));
    assert!(!is_delimited(""));
}

#[test]
fn empty_names_score_one_under_every_algorithm() {
    for algorithm in all_algorithms() {
        assert_eq!(calculate_similarity("", "", &algorithm, false).billionths(), 1_000_000_000);
        assert_eq!(calculate_similarity("", "", &algorithm, true).billionths(), 1_000_000_000);
    }
}

#[test]
fn a_name_against_the_empty_name_scores_zero_under_every_algorithm() {
    for algorithm in all_algorithms() {
        assert_eq!(calculate_similarity("x", "", &algorithm, false).billionths(), 0);
        assert_eq!(calculate_similarity("", "x", &algorithm, true).billionths(), 0);
    }
}

#[test]
fn a_name_against_itself_scores_one_under_every_algorithm() {
    for algorithm in all_algorithms() {
        for name in ["a", "report_v1.pdf", "IMG 0001.JPG", "caf\u{e9}.txt"] {
            assert_eq!(
                calculate_similarity(name, name, &algorithm, false).billionths(),
                1_000_000_000
            );
        }
    }
}

#[test]
fn similarity_does_not_depend_on_the_order_of_the_names() {
    let names = ["report_v1.pdf", "report_v2.pdf", "image001.jpg", "readme.txt", "a", ""];
    for algorithm in all_algorithms() {
        for a in names {
            for b in names {
                assert_eq!(
                    calculate_similarity(a, b, &algorithm, false).billionths(),
                    calculate_similarity(b, a, &algorithm, false).billionths()
                );
            }
        }
    }
}

#[test]
fn every_score_lies_between_zero_and_one() {
    let names = ["report_v1.pdf", "Report-V2.PDF", "image001.jpg", "x", ""];
    for algorithm in all_algorithms() {
        for a in names {
            for b in names {
                assert!(calculate_similarity(a, b, &algorithm, true).billionths() <= 1_000_000_000);
            }
        }
    }
}

#[test]
fn case_counts_only_where_asked() {
    let algorithm = Algorithm::Levenshtein;
    assert_eq!(calculate_similarity("ABC", "abc", &algorithm, false).billionths(), 1_000_000_000);
    assert_eq!(calculate_similarity("ABC", "abc", &algorithm, true).billionths(), 0);
    assert_eq!(compare("ABC", "abc", &algorithm).billionths(), 0);
}
