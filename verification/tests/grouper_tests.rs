use similarity_checker::cli::Algorithm;
use similarity_checker::cluster::cluster;
use similarity_checker::cluster::Pairs;
use similarity_checker::grouper::group_files;
use similarity_checker::grouper::FileGrouper;
use similarity_checker::grouper::GroupingResult;
use similarity_checker::score::Score;
use similarity_checker::similarity::calculate_similarity;

fn names(list: &[&str]) -> Vec<String> {
    list.iter().map(|s| s.to_string()).collect()
}

fn table(rows: &[&[u64]]) -> Vec<Vec<Score>> {
    rows.iter()
        .map(|row| row.iter().map(|b| Score::from_billionths(*b)).collect())
        .collect()
}

fn members(result: &GroupingResult) -> Vec<Vec<String>> {
    result.groups.iter().map(|g| g.files.clone()).collect()
}

#[test]
fn test_group_files_basic() {
    let files = vec![
        "report_v1.pdf".to_string(),
        "report_v2.pdf".to_string(),
        "image001.jpg".to_string(),
        "readme.txt".to_string(),
    ];

    let result = group_files(files, 50, &Algorithm::Token, false, 2);

    assert_eq!(result.groups.len(), 1);
    assert_eq!(result.groups[0].files.len(), 2);
    assert!(result.groups[0].files.contains(&"report_v1.pdf".to_string()));
    assert!(result.groups[0].files.contains(&"report_v2.pdf".to_string()));
}

#[test]
fn test_min_group_size() {
    let files = vec![
        "file1.txt".to_string(),
        "file2.txt".to_string(),
        "different.doc".to_string(),
    ];

    let result = group_files(files, 70, &Algorithm::Levenshtein, false, 3);
    assert_eq!(result.groups.len(), 0);
    assert_eq!(result.ungrouped.len(), 3);
}

#[test]
fn one_group_and_two_names_left() {
    let files = names(&["report_v1.pdf", "report_v2.pdf", "image001.jpg", "readme.txt"]);
    let result = group_files(files, 50, &Algorithm::Token, false, 2);
    assert_eq!(members(&result), vec![names(&["report_v1.pdf", "report_v2.pdf"])]);
    assert_eq!(result.ungrouped, names(&["image001.jpg", "readme.txt"]));
    assert_eq!(result.groups[0].id, 1);
    assert_eq!(result.groups[0].similarity.billionths(), 500_000_000);
    assert_eq!(result.summary.total_files, 4);
    assert_eq!(result.summary.groups_found, 1);
    assert_eq!(result.summary.ungrouped_files, 2);
    assert_eq!(result.summary.threshold_used, 500_000_000);
}

#[test]
fn a_gathering_below_the_least_size_leaves_all_its_names() {
    let files = names(&["file1.txt", "file2.txt", "different.doc"]);
    let pair = calculate_similarity("file1.txt", "file2.txt", &Algorithm::Levenshtein, false);
    assert!(pair.billionths() >= 700_000_000);
    let result = group_files(files.clone(), 70, &Algorithm::Levenshtein, false, 3);
    assert!(result.groups.is_empty());
    assert_eq!(result.ungrouped, files);
    assert_eq!(result.summary.groups_found, 0);
    assert_eq!(result.summary.ungrouped_files, 3);
}

#[test]
fn every_name_is_in_one_group_or_left() {
    let files = names(&[
        "report_v1.pdf",
        "holiday.jpg",
        "report_v2.pdf",
        "holidays.jpg",
        "notes.txt",
        "report_v3.pdf",
        "unrelated.bin",
    ]);
    for algorithm in [
        Algorithm::Levenshtein,
        Algorithm::Jaro,
        Algorithm::Token,
        Algorithm::Substring,
        Algorithm::Auto,
    ] {
        for threshold in [0u8, 30, 50, 70, 90, 100] {
            let result = group_files(files.clone(), threshold, &algorithm, false, 2);
            let mut seen: Vec<String> = result.ungrouped.clone();
            for group in &result.groups {
                assert!(group.files.len() >= 2);
                seen.extend(group.files.iter().cloned());
            }
            seen.sort();
            let mut expected = files.clone();
            expected.sort();
            assert_eq!(seen, expected);
            assert_eq!(result.summary.total_files, files.len());
            assert_eq!(result.summary.groups_found, result.groups.len());
            assert_eq!(result.summary.ungrouped_files, result.ungrouped.len());
        }
    }
}

#[test]
fn grouping_twice_gives_the_same_groups() {
    let files = names(&["a_1.txt", "a_2.txt", "b-1.txt", "b-2.txt", "c.txt"]);
    let first = group_files(files.clone(), 60, &Algorithm::Auto, false, 2);
    let second = group_files(files, 60, &Algorithm::Auto, false, 2);
    assert_eq!(members(&first), members(&second));
    assert_eq!(first.ungrouped, second.ungrouped);
}

#[test]
fn a_higher_threshold_splits_groups_and_never_joins_them() {
    let files = names(&["report_v1.pdf", "report_v2.pdf", "report_final.pdf", "image.jpg"]);
    let low = group_files(files.clone(), 30, &Algorithm::Levenshtein, false, 2);
    let high = group_files(files, 90, &Algorithm::Levenshtein, false, 2);
    for group in &high.groups {
        let holder = low
            .groups
            .iter()
            .find(|g| group.files.iter().all(|f| g.files.contains(f)));
        assert!(holder.is_some());
    }
    assert_eq!(members(&high), vec![names(&["report_v1.pdf", "report_v2.pdf"])]);
}

#[test]
fn a_chain_of_similar_names_is_one_group() {
    // 0 ~ 1 and 1 ~ 2, but not 0 ~ 2: all three are linked.
    let scores = table(&[
        &[1_000_000_000, 900_000_000, 100_000_000, 0],
        &[900_000_000, 1_000_000_000, 800_000_000, 0],
        &[100_000_000, 800_000_000, 1_000_000_000, 0],
        &[0, 0, 0, 1_000_000_000],
    ]);
    let result = cluster(&Pairs::Table { scores: &scores }, 700_000_000, 2);
    assert_eq!(result.groups.len(), 1);
    assert_eq!(result.groups[0].members, vec![0, 1, 2]);
    // Joined by 0.9 and by 0.8.
    assert_eq!(result.groups[0].similarity.billionths(), 850_000_000);
    assert_eq!(result.leftover, vec![3]);
}

#[test]
fn members_come_in_the_order_in_which_they_joined() {
    // Anchor 0 takes 3 in its seed; 3 links 1, which comes before it in the input.
    let scores = table(&[
        &[1_000_000_000, 0, 0, 900_000_000],
        &[0, 1_000_000_000, 0, 600_000_000],
        &[0, 0, 1_000_000_000, 0],
        &[900_000_000, 600_000_000, 0, 1_000_000_000],
    ]);
    let result = cluster(&Pairs::Table { scores: &scores }, 600_000_000, 2);
    assert_eq!(result.groups.len(), 1);
    assert_eq!(result.groups[0].members, vec![0, 3, 1]);
    assert_eq!(result.groups[0].similarity.billionths(), 750_000_000);
    assert_eq!(result.leftover, vec![2]);
}

#[test]
fn a_small_gathering_can_join_a_later_group() {
    // Only 1 finds 0 similar to it, so the gathering around 0 is 0 alone and is
    // forgotten; the group around 1 then takes 0 and 2.
    let scores = table(&[
        &[1_000_000_000, 0, 0],
        &[900_000_000, 1_000_000_000, 900_000_000],
        &[0, 0, 1_000_000_000],
    ]);
    let result = cluster(&Pairs::Table { scores: &scores }, 800_000_000, 2);
    assert_eq!(result.groups.len(), 1);
    assert_eq!(result.groups[0].members, vec![1, 2, 0]);
    assert!(result.leftover.is_empty());
}

#[test]
fn the_threshold_is_reached_by_an_equal_score() {
    let scores = table(&[&[0, 700_000_000], &[0, 0]]);
    let at = cluster(&Pairs::Table { scores: &scores }, 700_000_000, 2);
    assert_eq!(at.groups.len(), 1);
    let above = cluster(&Pairs::Table { scores: &scores }, 700_000_001, 2);
    assert!(above.groups.is_empty());
    assert_eq!(above.leftover, vec![0, 1]);
}

#[test]
fn no_names_give_no_groups() {
    let result = group_files(Vec::new(), 70, &Algorithm::Auto, false, 2);
    assert!(result.groups.is_empty());
    assert!(result.ungrouped.is_empty());
    assert_eq!(result.summary.total_files, 0);
    let empty: Vec<Vec<Score>> = Vec::new();
    let clustering = cluster(&Pairs::Table { scores: &empty }, 0, 2);
    assert!(clustering.groups.is_empty());
    assert!(clustering.leftover.is_empty());
}

#[test]
fn a_least_size_of_one_makes_a_group_of_every_lonely_name() {
    let files = names(&["alpha.txt", "omega.bin"]);
    let result = group_files(files, 100, &Algorithm::Token, true, 1);
    assert_eq!(members(&result), vec![names(&["alpha.txt"]), names(&["omega.bin"])]);
    assert_eq!(result.groups[0].similarity.billionths(), 1_000_000_000);
    assert!(result.ungrouped.is_empty());
}

#[test]
fn groups_come_by_falling_similarity() {
    // a_x / a_y share one token of three; b_1_2 / b_1_3 share two of four.
    let files = names(&["a_x", "a_y", "b_1_2", "b_1_3"]);
    let result = group_files(files, 30, &Algorithm::Token, true, 2);
    assert_eq!(result.groups.len(), 2);
    assert_eq!(result.groups[0].files, names(&["b_1_2", "b_1_3"]));
    assert_eq!(result.groups[0].id, 2);
    assert_eq!(result.groups[0].similarity.billionths(), 500_000_000);
    assert_eq!(result.groups[1].files, names(&["a_x", "a_y"]));
    assert_eq!(result.groups[1].id, 1);
    assert_eq!(result.groups[1].similarity.billionths(), 333_333_333);
}

#[test]
fn groups_of_one_similarity_keep_their_order() {
    let files = names(&["a_1", "a_2", "b_1", "b_2"]);
    let result = group_files(files, 30, &Algorithm::Token, true, 2);
    assert_eq!(result.groups.len(), 1);
    let files = names(&["a_x", "a_y", "b_z", "b_w"]);
    let result = group_files(files, 30, &Algorithm::Token, true, 2);
    assert_eq!(result.groups.len(), 2);
    assert_eq!(result.groups[0].id, 1);
    assert_eq!(result.groups[1].id, 2);
}

#[test]
fn a_grouper_compares_by_the_composite_algorithm() {
    let files = names(&["report_v1.pdf", "report_v2.pdf", "image001.jpg", "readme.txt"]);
    let mut grouper = FileGrouper::new(Score::from_percent(70));
    let result = grouper.group_files(files.clone());
    let direct = group_files(files, 70, &Algorithm::Auto, false, 2);
    assert_eq!(members(&result), members(&direct));
    assert_eq!(result.ungrouped, direct.ungrouped);
    assert_eq!(result.summary.threshold_used, 700_000_000);
}

#[test]
fn with_scores_that_depend_on_the_order_a_higher_threshold_can_make_a_larger_group() {
    // Item 1 finds 0 and 3 similar to it, by 0.9; item 0 finds 2 similar to it, by 0.6;
    // no other pair is similar.
    let scores = table(&[
        &[0, 0, 600_000_000, 0],
        &[900_000_000, 0, 0, 900_000_000],
        &[0, 0, 0, 0],
        &[0, 0, 0, 0],
    ]);
    let low = cluster(&Pairs::Table { scores: &scores }, 500_000_000, 2);
    let groups: Vec<Vec<usize>> = low.groups.iter().map(|g| g.members.clone()).collect();
    assert_eq!(groups, vec![vec![0, 2], vec![1, 3]]);
    let high = cluster(&Pairs::Table { scores: &scores }, 800_000_000, 2);
    let groups: Vec<Vec<usize>> = high.groups.iter().map(|g| g.members.clone()).collect();
    assert_eq!(groups, vec![vec![1, 3, 0]]);
    assert_eq!(high.leftover, vec![2]);
}

#[test]
fn with_scores_that_do_not_depend_on_the_order_the_groups_are_the_linked_classes() {
    // 0 - 2 - 4 are linked, 1 - 3 are linked, 5 is alone.
    let mut rows = vec![vec![0u64; 6]; 6];
    for (a, b) in [(0usize, 2usize), (2, 4), (1, 3)] {
        rows[a][b] = 900_000_000;
        rows[b][a] = 900_000_000;
    }
    let scores: Vec<Vec<Score>> = rows
        .iter()
        .map(|row| row.iter().map(|b| Score::from_billionths(*b)).collect())
        .collect();
    let result = cluster(&Pairs::Table { scores: &scores }, 900_000_000, 2);
    let groups: Vec<Vec<usize>> = result.groups.iter().map(|g| g.members.clone()).collect();
    assert_eq!(groups, vec![vec![0, 2, 4], vec![1, 3]]);
    assert_eq!(result.leftover, vec![5]);
    let larger = cluster(&Pairs::Table { scores: &scores }, 900_000_000, 3);
    let groups: Vec<Vec<usize>> = larger.groups.iter().map(|g| g.members.clone()).collect();
    assert_eq!(groups, vec![vec![0, 2, 4]]);
    assert_eq!(larger.leftover, vec![1, 3, 5]);
}

#[test]
fn a_pair_whose_jaro_number_is_the_threshold_is_grouped() {
    let files = names(&["abcde", "abfgh", "zzzzz"]);
    let result = group_files(files.clone(), 60, &Algorithm::Jaro, true, 2);
    assert_eq!(members(&result), vec![names(&["abcde", "abfgh"])]);
    assert_eq!(result.ungrouped, names(&["zzzzz"]));
    let above = group_files(files, 61, &Algorithm::Jaro, true, 2);
    assert!(above.groups.is_empty());
}

#[test]
fn a_pair_whose_composite_score_is_the_threshold_is_grouped() {
    let files = names(&["a_b", "b_a"]);
    let result = group_files(files.clone(), 80, &Algorithm::Auto, true, 2);
    assert_eq!(members(&result), vec![files.clone()]);
    let above = group_files(files, 81, &Algorithm::Auto, true, 2);
    assert!(above.groups.is_empty());
}
