use similarity_checker::digest::content_hash;
use similarity_checker::digest::digest_text;
use similarity_checker::distance::edit_distance_of;
use similarity_checker::file_info::calculate_name_similarity;
use similarity_checker::file_info::group_similar_files;
use similarity_checker::file_info::match_files;
use similarity_checker::file_info::name_similarity_ratio;
use similarity_checker::file_info::normalize_name;
use similarity_checker::file_info::readable_files;
use similarity_checker::file_info::FileInfo;
use similarity_checker::file_info::SimilarityGroup;
use similarity_checker::file_info::SimilarityType;
use similarity_checker::score::Score;

fn value(score: Score) -> f64 {
    score.billionths() as f64 / 1e9
}

fn file(name: &str, size: u64, bytes: Option<&[u8]>) -> FileInfo {
    let mut info = FileInfo {
        name: name.to_string(),
        size,
        file_type: String::new(),
        last_modified: 0,
        path: format!("/tmp/{}", name),
        hash: None,
    };
    if let Some(bytes) = bytes {
        info.calculate_hash(bytes);
    }
    info
}

fn member_names(group: &SimilarityGroup) -> Vec<String> {
    group.files.iter().map(|f| f.name.clone()).collect()
}

#[test]
fn test_calculate_name_similarity() {
    assert!((value(calculate_name_similarity("hello", "hello")) - 1.0).abs() < f64::EPSILON);
    assert!(value(calculate_name_similarity("hello", "hallo")) > 0.7);
    assert!(value(calculate_name_similarity("file1.txt", "file2.txt")) > 0.8);
    assert!(value(calculate_name_similarity("completely", "different")) < 0.5);
}

#[test]
fn test_normalize_name() {
    assert_eq!(normalize_name("AI_Usage.epub"), "aiusageepub");
    assert_eq!(normalize_name("Report-Final.pdf"), "reportfinalpdf");
    assert_eq!(normalize_name("file name.txt"), "filenametxt");
    assert_eq!(normalize_name("FILE-name.TXT"), "filenametxt");
}

#[test]
fn test_three_tier_detection_system() {
    // Tier 2: Content similarity (same size + name similarity > 0.8)
    let sim1 = value(calculate_name_similarity("report_v1.pdf", "report_v2.pdf"));
    assert!(sim1 > 0.8, "Tier 2 threshold test failed: {}", sim1);

    // Tier 3: Name similarity > 0.9 (very similar names)
    let sim2 = value(calculate_name_similarity("document.txt", "document1.txt"));
    assert!(sim2 > 0.9, "Tier 3 threshold test failed: {}", sim2);

    // Test perfect match
    let sim3 = value(calculate_name_similarity("test.doc", "test.doc"));
    assert!(sim3 == 1.0, "Perfect match test failed: {}", sim3);

    // Test cases that should NOT meet any threshold
    let sim4 = value(calculate_name_similarity("completely.txt", "different.txt"));
    assert!(sim4 < 0.5, "Different files should have low similarity: {}", sim4);
}

#[test]
fn name_similarity_is_exact() {
    // "file1txt" against "file2txt": one edit in eight characters.
    assert_eq!(calculate_name_similarity("file1.txt", "file2.txt").billionths(), 875_000_000);
    let ratio = name_similarity_ratio("file1.txt", "file2.txt");
    assert_eq!((ratio.num, ratio.den), (7, 8));
    // Alike but for case and punctuation.
    let ratio = name_similarity_ratio("My-File.TXT", "my file.txt");
    assert_eq!((ratio.num, ratio.den), (1, 1));
    // One form is empty.
    let ratio = name_similarity_ratio("...", "a");
    assert_eq!((ratio.num, ratio.den), (0, 1));
    assert_eq!(calculate_name_similarity("", "").billionths(), 1_000_000_000);
    // The longer form is counted in characters.
    let ratio = name_similarity_ratio("\u{e9}\u{e9}", "\u{e9}e");
    assert_eq!((ratio.num, ratio.den), (1, 2));
}

#[test]
fn edit_distance_by_dynamic_programming() {
    let chars = |s: &str| s.chars().collect::<Vec<char>>();
    assert_eq!(edit_distance_of(&chars("kitten"), &chars("sitting")), 3);
    assert_eq!(edit_distance_of(&chars(""), &chars("abc")), 3);
    assert_eq!(edit_distance_of(&chars("abc"), &chars("")), 3);
    assert_eq!(edit_distance_of(&chars("abc"), &chars("abc")), 0);
    assert_eq!(edit_distance_of(&chars("flaw"), &chars("lawn")), 2);
    for (a, b) in [("saturday", "sunday"), ("rosettacode", "raisethysword"), ("a", "b")] {
        assert_eq!(edit_distance_of(&chars(a), &chars(b)), strsim::levenshtein(a, b));
    }
}

#[test]
fn the_hash_is_the_digest_in_hexadecimal() {
    assert_eq!(
        content_hash(b"abc"),
        "ba7816bf8f01cfea414140de5dae2223b00361a396177a9cb410ff61f20015ad"
    );
    assert_eq!(
        content_hash(b""),
        "e3b0c44298fc1c149afbf4c8996fb92427ae41e4649b934ca495991b7852b855"
    );
    assert_eq!(digest_text(&vec![0x00, 0x0f, 0xa0, 0xff, 0x5c]), "000fa0ff5c");
    assert_eq!(digest_text(&Vec::new()), "");
}

#[test]
fn the_hash_is_computed_once() {
    let mut info = file("a.txt", 3, None);
    assert_eq!(info.hash, None);
    let first = info.calculate_hash(b"abc");
    assert_eq!(first, "ba7816bf8f01cfea414140de5dae2223b00361a396177a9cb410ff61f20015ad");
    assert_eq!(info.hash, Some(first.clone()));
    // Other bytes are not looked at once the hash is known.
    let second = info.calculate_hash(b"something else");
    assert_eq!(second, first);
    assert_eq!(info.hash, Some(first));
    assert_eq!(info.name, "a.txt");
    assert_eq!(info.size, 3);
}

#[test]
fn files_of_the_same_bytes_are_identical_whatever_their_names() {
    let files = vec![
        file("holiday-photo.jpg", 5, Some(b"bytes")),
        file("zzz.bin", 5, Some(b"bytes")),
    ];
    let found = match_files(&files[0], &files[1]).unwrap();
    assert_eq!(found.tier, SimilarityType::Identical);
    assert_eq!(found.score.billionths(), 1_000_000_000);
    let groups = group_similar_files(files);
    assert_eq!(groups.len(), 1);
    assert_eq!(groups[0].id, "group-0");
    assert_eq!(groups[0].similarity_type, SimilarityType::Identical);
    assert_eq!(groups[0].similarity_score.billionths(), 1_000_000_000);
    assert_eq!(member_names(&groups[0]), vec!["holiday-photo.jpg", "zzz.bin"]);
}

#[test]
fn the_first_rule_that_applies_decides() {
    let a = file("report_v1.pdf", 10, Some(b"one"));
    // Same size, name 10/11 similar: content.
    let b = file("report_v2.pdf", 10, Some(b"two"));
    let found = match_files(&a, &b).unwrap();
    assert_eq!(found.tier, SimilarityType::Content);
    assert_eq!(found.score.billionths(), 909_090_909);
    // Another size, name 10/11 similar: name.
    let c = file("report_v2.pdf", 11, Some(b"two"));
    let found = match_files(&a, &c).unwrap();
    assert_eq!(found.tier, SimilarityType::Name);
    assert_eq!(found.score.billionths(), 909_090_909);
    // Another size, name 7/8 similar: nothing.
    let d = file("file1.txt", 1, None);
    let e = file("file2.txt", 2, None);
    assert!(match_files(&d, &e).is_none());
    // Same size, name 7/8 similar: content.
    let f = file("file2.txt", 1, None);
    assert_eq!(match_files(&d, &f).unwrap().tier, SimilarityType::Content);
    // Without a hash on both sides the bytes do not count.
    let g = file("x.bin", 1, None);
    let h = file("y.txt", 2, Some(b"one"));
    assert!(match_files(&g, &h).is_none());
}

#[test]
fn the_bounds_of_the_rules_are_not_reached_by_equal_scores() {
    // "abcde" against "abcdx": exactly eight tenths.
    let a = file("abcde", 1, None);
    let b = file("abcdx", 1, None);
    assert_eq!(calculate_name_similarity("abcde", "abcdx").billionths(), 800_000_000);
    assert!(match_files(&a, &b).is_none());
    // "abcdefghij" against "abcdefghix": exactly nine tenths.
    let c = file("abcdefghij", 1, None);
    let d = file("abcdefghix", 2, None);
    assert!(match_files(&c, &d).is_none());
    let e = file("abcdefghix", 1, None);
    assert_eq!(match_files(&c, &e).unwrap().tier, SimilarityType::Content);
}

#[test]
fn files_are_held_against_the_anchor_alone() {
    // b is alike to a and c, but a and c are not alike: c stays out of a's group
    // and, with b gone, has nobody left.
    let files = vec![
        file("abcdefghij0", 1, None),
        file("abcdefghijk", 1, None),
        file("abcdefgxijk1", 1, None),
    ];
    assert!(match_files(&files[0], &files[1]).is_some());
    assert!(match_files(&files[1], &files[2]).is_some());
    assert!(match_files(&files[0], &files[2]).is_none());
    let groups = group_similar_files(files);
    assert_eq!(groups.len(), 1);
    assert_eq!(member_names(&groups[0]), vec!["abcdefghij0", "abcdefghijk"]);
}

#[test]
fn the_first_match_by_name_or_size_sets_the_kind_and_the_least_score_counts() {
    let files = vec![
        file("report_v1.pdf", 10, Some(b"one")),
        file("other-name.bin", 99, Some(b"one")),
        file("report_v2.pdf", 10, Some(b"two")),
        file("report_v1.pdfx", 12, Some(b"three")),
    ];
    let groups = group_similar_files(files);
    assert_eq!(groups.len(), 1);
    assert_eq!(
        member_names(&groups[0]),
        vec!["report_v1.pdf", "other-name.bin", "report_v2.pdf", "report_v1.pdfx"]
    );
    // Content came before name.
    assert_eq!(groups[0].similarity_type, SimilarityType::Content);
    // 10/11 by content, 11/12 by name.
    assert_eq!(groups[0].similarity_score.billionths(), 909_090_909);
}

#[test]
fn groups_of_files_come_by_falling_score() {
    let files = vec![
        file("report_v1.pdf", 10, None),
        file("report_v2.pdf", 10, None),
        file("same.bin", 3, Some(b"abc")),
        file("copy.bin", 3, Some(b"abc")),
        file("lonely.txt", 1, None),
    ];
    let groups = group_similar_files(files);
    assert_eq!(groups.len(), 2);
    assert_eq!(groups[0].id, "group-1");
    assert_eq!(groups[0].similarity_type, SimilarityType::Identical);
    assert_eq!(member_names(&groups[0]), vec!["same.bin", "copy.bin"]);
    assert_eq!(groups[1].id, "group-0");
    assert_eq!(groups[1].similarity_type, SimilarityType::Content);
    assert_eq!(member_names(&groups[1]), vec!["report_v1.pdf", "report_v2.pdf"]);
}

#[test]
fn no_files_give_no_groups() {
    assert!(group_similar_files(Vec::new()).is_empty());
    assert!(group_similar_files(vec![file("a", 1, None)]).is_empty());
}

#[test]
fn a_file_keeps_its_fields_in_a_group() {
    let mut first = file("a.txt", 7, Some(b"x"));
    first.file_type = "txt".to_string();
    first.last_modified = 1_700_000_000;
    let second = file("b.txt", 7, Some(b"x"));
    let groups = group_similar_files(vec![first.clone(), second]);
    let kept = &groups[0].files[0];
    assert_eq!(kept.name, first.name);
    assert_eq!(kept.size, 7);
    assert_eq!(kept.file_type, "txt");
    assert_eq!(kept.last_modified, 1_700_000_000);
    assert_eq!(kept.path, "/tmp/a.txt");
    assert_eq!(kept.hash, first.hash);
}

#[test]
fn a_content_hash_has_sixty_four_digits() {
    for data in [&b""[..], &b"a"[..], &b"some longer content"[..]] {
        let hash = content_hash(data);
        assert_eq!(hash.len(), 64);
        assert!(hash.chars().all(|c| c.is_ascii_hexdigit() && !c.is_ascii_uppercase()));
    }
}

#[test]
fn a_file_that_could_not_be_read_is_left_out() {
    let files = vec![
        file("a.txt", 1, None),
        file("b.txt", 2, None),
        file("c.txt", 3, Some(b"known")),
        file("d.txt", 4, Some(b"known too")),
        file("e.txt", 5, None),
    ];
    let known = files[2].hash.clone();
    let reads = vec![Some(b"abc".to_vec()), None, Some(b"other bytes".to_vec()), None];
    let kept = readable_files(files, reads);
    let names: Vec<&str> = kept.iter().map(|f| f.name.as_str()).collect();
    // b could not be read; e has no read at all; c and d had their hash already.
    assert_eq!(names, vec!["a.txt", "c.txt", "d.txt"]);
    assert_eq!(
        kept[0].hash.as_deref(),
        Some("ba7816bf8f01cfea414140de5dae2223b00361a396177a9cb410ff61f20015ad")
    );
    assert_eq!(kept[1].hash, known);
    assert_eq!(kept[0].size, 1);
    assert!(kept.iter().all(|f| f.hash.is_some()));
    assert!(readable_files(Vec::new(), Vec::new()).is_empty());
}
