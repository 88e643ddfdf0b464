use similarity_checker::input::collect_files;
use similarity_checker::input::validate_min_group_size;
use similarity_checker::input::validate_threshold;
use similarity_checker::input::FileDiscovery;
use similarity_checker::input::InputError;
use similarity_checker::order::standing;
use similarity_checker::order::Standing;

fn names(list: &[&str]) -> Vec<String> {
    list.iter().map(|s| s.to_string()).collect()
}

#[test]
fn test_collect_files_from_cli() {
    let files = vec!["file1.txt".to_string(), "file2.txt".to_string()];
    let result = collect_files(files, None, None).unwrap();
    assert_eq!(result.len(), 2);
    assert!(result.contains(&"file1.txt".to_string()));
}

#[test]
fn input_test_collect_files_from_cli() {
    let files = vec!["file1.txt".to_string(), "file2.txt".to_string()];
    let result = collect_files(files, None, None).unwrap();
    assert_eq!(result.len(), 2);
    assert!(result.contains(&"file1.txt".to_string()));
}

#[test]
fn test_validate_threshold() {
    assert!(validate_threshold(50).is_ok());
    assert!(validate_threshold(0).is_ok());
    assert!(validate_threshold(100).is_ok());
    assert!(validate_threshold(101).is_err());
}

#[test]
fn input_test_validate_threshold() {
    assert!(validate_threshold(50).is_ok());
    assert!(validate_threshold(0).is_ok());
    assert!(validate_threshold(100).is_ok());
    assert!(validate_threshold(101).is_err());
}

#[test]
fn test_validate_min_group_size() {
    assert!(validate_min_group_size(2).is_ok());
    assert!(validate_min_group_size(10).is_ok());
    assert!(validate_min_group_size(1).is_err());
}

#[test]
fn input_test_validate_min_group_size() {
    assert!(validate_min_group_size(2).is_ok());
    assert!(validate_min_group_size(10).is_ok());
    assert!(validate_min_group_size(1).is_err());
}

#[test]
fn a_threshold_above_a_hundred_is_refused_with_its_value() {
    let error = validate_threshold(101).unwrap_err();
    assert_eq!(error, InputError::ThresholdOutOfRange { threshold: 101 });
    assert_eq!(error.message(), "Threshold must be between 0 and 100, got: 101");
    assert_eq!(
        validate_threshold(255).unwrap_err().message(),
        "Threshold must be between 0 and 100, got: 255"
    );
}

#[test]
fn a_least_size_below_two_is_refused_with_its_value() {
    let error = validate_min_group_size(1).unwrap_err();
    assert_eq!(error, InputError::MinGroupSizeTooSmall { min_size: 1 });
    assert_eq!(error.message(), "Minimum group size must be at least 2, got: 1");
    assert_eq!(
        validate_min_group_size(0).unwrap_err().message(),
        "Minimum group size must be at least 2, got: 0"
    );
}

#[test]
fn an_empty_list_is_refused() {
    let error = collect_files(Vec::new(), None, None).unwrap_err();
    assert_eq!(error, InputError::NoFiles);
    assert_eq!(error.message(), "No files provided. Use --help for usage information.");
    let blanks = names(&["", "  ", "\t\n"]);
    assert_eq!(collect_files(blanks, Some(names(&[" "])), None), Err(InputError::NoFiles));
}

#[test]
fn names_are_sorted_and_told_once() {
    let cli = names(&["b.txt", "a.txt", "b.txt", "", "  "]);
    let from_file = names(&["c.txt", "a.txt"]);
    let discovered = names(&["B.txt", "ab.txt", "a"]);
    let result = collect_files(cli, Some(from_file), Some(discovered)).unwrap();
    assert_eq!(result, names(&["B.txt", "a", "a.txt", "ab.txt", "b.txt", "c.txt"]));
}

#[test]
fn names_are_sorted_as_strings_are() {
    let given = names(&["z", "\u{e9}", "a\u{e9}", "a", "Z", "10", "9", " x"]);
    let mut expected = given.clone();
    expected.sort();
    expected.dedup();
    assert_eq!(collect_files(given, None, None).unwrap(), expected);
}

#[test]
fn standing_of_two_strings() {
    let chars = |s: &str| s.chars().collect::<Vec<char>>();
    assert_eq!(standing(&chars("a"), &chars("b")), Standing::Before);
    assert_eq!(standing(&chars("b"), &chars("a")), Standing::After);
    assert_eq!(standing(&chars("a"), &chars("ab")), Standing::Before);
    assert_eq!(standing(&chars("ab"), &chars("a")), Standing::After);
    assert_eq!(standing(&chars("ab"), &chars("ab")), Standing::Same);
    assert_eq!(standing(&chars(""), &chars("")), Standing::Same);
    assert_eq!(standing(&chars(""), &chars("a")), Standing::Before);
}

#[test]
fn a_discovery_can_be_made() {
    let _discovery: FileDiscovery = FileDiscovery::new();
}
