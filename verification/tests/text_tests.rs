use similarity_checker::input::parse_file_list;
use similarity_checker::input::parse_name_lines;
use similarity_checker::input::trim;
use similarity_checker::text::blank;
use similarity_checker::text::chars_of;
use similarity_checker::text::contains_run;
use similarity_checker::text::decimal_string;
use similarity_checker::text::has_char;
use similarity_checker::text::keep_alphanumeric;
use similarity_checker::text::same_chars;
use similarity_checker::text::string_of;

fn chars(s: &str) -> Vec<char> {
    s.chars().collect()
}

#[test]
fn chars_and_strings_go_both_ways() {
    assert_eq!(chars_of("a\u{e9}z"), vec!['a', '\u{e9}', 'z']);
    assert_eq!(chars_of(""), Vec::<char>::new());
    assert_eq!(string_of(&chars("a\u{e9}z")), "a\u{e9}z");
    assert_eq!(string_of(&Vec::new()), "");
}

#[test]
fn only_alphanumeric_characters_are_kept() {
    let all = chars("a-b_1.\u{e9} Z");
    assert_eq!(keep_alphanumeric(&all, all.len()), chars("ab1\u{e9}Z"));
    assert_eq!(keep_alphanumeric(&all, 3), chars("ab"));
    assert_eq!(keep_alphanumeric(&all, 0), Vec::<char>::new());
}

#[test]
fn a_run_is_found_wherever_it_stands() {
    assert!(contains_run(&chars("abcd"), &chars("ab")));
    assert!(contains_run(&chars("abcd"), &chars("bc")));
    assert!(contains_run(&chars("abcd"), &chars("cd")));
    assert!(contains_run(&chars("abcd"), &chars("abcd")));
    assert!(contains_run(&chars("abcd"), &chars("")));
    assert!(contains_run(&chars(""), &chars("")));
    assert!(!contains_run(&chars("abcd"), &chars("ac")));
    assert!(!contains_run(&chars("abcd"), &chars("abcde")));
    assert!(!contains_run(&chars(""), &chars("a")));
    assert!(contains_run(&chars("aab"), &chars("ab")));
}

#[test]
fn a_character_is_found_or_not() {
    assert!(has_char(&chars("a_b"), '_'));
    assert!(!has_char(&chars("a_b"), '-'));
    assert!(!has_char(&chars(""), 'a'));
}

#[test]
fn blank_is_white_space_only() {
    assert!(blank(""));
    assert!(blank(" \t\r\n"));
    assert!(blank("\u{a0}\u{2003}"));
    assert!(!blank(" a "));
    assert!(!blank("_"));
}

#[test]
fn same_characters_in_the_same_order() {
    assert!(same_chars(&chars("abc"), &chars("abc")));
    assert!(same_chars(&chars(""), &chars("")));
    assert!(!same_chars(&chars("abc"), &chars("abd")));
    assert!(!same_chars(&chars("abc"), &chars("ab")));
    assert!(!same_chars(&chars("ab"), &chars("abc")));
}

#[test]
fn numbers_in_decimal() {
    assert_eq!(decimal_string(0), "0");
    assert_eq!(decimal_string(7), "7");
    assert_eq!(decimal_string(10), "10");
    assert_eq!(decimal_string(1234567890), "1234567890");
    assert_eq!(decimal_string(usize::MAX), usize::MAX.to_string());
}

#[test]
fn white_space_is_cut_at_both_ends() {
    assert_eq!(trim(&chars("  a b \t")), chars("a b"));
    assert_eq!(trim(&chars("a")), chars("a"));
    assert_eq!(trim(&chars("   ")), Vec::<char>::new());
    assert_eq!(trim(&chars("")), Vec::<char>::new());
    for s in [" x", "x ", "\u{a0}x\u{2003}", "\r\nx y\r\n"] {
        assert_eq!(trim(&chars(s)), chars(s.trim()));
    }
}

#[test]
fn a_list_of_files_has_a_name_to_a_line() {
    let names = parse_file_list("file1.txt\nfile2.txt\n# comment\n\nfile3.txt");
    assert_eq!(names.len(), 3);
    assert!(names.contains(&"file1.txt".to_string()));
    assert!(names.contains(&"file2.txt".to_string()));
    assert!(names.contains(&"file3.txt".to_string()));
    assert_eq!(names, vec!["file1.txt", "file2.txt", "file3.txt"]);
}

#[test]
fn a_list_of_files_skips_comments_and_empty_lines() {
    let text = "  a.txt  \r\n\r\n   # note\r\n#b\nc #d\n   \n\te.txt";
    assert_eq!(parse_file_list(text), vec!["a.txt", "c #d", "e.txt"]);
    assert_eq!(parse_file_list(""), Vec::<String>::new());
    assert_eq!(parse_file_list("\n\n"), Vec::<String>::new());
    assert_eq!(parse_file_list("last\n"), vec!["last"]);
}

#[test]
fn lines_that_are_typed_keep_their_number_signs() {
    let text = "  a.txt  \n# note\n\n b.txt\n";
    assert_eq!(parse_name_lines(text), vec!["a.txt", "# note", "b.txt"]);
    assert_eq!(parse_name_lines("   \n\t\n"), Vec::<String>::new());
}

#[test]
fn lines_are_read_as_the_standard_library_reads_them() {
    let texts = ["a\nb\n", "a\r\nb", "\n\na \n b\n\n", "x", "", " # y \n#z\n w #"];
    for text in texts {
        let expected: Vec<String> = text
            .lines()
            .map(|line| line.trim())
            .filter(|line| !line.is_empty() && !line.starts_with('#'))
            .map(|line| line.to_string())
            .collect();
        assert_eq!(parse_file_list(text), expected);
        let expected: Vec<String> = text
            .lines()
            .map(|line| line.trim())
            .filter(|line| !line.is_empty())
            .map(|line| line.to_string())
            .collect();
        assert_eq!(parse_name_lines(text), expected);
    }
}
