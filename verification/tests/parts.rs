use toml_maid::order::{sort_order, SortKey};
use toml_maid::text::{
    begins_with, chars_of, has_char, same_text, text_lt, text_of, trimmed, trimmed_end, CharClass,
};
use toml_maid::{
    excluded_by, exit_status, exit_status_of_run, finish, is_excluded, is_wanted, outcome, Failure,
    FileResult, Outcome, ScanError, CONFIG_FILE,
};

fn key(group: u8, rank: usize, name: &str) -> SortKey {
    SortKey { group, rank, name: name.to_string() }
}

#[test]
fn whitespace_is_what_the_standard_library_says() {
    let mut c = 0u32;
    while c <= 0x10FFFF {
        if let Some(ch) = char::from_u32(c) {
            assert_eq!(CharClass::Whitespace.contains(ch), ch.is_whitespace(), "U+{:04X}", c);
        }
        c += 1;
    }
}

#[test]
fn smaller_classes() {
    for ch in [' ', '\t'] {
        assert!(CharClass::Blank.contains(ch));
        assert!(CharClass::Padding.contains(ch));
        assert!(!CharClass::Newline.contains(ch));
    }
    assert!(CharClass::Newline.contains('\n'));
    assert!(CharClass::Padding.contains('\n'));
    assert!(!CharClass::Blank.contains('\n'));
    for ch in ['\r', 'a', '#', '\u{A0}'] {
        assert!(!CharClass::Blank.contains(ch));
        assert!(!CharClass::Newline.contains(ch));
        assert!(!CharClass::Padding.contains(ch));
    }
}

#[test]
fn trimming_agrees_with_the_standard_library() {
    let samples = [
        "",
        " ",
        "\n",
        "a",
        "  a  ",
        "\t a b \n",
        "\n\n# c\n\n",
        " \u{3000}x\u{a0} ",
        "x \t",
        " \n\t ",
        "é ",
        "  # comment  ",
    ];
    for s in samples {
        assert_eq!(trimmed(s, CharClass::Whitespace), s.trim());
        assert_eq!(trimmed_end(s, CharClass::Whitespace), s.trim_end());
        assert_eq!(trimmed(s, CharClass::Blank), s.trim_matches(&[' ', '\t'][..]));
        assert_eq!(trimmed(s, CharClass::Padding), s.trim_matches(&[' ', '\t', '\n'][..]));
        assert_eq!(trimmed_end(s, CharClass::Newline), s.trim_end_matches('\n'));
    }
}

#[test]
fn trimming_exact_values() {
    assert_eq!(trimmed("  a b  ", CharClass::Whitespace), "a b");
    assert_eq!(trimmed(" \t\n", CharClass::Whitespace), "");
    assert_eq!(trimmed(" \ta\n ", CharClass::Blank), "a\n");
    assert_eq!(trimmed_end("a\n\n", CharClass::Newline), "a");
    assert_eq!(trimmed_end("a\n \n", CharClass::Newline), "a\n ");
}

#[test]
fn text_helpers() {
    assert_eq!(chars_of("aé"), vec!['a', 'é']);
    assert_eq!(text_of(&vec!['a', 'b', 'c', 'd'], 1, 3), "bc");
    assert_eq!(text_of(&vec!['a'], 1, 1), "");
    assert!(begins_with("\nx", '\n'));
    assert!(!begins_with("x\n", '\n'));
    assert!(!begins_with("", '\n'));
    assert!(has_char("a\nb", '\n'));
    assert!(!has_char("ab", '\n'));
    assert!(same_text("aé", "aé"));
    assert!(!same_text("a", "ab"));
    assert!(!same_text("ab", "ac"));
}

#[test]
fn lexicographic_order_agrees_with_the_standard_library() {
    let samples = ["", "a", "A", "ab", "b", "aa", "é", "z", "\u{10000}", "\u{ffff}", "a b", "a-b"];
    for a in samples {
        for b in samples {
            assert_eq!(text_lt(a, b), a < b, "{:?} {:?}", a, b);
        }
    }
}

#[test]
fn sort_keys_compare_by_group_rank_and_name() {
    assert!(key(0, 5, "z").precedes(&key(1, 0, "a")));
    assert!(!key(1, 0, "a").precedes(&key(0, 5, "z")));
    assert!(key(0, 1, "z").precedes(&key(0, 2, "a")));
    assert!(!key(0, 2, "a").precedes(&key(0, 1, "z")));
    assert!(key(1, 0, "a").precedes(&key(1, 0, "b")));
    assert!(!key(1, 0, "b").precedes(&key(1, 0, "a")));
    assert!(!key(1, 0, "a").precedes(&key(1, 0, "a")));
}

#[test]
fn keys_compare_by_rank_then_by_text() {
    let ranks = toml_maid::Ranks { keys: vec!["name".to_string(), "version".to_string()] };
    assert!(ranks.before("name", "version"));
    assert!(!ranks.before("version", "name"));
    assert!(ranks.before("version", "a"));
    assert!(!ranks.before("a", "version"));
    assert!(ranks.before("a", "b"));
    assert!(!ranks.before("b", "a"));
    assert!(!ranks.before("a", "a"));
    assert!(!ranks.before("name", "name"));
    assert_eq!(ranks.sort_key("version"), key(0, 1, ""));
    assert_eq!(ranks.sort_key("zeta"), key(1, 0, "zeta"));
}

#[test]
fn sort_order_is_a_stable_sort() {
    let keys = vec![key(1, 0, ""), key(0, 0, "b"), key(1, 0, ""), key(0, 0, "a"), key(1, 0, "")];
    assert_eq!(sort_order(&keys), vec![3, 1, 0, 2, 4]);
    assert_eq!(sort_order(&vec![]), Vec::<usize>::new());
    let sorted = vec![key(0, 0, ""), key(0, 1, ""), key(1, 0, "a"), key(1, 0, "a"), key(1, 0, "b")];
    assert_eq!(sort_order(&sorted), vec![0, 1, 2, 3, 4]);
    let reversed = vec![key(1, 0, "c"), key(1, 0, "b"), key(1, 0, "a")];
    assert_eq!(sort_order(&reversed), vec![2, 1, 0]);
}

#[test]
fn finish_trims_and_ends_the_line() {
    assert_eq!(finish("\n\na = 1\n\n\n"), "\n\na = 1\n");
    assert_eq!(finish("\n\na = 1\n"), "\n\na = 1\n");
    assert_eq!(outcome("\n\na = 1\n", &finish("\n\na = 1\n"), false), Outcome::Unchanged);
    assert_eq!(finish("  a = 1 \t\n "), "  a = 1\n");
    assert_eq!(finish("a = 1"), "a = 1\n");
    assert_eq!(finish(""), "\n");
    assert_eq!(finish("  \n"), "\n");
}

#[test]
fn outcome_of_each_case() {
    assert_eq!(outcome("a\n", "a\n", false), Outcome::Unchanged);
    assert_eq!(outcome("a\n", "b\n", false), Outcome::Overwritten);
    assert_eq!(outcome("a\n", "a\n", true), Outcome::CheckPassed);
    assert_eq!(outcome("a\n", "b\n", true), Outcome::CheckFailed);
    assert_eq!(outcome("a", "a\n", true), Outcome::CheckFailed);
}

#[test]
fn only_an_overwritten_file_is_written() {
    assert!(Outcome::Overwritten.writes());
    assert!(!Outcome::Unchanged.writes());
    assert!(!Outcome::CheckPassed.writes());
    assert!(!Outcome::CheckFailed.writes());
    for original in ["", "a\n", "b"] {
        for formatted in ["", "a\n", "b"] {
            assert!(!outcome(original, formatted, true).writes());
        }
        assert!(!outcome(original, original, false).writes());
    }
}

#[test]
fn exit_status_of_each_result() {
    assert_eq!(exit_status(&Ok(Outcome::Unchanged)), 0);
    assert_eq!(exit_status(&Ok(Outcome::Overwritten)), 0);
    assert_eq!(exit_status(&Ok(Outcome::CheckPassed)), 0);
    assert_eq!(exit_status(&Ok(Outcome::CheckFailed)), 2);
    assert_eq!(exit_status(&Err(Failure::Io)), 3);
    assert_eq!(exit_status(&Err(Failure::Parse)), 1);
    assert_eq!(exit_status(&Err(Failure::Config)), 4);
}

#[test]
fn exit_status_of_a_run() {
    assert_eq!(exit_status_of_run(&vec![]), 0);
    assert_eq!(exit_status_of_run(&vec![Ok(Outcome::Unchanged), Ok(Outcome::Overwritten)]), 0);
    let results: Vec<FileResult> = vec![
        Ok(Outcome::CheckPassed),
        Err(Failure::Parse),
        Ok(Outcome::CheckFailed),
        Err(Failure::Io),
    ];
    assert_eq!(exit_status_of_run(&results), 1);
    assert_eq!(exit_status_of_run(&vec![Ok(Outcome::Unchanged), Ok(Outcome::CheckFailed)]), 2);
    assert_eq!(exit_status_of_run(&vec![Err(Failure::Io), Err(Failure::Parse)]), 3);
}

#[test]
fn wanted_files() {
    assert!(is_wanted(false, Some("toml"), Some("Cargo.toml"), "toml"));
    assert!(is_wanted(false, Some("toml"), None, "toml"));
    assert!(!is_wanted(true, Some("toml"), Some("x.toml"), "toml"));
    assert!(!is_wanted(false, Some("rs"), Some("main.rs"), "toml"));
    assert!(!is_wanted(false, None, Some("Makefile"), "toml"));
    assert!(!is_wanted(false, Some("toml"), Some(CONFIG_FILE), "toml"));
    assert_eq!(CONFIG_FILE, "toml-maid.toml");
}

#[test]
fn excluded_paths() {
    let excludes = vec!["target/*".to_string(), "*.tmp.toml".to_string()];
    assert_eq!(is_excluded(&excludes, Some("target/x.toml")), Ok(true));
    assert_eq!(is_excluded(&excludes, Some("a.tmp.toml")), Ok(true));
    assert_eq!(is_excluded(&excludes, Some("src/a.toml")), Ok(false));
    assert_eq!(is_excluded(&excludes, None), Ok(false));
    assert_eq!(is_excluded(&vec![], Some("a.toml")), Ok(false));
    assert_eq!(is_excluded(&vec!["a.toml".to_string()], Some("a.toml")), Ok(true));
    assert_eq!(is_excluded(&vec!["a.toml".to_string()], Some("b.toml")), Ok(false));
}

#[test]
fn invalid_pattern_is_an_error() {
    let excludes = vec!["ok".to_string(), "a**b".to_string(), "[".to_string()];
    assert_eq!(is_excluded(&excludes, Some("ok")), Err(ScanError::InvalidPattern(1)));
    assert_eq!(is_excluded(&excludes, None), Err(ScanError::InvalidPattern(1)));
}

#[test]
fn verdict_from_the_answers() {
    assert_eq!(excluded_by(&vec![]), Ok(false));
    assert_eq!(excluded_by(&vec![Some(false), Some(false)]), Ok(false));
    assert_eq!(excluded_by(&vec![Some(false), Some(true)]), Ok(true));
    assert_eq!(excluded_by(&vec![Some(true), None, None]), Err(ScanError::InvalidPattern(1)));
    assert_eq!(excluded_by(&vec![None]), Err(ScanError::InvalidPattern(0)));
}
