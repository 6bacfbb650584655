use name_checker::cli::Args;
use name_checker::utils::{get_name_validity, get_names, is_invalid_predicate, to_title, trim_str};

fn s(x: &str) -> String {
    x.to_string()
}

#[test]
fn args_carry_their_fields() {
    let args = Args::new(s("names.txt"), 27, 200);
    assert_eq!(args.input, "names.txt");
    assert_eq!(args.get_parallel_requests(), 27);
    assert_eq!(args.delay, 200);
}

#[test]
fn valid_names_pass() {
    assert!(!is_invalid_predicate("Steve123"));
    assert!(!is_invalid_predicate("valid_name"));
    assert!(!is_invalid_predicate("abc"));
    assert!(!is_invalid_predicate("abcdefghijklmnop"));
}

#[test]
fn short_and_long_names_fail() {
    assert!(is_invalid_predicate("ab"));
    assert!(is_invalid_predicate(""));
    assert!(is_invalid_predicate("toolongtoolongtoolong"));
    assert!(is_invalid_predicate("abcdefghijklmnopq"));
}

#[test]
fn names_with_foreign_characters_fail() {
    assert!(is_invalid_predicate("bad name"));
    assert!(is_invalid_predicate("a.bcd"));
    assert!(is_invalid_predicate("hy-phen"));
    assert!(is_invalid_predicate("émile"));
}

#[test]
fn validity_partition_keeps_order() {
    let names = vec![s("ab"), s("Steve123"), s("valid_name"), s("toolongtoolongtoolong")];
    let data = get_name_validity(names);
    assert_eq!(data.valid_names, vec![s("Steve123"), s("valid_name")]);
    assert_eq!(data.invalid_names, vec![s("ab"), s("toolongtoolongtoolong")]);
}

#[test]
fn validity_partition_of_empty_list() {
    let data = get_name_validity(Vec::new());
    assert!(data.valid_names.is_empty());
    assert!(data.invalid_names.is_empty());
}

#[test]
fn to_title_upper_cases_head_and_lower_cases_tail() {
    assert_eq!(to_title("stEVE"), "Steve");
    assert_eq!(to_title("STEVE"), "Steve");
    assert_eq!(to_title("steve"), "Steve");
    assert_eq!(to_title("Steve"), "Steve");
}

#[test]
fn to_title_leaves_non_letters_alone() {
    assert_eq!(to_title(""), "");
    assert_eq!(to_title("_name"), "_name");
    assert_eq!(to_title("a_B9"), "A_b9");
}

#[test]
fn to_title_leaves_non_ascii_names_unchanged() {
    assert_eq!(to_title("éclair"), "éclair");
    assert_eq!(to_title("naïve"), "naïve");
}

#[test]
fn trim_strips_both_ends() {
    assert_eq!(trim_str("  Steve\t"), "Steve");
    assert_eq!(trim_str("Steve"), "Steve");
    assert_eq!(trim_str(" \t \r\n"), "");
    assert_eq!(trim_str("a b"), "a b");
}

#[test]
fn trim_strips_unicode_whitespace() {
    assert_eq!(trim_str("\u{a0}Steve\u{a0}"), "Steve");
    assert_eq!(trim_str("\u{2003}Steve\u{3000}"), "Steve");
    assert_eq!(trim_str("\u{85}\u{2028}"), "");
}

#[test]
fn trim_agrees_with_the_standard_trim() {
    let samples = ["  Steve  ", "\u{a0}alex\t", "\u{1680}x\u{205f}", "a\u{a0}b", ""];
    for sample in samples {
        assert_eq!(trim_str(sample), sample.trim());
    }
}

#[test]
fn get_names_splits_trims_and_deduplicates() {
    let content = "  Steve  \nalex\nSteve\r\nalex\n";
    assert_eq!(get_names(content), vec![s("Steve"), s("alex")]);
}

#[test]
fn get_names_drops_non_consecutive_duplicates() {
    let content = "one\ntwo\none\nthree\ntwo";
    assert_eq!(get_names(content), vec![s("one"), s("two"), s("three")]);
}

#[test]
fn get_names_of_empty_content() {
    assert_eq!(get_names(""), Vec::<String>::new());
}

#[test]
fn get_names_keeps_empty_lines_as_empty_names() {
    let content = "alpha\n\nbeta";
    assert_eq!(get_names(content), vec![s("alpha"), s(""), s("beta")]);
}
