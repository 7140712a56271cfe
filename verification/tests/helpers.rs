use xneo::fuzzy::{fuzzy_match, fuzzy_scores, FUZZY_LIMIT};
use xneo::order::sort_descending;
use xneo::paths::{ancestors_of, find_ancestor, has_name};
use xneo::score::order_key;
use xneo::text::{
    chars_of, compare, contains, contains_ignoring_case, ends_with, first_chars, join_words,
    same_text, starts_with, Precedence,
};
use xneo::time::{age_seconds, time_ago, TimeAgo};
use xneo::VisitEntry;

fn words(items: &[&str]) -> Vec<String> {
    items.iter().map(|s| s.to_string()).collect()
}

#[test]
fn text_comparisons() {
    assert!(same_text("abc", "abc"));
    assert!(!same_text("abc", "abd"));
    assert!(!same_text("abc", "ab"));
    assert!(starts_with("/a/b/c", "/a/b"));
    assert!(starts_with("/a/b", "/a/b"));
    assert!(starts_with("/a/b", ""));
    assert!(!starts_with("/a", "/a/b"));
    assert!(!starts_with("/a/b", "/b"));
    assert!(ends_with("/a/b/c", "/c"));
    assert!(ends_with("abc", "abc"));
    assert!(ends_with("abc", ""));
    assert!(!ends_with("c", "/c"));
    assert!(!ends_with("/a/bc", "/c"));
    assert!(contains("hello world", "lo wo"));
    assert!(contains("hello", ""));
    assert!(contains("", ""));
    assert!(contains("hello", "hello"));
    assert!(!contains("hello", "world"));
    assert!(!contains("hi", "high"));
    assert_eq!(chars_of("a\u{e9}z"), vec!['a', '\u{e9}', 'z']);
}

#[test]
fn text_order_is_by_code_point() {
    assert_eq!(compare("a", "b"), Precedence::Before);
    assert_eq!(compare("b", "a"), Precedence::After);
    assert_eq!(compare("abc", "abc"), Precedence::Same);
    assert_eq!(compare("", ""), Precedence::Same);
    assert_eq!(compare("", "a"), Precedence::Before);
    assert_eq!(compare("ab", "abc"), Precedence::Before);
    assert_eq!(compare("abc", "ab"), Precedence::After);
    assert_eq!(compare("Z", "a"), Precedence::Before);
    assert_eq!(compare("z", "\u{e9}"), Precedence::Before);
    assert_eq!(compare("\u{1F600}", "\u{ffff}"), Precedence::After);
}

#[test]
fn words_are_joined_with_one_space() {
    assert_eq!(join_words(&[]), "");
    assert_eq!(join_words(&words(&["one"])), "one");
    assert_eq!(join_words(&words(&["one", "two", "three"])), "one two three");
    assert_eq!(join_words(&words(&["", "x", ""])), " x ");
}

#[test]
fn first_characters() {
    assert_eq!(first_chars("project", 3), "pro");
    assert_eq!(first_chars("ab", 3), "ab");
    assert_eq!(first_chars("", 3), "");
    assert_eq!(first_chars("abc", 0), "");
    assert_eq!(first_chars("\u{e9}\u{e8}\u{ea}\u{eb}", 2), "\u{e9}\u{e8}");
}

#[test]
fn case_is_folded_for_substrings() {
    assert!(contains_ignoring_case("/Home/User/Projects", "user/proj"));
    assert!(contains_ignoring_case("/home/user", "HOME"));
    assert!(contains_ignoring_case("/data/\u{c9}t\u{e9}", "\u{e9}T\u{c9}"));
    assert!(!contains_ignoring_case("/home/user", "root"));
}

#[test]
fn ancestors_run_up_to_the_root() {
    assert_eq!(ancestors_of("/a/b/c"), vec!["/a/b/c", "/a/b", "/a", "/"]);
    assert_eq!(ancestors_of("/"), vec!["/"]);
    assert_eq!(ancestors_of("a/b"), vec!["a/b", "a", ""]);
    assert_eq!(ancestors_of(""), vec![""]);
}

#[test]
fn final_segments() {
    assert!(has_name("/a/b/proj", "proj"));
    assert!(has_name("proj", "proj"));
    assert!(!has_name("/a/b/proj", "pro"));
    assert!(!has_name("/a/b/proj", "b"));
    assert!(!has_name("/", ""));
    assert!(!has_name("/a/..", ".."));
}

#[test]
fn the_nearest_ancestor_of_that_name_is_found() {
    assert_eq!(
        find_ancestor("/home/src/app/src/ui", &words(&["src"])),
        Some("/home/src/app/src".to_string())
    );
    assert_eq!(find_ancestor("/home/user/ui", &words(&["ui"])), Some("/home/user/ui".to_string()));
    assert_eq!(find_ancestor("/home/user/ui", &words(&["home"])), Some("/home".to_string()));
    assert_eq!(find_ancestor("/home/user/ui", &words(&["etc"])), None);
    assert_eq!(find_ancestor("/home/user/ui", &words(&["home", "user"])), None);
    assert_eq!(find_ancestor("/home/user/ui", &[]), None);
}

#[test]
fn positions_are_sorted_by_key_and_stay_in_order_when_equal() {
    assert_eq!(sort_descending(&vec![5, 7, 5, 9]), vec![3, 1, 0, 2]);
    assert_eq!(sort_descending(&vec![1, 1, 1]), vec![0, 1, 2]);
    assert_eq!(sort_descending(&vec![-3, i128::MAX, i128::MIN, 0]), vec![1, 3, 0, 2]);
    assert_eq!(sort_descending(&Vec::new()), Vec::<usize>::new());
}

#[test]
fn ages_are_clamped_at_zero() {
    assert_eq!(age_seconds(100, 3_700), 3_600);
    assert_eq!(age_seconds(100, 100), 0);
    assert_eq!(age_seconds(200, 100), 0);
    assert_eq!(age_seconds(i64::MIN, i64::MAX), u64::MAX);
    assert_eq!(age_seconds(i64::MAX, i64::MIN), 0);
}

#[test]
fn ages_are_told_in_the_largest_unit() {
    assert_eq!(time_ago(0, 59), TimeAgo::JustNow);
    assert_eq!(time_ago(0, 60), TimeAgo::Minutes(1));
    assert_eq!(time_ago(0, 3_599), TimeAgo::Minutes(59));
    assert_eq!(time_ago(0, 3_600), TimeAgo::Hours(1));
    assert_eq!(time_ago(0, 86_399), TimeAgo::Hours(23));
    assert_eq!(time_ago(0, 86_400), TimeAgo::Days(1));
    assert_eq!(time_ago(1_000, 1_000 + 3 * 86_400 + 5), TimeAgo::Days(3));
    assert_eq!(time_ago(500, 100), TimeAgo::JustNow);
}

#[test]
fn order_keys_grow_with_the_score() {
    let scores = [
        f64::NEG_INFINITY,
        -1.0e300,
        -2.5,
        -1.0,
        -1.0e-300,
        -0.0,
        0.0,
        1.0e-300,
        0.7,
        1.0,
        1.4690515462963,
        2.5,
        1.0e300,
        f64::INFINITY,
    ];
    for pair in scores.windows(2) {
        assert!(order_key(pair[0].to_bits()) < order_key(pair[1].to_bits()));
    }
    assert_eq!(order_key(0.0_f64.to_bits()), 0x8000_0000_0000_0000);
    assert_eq!(order_key((-0.0_f64).to_bits()), 0x7fff_ffff_ffff_ffff);
    assert_eq!(order_key(1.0_f64.to_bits()), 0xbff0_0000_0000_0000);
}

#[test]
fn fuzzy_scores_follow_the_matcher() {
    assert!(fuzzy_match("axbycz", "abc").is_some());
    assert_eq!(fuzzy_match("axbycz", "cba"), None);
    assert_eq!(fuzzy_match("abc", "abcd"), None);
    assert_eq!(fuzzy_match("anything", ""), Some(0));
    // a run of matches scores higher than scattered ones
    assert!(fuzzy_match("xprojx", "proj") > fuzzy_match("xpxrxoxjx", "proj"));
    let rows = vec![
        VisitEntry { path: "/home/user/project".to_string(), last_access: 0, visits: 1 },
        VisitEntry { path: "/etc".to_string(), last_access: 0, visits: 1 },
    ];
    let scores = fuzzy_scores(&rows, "hup");
    assert_eq!(scores.len(), 2);
    assert_eq!(scores[0], fuzzy_match("/home/user/project", "hup"));
    assert!(scores[0].is_some());
    assert_eq!(scores[1], None);
}

#[test]
fn overlong_texts_have_no_fuzzy_score() {
    let long = "a".repeat(FUZZY_LIMIT + 1);
    assert_eq!(fuzzy_match(&long, "a"), None);
    assert_eq!(fuzzy_match("a", &long), None);
    let edge = "a".repeat(FUZZY_LIMIT);
    assert!(fuzzy_match(&edge, "aa").is_some());
}
