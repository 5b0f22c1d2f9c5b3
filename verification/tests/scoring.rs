use jump::db::Dir;
use jump::score::{normalize_directory, score, MAX_SCORE};
use jump::text::join_terms;
use std::collections::HashMap;

fn dir_maker(dir: &str) -> Dir {
    Dir {
        id: 1,
        dir: dir.to_string(),
        access_count: 0,
        last_accessed: 0,
    }
}

fn terms(query: &str) -> Vec<String> {
    query.split_whitespace().map(|s| s.to_string()).collect()
}

/// Confirm queries against various target directories are ordered
/// appropriately. This is for preserving the desired ordering
/// should the scoring implementation change.
#[test]
fn order_queries() {
    let target_dir = dir_maker("/home/ryanw/Dropbox/Projects");

    let queries = vec!["drop proj".to_string(), "proj".into()];

    let mut scores: HashMap<String, u32> = HashMap::new();
    for q in queries {
        let args: Vec<String> = q.split_whitespace().map(|s| s.to_string()).collect();
        let s = score(&args, &target_dir);
        println!("Score for '{}': {}", q, s);
        scores.insert(q, s);
    }

    // Various comparisons -- This is the 'meat' of the test
    assert!(scores.get("drop proj") > scores.get("proj"));
}

#[test]
fn more_specific_query_scores_higher_on_matching_tail() {
    let target_dir = dir_maker("/home/user/Dropbox/Projects");
    let specific = score(&terms("drop proj"), &target_dir);
    let partial = score(&terms("proj"), &target_dir);
    assert!(specific > partial);
}

#[test]
fn normalize_keeps_as_many_trailing_components_as_terms() {
    let path = "/home/ryanw/Dropbox/Projects";
    assert_eq!(normalize_directory(&terms("proj"), path), "Projects");
    assert_eq!(normalize_directory(&terms("drop proj"), path), "Dropbox Projects");
    assert_eq!(normalize_directory(&terms("a b c"), path), "ryanw Dropbox Projects");
}

#[test]
fn normalize_without_terms_is_empty() {
    assert_eq!(normalize_directory(&[], "/home/ryanw/Dropbox/Projects"), "");
    assert_eq!(normalize_directory(&[], "/"), "");
    assert_eq!(normalize_directory(&[], "x"), "");
}

#[test]
fn normalize_with_as_many_terms_as_components_keeps_all() {
    assert_eq!(normalize_directory(&terms("a b"), "/usr/lib"), "usr lib");
    assert_eq!(
        normalize_directory(&terms("a b c d"), "/home/ryanw/Dropbox/Projects"),
        "home ryanw Dropbox Projects"
    );
}

#[test]
fn normalize_with_more_terms_than_components_is_clamped() {
    assert_eq!(normalize_directory(&terms("a b c d e"), "/usr/lib"), "usr lib");
    assert_eq!(normalize_directory(&terms("a b"), "/tmp"), "tmp");
}

#[test]
fn normalize_of_path_without_components_is_empty() {
    assert_eq!(normalize_directory(&terms("a"), ""), "");
    assert_eq!(normalize_directory(&terms("a b c"), ""), "");
    assert_eq!(normalize_directory(&terms("a"), "/"), "");
    assert_eq!(normalize_directory(&terms("a b"), "///"), "");
}

#[test]
fn normalize_skips_empty_components() {
    assert_eq!(normalize_directory(&terms("a"), "//usr///lib/"), "lib");
    assert_eq!(normalize_directory(&terms("a b"), "//usr///lib/"), "usr lib");
    assert_eq!(normalize_directory(&terms("a b"), "usr/lib"), "usr lib");
}

#[test]
fn normalize_splits_on_the_separator_only() {
    assert_eq!(normalize_directory(&terms("a"), "/home/my dir"), "my dir");
    assert_eq!(normalize_directory(&terms("a b"), "/home/my dir"), "home my dir");
}

#[test]
fn normalize_counts_characters_not_bytes() {
    assert_eq!(normalize_directory(&terms("a"), "/höme/désir"), "désir");
    assert_eq!(normalize_directory(&terms("a b"), "/höme/désir"), "höme désir");
}

#[test]
fn join_terms_puts_single_spaces_between_words() {
    assert_eq!(join_terms(&[]), "");
    assert_eq!(join_terms(&terms("proj")), "proj");
    assert_eq!(join_terms(&terms("drop proj")), "drop proj");
    assert_eq!(join_terms(&terms("a b c")), "a b c");
}

#[test]
fn score_of_single_term_has_exact_value() {
    let target_dir = dir_maker("/home/ryanw/Dropbox/Projects");
    // "proj" against "projects": 4 of 12 characters match on each side
    assert_eq!(score(&terms("proj"), &target_dir), 67);
}

#[test]
fn score_of_two_terms_has_exact_value() {
    let target_dir = dir_maker("/home/ryanw/Dropbox/Projects");
    // "drop proj" against "dropbox projects": 9 matching characters of 25
    assert_eq!(score(&terms("drop proj"), &target_dir), 72);
}

#[test]
fn score_of_same_words_is_highest() {
    let target_dir = dir_maker("/home/ryanw/Dropbox/Projects");
    assert_eq!(score(&terms("dropbox projects"), &target_dir), MAX_SCORE);
    assert_eq!(score(&terms("projects"), &target_dir), 100);
}

#[test]
fn score_ignores_case_and_word_order() {
    let target_dir = dir_maker("/home/ryanw/Dropbox/Projects");
    assert_eq!(score(&terms("PROJECTS dropBOX"), &target_dir), 100);
    assert_eq!(
        score(&terms("proj drop"), &target_dir),
        score(&terms("drop proj"), &target_dir)
    );
}

#[test]
fn score_of_query_without_common_characters_is_zero() {
    assert_eq!(score(&terms("zzz"), &dir_maker("/usr/lib")), 0);
}

#[test]
fn score_of_empty_query_is_highest() {
    assert_eq!(score(&[], &dir_maker("/usr/lib")), 100);
}

#[test]
fn score_leaves_characters_outside_ascii_aside() {
    let target_dir = dir_maker("/höme/désir");
    assert_eq!(score(&terms("désir"), &target_dir), 100);
    assert_eq!(score(&terms("dsir"), &target_dir), 100);
    assert_eq!(score(&terms("日本語"), &dir_maker("/日本語/テスト")), 100);
}

#[test]
fn score_is_at_most_the_highest() {
    let dirs = ["/", "/a", "/home/ryanw/Dropbox/Projects", "/usr/local/lib"];
    let queries = ["", "a", "lib", "drop proj", "usr local lib"];
    for d in dirs {
        for q in queries {
            assert!(score(&terms(q), &dir_maker(d)) <= MAX_SCORE);
        }
    }
}
