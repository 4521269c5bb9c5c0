use zhistory::search::{match_regex, query_retains, tokenize_and_filter};
use zhistory::stats::{extract_unique_commands, process_cmds, CommandCounts};

#[test]
fn whole_word_match_found() {
    assert!(match_regex("git status", &Some(String::from("git"))));
    assert!(match_regex("run git now", &Some(String::from("git"))));
}

#[test]
fn whole_word_match_respects_boundaries() {
    assert!(!match_regex("gitx status", &Some(String::from("git"))));
    assert!(!match_regex("digit", &Some(String::from("git"))));
}

#[test]
fn match_is_case_sensitive() {
    assert!(!match_regex("GIT status", &Some(String::from("git"))));
}

#[test]
fn match_escapes_pattern_characters() {
    assert!(match_regex("run a+b now", &Some(String::from("a+b"))));
    assert!(!match_regex("aab", &Some(String::from("a+b"))));
}

#[test]
fn no_term_no_match() {
    assert!(!match_regex("anything", &None));
}

#[test]
fn query_is_case_insensitive_substring() {
    assert!(query_retains("git status", "GIT"));
    assert!(query_retains("GIT STATUS", "git"));
    assert!(query_retains("git status", "tat"));
    assert!(!query_retains("git status", "push"));
}

#[test]
fn query_with_any_matching_token_retains() {
    assert!(query_retains("git status", "push status"));
    assert!(!query_retains("git status", "push pull"));
}

#[test]
fn empty_query_retains_everything() {
    assert!(query_retains("git status", ""));
    assert!(query_retains("", "   "));
}

#[test]
fn filter_keeps_matching_words_in_order() {
    let mut words: Vec<String> = vec![
        String::from("git status"),
        String::from("ls -la"),
        String::from("echo hi"),
    ];
    tokenize_and_filter("GIT echo", &mut words);
    assert_eq!(words, vec![String::from("git status"), String::from("echo hi")]);
}

#[test]
fn filter_with_no_tokens_keeps_all() {
    let mut words: Vec<String> = vec![String::from("one"), String::from("two")];
    tokenize_and_filter("  ", &mut words);
    assert_eq!(words, vec![String::from("one"), String::from("two")]);
}

#[test]
fn filter_is_idempotent() {
    let mut words: Vec<String> = vec![
        String::from("git status"),
        String::from("ls -la"),
        String::from("git push"),
    ];
    tokenize_and_filter("git", &mut words);
    let once = words.clone();
    tokenize_and_filter("git", &mut words);
    assert_eq!(words, once);
}

#[test]
fn frequency_ranking_counts_first_two_words() {
    let cmds: Vec<String> = vec![
        String::from("git status"),
        String::from("git status"),
        String::from("ls"),
    ];
    let ranked = process_cmds(cmds, ';');
    assert_eq!(
        ranked,
        vec![
            (String::from("git"), 2),
            (String::from("status"), 2),
            (String::from("ls"), 1),
        ]
    );
}

#[test]
fn frequency_uses_portion_after_delimiter() {
    let cmds: Vec<String> = vec![
        String::from(": 1000:0;git status"),
        String::from(": 2000:0;git push origin main"),
    ];
    let ranked = process_cmds(cmds, ';');
    assert_eq!(ranked[0], (String::from("git"), 2));
    assert_eq!(ranked.len(), 3);
    assert!(ranked.contains(&(String::from("status"), 1)));
    assert!(ranked.contains(&(String::from("push"), 1)));
}

#[test]
fn frequency_ties_keep_first_seen_order() {
    let cmds: Vec<String> = vec![
        String::from("beta"),
        String::from("alpha"),
        String::from("beta"),
        String::from("alpha"),
    ];
    let ranked = process_cmds(cmds, ';');
    assert_eq!(
        ranked,
        vec![(String::from("beta"), 2), (String::from("alpha"), 2)]
    );
}

#[test]
fn tally_counts_at_most_two_words_per_command() {
    let mut counts = CommandCounts::new();
    extract_unique_commands("git status now", ';', &mut counts);
    extract_unique_commands("git push", ';', &mut counts);
    assert_eq!(
        counts.pairs(),
        &vec![
            (String::from("git"), 2),
            (String::from("status"), 1),
            (String::from("push"), 1),
        ]
    );
}

#[test]
fn frequency_of_empty_window_is_empty() {
    let ranked = process_cmds(Vec::new(), ';');
    assert!(ranked.is_empty());
}
