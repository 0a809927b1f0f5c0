use anagram_solver::letters::Letters;
use anagram_solver::score::calculate_quality_score;
use anagram_solver::signature::{create_signature, would_be_redundant};
use anagram_solver::solve::join_words;
use anagram_solver::solve_anagrams;
use anagram_solver::words::{build_dictionary, normalize_line};
use anagram_solver::SolveError;

fn dict(words: &[&str]) -> Vec<String> {
    words.iter().map(|w| w.to_string()).collect()
}

fn sorted_letters(s: &str) -> Vec<char> {
    let mut v: Vec<char> = s
        .chars()
        .filter(|c| c.is_ascii_alphabetic())
        .map(|c| c.to_ascii_lowercase())
        .collect();
    v.sort();
    v
}

#[test]
fn cat_example() {
    let d = dict(&["cat", "act", "ca", "at", "a", "t"]);
    let res = solve_anagrams("cat", &d).unwrap();
    let out = res.results;
    let n_cat = out.iter().filter(|p| p.as_str() == "cat").count();
    let n_act = out.iter().filter(|p| p.as_str() == "act").count();
    assert_eq!(n_cat, 1);
    assert_eq!(n_act, 1);
    // both single-word solutions outrank every multi-word phrase
    let last_single = out
        .iter()
        .enumerate()
        .filter(|(_, p)| !p.contains(' '))
        .map(|(i, _)| i)
        .max()
        .unwrap();
    let first_multi = out.iter().enumerate().find(|(_, p)| p.contains(' ')).map(|(i, _)| i);
    if let Some(fm) = first_multi {
        assert!(last_single < fm);
    }
    // top result is one of the two single words
    assert!(out[0] == "cat" || out[0] == "act");
}

#[test]
fn single_letter() {
    let d = dict(&["a"]);
    let res = solve_anagrams("a", &d).unwrap();
    assert_eq!(res.results, vec!["a".to_string()]);
}

#[test]
fn empty_input_is_rejected() {
    let d = dict(&["a"]);
    assert!(matches!(solve_anagrams("", &d), Err(SolveError::EmptyInput)));
    assert!(matches!(solve_anagrams("   \t ", &d), Err(SolveError::EmptyInput)));
    assert!(matches!(solve_anagrams("123 !?", &d), Err(SolveError::EmptyInput)));
}

#[test]
fn empty_input_beats_empty_dictionary() {
    // the phrase is checked before the word source is touched
    let d: Vec<String> = Vec::new();
    assert!(matches!(solve_anagrams("", &d), Err(SolveError::EmptyInput)));
}

#[test]
fn empty_dictionary_is_rejected() {
    let d: Vec<String> = Vec::new();
    assert!(matches!(solve_anagrams("cat", &d), Err(SolveError::DictionaryEmpty)));
    let d2 = dict(&["", "   ", "a1b", "x y"]);
    assert!(matches!(solve_anagrams("cat", &d2), Err(SolveError::DictionaryEmpty)));
}

#[test]
fn deterministic_output() {
    let d = dict(&["listen", "silent", "enlist", "tin", "les", "nest", "nil", "set", "lit"]);
    let a = solve_anagrams("listen", &d).unwrap().results;
    let b = solve_anagrams("listen", &d).unwrap().results;
    assert_eq!(a, b);
}

#[test]
fn every_phrase_is_an_exact_anagram() {
    let d = dict(&["listen", "silent", "enlist", "tin", "les", "set", "nil", "lit", "ten", "sil"]);
    let res = solve_anagrams("Listen!", &d).unwrap();
    let target = sorted_letters("Listen!");
    assert!(!res.results.is_empty());
    for p in &res.results {
        assert_eq!(sorted_letters(p), target);
        for w in p.split(' ') {
            assert!(d.iter().any(|e| e == w));
        }
    }
}

#[test]
fn no_duplicate_phrases() {
    // the same word listed twice gives two search branches but one phrase
    let d = dict(&["cat", "cat", "ca", "t"]);
    let res = solve_anagrams("cat", &d).unwrap();
    let out = res.results;
    for i in 0..out.len() {
        for j in (i + 1)..out.len() {
            assert_ne!(out[i], out[j]);
        }
    }
    assert_eq!(out.iter().filter(|p| p.as_str() == "cat").count(), 1);
}

#[test]
fn single_word_ranked_first() {
    let d = dict(&["ca", "t", "cat"]);
    let res = solve_anagrams("cat", &d).unwrap();
    assert_eq!(res.results[0], "cat");
    assert!(res.results.contains(&"ca t".to_string()));
}

#[test]
fn lines_are_trimmed_and_lowercased() {
    let d = dict(&["  CAT ", "Act\t", "bad-entry", ""]);
    let res = solve_anagrams("TAC", &d).unwrap();
    assert!(res.results.contains(&"cat".to_string()));
    assert!(res.results.contains(&"act".to_string()));
}

#[test]
fn letters_counting() {
    let l = Letters::from_text("Hello, World!");
    assert_eq!(l.total(), 10);
    let word = Letters::from_text("low");
    assert!(l.can_cover(&word));
    let rest = l.subtract(&word);
    assert_eq!(rest.total(), 7);
    let missing = Letters::from_text("zz");
    assert!(!l.can_cover(&missing));
}

#[test]
fn quality_score_values() {
    let one = vec!["cat".to_string()];
    // average 3 -> bonus 300; one word -> penalty 1000; no deviation
    assert_eq!(calculate_quality_score(&one), -700);
    let two = vec!["ca".to_string(), "t".to_string()];
    // average 1 -> bonus 100; two words -> penalty 2000; deviation 1 -> 5
    assert_eq!(calculate_quality_score(&two), -1905);
    let none: Vec<String> = Vec::new();
    assert_eq!(calculate_quality_score(&none), 0);
}

#[test]
fn signature_of_substantial_words() {
    let words = vec!["stone".to_string(), "cat".to_string(), "water".to_string()];
    assert_eq!(create_signature(&words), "stone|water");
    let short = vec!["cat".to_string(), "at".to_string()];
    assert_eq!(create_signature(&short), "");
}

#[test]
fn redundancy_check() {
    let current = vec!["stone".to_string()];
    let seen = vec!["stone|water".to_string()];
    assert!(would_be_redundant(&current, &"water".to_string(), &seen));
    assert!(!would_be_redundant(&current, &"trade".to_string(), &seen));
    // no substantial word involved: never redundant
    let empty_seen: Vec<String> = vec!["".to_string()];
    assert!(!would_be_redundant(&Vec::new(), &"cat".to_string(), &empty_seen));
}

#[test]
fn normalization_of_lines() {
    assert_eq!(normalize_line(" Cat "), Some("cat".to_string()));
    assert_eq!(normalize_line("WORD"), Some("word".to_string()));
    assert_eq!(normalize_line("a1"), None);
    assert_eq!(normalize_line("   "), None);
    assert_eq!(normalize_line(""), None);
    assert_eq!(normalize_line("two words"), None);
}

#[test]
fn dictionary_building() {
    let lines = dict(&[" One", "", "tw0", "THREE ", "four"]);
    let words = build_dictionary(&lines);
    assert_eq!(words, vec!["one".to_string(), "three".to_string(), "four".to_string()]);
}

#[test]
fn multi_word_only() {
    // no single word covers the phrase, so only a combination remains
    let d = dict(&["a", "b"]);
    let res = solve_anagrams("ba", &d).unwrap();
    assert_eq!(res.results, vec!["a b".to_string()]);
}

#[test]
fn same_word_used_twice() {
    // a candidate may be reused at or after its own index
    let d = dict(&["a"]);
    let res = solve_anagrams("aa", &d).unwrap();
    assert_eq!(res.results, vec!["a a".to_string()]);
}

#[test]
fn joining_words() {
    assert_eq!(join_words(&vec!["ab".to_string(), "c".to_string()]), "ab c");
    assert_eq!(join_words(&vec!["solo".to_string()]), "solo");
    assert_eq!(join_words(&Vec::new()), "");
}
