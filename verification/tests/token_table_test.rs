use ferrum_ai::special_iterator::{is_special, SpeciaStrDivideCustom, SpecialStr, SpecialStrClump,
    SpecialStrDivideall};
use ferrum_ai::tokenisation::{remove_special_words, remove_stop_words, stemm_string, Tokens};

#[test]
fn special_characters_are_classified() {
    assert!(is_special('!'));
    assert!(is_special('¿'));
    assert!(!is_special('a'));
    assert!(!is_special('9'));
    assert!(!is_special(' '));
    assert!(!is_special('\u{a0}'));
}

#[test]
fn unicode_whitespace_is_skipped() {
    let input = "a\u{a0}b";
    let mut sp = SpecialStr::new(&input);
    let mut toks: Vec<&str> = Vec::new();
    while let Some(t) = sp.next() {
        toks.push(t);
    }
    assert_eq!(toks, vec!["a", "b"]);
}

#[test]
fn clump_groups_special_runs() {
    let input = "ab!! cd";
    let mut sp = SpecialStrClump::new(&input);
    let mut toks: Vec<&str> = Vec::new();
    while let Some(t) = sp.next() {
        toks.push(t);
    }
    assert_eq!(toks, vec!["ab", "!!", "cd"]);
}

#[test]
fn divide_all_yields_single_characters() {
    let input = "a bc";
    let mut sp = SpecialStrDivideall::new(&input);
    let mut toks: Vec<&str> = Vec::new();
    while let Some(t) = sp.next() {
        toks.push(t);
    }
    assert_eq!(toks, vec!["a", "b", "c"]);
}

#[test]
fn custom_delimiters_split_runs() {
    let input = "a,b,,c";
    let mut sp = SpeciaStrDivideCustom::new(&input, vec![',']);
    let mut toks: Vec<&str> = Vec::new();
    while let Some(t) = sp.next() {
        toks.push(t);
    }
    assert_eq!(toks, vec!["a", "b", "c"]);
}

#[test]
fn stemming_reduces_inflected_words() {
    let out = stemm_string("i am running and jumping", "divide_special", vec![]);
    assert_eq!(out, vec!["i", "am", "run", "and", "jump"]);
}

#[test]
fn stemming_skips_exception_endings() {
    let out = stemm_string("i am running and jumping", "divide_special", vec!["ing"]);
    assert_eq!(out, vec!["i", "am", "and"]);
}

#[test]
fn tokenise_lowercases_and_counts() {
    let mut tokens = Tokens::new(2);
    let column = vec!["Run RUN run".to_string(), "running".to_string()];
    tokens.tokenise(&column, 1, None);
    assert_eq!(tokens.get_count("run"), 3);
    assert_eq!(tokens.get_count("running"), 1);
    assert_eq!(tokens.get_count("missing"), 0);
    assert_eq!(tokens.get_stats(), 2);
    assert_eq!(tokens.data_in_sequence[0], vec![0, 0, 0]);
    assert_eq!(tokens.data_in_sequence[1], vec![1]);
}

#[test]
fn tokenise_with_custom_delimiters() {
    let mut tokens = Tokens::new(1);
    let column = vec!["one,two one".to_string()];
    tokens.tokenise(&column, 4, Some(vec![' ', ',']));
    assert_eq!(tokens.get_count("one"), 2);
    assert_eq!(tokens.get_count("two"), 1);
    assert_eq!(tokens.data_in_sequence[0], vec![0, 1, 0]);
}

#[test]
fn count_below_counts_rare_tokens() {
    let mut tokens = Tokens::new(2);
    let column = vec!["run run".to_string(), "walk".to_string()];
    tokens.tokenise(&column, 1, None);
    assert_eq!(tokens.count_below(1), 1);
    assert_eq!(tokens.count_below(2), 2);
    assert_eq!(tokens.count_below(0), 0);
}

#[test]
fn remove_sparse_tokens_drops_rare_tokens() {
    let mut tokens = Tokens::new(2);
    let column = vec!["run run walk".to_string(), "run".to_string()];
    tokens.tokenise(&column, 1, None);
    tokens.remove_sparse_tokens(1);
    assert_eq!(tokens.get_count("run"), 3);
    assert_eq!(tokens.get_count("walk"), 0);
    assert_eq!(tokens.get_stats(), 1);
}

#[test]
fn remove_special_drops_long_special_tokens() {
    let mut tokens = Tokens::new(1);
    let column = vec!["!! abc !".to_string()];
    tokens.tokenise(&column, 2, None);
    tokens.remove_special(1);
    assert_eq!(tokens.get_count("!!"), 0);
    assert_eq!(tokens.get_count("!"), 1);
    assert_eq!(tokens.get_count("abc"), 1);
}

#[test]
fn stop_words_are_removed() {
    let mut toks = vec!["i".to_string(), "love".to_string(), "mine".to_string()];
    remove_stop_words(&mut toks, &vec!["i", "me", "my"]);
    assert_eq!(toks, vec!["love", "mine"]);
}

#[test]
fn special_words_are_removed() {
    let mut toks = vec!["a!".to_string(), "ab".to_string(), "x".to_string()];
    remove_special_words(&mut toks, &vec![]);
    assert_eq!(toks, vec!["ab"]);
}
