use emergence::text::{
    count_word_occurrences, ignore_code_blocks, naive_singularize, normalize_text, normalize_word,
    split_whitespace, text_terms, trim_punctuation,
};

fn c(s: &str) -> Vec<char> {
    s.chars().collect()
}

fn s(v: &[char]) -> String {
    v.iter().collect()
}

#[test]
fn trims_punctuation() {
    assert_eq!(s(&trim_punctuation(&c("\"hello,\""))), "hello");
    assert_eq!(s(&trim_punctuation(&c("--a-b--"))), "a-b");
    assert_eq!(s(&trim_punctuation(&c("123"))), "");
    assert_eq!(s(&trim_punctuation(&c(""))), "");
}

#[test]
fn singularizes_naively() {
    assert_eq!(s(&naive_singularize(&c("words"))), "word");
    assert_eq!(s(&naive_singularize(&c("word"))), "word");
    assert_eq!(s(&naive_singularize(&c(""))), "");
}

#[test]
fn normalizes_words() {
    assert_eq!(s(&normalize_word(&c("running!"))), "runn");
    assert_eq!(s(&normalize_word(&c("sings"))), "sing");
    assert_eq!(s(&normalize_word(&c("(things)"))), "thing");
}

#[test]
fn drops_code_blocks() {
    let text = "keep\n```\ndrop\n```\nafter\r\nend";
    assert_eq!(s(&ignore_code_blocks(&c(text))), "keep\n```\nafter\nend\n");
    assert_eq!(s(&ignore_code_blocks(&c(""))), "");
    assert_eq!(s(&ignore_code_blocks(&c("  ```rust\nx\n"))), "");
}

#[test]
fn normalizes_text() {
    assert_eq!(s(&normalize_text(&c("Hello, World!"))), "hello  world  ");
}

#[test]
fn splits_and_counts() {
    let words = split_whitespace(&c("  a bb\tccc  "));
    let words: Vec<String> = words.iter().map(|w| s(w)).collect();
    assert_eq!(words, vec!["a", "bb", "ccc"]);
    let wide = split_whitespace(&c("x\u{3000}y\u{a0}z\u{200b}w"));
    let wide: Vec<String> = wide.iter().map(|w| s(w)).collect();
    assert_eq!(wide, vec!["x", "y", "z\u{200b}w"]);

    let mut counts: Vec<(String, usize)> = count_word_occurrences(&c("Apples apple pie pi xx"))
        .into_iter()
        .map(|(w, n)| (s(&w), n))
        .collect();
    counts.sort();
    assert_eq!(counts, vec![("Apple".to_string(), 1), ("apple".to_string(), 1), ("pie".to_string(), 1)]);

    let long = "a".repeat(31);
    assert!(count_word_occurrences(&c(&long)).is_empty());

    let mut terms: Vec<(String, usize)> = text_terms(&c("Apples APPLE, pie!"))
        .into_iter()
        .map(|(w, n)| (s(&w), n))
        .collect();
    terms.sort();
    assert_eq!(terms, vec![("apple".to_string(), 2), ("pie".to_string(), 1)]);
}

#[test]
fn keeps_non_ascii_letters() {
    assert_eq!(s(&normalize_text(&c("Éclair, ÜBER"))), "éclair  über ");
}
