use spanda::integrations::split_text::SplitText;

#[test]
fn split_basic() {
    let split = SplitText::from_str("Hello world");
    assert_eq!(split.word_count(), 2);
    assert_eq!(split.words()[0].text, "Hello");
    assert_eq!(split.words()[1].text, "world");
}

#[test]
fn split_chars_count() {
    let split = SplitText::from_str("Hi");
    assert_eq!(split.char_count(), 2);
    assert_eq!(split.chars()[0].ch, 'H');
    assert_eq!(split.chars()[1].ch, 'i');
}

#[test]
fn split_empty_string() {
    let split = SplitText::from_str("");
    assert_eq!(split.char_count(), 0);
    assert_eq!(split.word_count(), 0);
}

#[test]
fn split_single_word() {
    let split = SplitText::from_str("Rust");
    assert_eq!(split.word_count(), 1);
    assert_eq!(split.chars()[0].word_index, 0);
}

#[test]
fn split_counts_include_spaces() {
    let split = SplitText::from_str("Hello world");
    assert_eq!(split.char_count(), 11);
    assert_eq!(split.word_count(), 2);
    assert_eq!(split.original(), "Hello world");
}

#[test]
fn split_word_ranges_and_indices() {
    let split = SplitText::from_str("ab  cde f");
    let words = split.words();
    assert_eq!(words.len(), 3);
    assert_eq!((words[0].index, words[0].char_start, words[0].char_end), (0, 0, 2));
    assert_eq!((words[1].index, words[1].char_start, words[1].char_end), (1, 4, 7));
    assert_eq!((words[2].index, words[2].char_start, words[2].char_end), (2, 8, 9));
    assert_eq!(words[1].text, "cde");
    let owners: Vec<usize> = split.chars().iter().map(|c| c.word_index).collect();
    // spaces belong to the word before them
    assert_eq!(owners, vec![0, 0, 0, 0, 1, 1, 1, 1, 2]);
    let indices: Vec<usize> = split.chars().iter().map(|c| c.index).collect();
    assert_eq!(indices, (0..9).collect::<Vec<usize>>());
}

#[test]
fn split_leading_and_trailing_space() {
    let split = SplitText::from_str("  hi  ");
    assert_eq!(split.char_count(), 6);
    assert_eq!(split.word_count(), 1);
    assert_eq!(split.words()[0].char_start, 2);
    assert_eq!(split.words()[0].char_end, 4);
    for c in split.chars() {
        assert_eq!(c.word_index, 0);
    }
    assert_eq!(split.chars()[0].ch, ' ');
    assert_eq!(split.chars()[5].ch, ' ');
}

#[test]
fn split_only_whitespace() {
    let split = SplitText::from_str(" \t\n ");
    assert_eq!(split.char_count(), 4);
    assert_eq!(split.word_count(), 0);
    assert!(split.chars().iter().all(|c| c.word_index == 0));
}

#[test]
fn split_repeated_words_keep_their_own_positions() {
    let split = SplitText::from_str("ab ab");
    assert_eq!(split.char_count(), 5);
    assert_eq!(split.chars()[2].ch, ' ');
    assert_eq!(split.words()[1].char_start, 3);
    assert_eq!(split.words()[1].char_end, 5);
    assert_eq!(split.chars()[4].word_index, 1);
}

#[test]
fn split_counts_characters_not_bytes() {
    let split = SplitText::from_str("héllo wörld\u{3000}end");
    assert_eq!(split.char_count(), 15);
    assert_eq!(split.word_count(), 3);
    assert_eq!(split.words()[1].text, "wörld");
    assert_eq!(split.words()[1].char_start, 6);
    assert_eq!(split.words()[2].char_start, 12);
    assert_eq!(split.chars()[1].ch, 'é');
}

#[test]
fn split_chars_spell_original() {
    let text = "The quick  brown\tfox";
    let split = SplitText::from_str(text);
    let spelled: String = split.chars().iter().map(|c| c.ch).collect();
    assert_eq!(spelled, text);
    let words: Vec<&str> = split.words().iter().map(|w| w.text.as_str()).collect();
    assert_eq!(words, text.split_whitespace().collect::<Vec<&str>>());
}

#[test]
fn split_recognises_unicode_white_space() {
    let split = SplitText::from_str("a\u{85}b\u{A0}c\u{2009}d\u{200B}e");
    // U+200B is not White_Space, so "d\u{200B}e" is one word
    assert_eq!(split.word_count(), 4);
    assert_eq!(split.words()[3].text, "d\u{200B}e");
}
