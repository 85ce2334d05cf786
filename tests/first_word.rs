use leading_token::first_word;

#[test]
fn first_of_three_words() {
    let words = String::from("First Second Third");
    assert_eq!(first_word(&words), "First");
}

#[test]
fn single_word_is_returned_whole() {
    assert_eq!(first_word("hello"), "hello");
}

#[test]
fn empty_input_gives_empty_token() {
    assert_eq!(first_word(""), "");
}

#[test]
fn leading_space_gives_empty_token() {
    assert_eq!(first_word(" leading space"), "");
}

#[test]
fn only_first_of_several_spaces_counts() {
    assert_eq!(first_word("a b c"), "a");
}

#[test]
fn token_is_a_prefix_starting_at_zero() {
    for s in ["First Second Third", "hello", "", " x", "a b c", "ab  "] {
        let t = first_word(s);
        assert!(t.len() <= s.len());
        assert!(s.starts_with(t));
        assert_eq!(t.as_ptr(), s.as_ptr());
    }
}

#[test]
fn token_ends_at_first_space() {
    let s = "one two  three";
    let t = first_word(s);
    assert_eq!(t, "one");
    assert_eq!(s.find(' '), Some(t.len()));
}

#[test]
fn trailing_space_is_left_out() {
    assert_eq!(first_word("word "), "word");
}

#[test]
fn only_spaces_give_empty_token() {
    assert_eq!(first_word("   "), "");
}

#[test]
fn extracting_twice_changes_nothing() {
    for s in ["First Second Third", "hello", "", " leading space", "a b c"] {
        let t = first_word(s);
        assert_eq!(first_word(t), t);
    }
}

#[test]
fn multibyte_characters_stay_whole() {
    assert_eq!(first_word("héllo wörld"), "héllo");
    assert_eq!(first_word("日本語 テキスト"), "日本語");
    assert_eq!(first_word("ünïcödé"), "ünïcödé");
}

#[test]
fn other_whitespace_does_not_end_the_token() {
    assert_eq!(first_word("tab\tsep line\nbreak"), "tab\tsep");
}
