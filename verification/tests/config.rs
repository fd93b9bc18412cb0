use toipe::config::text_name;

#[test]
fn words_from_the_standard_input_are_named_stdin() {
    assert_eq!(text_name(false, None, Some("top250")), "stdin");
    assert_eq!(text_name(false, Some("words.txt"), None), "stdin");
}

#[test]
fn a_word_list_file_is_named_by_its_path() {
    assert_eq!(text_name(true, Some("my/words.txt"), Some("top250")), "custom file `my/words.txt`");
    assert_eq!(text_name(true, Some(""), None), "custom file ``");
}

#[test]
fn a_built_in_word_list_is_named_by_its_name() {
    assert_eq!(text_name(true, None, Some("top250")), "top250");
    assert_eq!(text_name(true, None, None), "unknown");
}
