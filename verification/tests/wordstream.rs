use toipe::textgen::{RawWordSelector, WordSelector};
use toipe::trie::TrieErr;
use toipe::wordstream::WordStream;

fn ok(text: &str) -> Result<String, String> {
    Ok(text.to_string())
}

#[test]
fn lines_are_cut_into_lowercase_words() {
    let stream = WordStream::new(vec![ok("The quick"), ok(""), ok("  Brown FOX ")], false);
    assert_eq!(stream.into_iter(), vec![ok("the"), ok("quick"), ok("brown"), ok("fox")]);
}

#[test]
fn quote_mode_keeps_each_line_whole() {
    let stream = WordStream::new(vec![ok("To be, or not to be."), ok(""), ok("That is it")], true);
    assert_eq!(
        stream.into_iter(),
        vec![ok("To be, or not to be."), ok(""), ok("That is it")]
    );
}

#[test]
fn a_failed_line_stays_in_its_place() {
    let failure: Result<String, String> = Err("disk on fire".to_string());
    let stream = WordStream::new(vec![ok("one two"), failure.clone(), ok("three")], false);
    assert_eq!(stream.into_iter(), vec![ok("one"), ok("two"), failure, ok("three")]);
}

#[test]
fn no_lines_give_no_words() {
    let stream: WordStream<String> = WordStream::new(Vec::new(), false);
    assert_eq!(stream.into_iter(), Vec::<Result<String, String>>::new());
}

#[test]
fn a_corpus_of_white_space_holds_no_word() {
    let stream = WordStream::new(vec![ok("   "), ok("\t"), ok("")], false);
    let mut selector = match RawWordSelector::from_iter(stream.into_iter()) {
        Ok(selector) => selector,
        Err(_) => panic!("no line failed"),
    };
    assert_eq!(selector.new_word().err(), Some(TrieErr::empty_trie()));
}

#[test]
fn a_stream_feeds_a_selector() {
    let stream = WordStream::new(vec![ok("Cat car"), ok("CAT")], false);
    let selector = match RawWordSelector::from_iter(stream.into_iter()) {
        Ok(selector) => selector,
        Err(_) => panic!("no line failed"),
    };
    assert_eq!(selector.word_at(0).ok().unwrap(), "cat");
    assert_eq!(selector.word_at(1).ok().unwrap(), "cat");
    assert_eq!(selector.word_at(2).ok().unwrap(), "car");
}
