use toipe::textgen::{
    capitalize, punctuate, punctuation_rules, Chance, CorpusError, Draw,
    NumberGeneratingWordSelector, NumberStage, Pipeline, PunctuatedWordSelector, PunctuationType,
    RawWordSelector, WordSelector,
};
use toipe::trie::{TrieErr, TrieErrKind};

fn corpus(words: &[&str]) -> Vec<Result<String, String>> {
    words.iter().map(|w| Ok(w.to_string())).collect()
}

fn raw(words: &[&str]) -> RawWordSelector {
    match RawWordSelector::from_iter(corpus(words)) {
        Ok(selector) => selector,
        Err(_) => panic!("the corpus holds no failure"),
    }
}

/// Hands out the given words in turn, over and over.
struct Scripted {
    words: Vec<&'static str>,
    next: usize,
}

impl WordSelector for Scripted {
    fn new_word(&mut self) -> Result<String, TrieErr> {
        let word = self.words[self.next % self.words.len()];
        self.next += 1;
        Ok(word.to_string())
    }
}

fn scripted(words: &[&'static str]) -> Box<dyn WordSelector> {
    Box::new(Scripted { words: words.to_vec(), next: 0 })
}

/// Hands out a word twice, and fails from then on.
struct Twice(usize);

impl WordSelector for Twice {
    fn new_word(&mut self) -> Result<String, TrieErr> {
        self.0 += 1;
        if self.0 > 2 {
            Err(TrieErr::missing_node(self.0))
        } else {
            Ok("word".to_string())
        }
    }
}

/// Always fails.
struct Failing;

impl WordSelector for Failing {
    fn new_word(&mut self) -> Result<String, TrieErr> {
        Err(TrieErr::missing_node(3))
    }
}

#[test]
fn a_chance_is_a_ratio_of_at_most_one() {
    assert!(Chance::new(0, 1).is_some());
    assert!(Chance::new(3, 20).is_some());
    assert!(Chance::new(7, 7).is_some());
    assert!(Chance::new(1, 0).is_none());
    assert!(Chance::new(0, 0).is_none());
    assert!(Chance::new(8, 7).is_none());
}

#[test]
fn the_rule_table_has_its_entries_in_order() {
    let rules = punctuation_rules();
    assert_eq!(rules.len(), 33);
    assert_eq!(rules[0], PunctuationType::Capitalizing('!'));
    assert_eq!(rules[2], PunctuationType::Capitalizing('.'));
    assert_eq!(rules[3], PunctuationType::Ending(','));
    assert_eq!(rules[6], PunctuationType::Starting(':'));
    assert_eq!(rules[16], PunctuationType::Starting('\\'));
    assert_eq!(rules[20], PunctuationType::Starting('+'));
    assert_eq!(rules[21], PunctuationType::Surrounding('\'', '\''));
    assert_eq!(rules[28], PunctuationType::Surrounding('^', '$'));
    assert_eq!(rules[32], PunctuationType::Surrounding('|', '|'));
}

#[test]
fn punctuate_without_rule_or_capital_changes_nothing() {
    assert_eq!(punctuate("word", false, None), ("word".to_string(), false));
    assert_eq!(punctuate("", false, None), (String::new(), false));
}

#[test]
fn punctuate_puts_a_capital_first() {
    assert_eq!(punctuate("word", true, None), ("Word".to_string(), false));
    assert_eq!(punctuate("Word", true, None), ("Word".to_string(), false));
    assert_eq!(punctuate("42", true, None), ("42".to_string(), false));
    assert_eq!(punctuate("élan", true, None), ("Élan".to_string(), false));
}

#[test]
fn a_capital_may_be_more_than_one_character() {
    assert_eq!(punctuate("ßen", true, None), ("SSen".to_string(), false));
    assert_eq!(punctuate("ﬁn", true, None), ("FIn".to_string(), false));
}

#[test]
fn punctuate_leaves_an_empty_word_empty() {
    assert_eq!(punctuate("", true, None), (String::new(), false));
    assert_eq!(
        punctuate("", true, Some(PunctuationType::Surrounding('(', ')'))),
        ("()".to_string(), false)
    );
}

#[test]
fn punctuate_applies_each_kind_of_rule() {
    assert_eq!(
        punctuate("end", false, Some(PunctuationType::Capitalizing('.'))),
        ("end.".to_string(), true)
    );
    assert_eq!(
        punctuate("list", false, Some(PunctuationType::Ending(','))),
        ("list,".to_string(), false)
    );
    assert_eq!(
        punctuate("tag", false, Some(PunctuationType::Starting('#'))),
        ("#tag".to_string(), false)
    );
    assert_eq!(
        punctuate("aside", false, Some(PunctuationType::Surrounding('[', ']'))),
        ("[aside]".to_string(), false)
    );
}

#[test]
fn punctuate_puts_the_capital_inside_the_marks() {
    assert_eq!(
        punctuate("quote", true, Some(PunctuationType::Surrounding('"', '"'))),
        ("\"Quote\"".to_string(), false)
    );
    assert_eq!(
        punctuate("name", true, Some(PunctuationType::Starting('@'))),
        ("@Name".to_string(), false)
    );
    assert_eq!(
        punctuate("stop", true, Some(PunctuationType::Capitalizing('!'))),
        ("Stop!".to_string(), true)
    );
}

#[test]
fn a_corpus_makes_a_selector() {
    let mut selector = raw(&["cat", "car", "cat"]);
    for _ in 0..50 {
        let word = selector.new_word().ok().unwrap();
        assert!(word == "cat" || word == "car");
    }
}

#[test]
fn a_corpus_of_one_word_always_gives_it() {
    let mut selector = raw(&["only", "only", "only"]);
    for _ in 0..20 {
        assert_eq!(selector.new_word().ok().unwrap(), "only");
    }
}

#[test]
fn every_word_of_a_corpus_is_drawn_sooner_or_later() {
    let mut selector = raw(&["a", "b", "c", "d"]);
    let mut seen = [false; 4];
    for _ in 0..2000 {
        match selector.new_word().ok().unwrap().as_str() {
            "a" => seen[0] = true,
            "b" => seen[1] = true,
            "c" => seen[2] = true,
            "d" => seen[3] = true,
            other => panic!("{} is not in the corpus", other),
        }
    }
    assert_eq!(seen, [true; 4]);
}

#[test]
fn a_failure_in_the_corpus_is_returned() {
    let items: Vec<Result<String, String>> = vec![
        Ok("fine".to_string()),
        Err("first".to_string()),
        Ok("also fine".to_string()),
        Err("second".to_string()),
    ];
    match RawWordSelector::from_iter(items) {
        Err(CorpusError::Source(failure)) => assert_eq!(failure, "first"),
        Err(CorpusError::Trie(_)) => panic!("the trie does not fail"),
        Ok(_) => panic!("the corpus holds a failure"),
    }
}

#[test]
fn an_empty_corpus_has_no_word_to_give() {
    let mut selector = raw(&[]);
    assert_eq!(selector.new_word().err(), Some(TrieErr { kind: TrieErrKind::EmptyTrie }));
    assert_eq!(selector.new_words(3, false).err(), Some(TrieErr::empty_trie()));
}

#[test]
fn no_words_asked_no_words_given() {
    let mut selector = raw(&[]);
    assert_eq!(selector.new_words(0, false).ok().unwrap(), Vec::<String>::new());
}

#[test]
fn new_words_draws_as_many_as_asked() {
    let mut selector = raw(&["cat", "car", "cat"]);
    let words = selector.new_words(30, false).ok().unwrap();
    assert_eq!(words.len(), 30);
    assert!(words.iter().all(|w| w == "cat" || w == "car"));
}

#[test]
fn new_words_splits_at_white_space() {
    let mut selector = Scripted { words: vec!["to be", "or", " not  to be ", ""], next: 0 };
    assert_eq!(
        selector.new_words(4, false).ok().unwrap(),
        vec!["to", "be", "or", "not", "to", "be"]
    );
}

#[test]
fn new_words_preserves_white_space_on_request() {
    let mut selector = Scripted { words: vec!["to be", "or", " not  to be ", ""], next: 0 };
    assert_eq!(
        selector.new_words(4, true).ok().unwrap(),
        vec!["to be", "or", " not  to be ", ""]
    );
}

#[test]
fn no_words_asked_none_drawn() {
    let mut selector = Failing;
    assert_eq!(selector.new_words(0, false).ok().unwrap(), Vec::<String>::new());
    assert_eq!(selector.new_words(0, true).ok().unwrap(), Vec::<String>::new());
}

#[test]
fn a_later_failure_ends_the_call_too() {
    assert_eq!(Twice(0).new_words(2, false).ok().unwrap(), vec!["word", "word"]);
    assert_eq!(Twice(0).new_words(3, false).err(), Some(TrieErr::missing_node(3)));
}

#[test]
fn punctuation_hands_a_failure_on_as_it_is() {
    let mut selector =
        PunctuatedWordSelector::from_word_selector(Box::new(Failing), Chance::always());
    assert_eq!(selector.new_word().err(), Some(TrieErr::missing_node(3)));
}

#[test]
fn new_words_ends_at_the_first_failure() {
    let mut selector = Failing;
    assert_eq!(selector.new_words(2, false).err(), Some(TrieErr::missing_node(3)));
}

#[test]
fn numbers_never_come_with_no_chance() {
    let mut selector =
        NumberGeneratingWordSelector::from_word_selector(scripted(&["word"]), Chance::never(), 10);
    for _ in 0..50 {
        assert_eq!(selector.new_word().ok().unwrap(), "word");
    }
}

#[test]
fn numbers_always_come_with_every_chance() {
    let mut selector = NumberGeneratingWordSelector::from_word_selector(
        scripted(&["word"]),
        Chance::always(),
        1000,
    );
    for _ in 0..200 {
        let word = selector.new_word().ok().unwrap();
        let number: u64 = word.parse().ok().unwrap();
        assert!(number < 1000);
        assert_eq!(NumberGeneratingWordSelector::numeral(number), word);
    }
}

#[test]
fn numbers_below_one_are_zero() {
    let mut selector =
        NumberGeneratingWordSelector::from_word_selector(scripted(&["word"]), Chance::always(), 1);
    for _ in 0..20 {
        assert_eq!(selector.new_word().ok().unwrap(), "0");
    }
}

#[test]
fn no_number_lies_below_zero() {
    let mut selector =
        NumberGeneratingWordSelector::from_word_selector(scripted(&["word"]), Chance::always(), 0);
    for _ in 0..20 {
        assert_eq!(selector.new_word().ok().unwrap(), "word");
    }
}

#[test]
fn numbers_come_sometimes_with_some_chance() {
    let chance = Chance::new(1, 2).unwrap();
    let mut selector =
        NumberGeneratingWordSelector::from_word_selector(scripted(&["word"]), chance, 10);
    let mut numbers = 0;
    let mut words = 0;
    for _ in 0..2000 {
        let word = selector.new_word().ok().unwrap();
        if word == "word" {
            words += 1;
        } else {
            assert!(word.parse::<u64>().ok().unwrap() < 10);
            numbers += 1;
        }
    }
    assert!(numbers > 0 && words > 0);
}

#[test]
fn numerals_are_decimal() {
    assert_eq!(NumberGeneratingWordSelector::numeral(0), "0");
    assert_eq!(NumberGeneratingWordSelector::numeral(9998), "9998");
}

#[test]
fn only_the_first_word_gets_a_capital_without_punctuation() {
    let mut selector = PunctuatedWordSelector::from_word_selector(
        scripted(&["alpha", "beta", "gamma"]),
        Chance::never(),
    );
    assert_eq!(
        selector.new_words(6, false).ok().unwrap(),
        vec!["Alpha", "beta", "gamma", "alpha", "beta", "gamma"]
    );
}

#[test]
fn a_capital_follows_the_end_of_a_sentence() {
    let mut selector =
        PunctuatedWordSelector::from_word_selector(scripted(&["word"]), Chance::always());
    let mut capital_due = true;
    let mut ends = 0;
    for _ in 0..500 {
        let text = selector.new_word().ok().unwrap();
        let body = if capital_due { "Word" } else { "word" };
        let rule = punctuation_rules().into_iter().find(|rule| match *rule {
            PunctuationType::Capitalizing(c) | PunctuationType::Ending(c) => {
                text == format!("{}{}", body, c)
            }
            PunctuationType::Starting(c) => text == format!("{}{}", c, body),
            PunctuationType::Surrounding(open, close) => {
                text == format!("{}{}{}", open, body, close)
            }
        });
        assert!(rule.is_some());
        capital_due = text.ends_with("d!") || text.ends_with("d?") || text.ends_with("d.");
        if capital_due {
            ends += 1;
        }
    }
    assert!(ends > 0);
}

#[test]
fn a_failure_inside_leaves_the_capital_due() {
    let mut selector =
        PunctuatedWordSelector::from_word_selector(Box::new(Failing), Chance::never());
    assert_eq!(selector.new_word().err(), Some(TrieErr::missing_node(3)));
    assert_eq!(selector.new_word().err(), Some(TrieErr::missing_node(3)));
}

#[test]
fn numbers_can_be_punctuated() {
    let numbers = NumberGeneratingWordSelector::from_word_selector(
        Box::new(raw(&["word"])),
        Chance::always(),
        10,
    );
    let mut selector =
        PunctuatedWordSelector::from_word_selector(Box::new(numbers), Chance::always());
    for _ in 0..100 {
        let text = selector.new_word().ok().unwrap();
        assert!(text.chars().any(|c| c.is_ascii_digit()));
        assert!(text.chars().any(|c| !c.is_ascii_digit()));
    }
}

fn marks_around(text: &str, body: &str) -> bool {
    punctuation_rules().into_iter().any(|rule| punctuate(body, false, Some(rule)).0 == text)
}

#[test]
fn a_bare_pipeline_draws_from_the_corpus() {
    let mut pipeline = Pipeline::new(raw(&["cat", "car", "cat"]), None, None);
    let words = pipeline.new_words(40, false).ok().unwrap();
    assert_eq!(words.len(), 40);
    assert!(words.iter().all(|w| w == "cat" || w == "car"));
}

#[test]
fn a_pipeline_without_words_fails() {
    let mut pipeline = Pipeline::new(raw(&[]), None, Some(Chance::always()));
    assert_eq!(pipeline.new_word().err(), Some(TrieErr { kind: TrieErrKind::EmptyTrie }));
}

#[test]
fn a_pipeline_of_numbers_needs_no_words() {
    let stage = NumberStage { chance: Chance::always(), max: 100 };
    let mut pipeline = Pipeline::new(raw(&[]), Some(stage), None);
    for _ in 0..50 {
        let word = pipeline.new_word().ok().unwrap();
        assert!(word.parse::<u64>().ok().unwrap() < 100);
    }
}

#[test]
fn a_pipeline_capitalizes_the_first_word_only() {
    let mut pipeline = Pipeline::new(raw(&["word"]), None, Some(Chance::never()));
    assert_eq!(
        pipeline.new_words(4, false).ok().unwrap(),
        vec!["Word", "word", "word", "word"]
    );
}

#[test]
fn a_pipeline_punctuates_numbers() {
    let stage = NumberStage { chance: Chance::always(), max: 10 };
    let mut pipeline = Pipeline::new(raw(&["word"]), Some(stage), Some(Chance::always()));
    for _ in 0..100 {
        let text = pipeline.new_word().ok().unwrap();
        assert!((0..10).any(|n| marks_around(&text, &n.to_string())));
    }
}

#[test]
fn a_pipeline_puts_capitals_after_sentences() {
    let mut pipeline = Pipeline::new(raw(&["word"]), None, Some(Chance::always()));
    let mut capital_due = true;
    for _ in 0..300 {
        let text = pipeline.new_word().ok().unwrap();
        let body = if capital_due { "Word" } else { "word" };
        assert!(marks_around(&text, body));
        capital_due = [".", "!", "?"].iter().any(|end| text == format!("{}{}", body, end));
    }
}

fn ranked(rank: u64) -> Draw {
    Draw { number: None, rank, rule: None }
}

#[test]
fn a_raw_selector_gives_the_word_at_a_rank() {
    let selector = raw(&["cat", "car", "cat"]);
    assert_eq!(selector.word_at(0).ok().unwrap(), "cat");
    assert_eq!(selector.word_at(1).ok().unwrap(), "cat");
    assert_eq!(selector.word_at(2).ok().unwrap(), "car");
    assert_eq!(selector.word_at(3).ok().unwrap(), "cat");
    assert_eq!(raw(&[]).word_at(0).err(), Some(TrieErr::empty_trie()));
}

#[test]
fn a_scripted_pipeline_is_exact_by_rank() {
    let mut words = vec!["a"];
    words.extend(std::iter::repeat("b").take(9));
    let mut pipeline = Pipeline::new(raw(&words), None, None);
    assert_eq!(pipeline.word_for(ranked(0)).ok().unwrap(), "a");
    for rank in 1..=9 {
        assert_eq!(pipeline.word_for(ranked(rank)).ok().unwrap(), "b");
    }
    assert_eq!(pipeline.word_for(ranked(10)).ok().unwrap(), "a");
}

#[test]
fn a_scripted_pipeline_carries_capitals_over() {
    let stage = NumberStage { chance: Chance::new(1, 2).unwrap(), max: 100 };
    let chance = Chance::new(1, 2).unwrap();
    let mut pipeline = Pipeline::new(raw(&["cat", "car", "cat"]), Some(stage), Some(chance));
    let end = Some(PunctuationType::Capitalizing('.'));
    let comma = Some(PunctuationType::Ending(','));
    let quote = Some(PunctuationType::Surrounding('"', '"'));
    let script = [
        (Draw { number: None, rank: 0, rule: None }, "Cat"),
        (Draw { number: None, rank: 2, rule: comma }, "car,"),
        (Draw { number: Some(42), rank: 0, rule: end }, "42."),
        (Draw { number: None, rank: 1, rule: quote }, "\"Cat\""),
        (Draw { number: None, rank: 2, rule: end }, "car."),
        (Draw { number: Some(7), rank: 0, rule: None }, "7"),
        (Draw { number: None, rank: 5, rule: None }, "car"),
    ];
    for (draw, expected) in script {
        assert_eq!(pipeline.word_for(draw).ok().unwrap(), expected);
    }
}

#[test]
fn a_scripted_pipeline_without_punctuation_leaves_words_alone() {
    let mut pipeline = Pipeline::new(raw(&["cat", "car", "cat"]), None, None);
    let end = Some(PunctuationType::Capitalizing('.'));
    assert_eq!(pipeline.word_for(Draw { number: None, rank: 0, rule: end }).ok().unwrap(), "cat");
    assert_eq!(pipeline.word_for(ranked(2)).ok().unwrap(), "car");
}

#[test]
fn a_scripted_pipeline_takes_numbers_below_its_bound_only() {
    let stage = NumberStage { chance: Chance::always(), max: 10 };
    let mut pipeline = Pipeline::new(raw(&["word"]), Some(stage), None);
    let numbered = |number| Draw { number: Some(number), rank: 0, rule: None };
    assert_eq!(pipeline.word_for(numbered(9)).ok().unwrap(), "9");
    assert_eq!(pipeline.word_for(numbered(10)).ok().unwrap(), "word");
    let mut bare = Pipeline::new(raw(&["word"]), None, None);
    assert_eq!(bare.word_for(numbered(3)).ok().unwrap(), "word");
}

#[test]
fn a_scripted_pipeline_fails_on_an_empty_corpus() {
    let stage = NumberStage { chance: Chance::always(), max: 10 };
    let mut pipeline = Pipeline::new(raw(&[]), Some(stage), Some(Chance::never()));
    assert_eq!(pipeline.word_for(ranked(0)).err(), Some(TrieErr::empty_trie()));
    let number = Draw { number: Some(3), rank: 0, rule: None };
    assert_eq!(pipeline.word_for(number).ok().unwrap(), "3");
    assert_eq!(pipeline.word_for(ranked(0)).err(), Some(TrieErr::empty_trie()));
}

#[test]
fn capitalize_puts_the_upper_case_form_first() {
    assert_eq!(capitalize("fish", "F"), "Fish");
    assert_eq!(capitalize("\u{fb01}sh", "FI"), "FIsh");
    assert_eq!(capitalize("\u{df}en", "SS"), "SSen");
    assert_eq!(capitalize("x", ""), "");
    assert_eq!(capitalize("", "A"), "");
}

#[test]
fn a_two_letter_capital_comes_in_order() {
    let mut selector = PunctuatedWordSelector::from_word_selector(
        Box::new(raw(&["\u{fb01}sh"])),
        Chance::never(),
    );
    assert_eq!(selector.new_word().ok().unwrap(), "FIsh");
    assert_eq!(selector.new_word().ok().unwrap(), "\u{fb01}sh");
}

#[test]
fn one_word_gets_a_capital_once() {
    let mut selector =
        PunctuatedWordSelector::from_word_selector(Box::new(raw(&["hello"])), Chance::never());
    assert_eq!(selector.new_word().ok().unwrap(), "Hello");
    assert_eq!(selector.new_word().ok().unwrap(), "hello");
    let mut pipeline = Pipeline::new(raw(&["hello"]), None, Some(Chance::never()));
    assert_eq!(pipeline.new_words(2, true).ok().unwrap(), vec!["Hello", "hello"]);
}

#[test]
fn a_batch_is_the_draws_in_order() {
    let mut selector = Scripted { words: vec!["one", "two words", "three"], next: 0 };
    assert_eq!(
        selector.new_words(3, false).ok().unwrap(),
        vec!["one", "two", "words", "three"]
    );
    assert_eq!(selector.next, 3);
}

#[test]
fn a_batch_stops_at_the_failure() {
    let mut selector = Twice(0);
    assert_eq!(selector.new_words(5, false).err(), Some(TrieErr::missing_node(3)));
    assert_eq!(selector.0, 3);
}
