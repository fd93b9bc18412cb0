use toipe::typing::{Feedback, Key, Mark, TestStatus, TypingTest, TypingTotals};

fn test_of(text: &str) -> TypingTest {
    TypingTest::new(text.chars().collect())
}

fn type_all(test: &mut TypingTest, keys: &str) -> (TestStatus, Vec<Feedback>) {
    let mut last = (TestStatus::NotDone, Vec::new());
    for c in keys.chars() {
        last = test.process_key(Key::Char(c));
    }
    last
}

fn shown(position: usize, mark: Mark) -> Feedback {
    Feedback { position, mark }
}

#[test]
fn a_right_character_is_shown_as_right() {
    let mut test = test_of("abc");
    assert_eq!(
        test.process_key(Key::Char('a')),
        (TestStatus::NotDone, vec![shown(0, Mark::Correct)])
    );
    assert_eq!(
        test.process_key(Key::Char('b')),
        (TestStatus::NotDone, vec![shown(1, Mark::Correct)])
    );
}

#[test]
fn a_wrong_character_is_shown_as_wrong() {
    let mut test = test_of("abc");
    assert_eq!(
        test.process_key(Key::Char('x')),
        (TestStatus::NotDone, vec![shown(0, Mark::Wrong)])
    );
    assert_eq!(test.totals().total_char_errors, 1);
    assert_eq!(test.totals().total_chars_typed, 1);
}

#[test]
fn the_last_character_ends_the_test() {
    let mut test = test_of("ab");
    assert_eq!(test.process_key(Key::Char('a')).0, TestStatus::NotDone);
    assert_eq!(test.process_key(Key::Char('b')), (TestStatus::Done, Vec::new()));
    assert_eq!(
        test.totals(),
        TypingTotals {
            total_chars_typed: 1,
            total_chars_in_text: 2,
            total_char_errors: 0,
            final_chars_typed_correctly: 2,
            final_uncorrected_errors: 0,
        }
    );
}

#[test]
fn an_empty_text_ends_with_the_first_character() {
    let mut test = test_of("");
    assert_eq!(test.process_key(Key::Backspace), (TestStatus::NotDone, Vec::new()));
    assert_eq!(test.process_key(Key::Char('a')), (TestStatus::Done, Vec::new()));
    assert_eq!(test.totals().total_chars_in_text, 1);
    assert_eq!(test.totals().final_chars_typed_correctly, 0);
    assert_eq!(test.totals().final_uncorrected_errors, 0);
}

#[test]
fn backspace_takes_one_character_back() {
    let mut test = test_of("abc");
    type_all(&mut test, "ax");
    assert_eq!(
        test.process_key(Key::Backspace),
        (TestStatus::NotDone, vec![shown(1, Mark::Restored)])
    );
    assert_eq!(
        test.process_key(Key::Ctrl('h')),
        (TestStatus::NotDone, vec![shown(0, Mark::Restored)])
    );
    assert_eq!(test.process_key(Key::Backspace), (TestStatus::NotDone, Vec::new()));
    assert_eq!(test.totals().total_chars_in_text, 0);
    assert_eq!(test.totals().total_chars_typed, 2);
    assert_eq!(test.totals().total_char_errors, 1);
}

#[test]
fn a_corrected_error_still_counts_as_typed_wrong() {
    let mut test = test_of("cat sat");
    type_all(&mut test, "cx");
    test.process_key(Key::Backspace);
    let (status, _) = type_all(&mut test, "at sat");
    assert_eq!(status, TestStatus::Done);
    assert_eq!(
        test.totals(),
        TypingTotals {
            total_chars_typed: 7,
            total_chars_in_text: 7,
            total_char_errors: 1,
            final_chars_typed_correctly: 7,
            final_uncorrected_errors: 0,
        }
    );
}

#[test]
fn an_error_left_in_counts_as_uncorrected() {
    let mut test = test_of("cat");
    let (status, _) = type_all(&mut test, "cot");
    assert_eq!(status, TestStatus::Done);
    assert_eq!(test.totals().final_chars_typed_correctly, 2);
    assert_eq!(test.totals().final_uncorrected_errors, 1);
    assert_eq!(test.totals().total_char_errors, 1);
}

#[test]
fn control_w_deletes_the_word_being_typed() {
    let mut test = test_of("the quick fox");
    type_all(&mut test, "the qui");
    assert_eq!(
        test.process_key(Key::Ctrl('w')),
        (
            TestStatus::NotDone,
            vec![shown(6, Mark::Restored), shown(5, Mark::Restored), shown(4, Mark::Restored)]
        )
    );
    assert_eq!(test.totals().total_chars_in_text, 4);
}

#[test]
fn control_w_after_a_space_deletes_the_space_and_the_word() {
    let mut test = test_of("the quick fox");
    type_all(&mut test, "the ");
    assert_eq!(
        test.process_key(Key::Ctrl('w')),
        (
            TestStatus::NotDone,
            vec![
                shown(3, Mark::Restored),
                shown(2, Mark::Restored),
                shown(1, Mark::Restored),
                shown(0, Mark::Restored)
            ]
        )
    );
    assert_eq!(test.totals().total_chars_in_text, 0);
    assert_eq!(test.process_key(Key::Ctrl('w')), (TestStatus::NotDone, Vec::new()));
}

#[test]
fn control_w_goes_by_the_spaces_of_the_text() {
    let mut test = test_of("ab cd");
    type_all(&mut test, "a  x");
    assert_eq!(
        test.process_key(Key::Ctrl('w')),
        (TestStatus::NotDone, vec![shown(3, Mark::Restored)])
    );
    assert_eq!(
        test.process_key(Key::Ctrl('w')),
        (
            TestStatus::NotDone,
            vec![shown(2, Mark::Restored), shown(1, Mark::Restored), shown(0, Mark::Restored)]
        )
    );
}

#[test]
fn control_c_quits() {
    let mut test = test_of("abc");
    type_all(&mut test, "a");
    assert_eq!(test.process_key(Key::Ctrl('c')), (TestStatus::Quit, Vec::new()));
    assert_eq!(test.totals().total_chars_in_text, 1);
}

#[test]
fn control_r_and_enter_restart() {
    let mut test = test_of("abc");
    assert_eq!(test.process_key(Key::Ctrl('r')), (TestStatus::Restart, Vec::new()));
    assert_eq!(test.process_key(Key::Char('\n')), (TestStatus::Restart, Vec::new()));
    assert_eq!(test.totals().total_chars_in_text, 0);
}

#[test]
fn other_keys_do_nothing() {
    let mut test = test_of("abc");
    assert_eq!(test.process_key(Key::Other), (TestStatus::NotDone, Vec::new()));
    assert_eq!(test.process_key(Key::Ctrl('x')), (TestStatus::NotDone, Vec::new()));
    assert_eq!(test.chars_typed(), 0);
}

#[test]
fn a_status_says_what_to_do_next() {
    assert!(TestStatus::NotDone.to_process_more_keys());
    assert!(!TestStatus::Done.to_process_more_keys());
    assert!(TestStatus::Done.to_display_results());
    assert!(!TestStatus::Quit.to_display_results());
    assert!(TestStatus::Restart.to_restart());
    assert!(!TestStatus::Quit.to_restart());
}
