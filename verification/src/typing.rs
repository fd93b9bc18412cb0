//! The typing test: what each key press does to what has been typed so far,
//! what the screen has to show for it, and how the test is scored in the end.

use vstd::prelude::*;

verus! {

/// A key press, as far as the test tells keys apart.
#[derive(Clone, Copy, Debug, PartialEq, Eq, Structural)]
pub enum Key {
    /// A character.
    Char(char),
    /// A character together with the control key.
    Ctrl(char),
    /// The backspace key.
    Backspace,
    /// Any other key.
    Other,
}

/// Where a test stands after a key press.
#[derive(Clone, Copy, Debug, PartialEq, Eq, Structural)]
pub enum TestStatus {
    /// The test goes on: more keys are to be typed.
    NotDone,
    /// The last character of the text was typed.
    Done,
    /// The user wants to leave.
    Quit,
    /// The user wants another text.
    Restart,
}

impl TestStatus {
    /// Whether more keys are to be read for this test.
    pub fn to_process_more_keys(&self) -> (r: bool)
        ensures
            r == (*self is NotDone),
    {
        matches!(self, TestStatus::NotDone)
    }

    /// Whether the results are to be shown.
    pub fn to_display_results(&self) -> (r: bool)
        ensures
            r == (*self is Done),
    {
        matches!(self, TestStatus::Done)
    }

    /// Whether another test is to begin.
    pub fn to_restart(&self) -> (r: bool)
        ensures
            r == (*self is Restart),
    {
        matches!(self, TestStatus::Restart)
    }
}

/// How a character of the text is to be shown.
#[derive(Clone, Copy, Debug, PartialEq, Eq, Structural)]
pub enum Mark {
    /// It was typed as the text has it.
    Correct,
    /// Another character was typed in its place.
    Wrong,
    /// It was taken back, and is not typed any more.
    Restored,
}

/// What the screen has to show for a key press: the character of the text at
/// `position`, as `mark` says.
#[derive(Clone, Copy, Debug, PartialEq, Eq, Structural)]
pub struct Feedback {
    /// The position of the character in the text.
    pub position: usize,
    /// How the character is to be shown.
    pub mark: Mark,
}

/// A typing test as a value.
pub struct TypingState {
    /// The text to type.
    pub text: Seq<char>,
    /// What has been typed and not taken back.
    pub input: Seq<char>,
    /// How many characters were typed, the one that ended the test aside.
    pub typed: nat,
    /// How many of them were not the character of the text.
    pub errors: nat,
}

/// What a key press comes to.
pub struct Outcome {
    /// The test after the key press.
    pub state: TypingState,
    /// Where the test stands.
    pub status: TestStatus,
    /// What the screen has to show.
    pub feedback: Seq<Feedback>,
}

/// Whether a word ends before position `n` of what was typed: nothing was
/// typed, or the text has a space just before `n`, or no character at all.
pub open spec fn at_word_end(text: Seq<char>, n: int) -> bool {
    n <= 0 || n - 1 >= text.len() || text[n - 1] == ' '
}

/// The position at which the word begins that ends at `n`.
pub open spec fn word_start(text: Seq<char>, n: int) -> int
    decreases n,
{
    if at_word_end(text, n) {
        n
    } else {
        word_start(text, n - 1)
    }
}

/// How much of what was typed is left once the last word is deleted: first
/// one space goes, if the input ends in one, then the word before it.
pub open spec fn after_word_deleted(text: Seq<char>, n: int) -> int {
    if n > 0 && at_word_end(text, n) {
        word_start(text, n - 1)
    } else {
        word_start(text, n)
    }
}

/// The feedback that the character at `position` was taken back.
pub open spec fn restored(position: int) -> Feedback {
    Feedback { position: position as usize, mark: Mark::Restored }
}

/// What the screen has to show when the input shrinks from `from` to `to`
/// characters: the characters of the text in between come back, the last one
/// first.
pub open spec fn restores(text: Seq<char>, from: int, to: int) -> Seq<Feedback>
    decreases from - to,
{
    if from <= to {
        Seq::empty()
    } else if 0 <= from - 1 < text.len() {
        seq![restored(from - 1)] + restores(text, from - 1, to)
    } else {
        restores(text, from - 1, to)
    }
}

/// What the key `key` comes to in the test `s`.
pub open spec fn step(s: TypingState, key: Key) -> Outcome {
    let n = s.input.len() as int;
    match key {
        Key::Ctrl('c') => Outcome { state: s, status: TestStatus::Quit, feedback: Seq::empty() },
        Key::Ctrl('r') | Key::Char('\n') => Outcome {
            state: s,
            status: TestStatus::Restart,
            feedback: Seq::empty(),
        },
        Key::Ctrl('w') => {
            let m = after_word_deleted(s.text, n);
            Outcome {
                state: TypingState { input: s.input.take(m), ..s },
                status: TestStatus::NotDone,
                feedback: restores(s.text, n, m),
            }
        },
        Key::Char(c) => if n + 1 >= s.text.len() {
            Outcome {
                state: TypingState { input: s.input.push(c), ..s },
                status: TestStatus::Done,
                feedback: Seq::empty(),
            }
        } else if s.text[n] == c {
            Outcome {
                state: TypingState { input: s.input.push(c), typed: s.typed + 1, ..s },
                status: TestStatus::NotDone,
                feedback: seq![Feedback { position: n as usize, mark: Mark::Correct }],
            }
        } else {
            Outcome {
                state: TypingState {
                    input: s.input.push(c),
                    typed: s.typed + 1,
                    errors: s.errors + 1,
                    ..s
                },
                status: TestStatus::NotDone,
                feedback: seq![Feedback { position: n as usize, mark: Mark::Wrong }],
            }
        },
        Key::Backspace | Key::Ctrl('h') => if n > 0 {
            Outcome {
                state: TypingState { input: s.input.take(n - 1), ..s },
                status: TestStatus::NotDone,
                feedback: restores(s.text, n, n - 1),
            }
        } else {
            Outcome { state: s, status: TestStatus::NotDone, feedback: Seq::empty() }
        },
        _ => Outcome { state: s, status: TestStatus::NotDone, feedback: Seq::empty() },
    }
}

/// How many of the first `n` characters of `input` are the character of
/// `text` at the same place.
pub open spec fn agreeing(input: Seq<char>, text: Seq<char>, n: int) -> nat
    decreases n,
{
    if n <= 0 {
        0
    } else {
        agreeing(input, text, n - 1) + if input[n - 1] == text[n - 1] {
            1nat
        } else {
            0nat
        }
    }
}

/// The smaller of two lengths.
pub open spec fn shorter(a: nat, b: nat) -> nat {
    if a <= b {
        a
    } else {
        b
    }
}

/// The numbers that a test is scored by.
#[derive(Clone, Copy, Debug, PartialEq, Eq, Structural)]
pub struct TypingTotals {
    /// How many characters were typed, the one that ended the test aside.
    pub total_chars_typed: usize,
    /// How many characters the input had in the end.
    pub total_chars_in_text: usize,
    /// How many characters were typed wrong, corrected or not.
    pub total_char_errors: usize,
    /// How many characters of the input are right in the end.
    pub final_chars_typed_correctly: usize,
    /// How many characters of the input are wrong in the end.
    pub final_uncorrected_errors: usize,
}

/// A typing test: a text, and what has been typed of it.
pub struct TypingTest {
    text: Vec<char>,
    input: Vec<char>,
    num_chars_typed: usize,
    num_errors: usize,
}

impl View for TypingTest {
    type V = TypingState;

    closed spec fn view(&self) -> TypingState {
        TypingState {
            text: self.text@,
            input: self.input@,
            typed: self.num_chars_typed as nat,
            errors: self.num_errors as nat,
        }
    }
}

impl TypingTest {
    /// No more characters were typed wrong than were typed.
    pub closed spec fn wf(&self) -> bool {
        self.num_errors <= self.num_chars_typed
    }

    /// A test of the text `text`, with nothing typed yet.
    pub fn new(text: Vec<char>) -> (test: Self)
        ensures
            test.wf(),
            test@ == (TypingState { text: text@, input: Seq::empty(), typed: 0, errors: 0 }),
    {
        TypingTest { text, input: Vec::new(), num_chars_typed: 0, num_errors: 0 }
    }

    /// Takes the last character of the input back, and says what the screen
    /// has to show for it.
    fn take_back(&mut self, feedback: &mut Vec<Feedback>)
        requires
            old(self).input@.len() > 0,
        ensures
            final(self).wf() == old(self).wf(),
            final(self)@ == (TypingState {
                input: old(self)@.input.take(old(self)@.input.len() - 1),
                ..old(self)@
            }),
            final(feedback)@ == old(feedback)@ + restores(
                old(self)@.text,
                old(self)@.input.len() as int,
                old(self)@.input.len() - 1,
            ),
    {
        let ghost n = self.input@.len() as int;
        self.input.pop();
        proof {
            assert(self.input@ =~= old(self)@.input.take(n - 1));
            assert(restores(self.text@, n - 1, n - 1) =~= Seq::<Feedback>::empty());
        }
        if self.input.len() < self.text.len() {
            feedback.push(Feedback { position: self.input.len(), mark: Mark::Restored });
            proof {
                assert(feedback@ =~= old(feedback)@ + (seq![restored(n - 1)]
                    + Seq::<Feedback>::empty()));
            }
        } else {
            proof {
                assert(feedback@ =~= old(feedback)@ + Seq::<Feedback>::empty());
            }
        }
    }

    /// Whether a word ends where the input ends.
    fn at_word_end(&self) -> (r: bool)
        ensures
            r == at_word_end(self.text@, self.input@.len() as int),
    {
        let n = self.input.len();
        n == 0 || n - 1 >= self.text.len() || self.text[n - 1] == ' '
    }

    /// Takes the key `key`: changes what has been typed, and says where the
    /// test stands and what the screen has to show.
    pub fn process_key(&mut self, key: Key) -> (r: (TestStatus, Vec<Feedback>))
        requires
            old(self).wf(),
            old(self)@.typed < usize::MAX,
        ensures
            final(self).wf(),
            final(self)@ == step(old(self)@, key).state,
            r.0 == step(old(self)@, key).status,
            r.1@ == step(old(self)@, key).feedback,
    {
        let mut feedback: Vec<Feedback> = Vec::new();
        let ghost text = self.text@;
        let ghost n = self.input@.len() as int;
        match key {
            Key::Ctrl('c') => (TestStatus::Quit, feedback),
            Key::Ctrl('r') | Key::Char('\n') => (TestStatus::Restart, feedback),
            Key::Ctrl('w') => {
                proof {
                    assert(self.input@.take(n) =~= self.input@);
                    assert(restores(text, n, n) =~= Seq::<Feedback>::empty());
                }
                if self.input.len() > 0 && self.at_word_end() {
                    self.take_back(&mut feedback);
                }
                let ghost from = self.input@.len() as int;
                let ghost shown = feedback@;
                proof {
                    assert(shown + restores(text, from, from) =~= shown);
                }
                while !self.at_word_end()
                    invariant
                        self.wf(),
                        self@ == (TypingState {
                            input: old(self)@.input.take(self.input@.len() as int),
                            ..old(self)@
                        }),
                        text == old(self)@.text,
                        self.input@.len() <= from <= n,
                        n == old(self)@.input.len(),
                        word_start(text, self.input@.len() as int) == word_start(text, from),
                        feedback@ == shown + restores(text, from, self.input@.len() as int),
                    decreases self.input@.len(),
                {
                    let ghost before = self.input@.len() as int;
                    let ghost so_far = feedback@;
                    self.take_back(&mut feedback);
                    proof {
                        assert(old(self)@.input.take(before).take(before - 1)
                            =~= old(self)@.input.take(before - 1));
                        lemma_restores_split(text, from, before, before - 1);
                        assert(shown + (restores(text, from, before) + restores(
                            text,
                            before,
                            before - 1,
                        )) =~= so_far + restores(text, before, before - 1));
                    }
                }
                proof {
                    lemma_restores_split(text, n, from, self.input@.len() as int);
                }
                (TestStatus::NotDone, feedback)
            },
            Key::Char(c) => {
                self.input.push(c);
                if self.input.len() >= self.text.len() {
                    return (TestStatus::Done, feedback);
                }
                self.num_chars_typed += 1;
                let position = self.input.len() - 1;
                if self.text[position] == c {
                    feedback.push(Feedback { position, mark: Mark::Correct });
                    proof {
                        assert(feedback@ =~= seq![Feedback { position, mark: Mark::Correct }]);
                    }
                } else {
                    feedback.push(Feedback { position, mark: Mark::Wrong });
                    self.num_errors += 1;
                    proof {
                        assert(feedback@ =~= seq![Feedback { position, mark: Mark::Wrong }]);
                    }
                }
                (TestStatus::NotDone, feedback)
            },
            Key::Backspace | Key::Ctrl('h') => {
                if self.input.len() > 0 {
                    self.take_back(&mut feedback);
                    proof {
                        assert(Seq::<Feedback>::empty() + restores(text, n, n - 1) =~= restores(
                            text,
                            n,
                            n - 1,
                        ));
                    }
                }
                (TestStatus::NotDone, feedback)
            },
            _ => (TestStatus::NotDone, feedback),
        }
    }

    /// How many characters were typed so far, the one that ended the test
    /// aside.
    pub fn chars_typed(&self) -> (n: usize)
        ensures
            n == self@.typed,
    {
        self.num_chars_typed
    }

    /// The numbers that the test is scored by, as it stands.
    pub fn totals(&self) -> (totals: TypingTotals)
        ensures
            totals.total_chars_typed == self@.typed,
            totals.total_chars_in_text == self@.input.len(),
            totals.total_char_errors == self@.errors,
            totals.final_chars_typed_correctly == agreeing(
                self@.input,
                self@.text,
                shorter(self@.input.len(), self@.text.len()) as int,
            ),
            totals.final_chars_typed_correctly + totals.final_uncorrected_errors == shorter(
                self@.input.len(),
                self@.text.len(),
            ),
            self.wf() ==> totals.total_char_errors <= totals.total_chars_typed,
    {
        let mut correct: usize = 0;
        let mut wrong: usize = 0;
        let mut i: usize = 0;
        while i < self.input.len() && i < self.text.len()
            invariant
                0 <= i <= self.input@.len(),
                i <= self.text@.len(),
                correct == agreeing(self.input@, self.text@, i as int),
                correct + wrong == i,
            decreases self.input@.len() - i,
        {
            if self.input[i] == self.text[i] {
                correct += 1;
            } else {
                wrong += 1;
            }
            i += 1;
        }
        TypingTotals {
            total_chars_typed: self.num_chars_typed,
            total_chars_in_text: self.input.len(),
            total_char_errors: self.num_errors,
            final_chars_typed_correctly: correct,
            final_uncorrected_errors: wrong,
        }
    }
}

/// Taking characters back in two steps shows on the screen what taking them
/// back in one step shows.
pub proof fn lemma_restores_split(text: Seq<char>, from: int, mid: int, to: int)
    requires
        to <= mid <= from,
    ensures
        restores(text, from, to) == restores(text, from, mid) + restores(text, mid, to),
    decreases from - mid,
{
    if from > mid {
        lemma_restores_split(text, from - 1, mid, to);
        if 0 <= from - 1 < text.len() {
            let head = seq![restored(from - 1)];
            assert(head + (restores(text, from - 1, mid) + restores(text, mid, to)) =~= (head
                + restores(text, from - 1, mid)) + restores(text, mid, to));
        }
    } else {
        assert(Seq::<Feedback>::empty() + restores(text, mid, to) =~= restores(text, mid, to));
    }
}

} // verus!

