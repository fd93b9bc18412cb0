//! Word selectors: where the words of a practice text come from. A raw
//! selector draws them from a corpus by frequency; the others wrap a selector
//! and put numbers in place of some words, or punctuation and capitals around
//! them.

use rand::rngs::ThreadRng;
use vstd::prelude::*;
use vstd::string::{StrSliceExecFns, StringExecFns};
use crate::random::{choose_rule, gen_below, gen_ratio, thread_rng};
use crate::text::{
    char_to_string, char_to_uppercase, decimal, decimal_string, split_whitespace, uppercase,
    words_of,
};
use crate::tree::{Tree, lemma_insert_conserved, sample_at, single_chars, tree_compress, tree_of};
use crate::trie::{Trie, TrieErr, TrieErrKind};

verus! {

/// A probability, as a ratio of two numbers.
#[derive(Clone, Copy, Debug)]
pub struct Chance {
    numerator: u32,
    denominator: u32,
}

impl Chance {
    #[verifier::type_invariant]
    spec fn inv(self) -> bool {
        0 < self.denominator && self.numerator <= self.denominator
    }

    /// How many times in `self.out_of()` the chance comes true.
    pub closed spec fn times(&self) -> nat {
        self.numerator as nat
    }

    /// The number of cases of which `self.times()` come true.
    pub closed spec fn out_of(&self) -> nat {
        self.denominator as nat
    }

    /// The chance never comes true.
    pub open spec fn is_never(&self) -> bool {
        self.times() == 0
    }

    /// The chance always comes true.
    pub open spec fn is_always(&self) -> bool {
        self.times() == self.out_of()
    }

    /// The chance of `numerator` in `denominator`, if that is a probability:
    /// the denominator is not zero, and the numerator is no larger.
    pub fn new(numerator: u32, denominator: u32) -> (r: Option<Self>)
        ensures
            r is Some <==> 0 < denominator && numerator <= denominator,
            r matches Some(chance) ==> chance.times() == numerator && chance.out_of()
                == denominator,
    {
        if 0 < denominator && numerator <= denominator {
            Some(Chance { numerator, denominator })
        } else {
            None
        }
    }

    /// The chance that never comes true.
    pub fn never() -> (chance: Self)
        ensures
            chance.is_never(),
            chance.out_of() == 1,
    {
        Chance { numerator: 0, denominator: 1 }
    }

    /// The chance that always comes true.
    pub fn always() -> (chance: Self)
        ensures
            chance.is_always(),
            chance.out_of() == 1,
    {
        Chance { numerator: 1, denominator: 1 }
    }

    /// Whether the chance comes true this time.
    fn draw(&self, rng: &mut ThreadRng) -> (r: bool)
        ensures
            self.is_never() ==> !r,
            self.is_always() ==> r,
    {
        proof {
            use_type_invariant(self);
        }
        gen_ratio(rng, self.numerator, self.denominator)
    }
}

/// Why a corpus could not be made into a selector.
#[derive(Debug)]
pub enum CorpusError<E> {
    /// The source of the corpus failed; this is its failure.
    Source(E),
    /// The trie failed.
    Trie(TrieErr),
}

/// The words that the items `items` hold, taking each for a word.
pub open spec fn corpus_words<E>(items: Seq<Result<String, E>>) -> Seq<Seq<char>> {
    Seq::new(items.len(), |i: int| items[i]->Ok_0@)
}

/// A selector that draws the words of a corpus, each as often as it occurs.
pub struct RawWordSelector {
    trie: Trie,
}

impl View for RawWordSelector {
    type V = Tree;

    /// The compressed tree of the corpus.
    closed spec fn view(&self) -> Tree {
        self.trie@
    }
}

impl RawWordSelector {
    #[verifier::type_invariant]
    spec fn inv(self) -> bool {
        self.trie.wf()
    }

    /// The selector for the corpus `iter`, an ordered list of words. Where
    /// the list holds a failure in place of a word, the first such failure is
    /// returned, and no selector.
    pub fn from_iter<E>(iter: Vec<Result<String, E>>) -> (r: Result<Self, CorpusError<E>>)
        ensures
            match r {
                Ok(selector) => {
                    &&& forall|i: int| 0 <= i < iter@.len() ==> iter@[i] is Ok
                    &&& selector@ == tree_compress(tree_of(corpus_words(iter@)))
                },
                Err(e) => exists|i: int|
                    {
                        &&& 0 <= i < iter@.len()
                        &&& #[trigger] iter@[i] is Err
                        &&& e == CorpusError::Source(iter@[i]->Err_0)
                        &&& forall|j: int| 0 <= j < i ==> iter@[j] is Ok
                    },
            },
    {
        let mut trie = Trie::new();
        let ghost all = iter@;
        let ghost words = corpus_words(all);
        proof {
            assert(words.take(0) =~= Seq::<Seq<char>>::empty());
            assert(iter.len() == all.len());
        }
        for elem in it: iter
            invariant
                it.seq() == all,
                all.len() <= usize::MAX,
                words == corpus_words(all),
                trie.wf(),
                single_chars(trie@),
                trie@ == tree_of(words.take(it.index() as int)),
                trie@.count == it.index(),
                forall|j: int| 0 <= j < it.index() ==> all[j] is Ok,
        {
            let ghost before = trie@;
            proof {
                trie.lemma_wf();
            }
            match elem {
                Ok(word) => {
                    match trie.insert(word.as_str()) {
                        Ok(_) => {},
                        Err(err) => {
                            return Err(CorpusError::Trie(err));
                        },
                    }
                    proof {
                        let upto = words.take(it.index() + 1);
                        assert(upto.drop_last() =~= words.take(it.index() as int));
                        assert(upto.last() == word@);
                        lemma_insert_conserved(before, word@);
                    }
                },
                Err(err) => {
                    return Err(CorpusError::Source(err));
                },
            }
        }
        proof {
            assert(words.take(words.len() as int) =~= words);
        }
        match trie.compress() {
            Ok(trie) => Ok(RawWordSelector { trie }),
            Err(err) => Err(CorpusError::Trie(err)),
        }
    }

    /// Whether the selector can answer a call for a new word with `a`: with
    /// the word at some rank of its corpus; or, if and only if the corpus
    /// holds no word, with the failure that it is empty.
    pub open spec fn answers(&self, a: Result<Seq<char>, TrieErr>) -> bool {
        match a {
            Ok(word) => self@.count > 0 && exists|id: nat| #[trigger]
                sample_at(self@, id) == word,
            Err(e) => self@.count == 0 && e == TrieErr { kind: TrieErrKind::EmptyTrie },
        }
    }

    /// The word of the corpus at the rank that `id` leaves modulo the number
    /// of word occurrences. Fails if and only if the corpus holds no word.
    pub fn word_at(&self, id: u64) -> (r: Result<String, TrieErr>)
        ensures
            match r {
                Ok(word) => self@.count > 0 && word@ == sample_at(self@, id as nat),
                Err(e) => self@.count == 0 && e == TrieErr { kind: TrieErrKind::EmptyTrie },
            },
    {
        proof {
            use_type_invariant(self);
        }
        self.trie.sample(id)
    }

    /// A rank of the corpus, drawn with `rng`; zero where the corpus holds
    /// no word.
    fn draw_rank(&self, rng: &mut ThreadRng) -> (id: u64)
        ensures
            self@.count > 0 ==> id < self@.count,
    {
        proof {
            use_type_invariant(self);
        }
        let count = self.trie.num_words();
        if count == 0 {
            0
        } else {
            gen_below(rng, count)
        }
    }

    /// A word of the corpus, drawn with `rng`: the word at some rank. Fails
    /// if and only if the corpus holds no word.
    fn new_word_raw(&mut self, rng: &mut ThreadRng) -> (r: Result<String, TrieErr>)
        ensures
            final(self)@ == old(self)@,
            match r {
                Ok(word) => old(self)@.count > 0 && exists|id: nat| #[trigger]
                    sample_at(old(self)@, id) == word@,
                Err(e) => old(self)@.count == 0 && e == TrieErr { kind: TrieErrKind::EmptyTrie },
            },
    {
        let id = self.draw_rank(rng);
        let r = self.word_at(id);
        proof {
            if r is Ok {
                assert(sample_at(self@, id as nat) == r->Ok_0@);
            }
        }
        r
    }
}

/// What one drawn word adds to a list of words: itself where white space is
/// preserved, else the words that it is made of.
pub open spec fn unit(draw: Seq<char>, preserve_whitespace: bool) -> Seq<Seq<char>> {
    if preserve_whitespace {
        seq![draw]
    } else {
        words_of(draw)
    }
}

/// The list of words that the drawn words `draws` make, in order.
pub open spec fn assembled(draws: Seq<Seq<char>>, preserve_whitespace: bool) -> Seq<Seq<char>>
    decreases draws.len(),
{
    if draws.len() == 0 {
        Seq::empty()
    } else {
        assembled(draws.drop_last(), preserve_whitespace) + unit(draws.last(), preserve_whitespace)
    }
}

/// Where white space is preserved, every drawn word is one word of the list.
pub proof fn lemma_assembled_preserved(draws: Seq<Seq<char>>)
    ensures
        assembled(draws, true) == draws,
    decreases draws.len(),
{
    if draws.len() > 0 {
        lemma_assembled_preserved(draws.drop_last());
        assert(draws.drop_last() + seq![draws.last()] =~= draws);
    }
}

/// The answer `r` of a selector as a value: the characters of its word, or
/// its failure.
pub open spec fn answer_of(r: Result<String, TrieErr>) -> Result<Seq<char>, TrieErr> {
    match r {
        Ok(word) => Ok(word@),
        Err(e) => Err(e),
    }
}

/// The words of the answers `run`, taking each for a word.
pub open spec fn run_words(run: Seq<Result<Seq<char>, TrieErr>>) -> Seq<Seq<char>> {
    Seq::new(run.len(), |i: int| run[i]->Ok_0)
}

/// Whether a call for `num_words` words ends with `r` where the selector
/// answers the draws, one after the other, with `run`. It succeeds where
/// there are as many answers as words were asked for and all of them are
/// words: the result is what these words make, in the order of the draws. It
/// fails where the last answer is the first failure: the result is that
/// failure, and no draw follows it.
pub open spec fn batch(
    run: Seq<Result<Seq<char>, TrieErr>>,
    num_words: usize,
    preserve_whitespace: bool,
    r: Result<Vec<String>, TrieErr>,
) -> bool {
    match r {
        Ok(words) => {
            &&& run.len() == num_words
            &&& forall|i: int| 0 <= i < run.len() ==> (#[trigger] run[i]) is Ok
            &&& words.deep_view() == assembled(run_words(run), preserve_whitespace)
        },
        Err(e) => {
            &&& 0 < run.len() <= num_words
            &&& run.last() == Err::<Seq<char>, TrieErr>(e)
            &&& forall|i: int| 0 <= i < run.len() - 1 ==> (#[trigger] run[i]) is Ok
        },
    }
}

/// Something that hands out words.
pub trait WordSelector {
    /// Whether the selector, as it stands, can answer a run of calls for a
    /// new word, one call after the other, with the answers `run`. A selector
    /// that says nothing here can answer with anything.
    open spec fn runs(&self, run: Seq<Result<Seq<char>, TrieErr>>) -> bool {
        true
    }

    /// A new word, or the failure to draw one. The answer begins every run
    /// of the selector as it stood: whatever run the selector can give
    /// afterwards, it could give before with this answer in front. The empty
    /// run it can always give afterwards.
    fn new_word(&mut self) -> (r: Result<String, TrieErr>)
        ensures
            final(self).runs(Seq::empty()),
            forall|rest: Seq<Result<Seq<char>, TrieErr>>| #[trigger]
                final(self).runs(rest) ==> old(self).runs(seq![answer_of(r)] + rest),
    ;

    /// The words made by `num_words` new words, in the order in which they
    /// were drawn. A drawn word that holds white space counts as the words it
    /// is made of, unless white space is to be preserved. The first draw that
    /// fails ends the call with its failure.
    ///
    /// Where no word is asked for, none is drawn, and the call succeeds.
    /// Else the draws are a run of the selector as it stood: as many words as
    /// were asked for, which make the result; or words and then a failure,
    /// which is the failure of the call.
    fn new_words(&mut self, num_words: usize, preserve_whitespace: bool) -> (r: Result<
        Vec<String>,
        TrieErr,
    >)
        ensures
            num_words == 0 ==> r is Ok && r->Ok_0@.len() == 0,
            num_words > 0 ==> exists|run: Seq<Result<Seq<char>, TrieErr>>| #[trigger]
                old(self).runs(run) && batch(run, num_words, preserve_whitespace, r),
            r is Ok && preserve_whitespace ==> r->Ok_0@.len() == num_words,
    {
        let mut words: Vec<String> = Vec::new();
        let ghost mut run: Seq<Result<Seq<char>, TrieErr>> = Seq::empty();
        let mut i: usize = 0;
        proof {
            assert(words.deep_view() =~= assembled(run_words(run), preserve_whitespace));
            assert forall|rest: Seq<Result<Seq<char>, TrieErr>>| #[trigger]
                self.runs(rest) implies old(self).runs(run + rest) by {
                assert(run + rest =~= rest);
            }
        }
        while i < num_words
            invariant
                i <= num_words,
                run.len() == i,
                forall|j: int| 0 <= j < i ==> (#[trigger] run[j]) is Ok,
                words.deep_view() == assembled(run_words(run), preserve_whitespace),
                forall|rest: Seq<Result<Seq<char>, TrieErr>>| #[trigger]
                    self.runs(rest) ==> old(self).runs(run + rest),
                i > 0 ==> self.runs(Seq::empty()),
            decreases num_words - i,
        {
            let answer = self.new_word();
            let ghost longer = run.push(answer_of(answer));
            proof {
                assert forall|rest: Seq<Result<Seq<char>, TrieErr>>| #[trigger]
                    self.runs(rest) implies old(self).runs(longer + rest) by {
                    assert(longer + rest =~= run + (seq![answer_of(answer)] + rest));
                }
            }
            let word = match answer {
                Ok(word) => word,
                Err(e) => {
                    proof {
                        assert(longer + Seq::empty() =~= longer);
                        assert(old(self).runs(longer));
                        assert(longer.last() == Err::<Seq<char>, TrieErr>(e));
                        assert forall|j: int| 0 <= j < longer.len() - 1 implies (
                        #[trigger] longer[j]) is Ok by {
                            assert(longer[j] == run[j]);
                        }
                    }
                    return Err(e);
                },
            };
            let ghost before = words.deep_view();
            proof {
                assert(run_words(longer).drop_last() =~= run_words(run));
                assert(run_words(longer).last() == word@);
            }
            if preserve_whitespace {
                words.push(word);
                proof {
                    assert(words.deep_view() =~= before + seq![run_words(longer).last()]);
                }
            } else {
                let mut parts = split_whitespace(word.as_str());
                let ghost split = parts.deep_view();
                words.append(&mut parts);
                proof {
                    assert(words.deep_view() =~= before + split);
                }
            }
            proof {
                assert forall|j: int| 0 <= j < longer.len() implies (
                #[trigger] longer[j]) is Ok by {
                    if j < run.len() {
                        assert(longer[j] == run[j]);
                    }
                }
                run = longer;
            }
            i += 1;
        }
        proof {
            if num_words > 0 {
                assert(run + Seq::empty() =~= run);
                assert(old(self).runs(run));
            }
            if preserve_whitespace {
                lemma_assembled_preserved(run_words(run));
                assert(words.deep_view().len() == words@.len());
            }
        }
        Ok(words)
    }
}

impl WordSelector for RawWordSelector {
    /// The runs that the selector can give: each answer is one that the
    /// selector can give, whatever it gave before.
    open spec fn runs(&self, run: Seq<Result<Seq<char>, TrieErr>>) -> bool {
        forall|i: int| 0 <= i < run.len() ==> self.answers(#[trigger] run[i])
    }

    /// A word of the corpus, drawn by frequency: the word at some rank.
    /// Fails if and only if the corpus holds no word. The corpus stays as it
    /// is.
    fn new_word(&mut self) -> (r: Result<String, TrieErr>)
        ensures
            final(self)@ == old(self)@,
            old(self).answers(answer_of(r)),
    {
        let mut rng = thread_rng();
        let r = self.new_word_raw(&mut rng);
        proof {
            assert forall|rest: Seq<Result<Seq<char>, TrieErr>>| #[trigger]
                self.runs(rest) implies old(self).runs(seq![answer_of(r)] + rest) by {
                let run = seq![answer_of(r)] + rest;
                assert forall|i: int| 0 <= i < run.len() implies old(self).answers(
                    #[trigger] run[i],
                ) by {
                    if i > 0 {
                        assert(run[i] == rest[i - 1]);
                        assert(self.answers(rest[i - 1]));
                    }
                }
            }
        }
        r
    }
}

/// A selector that hands out a number in place of some of the words of
/// another selector.
pub struct NumberGeneratingWordSelector<S: WordSelector + ?Sized = dyn WordSelector> {
    selector: Box<S>,
    number_chance: Chance,
    number_max: u64,
}

impl<S: WordSelector + ?Sized> NumberGeneratingWordSelector<S> {
    /// The chance with which a number is handed out in place of a word.
    pub closed spec fn number_chance(&self) -> Chance {
        self.number_chance
    }

    /// The bound below which the numbers lie.
    pub closed spec fn number_max(&self) -> u64 {
        self.number_max
    }

    /// Whether the selector inside, as it stands, can answer a run of calls
    /// with `run`.
    pub closed spec fn inner_runs(&self, run: Seq<Result<Seq<char>, TrieErr>>) -> bool {
        (*self.selector).runs(run)
    }

    /// The selector that wraps `word_selector` and, with the chance
    /// `number_chance`, hands out a number below `number_max` in its place.
    pub fn from_word_selector(word_selector: Box<S>, number_chance: Chance, number_max: u64) -> (r:
        Self)
        ensures
            r.number_chance() == number_chance,
            r.number_max() == number_max,
            forall|run: Seq<Result<Seq<char>, TrieErr>>| #[trigger]
                r.inner_runs(run) <==> word_selector.runs(run),
    {
        Self { selector: word_selector, number_chance, number_max }
    }
}

impl NumberGeneratingWordSelector<dyn WordSelector> {
    /// The word that stands for the number `number`: its decimal numeral.
    pub fn numeral(number: u64) -> (word: String)
        ensures
            word@ == decimal(number as nat),
    {
        decimal_string(number)
    }
}

/// Whether `word` is the numeral of a number below `max`.
pub open spec fn is_numeral_below(word: Seq<char>, max: u64) -> bool {
    exists|number: nat| number < max && word == #[trigger] decimal(number)
}

/// Whether a numbers stage with the chance `chance` and the bound `max`
/// answers with `run` where the selector inside answers its calls with
/// `inner`: each answer is the numeral of a number below the bound, for which
/// the selector inside is not called; or the next answer of the selector
/// inside, handed on as it is.
pub open spec fn number_run(
    chance: Chance,
    max: u64,
    run: Seq<Result<Seq<char>, TrieErr>>,
    inner: Seq<Result<Seq<char>, TrieErr>>,
) -> bool
    decreases run.len(),
{
    if run.len() == 0 {
        inner.len() == 0
    } else {
        ||| {
            &&& !chance.is_never()
            &&& run[0] is Ok
            &&& is_numeral_below(run[0]->Ok_0, max)
            &&& number_run(chance, max, run.skip(1), inner)
        }
        ||| {
            &&& !(chance.is_always() && max > 0)
            &&& inner.len() > 0
            &&& run[0] == inner[0]
            &&& number_run(chance, max, run.skip(1), inner.skip(1))
        }
    }
}

/// With the chance `chance`, a number below `max`; else nothing. Where no
/// number lies below `max`, always nothing.
fn draw_number(rng: &mut ThreadRng, chance: &Chance, max: u64) -> (r: Option<u64>)
    ensures
        match r {
            Some(number) => !chance.is_never() && number < max,
            None => !chance.is_always() || max == 0,
        },
{
    if !chance.draw(rng) || max == 0 {
        return None;
    }
    Some(gen_below(rng, max))
}

impl<S: WordSelector + ?Sized> WordSelector for NumberGeneratingWordSelector<S> {
    /// The runs that the selector can give: what the numbers stage makes of
    /// a run of the selector inside.
    open spec fn runs(&self, run: Seq<Result<Seq<char>, TrieErr>>) -> bool {
        exists|inner: Seq<Result<Seq<char>, TrieErr>>|
            (inner.len() == 0 || self.inner_runs(inner)) && #[trigger] number_run(
                self.number_chance(),
                self.number_max(),
                run,
                inner,
            )
    }

    /// With the chance of the selector, the numeral of a number below its
    /// bound; else the answer of the selector inside. Where no number lies
    /// below the bound, the answer is always that of the selector inside.
    fn new_word(&mut self) -> (r: Result<String, TrieErr>)
        ensures
            final(self).number_chance() == old(self).number_chance(),
            final(self).number_max() == old(self).number_max(),
            old(self).number_chance().is_always() && old(self).number_max() > 0 ==> r is Ok
                && is_numeral_below(r->Ok_0@, old(self).number_max()),
    {
        let mut rng = thread_rng();
        let ghost chance = self.number_chance;
        let ghost max = self.number_max;
        proof {
            assert(number_run(chance, max, Seq::empty(), Seq::empty()));
        }
        match draw_number(&mut rng, &self.number_chance, self.number_max) {
            Some(number) => {
                let word = NumberGeneratingWordSelector::numeral(number);
                proof {
                    assert(word@ == decimal(number as nat));
                }
                let r = Ok(word);
                proof {
                    let a = answer_of(r);
                    assert(is_numeral_below(a->Ok_0, max));
                    assert forall|rest: Seq<Result<Seq<char>, TrieErr>>| #[trigger]
                        self.runs(rest) implies old(self).runs(seq![a] + rest) by {
                        let inner = choose|inner: Seq<Result<Seq<char>, TrieErr>>|
                            (inner.len() == 0 || self.inner_runs(inner)) && #[trigger] number_run(
                                chance,
                                max,
                                rest,
                                inner,
                            );
                        let run = seq![a] + rest;
                        assert(run.skip(1) =~= rest);
                        assert(number_run(chance, max, run, inner));
                    }
                    let none = Seq::<Result<Seq<char>, TrieErr>>::empty();
                    assert(none.len() == 0 && number_run(
                        self.number_chance(),
                        self.number_max(),
                        none,
                        none,
                    ));
                    assert(self.runs(none));
                }
                r
            },
            None => {
                let r = self.selector.new_word();
                proof {
                    let a = answer_of(r);
                    assert(self.inner_runs(Seq::empty()));
                    assert forall|rest: Seq<Result<Seq<char>, TrieErr>>| #[trigger]
                        self.runs(rest) implies old(self).runs(seq![a] + rest) by {
                        let inner = choose|inner: Seq<Result<Seq<char>, TrieErr>>|
                            (inner.len() == 0 || self.inner_runs(inner)) && #[trigger] number_run(
                                chance,
                                max,
                                rest,
                                inner,
                            );
                        if inner.len() == 0 {
                            assert(inner =~= Seq::empty());
                        }
                        assert(self.inner_runs(inner));
                        let longer = seq![a] + inner;
                        assert(old(self).inner_runs(longer));
                        let run = seq![a] + rest;
                        assert(run.skip(1) =~= rest);
                        assert(longer.skip(1) =~= inner);
                        assert(number_run(chance, max, run, longer));
                        assert(old(self).inner_runs(longer) && number_run(
                            old(self).number_chance(),
                            old(self).number_max(),
                            run,
                            longer,
                        ));
                    }
                    let none = Seq::<Result<Seq<char>, TrieErr>>::empty();
                    assert(none.len() == 0 && number_run(
                        self.number_chance(),
                        self.number_max(),
                        none,
                        none,
                    ));
                    assert(self.runs(none));
                }
                r
            },
        }
    }
}

/// A rule of punctuation: which marks go where around a word.
#[derive(Clone, Copy, Debug, PartialEq, Eq, Structural)]
pub enum PunctuationType {
    /// A mark behind the word that ends a sentence: the next word begins
    /// with a capital.
    Capitalizing(char),
    /// A mark behind the word.
    Ending(char),
    /// A mark in front of the word.
    Starting(char),
    /// A mark in front of the word and one behind it.
    Surrounding(char, char),
}

/// The table of the rules of punctuation.
pub open spec fn rule_table() -> Seq<PunctuationType> {
    seq![
        PunctuationType::Capitalizing('!'),
        PunctuationType::Capitalizing('?'),
        PunctuationType::Capitalizing('.'),
        PunctuationType::Ending(','),
        PunctuationType::Ending(':'),
        PunctuationType::Ending(';'),
        PunctuationType::Starting(':'),
        PunctuationType::Starting('@'),
        PunctuationType::Starting('#'),
        PunctuationType::Starting('$'),
        PunctuationType::Starting('%'),
        PunctuationType::Starting('^'),
        PunctuationType::Starting('&'),
        PunctuationType::Starting('*'),
        PunctuationType::Starting('~'),
        PunctuationType::Starting('/'),
        PunctuationType::Starting('\\'),
        PunctuationType::Starting('_'),
        PunctuationType::Starting('-'),
        PunctuationType::Starting('='),
        PunctuationType::Starting('+'),
        PunctuationType::Surrounding('\'', '\''),
        PunctuationType::Surrounding('"', '"'),
        PunctuationType::Surrounding('(', ')'),
        PunctuationType::Surrounding('{', '}'),
        PunctuationType::Surrounding('<', '>'),
        PunctuationType::Surrounding('[', ']'),
        PunctuationType::Surrounding('%', '%'),
        PunctuationType::Surrounding('^', '$'),
        PunctuationType::Surrounding('*', '*'),
        PunctuationType::Surrounding('`', '`'),
        PunctuationType::Surrounding('/', '/'),
        PunctuationType::Surrounding('|', '|'),
    ]
}

/// The table of the rules of punctuation.
pub fn punctuation_rules() -> (rules: Vec<PunctuationType>)
    ensures
        rules@ == rule_table(),
{
    let mut rules: Vec<PunctuationType> = Vec::new();
    rules.push(PunctuationType::Capitalizing('!'));
    rules.push(PunctuationType::Capitalizing('?'));
    rules.push(PunctuationType::Capitalizing('.'));
    rules.push(PunctuationType::Ending(','));
    rules.push(PunctuationType::Ending(':'));
    rules.push(PunctuationType::Ending(';'));
    rules.push(PunctuationType::Starting(':'));
    rules.push(PunctuationType::Starting('@'));
    rules.push(PunctuationType::Starting('#'));
    rules.push(PunctuationType::Starting('$'));
    rules.push(PunctuationType::Starting('%'));
    rules.push(PunctuationType::Starting('^'));
    rules.push(PunctuationType::Starting('&'));
    rules.push(PunctuationType::Starting('*'));
    rules.push(PunctuationType::Starting('~'));
    rules.push(PunctuationType::Starting('/'));
    rules.push(PunctuationType::Starting('\\'));
    rules.push(PunctuationType::Starting('_'));
    rules.push(PunctuationType::Starting('-'));
    rules.push(PunctuationType::Starting('='));
    rules.push(PunctuationType::Starting('+'));
    rules.push(PunctuationType::Surrounding('\'', '\''));
    rules.push(PunctuationType::Surrounding('"', '"'));
    rules.push(PunctuationType::Surrounding('(', ')'));
    rules.push(PunctuationType::Surrounding('{', '}'));
    rules.push(PunctuationType::Surrounding('<', '>'));
    rules.push(PunctuationType::Surrounding('[', ']'));
    rules.push(PunctuationType::Surrounding('%', '%'));
    rules.push(PunctuationType::Surrounding('^', '$'));
    rules.push(PunctuationType::Surrounding('*', '*'));
    rules.push(PunctuationType::Surrounding('`', '`'));
    rules.push(PunctuationType::Surrounding('/', '/'));
    rules.push(PunctuationType::Surrounding('|', '|'));
    proof {
        assert(rules@ =~= rule_table());
    }
    rules
}

/// The word with `upper` in place of its first character; a word without
/// characters as it is.
pub open spec fn capitalized_with(word: Seq<char>, upper: Seq<char>) -> Seq<char> {
    if word.len() == 0 {
        word
    } else {
        upper + word.skip(1)
    }
}

/// The word with its first character in upper case. That form of the
/// character may be more than one character.
pub open spec fn capitalized(word: Seq<char>) -> Seq<char> {
    if word.len() == 0 {
        word
    } else {
        capitalized_with(word, uppercase(word[0]))
    }
}

/// The word `word` with `upper`, the upper-case form of its first character,
/// in place of that character. A word without characters stays as it is.
pub fn capitalize(word: &str, upper: &str) -> (r: String)
    ensures
        r@ == capitalized_with(word@, upper@),
{
    let len = word.unicode_len();
    if len == 0 {
        String::from_str(word)
    } else {
        let mut r = String::from_str(upper);
        r.append(word.substring_char(1, len));
        r
    }
}

/// The word with the marks of `rule` around it.
pub open spec fn marked(rule: PunctuationType, word: Seq<char>) -> Seq<char> {
    match rule {
        PunctuationType::Capitalizing(c) => word.push(c),
        PunctuationType::Ending(c) => word.push(c),
        PunctuationType::Starting(c) => seq![c] + word,
        PunctuationType::Surrounding(opening, closing) => (seq![opening] + word).push(closing),
    }
}

/// The word as the punctuation stage hands it out: first with a capital, if
/// one is due, then with the marks of the rule, if one was chosen.
pub open spec fn punctuated(
    word: Seq<char>,
    capitalize: bool,
    rule: Option<PunctuationType>,
) -> Seq<char> {
    let base = if capitalize {
        capitalized(word)
    } else {
        word
    };
    match rule {
        Some(rule) => marked(rule, base),
        None => base,
    }
}

/// Whether a capital is due for the word after one that got `rule`: only
/// after a mark that ends a sentence.
pub open spec fn capital_follows(rule: Option<PunctuationType>) -> bool {
    rule matches Some(PunctuationType::Capitalizing(_))
}

/// Puts a capital at the start of `word`, if `capitalize` says so, and the
/// marks of `rule` around it, if there is one. Returns the new word, and
/// whether a capital is due for the next one.
pub fn punctuate(word: &str, capitalize: bool, rule: Option<PunctuationType>) -> (r: (
    String,
    bool,
))
    ensures
        r.0@ == punctuated(word@, capitalize, rule),
        r.1 == capital_follows(rule),
{
    let len = word.unicode_len();
    let base = if capitalize && len > 0 {
        let upper = char_to_uppercase(word.get_char(0));
        self::capitalize(word, upper.as_str())
    } else {
        String::from_str(word)
    };
    match rule {
        None => (base, false),
        Some(PunctuationType::Capitalizing(c)) => {
            let mut text = base;
            text.append(char_to_string(c).as_str());
            proof {
                assert(text@ =~= base@.push(c));
            }
            (text, true)
        },
        Some(PunctuationType::Ending(c)) => {
            let mut text = base;
            text.append(char_to_string(c).as_str());
            proof {
                assert(text@ =~= base@.push(c));
            }
            (text, false)
        },
        Some(PunctuationType::Starting(c)) => {
            let mut text = char_to_string(c);
            text.append(base.as_str());
            (text, false)
        },
        Some(PunctuationType::Surrounding(opening, closing)) => {
            let mut text = char_to_string(opening);
            text.append(base.as_str());
            text.append(char_to_string(closing).as_str());
            proof {
                assert(text@ =~= (seq![opening] + base@).push(closing));
            }
            (text, false)
        },
    }
}

/// Whether chance can decide on `rule` for a word where punctuation comes
/// with the chance `chance`: a rule only where there is a chance of
/// punctuation and the rule is of the table, and no rule only where
/// punctuation is not certain.
pub open spec fn rule_allowed(chance: Chance, rule: Option<PunctuationType>) -> bool {
    match rule {
        Some(chosen) => !chance.is_never() && rule_table().contains(chosen),
        None => !chance.is_always(),
    }
}

/// What the punctuation stage makes of the answer `inner` with the rule
/// `rule`, where `capital` says whether a capital is due: a failure is handed
/// on as it is; a word is handed on with a capital, if one is due, and with
/// the marks of the rule, if there is one.
pub open spec fn handed_on(
    capital: bool,
    inner: Result<Seq<char>, TrieErr>,
    rule: Option<PunctuationType>,
) -> Result<Seq<char>, TrieErr> {
    match inner {
        Ok(word) => Ok(punctuated(word, capital, rule)),
        Err(e) => Err(e),
    }
}

/// Whether a capital is due after the punctuation stage handed the answer
/// `inner` on with the rule `rule`: after a word, exactly if the rule ends a
/// sentence; after a failure, if one was due before.
pub open spec fn capital_after(
    capital: bool,
    inner: Result<Seq<char>, TrieErr>,
    rule: Option<PunctuationType>,
) -> bool {
    match inner {
        Ok(_) => capital_follows(rule),
        Err(_) => capital,
    }
}

/// Whether a punctuation stage with the chance `chance` answers with `run`
/// where the selector inside answers its calls with `inner` and chance
/// decides on the rules `rules`, one for each call, and `capital` says
/// whether a capital is due at the start: each answer is handed on as the
/// stage then stands.
pub open spec fn punctuation_run(
    chance: Chance,
    capital: bool,
    inner: Seq<Result<Seq<char>, TrieErr>>,
    rules: Seq<Option<PunctuationType>>,
    run: Seq<Result<Seq<char>, TrieErr>>,
) -> bool
    decreases inner.len(),
{
    &&& inner.len() == rules.len()
    &&& inner.len() == run.len()
    &&& inner.len() > 0 ==> {
        &&& inner[0] is Ok ==> rule_allowed(chance, rules[0])
        &&& run[0] == handed_on(capital, inner[0], rules[0])
        &&& punctuation_run(
            chance,
            capital_after(capital, inner[0], rules[0]),
            inner.skip(1),
            rules.skip(1),
            run.skip(1),
        )
    }
}

/// With the chance `chance`, a rule of the table; else none.
fn draw_rule(rng: &mut ThreadRng, chance: &Chance) -> (r: Option<PunctuationType>)
    ensures
        rule_allowed(*chance, r),
{
    if chance.draw(rng) {
        let rules = punctuation_rules();
        Some(choose_rule(rng, &rules))
    } else {
        None
    }
}

/// A selector that puts punctuation around some of the words of another
/// selector, and a capital at the start of the first word and of each word
/// that follows the end of a sentence.
pub struct PunctuatedWordSelector<S: WordSelector + ?Sized = dyn WordSelector> {
    selector: Box<S>,
    next_is_capital: bool,
    punctuation_chance: Chance,
}

impl<S: WordSelector + ?Sized> PunctuatedWordSelector<S> {
    /// Whether a capital is due for the next word.
    pub closed spec fn next_is_capital(&self) -> bool {
        self.next_is_capital
    }

    /// The chance with which a word gets punctuation.
    pub closed spec fn punctuation_chance(&self) -> Chance {
        self.punctuation_chance
    }

    /// Whether the selector inside, as it stands, can answer a run of calls
    /// with `run`.
    pub closed spec fn inner_runs(&self, run: Seq<Result<Seq<char>, TrieErr>>) -> bool {
        (*self.selector).runs(run)
    }

    /// The selector that wraps `word_selector` and, with the chance
    /// `punctuation_chance`, puts punctuation around its words. A capital is
    /// due for the first word.
    pub fn from_word_selector(word_selector: Box<S>, punctuation_chance: Chance) -> (r: Self)
        ensures
            r.next_is_capital(),
            r.punctuation_chance() == punctuation_chance,
            forall|run: Seq<Result<Seq<char>, TrieErr>>| #[trigger]
                r.inner_runs(run) <==> word_selector.runs(run),
    {
        Self { selector: word_selector, next_is_capital: true, punctuation_chance }
    }
}

impl<S: WordSelector + ?Sized> WordSelector for PunctuatedWordSelector<S> {
    /// The runs that the selector can give: what the punctuation stage makes
    /// of a run of the selector inside and of rules that chance can decide
    /// on.
    open spec fn runs(&self, run: Seq<Result<Seq<char>, TrieErr>>) -> bool {
        exists|inner: Seq<Result<Seq<char>, TrieErr>>, rules: Seq<Option<PunctuationType>>|
            (inner.len() == 0 || self.inner_runs(inner)) && #[trigger] punctuation_run(
                self.punctuation_chance(),
                self.next_is_capital(),
                inner,
                rules,
                run,
            )
    }

    /// The answer of the selector inside, as the punctuation stage hands it
    /// on. A failure is handed on as it is, and nothing changes. A word gets a
    /// capital if one is due, and, with the chance of the selector, the marks
    /// of a rule from the table; a capital is due next exactly if that rule
    /// ends a sentence.
    fn new_word(&mut self) -> (r: Result<String, TrieErr>)
        ensures
            final(self).punctuation_chance() == old(self).punctuation_chance(),
            exists|inner: Result<Seq<char>, TrieErr>, rule: Option<PunctuationType>|
                {
                    &&& old(self).inner_runs(seq![inner])
                    &&& inner is Ok ==> rule_allowed(old(self).punctuation_chance(), rule)
                    &&& answer_of(r) == #[trigger] handed_on(
                        old(self).next_is_capital(),
                        inner,
                        rule,
                    )
                    &&& final(self).next_is_capital() == capital_after(
                        old(self).next_is_capital(),
                        inner,
                        rule,
                    )
                },
    {
        let mut rng = thread_rng();
        let ghost chance = self.punctuation_chance;
        let ghost capital = self.next_is_capital;
        let answer = self.selector.new_word();
        let ghost inner = answer_of(answer);
        proof {
            assert(self.inner_runs(Seq::empty()));
            assert(seq![inner] + Seq::empty() =~= seq![inner]);
            assert(old(self).inner_runs(seq![inner]));
        }
        let ghost mut rule: Option<PunctuationType> = None;
        let r = match answer {
            Ok(word) => {
                let drawn = draw_rule(&mut rng, &self.punctuation_chance);
                proof {
                    rule = drawn;
                }
                let (text, next) = punctuate(word.as_str(), self.next_is_capital, drawn);
                self.next_is_capital = next;
                Ok(text)
            },
            Err(e) => Err(e),
        };
        proof {
            let a = answer_of(r);
            assert(a == handed_on(capital, inner, rule));
            assert(self.next_is_capital() == capital_after(capital, inner, rule));
            let none = Seq::<Result<Seq<char>, TrieErr>>::empty();
            let no_rules = Seq::<Option<PunctuationType>>::empty();
            assert(none.len() == 0 && punctuation_run(
                self.punctuation_chance(),
                self.next_is_capital(),
                none,
                no_rules,
                none,
            ));
            assert(self.runs(none));
            assert(old(self).inner_runs(seq![inner]) && (inner is Ok ==> rule_allowed(
                old(self).punctuation_chance(),
                rule,
            )) && a == handed_on(old(self).next_is_capital(), inner, rule)
                && self.next_is_capital() == capital_after(
                old(self).next_is_capital(),
                inner,
                rule,
            ));
            assert forall|rest: Seq<Result<Seq<char>, TrieErr>>| #[trigger]
                self.runs(rest) implies old(self).runs(seq![a] + rest) by {
                let (inner_rest, rules_rest) = choose|
                    inner_rest: Seq<Result<Seq<char>, TrieErr>>,
                    rules_rest: Seq<Option<PunctuationType>>,
                |
                    (inner_rest.len() == 0 || self.inner_runs(inner_rest))
                        && #[trigger] punctuation_run(
                        chance,
                        self.next_is_capital(),
                        inner_rest,
                        rules_rest,
                        rest,
                    );
                if inner_rest.len() == 0 {
                    assert(inner_rest =~= Seq::empty());
                }
                assert(self.inner_runs(inner_rest));
                let inner_run = seq![inner] + inner_rest;
                let rules = seq![rule] + rules_rest;
                let run = seq![a] + rest;
                assert(old(self).inner_runs(inner_run));
                assert(inner_run.skip(1) =~= inner_rest);
                assert(rules.skip(1) =~= rules_rest);
                assert(run.skip(1) =~= rest);
                assert(punctuation_run(chance, capital, inner_run, rules, run));
                assert(old(self).inner_runs(inner_run) && punctuation_run(
                    old(self).punctuation_chance(),
                    old(self).next_is_capital(),
                    inner_run,
                    rules,
                    run,
                ));
            }
        }
        r
    }
}

/// The numbers stage of a pipeline: with which chance a number stands in
/// place of a word, and below which bound the numbers lie.
#[derive(Clone, Copy, Debug)]
pub struct NumberStage {
    /// The chance of a number in place of a word.
    pub chance: Chance,
    /// The bound below which the numbers lie.
    pub max: u64,
}

/// What chance decides for one word of a pipeline.
#[derive(Clone, Copy, Debug, PartialEq, Eq, Structural)]
pub struct Draw {
    /// The number that stands in place of a word of the corpus, if one does.
    pub number: Option<u64>,
    /// The rank of the word of the corpus, where no number stands in its
    /// place.
    pub rank: u64,
    /// The rule of punctuation for the word, if it gets one.
    pub rule: Option<PunctuationType>,
}

/// A pipeline as a value: its corpus, its stages, and whether a capital is
/// due for the next word.
pub struct Stages {
    /// The compressed tree of the corpus.
    pub corpus: Tree,
    /// The numbers stage, if the pipeline has one.
    pub numbers: Option<NumberStage>,
    /// The chance of the punctuation stage, if the pipeline has one.
    pub punctuation: Option<Chance>,
    /// Whether a capital is due for the next word.
    pub capital: bool,
}

impl Stages {
    /// Whether a number stands in place of a word of the corpus under
    /// `draw`: the pipeline has a numbers stage, and the draw a number below
    /// its bound.
    pub open spec fn takes_number(self, draw: Draw) -> bool {
        self.numbers is Some && draw.number is Some && draw.number->0 < self.numbers->0.max
    }

    /// The word that the stages before the punctuation stage hand out under
    /// `draw`: the numeral of its number, or the word of the corpus at its
    /// rank.
    pub open spec fn drawn_word(self, draw: Draw) -> Seq<char> {
        if self.takes_number(draw) {
            decimal(draw.number->0 as nat)
        } else {
            sample_at(self.corpus, draw.rank as nat)
        }
    }

    /// Whether chance can decide `draw` in this pipeline: a number only
    /// where the numbers stage has a chance and the number lies below its
    /// bound, and no number only where that stage may pass; a rule only where
    /// the punctuation stage has a chance and the rule is of the table, and
    /// no rule only where that stage may pass.
    pub open spec fn allows(self, draw: Draw) -> bool {
        &&& match draw.number {
            Some(number) => self.numbers is Some && !self.numbers->0.chance.is_never() && number
                < self.numbers->0.max,
            None => self.numbers is Some ==> !self.numbers->0.chance.is_always()
                || self.numbers->0.max == 0,
        }
        &&& match self.punctuation {
            Some(chance) => rule_allowed(chance, draw.rule),
            None => draw.rule is None,
        }
    }

    /// Whether the pipeline has no word for `draw`: the word is to come from
    /// a corpus that holds none.
    pub open spec fn fails(self, draw: Draw) -> bool {
        !self.takes_number(draw) && self.corpus.count == 0
    }

    /// The answer of the pipeline for `draw`: the word that the draw stands
    /// for, as the punctuation stage hands it on, if there is such a stage;
    /// or the failure to draw from an empty corpus.
    pub open spec fn answer(self, draw: Draw) -> Result<Seq<char>, TrieErr> {
        if self.fails(draw) {
            Err(TrieErr { kind: TrieErrKind::EmptyTrie })
        } else if self.punctuation is Some {
            Ok(punctuated(self.drawn_word(draw), self.capital, draw.rule))
        } else {
            Ok(self.drawn_word(draw))
        }
    }

    /// The pipeline after it answered for `draw`: only what is due changes,
    /// and only where a word went through a punctuation stage.
    pub open spec fn after(self, draw: Draw) -> Stages {
        if self.fails(draw) || self.punctuation is None {
            self
        } else {
            Stages { capital: capital_follows(draw.rule), ..self }
        }
    }

    /// Whether the pipeline answers with `run` where chance decides on
    /// `draws`, one for each call: each draw is one that chance can decide
    /// on, and each answer is the answer of the pipeline as it then stands.
    pub open spec fn follows(self, draws: Seq<Draw>, run: Seq<Result<Seq<char>, TrieErr>>) -> bool
        decreases draws.len(),
    {
        &&& draws.len() == run.len()
        &&& draws.len() > 0 ==> {
            &&& self.allows(draws[0])
            &&& run[0] == self.answer(draws[0])
            &&& self.after(draws[0]).follows(draws.skip(1), run.skip(1))
        }
    }
}

/// The words that the stages before the punctuation stage hand out under the
/// draws `draws`.
pub open spec fn drawn_words(s: Stages, draws: Seq<Draw>) -> Seq<Seq<char>> {
    Seq::new(draws.len(), |i: int| s.drawn_word(draws[i]))
}

/// The rules of the draws `draws`.
pub open spec fn drawn_rules(draws: Seq<Draw>) -> Seq<Option<PunctuationType>> {
    Seq::new(draws.len(), |i: int| draws[i].rule)
}

/// Every draw of a run of a pipeline is one that chance can decide on.
pub proof fn lemma_follows_allowed(
    s: Stages,
    draws: Seq<Draw>,
    run: Seq<Result<Seq<char>, TrieErr>>,
)
    requires
        s.follows(draws, run),
    ensures
        run.len() == draws.len(),
        forall|i: int| 0 <= i < draws.len() ==> s.allows(#[trigger] draws[i]),
    decreases draws.len(),
{
    if draws.len() > 0 {
        let next = s.after(draws[0]);
        lemma_follows_allowed(next, draws.skip(1), run.skip(1));
        assert forall|i: int| 0 <= i < draws.len() implies s.allows(#[trigger] draws[i]) by {
            if i > 0 {
                assert(draws[i] == draws.skip(1)[i - 1]);
                assert(next.allows(draws.skip(1)[i - 1]));
            }
        }
    }
}

/// A run of a pipeline without a punctuation stage hands out the drawn words
/// as they are.
pub proof fn lemma_follows_plain(s: Stages, draws: Seq<Draw>, run: Seq<Result<Seq<char>, TrieErr>>)
    requires
        s.follows(draws, run),
        s.punctuation is None,
        forall|i: int| 0 <= i < draws.len() ==> !s.fails(#[trigger] draws[i]),
    ensures
        run.len() == draws.len(),
        forall|i: int|
            0 <= i < draws.len() ==> #[trigger] run[i] == Ok::<Seq<char>, TrieErr>(
                s.drawn_word(draws[i]),
            ),
    decreases draws.len(),
{
    if draws.len() > 0 {
        let rest = draws.skip(1);
        assert forall|i: int| 0 <= i < rest.len() implies !s.fails(#[trigger] rest[i]) by {
            assert(rest[i] == draws[i + 1]);
        }
        lemma_follows_plain(s, rest, run.skip(1));
        assert forall|i: int| 0 <= i < draws.len() implies #[trigger] run[i] == Ok::<
            Seq<char>,
            TrieErr,
        >(s.drawn_word(draws[i])) by {
            if i > 0 {
                assert(run[i] == run.skip(1)[i - 1]);
                assert(draws[i] == rest[i - 1]);
            }
        }
    }
}

/// A run of a pipeline with a punctuation stage, none of whose draws fails,
/// hands out what a run of the punctuation stage makes of the drawn words
/// and the drawn rules.
pub proof fn lemma_follows_punctuated(
    s: Stages,
    draws: Seq<Draw>,
    run: Seq<Result<Seq<char>, TrieErr>>,
)
    requires
        s.follows(draws, run),
        s.punctuation is Some,
        forall|i: int| 0 <= i < draws.len() ==> !s.fails(#[trigger] draws[i]),
    ensures
        run.len() == draws.len(),
        forall|i: int|
            0 <= i < draws.len() ==> #[trigger] run[i] == Ok::<Seq<char>, TrieErr>(
                punctuated_run(drawn_words(s, draws), drawn_rules(draws), s.capital)[i],
            ),
    decreases draws.len(),
{
    let words = drawn_words(s, draws);
    let rules = drawn_rules(draws);
    lemma_run_len(words, rules, s.capital);
    if draws.len() > 0 {
        let next = s.after(draws[0]);
        let rest = draws.skip(1);
        assert forall|i: int| 0 <= i < rest.len() implies !next.fails(#[trigger] rest[i]) by {
            assert(rest[i] == draws[i + 1]);
            assert(!s.fails(draws[i + 1]));
        }
        lemma_follows_punctuated(next, rest, run.skip(1));
        assert(drawn_words(next, rest) =~= words.skip(1));
        assert(drawn_rules(rest) =~= rules.skip(1));
        lemma_run_len(words.skip(1), rules.skip(1), next.capital);
        let made = punctuated_run(words, rules, s.capital);
        let later = punctuated_run(words.skip(1), rules.skip(1), capital_follows(rules[0]));
        assert(made == seq![punctuated(words[0], s.capital, rules[0])] + later);
        assert forall|i: int| 0 <= i < draws.len() implies #[trigger] run[i] == Ok::<
            Seq<char>,
            TrieErr,
        >(made[i]) by {
            if i > 0 {
                assert(run[i] == run.skip(1)[i - 1]);
                assert(made[i] == later[i - 1]);
            }
        }
    }
}

/// A run of the punctuation stage over answers that are all words hands out
/// what a run of the stage makes of these words; and every rule is one that
/// chance can decide on.
pub proof fn lemma_punctuation_run_words(
    chance: Chance,
    capital: bool,
    inner: Seq<Result<Seq<char>, TrieErr>>,
    rules: Seq<Option<PunctuationType>>,
    run: Seq<Result<Seq<char>, TrieErr>>,
)
    requires
        punctuation_run(chance, capital, inner, rules, run),
        forall|i: int| 0 <= i < inner.len() ==> (#[trigger] inner[i]) is Ok,
    ensures
        run.len() == inner.len(),
        rules.len() == inner.len(),
        forall|i: int| 0 <= i < inner.len() ==> rule_allowed(chance, #[trigger] rules[i]),
        forall|i: int|
            0 <= i < inner.len() ==> #[trigger] run[i] == Ok::<Seq<char>, TrieErr>(
                punctuated_run(run_words(inner), rules, capital)[i],
            ),
    decreases inner.len(),
{
    let words = run_words(inner);
    lemma_run_len(words, rules, capital);
    if inner.len() > 0 {
        let next = capital_after(capital, inner[0], rules[0]);
        let rest = inner.skip(1);
        assert(inner[0] is Ok);
        assert forall|i: int| 0 <= i < rest.len() implies (#[trigger] rest[i]) is Ok by {
            assert(rest[i] == inner[i + 1]);
        }
        lemma_punctuation_run_words(chance, next, rest, rules.skip(1), run.skip(1));
        assert(run_words(rest) =~= words.skip(1));
        lemma_run_len(words.skip(1), rules.skip(1), next);
        let made = punctuated_run(words, rules, capital);
        let later = punctuated_run(words.skip(1), rules.skip(1), capital_follows(rules[0]));
        assert(made == seq![punctuated(words[0], capital, rules[0])] + later);
        assert forall|i: int| 0 <= i < inner.len() implies rule_allowed(
            chance,
            #[trigger] rules[i],
        ) by {
            if i > 0 {
                assert(rules[i] == rules.skip(1)[i - 1]);
            }
        }
        assert forall|i: int| 0 <= i < inner.len() implies #[trigger] run[i] == Ok::<
            Seq<char>,
            TrieErr,
        >(made[i]) by {
            if i > 0 {
                assert(run[i] == run.skip(1)[i - 1]);
                assert(made[i] == later[i - 1]);
            }
        }
    }
}

/// The stages of word selection in their order: a raw selector draws a word
/// of the corpus; the numbers stage, if there is one, puts a number in place
/// of some of the words; the punctuation stage, if there is one, puts marks
/// and capitals around what the stages before it hand out, numbers included.
pub struct Pipeline {
    raw: RawWordSelector,
    numbers: Option<NumberStage>,
    punctuation: Option<Chance>,
    next_is_capital: bool,
}

impl View for Pipeline {
    type V = Stages;

    closed spec fn view(&self) -> Stages {
        Stages {
            corpus: self.raw@,
            numbers: self.numbers,
            punctuation: self.punctuation,
            capital: self.next_is_capital,
        }
    }
}

impl Pipeline {
    /// The pipeline around `raw`, with the numbers stage `numbers`, if any,
    /// and a punctuation stage of the chance `punctuation`, if any. A capital
    /// is due for the first word.
    pub fn new(
        raw: RawWordSelector,
        numbers: Option<NumberStage>,
        punctuation: Option<Chance>,
    ) -> (r: Self)
        ensures
            r@ == (Stages { corpus: raw@, numbers, punctuation, capital: true }),
    {
        Pipeline { raw, numbers, punctuation, next_is_capital: true }
    }

    /// The word of the pipeline for what chance decided: the word that the
    /// draw stands for, punctuated with its rule. Fails if and only if the
    /// word is to come from a corpus that holds none; nothing changes then.
    pub fn word_for(&mut self, draw: Draw) -> (r: Result<String, TrieErr>)
        ensures
            answer_of(r) == old(self)@.answer(draw),
            final(self)@ == old(self)@.after(draw),
    {
        let number = match (self.numbers, draw.number) {
            (Some(stage), Some(number)) => if number < stage.max {
                Some(number)
            } else {
                None
            },
            _ => None,
        };
        let word = match number {
            Some(number) => NumberGeneratingWordSelector::numeral(number),
            None => self.raw.word_at(draw.rank)?,
        };
        if self.punctuation.is_none() {
            return Ok(word);
        }
        let (text, next) = punctuate(word.as_str(), self.next_is_capital, draw.rule);
        self.next_is_capital = next;
        Ok(text)
    }
}

impl WordSelector for Pipeline {
    /// The runs that the pipeline can give: its answers for draws that
    /// chance can decide on, one after the other.
    open spec fn runs(&self, run: Seq<Result<Seq<char>, TrieErr>>) -> bool {
        exists|draws: Seq<Draw>| #[trigger] self@.follows(draws, run)
    }

    /// A word that went through the stages: drawn from the corpus, or a
    /// number in its place, and then punctuated, all as chance decides.
    /// Fails only where the corpus holds no word and no number stands in its
    /// place; nothing changes then.
    fn new_word(&mut self) -> (r: Result<String, TrieErr>)
        ensures
            exists|draw: Draw|
                {
                    &&& #[trigger] old(self)@.allows(draw)
                    &&& answer_of(r) == old(self)@.answer(draw)
                    &&& final(self)@ == old(self)@.after(draw)
                },
    {
        let mut rng = thread_rng();
        let number = match self.numbers {
            Some(stage) => draw_number(&mut rng, &stage.chance, stage.max),
            None => None,
        };
        let rank = if number.is_none() {
            self.raw.draw_rank(&mut rng)
        } else {
            0
        };
        let rule = match self.punctuation {
            Some(chance) => draw_rule(&mut rng, &chance),
            None => None,
        };
        let draw = Draw { number, rank, rule };
        proof {
            assert(old(self)@.allows(draw));
        }
        let r = self.word_for(draw);
        proof {
            let a = answer_of(r);
            assert(self@.follows(Seq::empty(), Seq::empty()));
            assert forall|rest: Seq<Result<Seq<char>, TrieErr>>| #[trigger]
                self.runs(rest) implies old(self).runs(seq![a] + rest) by {
                let draws_rest = choose|draws: Seq<Draw>| #[trigger] self@.follows(draws, rest);
                let draws = seq![draw] + draws_rest;
                let run = seq![a] + rest;
                assert(draws.skip(1) =~= draws_rest);
                assert(run.skip(1) =~= rest);
                assert(old(self)@.follows(draws, run));
            }
        }
        r
    }
}

/// The words that the punctuation stage hands out for the words `words` of
/// the selector inside, where `rules` tells for each word which rule was
/// chosen, if any, and `capitalize` whether a capital is due at the start.
pub open spec fn punctuated_run(
    words: Seq<Seq<char>>,
    rules: Seq<Option<PunctuationType>>,
    capitalize: bool,
) -> Seq<Seq<char>>
    decreases words.len(),
{
    if words.len() == 0 {
        Seq::empty()
    } else {
        seq![punctuated(words[0], capitalize, rules[0])] + punctuated_run(
            words.skip(1),
            rules.skip(1),
            capital_follows(rules[0]),
        )
    }
}

/// In a run of the punctuation stage, a word gets a capital exactly if it is
/// the first one and a capital was due at the start, or the word before it
/// got a mark that ends a sentence.
pub proof fn lemma_capitals_carry(
    words: Seq<Seq<char>>,
    rules: Seq<Option<PunctuationType>>,
    capitalize: bool,
    i: int,
)
    requires
        rules.len() == words.len(),
        0 <= i < words.len(),
    ensures
        punctuated_run(words, rules, capitalize).len() == words.len(),
        punctuated_run(words, rules, capitalize)[i] == punctuated(
            words[i],
            if i == 0 {
                capitalize
            } else {
                capital_follows(rules[i - 1])
            },
            rules[i],
        ),
    decreases words.len(),
{
    lemma_run_len(words, rules, capitalize);
    if i > 0 {
        lemma_capitals_carry(words.skip(1), rules.skip(1), capital_follows(rules[0]), i - 1);
        lemma_run_len(words.skip(1), rules.skip(1), capital_follows(rules[0]));
    }
}

/// A run of the punctuation stage hands out one word for each word that it
/// takes.
pub proof fn lemma_run_len(
    words: Seq<Seq<char>>,
    rules: Seq<Option<PunctuationType>>,
    capitalize: bool,
)
    ensures
        punctuated_run(words, rules, capitalize).len() == words.len(),
    decreases words.len(),
{
    if words.len() > 0 {
        lemma_run_len(words.skip(1), rules.skip(1), capital_follows(rules[0]));
    }
}

/// Without punctuation, and with a capital due at the start, the first word
/// of a run gets a capital and every other word stays as it is.
pub proof fn lemma_capital_at_start_only(words: Seq<Seq<char>>, rules: Seq<Option<PunctuationType>>)
    requires
        rules.len() == words.len(),
        forall|i: int| 0 <= i < rules.len() ==> rules[i] is None,
    ensures
        punctuated_run(words, rules, true).len() == words.len(),
        forall|i: int|
            0 <= i < words.len() ==> #[trigger] punctuated_run(words, rules, true)[i] == if i == 0 {
                capitalized(words[0])
            } else {
                words[i]
            },
{
    lemma_run_len(words, rules, true);
    assert forall|i: int| 0 <= i < words.len() implies #[trigger] punctuated_run(
        words,
        rules,
        true,
    )[i] == if i == 0 {
        capitalized(words[0])
    } else {
        words[i]
    } by {
        lemma_capitals_carry(words, rules, true, i);
    }
}

} // verus!
