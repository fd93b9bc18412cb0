//! The stream of corpus words: the lines of a word list, cut into words.

use vstd::prelude::*;
use crate::text::{ascii_lower, split_whitespace, to_ascii_lowercase, words_of};

verus! {

/// The lines of a word list, each of them read or failed, and how to cut
/// them into words.
pub struct WordStream<E> {
    lines: Vec<Result<String, E>>,
    is_quote_mode: bool,
}

/// An item of a stream as a value: the characters of a string that was read,
/// or the failure to read it.
pub open spec fn item_view<E>(item: Result<String, E>) -> Result<Seq<char>, E> {
    match item {
        Ok(s) => Ok(s@),
        Err(e) => Err(e),
    }
}

/// The items `items` as values.
pub open spec fn items_view<E>(items: Seq<Result<String, E>>) -> Seq<Result<Seq<char>, E>> {
    Seq::new(items.len(), |i: int| item_view(items[i]))
}

/// The words `words` as items that were read.
pub open spec fn read_items<E>(words: Seq<Seq<char>>) -> Seq<Result<Seq<char>, E>> {
    Seq::new(words.len(), |i: int| Ok(words[i]))
}

/// What a line gives to the stream: in quote mode the line itself; else its
/// words, in lower case as far as ASCII goes. A line that failed gives its
/// failure.
pub open spec fn line_items<E>(line: Result<Seq<char>, E>, is_quote_mode: bool) -> Seq<
    Result<Seq<char>, E>,
> {
    match line {
        Ok(text) => if is_quote_mode {
            seq![Ok(text)]
        } else {
            read_items(words_of(text.map_values(|c: char| ascii_lower(c))))
        },
        Err(e) => seq![Err(e)],
    }
}

/// What the lines `lines` give to the stream, in order.
pub open spec fn stream_items<E>(lines: Seq<Result<Seq<char>, E>>, is_quote_mode: bool) -> Seq<
    Result<Seq<char>, E>,
>
    decreases lines.len(),
{
    if lines.len() == 0 {
        Seq::empty()
    } else {
        stream_items(lines.drop_last(), is_quote_mode) + line_items(lines.last(), is_quote_mode)
    }
}

impl<E> WordStream<E> {
    /// The lines of the stream, as values.
    pub closed spec fn lines(&self) -> Seq<Result<Seq<char>, E>> {
        items_view(self.lines@)
    }

    /// Whether each line is one word of the stream.
    pub closed spec fn is_quote_mode(&self) -> bool {
        self.is_quote_mode
    }

    /// The stream of the lines `lines`, in quote mode or not.
    pub fn new(lines: Vec<Result<String, E>>, is_quote_mode: bool) -> (stream: Self)
        ensures
            stream.lines() == items_view(lines@),
            stream.is_quote_mode() == is_quote_mode,
    {
        WordStream { lines, is_quote_mode }
    }

    /// The items of the stream, in order: the words of the lines, and the
    /// failures of the lines that failed.
    pub fn into_iter(self) -> (items: Vec<Result<String, E>>)
        ensures
            items_view(items@) == stream_items(self.lines(), self.is_quote_mode()),
    {
        let is_quote_mode = self.is_quote_mode;
        let ghost lines = items_view(self.lines@);
        let mut items: Vec<Result<String, E>> = Vec::new();
        proof {
            assert(lines.take(0) =~= Seq::<Result<Seq<char>, E>>::empty());
            assert(items_view(items@) =~= Seq::<Result<Seq<char>, E>>::empty());
        }
        for line in it: self.lines
            invariant
                lines == items_view(it.seq()),
                items_view(items@) == stream_items(lines.take(it.index() as int), is_quote_mode),
        {
            let ghost before = items_view(items@);
            let ghost upto = lines.take(it.index() + 1);
            proof {
                assert(upto.drop_last() =~= lines.take(it.index() as int));
                assert(upto.last() == item_view(line));
            }
            match line {
                Ok(text) => {
                    if is_quote_mode {
                        items.push(Ok(text));
                        proof {
                            assert(items_view(items@) =~= before + line_items(
                                upto.last(),
                                is_quote_mode,
                            ));
                        }
                    } else {
                        let lower = to_ascii_lowercase(text.as_str());
                        let words = split_whitespace(lower.as_str());
                        let ghost all = words.deep_view();
                        proof {
                            assert(before + read_items::<E>(all.take(0)) =~= before);
                        }
                        for word in wit: words
                            invariant
                                wit.seq().len() == all.len(),
                                forall|j: int|
                                    0 <= j < all.len() ==> (#[trigger] wit.seq()[j])@ == all[j],
                                items_view(items@) == before + read_items::<E>(
                                    all.take(wit.index() as int),
                                ),
                        {
                            let ghost so_far = items_view(items@);
                            items.push(Ok(word));
                            proof {
                                assert(items_view(items@) =~= so_far.push(Ok(word@)));
                                assert(read_items::<E>(all.take(wit.index() + 1))
                                    =~= read_items::<E>(all.take(wit.index() as int)).push(
                                    Ok(word@),
                                ));
                                assert(items_view(items@) =~= before + read_items::<E>(
                                    all.take(wit.index() + 1),
                                ));
                            }
                        }
                        proof {
                            assert(all.take(all.len() as int) =~= all);
                        }
                    }
                },
                Err(e) => {
                    items.push(Err(e));
                    proof {
                        assert(items_view(items@) =~= before + line_items(
                            upto.last(),
                            is_quote_mode,
                        ));
                    }
                },
            }
        }
        proof {
            assert(lines.take(lines.len() as int) =~= lines);
        }
        items
    }
}

} // verus!
