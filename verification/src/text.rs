//! Small text helpers: characters into strings, numbers into decimal.

use vstd::prelude::*;
use vstd::string::StringExecFns;

verus! {

/// The decimal digit for `d`, which is below ten.
pub open spec fn digit(d: nat) -> char {
    ((48 + d) as u8) as char
}

/// The decimal numeral of `n`, without leading zeros.
pub open spec fn decimal(n: nat) -> Seq<char>
    decreases n,
{
    if n < 10 {
        seq![digit(n)]
    } else {
        decimal(n / 10).push(digit(n % 10))
    }
}

/// `String::from` on a character: the string that holds just that character.
#[verifier::external_body]
pub(crate) fn char_to_string(c: char) -> (s: String)
    ensures
        s@ == seq![c],
{
    String::from(c)
}

/// The decimal numeral of `n` as a string.
pub fn decimal_string(n: u64) -> (s: String)
    ensures
        s@ == decimal(n as nat),
    decreases n,
{
    if n < 10 {
        let d: u8 = 48 + (n as u8);
        char_to_string(d as char)
    } else {
        let mut s = decimal_string(n / 10);
        let d: u8 = 48 + ((n % 10) as u8);
        let last = char_to_string(d as char);
        s.append(last.as_str());
        s
    }
}

/// The upper-case form of a character, which may be more than one character.
pub uninterp spec fn uppercase(c: char) -> Seq<char>;

/// `char::to_uppercase`: the upper-case form of `c` as a string. That form
/// depends on the character alone.
#[verifier::external_body]
pub(crate) fn char_to_uppercase(c: char) -> (s: String)
    ensures
        s@ == uppercase(c),
{
    c.to_uppercase().collect()
}

/// The lower-case form of `c` if it is an ASCII capital letter, else `c`.
pub open spec fn ascii_lower(c: char) -> char {
    if 'A' <= c <= 'Z' {
        ((c as u8) + 32) as char
    } else {
        c
    }
}

/// The lower-case form of `c` if it is an ASCII capital letter, else `c`.
pub fn char_to_ascii_lowercase(c: char) -> (r: char)
    ensures
        r == ascii_lower(c),
{
    if 'A' <= c && c <= 'Z' {
        let b: u8 = (c as u8) + 32;
        b as char
    } else {
        c
    }
}

/// `s` with its ASCII capital letters in lower case.
pub fn to_ascii_lowercase(s: &str) -> (r: String)
    ensures
        r@ == s@.map_values(|c: char| ascii_lower(c)),
{
    let mut r = String::new();
    for c in it: s.chars()
        invariant
            it.seq() == s@,
            r@ == s@.take(it.index() as int).map_values(|c: char| ascii_lower(c)),
    {
        let one = char_to_string(char_to_ascii_lowercase(c));
        r.append(one.as_str());
        proof {
            assert(s@.take(it.index() + 1) =~= s@.take(it.index() as int).push(c));
            assert(r@ =~= s@.take(it.index() + 1).map_values(|c: char| ascii_lower(c)));
        }
    }
    proof {
        assert(s@.take(s@.len() as int) =~= s@);
    }
    r
}

/// Whether `c` is white space: one of the characters that Unicode lists as
/// White_Space.
pub open spec fn is_whitespace(c: char) -> bool {
    let u = c as u32;
    ||| 0x09 <= u <= 0x0d
    ||| u == 0x20
    ||| u == 0x85
    ||| u == 0xa0
    ||| u == 0x1680
    ||| 0x2000 <= u <= 0x200a
    ||| u == 0x2028
    ||| u == 0x2029
    ||| u == 0x202f
    ||| u == 0x205f
    ||| u == 0x3000
}

/// Whether `c` is white space.
pub fn char_is_whitespace(c: char) -> (r: bool)
    ensures
        r == is_whitespace(c),
{
    let u = c as u32;
    (0x09 <= u && u <= 0x0d) || u == 0x20 || u == 0x85 || u == 0xa0 || u == 0x1680 || (0x2000 <= u
        && u <= 0x200a) || u == 0x2028 || u == 0x2029 || u == 0x202f || u == 0x205f || u == 0x3000
}

/// The words that are left of `s` once the word `current` has been begun:
/// white space ends a word, and a word without characters is none.
pub open spec fn words_after(s: Seq<char>, current: Seq<char>) -> Seq<Seq<char>>
    decreases s.len(),
{
    let done = if current.len() == 0 {
        Seq::<Seq<char>>::empty()
    } else {
        seq![current]
    };
    if s.len() == 0 {
        done
    } else if is_whitespace(s[0]) {
        done + words_after(s.skip(1), Seq::empty())
    } else {
        words_after(s.skip(1), current.push(s[0]))
    }
}

/// The words of `s`: its maximal runs of characters that are not white space,
/// in order.
pub open spec fn words_of(s: Seq<char>) -> Seq<Seq<char>> {
    words_after(s, Seq::empty())
}

/// The words of `s`, split at white space.
pub fn split_whitespace(s: &str) -> (words: Vec<String>)
    ensures
        words.deep_view() == words_of(s@),
{
    let mut words: Vec<String> = Vec::new();
    let mut current = String::new();
    proof {
        assert(s@.skip(0) =~= s@);
        assert(words.deep_view() =~= Seq::<Seq<char>>::empty());
        assert(words.deep_view() + words_of(s@) =~= words_of(s@));
    }
    for c in it: s.chars()
        invariant
            it.seq() == s@,
            words.deep_view() + words_after(s@.skip(it.index() as int), current@) == words_of(s@),
    {
        let ghost rest = s@.skip(it.index() as int);
        let ghost before = words.deep_view();
        let ghost begun = current@;
        let ghost target = words_of(s@);
        proof {
            assert(rest[0] == c);
            assert(rest.skip(1) =~= s@.skip(it.index() + 1));
            assert(before + words_after(rest, begun) == target);
        }
        if char_is_whitespace(c) {
            if !current.as_str().is_empty() {
                let ghost word = current@;
                words.push(current);
                current = String::new();
                proof {
                    assert(words.deep_view() =~= before + seq![word]);
                    assert(words_after(rest, begun) == seq![word] + words_after(
                        rest.skip(1),
                        Seq::empty(),
                    ));
                    assert(before + (seq![word] + words_after(rest.skip(1), Seq::empty()))
                        =~= (before + seq![word]) + words_after(rest.skip(1), Seq::empty()));
                    assert(words.deep_view() + words_after(rest.skip(1), current@) == target);
                }
            } else {
                proof {
                    assert(words_after(rest, begun) == Seq::<Seq<char>>::empty() + words_after(
                        rest.skip(1),
                        Seq::empty(),
                    ));
                    assert(Seq::<Seq<char>>::empty() + words_after(rest.skip(1), Seq::empty())
                        =~= words_after(rest.skip(1), Seq::empty()));
                    assert(current@ =~= Seq::<char>::empty());
                    assert(words.deep_view() + words_after(rest.skip(1), current@) == target);
                }
            }
        } else {
            let one = char_to_string(c);
            current.append(one.as_str());
            proof {
                assert(current@ =~= begun.push(c));
                assert(words_after(rest, begun) == words_after(rest.skip(1), begun.push(c)));
                assert(words.deep_view() + words_after(rest.skip(1), current@) == target);
            }
        }
    }
    if !current.as_str().is_empty() {
        let ghost before = words.deep_view();
        let ghost word = current@;
        words.push(current);
        proof {
            assert(words.deep_view() =~= before + seq![word]);
        }
    } else {
        proof {
            assert(words.deep_view() + Seq::<Seq<char>>::empty() =~= words.deep_view());
        }
    }
    words
}

} // verus!
