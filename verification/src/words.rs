//! Cutting text into pieces and reading and writing whole numbers in it.

use vstd::prelude::*;
use crate::views::views;
use crate::text::{chars_of, is_digit, is_white_space, string_of};

verus! {

/// `s` without the white space that it starts with.
pub open spec fn trim_start(s: Seq<char>) -> Seq<char>
    decreases s.len(),
{
    if s.len() > 0 && is_white_space(s[0]) {
        trim_start(s.drop_first())
    } else {
        s
    }
}

/// `s` without the white space that it ends with.
pub open spec fn trim_end(s: Seq<char>) -> Seq<char>
    decreases s.len(),
{
    if s.len() > 0 && is_white_space(s.last()) {
        trim_end(s.drop_last())
    } else {
        s
    }
}

/// `s` without the white space at its two ends.
pub open spec fn trimmed(s: Seq<char>) -> Seq<char> {
    trim_end(trim_start(s))
}

/// The text without the white space at its two ends.
pub fn trim(s: &str) -> (r: String)
    ensures
        r@ == trimmed(s@),
{
    let chars: Vec<char> = chars_of(s);
    let mut from: usize = 0;
    proof {
        assert(s@.subrange(0, s@.len() as int) =~= s@);
    }
    while from < chars.len() && chars[from].is_whitespace()
        invariant
            from <= chars@.len(),
            chars@ == s@,
            trim_start(s@) == trim_start(s@.subrange(from as int, s@.len() as int)),
        ensures
            from <= chars@.len(),
            trim_start(s@) == s@.subrange(from as int, s@.len() as int),
        decreases chars@.len() - from,
    {
        proof {
            assert(s@.subrange(from as int, s@.len() as int).drop_first() =~= s@.subrange(
                from + 1,
                s@.len() as int,
            ));
        }
        from += 1;
    }
    let mut to: usize = chars.len();
    while to > from && chars[to - 1].is_whitespace()
        invariant
            from <= to <= chars@.len(),
            chars@ == s@,
            trim_end(trim_start(s@)) == trim_end(s@.subrange(from as int, to as int)),
        ensures
            from <= to <= chars@.len(),
            trim_end(trim_start(s@)) == s@.subrange(from as int, to as int),
        decreases to - from,
    {
        proof {
            assert(s@.subrange(from as int, to as int).drop_last() =~= s@.subrange(from as int, to - 1));
        }
        to -= 1;
    }
    string_of(&chars, from, to)
}

/// Whether a text is empty or white space throughout.
pub open spec fn is_blank(s: Seq<char>) -> bool {
    forall|i: int| 0 <= i < s.len() ==> is_white_space(#[trigger] s[i])
}

/// Whether a text is empty or white space throughout.
pub fn blank(s: &str) -> (r: bool)
    ensures
        r == is_blank(s@),
{
    for c in it: s.chars()
        invariant
            it.seq() == s@,
            forall|i: int| 0 <= i < it.index() ==> is_white_space(#[trigger] s@[i]),
    {
        if !c.is_whitespace() {
            proof {
                assert(s@[it.index() as int] == c);
            }
            return false;
        }
    }
    true
}

/// The state of cutting a text into words: the words that are complete, and
/// the characters of the one that is not.
pub struct WordsView {
    pub complete: Seq<Seq<char>>,
    pub open: Seq<char>,
}

/// Where cutting `s` into words stands after its last character.
pub open spec fn words_state(s: Seq<char>) -> WordsView
    decreases s.len(),
{
    if s.len() == 0 {
        WordsView { complete: Seq::empty(), open: Seq::empty() }
    } else {
        let before = words_state(s.drop_last());
        if !is_white_space(s.last()) {
            WordsView { complete: before.complete, open: before.open.push(s.last()) }
        } else if before.open.len() == 0 {
            before
        } else {
            WordsView { complete: before.complete.push(before.open), open: Seq::empty() }
        }
    }
}

/// The maximal runs of characters of `s` that are not white space, in order.
pub open spec fn words_of(s: Seq<char>) -> Seq<Seq<char>> {
    let state = words_state(s);
    if state.open.len() == 0 {
        state.complete
    } else {
        state.complete.push(state.open)
    }
}

/// The words of a text, separated by white space.
pub fn split_whitespace(s: &str) -> (r: Vec<String>)
    ensures
        views(r@) == words_of(s@),
{
    let mut words: Vec<String> = Vec::new();
    let mut open: String = String::new();
    let mut filled: bool = false;
    for c in it: s.chars()
        invariant
            it.seq() == s@,
            views(words@) == words_state(s@.take(it.index() as int)).complete,
            open@ == words_state(s@.take(it.index() as int)).open,
            filled == (open@.len() > 0),
    {
        proof {
            assert(s@.take(it.index() + 1).drop_last() =~= s@.take(it.index() as int));
        }
        if !c.is_whitespace() {
            open.push(c);
            filled = true;
        } else if filled {
            let ghost before = words@;
            let ghost word = open;
            words.push(open);
            proof {
                assert(views(words@) =~= views(before).push(word@));
            }
            open = String::new();
            filled = false;
        }
    }
    proof {
        assert(s@.take(s@.len() as int) =~= s@);
    }
    if filled {
        let ghost before = words@;
        let ghost word = open;
        words.push(open);
        proof {
            assert(views(words@) =~= views(before).push(word@));
        }
    }
    words
}

/// The pieces of `s` between the occurrences of `sep`; one more than there
/// are occurrences.
pub open spec fn pieces_of(s: Seq<char>, sep: char) -> Seq<Seq<char>>
    decreases s.len(),
{
    if s.len() == 0 {
        seq![Seq::empty()]
    } else {
        let before = pieces_of(s.drop_last(), sep);
        if s.last() == sep {
            before.push(Seq::empty())
        } else {
            before.drop_last().push(before.last().push(s.last()))
        }
    }
}

/// The pieces of a text between the occurrences of `sep`.
pub fn split_char(s: &str, sep: char) -> (r: Vec<String>)
    ensures
        views(r@) == pieces_of(s@, sep),
{
    let mut pieces: Vec<String> = Vec::new();
    let mut last: String = String::new();
    for c in it: s.chars()
        invariant
            it.seq() == s@,
            views(pieces@).push(last@) == pieces_of(s@.take(it.index() as int), sep),
    {
        let ghost before = views(pieces@).push(last@);
        proof {
            assert(s@.take(it.index() + 1).drop_last() =~= s@.take(it.index() as int));
            assert(before.last() == last@);
            assert(before.drop_last() =~= views(pieces@));
        }
        if c == sep {
            let ghost piece = last;
            let ghost done = pieces@;
            pieces.push(last);
            last = String::new();
            proof {
                assert(views(pieces@) =~= views(done).push(piece@));
                assert(last@ =~= Seq::empty());
            }
        } else {
            last.push(c);
        }
    }
    proof {
        assert(s@.take(s@.len() as int) =~= s@);
    }
    let ghost piece = last;
    let ghost done = pieces@;
    pieces.push(last);
    proof {
        assert(views(pieces@) =~= views(done).push(piece@));
    }
    pieces
}

/// The pieces joined by `sep`.
pub open spec fn joined(pieces: Seq<Seq<char>>, sep: Seq<char>) -> Seq<char>
    decreases pieces.len(),
{
    if pieces.len() == 0 {
        Seq::empty()
    } else if pieces.len() == 1 {
        pieces[0]
    } else {
        joined(pieces.drop_last(), sep) + sep + pieces.last()
    }
}

/// The pieces joined by `sep`.
pub fn join(pieces: &Vec<String>, sep: &str) -> (r: String)
    ensures
        r@ == joined(views(pieces@), sep@),
{
    let mut r: String = String::new();
    let mut i: usize = 0;
    while i < pieces.len()
        invariant
            i <= pieces@.len(),
            r@ == joined(views(pieces@).take(i as int), sep@),
        decreases pieces@.len() - i,
    {
        proof {
            assert(views(pieces@).take(i + 1).drop_last() =~= views(pieces@).take(i as int));
            assert(views(pieces@).take(i + 1).last() == pieces@[i as int]@);
            assert(Seq::<char>::empty() + pieces@[i as int]@ =~= pieces@[i as int]@);
        }
        if i > 0 {
            r.append(sep);
        }
        r.append(pieces[i].as_str());
        i += 1;
    }
    proof {
        assert(views(pieces@).take(pieces@.len() as int) =~= views(pieces@));
    }
    r
}

/// The digit that stands for `d`.
pub open spec fn digit_char(d: nat) -> char {
    (48 + d) as char
}

/// `n` in decimal, without leading zeros.
pub open spec fn decimal_text(n: nat) -> Seq<char>
    decreases n,
{
    if n < 10 {
        seq![digit_char(n)]
    } else {
        decimal_text(n / 10).push(digit_char(n % 10))
    }
}

/// `n` in decimal, without leading zeros.
pub fn decimal(n: u64) -> (r: String)
    ensures
        r@ == decimal_text(n as nat),
    decreases n,
{
    let digit: u8 = 48 + (n % 10) as u8;
    if n < 10 {
        let mut r: String = String::new();
        r.push(digit as char);
        proof {
            assert(r@ =~= decimal_text(n as nat));
        }
        r
    } else {
        let mut r: String = decimal(n / 10);
        r.push(digit as char);
        r
    }
}

/// A whole number in decimal, with a minus sign where it is negative.
pub open spec fn signed_text(n: int) -> Seq<char> {
    if n < 0 {
        "-"@ + decimal_text((-n) as nat)
    } else {
        decimal_text(n as nat)
    }
}

/// A whole number in decimal, with a minus sign where it is negative.
pub fn signed(n: i32) -> (r: String)
    ensures
        r@ == signed_text(n as int),
{
    if n < 0 {
        let mut r: String = "-".to_owned();
        r.append(decimal((-(n as i64)) as u64).as_str());
        r
    } else {
        decimal(n as u64)
    }
}

/// The number that a text of digits writes in decimal.
pub open spec fn decimal_value(s: Seq<char>) -> nat
    decreases s.len(),
{
    if s.len() == 0 {
        0
    } else {
        decimal_value(s.drop_last()) * 10 + (s.last() as u32 - 48) as nat
    }
}

/// `s` without one leading plus sign.
pub open spec fn without_plus(s: Seq<char>) -> Seq<char> {
    if s.len() > 0 && s[0] == '+' {
        s.drop_first()
    } else {
        s
    }
}

/// `s` is digits throughout, and not empty.
pub open spec fn all_digits(s: Seq<char>) -> bool {
    s.len() > 0 && forall|i: int| 0 <= i < s.len() ==> is_digit(#[trigger] s[i])
}

/// The number that `s` writes, if it is a decimal number of at most `max`: one
/// or more digits, after an optional plus sign.
pub open spec fn parsed_number(s: Seq<char>, max: nat) -> Option<nat> {
    let digits = without_plus(s);
    if all_digits(digits) && decimal_value(digits) <= max {
        Some(decimal_value(digits))
    } else {
        None
    }
}

/// A longer run of digits writes no smaller number.
proof fn lemma_decimal_value_grows(s: Seq<char>, i: int)
    requires
        all_digits(s),
        0 <= i <= s.len(),
    ensures
        decimal_value(s.take(i)) <= decimal_value(s),
    decreases s.len() - i,
{
    if i < s.len() {
        lemma_decimal_value_grows(s, i + 1);
        assert(s.take(i + 1).drop_last() =~= s.take(i));
        assert(is_digit(s[i]));
    } else {
        assert(s.take(i) =~= s);
    }
}

/// Reads a decimal number of at most `max`.
pub fn parse_number(s: &str, max: u64) -> (r: Option<u64>)
    ensures
        match r {
            Some(n) => parsed_number(s@, max as nat) == Some(n as nat),
            None => parsed_number(s@, max as nat) is None,
        },
{
    let chars: Vec<char> = chars_of(s);
    let mut i: usize = 0;
    if chars.len() > 0 && chars[0] == '+' {
        i = 1;
    }
    let ghost digits = without_plus(s@);
    let ghost start = i as int;
    proof {
        assert(digits =~= s@.subrange(start, s@.len() as int));
    }
    if i == chars.len() {
        return None;
    }
    let mut n: u64 = 0;
    while i < chars.len()
        invariant
            0 <= start <= i <= chars@.len(),
            start < chars@.len(),
            chars@ == s@,
            digits == without_plus(s@),
            digits == s@.subrange(start, s@.len() as int),
            forall|j: int| 0 <= j < i - start ==> is_digit(#[trigger] digits[j]),
            n as nat == decimal_value(digits.take(i - start)),
            n <= max,
        decreases chars@.len() - i,
    {
        let c: char = chars[i];
        proof {
            assert(digits[i - start] == c);
            assert(digits.take(i - start + 1).drop_last() =~= digits.take(i - start));
        }
        if !('0' <= c && c <= '9') {
            return None;
        }
        let d: u64 = (c as u32 - 48) as u64;
        if n > max / 10 || d > max - n * 10 {
            proof {
                if all_digits(digits) {
                    lemma_decimal_value_grows(digits, i - start + 1);
                    assert(decimal_value(digits) > max);
                }
            }
            return None;
        }
        n = n * 10 + d;
        i += 1;
    }
    proof {
        assert(digits.take(digits.len() as int) =~= digits);
    }
    Some(n)
}

} // verus!
