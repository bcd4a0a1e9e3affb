//! Laws of cutting, joining and folding text, of decimal numbers, and of the
//! order of numbers of single precision.

use vstd::prelude::*;
use vstd::utf8::encode_utf8;
use crate::hashing::{blake3_hex, text_hash};
use crate::scores::Score;
use crate::text::{ascii_lower, folded, is_digit, is_white_space, lowercase};
use crate::words::{
    all_digits, decimal_text, decimal_value, joined, parsed_number, pieces_of, signed_text,
    trim_end, trim_start, trimmed, without_plus, words_of, words_state,
};

verus! {

/// The words of two texts that white space sets apart are those of the one,
/// followed by those of the other; a text without white space is one word, and
/// one of white space alone has none.
pub proof fn law_words_join(a: Seq<char>, space: char, b: Seq<char>)
    ensures
        is_white_space(space) ==> words_of(a.push(space) + b) == words_of(a) + words_of(b),
        a.len() > 0 && (forall|i: int| 0 <= i < a.len() ==> !is_white_space(#[trigger] a[i]))
            ==> words_of(a) == seq![a],
        (forall|i: int| 0 <= i < a.len() ==> is_white_space(#[trigger] a[i])) ==> words_of(a).len() == 0,
{
    if is_white_space(space) {
        lemma_words_join(a, space, b);
        assert(words_of(a.push(space) + b) =~= words_of(a) + words_of(b));
    }
    if forall|i: int| 0 <= i < a.len() ==> !is_white_space(#[trigger] a[i]) {
        lemma_one_word(a);
        if a.len() > 0 {
            assert(words_of(a) =~= seq![a]);
        }
    }
    if forall|i: int| 0 <= i < a.len() ==> is_white_space(#[trigger] a[i]) {
        lemma_no_word(a);
    }
}

proof fn lemma_words_join(a: Seq<char>, space: char, b: Seq<char>)
    requires
        is_white_space(space),
    ensures
        words_state(a.push(space) + b).complete == words_of(a) + words_state(b).complete,
        words_state(a.push(space) + b).open == words_state(b).open,
    decreases b.len(),
{
    let whole = a.push(space) + b;
    if b.len() == 0 {
        assert(whole =~= a.push(space));
        assert(whole.drop_last() =~= a);
        assert(words_state(whole).complete =~= words_of(a) + words_state(b).complete);
        assert(words_state(whole).open =~= words_state(b).open);
    } else {
        lemma_words_join(a, space, b.drop_last());
        assert(whole.drop_last() =~= a.push(space) + b.drop_last());
        assert(whole.last() == b.last());
        assert(words_state(whole).complete =~= words_of(a) + words_state(b).complete);
    }
}

proof fn lemma_one_word(a: Seq<char>)
    requires
        forall|i: int| 0 <= i < a.len() ==> !is_white_space(#[trigger] a[i]),
    ensures
        words_state(a).complete.len() == 0,
        words_state(a).open == a,
    decreases a.len(),
{
    if a.len() > 0 {
        let rest = a.drop_last();
        assert forall|i: int| 0 <= i < rest.len() implies !is_white_space(#[trigger] rest[i]) by {
            assert(rest[i] == a[i]);
        }
        assert(!is_white_space(a[a.len() - 1]));
        lemma_one_word(rest);
        assert(rest.push(a.last()) =~= a);
    } else {
        assert(a =~= Seq::<char>::empty());
    }
}

proof fn lemma_no_word(a: Seq<char>)
    requires
        forall|i: int| 0 <= i < a.len() ==> is_white_space(#[trigger] a[i]),
    ensures
        words_state(a).complete.len() == 0,
        words_state(a).open.len() == 0,
    decreases a.len(),
{
    if a.len() > 0 {
        let rest = a.drop_last();
        assert forall|i: int| 0 <= i < rest.len() implies is_white_space(#[trigger] rest[i]) by {
            assert(rest[i] == a[i]);
        }
        assert(is_white_space(a[a.len() - 1]));
        lemma_no_word(rest);
    }
}

/// The pieces of two texts that a separator sets apart are those of the one,
/// followed by those of the other; a text without the separator is one piece.
pub proof fn law_pieces_join(a: Seq<char>, sep: char, b: Seq<char>)
    ensures
        pieces_of(a.push(sep) + b, sep) == pieces_of(a, sep) + pieces_of(b, sep),
        !a.contains(sep) ==> pieces_of(a, sep) == seq![a],
{
    lemma_pieces_join(a, sep, b);
    if !a.contains(sep) {
        lemma_one_piece(a, sep);
    }
}

proof fn lemma_pieces_nonempty(s: Seq<char>, sep: char)
    ensures
        pieces_of(s, sep).len() > 0,
    decreases s.len(),
{
    if s.len() > 0 {
        lemma_pieces_nonempty(s.drop_last(), sep);
    }
}

proof fn lemma_pieces_join(a: Seq<char>, sep: char, b: Seq<char>)
    ensures
        pieces_of(a.push(sep) + b, sep) == pieces_of(a, sep) + pieces_of(b, sep),
    decreases b.len(),
{
    let whole = a.push(sep) + b;
    if b.len() == 0 {
        assert(whole =~= a.push(sep));
        assert(whole.drop_last() =~= a);
        assert(pieces_of(whole, sep) =~= pieces_of(a, sep) + pieces_of(b, sep));
    } else {
        lemma_pieces_join(a, sep, b.drop_last());
        lemma_pieces_nonempty(b.drop_last(), sep);
        assert(whole.drop_last() =~= a.push(sep) + b.drop_last());
        assert(whole.last() == b.last());
        assert(pieces_of(whole, sep) =~= pieces_of(a, sep) + pieces_of(b, sep));
    }
}

proof fn lemma_one_piece(a: Seq<char>, sep: char)
    requires
        !a.contains(sep),
    ensures
        pieces_of(a, sep) == seq![a],
    decreases a.len(),
{
    if a.len() > 0 {
        let rest = a.drop_last();
        assert(!rest.contains(sep)) by {
            if rest.contains(sep) {
                let i = choose|i: int| 0 <= i < rest.len() && rest[i] == sep;
                assert(a[i] == sep);
            }
        }
        assert(a[a.len() - 1] != sep);
        lemma_one_piece(rest, sep);
        assert(rest.push(a.last()) =~= a);
        assert(pieces_of(a, sep) =~= seq![a]);
    } else {
        assert(a =~= Seq::<char>::empty());
        assert(pieces_of(a, sep) =~= seq![a]);
    }
}

/// Pieces are joined with the separator between them, and none around them.
pub proof fn law_joined(pieces: Seq<Seq<char>>, last: Seq<char>, sep: Seq<char>)
    ensures
        joined(Seq::empty(), sep) == Seq::<char>::empty(),
        joined(seq![last], sep) == last,
        pieces.len() > 0 ==> joined(pieces.push(last), sep) == joined(pieces, sep) + sep + last,
{
    assert(pieces.push(last).drop_last() =~= pieces);
}

/// A trimmed text neither starts nor ends with white space, and only white space
/// was taken off either end.
pub proof fn law_trimmed(s: Seq<char>)
    ensures
        trimmed(s).len() > 0 ==> !is_white_space(trimmed(s)[0]) && !is_white_space(trimmed(s).last()),
        exists|a: int, b: int|
            0 <= a <= b <= s.len() && #[trigger] s.subrange(a, b) == trimmed(s) && (forall|i: int|
                0 <= i < a ==> is_white_space(#[trigger] s[i])) && (forall|i: int|
                b <= i < s.len() ==> is_white_space(#[trigger] s[i])),
{
    let a = lemma_trim_start(s);
    let t = trim_start(s);
    let b = lemma_trim_end(t);
    assert(s.subrange(a, a + b) =~= trimmed(s));
    assert forall|i: int| a + b <= i < s.len() implies is_white_space(#[trigger] s[i]) by {
        assert(t[i - a] == s[i]);
    }
}

proof fn lemma_trim_start(s: Seq<char>) -> (a: int)
    ensures
        0 <= a <= s.len(),
        trim_start(s) == s.skip(a),
        forall|i: int| 0 <= i < a ==> is_white_space(#[trigger] s[i]),
        trim_start(s).len() > 0 ==> !is_white_space(trim_start(s)[0]),
    decreases s.len(),
{
    if s.len() > 0 && is_white_space(s[0]) {
        let rest = s.drop_first();
        let a = lemma_trim_start(rest);
        assert(rest.skip(a) =~= s.skip(a + 1));
        assert forall|i: int| 0 <= i < a + 1 implies is_white_space(#[trigger] s[i]) by {
            if i > 0 {
                assert(rest[i - 1] == s[i]);
            }
        }
        a + 1
    } else {
        assert(s.skip(0) =~= s);
        0
    }
}

proof fn lemma_trim_end(s: Seq<char>) -> (b: int)
    ensures
        0 <= b <= s.len(),
        trim_end(s) == s.take(b),
        forall|i: int| b <= i < s.len() ==> is_white_space(#[trigger] s[i]),
        trim_end(s).len() > 0 ==> !is_white_space(trim_end(s).last()) && trim_end(s)[0] == s[0],
    decreases s.len(),
{
    if s.len() > 0 && is_white_space(s.last()) {
        let rest = s.drop_last();
        let b = lemma_trim_end(rest);
        assert(rest.take(b) =~= s.take(b));
        assert forall|i: int| b <= i < s.len() implies is_white_space(#[trigger] s[i]) by {
            if i < rest.len() {
                assert(rest[i] == s[i]);
            }
        }
        b
    } else {
        assert(s.take(s.len() as int) =~= s);
        s.len() as int
    }
}

/// A number that is written in decimal reads back, is made of digits, and starts
/// with no zero unless it is zero.
pub proof fn law_decimal_reads_back(n: nat)
    ensures
        decimal_value(decimal_text(n)) == n,
        all_digits(decimal_text(n)),
        n > 0 ==> decimal_text(n)[0] != '0',
    decreases n,
{
    if n >= 10 {
        law_decimal_reads_back(n / 10);
        let before = decimal_text(n / 10);
        let all = decimal_text(n);
        assert(all.drop_last() =~= before);
        assert(all[0] == before[0]);
        assert forall|i: int| 0 <= i < all.len() implies is_digit(#[trigger] all[i]) by {
            if i < before.len() {
                assert(is_digit(before[i]));
            }
        }
    } else {
        assert(decimal_text(n).drop_last() =~= Seq::<char>::empty());
        assert(decimal_value(Seq::<char>::empty()) == 0);
    }
}

/// A number in range that is written in decimal, with or without a plus sign, is
/// read as it is; and what is read is in range.
pub proof fn law_numbers_read_back(n: nat, max: nat, s: Seq<char>)
    ensures
        n <= max ==> parsed_number(decimal_text(n), max) == Some(n),
        n <= max ==> parsed_number(seq!['+'] + decimal_text(n), max) == Some(n),
        n > max ==> parsed_number(decimal_text(n), max) is None,
        parsed_number(s, max) is Some ==> parsed_number(s, max)->0 <= max && s.len() > 0,
{
    law_decimal_reads_back(n);
    let text = decimal_text(n);
    assert(is_digit(text[0]));
    assert(without_plus(text) == text);
    let signed = seq!['+'] + text;
    assert(signed[0] == '+');
    assert(signed.drop_first() =~= text);
}

/// A negative number is written with a minus sign before it.
pub proof fn law_signed_text(n: nat)
    ensures
        signed_text(n as int) == decimal_text(n),
        n > 0 ==> signed_text(-(n as int)) == "-"@ + decimal_text(n),
{
}

/// Folding a text turns its ASCII capitals into small letters, leaves the rest of
/// ASCII as it is, and takes Unicode's lowercase form of that.
pub proof fn law_folded(s: Seq<char>)
    ensures
        folded(s) == lowercase(ascii_lower(s)),
        ascii_lower(s).len() == s.len(),
        forall|i: int|
            0 <= i < s.len() ==> (if 'A' <= s[i] && s[i] <= 'Z' {
                (#[trigger] ascii_lower(s)[i]) as u32 == s[i] as u32 + 32
            } else {
                ascii_lower(s)[i] == s[i]
            }),
{
}

/// The hash of a text is that of its UTF-8 bytes.
pub proof fn law_text_hash(s: Seq<char>)
    ensures
        text_hash(s) == blake3_hex(encode_utf8(s)),
{
}

/// Numbers of single precision are ordered as their bit patterns are: upwards
/// among the positive ones, downwards among the negative ones, the negative ones
/// below the positive ones, the two zeros equal; and one that is no number is in
/// no order with any.
pub proof fn law_scores_are_ordered(a: Score, b: Score)
    ensures
        a.bits <= 0x7f80_0000 && b.bits <= 0x7f80_0000 ==> (a.lt(b) <==> a.bits < b.bits) && (a.le(b)
            <==> a.bits <= b.bits),
        0x8000_0000 <= a.bits <= 0xff80_0000 && 0x8000_0000 <= b.bits <= 0xff80_0000 ==> (a.lt(b)
            <==> b.bits < a.bits) && (a.le(b) <==> b.bits <= a.bits),
        0x8000_0000 <= a.bits <= 0xff80_0000 && b.bits <= 0x7f80_0000 ==> a.le(b) && (a.lt(b) <==> !(
        a.bits == 0x8000_0000 && b.bits == 0)),
        (0x7f80_0000 < a.bits < 0x8000_0000 || a.bits > 0xff80_0000) ==> !a.lt(b) && !b.lt(a) && !a.le(b)
            && !b.le(a) && a.is_nan(),
{
}

} // verus!
