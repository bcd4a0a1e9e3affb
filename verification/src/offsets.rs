//! Byte offsets into text: which characters they fall between.

use vstd::prelude::*;
use vstd::string::StringSliceAdditionalSpecFns;
use vstd::utf8::{encode_scalar, encode_utf8};
use crate::text::chars_of;

verus! {

/// The number of bytes that a character takes.
pub open spec fn width_of(c: char) -> nat {
    if c as u32 <= 0x7f {
        1
    } else if c as u32 <= 0x7ff {
        2
    } else if c as u32 <= 0xffff {
        3
    } else {
        4
    }
}

/// The number of bytes before the `i`-th character.
pub open spec fn byte_at(s: Seq<char>, i: int) -> nat
    decreases i,
{
    if i <= 0 {
        0
    } else {
        byte_at(s, i - 1) + width_of(s[i - 1])
    }
}

/// The number of bytes of a text.
pub open spec fn byte_len(s: Seq<char>) -> nat {
    byte_at(s, s.len() as int)
}

/// Offsets grow with positions.
pub proof fn lemma_byte_at_grows(s: Seq<char>, i: int, j: int)
    requires
        0 <= i <= j <= s.len(),
    ensures
        byte_at(s, i) <= byte_at(s, j),
        i < j ==> byte_at(s, i) < byte_at(s, j),
        byte_at(s, i) + (j - i) <= byte_at(s, j),
    decreases j - i,
{
    if i < j {
        lemma_byte_at_grows(s, i, j - 1);
    }
}

proof fn lemma_byte_at_shift(s: Seq<char>, i: int)
    requires
        0 < i <= s.len(),
    ensures
        byte_at(s, i) == width_of(s[0]) + byte_at(s.drop_first(), i - 1),
    decreases i,
{
    if i > 1 {
        lemma_byte_at_shift(s, i - 1);
        assert(s.drop_first()[i - 2] == s[i - 1]);
    } else {
        assert(byte_at(s, 0) == 0);
    }
}

/// The offset of the end is the length of the encoding.
pub proof fn lemma_byte_len(s: Seq<char>)
    ensures
        byte_len(s) == encode_utf8(s).len(),
    decreases s.len(),
{
    if s.len() > 0 {
        lemma_byte_len(s.drop_first());
        lemma_byte_at_shift(s, s.len() as int);
        let c = s[0];
        assert(encode_scalar(c as u32).len() == width_of(c)) by {
            vstd::utf8::char_is_scalar(c);
        }
    }
}

fn char_width(c: char) -> (r: usize)
    ensures
        r == width_of(c),
{
    let code: u32 = c as u32;
    if code <= 0x7f {
        1
    } else if code <= 0x7ff {
        2
    } else if code <= 0xffff {
        3
    } else {
        4
    }
}

/// A text with the offset of each of its characters, and that of its end.
pub struct Indexed {
    pub chars: Vec<char>,
    pub offsets: Vec<usize>,
}

impl Indexed {
    /// The offsets are those of the characters.
    pub open spec fn wf(&self) -> bool {
        &&& self.offsets@.len() == self.chars@.len() + 1
        &&& forall|i: int|
            0 <= i <= self.chars@.len() ==> #[trigger] self.offsets@[i] == byte_at(self.chars@, i)
    }

    /// Finds the offset of each character.
    pub fn new(s: &str) -> (r: Self)
        ensures
            r.wf(),
            r.chars@ == s@,
    {
        let chars: Vec<char> = chars_of(s);
        let bytes: &[u8] = s.as_bytes();
        let len: usize = bytes.len();
        proof {
            lemma_byte_len(s@);
        }
        let mut offsets: Vec<usize> = Vec::new();
        offsets.push(0);
        let mut at: usize = 0;
        let mut i: usize = 0;
        while i < chars.len()
            invariant
                i <= chars@.len(),
                chars@ == s@,
                len == byte_len(s@),
                at == byte_at(s@, i as int),
                offsets@.len() == i + 1,
                forall|j: int| 0 <= j <= i ==> #[trigger] offsets@[j] == byte_at(s@, j),
            decreases chars@.len() - i,
        {
            proof {
                lemma_byte_at_grows(s@, i + 1, s@.len() as int);
            }
            at = at + char_width(chars[i]);
            offsets.push(at);
            i += 1;
        }
        Indexed { chars, offsets }
    }

    /// The position of the character at a byte offset.
    pub fn position(&self, offset: usize) -> (r: Option<usize>)
        requires
            self.wf(),
        ensures
            match r {
                Some(i) => i <= self.chars@.len() && position_of(self.chars@, offset as int) == Some(
                    i as int,
                ),
                None => position_of(self.chars@, offset as int) is None,
            },
    {
        let mut lo: usize = 0;
        let mut hi: usize = self.offsets.len();
        while lo < hi
            invariant
                lo <= hi <= self.offsets@.len(),
                self.wf(),
                forall|j: int| 0 <= j < lo ==> #[trigger] byte_at(self.chars@, j) < offset,
                forall|j: int|
                    hi <= j <= self.chars@.len() ==> #[trigger] byte_at(self.chars@, j) > offset,
            decreases hi - lo,
        {
            let mid: usize = lo + (hi - lo) / 2;
            proof {
                assert(self.offsets@[mid as int] == byte_at(self.chars@, mid as int));
            }
            if self.offsets[mid] == offset {
                proof {
                    lemma_position_unique(self.chars@, offset as int, mid as int);
                }
                return Some(mid);
            }
            if self.offsets[mid] < offset {
                proof {
                    assert forall|j: int| 0 <= j < mid + 1 implies #[trigger] byte_at(self.chars@, j)
                        < offset by {
                        lemma_byte_at_grows(self.chars@, j, mid as int);
                    }
                }
                lo = mid + 1;
            } else {
                proof {
                    assert forall|j: int| mid <= j <= self.chars@.len() implies #[trigger] byte_at(
                        self.chars@,
                        j,
                    ) > offset by {
                        lemma_byte_at_grows(self.chars@, mid as int, j);
                    }
                }
                hi = mid;
            }
        }
        proof {
            assert forall|i: int| !is_position(self.chars@, offset as int, i) by {
                if 0 <= i <= self.chars@.len() {
                    assert(byte_at(self.chars@, i) != offset);
                }
            }
        }
        None
    }
}

/// The position of the character at a byte offset; `None` where the offset
/// falls inside a character or beyond the end.
pub open spec fn position_of(s: Seq<char>, offset: int) -> Option<int> {
    if exists|i: int| is_position(s, offset, i) {
        Some(choose|i: int| is_position(s, offset, i))
    } else {
        None
    }
}

/// The `i`-th character stands at a byte offset.
pub open spec fn is_position(s: Seq<char>, offset: int, i: int) -> bool {
    0 <= i <= s.len() && byte_at(s, i) == offset
}

/// A byte offset settles the position.
pub proof fn lemma_position_unique(s: Seq<char>, offset: int, i: int)
    requires
        is_position(s, offset, i),
    ensures
        position_of(s, offset) == Some(i),
{
    let k = choose|k: int| is_position(s, offset, k);
    if k < i {
        lemma_byte_at_grows(s, k, i);
    }
    if i < k {
        lemma_byte_at_grows(s, i, k);
    }
}

} // verus!
