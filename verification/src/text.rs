//! Characters and their byte offsets.
//!
//! A text is a sequence of characters; the places the scanner reports are byte
//! offsets into its UTF-8 form. This module relates the two and cuts borrowed
//! pieces out of a `&str` between two known places.

use vstd::prelude::*;
use vstd::string::*;
use vstd::utf8::*;

verus! {

/// Number of bytes that `c` takes in UTF-8.
pub open spec fn scalar_width(c: char) -> int {
    encode_scalar(c as u32).len() as int
}

/// Byte offset, in the UTF-8 form of `text`, at which the character with
/// index `i` starts; for `i == text.len()` the length of that form.
pub open spec fn byte_offset(text: Seq<char>, i: int) -> int
    recommends
        0 <= i <= text.len(),
{
    encode_utf8(text.subrange(0, i)).len() as int
}

/// A place in a text, known both as a character index and as a byte offset.
#[derive(Clone, Copy, Debug)]
pub struct Position {
    pub index: usize,
    pub offset: usize,
}

impl Position {
    /// The two coordinates name the same place of `text`.
    pub open spec fn marks(self, text: Seq<char>) -> bool {
        &&& self.index <= text.len()
        &&& self.offset == byte_offset(text, self.index as int)
    }
}

/// Encoding distributes over concatenation.
pub proof fn lemma_encode_concat(a: Seq<char>, b: Seq<char>)
    ensures
        encode_utf8(a + b) == encode_utf8(a) + encode_utf8(b),
    decreases a.len(),
{
    if a.len() == 0 {
        assert(a + b =~= b);
        assert(encode_utf8(a) + encode_utf8(b) =~= encode_utf8(b));
    } else {
        assert((a + b).drop_first() =~= a.drop_first() + b);
        lemma_encode_concat(a.drop_first(), b);
        assert(encode_utf8(a + b) =~= encode_utf8(a) + encode_utf8(b));
    }
}

/// The offset of the next character is the offset of this one plus its width.
pub proof fn lemma_offset_step(text: Seq<char>, i: int)
    requires
        0 <= i < text.len(),
    ensures
        byte_offset(text, i + 1) == byte_offset(text, i) + scalar_width(text[i]),
        1 <= scalar_width(text[i]) <= 4,
{
    let head = text.subrange(0, i);
    let one = seq![text[i]];
    assert(text.subrange(0, i + 1) =~= head + one);
    lemma_encode_concat(head, one);
    assert(one.drop_first() =~= Seq::<char>::empty());
    assert(encode_utf8(one) =~= encode_scalar(text[i] as u32)) by {
        reveal_with_fuel(encode_utf8, 2);
    }
}

/// Offsets start at zero and end at the length of the encoded text.
pub proof fn lemma_offset_ends(text: Seq<char>)
    ensures
        byte_offset(text, 0) == 0,
        byte_offset(text, text.len() as int) == encode_utf8(text).len(),
{
    assert(text.subrange(0, 0) =~= Seq::<char>::empty());
    assert(text.subrange(0, text.len() as int) =~= text);
}

/// Later characters start at later offsets, and at least one byte apart.
pub proof fn lemma_offset_grows(text: Seq<char>, i: int, j: int)
    requires
        0 <= i <= j <= text.len(),
    ensures
        byte_offset(text, i) + (j - i) <= byte_offset(text, j),
    decreases j - i,
{
    if i < j {
        lemma_offset_grows(text, i, j - 1);
        lemma_offset_step(text, j - 1);
    }
}

/// The bytes between two places are the encoding of the characters between them.
pub proof fn lemma_offset_slice(text: Seq<char>, i: int, j: int)
    requires
        0 <= i <= j <= text.len(),
    ensures
        byte_offset(text, i) <= byte_offset(text, j) <= encode_utf8(text).len(),
        encode_utf8(text).subrange(byte_offset(text, i), byte_offset(text, j)) == encode_utf8(
            text.subrange(i, j),
        ),
{
    let a = text.subrange(0, i);
    let b = text.subrange(i, j);
    let c = text.subrange(j, text.len() as int);
    assert(text.subrange(0, j) =~= a + b);
    assert(text =~= (a + b) + c);
    lemma_encode_concat(a, b);
    lemma_encode_concat(a + b, c);
    assert(encode_utf8(text).subrange(byte_offset(text, i), byte_offset(text, j)) =~= encode_utf8(
        b,
    ));
}

/// Two texts with the same encoding are the same text.
pub proof fn lemma_encode_injective(a: Seq<char>, b: Seq<char>)
    requires
        encode_utf8(a) == encode_utf8(b),
    ensures
        a == b,
{
    encode_utf8_decode_utf8(a);
    encode_utf8_decode_utf8(b);
}

/// Every character starts on a character boundary of the encoded text.
pub proof fn lemma_offset_is_boundary(text: Seq<char>, i: int)
    requires
        0 <= i <= text.len(),
    ensures
        is_char_boundary(encode_utf8(text), byte_offset(text, i)),
    decreases i,
{
    let bytes = encode_utf8(text);
    encode_utf8_valid_utf8(text);
    if i == 0 {
        lemma_offset_ends(text);
    } else {
        let rest = text.drop_first();
        encode_utf8_first_scalar(text);
        assert(pop_first_scalar(bytes) =~= encode_utf8(rest));
        lemma_offset_is_boundary(rest, i - 1);
        let one = seq![text[0]];
        assert(text.subrange(0, i) =~= one + rest.subrange(0, i - 1));
        lemma_encode_concat(one, rest.subrange(0, i - 1));
        assert(one.drop_first() =~= Seq::<char>::empty());
        assert(encode_utf8(one) =~= encode_scalar(text[0] as u32)) by {
            reveal_with_fuel(encode_utf8, 2);
        }
        assert(byte_offset(text, i) == scalar_width(text[0]) + byte_offset(rest, i - 1));
        lemma_offset_slice(text, 0, i);
    }
}

/// The characters that count as white space: the code points that Unicode
/// gives the property `White_Space`.
pub open spec fn is_white_space(c: char) -> bool {
    let v = c as u32;
    ||| 0x09 <= v <= 0x0D
    ||| v == 0x20
    ||| v == 0x85
    ||| v == 0xA0
    ||| v == 0x1680
    ||| 0x2000 <= v <= 0x200A
    ||| v == 0x2028
    ||| v == 0x2029
    ||| v == 0x202F
    ||| v == 0x205F
    ||| v == 0x3000
}

/// `char::len_utf8`: the number of bytes that the character takes when it is
/// encoded in UTF-8. Taken on trust.
#[verifier::external_body]
pub(crate) fn char_width(c: char) -> (n: usize)
    ensures
        n as int == scalar_width(c),
{
    c.len_utf8()
}

/// `char::is_whitespace`: whether the character has the Unicode property
/// `White_Space`. Taken on trust, with that property written out as
/// [`is_white_space`].
#[verifier::external_body]
pub(crate) fn char_is_whitespace(c: char) -> (b: bool)
    ensures
        b == is_white_space(c),
{
    c.is_whitespace()
}

/// The piece of `on` between two places, borrowed from it.
pub(crate) fn slice_between<'a>(on: &'a str, from: Position, to: Position) -> (part: &'a str)
    requires
        from.marks(on@),
        to.marks(on@),
        from.index <= to.index,
    ensures
        part@ == on@.subrange(from.index as int, to.index as int),
{
    let ghost text = on@;
    let ghost i = from.index as int;
    let ghost j = to.index as int;
    proof {
        lemma_offset_is_boundary(text, j);
        lemma_offset_slice(text, 0, j);
        lemma_offset_ends(text);
    }
    let (head, _) = on.split_at(to.offset);
    proof {
        let front = text.subrange(0, j);
        assert(head.spec_bytes() == encode_utf8(front));
        lemma_encode_injective(head@, front);
        assert(front.subrange(0, i) =~= text.subrange(0, i));
        lemma_offset_is_boundary(front, i);
        lemma_offset_slice(front, i, j);
        lemma_offset_ends(front);
        assert(front.subrange(i, j) =~= text.subrange(i, j));
    }
    let (_, part) = head.split_at(from.offset);
    proof {
        lemma_encode_injective(part@, text.subrange(i, j));
    }
    part
}

/// Whether two strings hold the same characters, decided on their bytes.
pub(crate) fn same_text(a: &str, b: &str) -> (same: bool)
    ensures
        same == (a@ == b@),
{
    let x = a.as_bytes();
    let y = b.as_bytes();
    if x.len() != y.len() {
        return false;
    }
    let mut k: usize = 0;
    while k < x.len()
        invariant
            k <= x@.len(),
            x@.len() == y@.len(),
            x@ == encode_utf8(a@),
            y@ == encode_utf8(b@),
            forall|j: int| 0 <= j < k ==> x@[j] == y@[j],
        decreases x@.len() - k,
    {
        if x[k] != y[k] {
            return false;
        }
        k += 1;
    }
    proof {
        assert(x@ =~= y@);
        lemma_encode_injective(a@, b@);
    }
    true
}

} // verus!
