//! Taking the backslashes out of the content of a string.

use crate::text::{
    char_width, lemma_offset_ends, lemma_offset_grows, lemma_offset_step, slice_between, Position,
};
use std::borrow::Cow;
use vstd::prelude::*;
use vstd::std_specs::iter::IteratorSpec;
use vstd::string::StringExecFns;
use vstd::utf8::encode_utf8;

verus! {

broadcast use vstd::string::group_string_axioms;

/// The characters that stay: all but the backslash.
pub open spec fn is_kept() -> spec_fn(char) -> bool {
    |c: char| c != '\\'
}

/// The text without its backslashes. Every backslash goes, one that stands
/// behind another too; every other character stays as it is, so that no
/// escape sequence is decoded.
pub open spec fn unescaped(raw: Seq<char>) -> Seq<char> {
    raw.filter(is_kept())
}

/// A character added at the end of a text is added at the end of what stays
/// of it, unless it is a backslash.
pub proof fn lemma_unescaped_push(raw: Seq<char>, c: char)
    ensures
        unescaped(raw.push(c)) == if c == '\\' {
            unescaped(raw)
        } else {
            unescaped(raw).push(c)
        },
{
    reveal(Seq::filter);
    assert(raw.push(c).drop_last() =~= raw);
}

/// A text without backslashes stays as it is.
pub proof fn lemma_unescaped_plain(raw: Seq<char>)
    requires
        !raw.contains('\\'),
    ensures
        unescaped(raw) == raw,
    decreases raw.len(),
{
    if raw.len() == 0 {
        reveal(Seq::filter);
    } else {
        let front = raw.drop_last();
        assert forall|k: int| 0 <= k < front.len() implies front[k] != '\\' by {
            assert(raw[k] == front[k]);
        }
        if front.contains('\\') {
        }
        lemma_unescaped_plain(front);
        assert(raw.last() == raw[raw.len() - 1]);
        lemma_unescaped_push(front, raw.last());
        assert(front.push(raw.last()) =~= raw);
    }
}

/// What stays of a text holds no backslash.
pub proof fn lemma_unescaped_holds_none(raw: Seq<char>)
    ensures
        !unescaped(raw).contains('\\'),
    decreases raw.len(),
{
    if raw.len() == 0 {
        reveal(Seq::filter);
    } else {
        let front = raw.drop_last();
        lemma_unescaped_holds_none(front);
        lemma_unescaped_push(front, raw.last());
        assert(front.push(raw.last()) =~= raw);
        let kept = unescaped(front);
        if raw.last() != '\\' {
            assert forall|k: int| 0 <= k < kept.push(raw.last()).len() implies kept.push(
                raw.last(),
            )[k] != '\\' by {
                if k < kept.len() {
                    assert(kept.contains(kept[k]));
                }
            }
        }
    }
}

/// A text with one more character holds a backslash where the text did or
/// the character is one.
pub proof fn lemma_backslash_push(raw: Seq<char>, c: char)
    ensures
        raw.push(c).contains('\\') <==> raw.contains('\\') || c == '\\',
{
    let longer = raw.push(c);
    if longer.contains('\\') {
        let k = choose|k: int| 0 <= k < longer.len() && longer[k] == '\\';
        if k < raw.len() {
            assert(raw[k] == '\\');
        }
    }
    if raw.contains('\\') {
        let k = choose|k: int| 0 <= k < raw.len() && raw[k] == '\\';
        assert(longer[k] == '\\');
    }
    if c == '\\' {
        assert(longer[raw.len() as int] == '\\');
    }
}

/// The content of a string without its backslashes, borrowed from `on` where
/// it holds none and built anew where it holds one.
#[must_use]
pub fn unescape_string_content(on: &str) -> (r: Cow<'_, str>)
    ensures
        r@ == unescaped(on@),
        r is Borrowed <==> !on@.contains('\\'),
{
    let ghost text = on@;
    // The length of the text in bytes bounds every offset computed below.
    let length = on.as_bytes().len();
    let mut chars = on.chars();
    let mut here = Position { index: 0, offset: 0 };
    let mut start = here;
    let mut found = false;
    let mut kept = String::new();
    proof {
        lemma_offset_ends(text);
        assert(text.subrange(0, text.len() as int) =~= text);
        assert(text.subrange(0, 0) =~= Seq::<char>::empty());
        lemma_unescaped_plain(text.subrange(0, 0));
    }
    loop
        invariant
            text == on@,
            length == encode_utf8(text).len(),
            here.marks(text),
            start.marks(text),
            start.index <= here.index,
            chars.obeys_prophetic_iter_laws(),
            chars.remaining() == text.subrange(here.index as int, text.len() as int),
            found <==> text.subrange(0, here.index as int).contains('\\'),
            unescaped(text.subrange(0, here.index as int)) == kept@ + text.subrange(
                start.index as int,
                here.index as int,
            ),
        decreases text.len() - here.index,
    {
        let ghost read = text.subrange(0, here.index as int);
        let ghost pending = text.subrange(start.index as int, here.index as int);
        match chars.next() {
            None => {
                proof {
                    assert(read =~= text);
                }
                if !found {
                    proof {
                        lemma_unescaped_plain(text);
                    }
                    return Cow::Borrowed(on);
                }
                kept.append(slice_between(on, start, here));
                return Cow::Owned(kept);
            },
            Some(chr) => {
                let width = char_width(chr);
                proof {
                    lemma_offset_step(text, here.index as int);
                    lemma_offset_grows(text, 0, here.index + 1);
                    lemma_offset_grows(text, here.index + 1, text.len() as int);
                    lemma_offset_ends(text);
                    lemma_unescaped_push(read, chr);
                    lemma_backslash_push(read, chr);
                    assert(text.subrange(0, here.index + 1) =~= read.push(chr));
                }
                let next = Position { index: here.index + 1, offset: here.offset + width };
                if chr == '\\' {
                    kept.append(slice_between(on, start, here));
                    found = true;
                    start = next;
                    proof {
                        assert(kept@ + text.subrange(next.index as int, next.index as int)
                            =~= kept@);
                    }
                } else {
                    proof {
                        assert(kept@ + text.subrange(start.index as int, next.index as int)
                            =~= (kept@ + pending).push(chr));
                    }
                }
                here = next;
            },
        }
    }
}

} // verus!
