//! Comparing the key path of a value with an expected one.

use crate::document::is_string_content;
use crate::types::{path_view, JSONKey, KeyView};
use vstd::prelude::*;
use vstd::std_specs::iter::IteratorSpec;

verus! {

broadcast use vstd::string::group_string_axioms;

/// `c` in front of `rest`, where there is a `rest`.
pub open spec fn prepend(c: char, rest: Option<Seq<char>>) -> Option<Seq<char>> {
    match rest {
        Some(tail) => Some(seq![c] + tail),
        None => None,
    }
}

/// The name that a raw key stands for: a backslash is left out and the
/// character behind it, whatever it is, is taken as it stands. A raw key that
/// ends in such a backslash stands for no name.
pub open spec fn literal_of(raw: Seq<char>) -> Option<Seq<char>>
    decreases raw.len(),
{
    if raw.len() == 0 {
        Some(Seq::empty())
    } else if raw[0] != '\\' {
        prepend(raw[0], literal_of(raw.skip(1)))
    } else if raw.len() == 1 {
        None
    } else {
        prepend(raw[1], literal_of(raw.skip(2)))
    }
}

/// A key of a document, with its escapes, is at the place that an expected
/// key, written without escapes, names.
pub open spec fn key_matches(key: KeyView, expected: KeyView) -> bool {
    match (key, expected) {
        (KeyView::Slice(raw), KeyView::Slice(name)) => literal_of(raw) == Some(name),
        (KeyView::Index(n), KeyView::Index(m)) => n == m,
        _ => false,
    }
}

/// Two key paths name the same place: they are equally long and match key by
/// key.
pub open spec fn path_matches(keys: Seq<KeyView>, expected: Seq<KeyView>) -> bool {
    &&& keys.len() == expected.len()
    &&& forall|k: int| 0 <= k < keys.len() ==> key_matches(#[trigger] keys[k], expected[k])
}

/// A name as a document writes it: with a backslash before every quote and
/// every backslash.
pub open spec fn escaped(name: Seq<char>) -> Seq<char>
    decreases name.len(),
{
    if name.len() == 0 {
        Seq::empty()
    } else if name[0] == '"' || name[0] == '\\' {
        seq!['\\', name[0]] + escaped(name.skip(1))
    } else {
        seq![name[0]] + escaped(name.skip(1))
    }
}

/// A name with a character in front equals another such name where the
/// characters are equal and the names are.
pub proof fn lemma_prepend_equal(c: char, rest: Option<Seq<char>>, name: Seq<char>)
    ensures
        prepend(c, rest) == Some(name) <==> name.len() > 0 && name[0] == c && rest == Some(
            name.skip(1),
        ),
{
    if let Some(tail) = rest {
        let whole = seq![c] + tail;
        assert(whole.skip(1) =~= tail);
        if name.len() > 0 && name[0] == c && tail == name.skip(1) {
            assert(whole =~= name);
        }
    }
}

/// A raw key that holds no backslash stands for itself.
pub proof fn lemma_plain_key_is_literal(raw: Seq<char>)
    requires
        !raw.contains('\\'),
    ensures
        literal_of(raw) == Some(raw),
    decreases raw.len(),
{
    if raw.len() > 0 {
        let rest = raw.skip(1);
        assert(raw[0] != '\\');
        assert forall|k: int| 0 <= k < rest.len() implies rest[k] != '\\' by {
            assert(rest[k] == raw[k + 1]);
        }
        lemma_plain_key_is_literal(rest);
        assert(seq![raw[0]] + rest =~= raw);
    } else {
        assert(raw =~= Seq::<char>::empty());
    }
}

/// A name written with escapes stands for the name.
pub proof fn lemma_escaped_key_is_literal(name: Seq<char>)
    ensures
        literal_of(escaped(name)) == Some(name),
    decreases name.len(),
{
    if name.len() > 0 {
        let rest = name.skip(1);
        let raw = escaped(name);
        lemma_escaped_key_is_literal(rest);
        assert(seq![name[0]] + rest =~= name);
        if name[0] == '"' || name[0] == '\\' {
            assert(raw.skip(2) =~= escaped(rest));
        } else {
            assert(raw.skip(1) =~= escaped(rest));
        }
    } else {
        assert(name =~= Seq::<char>::empty());
    }
}

/// A name written with escapes is what a well-formed text can hold between
/// two quotes.
pub proof fn lemma_escaped_key_is_string_content(name: Seq<char>)
    ensures
        is_string_content(escaped(name)),
    decreases name.len(),
{
    if name.len() > 0 {
        let rest = name.skip(1);
        let raw = escaped(name);
        lemma_escaped_key_is_string_content(rest);
        if name[0] == '"' || name[0] == '\\' {
            assert(raw.skip(2) =~= escaped(rest));
        } else {
            assert(raw.skip(1) =~= escaped(rest));
        }
    }
}

/// Whether the raw key `key` stands for the name `expected`.
pub(crate) fn slice_matches(key: &str, expected: &str) -> (same: bool)
    ensures
        same == (literal_of(key@) == Some(expected@)),
{
    let ghost raw = key@;
    let ghost name = expected@;
    let ghost mut i: int = 0;
    let ghost mut j: int = 0;
    let mut key_chars = key.chars();
    let mut expected_chars = expected.chars();
    proof {
        assert(raw.skip(0) =~= raw);
        assert(name.skip(0) =~= name);
    }
    loop
        invariant
            raw == key@,
            name == expected@,
            0 <= i <= raw.len(),
            0 <= j <= name.len(),
            key_chars.obeys_prophetic_iter_laws(),
            expected_chars.obeys_prophetic_iter_laws(),
            key_chars.remaining() == raw.skip(i),
            expected_chars.remaining() == name.skip(j),
            (literal_of(raw) == Some(name)) == (literal_of(raw.skip(i)) == Some(name.skip(j))),
        decreases name.len() - j,
    {
        let ghost key_rest = raw.skip(i);
        let ghost name_rest = name.skip(j);
        match expected_chars.next() {
            None => {
                let last = key_chars.next();
                proof {
                    if key_rest.len() > 0 {
                        let after = if key_rest[0] != '\\' {
                            literal_of(key_rest.skip(1))
                        } else {
                            literal_of(key_rest.skip(2))
                        };
                        let c = if key_rest[0] != '\\' || key_rest.len() == 1 {
                            key_rest[0]
                        } else {
                            key_rest[1]
                        };
                        lemma_prepend_equal(c, after, name_rest);
                    } else {
                        assert(name_rest =~= Seq::<char>::empty());
                    }
                }
                return last.is_none();
            },
            Some(wanted) => {
                let first = key_chars.next();
                let found = match first {
                    Some('\\') => key_chars.next(),
                    _ => first,
                };
                proof {
                    assert(name_rest.skip(1) =~= name.skip(j + 1));
                    if key_rest.len() > 0 {
                        assert(key_rest.skip(1) =~= raw.skip(i + 1));
                        if key_rest[0] != '\\' {
                            lemma_prepend_equal(
                                key_rest[0],
                                literal_of(key_rest.skip(1)),
                                name_rest,
                            );
                        } else if key_rest.len() > 1 {
                            assert(key_rest.skip(2) =~= raw.skip(i + 2));
                            assert(key_rest.skip(1).skip(1) =~= raw.skip(i + 2));
                            lemma_prepend_equal(
                                key_rest[1],
                                literal_of(key_rest.skip(2)),
                                name_rest,
                            );
                        }
                    }
                }
                match found {
                    None => {
                        return false;
                    },
                    Some(c) => {
                        if c != wanted {
                            return false;
                        }
                    },
                }
                proof {
                    i = if key_rest[0] != '\\' {
                        i + 1
                    } else {
                        i + 2
                    };
                    j = j + 1;
                }
            },
        }
    }
}

/// Whether the key path `keys` of a value, with the escapes of the document,
/// names the place that `expected`, written without escapes, names.
#[must_use]
pub fn key_chain_equals(keys: &[JSONKey<'_>], expected: &[JSONKey<'_>]) -> (same: bool)
    ensures
        same == path_matches(path_view(keys@), path_view(expected@)),
{
    if keys.len() != expected.len() {
        return false;
    }
    let mut k: usize = 0;
    while k < keys.len()
        invariant
            k <= keys@.len(),
            keys@.len() == expected@.len(),
            forall|n: int|
                0 <= n < k ==> key_matches(
                    #[trigger] path_view(keys@)[n],
                    path_view(expected@)[n],
                ),
        decreases keys@.len() - k,
    {
        let matched = match (&expected[k], &keys[k]) {
            (JSONKey::Slice(name), JSONKey::Slice(raw)) => slice_matches(raw, name),
            (JSONKey::Index(m), JSONKey::Index(n)) => *m == *n,
            _ => false,
        };
        if !matched {
            proof {
                assert(!key_matches(path_view(keys@)[k as int], path_view(expected@)[k as int]));
            }
            return false;
        }
        k += 1;
    }
    true
}

} // verus!
