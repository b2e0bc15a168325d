//! Well-formed documents, as trees.
//!
//! A document is written here with the white space that stands between its
//! tokens, so that every well-formed text whose objects and arrays are not
//! empty is the text of one such tree.

use crate::machine::{literal_false, literal_null, literal_true};
use crate::text::is_white_space;
use crate::types::{KeyView, ValueView};
use vstd::prelude::*;

verus! {

/// A value of a document.
pub enum Document {
    /// A string, given by what stands between its quotes.
    String { content: Seq<char> },
    /// A number, given by its text.
    Number { digits: Seq<char> },
    Boolean { value: bool },
    Null,
    /// An array; it has at least one item.
    Array { items: Box<Items> },
    /// An object; it has at least one field.
    Object { fields: Box<Fields> },
}

/// A value with the white space before and behind it.
pub struct Padded {
    pub lead: Seq<char>,
    pub value: Document,
    pub trail: Seq<char>,
}

/// A field of an object: white space, the name in quotes, white space, a
/// colon and the value.
pub struct Field {
    pub lead: Seq<char>,
    pub name: Seq<char>,
    pub gap: Seq<char>,
    pub value: Padded,
}

/// The items of an array, in order.
pub enum Items {
    Last { item: Padded },
    More { item: Padded, rest: Box<Items> },
}

/// The fields of an object, in order.
pub enum Fields {
    Last { field: Field },
    More { field: Field, rest: Box<Fields> },
}

/// A scalar value with the key path that leads to it.
pub struct Leaf {
    pub keys: Seq<KeyView>,
    pub value: ValueView,
}

/// The text of a value.
pub open spec fn render(doc: Document) -> Seq<char>
    decreases doc,
{
    match doc {
        Document::String { content } => seq!['"'] + content + seq!['"'],
        Document::Number { digits } => digits,
        Document::Boolean { value } => if value {
            literal_true()
        } else {
            literal_false()
        },
        Document::Null => literal_null(),
        Document::Array { items } => seq!['['] + render_items(*items) + seq![']'],
        Document::Object { fields } => seq!['{'] + render_fields(*fields) + seq!['}'],
    }
}

/// The text of a value with its white space.
pub open spec fn render_padded(padded: Padded) -> Seq<char>
    decreases padded,
{
    padded.lead + render(padded.value) + padded.trail
}

/// The text of the items of an array, with the commas between them.
pub open spec fn render_items(items: Items) -> Seq<char>
    decreases items,
{
    match items {
        Items::Last { item } => render_padded(item),
        Items::More { item, rest } => render_padded(item) + seq![','] + render_items(*rest),
    }
}

/// The text of a field up to its value.
pub open spec fn render_name(field: Field) -> Seq<char> {
    field.lead + seq!['"'] + field.name + seq!['"'] + field.gap + seq![':']
}

/// The text of the fields of an object, with the commas between them.
pub open spec fn render_fields(fields: Fields) -> Seq<char>
    decreases fields,
{
    match fields {
        Fields::Last { field } => render_name(field) + render_padded(field.value),
        Fields::More { field, rest } => render_name(field) + render_padded(field.value) + seq![
            ',',
        ] + render_fields(*rest),
    }
}

/// The scalar values of a value that stands at `chain`, in the order of the
/// text.
pub open spec fn leaves(doc: Document, chain: Seq<KeyView>) -> Seq<Leaf>
    decreases doc,
{
    match doc {
        Document::String { content } => seq![Leaf { keys: chain, value: ValueView::String(content) }],
        Document::Number { digits } => seq![Leaf { keys: chain, value: ValueView::Number(digits) }],
        Document::Boolean { value } => seq![Leaf { keys: chain, value: ValueView::Boolean(value) }],
        Document::Null => seq![Leaf { keys: chain, value: ValueView::Null }],
        Document::Array { items } => leaves_of_items(*items, chain, 0),
        Document::Object { fields } => leaves_of_fields(*fields, chain),
    }
}

/// The scalar values of the items of an array that stands at `chain`, the
/// first of them being item `k`.
pub open spec fn leaves_of_items(items: Items, chain: Seq<KeyView>, k: nat) -> Seq<Leaf>
    decreases items,
{
    match items {
        Items::Last { item } => leaves(item.value, chain.push(KeyView::Index(k))),
        Items::More { item, rest } => leaves(item.value, chain.push(KeyView::Index(k)))
            + leaves_of_items(*rest, chain, k + 1),
    }
}

/// The scalar values of the fields of an object that stands at `chain`.
pub open spec fn leaves_of_fields(fields: Fields, chain: Seq<KeyView>) -> Seq<Leaf>
    decreases fields,
{
    match fields {
        Fields::Last { field } => leaves(field.value.value, chain.push(KeyView::Slice(field.name))),
        Fields::More { field, rest } => leaves(
            field.value.value,
            chain.push(KeyView::Slice(field.name)),
        ) + leaves_of_fields(*rest, chain),
    }
}

/// Only white space.
pub open spec fn is_blank(gap: Seq<char>) -> bool {
    forall|k: int| 0 <= k < gap.len() ==> is_white_space(#[trigger] gap[k])
}

/// How many backslashes stand in a row directly before the character with
/// index `k`.
pub open spec fn backslash_run(content: Seq<char>, k: int) -> nat
    decreases k,
{
    if 0 < k <= content.len() && content[k - 1] == '\\' {
        backslash_run(content, k - 1) + 1
    } else {
        0
    }
}

/// The character with index `k` stands behind a backslash that escapes it:
/// the backslashes before it pair up but for the last.
pub open spec fn is_escaped_at(content: Seq<char>, k: int) -> bool {
    backslash_run(content, k) % 2 == 1
}

/// What can stand between the two quotes of a string or of a name: every
/// quote in it is escaped, and no backslash at its end is left without the
/// character that it escapes.
pub open spec fn is_quotable(content: Seq<char>) -> bool {
    &&& forall|k: int|
        0 <= k < content.len() && #[trigger] content[k] == '"' ==> is_escaped_at(content, k)
    &&& !is_escaped_at(content, content.len() as int)
}

/// The content of a string as it is written in a well-formed text: any
/// characters but the quote and the backslash, and escapes, each of them a
/// backslash with the character that it escapes.
pub open spec fn is_string_content(content: Seq<char>) -> bool
    decreases content.len(),
{
    if content.len() == 0 {
        true
    } else if content[0] == '\\' {
        content.len() >= 2 && is_string_content(content.skip(2))
    } else {
        content[0] != '"' && is_string_content(content.skip(1))
    }
}

/// Behind a place before which the backslashes pair up, escaping goes on as
/// if the text began there.
pub proof fn lemma_escaping_restarts(content: Seq<char>, n: int, k: int)
    requires
        0 <= n <= k <= content.len(),
        !is_escaped_at(content, n),
    ensures
        is_escaped_at(content, k) == is_escaped_at(content.skip(n), k - n),
    decreases k - n,
{
    let rest = content.skip(n);
    if k > n {
        lemma_escaping_restarts(content, n, k - 1);
        assert(rest[k - n - 1] == content[k - 1]);
    }
}

/// The content of a string of a well-formed text is quotable.
pub proof fn lemma_string_content_is_quotable(content: Seq<char>)
    requires
        is_string_content(content),
    ensures
        is_quotable(content),
    decreases content.len(),
{
    if content.len() > 0 {
        let n: int = if content[0] == '\\' {
            2
        } else {
            1
        };
        let rest = content.skip(n);
        lemma_string_content_is_quotable(rest);
        assert(!is_escaped_at(content, n)) by {
            reveal_with_fuel(backslash_run, 3);
        }
        assert(content[0] == '\\' ==> is_escaped_at(content, 1)) by {
            reveal_with_fuel(backslash_run, 2);
        }
        assert forall|k: int| 0 <= k < content.len() && #[trigger] content[k] == '"' implies is_escaped_at(
            content,
            k,
        ) by {
            if k >= n {
                lemma_escaping_restarts(content, n, k);
                assert(rest[k - n] == content[k]);
            }
        }
        lemma_escaping_restarts(content, n, content.len() as int);
    }
}

/// What is read as a number: it starts with a digit or a minus sign, and
/// holds no white space, comma or closing bracket.
pub open spec fn is_numeric(digits: Seq<char>) -> bool {
    &&& digits.len() > 0
    &&& ('0' <= digits[0] && digits[0] <= '9') || digits[0] == '-'
    &&& forall|k: int|
        0 <= k < digits.len() ==> !crate::machine::ends_number(#[trigger] digits[k])
}

/// The value is well formed.
pub open spec fn is_sound(doc: Document) -> bool
    decreases doc,
{
    match doc {
        Document::String { content } => is_quotable(content),
        Document::Number { digits } => is_numeric(digits),
        Document::Boolean { .. } => true,
        Document::Null => true,
        Document::Array { items } => items_are_sound(*items),
        Document::Object { fields } => fields_are_sound(*fields),
    }
}

pub open spec fn padded_is_sound(padded: Padded) -> bool
    decreases padded,
{
    is_blank(padded.lead) && is_sound(padded.value) && is_blank(padded.trail)
}

pub open spec fn items_are_sound(items: Items) -> bool
    decreases items,
{
    match items {
        Items::Last { item } => padded_is_sound(item),
        Items::More { item, rest } => padded_is_sound(item) && items_are_sound(*rest),
    }
}

pub open spec fn field_is_sound(field: Field) -> bool
    decreases field,
{
    &&& is_blank(field.lead)
    &&& is_quotable(field.name)
    &&& is_blank(field.gap)
    &&& padded_is_sound(field.value)
}

pub open spec fn fields_are_sound(fields: Fields) -> bool
    decreases fields,
{
    match fields {
        Fields::Last { field } => field_is_sound(field),
        Fields::More { field, rest } => field_is_sound(field) && fields_are_sound(*rest),
    }
}

} // verus!
