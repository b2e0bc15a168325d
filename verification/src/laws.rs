//! What holds of every scan and of every text.

use crate::document::{
    is_quotable, is_string_content, leaves, lemma_string_content_is_quotable, padded_is_sound,
    render_padded, Leaf, Padded,
};
use crate::machine::{
    ends_number, initial, literal_false, literal_null, literal_true, scan, scan_from, step,
    Config, Event, Mode, Next, Step, Trace,
};
use crate::parser::{answered, explains, ExitSignal};
use crate::path::{
    escaped, key_matches, lemma_escaped_key_is_literal, lemma_escaped_key_is_string_content,
    lemma_plain_key_is_literal, path_matches,
};
use crate::reading::{ends_open, leaves_seen, lemma_read_padded, state_behind};
use crate::text::byte_offset;
use crate::types::{
    Failure, JSONKey, JSONParseErrorReason, KeyView, ParseOptions, RootJSONValue, ValueView,
};
use crate::unescape::{lemma_unescaped_holds_none, lemma_unescaped_plain, unescaped};
use vstd::prelude::*;

verus! {

/// `n` is the byte offset of a character of `text`, or of its end.
pub open spec fn is_place(text: Seq<char>, n: int) -> bool {
    exists|k: int| 0 <= k <= text.len() && n == #[trigger] byte_offset(text, k)
}

/// Every offset of `trace` is a place of `text`: where a scan may stop, what
/// it returns and where it refuses.
pub open spec fn stays_inside(text: Seq<char>, trace: Trace) -> bool {
    &&& forall|k: int|
        0 <= k < trace.events.len() ==> is_place(text, (#[trigger] trace.events[k]).resume)
    &&& match trace.result {
        Ok(n) => is_place(text, n),
        Err(f) => is_place(text, f.at),
    }
}

/// The byte length of `text`.
pub open spec fn byte_length(text: Seq<char>) -> int {
    byte_offset(text, text.len() as int)
}

/// A scan that goes to the end of the text returns the length of the text.
pub open spec fn reads_everything(text: Seq<char>, trace: Trace) -> bool {
    trace.result is Ok ==> trace.result == Ok::<int, Failure>(byte_length(text))
}

proof fn lemma_scan_from_stays_inside(
    text: Seq<char>,
    options: ParseOptions,
    i: int,
    cfg: Config,
)
    requires
        0 <= i <= text.len(),
    ensures
        stays_inside(text, scan_from(text, options, i, cfg)),
        !options.exit_on_first_value ==> reads_everything(text, scan_from(text, options, i, cfg)),
    decreases text.len() - i,
{
    let trace = scan_from(text, options, i, cfg);
    let end = text.len() as int;
    assert(is_place(text, byte_offset(text, i)));
    assert(is_place(text, byte_offset(text, end)));
    if i < text.len() {
        assert(is_place(text, byte_offset(text, i + 1)));
        match step(text, options, i, cfg) {
            Step::Advance(next) => {
                lemma_scan_from_stays_inside(text, options, i + 1, next);
            },
            Step::Emit { value, resume, then } => {
                match then {
                    Next::Go(next) => {
                        lemma_scan_from_stays_inside(text, options, i + 1, next);
                        let rest = scan_from(text, options, i + 1, next);
                        assert forall|k: int| 0 <= k < trace.events.len() implies is_place(
                            text,
                            (#[trigger] trace.events[k]).resume,
                        ) by {
                            if k > 0 {
                                assert(trace.events[k] == rest.events[k - 1]);
                            }
                        }
                    },
                    Next::Stop(result) => {},
                }
            },
            Step::Halt(result) => {},
        }
    }
}

/// Whatever the text and the options, a scan returns, and refuses, only at
/// the byte offset of a character of the text or at its end: what it returns
/// can be used to cut the text.
pub proof fn law_offsets_are_places(text: Seq<char>, options: ParseOptions)
    ensures
        stays_inside(text, scan(text, options)),
{
    lemma_scan_from_stays_inside(text, options, 0, initial());
}

/// Whatever the callback answers, what a scan returns is the byte offset of
/// a character of the text or of its end, and so is the offset at which it
/// refuses: the text can be cut there.
pub proof fn law_result_is_a_place<
    'a,
    R: ExitSignal,
    F: FnMut(&[JSONKey<'a>], RootJSONValue<'a>) -> R,
>(cb: F, text: Seq<char>, options: ParseOptions, passed: int, result: Result<int, Failure>)
    requires
        explains(cb, scan(text, options), passed, result),
    ensures
        match result {
            Ok(n) => is_place(text, n),
            Err(f) => is_place(text, f.at),
        },
{
    law_offsets_are_places(text, options);
}

/// The offset that `event` carries stands where a later scan of `text` can
/// go on: for a number at the character that ends it, or at the end of the
/// text, and for a string, `true`, `false` and `null` behind the last
/// character of the value, the closing quote counted in.
pub open spec fn cursor_fits(text: Seq<char>, event: Event) -> bool {
    match event.value {
        ValueView::Number(digits) => exists|start: int, i: int|
            {
                &&& 0 <= i <= text.len()
                &&& digits == #[trigger] text.subrange(start, i)
                &&& i < text.len() ==> ends_number(text[i])
                &&& event.resume == byte_offset(text, i)
            },
        ValueView::String(content) => exists|start: int, i: int|
            {
                &&& 0 <= i < text.len()
                &&& content == #[trigger] text.subrange(start, i)
                &&& text[i] == '"'
                &&& event.resume == byte_offset(text, i + 1)
            },
        ValueView::Boolean(b) => exists|start: int, i: int|
            {
                &&& 0 <= i < text.len()
                &&& #[trigger] text.subrange(start, i + 1) == (if b {
                    literal_true()
                } else {
                    literal_false()
                })
                &&& event.resume == byte_offset(text, i + 1)
            },
        ValueView::Null => exists|start: int, i: int|
            {
                &&& 0 <= i < text.len()
                &&& #[trigger] text.subrange(start, i + 1) == literal_null()
                &&& event.resume == byte_offset(text, i + 1)
            },
    }
}

/// The three reasons that only the end of the text gives.
pub open spec fn is_final(reason: JSONParseErrorReason) -> bool {
    reason is ExpectedQuote || reason is ExpectedBracket || reason
        is ExpectedEndOfMultilineComment
}

proof fn lemma_scan_from_cursors(text: Seq<char>, options: ParseOptions, i: int, cfg: Config)
    requires
        0 <= i <= text.len(),
    ensures
        forall|k: int|
            0 <= k < scan_from(text, options, i, cfg).events.len() ==> cursor_fits(
                text,
                #[trigger] scan_from(text, options, i, cfg).events[k],
            ),
        scan_from(text, options, i, cfg).result matches Err(f) ==> (is_final(f.reason) ==> f.at
            == byte_length(text)),
    decreases text.len() - i,
{
    let trace = scan_from(text, options, i, cfg);
    if i < text.len() {
        match step(text, options, i, cfg) {
            Step::Advance(next) => {
                lemma_scan_from_cursors(text, options, i + 1, next);
            },
            Step::Emit { value, resume, then } => {
                let first = Event { keys: cfg.chain, value, resume };
                assert(trace.events[0] == first);
                assert(cursor_fits(text, first)) by {
                    match cfg.mode {
                        Mode::StringValue { start, .. } => {
                            assert(value == ValueView::String(text.subrange(start, i)));
                        },
                        Mode::NumberValue { start } => {
                            assert(value == ValueView::Number(text.subrange(start, i)));
                        },
                        Mode::TrueFalseNull { start } => {
                            let token = text.subrange(start, i + 1);
                            assert(token == literal_true() || token == literal_false() || token
                                == literal_null());
                        },
                        _ => {},
                    }
                }
                if let Next::Go(next) = then {
                    lemma_scan_from_cursors(text, options, i + 1, next);
                    let rest = scan_from(text, options, i + 1, next);
                    assert forall|k: int| 0 <= k < trace.events.len() implies cursor_fits(
                        text,
                        #[trigger] trace.events[k],
                    ) by {
                        if k > 0 {
                            assert(trace.events[k] == rest.events[k - 1]);
                        }
                    }
                }
            },
            Step::Halt(result) => {},
        }
    } else {
        if let Mode::NumberValue { start } = cfg.mode {
            let end = text.len() as int;
            assert(trace.events[0].value == ValueView::Number(text.subrange(start, end)));
        }
    }
}

/// Where a callback stops the scan, what the scan returns is the place at
/// which the text goes on behind the value: at the delimiter of a number, and
/// behind the last character of any other value.
pub proof fn law_cursor_stands_behind_the_value(text: Seq<char>, options: ParseOptions, k: int)
    requires
        0 <= k < scan(text, options).events.len(),
    ensures
        cursor_fits(text, scan(text, options).events[k]),
{
    lemma_scan_from_cursors(text, options, 0, initial());
}

/// A missing quote, a missing closer and an open block comment are noticed
/// at the end of the text and nowhere else.
pub proof fn law_final_reasons_stand_at_the_end(text: Seq<char>, options: ParseOptions)
    ensures
        scan(text, options).result matches Err(f) ==> (is_final(f.reason) ==> f.at
            == byte_length(text)),
{
    lemma_scan_from_cursors(text, options, 0, initial());
}

/// A callback that never asks to stop is handed every event of the scan, and
/// the scan returns what the machine returns.
pub proof fn law_unstopped_scan_runs_out<
    'a,
    R: ExitSignal,
    F: FnMut(&[JSONKey<'a>], RootJSONValue<'a>) -> R,
>(cb: F, trace: Trace, passed: int, result: Result<int, Failure>)
    requires
        explains(cb, trace, passed, result),
        forall|k: int| 0 <= k < trace.events.len() ==> !answered(cb, #[trigger] trace.events[k], true),
    ensures
        passed == trace.events.len(),
        result == trace.result,
{
}

/// A callback that asks to stop at the first event it is handed ends the scan
/// there: the scan returns the offset that the event carries.
pub proof fn law_stopped_scan_returns_the_cursor<
    'a,
    R: ExitSignal,
    F: FnMut(&[JSONKey<'a>], RootJSONValue<'a>) -> R,
>(cb: F, trace: Trace, passed: int, result: Result<int, Failure>)
    requires
        explains(cb, trace, passed, result),
        trace.events.len() > 0,
        !answered(cb, trace.events[0], false),
    ensures
        passed == 0,
        result == Ok::<int, Failure>(trace.events[0].resume),
{
}

/// A scan that is not to exit on the first value, and that no callback
/// stops, returns the length of the text in bytes whenever it succeeds.
pub proof fn law_success_reads_everything(text: Seq<char>, options: ParseOptions)
    requires
        !options.exit_on_first_value,
    ensures
        reads_everything(text, scan(text, options)),
{
    lemma_scan_from_stays_inside(text, options, 0, initial());
}

/// Every string and every name that a well-formed text can hold, made of
/// plain characters and of escapes, is one that the scanner reads from quote
/// to quote: the law below leaves none of them out.
pub proof fn law_strings_are_quotable(content: Seq<char>)
    requires
        is_string_content(content),
    ensures
        is_quotable(content),
{
    lemma_string_content_is_quotable(content);
}

/// The scan of a well-formed text hands out every scalar value of the
/// document once, under its key path and in the order of the text, and
/// returns the length of the text in bytes.
///
/// This holds of a scan that is not to exit on the first value and that no
/// callback stops. Well formed is a text of values, of arrays and objects that
/// are not empty, and of white space between them, in which every quote inside
/// a string or a name is escaped and every backslash has the character that it
/// escapes.
pub proof fn law_every_leaf_once_in_order(document: Padded, options: ParseOptions)
    requires
        padded_is_sound(document),
        !options.exit_on_first_value,
    ensures
        leaves_seen(scan(render_padded(document), options).events) == leaves(
            document.value,
            Seq::empty(),
        ),
        scan(render_padded(document), options).result == Ok::<int, Failure>(
            byte_length(render_padded(document)),
        ),
{
    let text = render_padded(document);
    let end = text.len() as int;
    let whole = scan(text, options);
    let found = leaves(document.value, Seq::empty());
    lemma_read_padded(text, options, 0, document, Seq::empty());
    let last = scan_from(text, options, end, state_behind(document, 0, Seq::empty()));
    if ends_open(document) {
        assert(leaves_seen(last.events) =~= found);
        assert(Seq::<Leaf>::empty() + found =~= found);
    } else {
        assert(leaves_seen(last.events) =~= Seq::<Leaf>::empty());
        assert(found + Seq::<Leaf>::empty() =~= found);
    }
}

/// The comparison of key paths respects escaping: the key that a document
/// writes for a name, with a backslash before each quote and each backslash
/// of it, is one that the scanner reads from quote to quote, and it matches
/// that name and no other.
pub proof fn law_escaped_key_matches_its_name(name: Seq<char>, other: Seq<char>)
    ensures
        is_quotable(escaped(name)),
        key_matches(KeyView::Slice(escaped(name)), KeyView::Slice(name)),
        key_matches(KeyView::Slice(escaped(name)), KeyView::Slice(other)) ==> other == name,
{
    lemma_escaped_key_is_literal(name);
    lemma_escaped_key_is_string_content(name);
    lemma_string_content_is_quotable(escaped(name));
}

/// A key path without a backslash in any of its names matches itself.
pub proof fn law_plain_path_matches_itself(keys: Seq<KeyView>)
    requires
        forall|k: int|
            0 <= k < keys.len() ==> (#[trigger] keys[k] matches KeyView::Slice(name)
                ==> !name.contains('\\')),
    ensures
        path_matches(keys, keys),
{
    assert forall|k: int| 0 <= k < keys.len() implies key_matches(#[trigger] keys[k], keys[k]) by {
        if let KeyView::Slice(name) = keys[k] {
            lemma_plain_key_is_literal(name);
        }
    }
}

/// Without a `/` and a `#` in the text, it is all the same whether comments
/// are accepted.
pub proof fn law_comments_need_a_starter(text: Seq<char>, exit_on_first_value: bool)
    requires
        !text.contains('/'),
        !text.contains('#'),
    ensures
        scan(text, ParseOptions { exit_on_first_value, allow_comments: true }) == scan(
            text,
            ParseOptions { exit_on_first_value, allow_comments: false },
        ),
{
    lemma_scan_without_starter(text, exit_on_first_value, 0, initial());
}

proof fn lemma_scan_without_starter(
    text: Seq<char>,
    exit_on_first_value: bool,
    i: int,
    cfg: Config,
)
    requires
        !text.contains('/'),
        !text.contains('#'),
        0 <= i <= text.len(),
    ensures
        scan_from(text, ParseOptions { exit_on_first_value, allow_comments: true }, i, cfg)
            == scan_from(text, ParseOptions { exit_on_first_value, allow_comments: false }, i, cfg),
    decreases text.len() - i,
{
    let with = ParseOptions { exit_on_first_value, allow_comments: true };
    let without = ParseOptions { exit_on_first_value, allow_comments: false };
    if i < text.len() {
        assert(text.contains(text[i]));
        assert(step(text, with, i, cfg) == step(text, without, i, cfg));
        match step(text, with, i, cfg) {
            Step::Advance(next) => {
                lemma_scan_without_starter(text, exit_on_first_value, i + 1, next);
            },
            Step::Emit { value, resume, then } => {
                if let Next::Go(next) = then {
                    lemma_scan_without_starter(text, exit_on_first_value, i + 1, next);
                }
            },
            Step::Halt(result) => {},
        }
    }
}

/// Unescaping a text that holds no backslash gives the text itself.
pub proof fn law_unescape_keeps_plain_text(raw: Seq<char>)
    requires
        !raw.contains('\\'),
    ensures
        unescaped(raw) == raw,
{
    lemma_unescaped_plain(raw);
}

/// Unescaping twice gives what unescaping once gives.
pub proof fn law_unescape_is_idempotent(raw: Seq<char>)
    ensures
        unescaped(unescaped(raw)) == unescaped(raw),
{
    lemma_unescaped_holds_none(raw);
    lemma_unescaped_plain(unescaped(raw));
}

} // verus!
