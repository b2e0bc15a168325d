//! The scanner as a mathematical object.
//!
//! The text is a sequence of characters and the scanner a machine that reads
//! them one at a time. Places in the text are character indices; what the
//! machine reports to its caller are the byte offsets of those places. This
//! model is what the executable scanner is proved against.

use crate::text::{byte_offset, is_white_space};
use crate::types::{Failure, JSONParseErrorReason, KeyView, ParseOptions, ValueView};
use vstd::prelude::*;

verus! {

/// What the machine is in the middle of. A `start` is the index of the first
/// character of the piece being read. Inside a key or a string, `escaped`
/// says that the last character was a backslash that was not escaped itself,
/// so that the next one is.
pub enum Mode {
    InKey { escaped: bool, start: int },
    Colon,
    InObject,
    Comment { start: int, multiline: bool, last_was_asterisk: bool, hash: bool },
    ExpectingValue,
    StringValue { start: int, escaped: bool },
    NumberValue { start: int },
    TrueFalseNull { start: int },
    EndOfValue,
}

/// The whole state of the machine between two characters.
pub struct Config {
    pub mode: Mode,
    pub chain: Seq<KeyView>,
}

/// A value handed to the callback: the key path at that moment, the value,
/// and the byte offset the scan returns if the callback asks to stop there.
pub struct Event {
    pub keys: Seq<KeyView>,
    pub value: ValueView,
    pub resume: int,
}

/// What follows a complete value.
pub enum Next {
    /// Go on with the next character, in this state.
    Go(Config),
    /// The scan is over.
    Stop(Result<int, Failure>),
}

/// What one character does to the machine.
pub enum Step {
    /// Go on with the next character.
    Advance(Config),
    /// A value is complete. Unless the callback stops the scan, `then` says
    /// what follows.
    Emit { value: ValueView, resume: int, then: Next },
    /// The scan is over.
    Halt(Result<int, Failure>),
}

/// The events of a scan whose callback never asks to stop, and its result.
pub struct Trace {
    pub events: Seq<Event>,
    pub result: Result<int, Failure>,
}

pub open spec fn top_is_index(chain: Seq<KeyView>) -> bool {
    chain.len() > 0 && chain.last() is Index
}

pub open spec fn top_is_slice(chain: Seq<KeyView>) -> bool {
    chain.len() > 0 && chain.last() is Slice
}

/// The chain without its last key; an empty chain stays empty.
pub open spec fn popped(chain: Seq<KeyView>) -> Seq<KeyView> {
    if chain.len() > 0 {
        chain.drop_last()
    } else {
        chain
    }
}

/// The chain with its last key, an index, moved on by one.
pub open spec fn bumped(chain: Seq<KeyView>) -> Seq<KeyView>
    recommends
        top_is_index(chain),
{
    chain.drop_last().push(KeyView::Index(chain.last()->Index_0 + 1))
}

/// Where the machine goes on after a comment: to the next element inside an
/// array, to the next key otherwise.
pub open spec fn mode_after_comment(chain: Seq<KeyView>) -> Mode {
    if top_is_index(chain) {
        Mode::ExpectingValue
    } else {
        Mode::InObject
    }
}

pub open spec fn comment_from(i: int, c: char) -> Mode {
    Mode::Comment { start: i, multiline: false, last_was_asterisk: false, hash: c == '#' }
}

pub open spec fn starts_comment(c: char) -> bool {
    c == '/' || c == '#'
}

pub open spec fn ends_number(c: char) -> bool {
    is_white_space(c) || c == '}' || c == ',' || c == ']'
}

pub open spec fn failure(text: Seq<char>, i: int, reason: JSONParseErrorReason) -> Failure {
    Failure { at: byte_offset(text, i), reason }
}

pub open spec fn literal_true() -> Seq<char> {
    seq!['t', 'r', 'u', 'e']
}

pub open spec fn literal_null() -> Seq<char> {
    seq!['n', 'u', 'l', 'l']
}

pub open spec fn literal_fals() -> Seq<char> {
    seq!['f', 'a', 'l', 's']
}

pub open spec fn literal_false() -> Seq<char> {
    seq!['f', 'a', 'l', 's', 'e']
}

/// What the character `c`, with index `i` and byte offset `at`, does after a
/// complete value: a comma moves on to the next sibling, a closer leaves the
/// object or array, a comment starter (where comments are allowed) acts as a
/// separator, white space is skipped.
pub open spec fn end_of_value_step(
    i: int,
    at: int,
    c: char,
    chain: Seq<KeyView>,
    allow_comments: bool,
) -> Result<Config, Failure> {
    if c == ',' {
        if top_is_index(chain) {
            Ok(Config { mode: Mode::ExpectingValue, chain: bumped(chain) })
        } else {
            Ok(Config { mode: Mode::InObject, chain: popped(chain) })
        }
    } else if c == '}' && top_is_slice(chain) {
        Ok(Config { mode: Mode::EndOfValue, chain: popped(chain) })
    } else if c == ']' && top_is_index(chain) {
        Ok(Config { mode: Mode::EndOfValue, chain: popped(chain) })
    } else if allow_comments && starts_comment(c) {
        Ok(Config { mode: comment_from(i, c), chain: popped(chain) })
    } else if !is_white_space(c) {
        Err(Failure { at, reason: JSONParseErrorReason::ExpectedEndOfValue })
    } else {
        Ok(Config { mode: Mode::EndOfValue, chain })
    }
}

/// What the character with index `i` does behind a complete value that stands
/// at `chain`: it is taken as [`end_of_value_step`] says, and where that
/// leaves the key chain empty, and the scan is to exit on the first value, the
/// scan returns the offset behind the character. A comma never ends the scan.
pub open spec fn settle(
    text: Seq<char>,
    options: ParseOptions,
    i: int,
    chain: Seq<KeyView>,
) -> Next
    recommends
        0 <= i < text.len(),
{
    let c = text[i];
    match end_of_value_step(i, byte_offset(text, i), c, chain, options.allow_comments) {
        Err(f) => Next::Stop(Err(f)),
        Ok(next) => {
            if options.exit_on_first_value && next.chain.len() == 0 && c != ',' {
                Next::Stop(Ok(byte_offset(text, i + 1)))
            } else {
                Next::Go(next)
            }
        },
    }
}

/// What the character with index `i` does to the machine in state `cfg`.
pub open spec fn step(text: Seq<char>, options: ParseOptions, i: int, cfg: Config) -> Step
    recommends
        0 <= i < text.len(),
{
    let c = text[i];
    let chain = cfg.chain;
    let past = byte_offset(text, i + 1);
    match cfg.mode {
        Mode::InKey { escaped, start } => {
            if !escaped && c == '"' {
                Step::Advance(
                    Config {
                        mode: Mode::Colon,
                        chain: chain.push(KeyView::Slice(text.subrange(start, i))),
                    },
                )
            } else {
                Step::Advance(
                    Config { mode: Mode::InKey { escaped: !escaped && c == '\\', start }, chain },
                )
            }
        },
        Mode::StringValue { start, escaped } => {
            if !escaped && c == '"' {
                Step::Emit {
                    value: ValueView::String(text.subrange(start, i)),
                    resume: past,
                    then: Next::Go(Config { mode: Mode::EndOfValue, chain }),
                }
            } else {
                Step::Advance(
                    Config {
                        mode: Mode::StringValue { start, escaped: !escaped && c == '\\' },
                        chain,
                    },
                )
            }
        },
        Mode::Colon => {
            if c == ':' {
                Step::Advance(Config { mode: Mode::ExpectingValue, chain })
            } else if !is_white_space(c) {
                Step::Halt(Err(failure(text, i, JSONParseErrorReason::ExpectedColon)))
            } else {
                Step::Advance(cfg)
            }
        },
        Mode::EndOfValue => {
            match settle(text, options, i, chain) {
                Next::Go(next) => Step::Advance(next),
                Next::Stop(result) => Step::Halt(result),
            }
        },
        Mode::Comment { start, multiline, last_was_asterisk, hash } => {
            if c == '\n' && !multiline {
                Step::Advance(Config { mode: mode_after_comment(chain), chain })
            } else if c == '*' && start + 1 == i && !hash {
                Step::Advance(
                    Config {
                        mode: Mode::Comment { start, multiline: true, last_was_asterisk, hash },
                        chain,
                    },
                )
            } else if multiline {
                if last_was_asterisk && c == '/' {
                    Step::Advance(Config { mode: mode_after_comment(chain), chain })
                } else {
                    Step::Advance(
                        Config {
                            mode: Mode::Comment {
                                start,
                                multiline,
                                last_was_asterisk: c == '*',
                                hash,
                            },
                            chain,
                        },
                    )
                }
            } else {
                Step::Advance(cfg)
            }
        },
        Mode::ExpectingValue => {
            if c == '{' {
                Step::Advance(Config { mode: Mode::InObject, chain })
            } else if c == '[' {
                Step::Advance(
                    Config { mode: Mode::ExpectingValue, chain: chain.push(KeyView::Index(0)) },
                )
            } else if c == '"' {
                Step::Advance(
                    Config { mode: Mode::StringValue { start: i + 1, escaped: false }, chain },
                )
            } else if options.allow_comments && starts_comment(c) {
                Step::Advance(Config { mode: comment_from(i, c), chain })
            } else if ('0' <= c && c <= '9') || c == '-' {
                Step::Advance(Config { mode: Mode::NumberValue { start: i }, chain })
            } else if c == 't' || c == 'f' || c == 'n' {
                Step::Advance(Config { mode: Mode::TrueFalseNull { start: i }, chain })
            } else if is_white_space(c) {
                Step::Advance(cfg)
            } else {
                Step::Halt(Err(failure(text, i, JSONParseErrorReason::ExpectedValue)))
            }
        },
        Mode::InObject => {
            if c == '"' {
                Step::Advance(Config { mode: Mode::InKey { escaped: false, start: i + 1 }, chain })
            } else if c == '}' {
                Step::Advance(Config { mode: mode_after_comment(chain), chain })
            } else if options.allow_comments && starts_comment(c) {
                Step::Advance(Config { mode: comment_from(i, c), chain })
            } else if !is_white_space(c) {
                Step::Halt(Err(failure(text, i, JSONParseErrorReason::ExpectedKey)))
            } else {
                Step::Advance(cfg)
            }
        },
        Mode::NumberValue { start } => {
            if ends_number(c) {
                Step::Emit {
                    value: ValueView::Number(text.subrange(start, i)),
                    resume: byte_offset(text, i),
                    then: settle(text, options, i, chain),
                }
            } else {
                Step::Advance(cfg)
            }
        },
        Mode::TrueFalseNull { start } => {
            let seen = i - start + 1;
            let token = text.subrange(start, i + 1);
            let done = Next::Go(Config { mode: Mode::EndOfValue, chain });
            let refused = Step::Halt(
                Err(failure(text, i, JSONParseErrorReason::ExpectedTrueFalseNull)),
            );
            if seen < 4 {
                Step::Advance(cfg)
            } else if seen == 4 {
                if token == literal_true() {
                    Step::Emit { value: ValueView::Boolean(true), resume: past, then: done }
                } else if token == literal_null() {
                    Step::Emit { value: ValueView::Null, resume: past, then: done }
                } else if token == literal_fals() {
                    Step::Advance(cfg)
                } else {
                    refused
                }
            } else if token == literal_false() {
                Step::Emit { value: ValueView::Boolean(false), resume: past, then: done }
            } else {
                refused
            }
        },
    }
}

/// What the end of the text does to the machine in state `cfg`.
pub open spec fn finish(text: Seq<char>, cfg: Config) -> Trace {
    let end = text.len() as int;
    let length = byte_offset(text, end);
    let quiet = Seq::<Event>::empty();
    match cfg.mode {
        Mode::InKey { .. } | Mode::StringValue { .. } => Trace {
            events: quiet,
            result: Err(failure(text, end, JSONParseErrorReason::ExpectedQuote)),
        },
        Mode::Colon => Trace {
            events: quiet,
            result: Err(failure(text, end, JSONParseErrorReason::ExpectedColon)),
        },
        Mode::Comment { multiline, .. } => {
            if multiline {
                Trace {
                    events: quiet,
                    result: Err(
                        failure(text, end, JSONParseErrorReason::ExpectedEndOfMultilineComment),
                    ),
                }
            } else {
                Trace { events: quiet, result: Ok(length) }
            }
        },
        Mode::EndOfValue | Mode::ExpectingValue => {
            if cfg.chain.len() > 0 {
                Trace {
                    events: quiet,
                    result: Err(failure(text, end, JSONParseErrorReason::ExpectedBracket)),
                }
            } else {
                Trace { events: quiet, result: Ok(length) }
            }
        },
        Mode::InObject => Trace {
            events: quiet,
            result: Err(failure(text, end, JSONParseErrorReason::ExpectedBracket)),
        },
        Mode::NumberValue { start } => Trace {
            events: seq![
                Event {
                    keys: cfg.chain,
                    value: ValueView::Number(text.subrange(start, end)),
                    resume: length,
                },
            ],
            result: Ok(length),
        },
        Mode::TrueFalseNull { .. } => Trace {
            events: quiet,
            result: Err(failure(text, end, JSONParseErrorReason::ExpectedTrueFalseNull)),
        },
    }
}

/// The scan of the characters from index `i` on, by the machine in state `cfg`.
pub open spec fn scan_from(text: Seq<char>, options: ParseOptions, i: int, cfg: Config) -> Trace
    decreases text.len() - i,
{
    if i < 0 || i >= text.len() {
        finish(text, cfg)
    } else {
        match step(text, options, i, cfg) {
            Step::Advance(next) => scan_from(text, options, i + 1, next),
            Step::Emit { value, resume, then } => {
                let rest = match then {
                    Next::Go(next) => scan_from(text, options, i + 1, next),
                    Next::Stop(result) => Trace { events: Seq::empty(), result },
                };
                Trace {
                    events: seq![Event { keys: cfg.chain, value, resume }] + rest.events,
                    result: rest.result,
                }
            },
            Step::Halt(result) => Trace { events: Seq::empty(), result },
        }
    }
}

/// The state in which every scan starts: at the root, before a value.
pub open spec fn initial() -> Config {
    Config { mode: Mode::ExpectingValue, chain: Seq::empty() }
}

/// The scan of a whole text.
pub open spec fn scan(text: Seq<char>, options: ParseOptions) -> Trace {
    scan_from(text, options, 0, initial())
}

} // verus!
