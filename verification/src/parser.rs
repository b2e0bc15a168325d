//! The executable scanner.

use crate::machine::{
    bumped, end_of_value_step, finish, initial, literal_fals, literal_false, literal_null,
    literal_true, mode_after_comment, popped, scan, scan_from, settle, step, top_is_index,
    top_is_slice, Config, Event, Mode, Next, Step, Trace,
};
use crate::text::{
    char_is_whitespace, char_width, lemma_offset_ends, lemma_offset_grows,
    lemma_offset_step, same_text, slice_between, Position,
};
use crate::types::{
    outcome_view, path_view, Failure, JSONKey, JSONParseError, JSONParseErrorReason, KeyView,
    ParseOptions, RootJSONValue,
};
use vstd::prelude::*;
use vstd::std_specs::iter::IteratorSpec;
use vstd::utf8::encode_utf8;

verus! {

broadcast use vstd::string::group_string_axioms;

/// What the scanner is in the middle of. A `start` is the place of the first
/// character of the piece being read.
#[derive(Clone, Copy)]
pub enum State {
    InKey { escaped: bool, start: Position },
    Colon,
    InObject,
    Comment { start: Position, multiline: bool, last_was_asterisk: bool, hash: bool },
    ExpectingValue,
    StringValue { start: Position, escaped: bool },
    NumberValue { start: Position },
    TrueFalseNull { start: Position },
    EndOfValue,
}

impl View for State {
    type V = Mode;

    open spec fn view(&self) -> Mode {
        match self {
            State::InKey { escaped, start } => Mode::InKey {
                escaped: *escaped,
                start: start.index as int,
            },
            State::Colon => Mode::Colon,
            State::InObject => Mode::InObject,
            State::Comment { start, multiline, last_was_asterisk, hash } => Mode::Comment {
                start: start.index as int,
                multiline: *multiline,
                last_was_asterisk: *last_was_asterisk,
                hash: *hash,
            },
            State::ExpectingValue => Mode::ExpectingValue,
            State::StringValue { start, escaped } => Mode::StringValue {
                start: start.index as int,
                escaped: *escaped,
            },
            State::NumberValue { start } => Mode::NumberValue { start: start.index as int },
            State::TrueFalseNull { start } => Mode::TrueFalseNull { start: start.index as int },
            State::EndOfValue => Mode::EndOfValue,
        }
    }
}

impl State {
    /// Every place the state remembers is a place of `text`, before the
    /// character with index `i`, or at it where the piece may still be empty.
    pub open spec fn tracks(self, text: Seq<char>, i: int) -> bool {
        match self {
            State::InKey { start, .. } | State::StringValue { start, .. } => start.marks(text)
                && start.index <= i,
            State::NumberValue { start } | State::TrueFalseNull { start } => start.marks(text)
                && start.index < i,
            State::Comment { start, .. } => start.index < i,
            _ => true,
        }
    }
}

/// No index of the chain is beyond `limit`.
pub open spec fn bounded(chain: Seq<KeyView>, limit: int) -> bool {
    forall|k: int| 0 <= k < chain.len() ==> (#[trigger] chain[k] matches KeyView::Index(n) ==> n <= limit)
}

/// What stands on top of a key chain.
pub enum Top {
    Nothing,
    Slice,
    Index(usize),
}

pub(crate) fn top_of(key_chain: &Vec<JSONKey<'_>>) -> (top: Top)
    ensures
        match top {
            Top::Nothing => key_chain@.len() == 0,
            Top::Slice => top_is_slice(path_view(key_chain@)),
            Top::Index(n) => top_is_index(path_view(key_chain@)) && path_view(key_chain@).last()
                == KeyView::Index(n as nat),
        },
{
    let depth = key_chain.len();
    if depth == 0 {
        Top::Nothing
    } else {
        match &key_chain[depth - 1] {
            JSONKey::Slice(_) => Top::Slice,
            JSONKey::Index(n) => Top::Index(*n),
        }
    }
}

/// Removes the last key of the chain, if there is one.
pub(crate) fn pop_key(key_chain: &mut Vec<JSONKey<'_>>)
    ensures
        path_view(final(key_chain)@) == popped(path_view(old(key_chain)@)),
        final(key_chain)@ == (if old(key_chain)@.len() > 0 {
            old(key_chain)@.drop_last()
        } else {
            old(key_chain)@
        }),
{
    let _ = key_chain.pop();
    proof {
        assert(path_view(key_chain@) =~= popped(path_view(old(key_chain)@)));
    }
}

/// Handles the character after a complete value.
pub(crate) fn end_of_value(
    here: Position,
    chr: char,
    state: &mut State,
    key_chain: &mut Vec<JSONKey<'_>>,
    allow_comments: bool,
) -> (r: Result<(), JSONParseError>)
    requires
        *old(state) is EndOfValue,
        here.index < usize::MAX,
        bounded(path_view(old(key_chain)@), here.index as int),
    ensures
        match end_of_value_step(
            here.index as int,
            here.offset as int,
            chr,
            path_view(old(key_chain)@),
            allow_comments,
        ) {
            Ok(next) => {
                &&& r is Ok
                &&& final(state)@ == next.mode
                &&& path_view(final(key_chain)@) == next.chain
                &&& (*final(state) matches State::Comment { start, .. } ==> start == here)
                &&& bounded(next.chain, here.index + 1)
            },
            Err(f) => {
                &&& r matches Err(e)
                &&& e@ == f
                &&& *final(state) == *old(state)
                &&& *final(key_chain) == *old(key_chain)
            },
        },
{
    let ghost before = path_view(key_chain@);
    if chr == ',' {
        match top_of(key_chain) {
            Top::Index(n) => {
                let _ = key_chain.pop();
                key_chain.push(JSONKey::Index(n + 1));
                *state = State::ExpectingValue;
                proof {
                    assert(path_view(key_chain@) =~= bumped(before));
                }
            },
            _ => {
                pop_key(key_chain);
                *state = State::InObject;
            },
        }
        Ok(())
    } else if chr == '}' && matches!(top_of(key_chain), Top::Slice) {
        pop_key(key_chain);
        Ok(())
    } else if chr == ']' && matches!(top_of(key_chain), Top::Index(_)) {
        pop_key(key_chain);
        Ok(())
    } else if allow_comments && (chr == '/' || chr == '#') {
        pop_key(key_chain);
        *state = State::Comment {
            start: here,
            multiline: false,
            last_was_asterisk: false,
            hash: chr == '#',
        };
        Ok(())
    } else if !char_is_whitespace(chr) {
        Err(JSONParseError { at: here.offset, reason: JSONParseErrorReason::ExpectedEndOfValue })
    } else {
        Ok(())
    }
}

/// What the scanner does behind a complete value.
pub enum Settled {
    /// Go on with the next character, in this state.
    Go(State),
    /// Return this result.
    Stop(Result<usize, JSONParseError>),
}

/// Reads the character `chr`, which stands at `here` and ends at `next`,
/// behind a complete value: [`end_of_value`], and the exit on the first value
/// where the key chain is empty after it.
pub(crate) fn after_value(
    Ghost(text): Ghost<Seq<char>>,
    here: Position,
    chr: char,
    next: Position,
    key_chain: &mut Vec<JSONKey<'_>>,
    options: &ParseOptions,
) -> (s: Settled)
    requires
        here.marks(text),
        next.marks(text),
        here.index < text.len(),
        next.index == here.index + 1,
        chr == text[here.index as int],
        bounded(path_view(old(key_chain)@), here.index as int),
    ensures
        match settle(text, *options, here.index as int, path_view(old(key_chain)@)) {
            Next::Go(to) => {
                &&& s matches Settled::Go(state)
                &&& state@ == to.mode
                &&& path_view(final(key_chain)@) == to.chain
                &&& state.tracks(text, here.index + 1)
                &&& bounded(to.chain, here.index + 1)
            },
            Next::Stop(result) => {
                &&& s matches Settled::Stop(r)
                &&& outcome_view(r) == result
            },
        },
{
    let mut state = State::EndOfValue;
    match end_of_value(here, chr, &mut state, key_chain, options.allow_comments) {
        Err(e) => Settled::Stop(Err(e)),
        Ok(()) => {
            if options.exit_on_first_value && key_chain.len() == 0 && chr != ',' {
                Settled::Stop(Ok(next.offset))
            } else {
                Settled::Go(state)
            }
        },
    }
}

/// What the scanner does after one character.
pub enum Move<'a> {
    /// Go on with the next character, in this state.
    Advance(State),
    /// Hand this value to the callback. If the scan is stopped there, it
    /// returns `resume`. If it goes on, the state is that of a complete value;
    /// where `delimited` is set, the character that ended the value has still
    /// to be read as the one behind it, by [`after_value`].
    Emit { value: RootJSONValue<'a>, resume: usize, delimited: bool },
    /// Return this result.
    Halt(Result<usize, JSONParseError>),
}

/// The move `m`, with the key chain `after` it, is what the machine does on
/// the character with index `i` in state `state` with the key chain `before`.
pub open spec fn follows(
    text: Seq<char>,
    options: ParseOptions,
    i: int,
    state: State,
    before: Seq<JSONKey<'_>>,
    m: Move<'_>,
    after: Seq<JSONKey<'_>>,
) -> bool {
    let chain = path_view(before);
    match step(text, options, i, Config { mode: state@, chain }) {
        Step::Advance(next) => {
            &&& m matches Move::Advance(s)
            &&& s@ == next.mode
            &&& path_view(after) == next.chain
            &&& s.tracks(text, i + 1)
            &&& bounded(next.chain, i + 1)
        },
        Step::Emit { value, resume, then } => {
            &&& m matches Move::Emit { value: v, resume: r, delimited }
            &&& v@ == value
            &&& r == resume
            &&& after == before
            &&& then == (if delimited {
                settle(text, options, i, chain)
            } else {
                Next::Go(Config { mode: Mode::EndOfValue, chain })
            })
        },
        Step::Halt(result) => {
            &&& m matches Move::Halt(r)
            &&& outcome_view(r) == result
        },
    }
}

/// Where the scanner goes on after a comment, or after the `}` of an object
/// without fields.
fn state_after_comment(key_chain: &Vec<JSONKey<'_>>) -> (state: State)
    ensures
        state@ == mode_after_comment(path_view(key_chain@)),
        state is ExpectingValue || state is InObject,
{
    match top_of(key_chain) {
        Top::Index(_) => State::ExpectingValue,
        _ => State::InObject,
    }
}

fn refuse(here: Position, reason: JSONParseErrorReason) -> (m: Move<'static>)
    ensures
        m == Move::Halt(Err(JSONParseError { at: here.offset, reason })),
{
    Move::Halt(Err(JSONParseError { at: here.offset, reason }))
}

/// Reads one character: `chr`, which stands at `here` and ends at `next`.
pub(crate) fn on_char<'a>(
    on: &'a str,
    here: Position,
    chr: char,
    next: Position,
    state: State,
    key_chain: &mut Vec<JSONKey<'a>>,
    options: &ParseOptions,
) -> (m: Move<'a>)
    requires
        here.marks(on@),
        next.marks(on@),
        here.index < on@.len(),
        next.index == here.index + 1,
        chr == on@[here.index as int],
        state.tracks(on@, here.index as int),
        bounded(path_view(old(key_chain)@), here.index as int),
    ensures
        follows(on@, *options, here.index as int, state, old(key_chain)@, m, final(key_chain)@),
{
    let ghost chain = path_view(key_chain@);
    match state {
        State::InKey { escaped, start } => {
            if !escaped && chr == '"' {
                let name = slice_between(on, start, here);
                key_chain.push(JSONKey::Slice(name));
                proof {
                    assert(path_view(key_chain@) =~= chain.push(KeyView::Slice(name@)));
                }
                Move::Advance(State::Colon)
            } else {
                Move::Advance(State::InKey { escaped: !escaped && chr == '\\', start })
            }
        },
        State::StringValue { start, escaped } => {
            if !escaped && chr == '"' {
                let content = slice_between(on, start, here);
                Move::Emit {
                    value: RootJSONValue::String(content),
                    resume: next.offset,
                    delimited: false,
                }
            } else {
                Move::Advance(State::StringValue { start, escaped: !escaped && chr == '\\' })
            }
        },
        State::Colon => {
            if chr == ':' {
                Move::Advance(State::ExpectingValue)
            } else if !char_is_whitespace(chr) {
                refuse(here, JSONParseErrorReason::ExpectedColon)
            } else {
                Move::Advance(state)
            }
        },
        State::EndOfValue => {
            match after_value(Ghost(on@), here, chr, next, key_chain, options) {
                Settled::Go(after) => Move::Advance(after),
                Settled::Stop(r) => Move::Halt(r),
            }
        },
        State::Comment { start, multiline, last_was_asterisk, hash } => {
            if chr == '\n' && !multiline {
                Move::Advance(state_after_comment(key_chain))
            } else if chr == '*' && start.index + 1 == here.index && !hash {
                Move::Advance(State::Comment { start, multiline: true, last_was_asterisk, hash })
            } else if multiline {
                if last_was_asterisk && chr == '/' {
                    Move::Advance(state_after_comment(key_chain))
                } else {
                    Move::Advance(
                        State::Comment { start, multiline, last_was_asterisk: chr == '*', hash },
                    )
                }
            } else {
                Move::Advance(state)
            }
        },
        State::ExpectingValue => {
            if chr == '{' {
                Move::Advance(State::InObject)
            } else if chr == '[' {
                key_chain.push(JSONKey::Index(0));
                proof {
                    assert(path_view(key_chain@) =~= chain.push(KeyView::Index(0)));
                }
                Move::Advance(State::ExpectingValue)
            } else if chr == '"' {
                Move::Advance(State::StringValue { start: next, escaped: false })
            } else if options.allow_comments && (chr == '/' || chr == '#') {
                Move::Advance(
                    State::Comment {
                        start: here,
                        multiline: false,
                        last_was_asterisk: false,
                        hash: chr == '#',
                    },
                )
            } else if ('0' <= chr && chr <= '9') || chr == '-' {
                Move::Advance(State::NumberValue { start: here })
            } else if chr == 't' || chr == 'f' || chr == 'n' {
                Move::Advance(State::TrueFalseNull { start: here })
            } else if char_is_whitespace(chr) {
                Move::Advance(state)
            } else {
                refuse(here, JSONParseErrorReason::ExpectedValue)
            }
        },
        State::InObject => {
            if chr == '"' {
                Move::Advance(State::InKey { escaped: false, start: next })
            } else if chr == '}' {
                Move::Advance(state_after_comment(key_chain))
            } else if options.allow_comments && (chr == '/' || chr == '#') {
                Move::Advance(
                    State::Comment {
                        start: here,
                        multiline: false,
                        last_was_asterisk: false,
                        hash: chr == '#',
                    },
                )
            } else if !char_is_whitespace(chr) {
                refuse(here, JSONParseErrorReason::ExpectedKey)
            } else {
                Move::Advance(state)
            }
        },
        State::NumberValue { start } => {
            if char_is_whitespace(chr) || chr == '}' || chr == ',' || chr == ']' {
                let digits = slice_between(on, start, here);
                Move::Emit {
                    value: RootJSONValue::Number(digits),
                    resume: here.offset,
                    delimited: true,
                }
            } else {
                Move::Advance(state)
            }
        },
        State::TrueFalseNull { start } => {
            let seen = here.index - start.index + 1;
            if seen < 4 {
                Move::Advance(state)
            } else {
                let token = slice_between(on, start, next);
                proof {
                    reveal_strlit("true");
                    reveal_strlit("null");
                    reveal_strlit("fals");
                    reveal_strlit("false");
                    assert("true"@ =~= literal_true());
                    assert("null"@ =~= literal_null());
                    assert("fals"@ =~= literal_fals());
                    assert("false"@ =~= literal_false());
                }
                if seen == 4 {
                    if same_text(token, "true") {
                        Move::Emit {
                            value: RootJSONValue::Boolean(true),
                            resume: next.offset,
                            delimited: false,
                        }
                    } else if same_text(token, "null") {
                        Move::Emit {
                            value: RootJSONValue::Null,
                            resume: next.offset,
                            delimited: false,
                        }
                    } else if same_text(token, "fals") {
                        Move::Advance(state)
                    } else {
                        refuse(here, JSONParseErrorReason::ExpectedTrueFalseNull)
                    }
                } else if same_text(token, "false") {
                    Move::Emit {
                        value: RootJSONValue::Boolean(false),
                        resume: next.offset,
                        delimited: false,
                    }
                } else {
                    refuse(here, JSONParseErrorReason::ExpectedTrueFalseNull)
                }
            }
        },
    }
}

/// What the scanner does at the end of the text.
pub enum Ending<'a> {
    /// Hand this value, a number that the end of the text completes, to the
    /// callback, and return the length of the text.
    Value(RootJSONValue<'a>),
    /// Return this result.
    Verdict(Result<usize, JSONParseError>),
}

/// Reads the end of the text, which stands at `end`.
pub(crate) fn on_end<'a>(
    on: &'a str,
    end: Position,
    state: State,
    key_chain: &Vec<JSONKey<'a>>,
) -> (e: Ending<'a>)
    requires
        end.marks(on@),
        end.index == on@.len(),
        state.tracks(on@, end.index as int),
    ensures
        ({
            let chain = path_view(key_chain@);
            let last = finish(on@, Config { mode: state@, chain });
            match e {
                Ending::Value(v) => {
                    &&& last.events == seq![
                        Event { keys: chain, value: v@, resume: end.offset as int },
                    ]
                    &&& last.result == Ok::<int, Failure>(end.offset as int)
                },
                Ending::Verdict(r) => {
                    &&& last.events == Seq::<Event>::empty()
                    &&& outcome_view(r) == last.result
                },
            }
        }),
{
    let at = end.offset;
    match state {
        State::InKey { .. } | State::StringValue { .. } => Ending::Verdict(
            Err(JSONParseError { at, reason: JSONParseErrorReason::ExpectedQuote }),
        ),
        State::Colon => Ending::Verdict(
            Err(JSONParseError { at, reason: JSONParseErrorReason::ExpectedColon }),
        ),
        State::Comment { multiline, .. } => {
            if multiline {
                Ending::Verdict(
                    Err(
                        JSONParseError {
                            at,
                            reason: JSONParseErrorReason::ExpectedEndOfMultilineComment,
                        },
                    ),
                )
            } else {
                Ending::Verdict(Ok(at))
            }
        },
        State::EndOfValue | State::ExpectingValue => {
            if key_chain.len() > 0 {
                Ending::Verdict(
                    Err(JSONParseError { at, reason: JSONParseErrorReason::ExpectedBracket }),
                )
            } else {
                Ending::Verdict(Ok(at))
            }
        },
        State::InObject => Ending::Verdict(
            Err(JSONParseError { at, reason: JSONParseErrorReason::ExpectedBracket }),
        ),
        State::NumberValue { start } => Ending::Value(
            RootJSONValue::Number(slice_between(on, start, end)),
        ),
        State::TrueFalseNull { .. } => Ending::Verdict(
            Err(JSONParseError { at, reason: JSONParseErrorReason::ExpectedTrueFalseNull }),
        ),
    }
}

/// What a callback may answer: whether the scan is to stop.
pub trait ExitSignal: Sized {
    spec fn asks_to_stop(&self) -> bool;

    fn stop(self) -> (b: bool)
        ensures
            b == self.asks_to_stop(),
    ;
}

/// A callback that answers nothing never stops the scan.
impl ExitSignal for () {
    open spec fn asks_to_stop(&self) -> bool {
        false
    }

    fn stop(self) -> (b: bool) {
        false
    }
}

/// A callback that answers `true` stops the scan.
impl ExitSignal for bool {
    open spec fn asks_to_stop(&self) -> bool {
        *self
    }

    fn stop(self) -> (b: bool) {
        self
    }
}

/// The callback was handed `event`, and what it answered asks to stop, or
/// does not, as `stop` says.
pub open spec fn answered<'a, R: ExitSignal, F: FnMut(&[JSONKey<'a>], RootJSONValue<'a>) -> R>(
    cb: F,
    event: Event,
    stop: bool,
) -> bool {
    exists|keys: &[JSONKey<'a>], value: RootJSONValue<'a>, answer: R|
        #![trigger call_ensures(cb, (keys, value), answer)]
        {
            &&& path_view(keys@) == event.keys
            &&& value@ == event.value
            &&& call_ensures(cb, (keys, value), answer)
            &&& answer.asks_to_stop() == stop
        }
}

/// The options of [`parse`]: the whole text is read, and comments are accepted.
pub open spec fn lenient() -> ParseOptions {
    ParseOptions { exit_on_first_value: false, allow_comments: true }
}

/// The callback can be called with every event of `trace`.
pub open spec fn accepts<'a, R: ExitSignal, F: FnMut(&[JSONKey<'a>], RootJSONValue<'a>) -> R>(
    cb: F,
    trace: Trace,
) -> bool {
    forall|keys: &[JSONKey<'a>], value: RootJSONValue<'a>, k: int|
        #![trigger call_requires(cb, (keys, value)), trace.events[k]]
        {
            &&& 0 <= k < trace.events.len()
            &&& path_view(keys@) == trace.events[k].keys
            &&& value@ == trace.events[k].value
        } ==> call_requires(cb, (keys, value))
}

/// `result` is what a scan with the events and the result of `trace` returns
/// when the callback lets the first `passed` events pass and stops at the next
/// one, if there is one.
pub open spec fn explains<'a, R: ExitSignal, F: FnMut(&[JSONKey<'a>], RootJSONValue<'a>) -> R>(
    cb: F,
    trace: Trace,
    passed: int,
    result: Result<int, Failure>,
) -> bool {
    &&& 0 <= passed <= trace.events.len()
    &&& forall|k: int| 0 <= k < passed ==> answered(cb, #[trigger] trace.events[k], false)
    &&& if passed < trace.events.len() {
        &&& answered(cb, trace.events[passed], true)
        &&& result == Ok::<int, Failure>(trace.events[passed].resume)
    } else {
        result == trace.result
    }
}

/// The scan itself, for a callback with either kind of answer.
#[verifier::loop_isolation(false)]
pub(crate) fn drive<'a, R: ExitSignal, F: FnMut(&[JSONKey<'a>], RootJSONValue<'a>) -> R>(
    on: &'a str,
    mut cb: F,
    options: &ParseOptions,
) -> (r: Result<usize, JSONParseError>)
    requires
        accepts(cb, scan(on@, *options)),
    ensures
        exists|passed: int| #[trigger] explains(cb, scan(on@, *options), passed, outcome_view(r)),
{
    let ghost text = on@;
    let ghost whole = scan(text, *options);
    let ghost callback = cb;
    let ghost mut seen: Seq<Event> = Seq::empty();
    // The length of the text in bytes bounds every offset computed below.
    let length = on.as_bytes().len();
    let mut chars = on.chars();
    let mut here = Position { index: 0, offset: 0 };
    let mut key_chain: Vec<JSONKey<'a>> = Vec::new();
    let mut state = State::ExpectingValue;
    proof {
        lemma_offset_ends(text);
        assert(text.subrange(0, text.len() as int) =~= text);
        assert(path_view(key_chain@) =~= initial().chain);
        assert(seen + whole.events =~= whole.events);
    }
    loop
        invariant
            cb == callback,
            length == encode_utf8(text).len(),
            here.marks(text),
            chars.obeys_prophetic_iter_laws(),
            chars.remaining() == text.subrange(here.index as int, text.len() as int),
            state.tracks(text, here.index as int),
            bounded(path_view(key_chain@), here.index as int),
            forall|k: int| 0 <= k < seen.len() ==> answered(callback, #[trigger] seen[k], false),
            ({
                let rest = scan_from(
                    text,
                    *options,
                    here.index as int,
                    Config { mode: state@, chain: path_view(key_chain@) },
                );
                &&& whole.events == seen + rest.events
                &&& whole.result == rest.result
            }),
        decreases text.len() - here.index,
    {
        let ghost cfg = Config { mode: state@, chain: path_view(key_chain@) };
        match chars.next() {
            None => {
                match on_end(on, here, state, &key_chain) {
                    Ending::Value(value) => {
                        let ghost event = Event {
                            keys: cfg.chain,
                            value: value@,
                            resume: here.offset as int,
                        };
                        proof {
                            assert(whole.events =~= seen.push(event));
                            assert(whole.events[seen.len() as int] == event);
                        }
                        let answer = cb(key_chain.as_slice(), value);
                        proof {
                            let stopped = answer.asks_to_stop();
                            let result = outcome_view(Ok(here.offset));
                            assert(answered(callback, event, stopped));
                            if stopped {
                                assert(explains(callback, whole, seen.len() as int, result));
                            } else {
                                assert(explains(callback, whole, seen.len() as int + 1, result));
                            }
                        }
                        return Ok(here.offset);
                    },
                    Ending::Verdict(r) => {
                        proof {
                            assert(whole.events =~= seen);
                            assert(explains(callback, whole, seen.len() as int, outcome_view(r)));
                        }
                        return r;
                    },
                }
            },
            Some(chr) => {
                let width = char_width(chr);
                proof {
                    lemma_offset_step(text, here.index as int);
                    lemma_offset_grows(text, 0, here.index + 1);
                    lemma_offset_grows(text, here.index + 1, text.len() as int);
                    lemma_offset_ends(text);
                }
                let next = Position { index: here.index + 1, offset: here.offset + width };
                match on_char(on, here, chr, next, state, &mut key_chain, options) {
                    Move::Advance(after) => {
                        state = after;
                    },
                    Move::Emit { value, resume, delimited } => {
                        let ghost event = Event {
                            keys: cfg.chain,
                            value: value@,
                            resume: resume as int,
                        };
                        proof {
                            assert(whole.events[seen.len() as int] == event);
                        }
                        let answer = cb(key_chain.as_slice(), value);
                        if answer.stop() {
                            proof {
                                let result = outcome_view(Ok(resume));
                                assert(answered(callback, event, true));
                                assert(explains(callback, whole, seen.len() as int, result));
                            }
                            return Ok(resume);
                        }
                        proof {
                            assert(answered(callback, event, false));
                            seen = seen.push(event);
                        }
                        state = State::EndOfValue;
                        if delimited {
                            match after_value(Ghost(text), here, chr, next, &mut key_chain, options) {
                                Settled::Stop(r) => {
                                    proof {
                                        let result = outcome_view(r);
                                        assert(whole.events =~= seen);
                                        assert(explains(callback, whole, seen.len() as int, result));
                                    }
                                    return r;
                                },
                                Settled::Go(after) => {
                                    state = after;
                                },
                            }
                        }
                        proof {
                            let after = scan_from(
                                text,
                                *options,
                                next.index as int,
                                Config { mode: state@, chain: path_view(key_chain@) },
                            );
                            assert(whole.events =~= seen + after.events);
                        }
                    },
                    Move::Halt(r) => {
                        proof {
                            assert(whole.events =~= seen);
                            assert(explains(callback, whole, seen.len() as int, outcome_view(r)));
                        }
                        return r;
                    },
                }
                here = next;
            },
        }
    }
}

/// Scans `on` and hands every scalar value in it to `cb`, with the key path
/// that leads to it. Comments are accepted. Returns the length of the text in
/// bytes, or the first error.
///
/// To stop early, or to choose the options, use [`parse_with_exit_signal`].
pub fn parse<'a>(
    on: &'a str,
    cb: impl for <'b>FnMut(&'b [JSONKey<'a>], RootJSONValue<'a>),
) -> (r: Result<usize, JSONParseError>)
    requires
        accepts(cb, scan(on@, lenient())),
    ensures
        outcome_view(r) == scan(on@, lenient()).result,
        forall|k: int|
            0 <= k < scan(on@, lenient()).events.len() ==> answered(
                cb,
                #[trigger] scan(on@, lenient()).events[k],
                false,
            ),
{
    let options = ParseOptions { exit_on_first_value: false, allow_comments: true };
    drive(on, cb, &options)
}

/// Scans `on` and hands every scalar value in it to `cb`, with the key path
/// that leads to it, until `cb` answers `true`. Returns the number of bytes
/// read: the offset at which a later scan could go on when `cb` stopped this
/// one, or when the first top-level value is complete and
/// `exit_on_first_value` is set, and the length of the text otherwise. A text
/// that is refused before that gives the first error.
pub fn parse_with_exit_signal<'a>(
    on: &'a str,
    cb: impl for <'b>FnMut(&'b [JSONKey<'a>], RootJSONValue<'a>) -> bool,
    options: &ParseOptions,
) -> (r: Result<usize, JSONParseError>)
    requires
        accepts(cb, scan(on@, *options)),
    ensures
        exists|passed: int| #[trigger] explains(cb, scan(on@, *options), passed, outcome_view(r)),
{
    drive(on, cb, options)
}

} // verus!
