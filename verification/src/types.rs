//! The values that the scanner hands out and the errors it reports.

use vstd::prelude::*;

verus! {

/// One step of the route from the root of a document to a value.
#[derive(Debug, Clone, PartialEq, Eq)]
pub enum JSONKey<'a> {
    /// A field name, as it stands between its quotes: escapes are kept.
    Slice(&'a str),
    /// A position in an array, counted from zero.
    Index(usize),
}

/// What a [`JSONKey`] stands for.
pub enum KeyView {
    Slice(Seq<char>),
    Index(nat),
}

impl<'a> View for JSONKey<'a> {
    type V = KeyView;

    open spec fn view(&self) -> KeyView {
        match self {
            JSONKey::Slice(name) => KeyView::Slice(name@),
            JSONKey::Index(n) => KeyView::Index(*n as nat),
        }
    }
}

/// What a key path stands for, key by key.
pub open spec fn path_view(keys: Seq<JSONKey<'_>>) -> Seq<KeyView> {
    Seq::new(keys.len(), |k: int| keys[k]@)
}

/// A scalar value found in a document.
#[derive(Debug, PartialEq, Eq)]
pub enum RootJSONValue<'a> {
    /// The content of a string, without its quotes: escapes are kept.
    String(&'a str),
    /// The text of a number, as written.
    Number(&'a str),
    Boolean(bool),
    Null,
}

/// What a [`RootJSONValue`] stands for.
pub enum ValueView {
    String(Seq<char>),
    Number(Seq<char>),
    Boolean(bool),
    Null,
}

impl<'a> View for RootJSONValue<'a> {
    type V = ValueView;

    open spec fn view(&self) -> ValueView {
        match self {
            RootJSONValue::String(content) => ValueView::String(content@),
            RootJSONValue::Number(digits) => ValueView::Number(digits@),
            RootJSONValue::Boolean(b) => ValueView::Boolean(*b),
            RootJSONValue::Null => ValueView::Null,
        }
    }
}

/// Why a text was refused.
#[derive(Debug, Clone, Copy, PartialEq, Eq)]
pub enum JSONParseErrorReason {
    ExpectedColon,
    ExpectedEndOfValue,
    /// Doubles as both closing and ending
    ExpectedBracket,
    ExpectedTrueFalseNull,
    ExpectedKey,
    ExpectedValue,
    ExpectedEndOfMultilineComment,
    /// Both for string values and keys
    ExpectedQuote,
}

/// A refusal: the byte offset at which it was noticed, and why.
#[derive(Debug, Clone, Copy, PartialEq, Eq)]
pub struct JSONParseError {
    pub at: usize,
    pub reason: JSONParseErrorReason,
}

/// What a [`JSONParseError`] stands for.
pub struct Failure {
    pub at: int,
    pub reason: JSONParseErrorReason,
}

impl View for JSONParseError {
    type V = Failure;

    open spec fn view(&self) -> Failure {
        Failure { at: self.at as int, reason: self.reason }
    }
}

/// What the result of a scan stands for: the bytes consumed, or the refusal.
pub open spec fn outcome_view(r: Result<usize, JSONParseError>) -> Result<int, Failure> {
    match r {
        Ok(n) => Ok(n as int),
        Err(e) => Err(e@),
    }
}

/// The two switches of a scan.
pub struct ParseOptions {
    /// Return as soon as the first top-level value is complete.
    pub exit_on_first_value: bool,
    /// Accept `//`, `#` and `/* */` comments.
    pub allow_comments: bool,
}

impl Default for ParseOptions {
    fn default() -> (options: Self)
        ensures
            !options.exit_on_first_value,
            !options.allow_comments,
    {
        ParseOptions { exit_on_first_value: false, allow_comments: false }
    }
}

} // verus!
