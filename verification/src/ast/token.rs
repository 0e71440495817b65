//! # The string tokeniser
//!
//! This module contains the function [`tokenize`] to convert a string slice to a sequence of
//! tokens.
//!
//! A token is one of left and right parentheses, a single quote, a string or number literal or an
//! atom.
//!
//! ## String values
//!
//! A string value is delimited by the quote (`"`) character, and may contain a limited number of
//! escaped characters: `\"` and `\\`.
//!
//! ## Number values
//!
//! A number value is any token starting with a digit, a decimal dot (`.`) or a negative sign
//! (`-`). It may include any number of leading zeroes, but at most one decimal dot.
//!
//! ## Atoms
//!
//! Atoms may contain any ASCII alphanumeric characters as well as `'+'`, `'*'`, `'/'`, `'-'`,
//! `'_'`, `'!'`, `'?'`, `'='`, `'<'`, `'>'`. They may not start with a digit.
use vstd::prelude::*;

use super::tokenizer::{
    lemma_tokens_from_text, lexeme_well_formed, pos_at, positions_fit, read_from, remaining, skip_from,
    spec_tokenize, token_at, tokenize_all, tokens_from,
};
use super::{position_fits, PositionValue};
use crate::text::chars_of;
use super::{Position, PositionedError, PositionedErrorCause};

verus! {

/// An error occurring during tokenisation.
#[derive(Clone, Copy, Debug, PartialEq, Eq)]
pub enum Error {
    /// The input terminated unexpectedly.
    UnexpectedEnd,
    /// An unexpected character was encountered.
    UnexpectedCharacter {
        /// The character.
        character: char,
    },
}

impl PositionedErrorCause for Error {}

/// The abstract value of a token.
pub enum Lexeme {
    LeftParenthesis,
    RightParenthesis,
    Quote,
    String(Seq<char>),
    Number(Seq<char>),
    Atom(Seq<char>),
}

/// An individual token value.
#[derive(Debug, PartialEq)]
pub enum Value {
    /// A left parenthesis; this is the start of a list.
    LeftParenthesis,
    /// A right parenthesis; this is the end of a list.
    RightParenthesis,
    /// A single quote; this is shorthand to prevent evaluation of lists.
    Quote,
    /// A string literal, including its delimiting quotes and escapes.
    String { value: String },
    /// A number literal.
    Number { value: String },
    /// An atom.
    Atom { value: String },
}

impl View for Value {
    type V = Lexeme;

    open spec fn view(&self) -> Lexeme {
        match self {
            Value::LeftParenthesis => Lexeme::LeftParenthesis,
            Value::RightParenthesis => Lexeme::RightParenthesis,
            Value::Quote => Lexeme::Quote,
            Value::String { value } => Lexeme::String(value@),
            Value::Number { value } => Lexeme::Number(value@),
            Value::Atom { value } => Lexeme::Atom(value@),
        }
    }
}

/// The abstract token: its value and position.
pub type TokenView = (Lexeme, (int, int));

/// The abstract failure of the tokeniser: its cause and position.
pub type Failure = (Error, (int, int));

/// The abstract outcome of reading one token.
pub type Outcome = core::result::Result<TokenView, Failure>;

/// An input token.
#[derive(Debug, PartialEq)]
pub struct Token {
    /// The token value.
    value: Value,
    /// The position in the input string.
    position: Position,
}

impl View for Token {
    type V = TokenView;

    closed spec fn view(&self) -> TokenView {
        (self.value@, self.position@)
    }
}

impl Token {
    /// Creates a token.
    pub fn new(value: Value, position: Position) -> (r: Self)
        ensures
            r@ == (value@, position@),
    {
        Token { value, position }
    }

    /// The value.
    pub fn value(&self) -> (r: &Value)
        ensures
            r@ == self@.0,
    {
        &self.value
    }

    /// The position.
    pub fn position(&self) -> (r: &Position)
        ensures
            r@ == self@.1,
    {
        &self.position
    }

    /// Splits this token into its value and position.
    pub fn into_parts(self) -> (r: (Value, Position))
        ensures
            r.0@ == self@.0,
            r.1@ == self@.1,
    {
        (self.value, self.position)
    }
}

/// The result of tokeniser operations.
pub type Result = core::result::Result<Token, PositionedError<Error>>;

/// The abstract value of a tokeniser result.
pub open spec fn outcome(r: Result) -> Outcome {
    match r {
        Ok(t) => Ok(t@),
        Err(e) => Err((e.spec_cause(), e.spec_position())),
    }
}

/// A stream of tokenizer results.
///
/// The stream yields tokens until an error is encountered, which is the last item.
pub struct Tokens {
    /// The remaining results, last one first.
    reversed: Vec<Result>,
}

impl View for Tokens {
    type V = Seq<Outcome>;

    closed spec fn view(&self) -> Seq<Outcome> {
        Seq::new(self.reversed@.len(), |i: int| outcome(self.reversed@[self.reversed@.len() - 1 - i]))
    }
}

impl Tokens {
    /// Creates a stream yielding the given results in order.
    pub fn from_results(results: Vec<Result>) -> (r: Self)
        ensures
            r@ == results@.map_values(|x: Result| outcome(x)),
    {
        let mut results = results;
        let ghost given = results@;
        let mut reversed: Vec<Result> = Vec::new();
        while results.len() > 0
            invariant
                results@ == given.take(results@.len() as int),
                results@.len() <= given.len(),
                reversed@.len() == given.len() - results@.len(),
                forall|i: int|
                    0 <= i < reversed@.len() ==> #[trigger] reversed@[i] == given[given.len() - 1 - i],
            decreases results@.len(),
        {
            let x = results.pop().unwrap();
            reversed.push(x);
        }
        let r = Tokens { reversed };
        assert(r@ =~= given.map_values(|x: Result| outcome(x)));
        r
    }

    /// Whether the next result is a right parenthesis.
    pub fn next_closes(&self) -> (r: bool)
        ensures
            r == (self@.len() > 0 && self@[0] matches Ok((Lexeme::RightParenthesis, _))),
    {
        let n = self.reversed.len();
        if n == 0 {
            false
        } else {
            match &self.reversed[n - 1] {
                Ok(t) => match t.value() {
                    Value::RightParenthesis => true,
                    _ => false,
                },
                Err(_) => false,
            }
        }
    }

    /// Takes the next result.
    pub fn next(&mut self) -> (r: Option<Result>)
        ensures
            old(self)@.len() == 0 ==> r is None && final(self)@ == old(self)@,
            old(self)@.len() > 0 ==> (r matches Some(x) && outcome(x) == old(self)@[0]
                && final(self)@ == old(self)@.drop_first()),
    {
        let ghost before = self@;
        let r = self.reversed.pop();
        proof {
            if before.len() > 0 {
                assert(self@ =~= before.drop_first());
            } else {
                assert(self@ =~= before);
            }
        }
        r
    }

    /// Collects the remaining results in order.
    pub fn into_results(self) -> (r: Vec<Result>)
        ensures
            r@.map_values(|x: Result| outcome(x)) == self@,
    {
        let mut tokens = self;
        let mut r: Vec<Result> = Vec::new();
        let ghost all = tokens@;
        while tokens.reversed.len() > 0
            invariant
                all == r@.map_values(|x: Result| outcome(x)) + tokens@,
            decreases tokens@.len(),
        {
            let ghost before = tokens@;
            let x = tokens.next().unwrap();
            r.push(x);
            assert(all == r@.map_values(|x: Result| outcome(x)) + tokens@) by {
                assert(before == seq![outcome(x)] + tokens@);
            }
        }
        assert(tokens@ =~= Seq::<Outcome>::empty());
        assert(all =~= r@.map_values(|x: Result| outcome(x)));
        r
    }

    /// Collects the remaining tokens, or returns the first error.
    pub fn collect_tokens(self) -> (r: core::result::Result<Vec<Token>, PositionedError<Error>>)
        ensures
            match r {
                Ok(v) => v@.map_values(|t: Token| Ok::<TokenView, Failure>(t@)) == self@,
                Err(e) => exists|i: int|
                    0 <= i < self@.len() && self@[i] == Err::<TokenView, Failure>(
                        (e.spec_cause(), e.spec_position()),
                    ) && forall|j: int| 0 <= j < i ==> (#[trigger] self@[j]) is Ok,
            },
    {
        let mut tokens = self;
        let mut r: Vec<Token> = Vec::new();
        let ghost all = tokens@;
        assert(all == self@);
        while tokens.reversed.len() > 0
            invariant
                all == self@,
                all == r@.map_values(|t: Token| Ok::<TokenView, Failure>(t@)) + tokens@,
            decreases tokens@.len(),
        {
            let ghost before = tokens@;
            let ghost done = r@.map_values(|t: Token| Ok::<TokenView, Failure>(t@));
            match tokens.next().unwrap() {
                Ok(t) => {
                    r.push(t);
                    assert(all == r@.map_values(|t: Token| Ok::<TokenView, Failure>(t@)) + tokens@) by {
                        assert(before == seq![Ok::<TokenView, Failure>(t@)] + tokens@);
                    }
                },
                Err(e) => {
                    let ghost i = done.len() as int;
                    assert(all[i] == before[0]);
                    assert forall|j: int| 0 <= j < i implies (#[trigger] all[j]) is Ok by {
                        assert(all[j] == done[j]);
                    }
                    assert(0 <= i < all.len() && all[i] == Err::<TokenView, Failure>(
                        (e.spec_cause(), e.spec_position()),
                    ) && forall|j: int| 0 <= j < i ==> (#[trigger] all[j]) is Ok);
                    return Err(e);
                },
            }
        }
        assert(all =~= r@.map_values(|t: Token| Ok::<TokenView, Failure>(t@)));
        Ok(r)
    }
}

/// Every result read from `cur` on but the last is a token.
proof fn lemma_tokens_from_error_last(s: Seq<char>, cur: Option<int>)
    ensures
        forall|i: int|
            0 <= i < tokens_from(s, cur).len() - 1 ==> (#[trigger] tokens_from(s, cur)[i]) is Ok,
    decreases remaining(s, cur),
{
    if let Some(k) = cur {
        if 0 <= k < s.len() {
            if let Some(j) = skip_from(s, k) {
                let (o, a) = token_at(s, j);
                if let Some(k2) = a {
                    if o is Ok && k < k2 {
                        lemma_tokens_from_error_last(s, Some(k2));
                        let t = tokens_from(s, cur);
                        let rest = tokens_from(s, Some(k2));
                        assert(t == seq![o] + rest);
                        assert forall|i: int| 0 <= i < t.len() - 1 implies (#[trigger] t[i]) is Ok by {
                            if i > 0 {
                                assert(t[i] == rest[i - 1]);
                            }
                        }
                    }
                }
            }
        }
    }
}

/// Tokenisation stops at the first error: every result but the last one is a token.
pub proof fn law_error_is_last(input: Seq<char>)
    ensures
        forall|i: int|
            0 <= i < spec_tokenize(input).len() - 1 ==> (#[trigger] spec_tokenize(input)[i]) is Ok,
{
    lemma_tokens_from_error_last(input, if input.len() > 0 { Some(0) } else { None });
}

/// Every token has the shape that this module promises: a string literal is delimited by double
/// quotes, a number starts with a digit, a dot or a sign and holds at most one dot, with digits
/// after its first character, and an atom is made of atom characters and never starts with a
/// digit.
pub proof fn law_lexeme_shapes(input: Seq<char>)
    requires
        input.len() <= usize::MAX,
    ensures
        forall|i: int|
            0 <= i < spec_tokenize(input).len() ==> (#[trigger] spec_tokenize(input)[i] matches Ok(
                (l, _),
            ) ==> lexeme_well_formed(l)),
{
    lemma_tokens_from_text(input, if input.len() > 0 { Some(0) } else { None });
}

/// Every token is read from the input: its text occurs there, at the index whose position the
/// token carries.
pub proof fn law_tokens_read_from_input(input: Seq<char>)
    requires
        input.len() <= usize::MAX,
    ensures
        forall|i: int|
            0 <= i < spec_tokenize(input).len() ==> (#[trigger] spec_tokenize(input)[i] matches Ok(
                token,
            ) ==> read_from(input, token)),
{
    lemma_tokens_from_text(input, if input.len() > 0 { Some(0) } else { None });
}

/// Whether every position in the input, up to its end, fits in a [`Position`].
///
/// Rows and columns are counted in [`PositionValue`]s; [`tokenize`] accepts exactly the inputs for
/// which this holds.
pub fn input_fits(input: &str) -> (r: bool)
    ensures
        r == positions_fit(input@),
{
    let chars = chars_of(input);
    let max: u32 = PositionValue::MAX as u32;
    let mut row: u32 = 1;
    let mut column: u32 = 1;
    let mut k: usize = 0;
    while k < chars.len()
        invariant
            k <= chars@.len(),
            chars@ == input@,
            max == PositionValue::MAX,
            (row as int, column as int) == pos_at(input@, k as int),
            row <= max && column <= max,
            forall|j: int| 0 <= j <= k ==> position_fits(#[trigger] pos_at(input@, j)),
        decreases chars@.len() - k,
    {
        if chars[k] == '\n' {
            row = row + 1;
            column = 1;
        } else {
            column = column + 1;
        }
        k = k + 1;
        assert((row as int, column as int) == pos_at(input@, k as int));
        if row > max || column > max {
            assert(!position_fits(pos_at(input@, k as int)));
            return false;
        }
    }
    true
}

/// Tokenises a string.
///
/// The stream yields tokens until an error is encountered, after which it terminates.
pub fn tokenize(input: &str) -> (r: Tokens)
    requires
        positions_fit(input@),
    ensures
        r@ == spec_tokenize(input@),
{
    let results = tokenize_all(input);
    Tokens::from_results(results)
}

} // verus!
