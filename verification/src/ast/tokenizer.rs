//! The character-level state machines of the tokeniser, and their specification.
//!
//! The specification reads the input as a sequence of characters. A tokeniser state has a
//! _current_ character, given by its index, or none once the input is exhausted or an error has
//! terminated it. Positions are 1 based rows and columns; the end of an input whose last
//! character is a newline is reported at the first column of the following row.
use vstd::prelude::*;

use super::token::{
    outcome, Error, Failure, Lexeme, Outcome, Result as TokenResult, Token, TokenView, Value,
};
use super::display::lexeme_text;
use super::{position_fits, Position, PositionedError, PositionedErrorCause};
use crate::text::{chars_of, string_of};

verus! {

// ----------------------------------------------------------------------------------------------
// Character classes
// ----------------------------------------------------------------------------------------------

/// ASCII whitespace: space, tab, line feed, form feed and carriage return.
pub open spec fn is_whitespace(c: char) -> bool {
    c == ' ' || c == '\t' || c == '\n' || c == '\u{c}' || c == '\r'
}

/// An ASCII decimal digit.
pub open spec fn is_digit(c: char) -> bool {
    '0' <= c <= '9'
}

/// An ASCII letter.
pub open spec fn is_alphabetic(c: char) -> bool {
    ('a' <= c <= 'z') || ('A' <= c <= 'Z')
}

/// A character that may start an atom.
pub open spec fn is_atom_start(c: char) -> bool {
    is_alphabetic(c) || c == '+' || c == '-' || c == '*' || c == '/' || c == '_' || c == '!'
        || c == '?' || c == '=' || c == '<' || c == '>'
}

/// A character that may continue an atom.
pub open spec fn is_atom_char(c: char) -> bool {
    is_atom_start(c) || is_digit(c)
}

/// A character that may start a number.
pub open spec fn is_number_start(c: char) -> bool {
    is_digit(c) || c == '-' || c == '.'
}

/// A character that terminates a number or an atom.
pub open spec fn is_token_end(c: char) -> bool {
    is_whitespace(c) || c == '(' || c == ')'
}

/// A character that may follow an escape in a string literal.
pub open spec fn is_escapable(c: char) -> bool {
    c == '"' || c == '\\'
}

/// A character skipped between tokens, or the start of a comment.
pub open spec fn is_skippable(c: char) -> bool {
    is_whitespace(c) || c == ';'
}

/// Whether a character is ASCII whitespace.
pub fn is_ascii_whitespace(c: char) -> (r: bool)
    ensures
        r == is_whitespace(c),
{
    c == ' ' || c == '\t' || c == '\n' || c == '\u{c}' || c == '\r'
}

/// Whether a character is an ASCII decimal digit.
pub fn is_ascii_digit(c: char) -> (r: bool)
    ensures
        r == is_digit(c),
{
    '0' <= c && c <= '9'
}

/// Whether a character is an ASCII letter.
pub fn is_ascii_alphabetic(c: char) -> (r: bool)
    ensures
        r == is_alphabetic(c),
{
    ('a' <= c && c <= 'z') || ('A' <= c && c <= 'Z')
}

// ----------------------------------------------------------------------------------------------
// Positions
// ----------------------------------------------------------------------------------------------

/// The position of the character at index `k`.
pub open spec fn pos_at(s: Seq<char>, k: int) -> (int, int)
    decreases k,
{
    if k <= 0 {
        (1, 1)
    } else {
        let p = pos_at(s, k - 1);
        if s[k - 1] == '\n' {
            (p.0 + 1, 1)
        } else {
            (p.0, p.1 + 1)
        }
    }
}

/// The position at which the end of the input is reported.
pub open spec fn end_pos(s: Seq<char>) -> (int, int) {
    if s.len() == 0 {
        (1, 1)
    } else {
        let p = pos_at(s, s.len() - 1);
        if s[s.len() - 1] == '\n' {
            (p.0 + 1, 1)
        } else {
            p
        }
    }
}

/// Every position of the input, including the one just past its end, fits a [`Position`].
pub open spec fn positions_fit(s: Seq<char>) -> bool {
    forall|k: int| 0 <= k <= s.len() ==> position_fits(#[trigger] pos_at(s, k))
}

// ----------------------------------------------------------------------------------------------
// The specification of tokenisation
// ----------------------------------------------------------------------------------------------

/// The index of the character following `k`, if any.
pub open spec fn next_index(s: Seq<char>, k: int) -> Option<int> {
    if k + 1 < s.len() {
        Some(k + 1)
    } else {
        None
    }
}

/// The index of the first newline at or after `j`, or the length of the input.
pub open spec fn newline_from(s: Seq<char>, j: int) -> int
    decreases s.len() - j,
{
    if j >= s.len() {
        s.len() as int
    } else if j < 0 {
        newline_from(s, 0)
    } else if s[j] == '\n' {
        j
    } else {
        newline_from(s, j + 1)
    }
}

/// The current character after skipping whitespace and comments from the current character `k`.
///
/// A comment starts when a `;` is reached by moving on from a skipped character; it extends to
/// the next newline.
pub open spec fn skip_from(s: Seq<char>, k: int) -> Option<int>
    decreases s.len() - k,
{
    if !(0 <= k < s.len()) {
        None
    } else if !is_skippable(s[k]) {
        Some(k)
    } else if k + 1 >= s.len() {
        None
    } else if s[k + 1] == ';' {
        let m = newline_from(s, k + 2);
        if k < m < s.len() {
            skip_from(s, m)
        } else {
            None
        }
    } else {
        skip_from(s, k + 1)
    }
}

/// The failure reported when the input ends unexpectedly.
pub open spec fn end_failure(s: Seq<char>) -> Failure {
    (Error::UnexpectedEnd, end_pos(s))
}

/// The failure reported for an unexpected character at index `k`.
pub open spec fn char_failure(s: Seq<char>, k: int) -> Failure {
    (Error::UnexpectedCharacter { character: s[k] }, pos_at(s, k))
}

/// The step of the string literal state machine that reads the character after `k`, outside an
/// escape: a backslash starts an escape, a double quote ends the literal.
pub open spec fn string_next(s: Seq<char>, k: int) -> (
    core::result::Result<StringTokenizer, Failure>,
    Option<int>,
) {
    if k + 1 >= s.len() {
        (Err(end_failure(s)), None)
    } else if s[k + 1] == '\\' {
        (Ok(StringTokenizer::Escaped), Some(k + 1))
    } else if s[k + 1] == '"' {
        (Ok(StringTokenizer::End((k + 1) as usize)), next_index(s, k + 1))
    } else {
        (Ok(StringTokenizer::Normal), Some(k + 1))
    }
}

/// One step of the string literal state machine, from the current character `k`.
pub open spec fn string_step(s: Seq<char>, st: StringTokenizer, k: int) -> (
    core::result::Result<StringTokenizer, Failure>,
    Option<int>,
) {
    match st {
        StringTokenizer::Start => if s[k] != '"' {
            (Err(char_failure(s, k)), None)
        } else {
            string_next(s, k)
        },
        StringTokenizer::Normal => string_next(s, k),
        StringTokenizer::Escaped => if k + 1 >= s.len() {
            (Err(end_failure(s)), None)
        } else if is_escapable(s[k + 1]) {
            (Ok(StringTokenizer::Normal), Some(k + 1))
        } else {
            (Err(char_failure(s, k + 1)), None)
        },
        StringTokenizer::End(_) => (Err((Error::UnexpectedEnd, pos_at(s, k))), None),
    }
}

/// Runs the string literal state machine to its end: the index of the closing quote, and the
/// current character after it.
pub open spec fn string_run(s: Seq<char>, st: StringTokenizer, k: int) -> (
    core::result::Result<int, Failure>,
    Option<int>,
)
    decreases s.len() - k,
{
    if !(0 <= k < s.len()) {
        (Err(end_failure(s)), None)
    } else {
        match string_step(s, st, k) {
            (Err(f), a) => (Err(f), a),
            (Ok(StringTokenizer::End(e)), a) => (Ok(e as int), a),
            (Ok(st2), Some(k2)) => if k < k2 {
                string_run(s, st2, k2)
            } else {
                (Err(end_failure(s)), None)
            },
            (Ok(_), None) => (Err(end_failure(s)), None),
        }
    }
}

/// One step of the number literal state machine, from the current character `k`.
pub open spec fn number_step(s: Seq<char>, st: NumberTokenizer, k: int) -> (
    core::result::Result<NumberTokenizer, Failure>,
    Option<int>,
) {
    match st {
        NumberTokenizer::Start => if !is_number_start(s[k]) {
            (Err(char_failure(s, k)), None)
        } else if s[k] == '.' {
            (Ok(NumberTokenizer::Dot(false)), Some(k))
        } else if s[k] == '-' {
            (Ok(NumberTokenizer::IntegerPart(true)), Some(k))
        } else {
            (Ok(NumberTokenizer::IntegerPart(false)), Some(k))
        },
        NumberTokenizer::IntegerPart(negative) => if k + 1 >= s.len() {
            (Ok(NumberTokenizer::End(negative, k as usize)), None)
        } else if is_digit(s[k + 1]) {
            (Ok(NumberTokenizer::IntegerPart(negative)), Some(k + 1))
        } else if s[k + 1] == '.' {
            (Ok(NumberTokenizer::Dot(negative)), Some(k + 1))
        } else if is_token_end(s[k + 1]) {
            (Ok(NumberTokenizer::End(negative, k as usize)), Some(k + 1))
        } else if negative && is_atom_start(s[k + 1]) {
            (Ok(NumberTokenizer::IsAtom), Some(k + 1))
        } else {
            (Err(char_failure(s, k + 1)), None)
        },
        NumberTokenizer::Dot(negative) | NumberTokenizer::FractionalPart(negative) => if k + 1
            >= s.len() {
            (Ok(NumberTokenizer::End(negative, k as usize)), None)
        } else if is_digit(s[k + 1]) {
            (Ok(NumberTokenizer::FractionalPart(negative)), Some(k + 1))
        } else if is_token_end(s[k + 1]) {
            (Ok(NumberTokenizer::End(negative, k as usize)), Some(k + 1))
        } else {
            (Err(char_failure(s, k + 1)), None)
        },
        NumberTokenizer::IsAtom | NumberTokenizer::End(_, _) => (
            Err((Error::UnexpectedEnd, pos_at(s, k))),
            None,
        ),
    }
}

/// One step of the atom state machine, from the current character `k`.
pub open spec fn atom_step(s: Seq<char>, st: AtomTokenizer, k: int) -> (
    core::result::Result<AtomTokenizer, Failure>,
    Option<int>,
) {
    match st {
        AtomTokenizer::Start => if !is_atom_start(s[k]) {
            (Err(char_failure(s, k)), None)
        } else if k + 1 >= s.len() {
            (Ok(AtomTokenizer::End(k as usize)), None)
        } else if is_token_end(s[k + 1]) {
            (Ok(AtomTokenizer::End(k as usize)), Some(k + 1))
        } else if is_atom_char(s[k + 1]) {
            (Ok(AtomTokenizer::Consume), Some(k + 1))
        } else {
            (Err(char_failure(s, k + 1)), None)
        },
        AtomTokenizer::Consume => if k + 1 >= s.len() {
            (Ok(AtomTokenizer::End(k as usize)), None)
        } else if is_atom_char(s[k + 1]) {
            (Ok(AtomTokenizer::Consume), Some(k + 1))
        } else if is_token_end(s[k + 1]) {
            (Ok(AtomTokenizer::End(k as usize)), Some(k + 1))
        } else {
            (Err(char_failure(s, k + 1)), None)
        },
        AtomTokenizer::End(_) => (Err((Error::UnexpectedEnd, pos_at(s, k))), Some(k)),
    }
}

/// Runs the atom state machine to its end; the atom starts at `start`.
pub open spec fn atom_run(s: Seq<char>, start: int, st: AtomTokenizer, k: int) -> (
    core::result::Result<Lexeme, Failure>,
    Option<int>,
)
    decreases s.len() - k,
{
    if !(0 <= k < s.len()) {
        (Err(end_failure(s)), None)
    } else {
        match atom_step(s, st, k) {
            (Err(f), a) => (Err(f), a),
            (Ok(AtomTokenizer::End(e)), a) => (Ok(Lexeme::Atom(s.subrange(start, e + 1))), a),
            (Ok(st2), Some(k2)) => if k < k2 {
                atom_run(s, start, st2, k2)
            } else {
                (Err(end_failure(s)), None)
            },
            (Ok(_), None) => (Err(end_failure(s)), None),
        }
    }
}

/// The lexeme of a number literal spanning `start..=end`: a lone `-` is an atom.
pub open spec fn number_lexeme(s: Seq<char>, start: int, negative: bool, end: int) -> Lexeme {
    if negative && start == end {
        Lexeme::Atom(s.subrange(start, end + 1))
    } else {
        Lexeme::Number(s.subrange(start, end + 1))
    }
}

/// The rank of a number state: only the start state does not consume a character.
pub open spec fn number_rank(st: NumberTokenizer) -> int {
    if st is Start {
        1
    } else {
        0
    }
}

/// Runs the number literal state machine to its end; the literal starts at `start`.
///
/// A negative sign followed by an atom character turns the literal into an atom.
pub open spec fn number_run(s: Seq<char>, start: int, st: NumberTokenizer, k: int) -> (
    core::result::Result<Lexeme, Failure>,
    Option<int>,
)
    decreases s.len() - k, number_rank(st),
{
    if !(0 <= k < s.len()) {
        (Err(end_failure(s)), None)
    } else {
        match number_step(s, st, k) {
            (Err(f), a) => (Err(f), a),
            (Ok(NumberTokenizer::End(negative, e)), a) => (
                Ok(number_lexeme(s, start, negative, e as int)),
                a,
            ),
            (Ok(NumberTokenizer::IsAtom), Some(k2)) => atom_run(s, start, AtomTokenizer::Start, k2),
            (Ok(st2), Some(k2)) => if k < k2 || (k == k2 && st is Start && !(st2 is Start)) {
                number_run(s, start, st2, k2)
            } else {
                (Err(end_failure(s)), None)
            },
            (Ok(_), None) => (Err(end_failure(s)), None),
        }
    }
}

/// Attaches the token position to the lexeme read at `k`.
pub open spec fn positioned(
    s: Seq<char>,
    k: int,
    r: (core::result::Result<Lexeme, Failure>, Option<int>),
) -> (Outcome, Option<int>) {
    match r.0 {
        Ok(l) => (Ok((l, pos_at(s, k))), r.1),
        Err(f) => (Err(f), r.1),
    }
}

/// Reads a single-character token at `k`.
pub open spec fn single_token(s: Seq<char>, k: int, expected: char, l: Lexeme) -> (
    Outcome,
    Option<int>,
) {
    if s[k] == expected {
        (Ok((l, pos_at(s, k))), next_index(s, k))
    } else {
        (Err(char_failure(s, k)), None)
    }
}

/// Reads a string literal at `k`.
pub open spec fn string_token(s: Seq<char>, k: int) -> (Outcome, Option<int>) {
    match string_run(s, StringTokenizer::Start, k) {
        (Ok(e), a) => (Ok((Lexeme::String(s.subrange(k, e + 1)), pos_at(s, k))), a),
        (Err(f), a) => (Err(f), a),
    }
}

/// Reads the token starting at the current character `k`.
pub open spec fn token_at(s: Seq<char>, k: int) -> (Outcome, Option<int>) {
    let c = s[k];
    if c == '(' {
        single_token(s, k, '(', Lexeme::LeftParenthesis)
    } else if c == ')' {
        single_token(s, k, ')', Lexeme::RightParenthesis)
    } else if c == '\'' {
        single_token(s, k, '\'', Lexeme::Quote)
    } else if c == '"' {
        string_token(s, k)
    } else if is_number_start(c) {
        positioned(s, k, number_run(s, k, NumberTokenizer::Start, k))
    } else if is_atom_start(c) {
        positioned(s, k, atom_run(s, k, AtomTokenizer::Start, k))
    } else {
        (Err(char_failure(s, k)), None)
    }
}

/// The measure of a current character: what is left of the input.
pub open spec fn remaining(s: Seq<char>, cur: Option<int>) -> int {
    match cur {
        Some(k) => if 0 <= k < s.len() {
            s.len() - k + 1
        } else {
            0
        },
        None => 0,
    }
}

/// The results of tokenising from the current character `cur`.
///
/// Tokens are read until the input is exhausted; an error is the last result.
pub open spec fn tokens_from(s: Seq<char>, cur: Option<int>) -> Seq<Outcome>
    decreases remaining(s, cur),
{
    match cur {
        None => Seq::empty(),
        Some(k) => if !(0 <= k < s.len()) {
            Seq::empty()
        } else {
            match skip_from(s, k) {
                None => Seq::empty(),
                Some(j) => {
                    let (o, a) = token_at(s, j);
                    match a {
                        Some(k2) => if o is Ok && k < k2 {
                            seq![o] + tokens_from(s, Some(k2))
                        } else {
                            seq![o]
                        },
                        None => seq![o],
                    }
                },
            }
        },
    }
}

/// The results of tokenising a whole input.
pub open spec fn spec_tokenize(s: Seq<char>) -> Seq<Outcome> {
    tokens_from(s, if s.len() > 0 { Some(0) } else { None })
}

} // verus!

verus! {

// ----------------------------------------------------------------------------------------------
// The state machines
// ----------------------------------------------------------------------------------------------

/// A tokenizer for strings.
#[derive(Clone, Copy, Debug, PartialEq, Eq)]
pub enum StringTokenizer {
    /// The initial state.
    Start,
    /// No escape active.
    Normal,
    /// The current character is escaped.
    Escaped,
    /// We have reached the end of the string, whose closing quote is at the given index.
    End(usize),
}

/// A tokenizer for numbers.
#[derive(Clone, Copy, Debug, PartialEq, Eq)]
pub enum NumberTokenizer {
    /// The initial state.
    Start,
    /// We are parsing the integer part; the value indicates a negative number.
    IntegerPart(bool),
    /// The dot between the integer and fractional parts.
    Dot(bool),
    /// We are parsing the fractional part.
    FractionalPart(bool),
    /// The number was in fact an atom.
    IsAtom,
    /// We have reached the end of the number, whose last character is at the given index.
    End(bool, usize),
}

/// A tokenizer for atoms.
#[derive(Clone, Copy, Debug, PartialEq, Eq)]
pub enum AtomTokenizer {
    /// The initial state.
    Start,
    /// Keep on consuming input.
    Consume,
    /// We have reached the end of the atom, whose last character is at the given index.
    End(usize),
}

} // verus!

verus! {

/// What the current character is checked against.
pub enum CharCheck {
    /// Exactly the given character.
    Exactly(char),
    /// The start of a string literal.
    StringStart,
    /// The start of a number literal.
    NumberStart,
    /// The start of an atom.
    AtomStart,
    /// A character that may follow an escape.
    Escapable,
}

impl CharCheck {
    /// Whether the check accepts a character.
    pub open spec fn accepts(self, c: char) -> bool {
        match self {
            CharCheck::Exactly(e) => c == e,
            CharCheck::StringStart => c == '"',
            CharCheck::NumberStart => is_number_start(c),
            CharCheck::AtomStart => is_atom_start(c),
            CharCheck::Escapable => is_escapable(c),
        }
    }

    /// Performs the check.
    pub fn test(&self, c: char) -> (r: bool)
        ensures
            r == self.accepts(c),
    {
        match self {
            CharCheck::Exactly(e) => c == *e,
            CharCheck::StringStart => StringTokenizer::is_start(c),
            CharCheck::NumberStart => NumberTokenizer::is_start(c),
            CharCheck::AtomStart => AtomTokenizer::is_start(c),
            CharCheck::Escapable => StringTokenizer::is_escapable(c),
        }
    }
}

/// The abstract value of a failed step.
pub open spec fn failure(e: PositionedError<Error>) -> Failure {
    (e.spec_cause(), e.spec_position())
}

/// The abstract value of a state machine step.
pub open spec fn step_view<S>(r: core::result::Result<S, PositionedError<Error>>) -> core::result::Result<S, Failure> {
    match r {
        Ok(st) => Ok(st),
        Err(e) => Err(failure(e)),
    }
}

/// A tokeniser.
pub struct Tokenizer {
    /// The characters of the input string.
    chars: Vec<char>,
    /// The number of characters read so far.
    read: usize,
    /// Whether there is a current character; it is the last one read.
    has_current: bool,
    /// The current position.
    position: Position,
}

impl Tokenizer {
    /// The comment character.
    pub const COMMENT: char = ';';

    /// A newline.
    pub const NEWLINE: char = '\n';

    /// A left parenthesis.
    pub const LEFT_PARENTHESIS: char = '(';

    /// A right parenthesis.
    pub const RIGHT_PARENTHESIS: char = ')';

    /// A quote.
    pub const QUOTE: char = '\'';

    /// The input characters.
    pub closed spec fn input(&self) -> Seq<char> {
        self.chars@
    }

    /// The index of the current character, if any.
    pub closed spec fn cur(&self) -> Option<int> {
        if self.has_current {
            Some(self.read - 1)
        } else {
            None
        }
    }

    /// The tokeniser invariant: the position is that of the current character.
    pub closed spec fn wf(&self) -> bool {
        &&& self.read <= self.chars@.len()
        &&& positions_fit(self.chars@)
        &&& self.has_current ==> self.read >= 1 && self.position@ == pos_at(
            self.chars@,
            self.read - 1,
        )
        &&& !self.has_current ==> self.read == self.chars@.len()
    }

    /// Creates a tokeniser whose current character is the first one.
    pub fn from_chars(chars: Vec<char>) -> (r: Self)
        requires
            positions_fit(chars@),
        ensures
            r.wf(),
            r.input() == chars@,
            r.cur() == (if chars@.len() > 0 { Some(0int) } else { None }),
    {
        let has_current = chars.len() > 0;
        let read: usize = if has_current { 1 } else { 0 };
        Tokenizer { chars, read, has_current, position: Position::start() }
    }

    /// The current character, if any.
    pub fn current(&self) -> (r: Option<(usize, char)>)
        requires
            self.wf(),
        ensures
            match self.cur() {
                Some(k) => r == Some((k as usize, self.input()[k])),
                None => r is None,
            },
    {
        if self.has_current {
            Some((self.read - 1, self.chars[self.read - 1]))
        } else {
            None
        }
    }

    /// Moves the tokeniser one character and returns the current character, if any.
    fn next(&mut self) -> (r: core::result::Result<(usize, char), PositionedError<Error>>)
        requires
            old(self).wf(),
        ensures
            final(self).wf(),
            final(self).input() == old(self).input(),
            old(self).read < old(self).input().len() ==> {
                &&& final(self).has_current
                &&& final(self).read == old(self).read + 1
                &&& r matches Ok((i, c)) && i == old(self).read && c == old(self).input()[old(self).read as int]
            },
            old(self).read == old(self).input().len() ==> {
                &&& !final(self).has_current
                &&& final(self).read == old(self).read
                &&& r matches Err(e) && e.spec_cause() == Error::UnexpectedEnd
                    && e.spec_position() == (if old(self).has_current {
                        end_pos(old(self).input())
                    } else {
                        old(self).position@
                    })
            },
    {
        let ghost s = self.chars@;
        let newline = self.has_current && self.chars[self.read - 1] == Self::NEWLINE;
        if newline {
            assert(position_fits(pos_at(s, self.read as int)));
            self.position = self.position.next_row();
        }
        if self.read < self.chars.len() {
            let c = self.chars[self.read];
            assert(position_fits(pos_at(s, self.read as int)));
            if !newline {
                self.position = self.position.next_column();
            }
            self.read = self.read + 1;
            self.has_current = true;
            Ok((self.read - 1, c))
        } else {
            self.has_current = false;
            Err(Error::UnexpectedEnd.for_position(self.position))
        }
    }

    /// Skips to the end of the input and returns an error at the current position.
    fn terminate(&mut self, err: Error) -> (r: PositionedError<Error>)
        requires
            old(self).wf(),
        ensures
            final(self).wf(),
            final(self).input() == old(self).input(),
            final(self).cur() is None,
            r.spec_cause() == err,
            r.spec_position() == old(self).position@,
    {
        let position = self.position;
        self.read = self.chars.len();
        self.has_current = false;
        err.for_position(position)
    }

    /// Expects the current character to pass a check; this does not move forward.
    fn expect(&mut self, check: CharCheck) -> (r: core::result::Result<(), PositionedError<Error>>)
        requires
            old(self).wf(),
            old(self).has_current,
        ensures
            final(self).wf(),
            final(self).input() == old(self).input(),
            ({
                let s = old(self).input();
                let k = old(self).read - 1;
                if check.accepts(s[k]) {
                    r is Ok && *final(self) == *old(self)
                } else {
                    final(self).cur() is None && (r matches Err(e) && failure(e) == char_failure(
                        s,
                        k,
                    ))
                }
            }),
    {
        let character = self.chars[self.read - 1];
        if check.test(character) {
            Ok(())
        } else {
            Err(self.terminate(Error::UnexpectedCharacter { character }))
        }
    }

    /// Retrieves the index of the current character; this does not move forward.
    fn index(&self) -> (r: core::result::Result<usize, PositionedError<Error>>)
        requires
            self.wf(),
            self.has_current,
        ensures
            r == Ok::<usize, PositionedError<Error>>((self.read - 1) as usize),
    {
        if self.has_current {
            Ok(self.read - 1)
        } else {
            Err(Error::UnexpectedEnd.for_position(self.position))
        }
    }

    /// Skips to the next newline, which becomes the current character; the current character
    /// is a comment start.
    fn skip_line(&mut self)
        requires
            old(self).wf(),
            old(self).has_current,
        ensures
            final(self).wf(),
            final(self).input() == old(self).input(),
            ({
                let s = old(self).input();
                let m = newline_from(s, old(self).read as int);
                final(self).cur() == if m < s.len() {
                    Some(m)
                } else {
                    None::<int>
                }
            }),
    {
        let ghost s = self.chars@;
        let ghost target = newline_from(s, self.read as int);
        loop
            invariant_except_break
                self.has_current,
                newline_from(s, self.read as int) == target,
            invariant
                self.wf(),
                self.input() == s,
                0 <= self.read,
            ensures
                self.wf(),
                self.input() == s,
                self.cur() == if target < s.len() {
                    Some(target)
                } else {
                    None::<int>
                },
            decreases s.len() - self.read,
        {
            let ghost before = self.read as int;
            proof {
                lemma_newline_from(s, before);
            }
            match self.next() {
                Ok((_, c)) => {
                    if c == Self::NEWLINE {
                        break ;
                    }
                },
                Err(_) => {
                    break ;
                },
            }
        }
    }

    /// Whether the current character is skipped before a token.
    fn current_is_skippable(&self) -> (r: bool)
        requires
            self.wf(),
        ensures
            r == (self.has_current && is_skippable(self.input()[self.read - 1])),
    {
        if self.has_current {
            let c = self.chars[self.read - 1];
            is_ascii_whitespace(c) || c == Self::COMMENT
        } else {
            false
        }
    }

    /// Skips whitespace and comments from the current position and returns the current
    /// character.
    fn skip_until_next(&mut self) -> (r: Option<(usize, char)>)
        requires
            old(self).wf(),
        ensures
            final(self).wf(),
            final(self).input() == old(self).input(),
            final(self).cur() == match old(self).cur() {
                Some(k) => skip_from(old(self).input(), k),
                None => None::<int>,
            },
            match final(self).cur() {
                Some(j) => r == Some((j as usize, old(self).input()[j])),
                None => r is None,
            },
    {
        let ghost s = self.chars@;
        let ghost target = match self.cur() {
            Some(k) => skip_from(s, k),
            None => None::<int>,
        };
        while self.current_is_skippable()
            invariant
                self.wf(),
                self.input() == s,
                target == match self.cur() {
                    Some(k) => skip_from(s, k),
                    None => None::<int>,
                },
            decreases s.len() - self.read + (if self.has_current {
                1int
            } else {
                0int
            }),
        {
            proof {
                lemma_newline_from(s, self.read + 1);
            }
            match self.next() {
                Ok((_, c)) => {
                    if c == Self::COMMENT {
                        self.skip_line();
                    }
                },
                Err(_) => {},
            }
        }
        self.current()
    }
}

impl StringTokenizer {
    /// Reads the character after the current one, outside an escape.
    fn read_next(tokenizer: &mut Tokenizer) -> (r: core::result::Result<Self, PositionedError<Error>>)
        requires
            old(tokenizer).wf(),
            old(tokenizer).has_current,
        ensures
            final(tokenizer).wf(),
            final(tokenizer).input() == old(tokenizer).input(),
            (step_view(r), final(tokenizer).cur()) == string_next(
                old(tokenizer).input(),
                old(tokenizer).read - 1,
            ),
    {
        match tokenizer.next() {
            Err(e) => Err(e),
            Ok((i, c)) => {
                if c == Self::ESCAPE {
                    Ok(StringTokenizer::Escaped)
                } else if c == Self::QUOTE {
                    let _ = tokenizer.next();
                    Ok(StringTokenizer::End(i))
                } else {
                    Ok(StringTokenizer::Normal)
                }
            },
        }
    }

    /// Consumes a single character from the input.
    fn consume(self, tokenizer: &mut Tokenizer) -> (r: core::result::Result<Self, PositionedError<Error>>)
        requires
            old(tokenizer).wf(),
            old(tokenizer).has_current,
        ensures
            final(tokenizer).wf(),
            final(tokenizer).input() == old(tokenizer).input(),
            (step_view(r), final(tokenizer).cur()) == string_step(
                old(tokenizer).input(),
                self,
                old(tokenizer).read - 1,
            ),
    {
        match self {
            StringTokenizer::Start => {
                match tokenizer.expect(CharCheck::StringStart) {
                    Err(e) => {
                        return Err(e);
                    },
                    Ok(()) => {},
                }
                Self::read_next(tokenizer)
            },
            StringTokenizer::Normal => Self::read_next(tokenizer),
            StringTokenizer::Escaped => {
                match tokenizer.next() {
                    Err(e) => {
                        return Err(e);
                    },
                    Ok(_) => {},
                }
                match tokenizer.expect(CharCheck::Escapable) {
                    Err(e) => Err(e),
                    Ok(()) => Ok(StringTokenizer::Normal),
                }
            },
            StringTokenizer::End(_) => Err(tokenizer.terminate(Error::UnexpectedEnd)),
        }
    }
}

impl NumberTokenizer {
    /// Consumes a single character from the input.
    fn consume(self, tokenizer: &mut Tokenizer) -> (r: core::result::Result<Self, PositionedError<Error>>)
        requires
            old(tokenizer).wf(),
            old(tokenizer).has_current,
        ensures
            final(tokenizer).wf(),
            final(tokenizer).input() == old(tokenizer).input(),
            (step_view(r), final(tokenizer).cur()) == number_step(
                old(tokenizer).input(),
                self,
                old(tokenizer).read - 1,
            ),
    {
        let index = match tokenizer.index() {
            Ok(i) => i,
            Err(e) => {
                return Err(e);
            },
        };
        match self {
            NumberTokenizer::Start => {
                match tokenizer.expect(CharCheck::NumberStart) {
                    Err(e) => {
                        return Err(e);
                    },
                    Ok(()) => {},
                }
                match tokenizer.current() {
                    Some((_, c)) if c == Self::DOT => Ok(NumberTokenizer::Dot(false)),
                    Some((_, c)) if c == Self::NEGATIVE => Ok(NumberTokenizer::IntegerPart(true)),
                    _ => Ok(NumberTokenizer::IntegerPart(false)),
                }
            },
            NumberTokenizer::IntegerPart(negative) => match tokenizer.next() {
                Ok((_, c)) => {
                    if self.is_valid(c) {
                        if c == Self::DOT {
                            Ok(NumberTokenizer::Dot(negative))
                        } else {
                            Ok(NumberTokenizer::IntegerPart(negative))
                        }
                    } else if Self::is_end(c) {
                        Ok(NumberTokenizer::End(negative, index))
                    } else if negative && AtomTokenizer::is_start(c) {
                        Ok(NumberTokenizer::IsAtom)
                    } else {
                        Err(tokenizer.terminate(Error::UnexpectedCharacter { character: c }))
                    }
                },
                Err(_) => Ok(NumberTokenizer::End(negative, index)),
            },
            NumberTokenizer::Dot(negative) | NumberTokenizer::FractionalPart(negative) => {
                match tokenizer.next() {
                    Ok((_, c)) => {
                        if self.is_valid(c) {
                            Ok(NumberTokenizer::FractionalPart(negative))
                        } else if Self::is_end(c) {
                            Ok(NumberTokenizer::End(negative, index))
                        } else {
                            Err(tokenizer.terminate(Error::UnexpectedCharacter { character: c }))
                        }
                    },
                    Err(_) => Ok(NumberTokenizer::End(negative, index)),
                }
            },
            NumberTokenizer::IsAtom | NumberTokenizer::End(_, _) => Err(
                tokenizer.terminate(Error::UnexpectedEnd),
            ),
        }
    }
}

impl AtomTokenizer {
    /// Consumes a single character from the input.
    fn consume(self, tokenizer: &mut Tokenizer) -> (r: core::result::Result<Self, PositionedError<Error>>)
        requires
            old(tokenizer).wf(),
            old(tokenizer).has_current,
        ensures
            final(tokenizer).wf(),
            final(tokenizer).input() == old(tokenizer).input(),
            (step_view(r), final(tokenizer).cur()) == atom_step(
                old(tokenizer).input(),
                self,
                old(tokenizer).read - 1,
            ),
    {
        let index = match tokenizer.index() {
            Ok(i) => i,
            Err(e) => {
                return Err(e);
            },
        };
        match self {
            AtomTokenizer::Start => {
                match tokenizer.expect(CharCheck::AtomStart) {
                    Err(e) => {
                        return Err(e);
                    },
                    Ok(()) => {},
                }
                match tokenizer.next() {
                    Ok((_, c)) => {
                        if Self::is_end(c) {
                            Ok(AtomTokenizer::End(index))
                        } else if AtomTokenizer::Consume.is_valid(c) {
                            Ok(AtomTokenizer::Consume)
                        } else {
                            Err(tokenizer.terminate(Error::UnexpectedCharacter { character: c }))
                        }
                    },
                    Err(_) => Ok(AtomTokenizer::End(index)),
                }
            },
            AtomTokenizer::Consume => match tokenizer.next() {
                Ok((_, c)) => {
                    if self.is_valid(c) {
                        Ok(AtomTokenizer::Consume)
                    } else if Self::is_end(c) {
                        Ok(AtomTokenizer::End(index))
                    } else {
                        Err(tokenizer.terminate(Error::UnexpectedCharacter { character: c }))
                    }
                },
                Err(_) => Ok(AtomTokenizer::End(index)),
            },
            AtomTokenizer::End(_) => Err(Error::UnexpectedEnd.for_position(tokenizer.position)),
        }
    }
}

impl StringTokenizer {
    /// The quote character.
    pub const QUOTE: char = '"';

    /// The escape character.
    pub const ESCAPE: char = '\\';

    /// Whether a character may follow an escape.
    pub fn is_escapable(character: char) -> (r: bool)
        ensures
            r == is_escapable(character),
    {
        character == Self::QUOTE || character == Self::ESCAPE
    }

    /// Determines whether a character is the start of a string.
    pub fn is_start(character: char) -> (r: bool)
        ensures
            r == (character == '"'),
    {
        character == Self::QUOTE
    }
}

impl NumberTokenizer {
    /// The negative number character.
    pub const NEGATIVE: char = '-';

    /// The decimal character.
    pub const DOT: char = '.';

    /// Determines whether a character is the start of a number.
    pub fn is_start(character: char) -> (r: bool)
        ensures
            r == is_number_start(character),
    {
        is_ascii_digit(character) || character == Self::NEGATIVE || character == Self::DOT
    }

    /// Determines whether a character ends a number.
    pub fn is_end(character: char) -> (r: bool)
        ensures
            r == is_token_end(character),
    {
        is_ascii_whitespace(character) || character == Tokenizer::LEFT_PARENTHESIS || character
            == Tokenizer::RIGHT_PARENTHESIS
    }

    /// Determines whether a character is valid for the current state.
    pub fn is_valid(&self, character: char) -> (r: bool)
        ensures
            r == match self {
                NumberTokenizer::Start => is_number_start(character),
                NumberTokenizer::IntegerPart(_) => is_digit(character) || character == '.',
                _ => is_digit(character),
            },
    {
        match self {
            NumberTokenizer::Start => Self::is_start(character),
            NumberTokenizer::IntegerPart(_) => character != Self::NEGATIVE && Self::is_start(
                character,
            ),
            _ => is_ascii_digit(character),
        }
    }
}

impl AtomTokenizer {
    /// Determines whether a character is the start of an atom.
    pub fn is_start(character: char) -> (r: bool)
        ensures
            r == is_atom_start(character),
    {
        is_ascii_alphabetic(character) || character == '+' || character == '-' || character
            == '*' || character == '/' || character == '_' || character == '!' || character
            == '?' || character == '=' || character == '<' || character == '>'
    }

    /// Determines whether a character is valid inside an atom.
    pub fn is_valid(&self, character: char) -> (r: bool)
        ensures
            r == is_atom_char(character),
    {
        Self::is_start(character) || is_ascii_digit(character)
    }

    /// Determines whether a character ends an atom.
    pub fn is_end(character: char) -> (r: bool)
        ensures
            r == is_token_end(character),
    {
        is_ascii_whitespace(character) || character == Tokenizer::LEFT_PARENTHESIS || character
            == Tokenizer::RIGHT_PARENTHESIS
    }
}

} // verus!

verus! {

impl Tokenizer {
    /// Reads a token made of a single character.
    ///
    /// This method moves to the character after the token.
    fn single_character(&mut self, expected: char, value: Value) -> (r: TokenResult)
        requires
            old(self).wf(),
            old(self).has_current,
        ensures
            final(self).wf(),
            final(self).input() == old(self).input(),
            (outcome(r), final(self).cur()) == single_token(
                old(self).input(),
                old(self).read - 1,
                expected,
                value@,
            ),
    {
        match self.expect(CharCheck::Exactly(expected)) {
            Err(e) => {
                return Err(e);
            },
            Ok(()) => {},
        }
        let result = Token::new(value, self.position);
        let _ = self.next();
        Ok(result)
    }

    /// Reads a left parenthesis.
    fn left_parenthesis(&mut self) -> (r: TokenResult)
        requires
            old(self).wf(),
            old(self).has_current,
        ensures
            final(self).wf(),
            final(self).input() == old(self).input(),
            (outcome(r), final(self).cur()) == single_token(
                old(self).input(),
                old(self).read - 1,
                '(',
                Lexeme::LeftParenthesis,
            ),
    {
        self.single_character(Self::LEFT_PARENTHESIS, Value::LeftParenthesis)
    }

    /// Reads a right parenthesis.
    fn right_parenthesis(&mut self) -> (r: TokenResult)
        requires
            old(self).wf(),
            old(self).has_current,
        ensures
            final(self).wf(),
            final(self).input() == old(self).input(),
            (outcome(r), final(self).cur()) == single_token(
                old(self).input(),
                old(self).read - 1,
                ')',
                Lexeme::RightParenthesis,
            ),
    {
        self.single_character(Self::RIGHT_PARENTHESIS, Value::RightParenthesis)
    }

    /// Reads a quote.
    fn quote(&mut self) -> (r: TokenResult)
        requires
            old(self).wf(),
            old(self).has_current,
        ensures
            final(self).wf(),
            final(self).input() == old(self).input(),
            (outcome(r), final(self).cur()) == single_token(
                old(self).input(),
                old(self).read - 1,
                '\'',
                Lexeme::Quote,
            ),
    {
        self.single_character(Self::QUOTE, Value::Quote)
    }

    /// Reads a string literal starting at the current character.
    ///
    /// This method moves to the character after the token. If the string literal is not closed,
    /// an error is returned and the input stream is closed.
    fn string(&mut self, position: Position, start: usize) -> (r: TokenResult)
        requires
            old(self).wf(),
            old(self).cur() == Some(start as int),
            position@ == pos_at(old(self).input(), start as int),
        ensures
            final(self).wf(),
            final(self).input() == old(self).input(),
            (outcome(r), final(self).cur()) == string_token(old(self).input(), start as int),
    {
        let ghost s = self.chars@;
        let mut state = StringTokenizer::Start;
        let mut end: usize = 0;
        loop
            invariant_except_break
                self.has_current,
                start <= self.read - 1,
                !(state is End),
                string_run(s, state, self.read - 1) == string_run(
                    s,
                    StringTokenizer::Start,
                    start as int,
                ),
            invariant
                self.wf(),
                self.input() == s,
                old(self).input() == s,
                position@ == pos_at(s, start as int),
            ensures
                self.wf(),
                self.input() == s,
                start <= end < s.len(),
                string_run(s, StringTokenizer::Start, start as int) == (
                    Ok::<int, Failure>(end as int),
                    self.cur(),
                ),
            decreases s.len() - self.read,
        {
            match state.consume(self) {
                Err(e) => {
                    return Err(e);
                },
                Ok(st) => match st {
                    StringTokenizer::End(index) => {
                        end = index;
                        break ;
                    },
                    _ => {
                        state = st;
                    },
                },
            }
        }
        assert(end < self.chars.len());
        let value = string_of(&self.chars, start, end + 1);
        Ok(Token::new(Value::String { value }, position))
    }

    /// Reads a number literal starting at the current character.
    ///
    /// This method moves to the character after the token. If the number literal is invalid, an
    /// error is returned and the input stream is terminated.
    fn number(&mut self, position: Position, start: usize) -> (r: TokenResult)
        requires
            old(self).wf(),
            old(self).cur() == Some(start as int),
            position@ == pos_at(old(self).input(), start as int),
        ensures
            final(self).wf(),
            final(self).input() == old(self).input(),
            (outcome(r), final(self).cur()) == positioned(
                old(self).input(),
                start as int,
                number_run(old(self).input(), start as int, NumberTokenizer::Start, start as int),
            ),
    {
        let ghost s = self.chars@;
        let mut state = NumberTokenizer::Start;
        let mut negative = false;
        let mut end: usize = 0;
        loop
            invariant_except_break
                self.has_current,
                start <= self.read - 1,
                !(state is End),
                !(state is IsAtom),
                number_run(s, start as int, state, self.read - 1) == number_run(
                    s,
                    start as int,
                    NumberTokenizer::Start,
                    start as int,
                ),
            invariant
                self.wf(),
                self.input() == s,
                old(self).input() == s,
                position@ == pos_at(s, start as int),
            ensures
                self.wf(),
                self.input() == s,
                start <= end < s.len(),
                number_run(s, start as int, NumberTokenizer::Start, start as int) == (
                    Ok::<Lexeme, Failure>(number_lexeme(s, start as int, negative, end as int)),
                    self.cur(),
                ),
            decreases 2 * (s.len() - self.read) + number_rank(state),
        {
            match state.consume(self) {
                Err(e) => {
                    return Err(e);
                },
                Ok(st) => match st {
                    NumberTokenizer::IsAtom => {
                        return self.atom(position, start);
                    },
                    NumberTokenizer::End(n, index) => {
                        negative = n;
                        end = index;
                        break ;
                    },
                    _ => {
                        state = st;
                    },
                },
            }
        }
        assert(end < self.chars.len());
        let value = string_of(&self.chars, start, end + 1);
        if negative && start == end {
            Ok(Token::new(Value::Atom { value }, position))
        } else {
            Ok(Token::new(Value::Number { value }, position))
        }
    }

    /// Reads an atom from the current character; the atom starts at `start`.
    ///
    /// This method moves to the character after the token. If the atom is invalid, an error is
    /// returned and the input stream is terminated.
    fn atom(&mut self, position: Position, start: usize) -> (r: TokenResult)
        requires
            old(self).wf(),
            old(self).has_current,
            start <= old(self).read - 1,
            position@ == pos_at(old(self).input(), start as int),
        ensures
            final(self).wf(),
            final(self).input() == old(self).input(),
            (outcome(r), final(self).cur()) == positioned(
                old(self).input(),
                start as int,
                atom_run(old(self).input(), start as int, AtomTokenizer::Start, old(self).read - 1),
            ),
    {
        let ghost s = self.chars@;
        let ghost first = self.read - 1;
        let mut state = AtomTokenizer::Start;
        let mut end: usize = 0;
        loop
            invariant_except_break
                self.has_current,
                start <= self.read - 1,
                !(state is End),
                atom_run(s, start as int, state, self.read - 1) == atom_run(
                    s,
                    start as int,
                    AtomTokenizer::Start,
                    first,
                ),
            invariant
                self.wf(),
                self.input() == s,
                old(self).input() == s,
                position@ == pos_at(s, start as int),
                first == old(self).read - 1,
            ensures
                self.wf(),
                self.input() == s,
                start <= end < s.len(),
                atom_run(s, start as int, AtomTokenizer::Start, first) == (
                    Ok::<Lexeme, Failure>(Lexeme::Atom(s.subrange(start as int, end + 1))),
                    self.cur(),
                ),
            decreases s.len() - self.read,
        {
            match state.consume(self) {
                Err(e) => {
                    return Err(e);
                },
                Ok(st) => match st {
                    AtomTokenizer::End(index) => {
                        end = index;
                        break ;
                    },
                    _ => {
                        state = st;
                    },
                },
            }
        }
        assert(end < self.chars.len());
        let value = string_of(&self.chars, start, end + 1);
        Ok(Token::new(Value::Atom { value }, position))
    }

    /// Reads the next token, if any.
    ///
    /// Once an error has been returned, no more tokens are read.
    pub fn next_token(&mut self) -> (r: Option<TokenResult>)
        requires
            old(self).wf(),
        ensures
            final(self).wf(),
            final(self).input() == old(self).input(),
            match old(self).cur() {
                None => r is None && final(self).cur() is None,
                Some(k) => match skip_from(old(self).input(), k) {
                    None => r is None && final(self).cur() is None,
                    Some(j) => (r matches Some(x) && (outcome(x), final(self).cur()) == token_at(
                        old(self).input(),
                        j,
                    )),
                },
            },
    {
        match self.skip_until_next() {
            None => None,
            Some((i, c)) => {
                if c == Self::LEFT_PARENTHESIS {
                    Some(self.left_parenthesis())
                } else if c == Self::RIGHT_PARENTHESIS {
                    Some(self.right_parenthesis())
                } else if c == Self::QUOTE {
                    Some(self.quote())
                } else if StringTokenizer::is_start(c) {
                    let position = self.position;
                    Some(self.string(position, i))
                } else if NumberTokenizer::is_start(c) {
                    let position = self.position;
                    Some(self.number(position, i))
                } else if AtomTokenizer::is_start(c) {
                    let position = self.position;
                    Some(self.atom(position, i))
                } else {
                    Some(Err(self.terminate(Error::UnexpectedCharacter { character: c })))
                }
            },
        }
    }
}

/// The next newline is at or after the given index, and within the input.
proof fn lemma_newline_from(s: Seq<char>, j: int)
    requires
        0 <= j,
    ensures
        j <= newline_from(s, j) || j > s.len(),
        newline_from(s, j) <= s.len(),
        newline_from(s, j) < s.len() ==> s[newline_from(s, j)] == '\n',
    decreases s.len() - j,
{
    if j < s.len() && s[j] != '\n' {
        lemma_newline_from(s, j + 1);
    }
}

/// Skipping yields the current character or a later one.
proof fn lemma_skip_from(s: Seq<char>, k: int)
    ensures
        skip_from(s, k) matches Some(j) ==> k <= j < s.len(),
    decreases s.len() - k,
{
    if 0 <= k < s.len() && is_skippable(s[k]) && k + 1 < s.len() {
        if s[k + 1] == ';' {
            let m = newline_from(s, k + 2);
            if k < m < s.len() {
                lemma_skip_from(s, m);
            }
        } else {
            lemma_skip_from(s, k + 1);
        }
    }
}


/// A string literal that is read moves past its start; a failure ends the input.
proof fn lemma_string_run(s: Seq<char>, st: StringTokenizer, k: int)
    requires
        !(st is End),
    ensures
        string_run(s, st, k).0 is Err ==> string_run(s, st, k).1 is None,
        string_run(s, st, k).1 matches Some(a) ==> a > k,
    decreases s.len() - k,
{
    if 0 <= k < s.len() {
        match string_step(s, st, k) {
            (Ok(StringTokenizer::End(_)), _) => {},
            (Ok(st2), Some(k2)) => {
                if k < k2 {
                    lemma_string_run(s, st2, k2);
                }
            },
            _ => {},
        }
    }
}

/// An atom that is read moves past its start; a failure ends the input.
proof fn lemma_atom_run(s: Seq<char>, start: int, st: AtomTokenizer, k: int)
    requires
        !(st is End),
    ensures
        atom_run(s, start, st, k).0 is Err ==> atom_run(s, start, st, k).1 is None,
        atom_run(s, start, st, k).1 matches Some(a) ==> a > k,
    decreases s.len() - k,
{
    if 0 <= k < s.len() {
        match atom_step(s, st, k) {
            (Ok(AtomTokenizer::End(_)), _) => {},
            (Ok(st2), Some(k2)) => {
                if k < k2 {
                    lemma_atom_run(s, start, st2, k2);
                }
            },
            _ => {},
        }
    }
}

/// A number that is read moves past its start; a failure ends the input.
proof fn lemma_number_run(s: Seq<char>, start: int, st: NumberTokenizer, k: int)
    requires
        !(st is End),
        !(st is IsAtom),
    ensures
        number_run(s, start, st, k).0 is Err ==> number_run(s, start, st, k).1 is None,
        number_run(s, start, st, k).1 matches Some(a) ==> a > k,
    decreases s.len() - k, number_rank(st),
{
    if 0 <= k < s.len() {
        match number_step(s, st, k) {
            (Ok(NumberTokenizer::End(_, _)), _) => {},
            (Ok(NumberTokenizer::IsAtom), Some(k2)) => {
                lemma_atom_run(s, start, AtomTokenizer::Start, k2);
            },
            (Ok(st2), Some(k2)) => {
                if k < k2 || (k == k2 && st is Start && !(st2 is Start)) {
                    lemma_number_run(s, start, st2, k2);
                }
            },
            _ => {},
        }
    }
}

/// A token that is read moves past its start; a failure ends the input.
pub(crate) proof fn lemma_token_at(s: Seq<char>, k: int)
    requires
        0 <= k < s.len(),
    ensures
        token_at(s, k).0 is Err ==> token_at(s, k).1 is None,
        token_at(s, k).1 matches Some(a) ==> a > k,
{
    lemma_string_run(s, StringTokenizer::Start, k);
    lemma_number_run(s, k, NumberTokenizer::Start, k);
    lemma_atom_run(s, k, AtomTokenizer::Start, k);
}

// ----------------------------------------------------------------------------------------------
// The shapes of the lexemes read
// ----------------------------------------------------------------------------------------------

/// The text of a number literal: a digit, a sign or a dot first, then digits with at most one dot.
pub open spec fn is_number_text(v: Seq<char>) -> bool {
    &&& v.len() >= 1
    &&& is_number_start(v[0])
    &&& forall|i: int| 1 <= i < v.len() ==> is_digit(#[trigger] v[i]) || v[i] == '.'
    &&& forall|i: int, j: int| 0 <= i < j < v.len() && #[trigger] v[i] == '.' ==> #[trigger] v[j] != '.'
}

/// Whether a text holds a decimal digit: a number text without one (a lone dot, or a sign and
/// a dot) names no number.
pub open spec fn has_digit(v: Seq<char>) -> bool {
    exists|i: int| 0 <= i < v.len() && is_digit(#[trigger] v[i])
}

/// Whether a text holds no dot.
pub open spec fn has_no_dot(v: Seq<char>) -> bool {
    forall|i: int| 0 <= i < v.len() ==> #[trigger] v[i] != '.'
}

/// The shape that the token module promises of each lexeme: a string literal is delimited by
/// double quotes, a number is a number text, and an atom starts with an atom character, so never
/// with a digit.
pub open spec fn lexeme_well_formed(l: Lexeme) -> bool {
    match l {
        Lexeme::String(v) => v.len() >= 2 && v[0] == '"' && v.last() == '"',
        Lexeme::Number(v) => is_number_text(v),
        Lexeme::Atom(v) => v.len() >= 1 && is_atom_start(v[0]) && forall|i: int|
            0 <= i < v.len() ==> is_atom_char(#[trigger] v[i]),
        _ => true,
    }
}

/// Whether the text `t` occurs in `s` at index `j`.
pub open spec fn occurs_at(s: Seq<char>, j: int, t: Seq<char>) -> bool {
    0 <= j && j + t.len() <= s.len() && s.subrange(j, j + t.len()) == t
}

/// Whether a token was read from `s`: its text occurs there, at the index of its position.
pub open spec fn read_from(s: Seq<char>, token: TokenView) -> bool {
    exists|j: int| #[trigger] occurs_at(s, j, lexeme_text(token.0)) && token.1 == pos_at(s, j)
}

/// A string literal that is read ends with a double quote after its current character.
proof fn lemma_string_run_end(s: Seq<char>, st: StringTokenizer, k: int)
    requires
        0 <= k,
        s.len() <= usize::MAX,
    ensures
        string_run(s, st, k).0 matches Ok(e) ==> k < e < s.len() && s[e] == '"',
    decreases s.len() - k,
{
    if 0 <= k < s.len() {
        match string_step(s, st, k) {
            (Ok(StringTokenizer::End(_)), _) => {},
            (Ok(st2), Some(k2)) => {
                if k < k2 {
                    lemma_string_run_end(s, st2, k2);
                }
            },
            _ => {},
        }
    }
}

/// An atom that is read spans from its start to a later character.
proof fn lemma_atom_run_text(s: Seq<char>, start: int, st: AtomTokenizer, k: int)
    requires
        0 <= start <= k,
        s.len() <= usize::MAX,
        forall|i: int| start <= i < k ==> is_atom_char(#[trigger] s[i]),
        st is Consume && k < s.len() ==> is_atom_char(s[k]),
    ensures
        atom_run(s, start, st, k).0 matches Ok(l) ==> l is Atom && l->Atom_0.len() >= 1
            && l->Atom_0[0] == s[start] && occurs_at(s, start, l->Atom_0) && forall|i: int|
            0 <= i < l->Atom_0.len() ==> is_atom_char(#[trigger] l->Atom_0[i]),
    decreases s.len() - k,
{
    if 0 <= k < s.len() {
        match atom_step(s, st, k) {
            (Ok(AtomTokenizer::End(e)), _) => {
                assert(e as int == k);
                let v = s.subrange(start, k + 1);
                assert(s.subrange(start, start + v.len()) == v);
                assert forall|i: int| 0 <= i < v.len() implies is_atom_char(#[trigger] v[i]) by {
                    assert(v[i] == s[start + i]);
                }
            },
            (Ok(st2), Some(k2)) => {
                if k < k2 {
                    lemma_atom_run_text(s, start, st2, k2);
                }
            },
            _ => {},
        }
    }
}

/// The number state at the current character `k` describes the text read since `start`.
pub open spec fn number_state_inv(s: Seq<char>, start: int, st: NumberTokenizer, k: int) -> bool {
    &&& 0 <= start <= k < s.len()
    &&& match st {
        NumberTokenizer::Start => k == start,
        NumberTokenizer::IntegerPart(negative) => is_number_text(s.subrange(start, k + 1))
            && has_no_dot(s.subrange(start, k + 1)) && (negative <==> s[start] == '-'),
        NumberTokenizer::Dot(negative) | NumberTokenizer::FractionalPart(negative) => is_number_text(
            s.subrange(start, k + 1),
        ) && (negative <==> s[start] == '-'),
        _ => false,
    }
}

/// A number literal that is read is a number text, or an atom that starts at its sign.
proof fn lemma_number_run_text(s: Seq<char>, start: int, st: NumberTokenizer, k: int)
    requires
        number_state_inv(s, start, st, k),
        s.len() <= usize::MAX,
    ensures
        number_run(s, start, st, k).0 matches Ok(l) ==> lexeme_well_formed(l) && occurs_at(
            s,
            start,
            lexeme_text(l),
        ),
    decreases s.len() - k, number_rank(st),
{
    let old_text = s.subrange(start, k + 1);
    match number_step(s, st, k) {
        (Ok(NumberTokenizer::End(negative, e)), _) => {
            assert(e as int == k);
            if negative && start == k {
                assert(s.subrange(start, k + 1)[0] == s[start]);
            }
            assert(s.subrange(start, start + old_text.len()) == old_text);
        },
        (Ok(NumberTokenizer::IsAtom), Some(k2)) => {
            assert forall|i: int| start <= i < k2 implies is_atom_char(#[trigger] s[i]) by {
                assert(s[i] == old_text[i - start]);
                if i > start {
                    assert(old_text[i - start] != '.');
                }
            }
            lemma_atom_run_text(s, start, AtomTokenizer::Start, k2);
        },
        (Ok(st2), Some(k2)) => {
            if k < k2 || (k == k2 && st is Start && !(st2 is Start)) {
                let new_text = s.subrange(start, k2 + 1);
                if k < k2 {
                    assert(k2 == k + 1);
                    assert(new_text =~= old_text.push(s[k2]));
                    assert(forall|i: int| 0 <= i < old_text.len() ==> new_text[i] == old_text[i]);
                    assert(new_text[0] == s[start]);
                    if st2 is Dot {
                        assert forall|i: int, j: int|
                            0 <= i < j < new_text.len() && #[trigger] new_text[i] == '.' implies #[trigger] new_text[j] != '.' by {
                            if j < new_text.len() - 1 {
                                assert(old_text[i] == '.');
                            }
                        }
                    } else {
                        assert forall|i: int, j: int|
                            0 <= i < j < new_text.len() && #[trigger] new_text[i] == '.' implies #[trigger] new_text[j] != '.' by {
                            if j < new_text.len() - 1 {
                                assert(old_text[i] == '.');
                                assert(old_text[j] != '.');
                            }
                        }
                    }
                } else {
                    assert(new_text =~= seq![s[start]]);
                }
                lemma_number_run_text(s, start, st2, k2);
            }
        },
        _ => {},
    }
}

/// The token read at `k` has the promised shape.
proof fn lemma_token_at_text(s: Seq<char>, k: int)
    requires
        0 <= k < s.len(),
        s.len() <= usize::MAX,
    ensures
        token_at(s, k).0 matches Ok((l, _)) ==> lexeme_well_formed(l),
        token_at(s, k).0 matches Ok(token) ==> token.1 == pos_at(s, k) && occurs_at(
            s,
            k,
            lexeme_text(token.0),
        ),
{
    let c = s[k];
    if c == '"' {
        lemma_string_run_end(s, StringTokenizer::Start, k);
        if let (Ok(e), _) = string_run(s, StringTokenizer::Start, k) {
            let v = s.subrange(k, e + 1);
            assert(v[0] == s[k]);
            assert(v.last() == s[e]);
            assert(s.subrange(k, k + v.len()) == v);
        }
    } else if c == '(' || c == ')' || c == '\'' {
        assert(s.subrange(k, k + 1) =~= seq![c]);
    } else {
        if is_number_start(c) {
            lemma_number_run_text(s, k, NumberTokenizer::Start, k);
        } else if is_atom_start(c) {
            lemma_atom_run_text(s, k, AtomTokenizer::Start, k);
        }
    }
}

/// Every token read from `cur` on has the promised shape.
pub proof fn lemma_tokens_from_text(s: Seq<char>, cur: Option<int>)
    requires
        s.len() <= usize::MAX,
    ensures
        forall|i: int|
            0 <= i < tokens_from(s, cur).len() ==> (#[trigger] tokens_from(s, cur)[i] matches Ok(
                (l, _),
            ) ==> lexeme_well_formed(l)),
        forall|i: int|
            0 <= i < tokens_from(s, cur).len() ==> (#[trigger] tokens_from(s, cur)[i] matches Ok(
                token,
            ) ==> read_from(s, token)),
    decreases remaining(s, cur),
{
    if let Some(k) = cur {
        if 0 <= k < s.len() {
            lemma_skip_from(s, k);
            if let Some(j) = skip_from(s, k) {
                lemma_token_at_text(s, j);
                let (o, a) = token_at(s, j);
                if let Ok(token) = o {
                    assert(occurs_at(s, j, lexeme_text(token.0)));
                    assert(read_from(s, token));
                }
                let t = tokens_from(s, cur);
                if let Some(k2) = a {
                    if o is Ok && k < k2 {
                        lemma_tokens_from_text(s, Some(k2));
                        let rest = tokens_from(s, Some(k2));
                        assert(t == seq![o] + rest);
                        assert forall|i: int| 0 <= i < t.len() implies (#[trigger] t[i] matches Ok(
                            (l, _),
                        ) ==> lexeme_well_formed(l)) && (t[i] matches Ok(token) ==> read_from(
                            s,
                            token,
                        )) by {
                            if i > 0 {
                                assert(t[i] == rest[i - 1]);
                            }
                        }
                    } else {
                        assert(t == seq![o]);
                    }
                } else {
                    assert(t == seq![o]);
                }
            }
        }
    }
}

/// Tokenises a string into the list of results.
pub fn tokenize_all(input: &str) -> (r: Vec<TokenResult>)
    requires
        positions_fit(input@),
    ensures
        r@.map_values(|x: TokenResult| outcome(x)) == spec_tokenize(input@),
{
    let ghost s = input@;
    let chars = chars_of(input);
    let mut tokenizer = Tokenizer::from_chars(chars);
    let mut results: Vec<TokenResult> = Vec::new();
    loop
        invariant
            tokenizer.wf(),
            tokenizer.input() == s,
            results@.map_values(|x: TokenResult| outcome(x)) + tokens_from(s, tokenizer.cur())
                == spec_tokenize(s),
        ensures
            results@.map_values(|x: TokenResult| outcome(x)) == spec_tokenize(s),
        decreases remaining(s, tokenizer.cur()),
    {
        let ghost before = tokenizer.cur();
        let ghost done = results@.map_values(|x: TokenResult| outcome(x));
        match tokenizer.next_token() {
            None => {
                assert(tokens_from(s, before) =~= Seq::<Outcome>::empty());
                assert(done + Seq::<Outcome>::empty() =~= done);
                break ;
            },
            Some(x) => {
                proof {
                    let k = before->0;
                    lemma_skip_from(s, k);
                    let j = skip_from(s, k)->0;
                    lemma_token_at(s, j);
                    assert(tokens_from(s, before) == seq![outcome(x)] + tokens_from(
                        s,
                        tokenizer.cur(),
                    ));
                }
                results.push(x);
                assert(results@.map_values(|x: TokenResult| outcome(x)) =~= done.push(outcome(x)));
                assert(done + (seq![outcome(x)] + tokens_from(s, tokenizer.cur())) =~= done.push(
                    outcome(x),
                ) + tokens_from(s, tokenizer.cur()));
            },
        }
    }
    results
}

} // verus!
