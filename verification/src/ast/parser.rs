//! The parser: from a stream of tokens to an abstract syntax tree.
use vstd::prelude::*;

use super::token::{self, Failure, Lexeme, Outcome, TokenView, Tokens};
use super::tokenizer::{has_digit, is_ascii_digit, is_digit};
use super::{
    lemma_tree_view, node_value_view, node_view, LeafView, Node, NodeValue, NodeValueView, NodeView, Position, PositionedError,
    PositionedErrorCause, Value,
};
use crate::text::{chars_of, push_char};

verus! {

/// An error occurring during transformation of a token stream to an abstract syntax tree.
#[derive(Debug, PartialEq)]
pub enum Error {
    /// An error occurring during tokenisation.
    TokenizerError { cause: PositionedError<token::Error> },
    /// The tokens terminated unexpectedly.
    UnexpectedEnd,
    /// An unexpected token was encountered.
    UnexpectedToken { token: token::Token },
}

impl PositionedErrorCause for Error {}

/// The abstract value of a parser error.
pub enum ErrorView {
    TokenizerError(Failure),
    UnexpectedEnd,
    UnexpectedToken(TokenView),
}

impl View for Error {
    type V = ErrorView;

    open spec fn view(&self) -> ErrorView {
        match self {
            Error::TokenizerError { cause } => ErrorView::TokenizerError(
                (cause.spec_cause(), cause.spec_position()),
            ),
            Error::UnexpectedEnd => ErrorView::UnexpectedEnd,
            Error::UnexpectedToken { token } => ErrorView::UnexpectedToken(token@),
        }
    }
}

/// The result of parser operations.
pub type Result = core::result::Result<Node, Error>;

/// The abstract result of parsing a node.
pub type ParsedView = core::result::Result<NodeView, ErrorView>;

/// The abstract value of a parser result.
pub open spec fn parsed(r: Result) -> ParsedView {
    match r {
        Ok(n) => Ok(n@),
        Err(e) => Err(e@),
    }
}

/// Removes the escape characters from a string, keeping the character each one escapes.
pub open spec fn unescape(c: Seq<char>, escaped: bool) -> Seq<char>
    decreases c.len(),
{
    if c.len() == 0 {
        Seq::empty()
    } else if escaped {
        seq![c[0]] + unescape(c.drop_first(), false)
    } else if c[0] == '\\' {
        unescape(c.drop_first(), true)
    } else {
        seq![c[0]] + unescape(c.drop_first(), false)
    }
}

/// The characters between the delimiters of a string literal.
pub open spec fn string_contents(v: Seq<char>) -> Seq<char> {
    if v.len() >= 2 {
        v.subrange(1, v.len() - 1)
    } else {
        Seq::empty()
    }
}

/// A leaf node.
pub open spec fn leaf(position: (int, int), quoted: bool, value: LeafView) -> NodeView {
    NodeView { position, quoted, value: NodeValueView::Leaf(value) }
}

/// Parses the first expression of a token stream; the stream after it is returned too.
pub open spec fn spec_parse_first(t: Seq<Outcome>, quoted: bool) -> (ParsedView, Seq<Outcome>)
    decreases t.len(), 0int,
{
    if t.len() == 0 {
        (Err(ErrorView::UnexpectedEnd), t)
    } else {
        let rest = t.drop_first();
        match t[0] {
            Err(f) => (Err(ErrorView::TokenizerError(f)), rest),
            Ok((l, position)) => match l {
                Lexeme::LeftParenthesis => spec_parse_tree(rest, position, quoted),
                Lexeme::Quote => spec_parse_first(rest, true),
                Lexeme::String(v) => if !quoted {
                    (Ok(leaf(position, false, LeafView::String(unescape(string_contents(v), false)))), rest)
                } else {
                    (Err(ErrorView::UnexpectedToken((l, position))), rest)
                },
                Lexeme::Number(v) => if !quoted && has_digit(v) {
                    (Ok(leaf(position, false, LeafView::Number(v))), rest)
                } else {
                    (Err(ErrorView::UnexpectedToken((l, position))), rest)
                },
                Lexeme::Atom(v) => (Ok(leaf(position, quoted, LeafView::Atom(v))), rest),
                _ => (Err(ErrorView::UnexpectedToken((l, position))), rest),
            },
        }
    }
}

/// Whether a token stream starts with a right parenthesis, which closes a tree.
pub open spec fn closes_tree(t: Seq<Outcome>) -> bool {
    t.len() > 0 && t[0] matches Ok((Lexeme::RightParenthesis, _))
}

/// Parses the children of a tree up to its closing parenthesis.
pub open spec fn spec_parse_items(t: Seq<Outcome>) -> (
    core::result::Result<Seq<NodeView>, ErrorView>,
    Seq<Outcome>,
)
    decreases t.len(), 1int,
{
    if closes_tree(t) {
        (Ok(Seq::empty()), t.drop_first())
    } else {
        let (r, rest) = spec_parse_first(t, false);
        match r {
            Ok(n) => if rest.len() < t.len() {
                let (rr, rest2) = spec_parse_items(rest);
                (
                    match rr {
                        Ok(ns) => Ok(seq![n] + ns),
                        Err(e) => Err(e),
                    },
                    rest2,
                )
            } else {
                (Err(ErrorView::UnexpectedEnd), rest)
            },
            Err(e) => (Err(e), rest),
        }
    }
}

/// Parses a tree whose opening parenthesis has been consumed.
pub open spec fn spec_parse_tree(t: Seq<Outcome>, position: (int, int), quoted: bool) -> (
    ParsedView,
    Seq<Outcome>,
)
    decreases t.len(), 2int,
{
    let (r, rest) = spec_parse_items(t);
    (
        match r {
            Ok(ns) => Ok(NodeView { position, quoted, value: NodeValueView::Tree(ns) }),
            Err(e) => Err(e),
        },
        rest,
    )
}

/// Parses a whole token stream into an AST; the stream after it is returned too.
///
/// A single expression must make up the stream.
pub open spec fn spec_parse(t: Seq<Outcome>) -> (ParsedView, Seq<Outcome>) {
    let (r, rest) = spec_parse_first(t, false);
    match r {
        Err(e) => (Err(e), rest),
        Ok(n) => if rest.len() == 0 {
            (Ok(n), rest)
        } else {
            match rest[0] {
                Err(f) => (Err(ErrorView::TokenizerError(f)), rest.drop_first()),
                Ok(tok) => (Err(ErrorView::UnexpectedToken(tok)), rest.drop_first()),
            }
        },
    }
}

/// Parsing consumes tokens from the front of the stream.
pub(crate) proof fn lemma_parse_consumes(t: Seq<Outcome>, quoted: bool)
    ensures
        spec_parse_first(t, quoted).1.len() <= t.len(),
        t.len() > 0 ==> spec_parse_first(t, quoted).1.len() < t.len(),
        spec_parse_items(t).1.len() <= t.len(),
    decreases t.len(),
{
    if t.len() > 0 {
        let rest = t.drop_first();
        lemma_parse_consumes(rest, true);
        lemma_parse_consumes(rest, false);
        if let Ok((l, p)) = t[0] {
            assert(spec_parse_tree(rest, p, quoted).1 == spec_parse_items(rest).1);
            assert(spec_parse_tree(rest, p, false).1 == spec_parse_items(rest).1);
        }
        assert(spec_parse_first(t, quoted).1.len() < t.len());
        let (r, rest1) = spec_parse_first(t, false);
        assert(rest1.len() < t.len());
        if r is Ok {
            lemma_parse_consumes(rest1, false);
            assert(spec_parse_items(rest1).1.len() <= rest1.len());
        }
    } else {
        assert(spec_parse_first(t, false).1 == t);
    }
}

/// A parse succeeds only on a stream that holds exactly one expression: nothing is left after it.
pub proof fn law_parse_whole_stream(t: Seq<Outcome>)
    ensures
        spec_parse(t).0 is Ok ==> spec_parse(t).1.len() == 0 && spec_parse(t).0 == spec_parse_first(
            t,
            false,
        ).0,
{
}

/// Whether the literals of a node are as the grammar makes them: no string or number leaf is
/// quoted (only atoms and trees can be), and every number holds a digit.
pub open spec fn literals_well_formed(n: NodeView) -> bool
    decreases n,
{
    match n.value {
        NodeValueView::Leaf(l) => (l is Atom || !n.quoted) && (l matches LeafView::Number(v) ==> has_digit(
            v,
        )),
        NodeValueView::Tree(children) => all_literals_well_formed(children),
    }
}

/// Whether the literals of each of the nodes are as the grammar makes them.
pub open spec fn all_literals_well_formed(nodes: Seq<NodeView>) -> bool
    decreases nodes,
{
    if nodes.len() == 0 {
        true
    } else {
        literals_well_formed(nodes[0]) && all_literals_well_formed(nodes.subrange(1, nodes.len() as int))
    }
}

/// The first node read by the parser holds no quoted string or number.
proof fn lemma_first_literals(t: Seq<Outcome>, quoted: bool)
    ensures
        spec_parse_first(t, quoted).0 matches Ok(n) ==> literals_well_formed(n),
    decreases t.len(), 0int,
{
    if t.len() > 0 {
        let rest = t.drop_first();
        if let Ok((l, position)) = t[0] {
            match l {
                Lexeme::LeftParenthesis => {
                    lemma_items_literals(rest);
                    if let (Ok(ns), _) = spec_parse_items(rest) {
                        let n = NodeView { position, quoted, value: NodeValueView::Tree(ns) };
                        assert(spec_parse_first(t, quoted) == spec_parse_tree(rest, position, quoted));
                        assert(spec_parse_tree(rest, position, quoted).0 == Ok::<NodeView, ErrorView>(n));
                    }
                },
                Lexeme::Quote => {
                    lemma_first_literals(rest, true);
                },
                _ => {},
            }
        }
    }
}

/// The children read by the parser hold no quoted string or number.
proof fn lemma_items_literals(t: Seq<Outcome>)
    ensures
        spec_parse_items(t).0 matches Ok(ns) ==> all_literals_well_formed(ns),
    decreases t.len(), 1int,
{
    lemma_first_literals(t, false);
    lemma_parse_consumes(t, false);
    let (r, rest1) = spec_parse_first(t, false);
    if let Ok(n) = r {
        if rest1.len() < t.len() {
            lemma_items_literals(rest1);
            if let (Ok(ns), _) = spec_parse_items(rest1) {
                let all = seq![n] + ns;
                assert(all.subrange(1, all.len() as int) =~= ns);
            }
        }
    }
}

/// A tree is quoted as a whole: the parser never yields a quoted string or number, nor a number
/// without a digit.
pub proof fn law_parsed_literals_well_formed(t: Seq<Outcome>)
    ensures
        spec_parse(t).0 matches Ok(n) ==> literals_well_formed(n),
{
    lemma_first_literals(t, false);
}

/// Parses a stream of tokens into an AST.
///
/// A single expression must make up the stream; a token after it is an error.
pub fn parse(tokens: &mut Tokens) -> (r: Result)
    ensures
        (parsed(r), final(tokens)@) == spec_parse(old(tokens)@),
{
    let ast = match parse_first(tokens, false) {
        Ok(n) => n,
        Err(e) => {
            return Err(e);
        },
    };
    match tokens.next() {
        None => Ok(ast),
        Some(Err(cause)) => Err(Error::TokenizerError { cause }),
        Some(Ok(token)) => Err(Error::UnexpectedToken { token }),
    }
}

/// Parses the first expression of a stream of tokens.
fn parse_first(tokens: &mut Tokens, quoted: bool) -> (r: Result)
    ensures
        (parsed(r), final(tokens)@) == spec_parse_first(old(tokens)@, quoted),
    decreases old(tokens)@.len(), 0int,
{
    let ghost t = tokens@;
    match tokens.next() {
        None => Err(Error::UnexpectedEnd),
        Some(Err(cause)) => Err(Error::TokenizerError { cause }),
        Some(Ok(token)) => {
            let (value, position) = token.into_parts();
            match value {
                token::Value::LeftParenthesis => parse_tree(position, quoted, tokens),
                token::Value::Quote => parse_first(tokens, true),
                token::Value::String { value } => {
                    if !quoted {
                        Ok(parse_string(position, value.as_str()))
                    } else {
                        Err(
                            Error::UnexpectedToken {
                                token: token::Token::new(token::Value::String { value }, position),
                            },
                        )
                    }
                },
                token::Value::Number { value } => {
                    if !quoted && contains_digit(value.as_str()) {
                        Ok(parse_number(position, value.as_str()))
                    } else {
                        Err(
                            Error::UnexpectedToken {
                                token: token::Token::new(token::Value::Number { value }, position),
                            },
                        )
                    }
                },
                token::Value::Atom { value } => Ok(parse_atom(position, value.as_str(), quoted)),
                token::Value::RightParenthesis => Err(
                    Error::UnexpectedToken {
                        token: token::Token::new(token::Value::RightParenthesis, position),
                    },
                ),
            }
        },
    }
}

/// Parses a tree where the initial parenthesis has already been consumed.
fn parse_tree(position: Position, quoted: bool, tokens: &mut Tokens) -> (r: Result)
    ensures
        (parsed(r), final(tokens)@) == spec_parse_tree(old(tokens)@, position@, quoted),
    decreases old(tokens)@.len(), 2int,
{
    let ghost t = tokens@;
    let mut nodes: Vec<Node> = Vec::new();
    let ghost mut views: Seq<NodeView> = Seq::empty();
    loop
        invariant_except_break
            spec_parse_items(t).1 == spec_parse_items(tokens@).1,
            spec_parse_items(t).0 == match spec_parse_items(tokens@).0 {
                Ok(ns) => Ok(views + ns),
                Err(e) => Err(e),
            },
        invariant
            t == old(tokens)@,
            tokens@.len() <= t.len(),
            views == nodes@.map_values(|n: Node| n@),
        ensures
            spec_parse_items(t) == (
                Ok::<Seq<NodeView>, ErrorView>(views),
                tokens@,
            ),
        decreases tokens@.len(),
    {
        let ghost before = tokens@;
        proof {
            lemma_parse_consumes(before, false);
        }
        if tokens.next_closes() {
            let _ = tokens.next();
            assert(views + Seq::<NodeView>::empty() =~= views);
            break ;
        }
        match parse_first(tokens, false) {
            Ok(node) => {
                proof {
                    let rest = tokens@;
                    assert(spec_parse_first(before, false) == (Ok::<NodeView, ErrorView>(node@), rest));
                    assert(rest.len() < before.len());
                    match spec_parse_items(rest).0 {
                        Ok(ns) => {
                            assert(views + (seq![node@] + ns) =~= views.push(node@) + ns);
                        },
                        Err(e) => {},
                    }
                    views = views.push(node@);
                }
                nodes.push(node);
                assert(views =~= nodes@.map_values(|n: Node| n@));
            },
            Err(e) => {
                return Err(e);
            },
        }
    }
    let r = Node::new(position, quoted, NodeValue::Tree(nodes));
    proof {
        lemma_tree_view(nodes);
    }
    Ok(r)
}

/// Parses a single string literal, removing its delimiters and its escape characters.
fn parse_string(position: Position, value: &str) -> (r: Node)
    ensures
        r@ == leaf(position@, false, LeafView::String(unescape(string_contents(value@), false))),
{
    let chars = chars_of(value);
    let ghost contents = string_contents(value@);
    let mut string = String::new();
    let mut escaped = false;
    if chars.len() >= 2 {
        let end = chars.len() - 1;
        assert(contents == chars@.subrange(1, end as int));
        let mut i: usize = 1;
        while i < end
            invariant
                1 <= i <= end < chars@.len(),
                contents == chars@.subrange(1, end as int),
                string@ + unescape(chars@.subrange(i as int, end as int), escaped) == unescape(
                    contents,
                    false,
                ),
            decreases end - i,
        {
            let character = chars[i];
            let ghost rest = chars@.subrange(i as int, end as int);
            let ghost before = string@;
            let ghost was = escaped;
            assert(rest.drop_first() =~= chars@.subrange(i + 1, end as int));
            if escaped {
                push_char(&mut string, character);
                escaped = false;
            } else if character == '\\' {
                escaped = true;
            } else {
                push_char(&mut string, character);
            }
            assert(string@ + unescape(rest.drop_first(), escaped) =~= before + unescape(rest, was));
            i += 1;
        }
        assert(chars@.subrange(end as int, end as int) =~= Seq::<char>::empty());
    } else {
        assert(contents =~= Seq::<char>::empty());
    }
    Node::new(position, false, NodeValue::Leaf(Value::String { value: string }))
}

/// Whether a text holds a decimal digit.
fn contains_digit(value: &str) -> (r: bool)
    ensures
        r == has_digit(value@),
{
    let chars = chars_of(value);
    let mut i: usize = 0;
    while i < chars.len()
        invariant
            i <= chars@.len(),
            chars@ == value@,
            forall|j: int| 0 <= j < i ==> !is_digit(#[trigger] chars@[j]),
        decreases chars.len() - i,
    {
        if is_ascii_digit(chars[i]) {
            return true;
        }
        i += 1;
    }
    false
}

/// Parses a single number literal; its text is kept.
fn parse_number(position: Position, value: &str) -> (r: Node)
    ensures
        r@ == leaf(position@, false, LeafView::Number(value@)),
{
    Node::new(position, false, NodeValue::Leaf(Value::Number { value: value.to_owned() }))
}

/// Parses a single atom.
fn parse_atom(position: Position, value: &str, quoted: bool) -> (r: Node)
    ensures
        r@ == leaf(position@, quoted, LeafView::Atom(value@)),
{
    Node::new(position, quoted, NodeValue::Leaf(Value::Atom { value: value.to_owned() }))
}

} // verus!
