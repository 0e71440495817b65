//! The textual forms of positions, tokens and abstract syntax trees.
//!
//! A tree is written as a script would spell it: atoms and numbers as they are, strings between
//! double quotes with `"` and `\` escaped, trees as their children between parentheses, and a
//! quoted node with a leading single quote.
use vstd::prelude::*;

use super::token::{self, Lexeme, Token};
use super::tokenizer::is_escapable;
use super::{
    lemma_tree_view, node_value_view, LeafView, Node, NodeValue, NodeValueView, NodeView, Position,
    Value,
};
use crate::common::{append, list_text, write_list};
use crate::text::{chars_of, push_char};

verus! {

/// The character of a decimal digit.
pub open spec fn digit(d: int) -> char {
    if d <= 0 {
        '0'
    } else if d == 1 {
        '1'
    } else if d == 2 {
        '2'
    } else if d == 3 {
        '3'
    } else if d == 4 {
        '4'
    } else if d == 5 {
        '5'
    } else if d == 6 {
        '6'
    } else if d == 7 {
        '7'
    } else if d == 8 {
        '8'
    } else {
        '9'
    }
}

/// The decimal digits of a natural number, without leading zeroes.
pub open spec fn decimal(n: nat) -> Seq<char>
    decreases n,
{
    if n < 10 {
        seq![digit(n as int)]
    } else {
        decimal(n / 10).push(digit((n % 10) as int))
    }
}

/// The textual form of a position: `row:column`.
pub open spec fn position_text(p: (int, int)) -> Seq<char> {
    decimal(p.0 as nat) + seq![':'] + decimal(p.1 as nat)
}

/// The characters of a string with every escapable character preceded by a backslash.
pub open spec fn escaped(s: Seq<char>) -> Seq<char>
    decreases s.len(),
{
    if s.len() == 0 {
        Seq::empty()
    } else {
        let c = s.last();
        escaped(s.drop_last()) + if is_escapable(c) {
            seq!['\\', c]
        } else {
            seq![c]
        }
    }
}

/// The textual form of a leaf value.
pub open spec fn leaf_text(v: LeafView) -> Seq<char> {
    match v {
        LeafView::Atom(s) => s,
        LeafView::Number(s) => s,
        LeafView::String(s) => seq!['"'] + escaped(s) + seq!['"'],
    }
}

/// The textual form of an abstract node.
pub open spec fn node_text(n: NodeView) -> Seq<char>
    decreases n,
{
    if n.quoted {
        seq!['\''] + value_text(n.value)
    } else {
        value_text(n.value)
    }
}

/// The textual form of an abstract node value: a leaf's text, or its children's texts as a list.
pub open spec fn value_text(v: NodeValueView) -> Seq<char>
    decreases v,
{
    match v {
        NodeValueView::Leaf(l) => leaf_text(l),
        NodeValueView::Tree(children) => list_text(children_texts(children)),
    }
}

/// The textual forms of a sequence of abstract nodes.
pub open spec fn children_texts(children: Seq<NodeView>) -> Seq<Seq<char>>
    decreases children,
{
    Seq::new(
        children.len(),
        |i: int|
            if 0 <= i < children.len() {
                node_text(children[i])
            } else {
                Seq::empty()
            },
    )
}

/// The textual form of a token value.
pub open spec fn lexeme_text(l: Lexeme) -> Seq<char> {
    match l {
        Lexeme::LeftParenthesis => seq!['('],
        Lexeme::RightParenthesis => seq![')'],
        Lexeme::Quote => seq!['\''],
        Lexeme::String(s) => s,
        Lexeme::Number(s) => s,
        Lexeme::Atom(s) => s,
    }
}

/// The character of a decimal digit.
fn digit_char(d: u16) -> (c: char)
    requires
        d < 10,
    ensures
        c == digit(d as int),
{
    match d {
        0 => '0',
        1 => '1',
        2 => '2',
        3 => '3',
        4 => '4',
        5 => '5',
        6 => '6',
        7 => '7',
        8 => '8',
        _ => '9',
    }
}

/// Appends the decimal digits of a number.
fn write_decimal(s: &mut String, n: u16)
    ensures
        final(s)@ == old(s)@ + decimal(n as nat),
    decreases n,
{
    if n >= 10 {
        write_decimal(s, n / 10);
    }
    push_char(s, digit_char(n % 10));
}

impl Position {
    /// The textual form of this position: `row:column`.
    pub fn to_string(&self) -> (r: String)
        ensures
            r@ == position_text(self@),
    {
        let mut r = String::new();
        write_decimal(&mut r, self.row());
        push_char(&mut r, ':');
        write_decimal(&mut r, self.column());
        r
    }
}

/// Appends a string literal: the characters between double quotes, with escapes.
fn write_string_literal(r: &mut String, value: &str)
    ensures
        final(r)@ == old(r)@ + seq!['"'] + escaped(value@) + seq!['"'],
{
    let chars = chars_of(value);
    push_char(r, '"');
    let ghost start = r@;
    let mut i: usize = 0;
    while i < chars.len()
        invariant
            i <= chars@.len(),
            chars@ == value@,
            r@ == start + escaped(chars@.take(i as int)),
        decreases chars@.len() - i,
    {
        let c = chars[i];
        assert(chars@.take(i + 1).drop_last() =~= chars@.take(i as int));
        if c == '"' || c == '\\' {
            push_char(r, '\\');
        }
        push_char(r, c);
        assert(r@ =~= start + escaped(chars@.take(i + 1)));
        i += 1;
    }
    assert(chars@.take(chars@.len() as int) =~= chars@);
    push_char(r, '"');
    assert(r@ =~= old(r)@ + seq!['"'] + escaped(value@) + seq!['"']);
}

impl Value {
    /// The textual form of this value.
    pub fn to_string(&self) -> (r: String)
        ensures
            r@ == leaf_text(self@),
    {
        match self {
            Value::Atom { value } => {
                let mut r = String::new();
                append(&mut r, value.as_str());
                r
            },
            Value::Number { value } => {
                let mut r = String::new();
                append(&mut r, value.as_str());
                r
            },
            Value::String { value } => {
                let mut r = String::new();
                write_string_literal(&mut r, value.as_str());
                r
            },
        }
    }
}

/// The textual form of a node value: a leaf's text, or the children between parentheses.
fn node_value_text(v: &NodeValue) -> (r: String)
    ensures
        r@ == value_text(node_value_view(*v)),
    decreases v,
{
    match v {
        NodeValue::Leaf(l) => {
            l.to_string()
        },
        NodeValue::Tree(nodes) => {
            let ghost view = node_value_view(*v);
            let ghost children = view->Tree_0;
            proof {
                lemma_tree_view(*nodes);
            }
            let mut texts: Vec<String> = Vec::new();
            let mut i: usize = 0;
            proof {
                assert(decreases_to!(*v => *nodes));
            }
            while i < nodes.len()
                invariant
                    decreases_to!(*v => *nodes),
                    i <= nodes@.len(),
                    children == nodes@.map_values(|n: Node| n@),
                    texts@.len() == i,
                    forall|j: int| 0 <= j < i ==> #[trigger] texts@[j]@ == node_text(children[j]),
                decreases nodes@.len() - i,
            {
                proof {
                    assert(decreases_to!(*nodes => nodes[i as int]));
                }
                let t = node_text_of(&nodes[i]);
                texts.push(t);
                i += 1;
            }
            let r = write_list(&texts);
            let ghost texts_view = texts@.map_values(|s: String| s@);
            assert(texts_view =~= children_texts(children));
            r
        },
    }
}

/// The textual form of a node.
fn node_text_of(n: &Node) -> (r: String)
    ensures
        r@ == node_text(n@),
    decreases n,
{
    let value = node_value_text(&n.value);
    if n.quoted {
        let mut r = String::new();
        push_char(&mut r, '\'');
        append(&mut r, value.as_str());
        r
    } else {
        value
    }
}

impl NodeValue {
    /// The textual form of this node value.
    pub fn to_string(&self) -> (r: String)
        ensures
            r@ == value_text(node_value_view(*self)),
    {
        node_value_text(self)
    }
}

impl Node {
    /// The textual form of this node, as a script spells it.
    pub fn to_string(&self) -> (r: String)
        ensures
            r@ == node_text(self@),
    {
        node_text_of(self)
    }
}

impl token::Value {
    /// The textual form of this token value.
    pub fn to_string(&self) -> (r: String)
        ensures
            r@ == lexeme_text(self@),
    {
        let mut r = String::new();
        match self {
            token::Value::LeftParenthesis => push_char(&mut r, '('),
            token::Value::RightParenthesis => push_char(&mut r, ')'),
            token::Value::Quote => push_char(&mut r, '\''),
            token::Value::String { value } => append(&mut r, value.as_str()),
            token::Value::Number { value } => append(&mut r, value.as_str()),
            token::Value::Atom { value } => append(&mut r, value.as_str()),
        }
        r
    }
}

impl Token {
    /// The textual form of this token: `at row:column: value`.
    pub fn to_string(&self) -> (r: String)
        ensures
            r@ == seq!['a', 't', ' '] + position_text(self@.1) + seq![':', ' '] + lexeme_text(
                self@.0,
            ),
    {
        let mut r = String::new();
        push_char(&mut r, 'a');
        push_char(&mut r, 't');
        push_char(&mut r, ' ');
        append(&mut r, self.position().to_string().as_str());
        push_char(&mut r, ':');
        push_char(&mut r, ' ');
        append(&mut r, self.value().to_string().as_str());
        r
    }
}

} // verus!
