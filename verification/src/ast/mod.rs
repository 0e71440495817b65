//! # The abstract syntax tree
//!
//! This module contains functions to tokenise and parse a script.
use vstd::prelude::*;

pub mod display;
pub mod parser;
pub mod reading;
pub mod token;
pub mod tokenizer;

pub use parser::parse;
pub use token::tokenize;

verus! {

/// The value of a single [`Position`] value.
pub type PositionValue = u16;

/// A position in the input string.
///
/// This is used for error reporting when parsing, compiling and evaluating.
#[derive(Clone, Copy, Debug, PartialEq, Eq)]
pub struct Position {
    /// The row; this is 1 based.
    row: PositionValue,
    /// The column; this is 1 based.
    column: PositionValue,
}

impl View for Position {
    type V = (int, int);

    closed spec fn view(&self) -> (int, int) {
        (self.row as int, self.column as int)
    }
}

impl Position {
    /// Creates a new value.
    pub fn new(row: PositionValue, column: PositionValue) -> (r: Self)
        ensures
            r@ == (row as int, column as int),
    {
        Self { row, column }
    }

    /// The starting position.
    pub fn start() -> (r: Self)
        ensures
            r@ == (1int, 1int),
    {
        Self { row: 1, column: 1 }
    }

    /// The row of this position.
    pub fn row(&self) -> (r: PositionValue)
        ensures
            r as int == self@.0,
    {
        self.row
    }

    /// The column of this position.
    pub fn column(&self) -> (r: PositionValue)
        ensures
            r as int == self@.1,
    {
        self.column
    }

    /// The first column of the next row.
    ///
    /// Rows and columns both count from 1, so the next row begins at column 1: the first
    /// character after a line break is read at column 1, and an input that ends right after a
    /// line break ends at column 1 of the next row.
    pub fn next_row(self) -> (r: Self)
        requires
            self@.0 < PositionValue::MAX,
        ensures
            r@ == (self@.0 + 1, 1int),
    {
        Self { row: self.row + 1, column: 1 }
    }

    /// The next column.
    pub fn next_column(self) -> (r: Self)
        requires
            self@.1 < PositionValue::MAX,
        ensures
            r@ == (self@.0, self@.1 + 1),
    {
        Self { column: self.column + 1, ..self }
    }

    /// A copy of this position.
    pub fn copied(&self) -> (r: Self)
        ensures
            r@ == self@,
    {
        Self { row: self.row, column: self.column }
    }
}

/// Both components of a position fit in a [`PositionValue`].
pub open spec fn position_fits(p: (int, int)) -> bool {
    0 <= p.0 <= PositionValue::MAX && 0 <= p.1 <= PositionValue::MAX
}

/// An error originating at a specific location.
#[derive(Debug, PartialEq)]
pub struct PositionedError<E> {
    /// The position of the error.
    position: Position,
    /// The cause of the error.
    cause: E,
}

impl<E> PositionedError<E> {
    /// The abstract position of this error.
    pub closed spec fn spec_position(&self) -> (int, int) {
        self.position@
    }

    /// The cause of this error.
    pub closed spec fn spec_cause(&self) -> E {
        self.cause
    }

    /// Creates an error at a position.
    pub fn new(position: Position, cause: E) -> (r: Self)
        ensures
            r.spec_position() == position@,
            r.spec_cause() == cause,
    {
        PositionedError { position, cause }
    }

    /// The position of the error.
    pub fn position(&self) -> (r: Position)
        ensures
            r@ == self.spec_position(),
    {
        self.position.copied()
    }

    /// The cause of the error.
    pub fn cause(&self) -> (r: &E)
        ensures
            *r == self.spec_cause(),
    {
        &self.cause
    }
}

/// A cause for a [positioned error](PositionedError).
pub trait PositionedErrorCause: Sized {
    /// Constructs a [`PositionedError`] from this cause.
    fn for_position(self, position: Position) -> (r: PositionedError<Self>)
        ensures
            r.spec_position() == position@,
            r.spec_cause() == self,
    {
        PositionedError::new(position, self)
    }
}

/// The abstract value of a leaf.
pub enum LeafView {
    Atom(Seq<char>),
    Number(Seq<char>),
    String(Seq<char>),
}

/// The abstract value of an AST node.
pub enum NodeValueView {
    Leaf(LeafView),
    Tree(Seq<NodeView>),
}

/// The abstract AST node: position, quotation and value.
pub struct NodeView {
    pub position: (int, int),
    pub quoted: bool,
    pub value: NodeValueView,
}

/// A single value.
///
/// A number keeps the literal text it was read from; converting it to a floating point value
/// is left to the evaluator.
#[derive(Clone, Debug, PartialEq)]
pub enum Value {
    /// An atom.
    Atom { value: String },
    /// A number literal.
    Number { value: String },
    /// A string.
    String { value: String },
}

impl View for Value {
    type V = LeafView;

    open spec fn view(&self) -> LeafView {
        match self {
            Value::Atom { value } => LeafView::Atom(value@),
            Value::Number { value } => LeafView::Number(value@),
            Value::String { value } => LeafView::String(value@),
        }
    }
}

impl Value {
    /// A copy of this value.
    pub fn copied(&self) -> (r: Self)
        ensures
            r@ == self@,
    {
        match self {
            Value::Atom { value } => Value::Atom { value: value.clone() },
            Value::Number { value } => Value::Number { value: value.clone() },
            Value::String { value } => Value::String { value: value.clone() },
        }
    }

    /// Constructs an atom.
    pub fn atom(value: &str) -> (r: Self)
        ensures
            r@ == LeafView::Atom(value@),
    {
        Value::Atom { value: value.to_owned() }
    }

    /// Constructs a number from its literal text.
    pub fn number(value: &str) -> (r: Self)
        ensures
            r@ == LeafView::Number(value@),
    {
        Value::Number { value: value.to_owned() }
    }

    /// Constructs a string.
    pub fn string(value: &str) -> (r: Self)
        ensures
            r@ == LeafView::String(value@),
    {
        Value::String { value: value.to_owned() }
    }
}

/// An AST node value.
#[derive(Debug, PartialEq)]
pub enum NodeValue {
    /// A leaf node.
    Leaf(Value),
    /// A tree node.
    Tree(Vec<Node>),
}

impl NodeValue {
    /// A deep copy of this node value.
    pub fn copied(&self) -> (r: Self)
        ensures
            node_value_view(r) == node_value_view(*self),
        decreases self,
    {
        match self {
            NodeValue::Leaf(l) => NodeValue::Leaf(l.copied()),
            NodeValue::Tree(nodes) => {
                let mut copies: Vec<Node> = Vec::new();
                let mut i: usize = 0;
                proof {
                    assert(decreases_to!(*self => *nodes));
                }
                while i < nodes.len()
                    invariant
                        decreases_to!(*self => *nodes),
                        i <= nodes@.len(),
                        copies@.len() == i,
                        forall|j: int| 0 <= j < i ==> #[trigger] copies@[j]@ == nodes@[j]@,
                    decreases nodes@.len() - i,
                {
                    proof {
                        assert(decreases_to!(*nodes => nodes[i as int]));
                    }
                    copies.push(nodes[i].copied());
                    i += 1;
                }
                proof {
                    lemma_tree_view(*nodes);
                    lemma_tree_view(copies);
                    assert(copies@.map_values(|n: Node| n@) =~= nodes@.map_values(|n: Node| n@));
                }
                NodeValue::Tree(copies)
            },
        }
    }

    /// Constructs a leaf.
    pub fn leaf(value: Value) -> (r: Self)
        ensures
            r == NodeValue::Leaf(value),
    {
        NodeValue::Leaf(value)
    }

    /// Constructs a tree.
    pub fn tree(value: Vec<Node>) -> (r: Self)
        ensures
            r == NodeValue::Tree(value),
    {
        NodeValue::Tree(value)
    }
}

/// The abstract value of a node value.
pub open spec fn node_value_view(v: NodeValue) -> NodeValueView
    decreases v,
{
    match v {
        NodeValue::Leaf(l) => NodeValueView::Leaf(l@),
        NodeValue::Tree(nodes) => NodeValueView::Tree(
            Seq::new(
                nodes@.len(),
                |i: int|
                    if 0 <= i < nodes@.len() {
                        node_view(nodes@[i])
                    } else {
                        arbitrary()
                    },
            ),
        ),
    }
}

/// The abstract value of a node.
pub open spec fn node_view(n: Node) -> NodeView
    decreases n,
{
    NodeView { position: n.position@, quoted: n.quoted, value: node_value_view(n.value) }
}

/// An AST node.
#[derive(Debug, PartialEq)]
pub struct Node {
    /// The position of the token that the node was read from.
    pub position: Position,
    /// Whether this node is quoted.
    pub quoted: bool,
    /// The node value.
    pub value: NodeValue,
}

impl View for Node {
    type V = NodeView;

    open spec fn view(&self) -> NodeView {
        node_view(*self)
    }
}


/// The abstract value of a tree is the sequence of its children's abstract values.
pub proof fn lemma_tree_view(nodes: Vec<Node>)
    ensures
        node_value_view(NodeValue::Tree(nodes)) == NodeValueView::Tree(
            nodes@.map_values(|n: Node| n@),
        ),
{
    let v = node_value_view(NodeValue::Tree(nodes));
    let children = v->Tree_0;
    assert(children =~= nodes@.map_values(|n: Node| n@));
}

/// The number of direct children of an abstract node: one for a leaf.
pub open spec fn node_len(n: NodeView) -> nat {
    match n.value {
        NodeValueView::Leaf(_) => 1,
        NodeValueView::Tree(children) => children.len(),
    }
}

impl Node {
    /// Creates a new AST node.
    pub fn new(position: Position, quoted: bool, value: NodeValue) -> (r: Self)
        ensures
            r@ == (NodeView { position: position@, quoted, value: node_value_view(value) }),
    {
        Self { position, quoted, value }
    }

    /// The length of this node; this does not include child nodes.
    pub fn len(&self) -> (r: usize)
        ensures
            r == node_len(self@),
    {
        match &self.value {
            NodeValue::Leaf(_) => 1,
            NodeValue::Tree(nodes) => nodes.len(),
        }
    }

    /// Whether this node is empty.
    pub fn is_empty(&self) -> (r: bool)
        ensures
            r == (node_len(self@) == 0),
    {
        self.len() == 0
    }

    /// The position.
    pub fn position(&self) -> (r: &Position)
        ensures
            r@ == self@.position,
    {
        &self.position
    }

    /// Whether this node is quoted.
    pub fn quoted(&self) -> (r: bool)
        ensures
            r == self@.quoted,
    {
        self.quoted
    }

    /// The value.
    pub fn value(&self) -> (r: &NodeValue)
        ensures
            node_value_view(*r) == self@.value,
    {
        &self.value
    }

    /// A deep copy of this node.
    pub fn copied(&self) -> (r: Self)
        ensures
            r@ == self@,
        decreases self,
    {
        Node { position: self.position.copied(), quoted: self.quoted, value: self.value.copied() }
    }

    /// This node unquoted.
    pub fn unquoted(self) -> (r: Self)
        ensures
            r@ == (NodeView { quoted: false, ..self@ }),
    {
        Self { quoted: false, ..self }
    }
}

impl Clone for Node {
    fn clone(&self) -> (r: Self)
        ensures
            r@ == self@,
    {
        self.copied()
    }
}

impl Clone for NodeValue {
    fn clone(&self) -> (r: Self)
        ensures
            node_value_view(r) == node_value_view(*self),
    {
        self.copied()
    }
}

} // verus!
