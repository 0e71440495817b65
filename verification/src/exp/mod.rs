//! # Script expressions
//!
//! The errors of compiling and evaluating expressions, and the parse context.
use vstd::prelude::*;

use crate::ast::{lemma_tree_view, LeafView, Node, NodeValue, NodeValueView, NodeView, Value};
use crate::{allocation, ast, val};
use crate::text::str_eq;

pub mod cmd;
pub mod env;
pub mod expression;

pub use expression::{Command, Expression};

verus! {

/// An error occurring when evaluating an expression.
#[derive(Debug, PartialEq)]
pub enum Error<'a> {
    /// A syntax error.
    Syntax { message: &'static str },
    /// An AST node could not be evaluated.
    Eval { node: &'a ast::Node, message: &'static str },
    /// An unknown variable or command.
    UnknownReference { value: String },
    /// An invalid operation.
    InvalidOperation(val::Error),
    /// A wrong number of arguments.
    InvalidInvocation { expected: usize, actual: usize },
    /// An allocation failed.
    Allocation(allocation::Error),
    /// No more evaluations are permitted.
    ExecutionLimited,
}

/// The context used while parsing an expression.
#[derive(Debug, Default)]
pub struct ParseContext {
    /// The known variables in this scope, outermost first.
    pub scope: Vec<String>,
}

/// The distance from the end of `scope` of the last occurrence of `name`, if any.
pub open spec fn position_from_end(scope: Seq<Seq<char>>, name: Seq<char>) -> Option<int>
    decreases scope.len(),
{
    if scope.len() == 0 {
        None
    } else if scope.last() == name {
        Some(0)
    } else {
        match position_from_end(scope.drop_last(), name) {
            Some(i) => Some(i + 1),
            None => None,
        }
    }
}

impl ParseContext {
    /// The names in scope.
    pub open spec fn names(&self) -> Seq<Seq<char>> {
        self.scope@.map_values(|n: String| n@)
    }

    /// Attempts to resolve a variable name to its index from the innermost variable.
    pub fn resolve(&self, name: &str) -> (r: Option<usize>)
        ensures
            match position_from_end(self.names(), name@) {
                Some(i) => r == Some(i as usize),
                None => r is None,
            },
    {
        let len = self.scope.len();
        let mut i: usize = 0;
        assert(self.names().take(len as int) =~= self.names());
        while i < len
            invariant
                i <= len == self.scope@.len(),
                position_from_end(self.names(), name@) == match position_from_end(
                    self.names().take(len - i),
                    name@,
                ) {
                    Some(j) => Some(j + i),
                    None => None::<int>,
                },
            decreases len - i,
        {
            let ghost prefix = self.names().take(len - i);
            assert(prefix.drop_last() =~= self.names().take(len - i - 1));
            if str_eq(self.scope[len - 1 - i].as_str(), name) {
                return Some(i);
            }
            i += 1;
        }
        assert(self.names().take(0) =~= Seq::<Seq<char>>::empty());
        None
    }
}

/// Whether an abstract node is an atom.
pub open spec fn is_atom(n: NodeView) -> bool {
    n.value matches NodeValueView::Leaf(LeafView::Atom(_))
}

/// The names of a tree's children, when every child is an atom.
pub open spec fn argument_names(n: NodeView) -> Option<Seq<Seq<char>>> {
    match n.value {
        NodeValueView::Tree(children) => if forall|i: int|
            0 <= i < children.len() ==> is_atom(#[trigger] children[i]) {
            Some(
                Seq::new(
                    children.len(),
                    |i: int| children[i].value->Leaf_0->Atom_0,
                ),
            )
        } else {
            None
        },
        NodeValueView::Leaf(_) => None,
    }
}

/// Attempts to convert an AST node to a list of argument names.
///
/// This succeeds for a tree whose children are all atoms, quoted or not.
pub fn as_argument_list(node: &Node) -> (r: Option<Vec<String>>)
    ensures
        match r {
            Some(names) => argument_names(node@) == Some(names@.map_values(|s: String| s@)),
            None => argument_names(node@) is None,
        },
{
    match &node.value {
        NodeValue::Tree(nodes) => {
            proof {
                lemma_tree_view(*nodes);
            }
            let ghost children = nodes@.map_values(|n: Node| n@);
            let mut names: Vec<String> = Vec::new();
            let mut i: usize = 0;
            while i < nodes.len()
                invariant
                    i <= nodes@.len(),
                    children == nodes@.map_values(|n: Node| n@),
                    node@.value == NodeValueView::Tree(children),
                    names@.len() == i,
                    forall|j: int|
                        0 <= j < i ==> is_atom(#[trigger] children[j]) && names@[j]@
                            == children[j].value->Leaf_0->Atom_0,
                decreases nodes@.len() - i,
            {
                match &nodes[i].value {
                    NodeValue::Leaf(Value::Atom { value }) => {
                        names.push(value.clone());
                    },
                    _ => {
                        assert(!is_atom(children[i as int]));
                        return None;
                    },
                }
                i += 1;
            }
            assert(names@.map_values(|s: String| s@) =~= Seq::new(
                children.len(),
                |i: int| children[i].value->Leaf_0->Atom_0,
            ));
            Some(names)
        },
        NodeValue::Leaf(_) => None,
    }
}

/// The last occurrence of a name in scope is found, and it is indeed that name.
pub proof fn law_position_from_end(scope: Seq<Seq<char>>, name: Seq<char>)
    ensures
        position_from_end(scope, name) matches Some(i) ==> 0 <= i < scope.len() && scope[scope.len()
            - 1 - i] == name && forall|j: int|
            #![trigger scope[scope.len() - 1 - j]]
            0 <= j < i ==> scope[scope.len() - 1 - j] != name,
        position_from_end(scope, name) is None ==> forall|j: int|
            0 <= j < scope.len() ==> scope[j] != name,
    decreases scope.len(),
{
    if scope.len() > 0 && scope.last() != name {
        law_position_from_end(scope.drop_last(), name);
        let rest = scope.drop_last();
        assert forall|j: int| 0 <= j < scope.len() - 1 implies scope[j] == rest[j] by {}
        if let Some(i) = position_from_end(scope, name) {
            assert forall|j: int| 0 <= j < i implies #[trigger] scope[scope.len() - 1 - j] != name by {
                if j > 0 {
                    assert(scope[scope.len() - 1 - j] == rest[rest.len() - 1 - (j - 1)]);
                }
            }
        }
    }
}

} // verus!
