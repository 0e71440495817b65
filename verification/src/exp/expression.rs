//! Executable expressions: what an abstract syntax tree compiles to.
use vstd::prelude::*;

use super::{position_from_end, Error, ParseContext};
use crate::ast::{lemma_tree_view, LeafView, Node, NodeValue, NodeValueView, NodeView, Value};
use crate::lambda::{Lambda, Ref, Store};
use crate::text::str_eq;

verus! {

/// An expression.
///
/// Once linked, an expression can be evaluated. A number keeps the text of its literal.
#[derive(Debug, PartialEq)]
pub enum Expression<C> {
    /// Nothing.
    Void,
    /// A list of expressions.
    List(Vec<Expression<C>>),
    /// A map of expressions: the names, then the values (a `let` binding list).
    Mapping(Vec<String>, Vec<Expression<C>>),
    /// A quoted AST node.
    AST(Node),
    /// A variable reference: its distance from the innermost variable.
    Reference(usize),
    /// A boolean value.
    Boolean(bool),
    /// A number literal.
    Number(String),
    /// A string.
    String(String),
    /// A built-in command with its arguments.
    Command(C, Vec<Expression<C>>),
    /// A list of lambda definitions.
    LambdaDef(Vec<Lambda<Expression<C>>>),
    /// A reference to a lambda.
    LambdaRef(Ref),
}

/// A set of built-in commands.
///
/// A tree whose head names a command compiles to what the command set's parser returns; which
/// trees these are, and what they become, the command set alone decides.
pub trait Command: Sized {
    /// Parses a tree whose head is `head` and whose other children are `tail`.
    ///
    /// An unknown reference or an evaluation error makes the tree a list instead.
    fn parse<'a>(context: &mut ParseContext, head: &'a Node, tail: &'a [Node]) -> Result<
        Expression<Self>,
        Error<'a>,
    >;
}

/// The atom that names the boolean true.
pub open spec fn true_atom() -> Seq<char> {
    seq!['t', 'r', 'u', 'e']
}

/// The atom that names the boolean false.
pub open spec fn false_atom() -> Seq<char> {
    seq!['f', 'a', 'l', 's', 'e']
}

/// What a node compiles to in a scope, where no command set decides.
pub enum Compiled {
    /// The quoted node itself.
    Ast(NodeView),
    /// A boolean.
    Boolean(bool),
    /// A reference to the variable at this distance from the innermost one.
    Reference(int),
    /// A number with this literal text.
    Number(Seq<char>),
    /// A string.
    String(Seq<char>),
    /// An atom that names no variable in scope.
    UnknownReference(Seq<char>),
    /// An empty tree, which is no expression.
    Unexpected,
    /// A tree with a head: the command set decides first.
    Tree(Seq<NodeView>),
}

/// What a node compiles to in a scope of variable names, outermost first.
pub open spec fn compiled(names: Seq<Seq<char>>, n: NodeView) -> Compiled {
    if n.quoted {
        Compiled::Ast(n)
    } else {
        match n.value {
            NodeValueView::Leaf(LeafView::Atom(v)) => if v == true_atom() {
                Compiled::Boolean(true)
            } else if v == false_atom() {
                Compiled::Boolean(false)
            } else {
                match position_from_end(names, v) {
                    Some(i) => Compiled::Reference(i),
                    None => Compiled::UnknownReference(v),
                }
            },
            NodeValueView::Leaf(LeafView::Number(v)) => Compiled::Number(v),
            NodeValueView::Leaf(LeafView::String(v)) => Compiled::String(v),
            NodeValueView::Tree(children) => if children.len() == 0 {
                Compiled::Unexpected
            } else {
                Compiled::Tree(children)
            },
        }
    }
}

/// Whether the result of compiling `node` is the one that `c` describes; a tree with a head is
/// described by `from_command`.
pub open spec fn gives<'a, C>(r: Result<Expression<C>, Error<'a>>, c: Compiled, node: &'a Node) -> bool {
    match c {
        Compiled::Ast(v) => r matches Ok(Expression::AST(n)) && n@ == v,
        Compiled::Boolean(b) => r == Ok::<Expression<C>, Error<'a>>(Expression::Boolean(b)),
        Compiled::Reference(i) => r == Ok::<Expression<C>, Error<'a>>(Expression::Reference(i as usize)),
        Compiled::Number(v) => r matches Ok(Expression::Number(s)) && s@ == v,
        Compiled::String(v) => r matches Ok(Expression::String(s)) && s@ == v,
        Compiled::UnknownReference(v) => r matches Err(Error::UnknownReference { value }) && value@ == v,
        Compiled::Unexpected => r matches Err(Error::Eval { node: n, message }) && n == node
            && message@ == "unexpected node"@,
        Compiled::Tree(_) => true,
    }
}

/// Whether an expression is the one that `c` describes: what a node compiles to in a scope,
/// where no command set decides.
pub open spec fn expresses<C>(e: Expression<C>, c: Compiled) -> bool {
    match c {
        Compiled::Ast(v) => e matches Expression::AST(n) && n@ == v,
        Compiled::Boolean(b) => e == Expression::<C>::Boolean(b),
        Compiled::Reference(i) => e == Expression::<C>::Reference(i as usize),
        Compiled::Number(v) => e matches Expression::Number(s) && s@ == v,
        Compiled::String(v) => e matches Expression::String(s) && s@ == v,
        Compiled::UnknownReference(_) => false,
        Compiled::Unexpected => false,
        Compiled::Tree(_) => true,
    }
}

/// Whether none of the first `i` nodes goes to the command set in a scope: so far no command
/// could have changed the scope.
pub open spec fn no_command_before(names: Seq<Seq<char>>, nodes: Seq<NodeView>, i: int) -> bool {
    forall|j: int| 0 <= j < i ==> !(#[trigger] compiled(names, nodes[j]) is Tree)
}

/// Whether none of the values of the first `i` bindings goes to the command set in a scope.
pub open spec fn no_command_value_before(names: Seq<Seq<char>>, bindings: Seq<NodeView>, i: int) -> bool {
    forall|j: int| 0 <= j < i ==> !(#[trigger] compiled(names, binding_value(bindings[j])) is Tree)
}

/// Whether an expression is one that a node compiles to in some scope, whatever the command set
/// made of a tree with a head.
pub open spec fn compiles_to<C>(e: Expression<C>, n: NodeView) -> bool {
    if n.quoted {
        e matches Expression::AST(m) && m@ == n
    } else {
        match n.value {
            NodeValueView::Leaf(LeafView::Atom(v)) => if v == true_atom() {
                e == Expression::<C>::Boolean(true)
            } else if v == false_atom() {
                e == Expression::<C>::Boolean(false)
            } else {
                e is Reference
            },
            NodeValueView::Leaf(LeafView::Number(v)) => e matches Expression::Number(s) && s@ == v,
            NodeValueView::Leaf(LeafView::String(v)) => e matches Expression::String(s) && s@ == v,
            NodeValueView::Tree(children) => children.len() > 0,
        }
    }
}

/// Whether an error makes a tree a list rather than a command.
pub open spec fn falls_back(e: Error) -> bool {
    e is UnknownReference || e is Eval
}

/// Whether a node is a binding: a tree of a name, an atom, and a value.
pub open spec fn is_binding(n: NodeView) -> bool {
    n.value matches NodeValueView::Tree(vs) && vs.len() == 2 && vs[0].value matches NodeValueView::Leaf(
        LeafView::Atom(_),
    )
}

/// The name that a binding binds.
pub open spec fn binding_name(n: NodeView) -> Seq<char> {
    n.value->Tree_0[0].value->Leaf_0->Atom_0
}

/// The value node of a binding.
pub open spec fn binding_value(n: NodeView) -> NodeView {
    n.value->Tree_0[1]
}

/// Whether a node compiles without error in every scope and whatever the command set: a quoted
/// node, a number, a string or a boolean.
pub open spec fn always_compiles(n: NodeView) -> bool {
    n.quoted || match n.value {
        NodeValueView::Leaf(LeafView::Atom(v)) => v == true_atom() || v == false_atom(),
        NodeValueView::Leaf(_) => true,
        NodeValueView::Tree(_) => false,
    }
}

/// An expression and all its sub-expressions, each before its own: the items of a list, the
/// values of a map and the arguments of a command are visited, in order.
pub open spec fn preorder<C>(e: Expression<C>) -> Seq<Expression<C>>
    decreases e,
{
    match e {
        Expression::List(v) => seq![e] + preorder_all(v@),
        Expression::Mapping(_, v) => seq![e] + preorder_all(v@),
        Expression::Command(_, v) => seq![e] + preorder_all(v@),
        _ => seq![e],
    }
}

/// The traversals of a sequence of expressions, one after the other.
pub open spec fn preorder_all<C>(es: Seq<Expression<C>>) -> Seq<Expression<C>>
    decreases es,
{
    if es.len() == 0 {
        Seq::empty()
    } else {
        preorder(es[0]) + preorder_all(es.subrange(1, es.len() as int))
    }
}

/// The expressions that references point to.
pub open spec fn targets<'e, C>(r: Seq<&'e Expression<C>>) -> Seq<Expression<C>> {
    r.map_values(|e: &Expression<C>| *e)
}

/// The lambdas that linking takes out of an expression, in traversal order: the one lambda of
/// each definition of a single lambda. The bodies of lambdas are not visited.
pub open spec fn defined_lambdas<C>(e: Expression<C>) -> Seq<Lambda<Expression<C>>>
    decreases e,
{
    match e {
        Expression::LambdaDef(vs) => if vs@.len() == 1 {
            seq![vs@[0]]
        } else {
            Seq::empty()
        },
        Expression::List(v) => defined_all(v@),
        Expression::Mapping(_, v) => defined_all(v@),
        Expression::Command(_, v) => defined_all(v@),
        _ => Seq::empty(),
    }
}

/// The lambdas that linking takes out of a sequence of expressions, one after the other.
pub open spec fn defined_all<C>(es: Seq<Expression<C>>) -> Seq<Lambda<Expression<C>>>
    decreases es,
{
    if es.len() == 0 {
        Seq::empty()
    } else {
        defined_lambdas(es[0]) + defined_all(es.subrange(1, es.len() as int))
    }
}

/// Whether `after` is `before` linked: each definition of a single lambda replaced by a reference
/// to it, the references numbered from `base` in traversal order, and nothing else changed.
pub open spec fn links<C>(before: Expression<C>, after: Expression<C>, base: nat) -> bool
    decreases before,
{
    match before {
        Expression::LambdaDef(vs) => if vs@.len() == 1 {
            after matches Expression::LambdaRef(r) && r@ == base
        } else {
            after == before
        },
        Expression::List(v) => after matches Expression::List(w) && links_all(v@, w@, base),
        Expression::Mapping(k, v) => after matches Expression::Mapping(k2, w) && k2 == k && links_all(
            v@,
            w@,
            base,
        ),
        Expression::Command(c, v) => after matches Expression::Command(c2, w) && c2 == c && links_all(
            v@,
            w@,
            base,
        ),
        _ => after == before,
    }
}

/// Whether `after` is `before` linked item by item, the numbering going on from item to item.
pub open spec fn links_all<C>(before: Seq<Expression<C>>, after: Seq<Expression<C>>, base: nat) -> bool
    decreases before,
{
    &&& before.len() == after.len()
    &&& before.len() > 0 ==> {
        &&& links(before[0], after[0], base)
        &&& links_all(
            before.subrange(1, before.len() as int),
            after.subrange(1, after.len() as int),
            base + defined_lambdas(before[0]).len(),
        )
    }
}

/// Linking a sequence item by item, one more item at its end.
proof fn lemma_links_push<C>(
    before: Seq<Expression<C>>,
    after: Seq<Expression<C>>,
    x: Expression<C>,
    y: Expression<C>,
    base: nat,
)
    requires
        links_all(before, after, base),
        links(x, y, base + defined_all(before).len()),
    ensures
        links_all(before.push(x), after.push(y), base),
        defined_all(before.push(x)) == defined_all(before) + defined_lambdas(x),
    decreases before.len(),
{
    if before.len() == 0 {
        assert(before =~= Seq::<Expression<C>>::empty());
        assert(before.push(x)[0] == x);
        assert(after.push(y)[0] == y);
        assert(before.push(x).subrange(1, 1) =~= Seq::<Expression<C>>::empty());
        assert(after.push(y).subrange(1, 1) =~= Seq::<Expression<C>>::empty());
        assert(links_all(
            Seq::<Expression<C>>::empty(),
            Seq::<Expression<C>>::empty(),
            base + defined_lambdas(x).len(),
        ));
        assert(defined_all(Seq::<Expression<C>>::empty()) == Seq::<Lambda<Expression<C>>>::empty());
        assert(defined_lambdas(x) + Seq::empty() =~= defined_lambdas(x));
    } else {
        let b1 = before.subrange(1, before.len() as int);
        let a1 = after.subrange(1, after.len() as int);
        let next = base + defined_lambdas(before[0]).len();
        assert(defined_all(before) == defined_lambdas(before[0]) + defined_all(b1));
        lemma_links_push(b1, a1, x, y, next);
        assert(before.push(x)[0] == before[0]);
        assert(after.push(y)[0] == after[0]);
        assert(links(before[0], after[0], base));
        assert(links_all(b1.push(x), a1.push(y), next));
        assert(before.push(x).subrange(1, before.len() + 1int) =~= b1.push(x));
        assert(after.push(y).subrange(1, after.len() + 1int) =~= a1.push(y));
        assert(defined_all(before.push(x)) == defined_lambdas(before[0]) + defined_all(b1.push(x)));
        assert(defined_all(before.push(x)) =~= defined_all(before) + defined_lambdas(x));
    }
}

/// Whether an expression defines exactly one lambda, which linking replaces.
pub open spec fn is_single_definition<C>(e: Expression<C>) -> bool {
    e matches Expression::LambdaDef(vs) && vs@.len() == 1
}

/// Linking leaves no definition of a single lambda where a traversal reaches: each became a
/// reference.
pub proof fn law_linked_has_no_single_definition<C>(before: Expression<C>, after: Expression<C>, base: nat)
    requires
        links(before, after, base),
    ensures
        forall|i: int|
            0 <= i < preorder(after).len() ==> !is_single_definition(#[trigger] preorder(after)[i]),
    decreases before,
{
    match before {
        Expression::List(v) => {
            let w = after->List_0;
            law_linked_items_have_no_single_definition(v@, w@, base);
            lemma_prepend_clean(after, preorder_all(w@));
        },
        Expression::Mapping(_, v) => {
            let w = after->Mapping_1;
            law_linked_items_have_no_single_definition(v@, w@, base);
            lemma_prepend_clean(after, preorder_all(w@));
        },
        Expression::Command(_, v) => {
            let w = after->Command_1;
            law_linked_items_have_no_single_definition(v@, w@, base);
            lemma_prepend_clean(after, preorder_all(w@));
        },
        _ => {},
    }
}

/// Linking item by item leaves no definition of a single lambda where a traversal reaches.
pub proof fn law_linked_items_have_no_single_definition<C>(
    before: Seq<Expression<C>>,
    after: Seq<Expression<C>>,
    base: nat,
)
    requires
        links_all(before, after, base),
    ensures
        forall|i: int|
            0 <= i < preorder_all(after).len() ==> !is_single_definition(
                #[trigger] preorder_all(after)[i],
            ),
    decreases before,
{
    if before.len() > 0 {
        let rest = before.subrange(1, before.len() as int);
        let after_rest = after.subrange(1, after.len() as int);
        law_linked_has_no_single_definition(before[0], after[0], base);
        law_linked_items_have_no_single_definition(
            rest,
            after_rest,
            base + defined_lambdas(before[0]).len(),
        );
        let first = preorder(after[0]);
        let others = preorder_all(after_rest);
        assert(preorder_all(after) == first + others);
        assert forall|i: int| 0 <= i < (first + others).len() implies !is_single_definition(
            #[trigger] (first + others)[i],
        ) by {
            if i < first.len() {
                assert((first + others)[i] == first[i]);
            } else {
                assert((first + others)[i] == others[i - first.len()]);
            }
        }
    }
}

/// An expression that is no definition, followed by expressions that are none, holds none.
proof fn lemma_prepend_clean<C>(e: Expression<C>, rest: Seq<Expression<C>>)
    requires
        !is_single_definition(e),
        forall|i: int| 0 <= i < rest.len() ==> !is_single_definition(#[trigger] rest[i]),
    ensures
        forall|i: int|
            0 <= i < (seq![e] + rest).len() ==> !is_single_definition(#[trigger] (seq![e] + rest)[i]),
{
    assert forall|i: int| 0 <= i < (seq![e] + rest).len() implies !is_single_definition(
        #[trigger] (seq![e] + rest)[i],
    ) by {
        if i > 0 {
            assert((seq![e] + rest)[i] == rest[i - 1]);
        }
    }
}

impl<C: Command> Expression<C> {
    /// Parses an AST node into an expression.
    ///
    /// A quoted node is kept as it is; `true` and `false` are booleans; another atom refers to
    /// the innermost variable of that name in scope; numbers and strings are literals. A tree
    /// with a head goes to the command set first, see `from_command`; an empty tree is an error.
    pub fn parse<'a>(context: &mut ParseContext, node: &'a Node) -> (r: Result<Self, Error<'a>>)
        ensures
            gives(r, compiled(old(context).names(), node@), node),
            !(compiled(old(context).names(), node@) is Tree) ==> *final(context) == *old(context),
            r matches Ok(e) ==> compiles_to(e, node@),
            r matches Ok(e) ==> expresses(e, compiled(old(context).names(), node@)),
        decreases node,
    {
        if node.quoted {
            return Ok(Expression::AST(node.copied()));
        }
        match &node.value {
            NodeValue::Leaf(Value::Atom { value }) => {
                proof {
                    reveal_strlit("true");
                    reveal_strlit("false");
                    assert("true"@ =~= true_atom());
                    assert("false"@ =~= false_atom());
                }
                if str_eq(value.as_str(), "true") {
                    Ok(Expression::Boolean(true))
                } else if str_eq(value.as_str(), "false") {
                    Ok(Expression::Boolean(false))
                } else {
                    match context.resolve(value.as_str()) {
                        Some(i) => Ok(Expression::Reference(i)),
                        None => Err(Error::UnknownReference { value: value.clone() }),
                    }
                }
            },
            NodeValue::Leaf(Value::Number { value }) => Ok(Expression::Number(value.clone())),
            NodeValue::Leaf(Value::String { value }) => Ok(Expression::String(value.clone())),
            NodeValue::Tree(nodes) => {
                proof {
                    lemma_tree_view(*nodes);
                }
                if nodes.len() == 0 {
                    Err(Error::Eval { node, message: "unexpected node" })
                } else {
                    let children = nodes.as_slice();
                    let (head, tail) = children.split_at(1);
                    let command = C::parse(context, &head[0], tail);
                    Self::from_command(context, children, command)
                }
            },
        }
    }

    /// Attempts to convert an AST node to a map of names to expressions.
    ///
    /// The node must be a tree of bindings, each a tree of a name and a value; the values are
    /// parsed in turn, and the first one that fails to parse makes the whole conversion fail.
    pub fn as_map(context: &mut ParseContext, node: &Node) -> (r: Option<Self>)
        ensures
            !(node@.value is Tree) ==> r is None,
            r matches Some(e) ==> node@.value matches NodeValueView::Tree(children) && e matches Expression::Mapping(
                keys,
                values,
            ) && keys@.len() == children.len() && values@.len() == children.len() && forall|i: int|
                0 <= i < children.len() ==> is_binding(#[trigger] children[i]) && keys@[i]@ == binding_name(
                    children[i],
                ) && compiles_to(values@[i], binding_value(children[i])),
            node@.value matches NodeValueView::Tree(children) && (forall|i: int|
                0 <= i < children.len() ==> is_binding(#[trigger] children[i]) && always_compiles(
                    binding_value(children[i]),
                )) ==> r is Some,
            node@.value matches NodeValueView::Tree(children) && (exists|i: int|
                0 <= i < children.len() && !is_binding(#[trigger] children[i])) ==> r is None,
            r matches Some(e) ==> node@.value matches NodeValueView::Tree(children) && e matches Expression::Mapping(
                _,
                values,
            ) && forall|i: int|
                0 <= i < children.len() && no_command_value_before(old(context).names(), children, i)
                    ==> expresses(
                    #[trigger] values@[i],
                    compiled(old(context).names(), binding_value(children[i])),
                ),
            !(node@.value is Tree) ==> *final(context) == *old(context),
            node@.value matches NodeValueView::Tree(children) && no_command_value_before(
                old(context).names(),
                children,
                children.len() as int,
            ) ==> *final(context) == *old(context),
    {
        match &node.value {
            NodeValue::Tree(nodes) => {
                proof {
                    lemma_tree_view(*nodes);
                }
                let ghost children = nodes@.map_values(|n: Node| n@);
                let ghost start = *context;
                let ghost names = start.names();
                let mut keys: Vec<String> = Vec::new();
                let mut values: Vec<Self> = Vec::new();
                let mut i: usize = 0;
                while i < nodes.len()
                    invariant
                        i <= nodes@.len(),
                        children == nodes@.map_values(|n: Node| n@),
                        node@.value == NodeValueView::Tree(children),
                        keys@.len() == i,
                        values@.len() == i,
                        start == *old(context),
                        names == start.names(),
                        no_command_value_before(names, children, i as int) ==> *context == start,
                        forall|j: int|
                            0 <= j < i && no_command_value_before(names, children, j) ==> expresses(
                                #[trigger] values@[j],
                                compiled(names, binding_value(children[j])),
                            ),
                        forall|j: int|
                            0 <= j < i ==> is_binding(#[trigger] children[j]) && keys@[j]@
                                == binding_name(children[j]) && compiles_to(
                                values@[j],
                                binding_value(children[j]),
                            ),
                    decreases nodes@.len() - i,
                {
                    let binding = &nodes[i];
                    assert(children[i as int] == binding@);
                    match &binding.value {
                        NodeValue::Tree(vs) => {
                            proof {
                                lemma_tree_view(*vs);
                            }
                            assert(binding@.value == NodeValueView::Tree(vs@.map_values(|n: Node| n@)));
                            if vs.len() != 2 {
                                assert(!is_binding(children[i as int]));
                                proof {
                                if no_command_value_before(names, children, children.len() as int) {
                                    assert(no_command_value_before(names, children, i as int));
                                }
                            }
                            return None;
                            }
                            assert(binding_value(children[i as int]) == vs@[1]@);
                            match &vs[0].value {
                                NodeValue::Leaf(Value::Atom { value }) => {
                                    let key = value.clone();
                                    let ghost values_before = values@;
                                    match Self::parse(context, &vs[1]) {
                                        Ok(v) => {
                                            keys.push(key);
                                            values.push(v);
                                        },
                                        Err(_) => {
                                            assert(!always_compiles(binding_value(children[i as int])));
                                            proof {
                                                if no_command_value_before(names, children, children.len() as int) {
                                                    assert(!(compiled(names, binding_value(children[i as int])) is Tree));
                                                    assert(no_command_value_before(names, children, i as int));
                                                }
                                            }
                                            return None;
                                        },
                                    }
                                    proof {
                                        assert forall|j: int|
                                            0 <= j < i + 1 && no_command_value_before(names, children, j)
                                                implies expresses(
                                            #[trigger] values@[j],
                                            compiled(names, binding_value(children[j])),
                                        ) by {
                                            if j < i {
                                                assert(values@[j] == values_before[j]);
                                            }
                                        }
                                        if no_command_value_before(names, children, i + 1) {
                                            assert(!(compiled(names, binding_value(children[i as int])) is Tree));
                                            assert(no_command_value_before(names, children, i as int));
                                        }
                                    }
                                },
                                _ => {
                                    assert(!is_binding(children[i as int]));
                                    proof {
                                if no_command_value_before(names, children, children.len() as int) {
                                    assert(no_command_value_before(names, children, i as int));
                                }
                            }
                            return None;
                                },
                            }
                        },
                        NodeValue::Leaf(_) => {
                            assert(!is_binding(children[i as int]));
                            proof {
                                if no_command_value_before(names, children, children.len() as int) {
                                    assert(no_command_value_before(names, children, i as int));
                                }
                            }
                            return None;
                        },
                    }
                    i += 1;
                }
                Some(Expression::Mapping(keys, values))
            },
            NodeValue::Leaf(_) => None,
        }
    }

    /// Completes the compilation of a tree with a head from what the command set made of it.
    ///
    /// A command, or an error other than an unknown reference or an evaluation error, is the
    /// result. Otherwise the tree becomes the list of its children, each parsed in turn; the
    /// first error among them is the result.
    pub fn from_command<'a>(
        context: &mut ParseContext,
        children: &'a [Node],
        command: Result<Self, Error<'a>>,
    ) -> (r: Result<Self, Error<'a>>)
        ensures
            !(command matches Err(e) && falls_back(e)) ==> r == command,
            command matches Err(e) && falls_back(e) ==> (r matches Ok(l) ==> l matches Expression::List(
                es,
            ) && es@.len() == children@.len() && forall|i: int|
                0 <= i < es@.len() ==> compiles_to(#[trigger] es@[i], children@[i]@)),
            command matches Err(e) && falls_back(e) && (forall|i: int|
                0 <= i < children@.len() ==> always_compiles(#[trigger] children@[i]@)) ==> r is Ok,
            command matches Err(e) && falls_back(e) ==> (r matches Ok(l) ==> l matches Expression::List(
                es,
            ) && forall|i: int|
                0 <= i < es@.len() && no_command_before(
                    old(context).names(),
                    children@.map_values(|n: Node| n@),
                    i,
                ) ==> expresses(
                    #[trigger] es@[i],
                    compiled(old(context).names(), children@[i]@),
                )),
            command matches Err(e) && falls_back(e) && no_command_before(
                old(context).names(),
                children@.map_values(|n: Node| n@),
                children@.len() as int,
            ) ==> *final(context) == *old(context),
        decreases children@,
    {
        match command {
            Err(e) => {
                let list = match &e {
                    Error::UnknownReference { .. } | Error::Eval { .. } => true,
                    _ => false,
                };
                if !list {
                    return Err(e);
                }
                let mut items: Vec<Self> = Vec::new();
                let ghost start = *context;
                let ghost names = start.names();
                let ghost views = children@.map_values(|n: Node| n@);
                let mut i: usize = 0;
                while i < children.len()
                    invariant
                        i <= children@.len(),
                        items@.len() == i,
                        command matches Err(e) && falls_back(e),
                        start == *old(context),
                        names == start.names(),
                        views == children@.map_values(|n: Node| n@),
                        forall|j: int| 0 <= j < i ==> compiles_to(#[trigger] items@[j], children@[j]@),
                        no_command_before(names, views, i as int) ==> *context == start,
                        forall|j: int|
                            0 <= j < i && no_command_before(names, views, j) ==> expresses(
                                #[trigger] items@[j],
                                compiled(names, children@[j]@),
                            ),
                    decreases children@.len() - i,
                {
                    proof {
                        assert(decreases_to!(children@ => children@[i as int]));
                    }
                    let ghost before = *context;
                    let ghost items_before = items@;
                    assert(views[i as int] == children@[i as int]@);
                    match Self::parse(context, &children[i]) {
                        Ok(item) => items.push(item),
                        Err(e) => {
                            assert(!always_compiles(children@[i as int]@));
                            proof {
                                if no_command_before(names, views, children@.len() as int) {
                                    assert(!(compiled(names, views[i as int]) is Tree));
                                    assert(no_command_before(names, views, i as int));
                                }
                            }
                            return Err(e);
                        },
                    }
                    proof {
                        assert forall|j: int|
                            0 <= j < i + 1 && no_command_before(names, views, j) implies expresses(
                            #[trigger] items@[j],
                            compiled(names, children@[j]@),
                        ) by {
                            if j < i {
                                assert(items@[j] == items_before[j]);
                            }
                        }
                        if no_command_before(names, views, i + 1) {
                            assert(!(compiled(names, views[i as int]) is Tree));
                            assert(no_command_before(names, views, i as int));
                        }
                    }
                    i += 1;
                }
                Ok(Expression::List(items))
            },
            Ok(e) => Ok(e),
        }
    }
}

impl<C> Expression<C> {
    /// Links this expression: each definition of a single lambda is registered in `store` and
    /// replaced by a reference to it, in traversal order.
    pub fn link_lambdas(&mut self, store: &mut Store<Lambda<Self>>)
        ensures
            links(*old(self), *final(self), old(store)@.len()),
            final(store)@ == old(store)@ + defined_lambdas(*old(self)),
        decreases *old(self),
    {
        let ghost before = *self;
        let ghost start = store@;
        match self {
            Expression::LambdaDef(vs) => {
                if vs.len() == 1 {
                    let lambda = vs.pop().unwrap();
                    let r = store.register(lambda);
                    *self = Expression::LambdaRef(r);
                }
                return;
            },
            Expression::List(v) => Self::link_all(v, store),
            Expression::Mapping(_, v) => Self::link_all(v, store),
            Expression::Command(_, v) => Self::link_all(v, store),
            _ => {
                return;
            },
        }
    }

    /// Links each expression of a list in turn.
    fn link_all(items: &mut Vec<Self>, store: &mut Store<Lambda<Self>>)
        ensures
            links_all(old(items)@, final(items)@, old(store)@.len()),
            final(store)@ == old(store)@ + defined_all(old(items)@),
        decreases old(items)@,
    {
        let ghost original = items@;
        let ghost start = store@;
        let mut i: usize = 0;
        assert(original.subrange(0, 0) =~= Seq::<Self>::empty());
        assert(items@.subrange(0, 0) =~= Seq::<Self>::empty());
        assert(start + defined_all(Seq::<Self>::empty()) =~= start);
        while i < items.len()
            invariant
                i <= items@.len() == original.len(),
                original == old(items)@,
                forall|j: int| i <= j < original.len() ==> items@[j] == original[j],
                links_all(original.subrange(0, i as int), items@.subrange(0, i as int), start.len()),
                store@ == start + defined_all(original.subrange(0, i as int)),
            decreases original.len() - i,
        {
            let ghost done = original.subrange(0, i as int);
            let ghost linked = items@.subrange(0, i as int);
            proof {
                assert(items@[i as int] == original[i as int]);
                assert(decreases_to!(original => original[i as int]));
            }
            Self::link_lambdas(&mut items[i], store);
            proof {
                lemma_links_push(done, linked, original[i as int], items@[i as int], start.len());
                assert(done.push(original[i as int]) =~= original.subrange(0, i + 1));
                assert(linked.push(items@[i as int]) =~= items@.subrange(0, i + 1));
            }
            i += 1;
        }
        assert(original.subrange(0, i as int) =~= original);
        assert(items@.subrange(0, i as int) =~= items@);
    }

    /// This expression and each of its sub-expressions, in the order of a traversal that visits
    /// an expression before its sub-expressions.
    pub fn sub_expressions(&self) -> (r: Vec<&Self>)
        ensures
            targets(r@) == preorder(*self),
    {
        let mut r: Vec<&Self> = Vec::new();
        Self::collect(self, &mut r);
        assert(targets(r@) =~= preorder(*self));
        r
    }

    /// Appends an expression and its sub-expressions to `out`, in traversal order.
    fn collect<'e>(e: &'e Self, out: &mut Vec<&'e Self>)
        ensures
            targets(final(out)@) == targets(old(out)@) + preorder(*e),
        decreases e,
    {
        out.push(e);
        assert(targets(out@) =~= targets(old(out)@) + seq![*e]);
        let items: &'e Vec<Self> = match e {
            Expression::List(v) => v,
            Expression::Mapping(_, v) => v,
            Expression::Command(_, v) => v,
            _ => {
                assert(preorder(*e) == seq![*e]);
                return;
            },
        };
        assert(preorder(*e) == seq![*e] + preorder_all(items@));
        let ghost start = targets(old(out)@) + seq![*e];
        assert(preorder_all(items@.subrange(0, items@.len() as int)) == preorder_all(items@)) by {
            assert(items@.subrange(0, items@.len() as int) =~= items@);
        }
        let mut i: usize = 0;
        while i < items.len()
            invariant
                i <= items@.len(),
                start == targets(old(out)@) + seq![*e],
                match *e {
                    Expression::List(v) => v@ == items@,
                    Expression::Mapping(_, v) => v@ == items@,
                    Expression::Command(_, v) => v@ == items@,
                    _ => false,
                },
                preorder(*e) == seq![*e] + preorder_all(items@),
                targets(out@) + preorder_all(items@.subrange(i as int, items@.len() as int))
                    == start + preorder_all(items@),
            decreases items@.len() - i,
        {
            let ghost rest = items@.subrange(i as int, items@.len() as int);
            let ghost before = targets(out@);
            assert(rest.subrange(1, rest.len() as int) =~= items@.subrange(i + 1, items@.len() as int));
            assert(rest[0] == items@[i as int]);
            proof {
                let item = items@[i as int];
                let whole = *e;
                match whole {
                    Expression::List(v) => {
                        assert(decreases_to!(v@ => item));
                        assert(decreases_to!(whole => item));
                    },
                    Expression::Mapping(_, v) => {
                        assert(decreases_to!(v@ => item));
                        assert(decreases_to!(whole => item));
                    },
                    Expression::Command(_, v) => {
                        assert(decreases_to!(v@ => item));
                        assert(decreases_to!(whole => item));
                    },
                    _ => {},
                }
            }
            Self::collect(&items[i], out);
            assert(targets(out@) + preorder_all(items@.subrange(i + 1, items@.len() as int)) =~= before
                + preorder_all(rest));
            i += 1;
        }
        assert(items@.subrange(i as int, items@.len() as int) =~= Seq::<Self>::empty());
        assert(targets(out@) =~= start + preorder_all(items@));
    }
}

impl<C> Default for Expression<C> {
    /// An empty list.
    fn default() -> (r: Self)
        ensures
            r matches Expression::List(v) && v@.len() == 0,
    {
        Expression::List(Vec::new())
    }
}

} // verus!
