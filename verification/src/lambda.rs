//! Lambdas and the store they are registered in.
use vstd::prelude::*;

use crate::exp::env::Environment;
use crate::exp::Error;

verus! {

/// A callable expression: the number of its arguments and its body.
#[derive(Clone, Debug, PartialEq)]
pub struct Lambda<E> {
    /// The number of arguments.
    argument_count: usize,
    /// The lambda expression.
    expression: E,
}

impl<E> Lambda<E> {
    /// The number of arguments.
    pub closed spec fn spec_argument_count(&self) -> nat {
        self.argument_count as nat
    }

    /// The lambda body.
    pub closed spec fn spec_expression(&self) -> E {
        self.expression
    }

    /// Creates a new lambda instance.
    pub fn new(argument_count: usize, expression: E) -> (r: Self)
        ensures
            r.spec_argument_count() == argument_count,
            r.spec_expression() == expression,
    {
        Self { argument_count, expression }
    }

    /// The number of arguments.
    pub fn argument_count(&self) -> (r: usize)
        ensures
            r == self.spec_argument_count(),
    {
        self.argument_count
    }

    /// The lambda body.
    pub fn expression(&self) -> (r: &E)
        ensures
            *r == self.spec_expression(),
    {
        &self.expression
    }

    /// Evaluates the lambda body with `evaluate`, in an environment made of the arguments.
    ///
    /// The number of arguments must be the declared one.
    pub fn invoke<'a, V: Copy, R, F>(&'a self, arguments: &[V], evaluate: F) -> (r: Result<
        R,
        Error<'a>,
    >) where F: for <'b>FnOnce(&'a E, &Environment<'b, V>) -> Result<R, Error<'a>>
        requires
            arguments@.len() == self.spec_argument_count() ==> forall|env: &Environment<V>|
                #![trigger env@]
                env@ == arguments@ ==> call_requires(evaluate, (&self.spec_expression(), env)),
        ensures
            arguments@.len() != self.spec_argument_count() ==> r == Err::<R, Error<'a>>(
                Error::InvalidInvocation {
                    expected: self.spec_argument_count() as usize,
                    actual: arguments@.len() as usize,
                },
            ),
            arguments@.len() == self.spec_argument_count() ==> exists|env: &Environment<V>|
                #![trigger env@]
                env@ == arguments@ && call_ensures(evaluate, (&self.spec_expression(), env), r),
    {
        if self.argument_count != arguments.len() {
            Err(Error::InvalidInvocation { expected: self.argument_count, actual: arguments.len() })
        } else {
            let empty = Environment::empty();
            let env = empty.with_scope(arguments);
            evaluate(&self.expression, &env)
        }
    }
}

/// A type-erased reference to a registered lambda.
#[derive(Clone, Copy, Debug, PartialEq, Eq)]
pub struct Ref {
    /// The index of this reference in this generation.
    index: usize,
}

impl View for Ref {
    type V = nat;

    closed spec fn view(&self) -> nat {
        self.index as nat
    }
}

impl Ref {
    /// A reference to the lambda registered at the given index.
    pub fn from_index(index: usize) -> (r: Self)
        ensures
            r@ == index,
    {
        Ref { index }
    }

    /// The index of the referenced lambda.
    pub fn index(&self) -> (r: usize)
        ensures
            r == self@,
    {
        self.index
    }
}

/// A collection of lambdas.
#[derive(Clone, Debug)]
pub struct Store<L> {
    /// The backing list.
    data: Vec<L>,
}

impl<L> View for Store<L> {
    type V = Seq<L>;

    closed spec fn view(&self) -> Seq<L> {
        self.data@
    }
}

impl<L> Default for Store<L> {
    fn default() -> (r: Self)
        ensures
            r@ == Seq::<L>::empty(),
    {
        Self { data: Vec::new() }
    }
}

impl<L> Store<L> {
    /// Registers a new lambda.
    ///
    /// The return value can be used to reference the lambda in a type-erased manner.
    pub fn register(&mut self, lambda: L) -> (r: Ref)
        ensures
            final(self)@ == registered(old(self)@, lambda),
            r@ == old(self)@.len(),
    {
        self.data.push(lambda);
        Ref { index: self.data.len() - 1 }
    }

    /// Attempts to resolve a lambda reference.
    pub fn resolve(&self, lambda_ref: Ref) -> (r: Option<&L>)
        ensures
            match r {
                Some(l) => resolved_lambda(self@, lambda_ref@) == Some(*l),
                None => resolved_lambda(self@, lambda_ref@) is None,
            },
    {
        if lambda_ref.index < self.data.len() {
            Some(&self.data[lambda_ref.index])
        } else {
            None
        }
    }
}

/// The lambdas of a store after registering a lambda: it is appended.
pub open spec fn registered<L>(store: Seq<L>, lambda: L) -> Seq<L> {
    store.push(lambda)
}

/// The lambda that a reference designates in a store, if any.
pub open spec fn resolved_lambda<L>(store: Seq<L>, index: nat) -> Option<L> {
    if index < store.len() {
        Some(store[index as int])
    } else {
        None
    }
}

/// Resolving the reference that `register` returns gives back the registered lambda, and every
/// reference obtained earlier resolves as before.
pub proof fn law_register_resolve<L>(store: Seq<L>, lambda: L)
    ensures
        resolved_lambda(registered(store, lambda), store.len()) == Some(lambda),
        forall|index: nat|
            index < store.len() ==> #[trigger] resolved_lambda(registered(store, lambda), index)
                == resolved_lambda(store, index),
        resolved_lambda(store, store.len()) is None,
{
}

} // verus!
