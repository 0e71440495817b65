//! The environment in which a script runs.
use vstd::prelude::*;

verus! {

/// An environment in which a script runs: the values of the variables in scope.
#[derive(Debug)]
pub enum Environment<'b, V> {
    /// An empty environment.
    Empty,
    /// A borrowed environment.
    Borrowed {
        /// The values.
        values: &'b [V],
    },
    /// A scoped environment inheriting from another one.
    Scoped {
        /// The parent scope.
        parent: &'b Environment<'b, V>,
        /// The values.
        values: &'b [V],
    },
}

impl<'b, V> Environment<'b, V> {
    /// All values in scope, outermost first.
    pub open spec fn values(self) -> Seq<V>
        decreases self,
    {
        match self {
            Environment::Empty => Seq::empty(),
            Environment::Borrowed { values } => values@,
            Environment::Scoped { parent, values } => parent.values() + values@,
        }
    }
}

impl<'b, V> View for Environment<'b, V> {
    type V = Seq<V>;

    open spec fn view(&self) -> Seq<V> {
        self.values()
    }
}

/// The values of an environment with an inner scope: the parent's, then the scope's.
pub open spec fn scoped<V>(parent: Seq<V>, values: Seq<V>) -> Seq<V> {
    parent + values
}

/// The value that `key` names in a scope: 0 names the innermost, latest value.
pub open spec fn resolved<V>(values: Seq<V>, key: int) -> Option<V> {
    if 0 <= key < values.len() {
        Some(values[values.len() - 1 - key])
    } else {
        None
    }
}

impl<'b, V: Copy> Environment<'b, V> {
    /// An empty environment.
    pub fn empty() -> (r: Self)
        ensures
            r@ == Seq::<V>::empty(),
            r is Empty,
    {
        Environment::Empty
    }

    /// Creates an initial environment with borrowed values.
    pub fn borrowed(values: &'b [V]) -> (r: Self)
        ensures
            r@ == values@,
            r is Borrowed,
    {
        Environment::Borrowed { values }
    }

    /// Creates an environment inheriting from this one.
    pub fn with_scope(&'b self, values: &'b [V]) -> (r: Self)
        ensures
            r@ == scoped(self@, values@),
            r is Scoped,
    {
        Environment::Scoped { parent: self, values }
    }

    /// Attempts to resolve a name.
    ///
    /// The value `0` corresponds to the last item in this environment. If the value is greater
    /// than the length of the current environment, the parent, if any, is queried with `key -
    /// length_of_current_environment`.
    pub fn resolve(&self, key: usize) -> (r: Option<V>)
        ensures
            r == resolved(self@, key as int),
        decreases self,
    {
        match self {
            Environment::Empty => None,
            Environment::Borrowed { values } => {
                if key < values.len() {
                    Some(values[values.len() - key - 1])
                } else {
                    None
                }
            },
            Environment::Scoped { parent, values } => {
                if key < values.len() {
                    Some(values[values.len() - key - 1])
                } else {
                    parent.resolve(key - values.len())
                }
            },
        }
    }
}

/// Resolving in an environment that `with_scope` made finds the inner scope's values first,
/// innermost first, and beyond them resolves in the parent.
pub proof fn law_scope_shadows<V>(parent: Seq<V>, values: Seq<V>, key: int)
    requires
        0 <= key,
    ensures
        key < values.len() ==> resolved(scoped(parent, values), key) == Some(
            values[values.len() - 1 - key],
        ),
        key >= values.len() ==> resolved(scoped(parent, values), key) == resolved(
            parent,
            key - values.len(),
        ),
{
}

} // verus!
