//! Linked lists whose cells are borrowed.
use vstd::prelude::*;

use crate::common::{list_text, write_list};

verus! {

/// The tail of a [`Cons`].
#[derive(Clone, Copy, Debug, Default, PartialEq)]
pub enum Cdr<'a, T> {
    /// An empty list.
    #[default]
    Empty,
    /// The tail is a cons.
    Cons(&'a Cons<'a, T>),
}

/// A linked list.
#[derive(Clone, Copy, Debug, PartialEq)]
pub struct Cons<'a, T> {
    /// The head of the list.
    car: T,
    /// The tail of the list.
    cdr: Cdr<'a, T>,
}

impl<'a, T> Cdr<'a, T> {
    /// The values of this list, in order.
    pub closed spec fn values(self) -> Seq<T>
        decreases self,
    {
        match self {
            Cdr::Empty => Seq::empty(),
            Cdr::Cons(c) => seq![c.car] + c.cdr.values(),
        }
    }
}

impl<'a, T> Cons<'a, T> {
    /// The head of this list.
    pub closed spec fn spec_car(self) -> T {
        self.car
    }

    /// The tail of this list.
    pub closed spec fn spec_cdr(self) -> Cdr<'a, T> {
        self.cdr
    }

    /// The values of this list, in order.
    pub closed spec fn values(self) -> Seq<T> {
        seq![self.car] + self.cdr.values()
    }
}

impl<'a, T> View for Cdr<'a, T> {
    type V = Seq<T>;

    open spec fn view(&self) -> Seq<T> {
        self.values()
    }
}

impl<'a, T> View for Cons<'a, T> {
    type V = Seq<T>;

    open spec fn view(&self) -> Seq<T> {
        self.values()
    }
}

/// A cons always holds at least its head.
pub proof fn lemma_cons_not_empty<'a, T>(c: Cons<'a, T>)
    ensures
        c@.len() >= 1,
{
}

impl<'a, T: Copy> Cdr<'a, T> {
    /// The next cons, if any.
    pub fn next(&self) -> (r: Option<&'a Cons<'a, T>>)
        ensures
            match r {
                None => self@.len() == 0,
                Some(c) => c@ == self@,
            },
    {
        match self {
            Cdr::Empty => None,
            Cdr::Cons(cons) => Some(*cons),
        }
    }

    /// The textual form of this list: the text that `text` writes of each value, separated by
    /// spaces, between parentheses.
    pub fn to_string_with<F: Fn(&T) -> String>(&self, text: F) -> (r: String)
        requires
            forall|v: &T| call_requires(text, (v,)),
        ensures
            written_with(self@, text, r@),
    {
        write_values(&self.iter(), text)
    }

    /// The values of this list, in order.
    pub fn iter(&self) -> (r: Vec<T>)
        ensures
            r@ == self@,
    {
        match self {
            Cdr::Empty => Vec::new(),
            Cdr::Cons(cons) => cons.iter(),
        }
    }
}

impl<'a, T: Copy> Cons<'a, T> {
    /// Constructs a cons with a single value.
    pub fn single(car: T) -> (r: Self)
        ensures
            r@ == seq![car],
    {
        assert(Cdr::<'a, T>::Empty.values() =~= Seq::<T>::empty());
        Self { car, cdr: Cdr::Empty }
    }

    /// Prepends a value to this cons and returns the new head.
    pub fn prepend(&'a self, car: T) -> (r: Self)
        ensures
            r@ == prepended(self@, car),
    {
        Self { car, cdr: Cdr::Cons(self) }
    }

    /// The last cell of this list; this may be `self` if `self` is the last cell.
    pub fn tail(&self) -> (r: &Self)
        ensures
            r@ == seq![self@.last()],
    {
        let mut tail = self;
        loop
            invariant
                tail@.len() >= 1,
                tail@.last() == self@.last(),
            ensures
                tail@ == seq![self@.last()],
            decreases tail@.len(),
        {
            match &tail.cdr {
                Cdr::Cons(next) => {
                    proof { lemma_cons_not_empty(**next); }
                    tail = next;
                },
                Cdr::Empty => {
                    assert(tail@ =~= seq![tail.car]);
                    break ;
                },
            }
        }
        tail
    }

    /// The head of the list.
    pub fn car(&self) -> (r: &T)
        ensures
            *r == self@[0],
    {
        &self.car
    }

    /// The tail of the list.
    pub fn cdr(&self) -> (r: &Cdr<'a, T>)
        ensures
            r@ == self@.drop_first(),
    {
        assert(self@.drop_first() =~= self.cdr.values());
        &self.cdr
    }

    /// The textual form of this list: the text that `text` writes of each value, separated by
    /// spaces, between parentheses.
    pub fn to_string_with<F: Fn(&T) -> String>(&self, text: F) -> (r: String)
        requires
            forall|v: &T| call_requires(text, (v,)),
        ensures
            written_with(self@, text, r@),
    {
        write_values(&self.iter(), text)
    }

    /// The values of this list, in order.
    pub fn iter(&self) -> (r: Vec<T>)
        ensures
            r@ == self@,
    {
        let mut r: Vec<T> = Vec::new();
        let mut cell = self;
        loop
            invariant_except_break
                r@ + cell@ == self@,
            ensures
                r@ == self@,
            decreases cell@.len(),
        {
            r.push(cell.car);
            match &cell.cdr {
                Cdr::Cons(next) => {
                    proof { lemma_cons_not_empty(**next); }
                    assert(r@ + next@ =~= self@);
                    cell = next;
                },
                Cdr::Empty => {
                    assert(r@ =~= self@);
                    break ;
                },
            }
        }
        r
    }
}

/// Whether `r` is the textual form of a list of values whose texts `text` writes: each value's
/// text, separated by spaces, between parentheses.
pub open spec fn written_with<T, F: Fn(&T) -> String>(values: Seq<T>, text: F, r: Seq<char>) -> bool {
    exists|items: Seq<String>|
        #![trigger texts(items)]
        items.len() == values.len() && (forall|i: int|
            0 <= i < values.len() ==> call_ensures(text, (&values[i],), #[trigger] items[i]))
            && r == list_text(texts(items))
}

/// The characters of each string.
pub open spec fn texts(items: Seq<String>) -> Seq<Seq<char>> {
    items.map_values(|s: String| s@)
}

/// Writes a list of values, each by `text`.
fn write_values<T, F: Fn(&T) -> String>(values: &Vec<T>, text: F) -> (r: String)
    requires
        forall|v: &T| call_requires(text, (v,)),
    ensures
        written_with(values@, text, r@),
{
    let mut items: Vec<String> = Vec::new();
    let mut i: usize = 0;
    while i < values.len()
        invariant
            i <= values@.len(),
            items@.len() == i,
            forall|v: &T| call_requires(text, (v,)),
            forall|j: int| 0 <= j < i ==> call_ensures(text, (&values@[j],), #[trigger] items@[j]),
        decreases values@.len() - i,
    {
        let item = text(&values[i]);
        items.push(item);
        i += 1;
    }
    let r = write_list(&items);
    assert(r@ == list_text(texts(items@)));
    r
}

/// The values of a list after prepending a value: the value, then the list.
pub open spec fn prepended<T>(list: Seq<T>, value: T) -> Seq<T> {
    seq![value] + list
}

/// After `prepend`, `car` gives the prepended value and `cdr` the list prepended to, and the list
/// is one value longer.
pub proof fn law_prepend_car_cdr<T>(list: Seq<T>, value: T)
    ensures
        prepended(list, value)[0] == value,
        prepended(list, value).drop_first() == list,
        prepended(list, value).len() == list.len() + 1,
{
    assert(prepended(list, value).drop_first() =~= list);
}

/// Prepending to a list does not change what `tail` gives.
pub proof fn law_prepend_keeps_tail<T>(list: Seq<T>, value: T)
    requires
        list.len() >= 1,
    ensures
        seq![prepended(list, value).last()] == seq![list.last()],
{
}

/// The values of an empty tail: none.
pub proof fn lemma_cdr_empty_values<'a, T>()
    ensures
        Cdr::<'a, T>::Empty@ == Seq::<T>::empty(),
{
}

/// The values of a tail that is a cons: the values of that cons.
pub proof fn lemma_cdr_cons_values<'a, T>(c: &'a Cons<'a, T>)
    ensures
        Cdr::Cons(c)@ == c@,
{
}

/// The values of a cons: its head, then the values of its tail.
pub proof fn lemma_cons_values<'a, T>(c: Cons<'a, T>)
    ensures
        c@ == seq![c.spec_car()] + c.spec_cdr()@,
{
}

} // verus!
