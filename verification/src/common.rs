//! Helpers shared by the value and expression modules.
use vstd::prelude::*;

use crate::text::{chars_of, push_char};

verus! {

/// A marker trait for types that can be stored and restored.
///
/// Types that carry serialisation support implement it; the library demands nothing of them.
pub trait Serializable {
}

/// The items joined by single spaces.
pub open spec fn joined(items: Seq<Seq<char>>) -> Seq<char>
    decreases items.len(),
{
    if items.len() == 0 {
        Seq::empty()
    } else if items.len() == 1 {
        items[0]
    } else {
        joined(items.drop_last()) + seq![' '] + items.last()
    }
}

/// The textual form of a list: its items separated by spaces, between parentheses.
pub open spec fn list_text(items: Seq<Seq<char>>) -> Seq<char> {
    seq!['('] + joined(items) + seq![')']
}

/// Appends a string slice to a string.
pub(crate) fn append(s: &mut String, other: &str)
    ensures
        final(s)@ == old(s)@ + other@,
{
    let chars = chars_of(other);
    let mut i: usize = 0;
    while i < chars.len()
        invariant
            i <= chars@.len(),
            chars@ == other@,
            s@ == old(s)@ + chars@.take(i as int),
        decreases chars@.len() - i,
    {
        push_char(s, chars[i]);
        assert(chars@.take(i + 1) =~= chars@.take(i as int).push(chars@[i as int]));
        i += 1;
    }
    assert(chars@.take(chars@.len() as int) =~= chars@);
}

/// Writes a list of already written items.
pub fn write_list(items: &Vec<String>) -> (r: String)
    ensures
        r@ == list_text(items@.map_values(|s: String| s@)),
{
    let ghost texts = items@.map_values(|s: String| s@);
    let mut r = String::new();
    push_char(&mut r, '(');
    let mut i: usize = 0;
    while i < items.len()
        invariant
            i <= items@.len(),
            texts == items@.map_values(|s: String| s@),
            r@ == seq!['('] + joined(texts.take(i as int)),
        decreases items@.len() - i,
    {
        let ghost before = r@;
        if i > 0 {
            push_char(&mut r, ' ');
        }
        append(&mut r, items[i].as_str());
        proof {
            let prefix = texts.take(i + 1);
            assert(prefix.drop_last() =~= texts.take(i as int));
            assert(prefix.last() == items@[i as int]@);
            if i == 0 {
                assert(joined(prefix) == prefix[0]);
                assert(r@ =~= seq!['('] + joined(prefix));
            } else {
                assert(r@ =~= seq!['('] + joined(prefix));
            }
        }
        i += 1;
    }
    push_char(&mut r, ')');
    assert(texts.take(items@.len() as int) =~= texts);
    r
}

} // verus!
