//! Character-level helpers shared by the tokeniser and the parser.
use vstd::prelude::*;

use crate::ast::tokenizer::newline_from;

verus! {

/// Appends a character to a string.
///
/// Calls `String::push`, which std documents as appending the given `char` to the end of the
/// string; the contract states exactly that.
#[verifier::external_body]
pub(crate) fn push_char(s: &mut String, c: char)
    ensures
        final(s)@ == old(s)@.push(c),
{
    s.push(c);
}

/// Collects the characters of a string slice.
pub fn chars_of(s: &str) -> (r: Vec<char>)
    ensures
        r@ == s@,
{
    let mut r: Vec<char> = Vec::new();
    for c in it: s.chars()
        invariant
            r@ == it.seq().take(it.index() as int),
            it.seq() == s@,
    {
        r.push(c);
    }
    r
}

/// Compares two string slices for equality: the same characters in the same order.
pub fn str_eq(a: &str, b: &str) -> (r: bool)
    ensures
        r == (a@ == b@),
{
    let x = chars_of(a);
    let y = chars_of(b);
    if x.len() != y.len() {
        return false;
    }
    let mut i: usize = 0;
    while i < x.len()
        invariant
            x@ == a@,
            y@ == b@,
            x@.len() == y@.len(),
            i <= x@.len(),
            forall|j: int| 0 <= j < i ==> x@[j] == y@[j],
        decreases x@.len() - i,
    {
        if x[i] != y[i] {
            return false;
        }
        i += 1;
    }
    assert(x@ =~= y@);
    true
}

/// A script's text without a leading `#!` line: from its first newline on, if it starts with
/// `#!` and holds a newline; otherwise the whole text.
pub open spec fn without_shebang(s: Seq<char>) -> Seq<char> {
    if s.len() >= 2 && s[0] == '#' && s[1] == '!' && newline_from(s, 0) < s.len() {
        s.subrange(newline_from(s, 0), s.len() as int)
    } else {
        s
    }
}

/// Removes a leading `#!` line from a script, keeping the newline that ends it.
pub fn strip_shebang(data: &str) -> (r: String)
    ensures
        r@ == without_shebang(data@),
{
    let chars = chars_of(data);
    let n = chars.len();
    if n >= 2 && chars[0] == '#' && chars[1] == '!' {
        let mut i: usize = 0;
        while i < n && chars[i] != '\n'
            invariant
                chars@ == data@,
                n == chars@.len(),
                i <= n,
                newline_from(data@, 0) == newline_from(data@, i as int),
            decreases n - i,
        {
            i += 1;
        }
        if i < n {
            return string_of(&chars, i, n);
        }
    }
    string_of(&chars, 0, n)
}

/// Builds a string from the characters `chars[from..to]`.
pub fn string_of(chars: &Vec<char>, from: usize, to: usize) -> (r: String)
    requires
        from <= to <= chars@.len(),
    ensures
        r@ == chars@.subrange(from as int, to as int),
{
    let mut r = String::new();
    let mut i = from;
    while i < to
        invariant
            from <= i <= to <= chars@.len(),
            r@ == chars@.subrange(from as int, i as int),
        decreases to - i,
    {
        push_char(&mut r, chars[i]);
        assert(chars@.subrange(from as int, i + 1) == chars@.subrange(from as int, i as int).push(chars@[i as int]));
        i += 1;
    }
    r
}

} // verus!
