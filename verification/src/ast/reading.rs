//! Reading back the textual form of a tree.
//!
//! The textual form of a tree, tokenised and parsed, gives back the tree, up to the positions of
//! its nodes, for every tree whose leaves are written as they are read: atoms made of atom
//! characters, number literals, and any unquoted string.
use vstd::prelude::*;

use super::display::{children_texts, escaped, leaf_text, node_text, value_text};
use super::parser::{
    closes_tree, lemma_parse_consumes, spec_parse, spec_parse_first, spec_parse_items,
    spec_parse_tree, string_contents, unescape,
};
use super::token::{Failure, Lexeme, Outcome, TokenView};
use super::tokenizer::{
    atom_run, has_digit, is_alphabetic, is_number_start, is_whitespace, is_atom_char, is_atom_start, is_digit, is_escapable, is_number_text, is_skippable,
    is_token_end, lemma_token_at, number_rank, number_run, occurs_at, pos_at, skip_from,
    spec_tokenize, string_run, token_at, tokens_from, AtomTokenizer, NumberTokenizer,
    StringTokenizer,
};
use super::{LeafView, NodeValueView, NodeView};
use crate::common::joined;

verus! {

// ----------------------------------------------------------------------------------------------
// Texts
// ----------------------------------------------------------------------------------------------

/// The index after a token that ends before `e`: `e` itself, or none at the end of the input.
pub open spec fn next_after(s: Seq<char>, e: int) -> Option<int> {
    if e < s.len() {
        Some(e)
    } else {
        None
    }
}

/// Whether a token ending before `e` is followed by the end of the input or a token end.
pub open spec fn bounded_at(s: Seq<char>, e: int) -> bool {
    e == s.len() || (0 <= e < s.len() && is_token_end(s[e]))
}

/// Whether an atom is written so that it reads back as the same atom: atom characters only, and
/// no digit right after a leading sign.
pub open spec fn is_atom_text(v: Seq<char>) -> bool {
    &&& v.len() >= 1
    &&& is_atom_start(v[0])
    &&& forall|i: int| 1 <= i < v.len() ==> is_atom_char(#[trigger] v[i])
    &&& v[0] == '-' && v.len() >= 2 ==> is_atom_start(v[1])
}

/// Whether a leaf, quoted or not, reads back from its textual form.
pub open spec fn is_readable_leaf(l: LeafView, quoted: bool) -> bool {
    match l {
        LeafView::Atom(v) => is_atom_text(v),
        LeafView::Number(v) => !quoted && is_number_text(v) && has_digit(v),
        LeafView::String(_) => !quoted,
    }
}

/// Whether a node reads back from its textual form: each of its leaves does.
pub open spec fn readable(n: NodeView) -> bool
    decreases n,
{
    match n.value {
        NodeValueView::Leaf(l) => is_readable_leaf(l, n.quoted),
        NodeValueView::Tree(children) => all_readable(children),
    }
}

/// Whether each of the nodes reads back from its textual form.
pub open spec fn all_readable(nodes: Seq<NodeView>) -> bool
    decreases nodes,
{
    if nodes.len() == 0 {
        true
    } else {
        readable(nodes[0]) && all_readable(nodes.subrange(1, nodes.len() as int))
    }
}

/// A node without positions: every position is set to `(0, 0)`.
pub open spec fn unpositioned(n: NodeView) -> NodeView
    decreases n,
{
    NodeView {
        position: (0, 0),
        quoted: n.quoted,
        value: match n.value {
            NodeValueView::Leaf(l) => NodeValueView::Leaf(l),
            NodeValueView::Tree(children) => NodeValueView::Tree(all_unpositioned(children)),
        },
    }
}

/// Nodes without positions.
pub open spec fn all_unpositioned(nodes: Seq<NodeView>) -> Seq<NodeView>
    decreases nodes,
{
    if nodes.len() == 0 {
        Seq::empty()
    } else {
        seq![unpositioned(nodes[0])] + all_unpositioned(nodes.subrange(1, nodes.len() as int))
    }
}

/// The lexeme of a leaf's textual form.
pub open spec fn leaf_lexeme(l: LeafView) -> Lexeme {
    match l {
        LeafView::Atom(v) => Lexeme::Atom(v),
        LeafView::Number(v) => Lexeme::Number(v),
        LeafView::String(_) => Lexeme::String(leaf_text(l)),
    }
}

/// A text occurring in a sequence is made of the texts of its parts.
proof fn lemma_occurs_split(s: Seq<char>, k: int, a: Seq<char>, b: Seq<char>)
    requires
        occurs_at(s, k, a + b),
    ensures
        occurs_at(s, k, a),
        occurs_at(s, k + a.len(), b),
        forall|i: int| 0 <= i < a.len() ==> s[k + i] == #[trigger] a[i],
        forall|i: int| 0 <= i < b.len() ==> s[k + a.len() + i] == #[trigger] b[i],
{
    let t = a + b;
    assert forall|i: int| 0 <= i < a.len() implies s[k + i] == #[trigger] a[i] by {
        assert(s.subrange(k, k + t.len())[i] == t[i]);
    }
    assert forall|i: int| 0 <= i < b.len() implies s[k + a.len() + i] == #[trigger] b[i] by {
        assert(s.subrange(k, k + t.len())[a.len() + i] == t[a.len() + i]);
    }
    assert(s.subrange(k, k + a.len()) =~= a);
    assert(s.subrange(k + a.len(), k + a.len() + b.len()) =~= b);
}

/// Joining items front first: the first item, then the others after a space.
proof fn lemma_joined_front(items: Seq<Seq<char>>)
    requires
        items.len() >= 1,
    ensures
        items.len() == 1 ==> joined(items) == items[0],
        items.len() >= 2 ==> joined(items) == items[0] + seq![' '] + joined(
            items.subrange(1, items.len() as int),
        ),
    decreases items.len(),
{
    if items.len() >= 3 {
        let rest = items.subrange(1, items.len() as int);
        let init = items.drop_last();
        lemma_joined_front(init);
        assert(init.subrange(1, init.len() as int) =~= rest.drop_last());
        assert(rest.last() == items.last());
        assert(joined(items) == joined(init) + seq![' '] + items.last());
        assert(joined(rest) == joined(rest.drop_last()) + seq![' '] + rest.last());
        assert(joined(items) =~= items[0] + seq![' '] + joined(rest));
    } else if items.len() == 2 {
        let rest = items.subrange(1, items.len() as int);
        assert(items.drop_last() =~= seq![items[0]]);
        assert(joined(items.drop_last()) == items[0]);
        assert(rest =~= seq![items[1]]);
        assert(joined(rest) == items[1]);
    }
}

/// The escaped form of one character: a backslash before it if it is escapable.
pub open spec fn escaped_char(c: char) -> Seq<char> {
    if is_escapable(c) {
        seq!['\\', c]
    } else {
        seq![c]
    }
}

/// Escaping a concatenation escapes each part.
proof fn lemma_escaped_concat(a: Seq<char>, b: Seq<char>)
    ensures
        escaped(a + b) == escaped(a) + escaped(b),
    decreases b.len(),
{
    if b.len() == 0 {
        assert(a + b =~= a);
        assert(escaped(a) + escaped(b) =~= escaped(a));
    } else {
        lemma_escaped_concat(a, b.drop_last());
        assert((a + b).drop_last() =~= a + b.drop_last());
        assert((a + b).last() == b.last());
        let tail = if is_escapable(b.last()) {
            seq!['\\', b.last()]
        } else {
            seq![b.last()]
        };
        assert(escaped(a + b) == escaped(a + b.drop_last()) + tail);
        assert(escaped(b) == escaped(b.drop_last()) + tail);
        assert(escaped(a + b) =~= escaped(a) + escaped(b));
    }
}

/// Escaping a text front first: its first character, then the rest.
proof fn lemma_escaped_front(v: Seq<char>)
    requires
        v.len() >= 1,
    ensures
        escaped(v) == escaped_char(v[0]) + escaped(v.drop_first()),
{
    lemma_escaped_concat(seq![v[0]], v.drop_first());
    assert(seq![v[0]] + v.drop_first() =~= v);
    let one = seq![v[0]];
    assert(one.drop_last() =~= Seq::<char>::empty());
    assert(escaped(one.drop_last()) == Seq::<char>::empty());
    assert(one.last() == v[0]);
    assert(escaped(one) =~= escaped_char(v[0]));
}

/// Removing the escapes of an escaped text gives back the text.
proof fn lemma_unescape_escaped(v: Seq<char>)
    ensures
        unescape(escaped(v), false) == v,
    decreases v.len(),
{
    if v.len() > 0 {
        lemma_escaped_front(v);
        lemma_unescape_escaped(v.drop_first());
        let c = v[0];
        let rest = escaped(v.drop_first());
        let e = escaped(v);
        if is_escapable(c) {
            assert(e.drop_first() =~= seq![c] + rest);
            assert((seq![c] + rest).drop_first() =~= rest);
            assert(unescape(e, false) == unescape(seq![c] + rest, true));
            assert(unescape(seq![c] + rest, true) == seq![c] + unescape(rest, false));
        } else {
            assert(e.drop_first() =~= rest);
            assert(c != '\\');
        }
        assert(seq![c] + v.drop_first() =~= v);
    }
}

/// The contents of a string literal are the characters between its quotes.
proof fn lemma_string_contents(e: Seq<char>)
    ensures
        string_contents(seq!['"'] + e + seq!['"']) == e,
{
    let t = seq!['"'] + e + seq!['"'];
    assert(t.subrange(1, t.len() - 1) =~= e);
}

// ----------------------------------------------------------------------------------------------
// Tokens
// ----------------------------------------------------------------------------------------------

/// An atom text followed by a token end is read as that atom, from any of its characters.
proof fn lemma_atom_run_reads(s: Seq<char>, start: int, v: Seq<char>, st: AtomTokenizer, j: int)
    requires
        occurs_at(s, start, v),
        forall|i: int| 1 <= i < v.len() ==> is_atom_char(#[trigger] v[i]),
        bounded_at(s, start + v.len()),
        s.len() <= usize::MAX,
        start <= j < start + v.len(),
        st is Start || st is Consume,
        st is Start ==> is_atom_start(s[j]),
    ensures
        atom_run(s, start, st, j) == (
            Ok::<Lexeme, Failure>(Lexeme::Atom(v)),
            next_after(s, start + v.len()),
        ),
    decreases s.len() - j,
{
    let e = start + v.len();
    lemma_occurs_split(s, start, v, Seq::empty());
    assert(v + Seq::<char>::empty() =~= v);
    if j + 1 < e {
        let c = s[j + 1];
        assert(c == v[j + 1 - start]);
        assert(is_atom_char(c));
        assert(!is_token_end(c));
        lemma_atom_run_reads(s, start, v, AtomTokenizer::Consume, j + 1);
    } else {
        assert(s.subrange(start, j + 1) =~= v);
    }
}

/// The state of the number reader at character `j` of a number text `v` that starts at `start`.
pub open spec fn number_reading(
    s: Seq<char>,
    start: int,
    v: Seq<char>,
    st: NumberTokenizer,
    j: int,
) -> bool {
    match st {
        NumberTokenizer::Start => j == start,
        NumberTokenizer::IntegerPart(negative) => negative <==> v[0] == '-',
        NumberTokenizer::Dot(negative) | NumberTokenizer::FractionalPart(negative) => (negative
            <==> v[0] == '-') && forall|i: int| j - start < i < v.len() ==> #[trigger] v[i] != '.',
        _ => false,
    }
}

/// A number text followed by a token end is read as that number.
proof fn lemma_number_run_reads(s: Seq<char>, start: int, v: Seq<char>, st: NumberTokenizer, j: int)
    requires
        occurs_at(s, start, v),
        is_number_text(v),
        v != seq!['-'],
        bounded_at(s, start + v.len()),
        s.len() <= usize::MAX,
        start <= j < start + v.len(),
        number_reading(s, start, v, st, j),
    ensures
        number_run(s, start, st, j) == (
            Ok::<Lexeme, Failure>(Lexeme::Number(v)),
            next_after(s, start + v.len()),
        ),
    decreases s.len() - j, number_rank(st),
{
    let e = start + v.len();
    lemma_occurs_split(s, start, v, Seq::empty());
    assert(v + Seq::<char>::empty() =~= v);
    match st {
        NumberTokenizer::Start => {
            let c = s[j];
            assert(c == v[0]);
            if c == '.' {
                assert forall|i: int| 0 < i < v.len() implies #[trigger] v[i] != '.' by {
                    assert(v[0] == '.');
                }
                lemma_number_run_reads(s, start, v, NumberTokenizer::Dot(false), j);
            } else if c == '-' {
                lemma_number_run_reads(s, start, v, NumberTokenizer::IntegerPart(true), j);
            } else {
                lemma_number_run_reads(s, start, v, NumberTokenizer::IntegerPart(false), j);
            }
        },
        NumberTokenizer::IntegerPart(negative) => {
            if j + 1 < e {
                let c = s[j + 1];
                assert(c == v[j + 1 - start]);
                if c == '.' {
                    assert forall|i: int| j + 1 - start < i < v.len() implies #[trigger] v[i] != '.' by {
                        assert(v[j + 1 - start] == '.');
                    }
                    lemma_number_run_reads(s, start, v, NumberTokenizer::Dot(negative), j + 1);
                } else {
                    assert(is_digit(c));
                    lemma_number_run_reads(s, start, v, NumberTokenizer::IntegerPart(negative), j + 1);
                }
            } else {
                assert(s.subrange(start, j + 1) =~= v);
                if negative && start == j {
                    assert(v =~= seq!['-']);
                }
            }
        },
        NumberTokenizer::Dot(negative) | NumberTokenizer::FractionalPart(negative) => {
            if j + 1 < e {
                let c = s[j + 1];
                assert(c == v[j + 1 - start]);
                assert(c != '.');
                assert(is_digit(c));
                lemma_number_run_reads(s, start, v, NumberTokenizer::FractionalPart(negative), j + 1);
            } else {
                assert(s.subrange(start, j + 1) =~= v);
                if negative && start == j {
                    assert(v =~= seq!['-']);
                }
            }
        },
        _ => {},
    }
}

/// An escaped text followed by a double quote is read as the rest of a string literal, from
/// the character before it: the opening quote or the last character read.
proof fn lemma_string_run_reads(s: Seq<char>, j: int, w: Seq<char>, st: StringTokenizer)
    requires
        0 <= j,
        occurs_at(s, j + 1, escaped(w) + seq!['"']),
        st is Normal || (st is Start && s[j] == '"'),
        s.len() <= usize::MAX,
    ensures
        string_run(s, st, j) == (
            Ok::<int, Failure>(j + escaped(w).len() + 1),
            next_after(s, j + escaped(w).len() + 2),
        ),
    decreases w.len(),
{
    let e = escaped(w);
    lemma_occurs_split(s, j + 1, e, seq!['"']);
    if w.len() == 0 {
        assert(e.len() == 0);
        assert(s[j + 1 + 0] == seq!['"'][0]);
    } else {
        lemma_escaped_front(w);
        let c = w[0];
        let rest = escaped(w.drop_first());
        assert(e == escaped_char(c) + rest);
        if is_escapable(c) {
            assert(e[0] == '\\');
            assert(e[1] == c);
            assert(s[j + 1] == e[0]);
            assert(s[j + 2] == e[1]);
            assert(e + seq!['"'] =~= seq!['\\', c] + (rest + seq!['"']));
            lemma_occurs_split(s, j + 1, seq!['\\', c], rest + seq!['"']);
            lemma_string_run_reads(s, j + 2, w.drop_first(), StringTokenizer::Normal);
            assert(string_run(s, StringTokenizer::Escaped, j + 1) == string_run(
                s,
                StringTokenizer::Normal,
                j + 2,
            ));
        } else {
            assert(e[0] == c);
            assert(s[j + 1] == e[0]);
            assert(e + seq!['"'] =~= seq![c] + (rest + seq!['"']));
            lemma_occurs_split(s, j + 1, seq![c], rest + seq!['"']);
            lemma_string_run_reads(s, j + 1, w.drop_first(), StringTokenizer::Normal);
        }
    }
}

/// The textual form of a leaf is read as its lexeme.
proof fn lemma_leaf_token(s: Seq<char>, k: int, l: LeafView, quoted: bool)
    requires
        is_readable_leaf(l, quoted),
        occurs_at(s, k, leaf_text(l)),
        bounded_at(s, k + leaf_text(l).len()),
        s.len() <= usize::MAX,
    ensures
        token_at(s, k) == (
            Ok::<TokenView, Failure>((leaf_lexeme(l), pos_at(s, k))),
            next_after(s, k + leaf_text(l).len()),
        ),
{
    let t = leaf_text(l);
    lemma_occurs_split(s, k, t, Seq::empty());
    assert(t + Seq::<char>::empty() =~= t);
    match l {
        LeafView::Atom(v) => {
            let c = s[k];
            assert(c == v[0]);
            if c == '-' {
                let e = k + v.len();
                assert(number_run(s, k, NumberTokenizer::Start, k) == number_run(
                    s,
                    k,
                    NumberTokenizer::IntegerPart(true),
                    k,
                ));
                if v.len() == 1 {
                    assert(s.subrange(k, k + 1) =~= v);
                } else {
                    assert(s[k + 1] == v[1]);
                    lemma_atom_run_reads(s, k, v, AtomTokenizer::Start, k + 1);
                }
            } else {
                lemma_atom_run_reads(s, k, v, AtomTokenizer::Start, k);
            }
        },
        LeafView::Number(v) => {
            assert(s[k] == v[0]);
            lemma_number_run_reads(s, k, v, NumberTokenizer::Start, k);
        },
        LeafView::String(v) => {
            let e = escaped(v);
            assert(t == seq!['"'] + e + seq!['"']);
            assert(t =~= seq!['"'] + (e + seq!['"']));
            lemma_occurs_split(s, k, seq!['"'], e + seq!['"']);
            assert(s[k] == t[0]);
            lemma_string_run_reads(s, k, v, StringTokenizer::Start);
            assert(s.subrange(k, k + e.len() + 2) =~= t);
        },
    }
}

/// Tokenising from a character that starts a token reads that token, then goes on after it.
proof fn lemma_tokens_step(s: Seq<char>, k: int, o: Outcome, e: int)
    requires
        0 <= k < s.len(),
        !is_skippable(s[k]),
        o is Ok,
        token_at(s, k) == (o, next_after(s, e)),
        k < e <= s.len(),
    ensures
        tokens_from(s, Some(k)) == seq![o] + tokens_from(s, Some(e)),
{
    assert(skip_from(s, k) == Some(k));
    if e == s.len() {
        assert(tokens_from(s, Some(e)) =~= Seq::<Outcome>::empty());
        assert(seq![o] + Seq::<Outcome>::empty() =~= seq![o]);
    }
}

/// A space before a token is skipped.
proof fn lemma_tokens_space(s: Seq<char>, e: int)
    requires
        0 <= e,
        e + 1 < s.len(),
        is_whitespace(s[e]),
        !is_skippable(s[e + 1]),
    ensures
        tokens_from(s, Some(e)) == tokens_from(s, Some(e + 1)),
{
    assert(skip_from(s, e + 1) == Some(e + 1));
    assert(skip_from(s, e) == skip_from(s, e + 1));
    lemma_token_at(s, e + 1);
}

// ----------------------------------------------------------------------------------------------
// Trees
// ----------------------------------------------------------------------------------------------

/// The textual form of a readable value starts with a character that starts a token.
proof fn lemma_value_text_start(v: NodeValueView, quoted: bool)
    requires
        match v {
            NodeValueView::Leaf(l) => is_readable_leaf(l, quoted),
            NodeValueView::Tree(_) => true,
        },
    ensures
        value_text(v).len() >= 1,
        !is_skippable(value_text(v)[0]),
{
    match v {
        NodeValueView::Leaf(l) => {
            match l {
                LeafView::String(w) => {
                    assert(value_text(v)[0] == '"');
                },
                _ => {},
            }
        },
        NodeValueView::Tree(children) => {
            assert(value_text(v)[0] == '(');
        },
    }
}

/// The textual form of a readable node starts with a character that starts a token.
proof fn lemma_node_text_start(n: NodeView)
    requires
        readable(n),
    ensures
        node_text(n).len() >= 1,
        !is_skippable(node_text(n)[0]),
{
    lemma_value_text_start(n.value, n.quoted);
}

/// The textual form of a readable node is parsed back into the node, up to positions.
proof fn lemma_node_reads(s: Seq<char>, k: int, n: NodeView)
    requires
        readable(n),
        occurs_at(s, k, node_text(n)),
        bounded_at(s, k + node_text(n).len()),
        s.len() <= usize::MAX,
    ensures
        spec_parse_first(tokens_from(s, Some(k)), false).0 matches Ok(m) && unpositioned(m)
            == unpositioned(n),
        spec_parse_first(tokens_from(s, Some(k)), false).1 == tokens_from(
            s,
            Some(k + node_text(n).len()),
        ),
        !closes_tree(tokens_from(s, Some(k))),
    decreases n,
{
    let vt = value_text(n.value);
    lemma_value_text_start(n.value, n.quoted);
    if n.quoted {
        lemma_occurs_split(s, k, seq!['\''], vt);
        assert(s[k] == seq!['\''][0]);
        let o = Ok::<TokenView, Failure>((Lexeme::Quote, pos_at(s, k)));
        assert(token_at(s, k) == (o, next_after(s, k + 1)));
        lemma_tokens_step(s, k, o, k + 1);
        let t = tokens_from(s, Some(k));
        assert(t.drop_first() =~= tokens_from(s, Some(k + 1)));
        lemma_value_reads(s, k + 1, n.value, true);
    } else {
        lemma_value_reads(s, k, n.value, false);
    }
}

/// The textual form of a readable node value is parsed back into the value, up to positions.
proof fn lemma_value_reads(s: Seq<char>, k: int, v: NodeValueView, quoted: bool)
    requires
        match v {
            NodeValueView::Leaf(l) => is_readable_leaf(l, quoted),
            NodeValueView::Tree(children) => all_readable(children),
        },
        occurs_at(s, k, value_text(v)),
        bounded_at(s, k + value_text(v).len()),
        s.len() <= usize::MAX,
    ensures
        spec_parse_first(tokens_from(s, Some(k)), quoted).0 matches Ok(m) && unpositioned(m)
            == unpositioned(NodeView { position: (0, 0), quoted, value: v }),
        spec_parse_first(tokens_from(s, Some(k)), quoted).1 == tokens_from(
            s,
            Some(k + value_text(v).len()),
        ),
        !closes_tree(tokens_from(s, Some(k))),
    decreases v,
{
    let vt = value_text(v);
    lemma_value_text_start(v, quoted);
    lemma_occurs_split(s, k, vt, Seq::empty());
    assert(vt + Seq::<char>::empty() =~= vt);
    match v {
        NodeValueView::Leaf(l) => {
            lemma_leaf_token(s, k, l, quoted);
            let o = Ok::<TokenView, Failure>((leaf_lexeme(l), pos_at(s, k)));
            lemma_tokens_step(s, k, o, k + vt.len());
            let t = tokens_from(s, Some(k));
            assert(t.drop_first() =~= tokens_from(s, Some(k + vt.len())));
            if let LeafView::String(w) = l {
                lemma_string_contents(escaped(w));
                lemma_unescape_escaped(w);
            }
        },
        NodeValueView::Tree(children) => {
            let texts = children_texts(children);
            let j = joined(texts);
            assert(vt == seq!['('] + j + seq![')']);
            assert(seq!['('] + j + seq![')'] =~= seq!['('] + (j + seq![')']));
            lemma_occurs_split(s, k, seq!['('], j + seq![')']);
            let o = Ok::<TokenView, Failure>((Lexeme::LeftParenthesis, pos_at(s, k)));
            assert(token_at(s, k) == (o, next_after(s, k + 1)));
            lemma_tokens_step(s, k, o, k + 1);
            let t = tokens_from(s, Some(k));
            assert(t.drop_first() =~= tokens_from(s, Some(k + 1)));
            lemma_items_reads(s, k + 1, children);
            assert(spec_parse_first(t, quoted) == spec_parse_tree(t.drop_first(), pos_at(s, k), quoted));
        },
    }
}

/// The textual forms of readable children, then a closing parenthesis, are parsed back into the
/// children, up to positions.
proof fn lemma_items_reads(s: Seq<char>, k: int, children: Seq<NodeView>)
    requires
        all_readable(children),
        occurs_at(s, k, joined(children_texts(children)) + seq![')']),
        s.len() <= usize::MAX,
    ensures
        spec_parse_items(tokens_from(s, Some(k))).0 matches Ok(ms) && all_unpositioned(ms)
            == all_unpositioned(children),
        spec_parse_items(tokens_from(s, Some(k))).1 == tokens_from(
            s,
            Some(k + joined(children_texts(children)).len() + 1),
        ),
    decreases children,
{
    let texts = children_texts(children);
    let j = joined(texts);
    let t = tokens_from(s, Some(k));
    if children.len() == 0 {
        assert(j == Seq::<char>::empty());
        lemma_occurs_split(s, k, j, seq![')']);
        assert(s[k + j.len() + 0] == seq![')'][0]);
        let o = Ok::<TokenView, Failure>((Lexeme::RightParenthesis, pos_at(s, k)));
        assert(token_at(s, k) == (o, next_after(s, k + 1)));
        lemma_tokens_step(s, k, o, k + 1);
        assert(t.drop_first() =~= tokens_from(s, Some(k + 1)));
        assert(closes_tree(t));
        assert(all_unpositioned(Seq::<NodeView>::empty()) == Seq::<NodeView>::empty());
    } else {
        let first = children[0];
        let others = children.subrange(1, children.len() as int);
        let t0 = node_text(first);
        assert(texts[0] == t0);
        lemma_joined_front(texts);
        assert(texts.subrange(1, texts.len() as int) =~= children_texts(others));
        let rest_text = joined(children_texts(others)) + seq![')'];
        if children.len() == 1 {
            assert(others =~= Seq::<NodeView>::empty());
            assert(j == t0);
            lemma_occurs_split(s, k, t0, seq![')']);
            assert(s[k + t0.len() + 0] == seq![')'][0]);
        } else {
            assert(j == t0 + seq![' '] + joined(children_texts(others)));
            assert(j + seq![')'] =~= t0 + (seq![' '] + rest_text));
            lemma_occurs_split(s, k, t0, seq![' '] + rest_text);
            lemma_occurs_split(s, k + t0.len(), seq![' '], rest_text);
            assert(s[k + t0.len() + 0] == seq![' '][0]);
            assert(all_readable(others));
            assert(readable(others[0]));
            lemma_node_text_start(others[0]);
            lemma_joined_front(children_texts(others));
            assert(children_texts(others)[0] == node_text(others[0]));
            assert(rest_text[0] == node_text(others[0])[0]);
            lemma_tokens_space(s, k + t0.len());
        }
        lemma_node_reads(s, k, first);
        lemma_items_reads(s, k + t0.len() + if children.len() == 1 { 0int } else { 1int }, others);
        lemma_parse_consumes(t, false);
        let (r, rest1) = spec_parse_first(t, false);
        let m0 = r->Ok_0;
        let (rr, rest2) = spec_parse_items(rest1);
        let ms = rr->Ok_0;
        let all = seq![m0] + ms;
        assert(all.subrange(1, all.len() as int) =~= ms);
        assert(all_unpositioned(all) == seq![unpositioned(m0)] + all_unpositioned(ms));
        assert(all_unpositioned(children) == seq![unpositioned(first)] + all_unpositioned(others));
    }
}

/// The textual form of a readable tree, tokenised and parsed, gives back the tree, up to the
/// positions of its nodes.
pub proof fn law_text_reads_back(n: NodeView)
    requires
        readable(n),
        node_text(n).len() <= usize::MAX,
    ensures
        spec_parse(spec_tokenize(node_text(n))).0 matches Ok(m) && unpositioned(m) == unpositioned(
            n,
        ),
{
    let s = node_text(n);
    assert(s.subrange(0, s.len() as int) =~= s);
    lemma_node_text_start(n);
    lemma_node_reads(s, 0, n);
    assert(tokens_from(s, Some(s.len() as int)) =~= Seq::<Outcome>::empty());
}

// ----------------------------------------------------------------------------------------------
// Character classes and what they make of a text
// ----------------------------------------------------------------------------------------------

/// A character that may start a word: an ASCII letter, or one of `+ - * / _ ! ? = < >`.
pub open spec fn is_word_start(c: char) -> bool {
    ('a' <= c <= 'z') || ('A' <= c <= 'Z') || c == '+' || c == '-' || c == '*' || c == '/' || c
        == '_' || c == '!' || c == '?' || c == '=' || c == '<' || c == '>'
}

/// A word: a character that may start one, then such characters or ASCII digits, and no digit
/// right after a leading `-`.
pub open spec fn is_word(v: Seq<char>) -> bool {
    &&& v.len() >= 1
    &&& is_word_start(v[0])
    &&& forall|i: int| 1 <= i < v.len() ==> is_word_start(#[trigger] v[i]) || ('0' <= v[i] <= '9')
    &&& v[0] == '-' && v.len() >= 2 ==> !('0' <= v[1] <= '9')
}

/// The character classes of the tokeniser: whitespace is exactly ASCII whitespace (space, tab,
/// line feed, form feed, carriage return); an atom starts with an ASCII letter or one of
/// `+ - * / _ ! ? = < >` and goes on with those or ASCII digits; numbers and atoms end at
/// whitespace or a parenthesis; whitespace and `;` are skipped between tokens.
pub proof fn law_character_classes(c: char)
    ensures
        is_whitespace(c) <==> (c == ' ' || c == '\t' || c == '\n' || c == '\u{c}' || c == '\r'),
        is_alphabetic(c) <==> (('a' <= c <= 'z') || ('A' <= c <= 'Z')),
        is_atom_start(c) <==> is_word_start(c),
        is_atom_char(c) <==> (is_word_start(c) || ('0' <= c <= '9')),
        is_number_start(c) <==> (('0' <= c <= '9') || c == '-' || c == '.'),
        is_token_end(c) <==> (c == ' ' || c == '\t' || c == '\n' || c == '\u{c}' || c == '\r'
            || c == '(' || c == ')'),
        is_skippable(c) <==> (c == ' ' || c == '\t' || c == '\n' || c == '\u{c}' || c == '\r'
            || c == ';'),
{
}

/// A word written as it is read is an atom text.
proof fn lemma_word_is_atom_text(v: Seq<char>)
    requires
        is_word(v),
    ensures
        is_atom_text(v),
        !is_skippable(v[0]),
{
    law_character_classes(v[0]);
    assert forall|i: int| 1 <= i < v.len() implies is_atom_char(#[trigger] v[i]) by {
        law_character_classes(v[i]);
    }
    if v.len() >= 2 {
        law_character_classes(v[1]);
    }
}

/// A word is tokenised as a single atom at the first row and column: every letter and every one
/// of `+ - * / _ ! ? = < >` may make up an atom.
pub proof fn law_word_is_one_atom(v: Seq<char>)
    requires
        is_word(v),
        v.len() <= usize::MAX,
    ensures
        spec_tokenize(v) == seq![Ok::<TokenView, Failure>((Lexeme::Atom(v), (1int, 1int)))],
{
    lemma_word_is_atom_text(v);
    assert(v.subrange(0, v.len() as int) =~= v);
    lemma_leaf_token(v, 0, LeafView::Atom(v), false);
    let o = Ok::<TokenView, Failure>((Lexeme::Atom(v), (1int, 1int)));
    lemma_tokens_step(v, 0, o, v.len() as int);
    assert(tokens_from(v, Some(v.len() as int)) =~= Seq::<Outcome>::empty());
    assert(seq![o] + Seq::<Outcome>::empty() =~= seq![o]);
}

/// Any ASCII whitespace character separates two words into two atoms, a tab as well as a space
/// or a line break.
pub proof fn law_whitespace_separates_atoms(a: Seq<char>, w: char, b: Seq<char>)
    requires
        is_word(a),
        is_word(b),
        w == ' ' || w == '\t' || w == '\n' || w == '\u{c}' || w == '\r',
        a.len() + b.len() + 1 <= usize::MAX,
    ensures
        spec_tokenize(a + seq![w] + b).len() == 2,
        spec_tokenize(a + seq![w] + b)[0] matches Ok((Lexeme::Atom(x), _)) && x == a,
        spec_tokenize(a + seq![w] + b)[1] matches Ok((Lexeme::Atom(y), _)) && y == b,
{
    let s = a + seq![w] + b;
    let e = a.len() as int;
    law_character_classes(w);
    lemma_word_is_atom_text(a);
    lemma_word_is_atom_text(b);
    assert(s.subrange(0, e) =~= a);
    assert(s[e] == w);
    assert(s.subrange(e + 1, s.len() as int) =~= b);
    assert(s[0] == a[0]);
    assert(s[e + 1] == b[0]);
    lemma_leaf_token(s, 0, LeafView::Atom(a), false);
    let oa = Ok::<TokenView, Failure>((Lexeme::Atom(a), pos_at(s, 0)));
    lemma_tokens_step(s, 0, oa, e);
    lemma_tokens_space(s, e);
    lemma_leaf_token(s, e + 1, LeafView::Atom(b), false);
    let ob = Ok::<TokenView, Failure>((Lexeme::Atom(b), pos_at(s, e + 1)));
    lemma_tokens_step(s, e + 1, ob, s.len() as int);
    assert(tokens_from(s, Some(s.len() as int)) =~= Seq::<Outcome>::empty());
    assert(spec_tokenize(s) =~= seq![oa, ob]);
}

} // verus!
