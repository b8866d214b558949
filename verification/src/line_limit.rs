//! How long the lines of the advanced form are.
//!
//! The serializer breaks a line before an element only; the first element of
//! a list always follows its `(`. So a line stays within the limit wherever
//! breaks can keep it there, which `layable` says of an object.
use vstd::prelude::*;
use crate::ser::{
    advanced_chars, advanced_elems_chars, advanced_string_chars, elem_tail, flat_elems_width,
    flat_width, initial_layout, separator, serialized, spaces, PrintMode, SerLayout,
};
use crate::types::SexpModel;

verus! {

/// Whether every line of `t` has at most `max` characters, the first line
/// continuing one that holds `col` characters already.
pub open spec fn lines_within(t: Seq<char>, col: nat, max: nat) -> bool
    decreases t.len(),
{
    if t.len() == 0 {
        col <= max
    } else if t[0] == '\n' {
        col <= max && lines_within(t.drop_first(), 0, max)
    } else {
        lines_within(t.drop_first(), col + 1, max)
    }
}

/// Whether every line that a line break in `t` ends has at most `max`
/// characters.
pub open spec fn ended_lines_within(t: Seq<char>, col: nat, max: nat) -> bool
    decreases t.len(),
{
    if t.len() == 0 {
        true
    } else if t[0] == '\n' {
        col <= max && ended_lines_within(t.drop_first(), 0, max)
    } else {
        ended_lines_within(t.drop_first(), col + 1, max)
    }
}

/// The column after `t`, from column `col`.
pub open spec fn end_column(t: Seq<char>, col: nat) -> nat
    decreases t.len(),
{
    if t.len() == 0 {
        col
    } else if t[0] == '\n' {
        end_column(t.drop_first(), 0)
    } else {
        end_column(t.drop_first(), col + 1)
    }
}

pub open spec fn no_break(t: Seq<char>) -> bool {
    forall|i: int| 0 <= i < t.len() ==> t[i] != '\n'
}

/// Whether the text of every string in `obj` is free of line breaks.
pub open spec fn newline_free(obj: SexpModel) -> bool
    decreases obj, 1nat,
{
    match obj {
        SexpModel::Atom(s) => no_break(advanced_string_chars(s)),
        SexpModel::List(l) => newline_free_elems(l),
    }
}

pub open spec fn newline_free_elems(elems: Seq<SexpModel>) -> bool
    decreases elems, 0nat,
{
    elems.len() == 0 || (newline_free(elems[0]) && newline_free_elems(elems.drop_first()))
}

/// The closing parentheses after an element, with `remaining` elements of
/// its list left counting it, where `tail` follow the list.
pub open spec fn tail_after(remaining: nat, tail: nat) -> nat {
    if remaining == 1 { tail + 1 } else { 0 }
}

/// Whether `obj`, written from column `col` at indentation `ind` and
/// followed by `tail` closing parentheses, can be laid out within `max`
/// columns with line breaks before elements: on one line, or, for a
/// non-empty list, with its first element laid out after `(` and each other
/// element laid out on a line of its own.
pub open spec fn layable(obj: SexpModel, col: nat, ind: nat, tail: nat, max: nat) -> bool
    decreases obj, 1nat,
{
    col + flat_width(obj) + tail <= max || match obj {
        SexpModel::Atom(_) => false,
        SexpModel::List(l) => {
            &&& l.len() > 0
            &&& layable(l[0], col + 1, ind + 1, tail_after(l.len(), tail), max)
            &&& layable_rest(l.drop_first(), ind + 1, tail, max)
        },
    }
}

/// Whether each of `elems`, the last followed by `tail + 1` closing
/// parentheses, can be laid out on a line of its own at indentation `ind`.
pub open spec fn layable_rest(elems: Seq<SexpModel>, ind: nat, tail: nat, max: nat) -> bool
    decreases elems, 0nat,
{
    elems.len() == 0 || (layable(elems[0], ind, ind, tail_after(elems.len(), tail), max)
        && layable_rest(elems.drop_first(), ind, tail, max))
}

proof fn lemma_text_concat(a: Seq<char>, b: Seq<char>, col: nat, max: nat)
    ensures
        ended_lines_within(a + b, col, max) == (ended_lines_within(a, col, max)
            && ended_lines_within(b, end_column(a, col), max)),
        end_column(a + b, col) == end_column(b, end_column(a, col)),
    decreases a.len(),
{
    if a.len() == 0 {
        assert(a + b =~= b);
    } else {
        assert((a + b).drop_first() =~= a.drop_first() + b);
        assert((a + b)[0] == a[0]);
        if a[0] == '\n' {
            lemma_text_concat(a.drop_first(), b, 0, max);
        } else {
            lemma_text_concat(a.drop_first(), b, col + 1, max);
        }
    }
}

proof fn lemma_no_break(t: Seq<char>, col: nat, max: nat)
    requires
        no_break(t),
    ensures
        ended_lines_within(t, col, max),
        end_column(t, col) == col + t.len(),
    decreases t.len(),
{
    if t.len() > 0 {
        assert(t[0] != '\n');
        lemma_no_break(t.drop_first(), col + 1, max);
    }
}

proof fn lemma_lines(t: Seq<char>, col: nat, max: nat)
    requires
        ended_lines_within(t, col, max),
        end_column(t, col) <= max,
    ensures
        lines_within(t, col, max),
    decreases t.len(),
{
    if t.len() > 0 {
        if t[0] == '\n' {
            lemma_lines(t.drop_first(), 0, max);
        } else {
            lemma_lines(t.drop_first(), col + 1, max);
        }
    }
}

proof fn lemma_break_text(k: nat, col: nat, max: nat)
    ensures
        ended_lines_within(seq!['\n'] + spaces(k), col, max) == (col <= max),
        end_column(seq!['\n'] + spaces(k), col) == k,
{
    let nl = seq!['\n'];
    lemma_text_concat(nl, spaces(k), col, max);
    assert(nl.drop_first() =~= Seq::<char>::empty());
    assert(nl[0] == '\n' && nl.len() == 1);
    assert(ended_lines_within(nl.drop_first(), 0, max));
    assert(end_column(nl.drop_first(), 0) == 0);
    assert(ended_lines_within(nl, col, max) == (col <= max));
    assert(end_column(nl, col) == 0);
    assert(no_break(spaces(k)));
    lemma_no_break(spaces(k), 0, max);
}

proof fn lemma_layable_bounds(obj: SexpModel, col: nat, ind: nat, tail: nat, max: nat)
    requires
        layable(obj, col, ind, tail, max),
    ensures
        col <= max,
        tail <= max,
    decreases obj, 1nat,
{
    if col + flat_width(obj) + tail > max {
        match obj {
            SexpModel::Atom(_) => {},
            SexpModel::List(l) => {
                lemma_layable_bounds(l[0], col + 1, ind + 1, tail_after(l.len(), tail), max);
                if l.len() > 1 {
                    lemma_rest_bounds(l.drop_first(), ind + 1, tail, max);
                }
            },
        }
    }
}

proof fn lemma_rest_bounds(elems: Seq<SexpModel>, ind: nat, tail: nat, max: nat)
    requires
        layable_rest(elems, ind, tail, max),
        elems.len() > 0,
    ensures
        tail <= max,
    decreases elems, 0nat,
{
    lemma_layable_bounds(elems[0], ind, ind, tail_after(elems.len(), tail), max);
    if elems.len() > 1 {
        lemma_rest_bounds(elems.drop_first(), ind, tail, max);
    }
}

/// An object that fits on the line is written on it, without a break.
proof fn lemma_flat(obj: SexpModel, c: SerLayout, tail: usize)
    requires
        newline_free(obj),
        c.column + flat_width(obj) + tail <= c.max_column,
        c.max_column < usize::MAX,
        c.indent <= c.column,
    ensures
        no_break(advanced_chars(obj, c, tail).0),
        advanced_chars(obj, c, tail).0.len() == flat_width(obj),
        advanced_chars(obj, c, tail).1.column == c.column + flat_width(obj),
        advanced_chars(obj, c, tail).1.indent == c.indent,
        advanced_chars(obj, c, tail).1.max_column == c.max_column,
        advanced_chars(obj, c, tail).1.indent <= advanced_chars(obj, c, tail).1.column,
    decreases obj, 1nat,
{
    match obj {
        SexpModel::Atom(s) => {},
        SexpModel::List(l) => {
            let c1 = SerLayout {
                column: crate::ser::sat_inc(c.column),
                depth: crate::ser::wrap_inc(c.depth),
                indent: crate::ser::wrap_inc(c.indent),
                ..c
            };
            lemma_flat_elems(l, true, c1, tail);
            let body = advanced_elems_chars(l, true, c1, tail).0;
            let t = seq!['('] + body + seq![')'];
            assert forall|i: int| 0 <= i < t.len() implies t[i] != '\n' by {
                if 1 <= i < t.len() - 1 {
                    assert(t[i] == body[i - 1]);
                }
            }
        },
    }
}

proof fn lemma_flat_elems(elems: Seq<SexpModel>, first: bool, c: SerLayout, tail: usize)
    requires
        newline_free_elems(elems),
        c.column + flat_elems_width(elems, first) + tail + 1 <= c.max_column,
        c.max_column < usize::MAX,
        c.indent <= c.column,
    ensures
        no_break(advanced_elems_chars(elems, first, c, tail).0),
        advanced_elems_chars(elems, first, c, tail).0.len() == flat_elems_width(elems, first),
        advanced_elems_chars(elems, first, c, tail).1.column == c.column + flat_elems_width(elems, first),
        advanced_elems_chars(elems, first, c, tail).1.indent == c.indent,
        advanced_elems_chars(elems, first, c, tail).1.max_column == c.max_column,
        advanced_elems_chars(elems, first, c, tail).1.indent <= advanced_elems_chars(elems, first, c, tail).1.column,
    decreases elems, 0nat,
{
    if elems.len() > 0 {
        let t = elem_tail(elems.len(), tail);
        let (p, c2) = separator(first, c, elems[0], t);
        lemma_flat(elems[0], c2, t);
        let (e, c3) = advanced_chars(elems[0], c2, t);
        lemma_flat_elems(elems.drop_first(), false, c3, tail);
        let rest = advanced_elems_chars(elems.drop_first(), false, c3, tail).0;
        let body = p + e + rest;
        assert forall|i: int| 0 <= i < body.len() implies body[i] != '\n' by {
            if i < p.len() {
                assert(body[i] == p[i]);
            } else if i < p.len() + e.len() {
                assert(body[i] == e[i - p.len()]);
            } else {
                assert(body[i] == rest[i - p.len() - e.len()]);
            }
        }
    }
}

/// A layable object is written with every line it ends within the limit,
/// and ends within it too, leaving room for what follows it.
proof fn lemma_layout(obj: SexpModel, c: SerLayout, tail: usize)
    requires
        newline_free(obj),
        layable(obj, c.column as nat, c.indent as nat, tail as nat, c.max_column as nat),
        c.max_column < usize::MAX,
        c.indent <= c.column,
    ensures
        ended_lines_within(advanced_chars(obj, c, tail).0, c.column as nat, c.max_column as nat),
        advanced_chars(obj, c, tail).1.column == end_column(advanced_chars(obj, c, tail).0, c.column as nat),
        advanced_chars(obj, c, tail).1.column + tail <= c.max_column,
        advanced_chars(obj, c, tail).1.indent == c.indent,
        advanced_chars(obj, c, tail).1.max_column == c.max_column,
        advanced_chars(obj, c, tail).1.indent <= advanced_chars(obj, c, tail).1.column,
    decreases obj, 1nat,
{
    let max = c.max_column as nat;
    lemma_layable_bounds(obj, c.column as nat, c.indent as nat, tail as nat, max);
    if c.column + flat_width(obj) + tail <= max {
        lemma_flat(obj, c, tail);
        lemma_no_break(advanced_chars(obj, c, tail).0, c.column as nat, max);
    } else {
        match obj {
            SexpModel::Atom(_) => {},
            SexpModel::List(l) => {
                let c1 = SerLayout {
                    column: crate::ser::sat_inc(c.column),
                    depth: crate::ser::wrap_inc(c.depth),
                    indent: crate::ser::wrap_inc(c.indent),
                    ..c
                };
                lemma_layout_elems(l, true, c1, tail);
                let body = advanced_elems_chars(l, true, c1, tail).0;
                let open = seq!['('];
                let close = seq![')'];
                lemma_no_break(open, c.column as nat, max);
                lemma_text_concat(open, body, c.column as nat, max);
                let k = end_column(open + body, c.column as nat);
                lemma_no_break(close, k, max);
                lemma_text_concat(open + body, close, c.column as nat, max);
            },
        }
    }
}

proof fn lemma_layout_elems(elems: Seq<SexpModel>, first: bool, c: SerLayout, tail: usize)
    requires
        newline_free_elems(elems),
        first ==> elems.len() > 0,
        first ==> layable(elems[0], c.column as nat, c.indent as nat, tail_after(elems.len(), tail as nat), c.max_column as nat),
        first ==> layable_rest(elems.drop_first(), c.indent as nat, tail as nat, c.max_column as nat),
        !first ==> layable_rest(elems, c.indent as nat, tail as nat, c.max_column as nat),
        !first ==> c.column <= c.max_column,
        elems.len() == 0 ==> c.column + tail + 1 <= c.max_column,
        c.max_column < usize::MAX,
        c.indent <= c.column,
    ensures
        ended_lines_within(advanced_elems_chars(elems, first, c, tail).0, c.column as nat, c.max_column as nat),
        advanced_elems_chars(elems, first, c, tail).1.column
            == end_column(advanced_elems_chars(elems, first, c, tail).0, c.column as nat),
        advanced_elems_chars(elems, first, c, tail).1.column + tail + 1 <= c.max_column,
        advanced_elems_chars(elems, first, c, tail).1.indent == c.indent,
        advanced_elems_chars(elems, first, c, tail).1.max_column == c.max_column,
        advanced_elems_chars(elems, first, c, tail).1.indent <= advanced_elems_chars(elems, first, c, tail).1.column,
    decreases elems, 0nat,
{
    let max = c.max_column as nat;
    if elems.len() > 0 {
        let tn = tail_after(elems.len(), tail as nat);
        if first {
            lemma_layable_bounds(elems[0], c.column as nat, c.indent as nat, tn, max);
        } else {
            lemma_layable_bounds(elems[0], c.indent as nat, c.indent as nat, tn, max);
        }
        let t = elem_tail(elems.len(), tail);
        assert(t as nat == tn);
        let (p, c2) = separator(first, c, elems[0], t);
        if first {
            lemma_layout(elems[0], c2, t);
        } else if c.column + 1 + flat_width(elems[0]) + t <= c.max_column {
            lemma_flat(elems[0], c2, t);
            lemma_no_break(advanced_chars(elems[0], c2, t).0, c2.column as nat, max);
            lemma_no_break(p, c.column as nat, max);
        } else {
            lemma_break_text(c.indent as nat, c.column as nat, max);
            lemma_layout(elems[0], c2, t);
        }
        let (e, c3) = advanced_chars(elems[0], c2, t);
        if elems.len() > 1 {
            lemma_rest_bounds(elems.drop_first(), c.indent as nat, tail as nat, max);
        }
        lemma_layout_elems(elems.drop_first(), false, c3, tail);
        let rest = advanced_elems_chars(elems.drop_first(), false, c3, tail).0;
        lemma_text_concat(p, e, c.column as nat, max);
        lemma_text_concat(p + e, rest, c.column as nat, max);
        assert(advanced_elems_chars(elems, first, c, tail).0 == p + e + rest);
    }
}

/// The advanced form keeps to 75 columns where line breaks can: when every
/// string's text is free of line breaks and the object is layable from the
/// start of a line, every line that `serialize` writes in advanced form has
/// at most 75 characters.
pub proof fn law_advanced_line_limit(obj: SexpModel)
    requires
        newline_free(obj),
        layable(obj, 0, 0, 0, 75),
    ensures
        lines_within(serialized(obj, PrintMode::Advanced), 0, 75),
{
    let c = initial_layout();
    lemma_layout(obj, c, 0);
    lemma_lines(advanced_chars(obj, c, 0).0, 0, 75);
}

} // verus!
