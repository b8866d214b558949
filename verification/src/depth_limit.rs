//! The nesting limit, as the parser and the printer keep it.
use vstd::prelude::*;
use crate::depth::DEFAULT_MAX_DEPTH;
use crate::error::SexpError;
use crate::parse::{initial_state, spec_parse_advanced, spec_parse_canonical, ParseState};
use crate::depth::DepthManager;
use crate::output::{next_u32, OutputState, PrintMode};
use crate::types::{nesting, nesting_elems, SexpModel, StringModel};

verus! {

/// `after` is `before` read further: the same input, depth and limit, and a
/// position no earlier and still within the input.
pub open spec fn read_on(after: ParseState, before: ParseState) -> bool {
    &&& after.same_frame(before)
    &&& before.pos <= after.pos <= after.input.len()
}

proof fn lemma_skip_frame(st: ParseState)
    requires
        st.pos <= st.input.len(),
    ensures
        read_on(st.spec_skip_whitespace(), st),
    decreases st.measure(),
{
    if st.pos < st.input.len() && crate::chars::spec_is_whitespace(st.input[st.pos as int]) {
        lemma_skip_frame(st.advance());
    }
}

proof fn lemma_decimal_frame(st: ParseState, value: nat, count: nat)
    requires
        st.pos <= st.input.len(),
    ensures
        read_on(st.spec_decimal_loop(value, count).0, st),
    decreases st.measure(),
{
    if st.pos < st.input.len() && crate::chars::spec_is_dec_digit(st.input[st.pos as int]) {
        lemma_decimal_frame(st.advance(), value * 10 + crate::chars::spec_dec_value(st.input[st.pos as int]) as nat, count + 1);
    }
}

proof fn lemma_token_frame(st: ParseState, acc: Seq<u8>)
    requires
        st.pos <= st.input.len(),
    ensures
        read_on(st.spec_token_run(acc).0, st),
        st.pos < st.input.len() && crate::chars::spec_is_token_char(st.input[st.pos as int])
            ==> st.spec_token_run(acc).0.pos > st.pos,
    decreases st.measure(),
{
    if st.pos < st.input.len() && crate::chars::spec_is_token_char(st.input[st.pos as int]) {
        lemma_token_frame(st.advance(), acc.push(st.input[st.pos as int]));
    }
}

proof fn lemma_escape_frame(st: ParseState)
    requires
        st.pos <= st.input.len(),
    ensures
        read_on(st.spec_escape().0, st),
{
}

proof fn lemma_quoted_frame(st: ParseState, acc: Seq<u8>, declared: Option<u32>)
    requires
        st.pos <= st.input.len(),
    ensures
        read_on(st.spec_quoted_loop(acc, declared).0, st),
    decreases st.measure(),
{
    match st.peek() {
        None => {},
        Some(c) => {
            let s1 = st.advance();
            if c == crate::chars::BACKSLASH {
                lemma_escape_frame(s1);
                let (s2, r2) = s1.spec_escape();
                if r2 is Ok && s2.measure() < st.measure() {
                    lemma_quoted_frame(s2, acc.push(r2->Ok_0), declared);
                }
            } else if c != crate::chars::QUOTE && s1.measure() < st.measure() {
                lemma_quoted_frame(s1, acc.push(c), declared);
            }
        },
    }
}

proof fn lemma_hex_frame(st: ParseState, acc: Seq<u8>)
    requires
        st.pos <= st.input.len(),
    ensures
        read_on(st.spec_hex_digits(acc).0, st),
    decreases st.measure(),
{
    match st.peek() {
        None => {},
        Some(c) => {
            if c != crate::chars::HASH && (crate::chars::spec_is_hex_digit(c) || crate::chars::spec_is_whitespace(c)) {
                lemma_hex_frame(st.advance(), if crate::chars::spec_is_whitespace(c) { acc } else { acc.push(c) });
            }
        },
    }
}

proof fn lemma_base64_frame(st: ParseState, acc: Seq<u8>, close: u8)
    requires
        st.pos <= st.input.len(),
    ensures
        read_on(st.spec_base64_digits(acc, close).0, st),
        st.spec_base64_digits(acc, close).1 is Ok ==> st.spec_base64_digits(acc, close).0.pos > st.pos,
    decreases st.measure(),
{
    match st.peek() {
        None => {},
        Some(c) => {
            if c != close && (crate::chars::spec_is_base64_digit(c) || c == crate::chars::EQUALS
                || crate::chars::spec_is_whitespace(c)) {
                lemma_base64_frame(
                    st.advance(),
                    if crate::chars::spec_is_whitespace(c) || c == crate::chars::EQUALS { acc } else { acc.push(c) },
                    close,
                );
            }
        },
    }
}

/// A simple string read successfully takes at least one byte.
proof fn lemma_simple_frame(st: ParseState)
    requires
        st.pos <= st.input.len(),
    ensures
        read_on(st.spec_scan_simple().0, st),
        st.spec_scan_simple().1 is Ok ==> st.spec_scan_simple().0.pos > st.pos,
{
    let s0 = st.spec_skip_whitespace();
    lemma_skip_frame(st);
    lemma_skip_frame(s0);
    lemma_token_frame(s0.spec_skip_whitespace(), Seq::empty());
    if s0.pos < s0.input.len() {
        let c = s0.input[s0.pos as int];
        if crate::chars::spec_is_token_char(c) {
            assert(s0.spec_skip_whitespace() == s0);
        }
    }
    lemma_decimal_frame(s0, 0, 0);
    let s1 = s0.spec_decimal_loop(0, 0).0;
    let d = s0.spec_decimal_loop(0, 0).1;
    if s0.pos < s0.input.len() {
        lemma_quoted_frame(s0.advance(), Seq::empty(), None);
        lemma_hex_frame(s0.advance(), Seq::empty());
        lemma_base64_frame(s0.advance(), Seq::empty(), crate::chars::BAR);
    }
    if s1.pos < s1.input.len() {
        lemma_quoted_frame(s1.advance(), Seq::empty(), None);
        if d is Ok {
            lemma_quoted_frame(s1.advance(), Seq::empty(), Some(d->Ok_0));
        }
        lemma_hex_frame(s1.advance(), Seq::empty());
        lemma_base64_frame(s1.advance(), Seq::empty(), crate::chars::BAR);
    }
}

/// A string read successfully takes at least one byte.
proof fn lemma_string_frame(st: ParseState)
    requires
        st.pos <= st.input.len(),
    ensures
        read_on(st.spec_scan_string().0, st),
        st.spec_scan_string().1 is Ok ==> st.spec_scan_string().0.pos > st.pos,
{
    let s0 = st.spec_skip_whitespace();
    lemma_skip_frame(st);
    lemma_simple_frame(s0);
    if s0.pos < s0.input.len() {
        lemma_simple_frame(s0.advance());
        let s2 = s0.advance().spec_scan_simple().0;
        let s3 = s2.spec_expect_char(crate::chars::RBRACKET).0;
        lemma_simple_frame(s3);
    }
}

/// What is read at depth `st.depth` nests at most `max_depth - st.depth`
/// lists deep, takes at least one byte, and leaves the reader at its depth.
proof fn lemma_object_depth(st: ParseState)
    requires
        st.depth <= st.max_depth,
        st.max_depth == DEFAULT_MAX_DEPTH,
        st.pos <= st.input.len(),
    ensures
        st.spec_scan_object().1 is Ok ==> {
            &&& st.spec_scan_object().0.depth == st.depth
            &&& st.spec_scan_object().0.max_depth == st.max_depth
            &&& st.spec_scan_object().0.input == st.input
            &&& st.pos < st.spec_scan_object().0.pos <= st.input.len()
            &&& st.depth + nesting(st.spec_scan_object().1->Ok_0) <= st.max_depth
        },
    decreases st.measure(), 2nat,
{
    let s0 = st.spec_skip_whitespace();
    lemma_skip_frame(st);
    match s0.peek() {
        None => {},
        Some(c) => {
            if c == crate::chars::LPAREN {
                lemma_list_depth(s0);
            } else if c == crate::chars::LBRACE {
                let (s1, r1) = s0.advance().spec_base64_digits(Seq::empty(), crate::chars::RBRACE);
                lemma_base64_frame(s0.advance(), Seq::empty(), crate::chars::RBRACE);
                if r1 is Ok {
                    crate::parse::lemma_base64_digits_len(s0.advance(), Seq::empty(), crate::chars::RBRACE);
                    crate::parse::lemma_base64_decode_len(r1->Ok_0);
                    let inner = s0.decoded_frame(crate::parse::base64_decode_spec(r1->Ok_0));
                    if inner.measure() < st.measure() {
                        lemma_object_depth(inner);
                    }
                }
            } else {
                lemma_string_frame(s0);
            }
        },
    }
}

proof fn lemma_list_depth(st: ParseState)
    requires
        st.depth <= st.max_depth,
        st.max_depth == DEFAULT_MAX_DEPTH,
        st.pos <= st.input.len(),
    ensures
        st.spec_scan_list().1 is Ok ==> {
            &&& st.spec_scan_list().0.depth == st.depth
            &&& st.spec_scan_list().0.max_depth == st.max_depth
            &&& st.spec_scan_list().0.input == st.input
            &&& st.pos < st.spec_scan_list().0.pos <= st.input.len()
            &&& st.depth + 1 + nesting_elems(st.spec_scan_list().1->Ok_0) <= st.max_depth
        },
    decreases st.measure(), 1nat,
{
    let (s1, r1) = st.spec_expect_char(crate::chars::LPAREN);
    if r1 is Ok {
        let s2 = ParseState { depth: (s1.depth + 1) as usize, ..s1 };
        if s2.depth <= s2.max_depth {
            assert(nesting_elems(Seq::<SexpModel>::empty()) == 0);
            lemma_loop_depth(s2, Seq::empty());
        }
    }
}

proof fn lemma_loop_depth(st: ParseState, acc: Seq<SexpModel>)
    requires
        1 <= st.depth <= st.max_depth,
        st.max_depth == DEFAULT_MAX_DEPTH,
        st.depth + nesting_elems(acc) <= st.max_depth,
        st.pos <= st.input.len(),
    ensures
        st.spec_list_loop(acc).1 is Ok ==> {
            &&& st.spec_list_loop(acc).0.depth == st.depth - 1
            &&& st.spec_list_loop(acc).0.max_depth == st.max_depth
            &&& st.spec_list_loop(acc).0.input == st.input
            &&& st.pos < st.spec_list_loop(acc).0.pos <= st.input.len()
            &&& st.depth + nesting_elems(st.spec_list_loop(acc).1->Ok_0) <= st.max_depth
        },
    decreases st.measure(), 3nat,
{
    let s0 = st.spec_skip_whitespace();
    lemma_skip_frame(st);
    match s0.peek() {
        None => {},
        Some(c) => {
            if c != crate::chars::RPAREN {
                lemma_object_depth(s0);
                let (s1, r1) = s0.spec_scan_object();
                if r1 is Ok {
                    let e = r1->Ok_0;
                    assert(acc.push(e).drop_last() == acc);
                    lemma_loop_depth(s1, acc.push(e));
                }
            }
        },
    }
}

/// The parser keeps its nesting limit: whatever it reads successfully, with
/// `parse_canonical` or `parse_advanced`, nests at most 1024 lists deep.
pub proof fn law_parse_depth_limit(input: Seq<u8>)
    ensures
        spec_parse_canonical(input) is Ok ==> nesting(spec_parse_canonical(input)->Ok_0) <= DEFAULT_MAX_DEPTH,
        spec_parse_advanced(input) is Ok ==> nesting(spec_parse_advanced(input)->Ok_0) <= DEFAULT_MAX_DEPTH,
{
    lemma_object_depth(initial_state(input));
}

/// The deepest nesting that a depth counter allows: its limit, or
/// `usize::MAX` where the limit is 0 (none).
pub open spec fn depth_allowance(d: DepthManager) -> nat {
    if d.max_depth == 0 { usize::MAX as nat } else { d.max_depth as nat }
}

/// `obj` can be entered from depth `d`: it is a string, or its lists nest
/// no deeper than the allowance.
pub open spec fn fits(d: DepthManager, obj: SexpModel) -> bool {
    nesting(obj) == 0 || d.depth + nesting(obj) <= depth_allowance(d)
}

proof fn lemma_nesting_bound(elems: Seq<SexpModel>, k: nat)
    ensures
        nesting_elems(elems) <= k <==> forall|i: int| 0 <= i < elems.len() ==> nesting(#[trigger] elems[i]) <= k,
    decreases elems.len(),
{
    if elems.len() > 0 {
        lemma_nesting_bound(elems.drop_last(), k);
        assert forall|i: int| 0 <= i < elems.len() - 1 implies elems.drop_last()[i] == #[trigger] elems[i] by {}
        if forall|i: int| 0 <= i < elems.len() ==> nesting(#[trigger] elems[i]) <= k {
            assert(nesting(elems[elems.len() - 1]) <= k);
            assert forall|i: int| 0 <= i < elems.len() - 1 implies nesting(#[trigger] elems.drop_last()[i]) <= k by {
                assert(nesting(elems[i]) <= k);
            }
        }
        if nesting_elems(elems) <= k {
            assert forall|i: int| 0 <= i < elems.len() implies nesting(#[trigger] elems[i]) <= k by {
                if i < elems.len() - 1 {
                    assert(nesting(elems.drop_last()[i]) <= k);
                }
            }
        }
    }
}

proof fn lemma_indent_frame(st: OutputState, i: u32)
    ensures
        st.spec_indent_loop(i).depth == st.depth,
        st.spec_indent_loop(i).byte_size == st.byte_size,
        st.spec_indent_loop(i).indent == st.indent,
        st.spec_indent_loop(i).max_column == st.max_column,
        st.spec_indent_loop(i).mode == st.mode,
    decreases st.indent - i,
{
    if i < st.indent && 4 * i < st.max_column {
        lemma_indent_frame(st.spec_put_char(crate::chars::SPACE), (i + 1) as u32);
    }
}

proof fn lemma_new_line_frame(st: OutputState, mode: PrintMode)
    ensures
        st.spec_new_line(mode).depth == st.depth,
        st.spec_new_line(mode).byte_size == st.byte_size,
        st.spec_new_line(mode).indent == st.indent,
        st.spec_new_line(mode).max_column == st.max_column,
        st.spec_new_line(mode).mode == st.mode,
{
    let s1 = if mode == PrintMode::Advanced || mode == PrintMode::Base64 {
        OutputState { column: 0, ..st.spec_put_char(crate::chars::LF) }
    } else {
        st
    };
    lemma_indent_frame(s1, 0);
}

proof fn lemma_emit_frame(st: OutputState, c: u8)
    ensures
        st.spec_emit_loop(c).depth == st.depth,
        st.spec_emit_loop(c).byte_size == st.byte_size,
        st.spec_emit_loop(c).indent == st.indent,
        st.spec_emit_loop(c).max_column == st.max_column,
        st.spec_emit_loop(c).mode == st.mode,
    decreases st.n_bits,
{
    if st.byte_size > 0 && st.n_bits >= st.byte_size {
        lemma_new_line_frame(st, st.mode);
        let s1 = if (st.byte_size == 6 || st.byte_size == 4 || c == crate::chars::RBRACE || c == crate::chars::LBRACE
            || c == crate::chars::HASH || c == crate::chars::BAR) && st.max_column > 0 && st.column >= st.max_column {
            st.spec_new_line(st.mode)
        } else {
            st
        };
        let s2 = s1.spec_put_char(st.encoded_char());
        lemma_emit_frame(
            OutputState { n_bits: (st.n_bits - st.byte_size) as u32, base64_count: next_u32(st.base64_count), ..s2 },
            c,
        );
    }
}

pub(crate) proof fn lemma_var_put_bytes_frame(st: OutputState, data: Seq<u8>)
    ensures
        st.spec_var_put_bytes(data).depth == st.depth,
        st.spec_var_put_bytes(data).byte_size == st.byte_size,
        st.spec_var_put_bytes(data).indent == st.indent,
        st.spec_var_put_bytes(data).max_column == st.max_column,
        st.spec_var_put_bytes(data).mode == st.mode,
    decreases data.len(),
{
    if data.len() > 0 {
        let s1 = OutputState { bits: (st.bits << 8u32) | (data[0] as u32), n_bits: (st.n_bits + 8) as u32, ..st };
        lemma_emit_frame(s1, data[0]);
        lemma_var_put_bytes_frame(st.spec_var_put_char(data[0]), data.drop_first());
    }
}

pub(crate) proof fn lemma_var_put_char_frame(st: OutputState, c: u8)
    ensures
        st.spec_var_put_char(c).depth == st.depth,
        st.spec_var_put_char(c).byte_size == st.byte_size,
        st.spec_var_put_char(c).indent == st.indent,
        st.spec_var_put_char(c).max_column == st.max_column,
        st.spec_var_put_char(c).mode == st.mode,
{
    let s1 = OutputState { bits: (st.bits << 8u32) | (c as u32), n_bits: (st.n_bits + 8) as u32, ..st };
    lemma_emit_frame(s1, c);
}

proof fn lemma_verbatim_frame(st: OutputState, data: Seq<u8>)
    ensures
        st.spec_verbatim(data).depth == st.depth,
{
    let s1 = st.spec_print_decimal(data.len() as u64);
    lemma_var_put_bytes_frame(st, crate::num::spec_decimal_digits(data.len() as u64 as nat));
    lemma_var_put_char_frame(s1, crate::chars::COLON);
    lemma_var_put_bytes_frame(s1.spec_var_put_char(crate::chars::COLON), data);
}

proof fn lemma_canonical_string_frame(st: OutputState, s: StringModel)
    ensures
        st.spec_canonical_string(s).depth == st.depth,
{
    match s.hint {
        Some(h) => {
            let a = st.spec_var_put_char(crate::chars::LBRACKET);
            lemma_var_put_char_frame(st, crate::chars::LBRACKET);
            lemma_verbatim_frame(a, h);
            let b = a.spec_verbatim(h);
            lemma_var_put_char_frame(b, crate::chars::RBRACKET);
            lemma_verbatim_frame(b.spec_var_put_char(crate::chars::RBRACKET), s.data);
        },
        None => {
            lemma_verbatim_frame(st, s.data);
        },
    }
}

proof fn lemma_print_depth(st: OutputState, obj: SexpModel)
    ensures
        st.spec_print_canonical(obj).1 is Ok <==> fits(st.depth, obj),
        st.spec_print_canonical(obj).1 is Ok ==> st.spec_print_canonical(obj).0.depth == st.depth,
        st.spec_print_canonical(obj).1 is Err ==> st.spec_print_canonical(obj).1 == Err::<(), SexpError>(
            max_depth_error(st.depth.max_depth),
        ),
    decreases obj, 2nat,
{
    match obj {
        SexpModel::Atom(s) => {
            lemma_canonical_string_frame(st, s);
        },
        SexpModel::List(l) => {
            lemma_list_print_depth(st, l);
        },
    }
}

/// The error that a print beyond the nesting limit gives.
pub open spec fn max_depth_error(max: usize) -> SexpError {
    SexpError::Sexp {
        fault: crate::error::Fault::MaxDepth { max },
        severity: crate::error::Severity::Error,
        position: crate::output::NO_POSITION,
    }
}

proof fn lemma_list_print_depth(st: OutputState, l: Seq<SexpModel>)
    ensures
        st.spec_canonical_list(l).1 is Ok <==> fits(st.depth, SexpModel::List(l)),
        st.spec_canonical_list(l).1 is Ok ==> st.spec_canonical_list(l).0.depth == st.depth,
        st.spec_canonical_list(l).1 is Err ==> st.spec_canonical_list(l).1 == Err::<(), SexpError>(
            max_depth_error(st.depth.max_depth),
        ),
    decreases l, 1nat,
{
    let d = st.depth;
    lemma_var_put_char_frame(st, crate::chars::LPAREN);
    let (s1, r1) = st.spec_open_list(true);
    if r1 is Ok {
        assert(s1.depth.depth == d.depth + 1);
        assert(s1.depth.max_depth == d.max_depth);
        lemma_elems_print_depth(s1, l);
        let (s2, r2) = s1.spec_canonical_elems(l);
        if r2 is Ok {
            lemma_var_put_char_frame(s2, crate::chars::RPAREN);
        }
        let m = nesting_elems(l);
        let lim = depth_allowance(d);
        if forall|i: int| 0 <= i < l.len() ==> fits(s1.depth, #[trigger] l[i]) {
            lemma_nesting_bound(l, (lim - d.depth - 1) as nat);
            assert forall|i: int| 0 <= i < l.len() implies nesting(#[trigger] l[i]) <= (lim - d.depth - 1) as nat by {
                assert(fits(s1.depth, l[i]));
            }
        } else {
            let i = choose|i: int| 0 <= i < l.len() && !fits(s1.depth, #[trigger] l[i]);
            lemma_nesting_bound(l, m);
            assert(nesting(l[i]) <= m);
        }
    }
}

proof fn lemma_elems_print_depth(st: OutputState, elems: Seq<SexpModel>)
    ensures
        st.spec_canonical_elems(elems).1 is Ok <==> forall|i: int| 0 <= i < elems.len() ==> fits(st.depth, #[trigger] elems[i]),
        st.spec_canonical_elems(elems).1 is Ok ==> st.spec_canonical_elems(elems).0.depth == st.depth,
        st.spec_canonical_elems(elems).1 is Err ==> st.spec_canonical_elems(elems).1 == Err::<(), SexpError>(
            max_depth_error(st.depth.max_depth),
        ),
    decreases elems, 0nat,
{
    if elems.len() > 0 {
        lemma_print_depth(st, elems[0]);
        let (s1, r1) = st.spec_print_canonical(elems[0]);
        if r1 is Ok {
            lemma_elems_print_depth(s1, elems.drop_first());
            assert forall|i: int| 0 <= i < elems.len() - 1 implies #[trigger] elems.drop_first()[i] == elems[i + 1] by {}
            if forall|i: int| 0 <= i < elems.len() ==> fits(st.depth, #[trigger] elems[i]) {
                assert forall|i: int| 0 <= i < elems.len() - 1 implies fits(s1.depth, #[trigger] elems.drop_first()[i]) by {
                    assert(fits(st.depth, elems[i + 1]));
                }
            }
            if forall|i: int| 0 <= i < elems.len() - 1 ==> fits(s1.depth, #[trigger] elems.drop_first()[i]) {
                assert forall|i: int| 0 <= i < elems.len() implies fits(st.depth, #[trigger] elems[i]) by {
                    if i > 0 {
                        assert(fits(s1.depth, elems.drop_first()[i - 1]));
                    }
                }
            }
        }
    }
}

/// The printer keeps its nesting limit: printing an object in canonical
/// form fails exactly when its lists would go deeper than the stream's
/// limit (with a nonzero limit) or than `usize::MAX`, and then with the
/// "maximum allowed SEXP list depth" error; after a successful print the
/// stream is back at the depth it started from.
pub proof fn law_print_depth_limit(st: OutputState, obj: SexpModel)
    ensures
        st.spec_print_canonical(obj).1 is Ok <==> fits(st.depth, obj),
        st.spec_print_canonical(obj).1 is Ok ==> st.spec_print_canonical(obj).0.depth == st.depth,
        !fits(st.depth, obj) ==> st.spec_print_canonical(obj).1 == Err::<(), SexpError>(
            max_depth_error(st.depth.max_depth),
        ),
{
    lemma_print_depth(st, obj);
}

} // verus!
