//! What the streaming reader gives back of what the printer writes in
//! base64 form.
use vstd::prelude::*;
use crate::chars::{
    spec_base64_value, spec_is_base64_digit, spec_is_whitespace, spec_low_byte, COLON, EQUALS, LBRACE, LBRACKET,
    LPAREN, RBRACE, RBRACKET, RPAREN,
};
use crate::depth::DepthManager;
use crate::depth_limit::fits;
use crate::error::SexpError;
use crate::input::{lemma_slice_next_read, CharSource, SexpInputStream, SliceSource, EOF};
use crate::output::{OutputState, PrintMode};
use crate::region::{decode_from, lemma_region_len_text, lemma_region_loop, left_zero};
use crate::stream_round_trip::{
    all_fit, full_canonical_bytes, full_elems_bytes, lemma_get_char, lemma_no_white, lemma_read_object,
    lemma_skip_char, plain_reader, reader, same_settings, short_strings, short_strings_elems, string_bytes, upcoming,
    verbatim_bytes,
};
use crate::types::{nesting, SexpModel, StringModel};

verus! {

// ---------------------------------------------------------------------------
// Printing an object is printing its canonical bytes through the encoder.

proof fn lemma_indent_depth_free(s: OutputState, i: u32, d: DepthManager)
    ensures
        (OutputState { depth: d, ..s }).spec_indent_loop(i) == (OutputState { depth: d, ..s.spec_indent_loop(i) }),
    decreases s.indent - i,
{
    if i < s.indent && 4 * i < s.max_column {
        lemma_indent_depth_free(s.spec_put_char(crate::chars::SPACE), (i + 1) as u32, d);
    }
}

proof fn lemma_new_line_depth_free(s: OutputState, mode: PrintMode, d: DepthManager)
    ensures
        (OutputState { depth: d, ..s }).spec_new_line(mode) == (OutputState { depth: d, ..s.spec_new_line(mode) }),
{
    let s1 = if mode == PrintMode::Advanced || mode == PrintMode::Base64 {
        OutputState { column: 0, ..s.spec_put_char(crate::chars::LF) }
    } else {
        s
    };
    lemma_indent_depth_free(s1, 0, d);
}

proof fn lemma_emit_depth_free(s: OutputState, c: u8, d: DepthManager)
    ensures
        (OutputState { depth: d, ..s }).spec_emit_loop(c) == (OutputState { depth: d, ..s.spec_emit_loop(c) }),
    decreases s.n_bits,
{
    if s.byte_size > 0 && s.n_bits >= s.byte_size {
        lemma_new_line_depth_free(s, s.mode, d);
        let wrap = (s.byte_size == 6 || s.byte_size == 4 || c == crate::chars::RBRACE || c == crate::chars::LBRACE
            || c == crate::chars::HASH || c == crate::chars::BAR) && s.max_column > 0 && s.column >= s.max_column;
        let s1 = if wrap { s.spec_new_line(s.mode) } else { s };
        let s2 = s1.spec_put_char(s.encoded_char());
        lemma_emit_depth_free(
            OutputState { n_bits: (s.n_bits - s.byte_size) as u32, base64_count: crate::output::next_u32(s.base64_count), ..s2 },
            c,
            d,
        );
    }
}

proof fn lemma_put_char_depth_free(s: OutputState, c: u8, d: DepthManager)
    ensures
        (OutputState { depth: d, ..s }).spec_var_put_char(c) == (OutputState { depth: d, ..s.spec_var_put_char(c) }),
{
    let s1 = OutputState { bits: (s.bits << 8u32) | (c as u32), n_bits: (s.n_bits + 8) as u32, ..s };
    lemma_emit_depth_free(s1, c, d);
}

proof fn lemma_put_bytes_depth_free(s: OutputState, data: Seq<u8>, d: DepthManager)
    ensures
        (OutputState { depth: d, ..s }).spec_var_put_bytes(data) == (OutputState { depth: d, ..s.spec_var_put_bytes(data) }),
    decreases data.len(),
{
    if data.len() > 0 {
        lemma_put_char_depth_free(s, data[0], d);
        lemma_put_bytes_depth_free(s.spec_var_put_char(data[0]), data.drop_first(), d);
    }
}

proof fn lemma_put_bytes_concat(s: OutputState, a: Seq<u8>, b: Seq<u8>)
    ensures
        s.spec_var_put_bytes(a + b) == s.spec_var_put_bytes(a).spec_var_put_bytes(b),
    decreases a.len(),
{
    if a.len() == 0 {
        assert(a + b == b);
    } else {
        assert((a + b)[0] == a[0]);
        assert((a + b).drop_first() == a.drop_first() + b);
        lemma_put_bytes_concat(s.spec_var_put_char(a[0]), a.drop_first(), b);
    }
}

proof fn lemma_put_one(s: OutputState, c: u8)
    ensures
        s.spec_var_put_char(c) == s.spec_var_put_bytes(seq![c]),
{
    let t = s.spec_var_put_char(c);
    assert(t.spec_var_put_bytes(Seq::empty()) == t);
    assert(seq![c][0] == c);
    assert(seq![c].drop_first() == Seq::<u8>::empty());
}

proof fn lemma_verbatim_bytes(s: OutputState, data: Seq<u8>)
    requires
        data.len() <= 1048576,
    ensures
        s.spec_verbatim(data) == s.spec_var_put_bytes(verbatim_bytes(data)),
{
    let d = crate::num::spec_decimal_digits(data.len());
    assert(data.len() as u64 as nat == data.len());
    let s1 = s.spec_var_put_bytes(d);
    lemma_put_one(s1, COLON);
    lemma_put_bytes_concat(s, d, seq![COLON]);
    lemma_put_bytes_concat(s, d + seq![COLON], data);
    assert(d + seq![COLON] == d.push(COLON));
}

proof fn lemma_string_bytes(s: OutputState, m: StringModel)
    requires
        short_strings(SexpModel::Atom(m)),
    ensures
        s.spec_canonical_string(m) == s.spec_var_put_bytes(string_bytes(m)),
{
    match m.hint {
        Some(h) => {
            let a = s.spec_var_put_char(LBRACKET);
            lemma_put_one(s, LBRACKET);
            lemma_verbatim_bytes(a, h);
            let b = a.spec_verbatim(h);
            lemma_put_one(b, RBRACKET);
            let c = b.spec_var_put_char(RBRACKET);
            lemma_verbatim_bytes(c, m.data);
            lemma_put_bytes_concat(s, seq![LBRACKET], verbatim_bytes(h));
            lemma_put_bytes_concat(s, seq![LBRACKET] + verbatim_bytes(h), seq![RBRACKET]);
            lemma_put_bytes_concat(s, seq![LBRACKET] + verbatim_bytes(h) + seq![RBRACKET], verbatim_bytes(m.data));
        },
        None => {
            lemma_verbatim_bytes(s, m.data);
        },
    }
}

proof fn lemma_object_bytes(s: OutputState, obj: SexpModel)
    requires
        fits(s.depth, obj),
        short_strings(obj),
    ensures
        s.spec_print_canonical(obj) == (s.spec_var_put_bytes(full_canonical_bytes(obj)), Ok::<(), SexpError>(())),
    decreases obj, 2nat,
{
    match obj {
        SexpModel::Atom(m) => {
            lemma_string_bytes(s, m);
        },
        SexpModel::List(l) => {
            crate::stream_round_trip::lemma_list_fits(s.depth, l, crate::output::NO_POSITION);
            let d = s.depth;
            let d1 = d.spec_increase(crate::output::NO_POSITION).0;
            let p = s.spec_var_put_char(LPAREN);
            let s1 = OutputState { depth: d1, ..p };
            lemma_elems_bytes(s1, l);
            let eb = full_elems_bytes(l);
            lemma_put_bytes_depth_free(p, eb, d1);
            let q = p.spec_var_put_bytes(eb);
            lemma_put_char_depth_free(q, RPAREN, d1);
            lemma_put_one(s, LPAREN);
            lemma_put_one(q, RPAREN);
            lemma_put_bytes_concat(s, seq![LPAREN], eb);
            lemma_put_bytes_concat(s, seq![LPAREN] + eb, seq![RPAREN]);
            assert(DepthManager { depth: (d1.depth - 1) as usize, ..d1 } == d);
            crate::depth_limit::lemma_var_put_char_frame(s, LPAREN);
            crate::depth_limit::lemma_var_put_bytes_frame(p, eb);
            crate::depth_limit::lemma_var_put_char_frame(q, RPAREN);
            assert(s.spec_open_list(true) == (s1, Ok::<(), SexpError>(())));
            assert(s1.spec_var_put_bytes(eb) == OutputState { depth: d1, ..q });
            let s3 = q.spec_var_put_char(RPAREN);
            assert((OutputState { depth: d1, ..q }).spec_close_list(true) == OutputState { depth: d, ..s3 });
            assert(OutputState { depth: d, ..s3 } == s3);
            assert(s.spec_var_put_bytes(seq![LPAREN] + eb + seq![RPAREN]) == s3);
            assert(full_canonical_bytes(obj) == seq![LPAREN] + eb + seq![RPAREN]);
        },
    }
}

proof fn lemma_elems_bytes(s: OutputState, elems: Seq<SexpModel>)
    requires
        all_fit(s.depth, elems),
        short_strings_elems(elems),
    ensures
        s.spec_canonical_elems(elems) == (s.spec_var_put_bytes(full_elems_bytes(elems)), Ok::<(), SexpError>(())),
    decreases elems, 0nat,
{
    if elems.len() > 0 {
        assert(fits(s.depth, elems[0]));
        crate::stream_round_trip::lemma_short_elem(elems, 0);
        lemma_object_bytes(s, elems[0]);
        let s1 = s.spec_var_put_bytes(full_canonical_bytes(elems[0]));
        crate::depth_limit::lemma_var_put_bytes_frame(s, full_canonical_bytes(elems[0]));
        assert forall|i: int| 0 <= i < elems.drop_first().len() implies fits(s1.depth, #[trigger] elems.drop_first()[i]) by {
            assert(fits(s.depth, elems[i + 1]));
        }
        lemma_elems_bytes(s1, elems.drop_first());
        lemma_put_bytes_concat(s, full_canonical_bytes(elems[0]), full_elems_bytes(elems.drop_first()));
    }
}

// ---------------------------------------------------------------------------
// Base64 digits of bytes.

/// The six-bit values of the base64 encoding of `x` (without padding):
/// four for each group of three bytes, three for two bytes left over, two
/// for one.
pub open spec fn b64_values(x: Seq<u8>) -> Seq<u8>
    decreases x.len(),
{
    if x.len() >= 3 {
        seq![x[0] >> 2u8, ((x[0] & 3u8) << 4u8) | (x[1] >> 4u8), ((x[1] & 15u8) << 2u8) | (x[2] >> 6u8), x[2] & 63u8]
            + b64_values(x.skip(3))
    } else if x.len() == 2 {
        seq![x[0] >> 2u8, ((x[0] & 3u8) << 4u8) | (x[1] >> 4u8), (x[1] & 15u8) << 2u8]
    } else if x.len() == 1 {
        seq![x[0] >> 2u8, (x[0] & 3u8) << 4u8]
    } else {
        Seq::empty()
    }
}

/// The base64 digits of `x`, without padding.
pub open spec fn b64_digits(x: Seq<u8>) -> Seq<u8> {
    Seq::new(b64_values(x).len(), |i: int| crate::chars::spec_base64_digit(b64_values(x)[i] as u32))
}

/// A character that may stand inside a base64 region: a digit, whitespace
/// or padding.
pub open spec fn region_char(c: u8) -> bool {
    crate::chars::spec_is_base64_digit(c) || crate::chars::spec_is_whitespace(c) || c == crate::chars::EQUALS
}

pub open spec fn region_text(t: Seq<u8>) -> bool {
    forall|i: int| 0 <= i < t.len() ==> region_char(#[trigger] t[i])
}

/// The digits of a region text, whitespace and padding left out.
pub open spec fn payload(t: Seq<u8>) -> Seq<u8>
    decreases t.len(),
{
    if t.len() == 0 {
        Seq::empty()
    } else if crate::chars::spec_is_base64_digit(t[0]) {
        seq![t[0]] + payload(t.drop_first())
    } else {
        payload(t.drop_first())
    }
}

pub(crate) proof fn lemma_payload_concat(a: Seq<u8>, b: Seq<u8>)
    ensures
        payload(a + b) == payload(a) + payload(b),
    decreases a.len(),
{
    if a.len() == 0 {
        assert(a + b == b);
    } else {
        assert((a + b)[0] == a[0]);
        assert((a + b).drop_first() == a.drop_first() + b);
        lemma_payload_concat(a.drop_first(), b);
    }
}

pub(crate) proof fn lemma_region_concat(a: Seq<u8>, b: Seq<u8>)
    requires
        region_text(a),
        region_text(b),
    ensures
        region_text(a + b),
{
    assert forall|i: int| 0 <= i < (a + b).len() implies region_char(#[trigger] (a + b)[i]) by {
        if i < a.len() {
            assert((a + b)[i] == a[i]);
        } else {
            assert((a + b)[i] == b[i - a.len()]);
        }
    }
}

/// What `s2` has written beyond `s1`.
pub open spec fn added(s2: OutputState, s1: OutputState) -> Seq<u8> {
    s2.out.skip(s1.out.len() as int)
}

pub open spec fn extends(s2: OutputState, s1: OutputState) -> bool {
    &&& s1.out.len() <= s2.out.len()
    &&& s2.out.take(s1.out.len() as int) == s1.out
}

pub(crate) proof fn lemma_extends_trans(s1: OutputState, s2: OutputState, s3: OutputState)
    requires
        extends(s2, s1),
        extends(s3, s2),
    ensures
        extends(s3, s1),
        added(s3, s1) == added(s2, s1) + added(s3, s2),
{
    assert(s3.out.take(s1.out.len() as int) == s2.out.take(s1.out.len() as int));
    assert(added(s3, s1) == added(s2, s1) + added(s3, s2));
}

/// A printer inside a base64 region: byte size 6, base64 or advanced mode.
pub open spec fn in_region(s: OutputState) -> bool {
    &&& s.byte_size == 6
    &&& (s.mode == PrintMode::Base64 || s.mode == PrintMode::Advanced)
}

/// `t` is `s` with more written and the column moved: nothing else changed.
pub open spec fn only_written(t: OutputState, s: OutputState) -> bool {
    &&& extends(t, s)
    &&& t.byte_size == s.byte_size
    &&& t.n_bits == s.n_bits
    &&& t.bits == s.bits
    &&& t.mode == s.mode
    &&& t.max_column == s.max_column
    &&& t.indent == s.indent
    &&& t.depth == s.depth
    &&& t.base64_count == s.base64_count
}

pub(crate) proof fn lemma_white_concat(a: Seq<u8>, b: Seq<u8>)
    requires
        white(a),
        white(b),
    ensures
        white(a + b),
{
    assert forall|i: int| 0 <= i < (a + b).len() implies spec_is_whitespace(#[trigger] (a + b)[i]) by {
        if i < a.len() {
            assert((a + b)[i] == a[i]);
        } else {
            assert((a + b)[i] == b[i - a.len()]);
        }
    }
}

/// Whitespace has no digits and may stand in a region.
pub(crate) proof fn lemma_white_region(w: Seq<u8>)
    requires
        white(w),
    ensures
        region_text(w),
        payload(w) == Seq::<u8>::empty(),
    decreases w.len(),
{
    if w.len() > 0 {
        assert(white(w.drop_first())) by {
            assert forall|i: int| 0 <= i < w.drop_first().len() implies spec_is_whitespace(#[trigger] w.drop_first()[i]) by {
                assert(spec_is_whitespace(w[i + 1]));
            }
        }
        lemma_white_region(w.drop_first());
        assert(spec_is_whitespace(w[0]));
        assert(region_text(w)) by {
            assert forall|i: int| 0 <= i < w.len() implies region_char(#[trigger] w[i]) by {
                assert(spec_is_whitespace(w[i]));
            }
        }
    }
}

pub(crate) proof fn lemma_indent_white(s: OutputState, i: u32)
    ensures
        only_written(s.spec_indent_loop(i), s),
        white(added(s.spec_indent_loop(i), s)),
    decreases s.indent - i,
{
    if i < s.indent && 4 * i < s.max_column {
        let s1 = s.spec_put_char(crate::chars::SPACE);
        assert(s1.out.take(s.out.len() as int) =~= s.out);
        assert(added(s1, s) =~= seq![crate::chars::SPACE]);
        lemma_indent_white(s1, (i + 1) as u32);
        lemma_extends_trans(s, s1, s1.spec_indent_loop((i + 1) as u32));
        assert(white(seq![crate::chars::SPACE]));
        lemma_white_concat(seq![crate::chars::SPACE], added(s1.spec_indent_loop((i + 1) as u32), s1));
    } else {
        assert(s.out.take(s.out.len() as int) =~= s.out);
        assert(added(s, s) =~= Seq::<u8>::empty());
    }
}

/// A line break writes only whitespace: a line feed (in advanced and base64
/// mode), then in advanced mode the indentation.
pub(crate) proof fn lemma_new_line(s: OutputState, mode: PrintMode)
    ensures
        only_written(s.spec_new_line(mode), s),
        white(added(s.spec_new_line(mode), s)),
{
    let s1 = if mode == PrintMode::Advanced || mode == PrintMode::Base64 {
        OutputState { column: 0, ..s.spec_put_char(crate::chars::LF) }
    } else {
        s
    };
    assert(s1.out.take(s.out.len() as int) =~= s.out);
    if mode == PrintMode::Advanced || mode == PrintMode::Base64 {
        assert(added(s1, s) =~= seq![crate::chars::LF]);
    } else {
        assert(added(s1, s) =~= Seq::<u8>::empty());
    }
    if mode == PrintMode::Advanced {
        lemma_indent_white(s1, 0);
        lemma_extends_trans(s, s1, s1.spec_indent_loop(0));
        lemma_white_concat(added(s1, s), added(s1.spec_indent_loop(0), s1));
    }
}

/// One character through the encoder at a region boundary of `n` pending
/// bits (0, 2 or 4).
proof fn lemma_put6(s: OutputState, c: u8)
    requires
        in_region(s),
        s.n_bits == 0 || s.n_bits == 2 || s.n_bits == 4,
    ensures
        in_region(s.spec_var_put_char(c)),
        extends(s.spec_var_put_char(c), s),
        region_text(added(s.spec_var_put_char(c), s)),
        s.n_bits == 0 ==> {
            &&& s.spec_var_put_char(c).n_bits == 2
            &&& s.spec_var_put_char(c).bits & 3 == (c & 3u8) as u32
            &&& payload(added(s.spec_var_put_char(c), s)) == seq![crate::chars::spec_base64_digit((c >> 2u8) as u32)]
        },
        s.n_bits == 2 ==> {
            &&& s.spec_var_put_char(c).n_bits == 4
            &&& s.spec_var_put_char(c).bits & 15 == (c & 15u8) as u32
            &&& payload(added(s.spec_var_put_char(c), s)) == seq![crate::chars::spec_base64_digit(
                (((s.bits & 3) as u8) << 4u8 | (c >> 4u8)) as u32,
            )]
        },
        s.n_bits == 4 ==> {
            &&& s.spec_var_put_char(c).n_bits == 0
            &&& payload(added(s.spec_var_put_char(c), s)) == seq![
                crate::chars::spec_base64_digit((((s.bits & 15) as u8) << 2u8 | (c >> 6u8)) as u32),
                crate::chars::spec_base64_digit((c & 63u8) as u32),
            ]
        },
{
    let b = s.bits;
    let n = s.n_bits;
    let bits = (b << 8u32) | (c as u32);
    let s0 = OutputState { bits, n_bits: (n + 8) as u32, ..s };
    assert(s.spec_var_put_char(c) == s0.spec_emit_loop(c));
    let st1 = lemma_emit_one(s0, c);
    if n == 0 {
        assert((bits >> 2u32) & 0x3f == (c >> 2u8) as u32) by (bit_vector)
            requires bits == (b << 8u32) | (c as u32);
        assert(bits & 3 == (c & 3u8) as u32) by (bit_vector)
            requires bits == (b << 8u32) | (c as u32);
        assert(st1.spec_emit_loop(c) == st1);
    } else if n == 2 {
        assert((bits >> 4u32) & 0x3f == (((b & 3) as u8) << 4u8 | (c >> 4u8)) as u32) by (bit_vector)
            requires bits == (b << 8u32) | (c as u32);
        assert(bits & 15 == (c & 15u8) as u32) by (bit_vector)
            requires bits == (b << 8u32) | (c as u32);
        assert(st1.spec_emit_loop(c) == st1);
    } else {
        assert((bits >> 6u32) & 0x3f == (((b & 15) as u8) << 2u8 | (c >> 6u8)) as u32) by (bit_vector)
            requires bits == (b << 8u32) | (c as u32);
        assert((bits >> 0u32) & 0x3f == (c & 63u8) as u32) by (bit_vector)
            requires bits == (b << 8u32) | (c as u32);
        let st2 = lemma_emit_one(st1, c);
        assert(st2.spec_emit_loop(c) == st2);
        lemma_extends_trans(s0, st1, st2);
        lemma_payload_concat(added(st1, s0), added(st2, st1));
        lemma_region_concat(added(st1, s0), added(st2, st1));
    }
}

/// One turn of the encoder's loop: a line break where the line is full,
/// then one digit.
proof fn lemma_emit_one(s: OutputState, c: u8) -> (t: OutputState)
    requires
        in_region(s),
        6 <= s.n_bits < 14,
    ensures
        s.spec_emit_loop(c) == t.spec_emit_loop(c),
        in_region(t),
        t.n_bits == s.n_bits - 6,
        t.bits == s.bits,
        extends(t, s),
        region_text(added(t, s)),
        payload(added(t, s)) == seq![s.encoded_char()],
{
    let wrap = s.max_column > 0 && s.column >= s.max_column;
    let s1 = if wrap { s.spec_new_line(s.mode) } else { s };
    let s2 = s1.spec_put_char(s.encoded_char());
    let t = OutputState { n_bits: (s.n_bits - 6) as u32, base64_count: crate::output::next_u32(s.base64_count), ..s2 };
    let bb = s.bits;
    let sh = (s.n_bits - 6) as u32;
    let v = (bb >> sh) & 0x3f;
    assert(v < 64) by (bit_vector)
        requires v == (bb >> sh) & 0x3f;
    let e = s.encoded_char();
    assert(crate::chars::spec_is_base64_digit(e));
    assert(payload(seq![e]) == seq![e]) by {
        reveal_with_fuel(payload, 2);
        assert(seq![e].drop_first() =~= Seq::<u8>::empty());
        assert(seq![e] + Seq::<u8>::empty() =~= seq![e]);
    }
    if wrap {
        lemma_new_line(s, s.mode);
        let w = added(s1, s);
        lemma_white_region(w);
        assert(t.out =~= s.out + w + seq![e]);
        assert(t.out.take(s.out.len() as int) =~= s.out);
        assert(added(t, s) =~= w + seq![e]);
        lemma_payload_concat(w, seq![e]);
        assert(region_char(e));
        lemma_region_concat(w, seq![e]);
        assert(Seq::<u8>::empty() + seq![e] =~= seq![e]);
    } else {
        assert(t.out =~= s.out + seq![e]);
        assert(t.out.take(s.out.len() as int) =~= s.out);
        assert(added(t, s) =~= seq![e]);
        assert(payload(seq![e]) == seq![e]) by {
            reveal_with_fuel(payload, 2);
            assert(seq![e].drop_first() =~= Seq::<u8>::empty());
            assert(seq![e] + Seq::<u8>::empty() =~= seq![e]);
        }
    }
    t
}

proof fn lemma_put3(s: OutputState, x: Seq<u8>)
    requires
        in_region(s),
        s.n_bits == 0,
        x.len() >= 3,
    ensures
        in_region(s.spec_var_put_bytes(x.take(3))),
        s.spec_var_put_bytes(x.take(3)).n_bits == 0,
        extends(s.spec_var_put_bytes(x.take(3)), s),
        region_text(added(s.spec_var_put_bytes(x.take(3)), s)),
        payload(added(s.spec_var_put_bytes(x.take(3)), s)) == b64_digits(x).take(4),
{
    let a = x[0];
    let b = x[1];
    let c = x[2];
    let s1 = s.spec_var_put_char(a);
    let s2 = s1.spec_var_put_char(b);
    let s3 = s2.spec_var_put_char(c);
    assert(s.spec_var_put_bytes(x.take(3)) == s3) by {
        reveal_with_fuel(OutputState::spec_var_put_bytes, 4);
        assert(x.take(3)[0] == a);
        assert(x.take(3).drop_first()[0] == b);
        assert(x.take(3).drop_first().drop_first()[0] == c);
        assert(x.take(3).drop_first().drop_first().drop_first().len() == 0);
    }
    lemma_put6(s, a);
    lemma_put6(s1, b);
    lemma_put6(s2, c);
    lemma_extends_trans(s, s1, s2);
    lemma_extends_trans(s, s2, s3);
    lemma_payload_concat(added(s1, s), added(s2, s1));
    lemma_payload_concat(added(s2, s), added(s3, s2));
    lemma_region_concat(added(s1, s), added(s2, s1));
    lemma_region_concat(added(s2, s), added(s3, s2));
    let v = b64_values(x);
    assert(v.take(4) == seq![a >> 2u8, ((a & 3u8) << 4u8) | (b >> 4u8), ((b & 15u8) << 2u8) | (c >> 6u8), c & 63u8]);
    let b1 = s1.bits;
    let b2 = s2.bits;
    assert(((b1 & 3) as u8) == a & 3u8) by (bit_vector)
        requires b1 & 3 == (a & 3u8) as u32;
    assert(((b2 & 15) as u8) == b & 15u8) by (bit_vector)
        requires b2 & 15 == (b & 15u8) as u32;
    assert(b64_digits(x).take(4) =~= payload(added(s3, s)));
}

proof fn lemma_put_groups(s: OutputState, x: Seq<u8>)
    requires
        in_region(s),
        s.n_bits == 0,
    ensures
        in_region(s.spec_var_put_bytes(x)),
        extends(s.spec_var_put_bytes(x), s),
        region_text(added(s.spec_var_put_bytes(x), s)),
        x.len() % 3 == 0 ==> s.spec_var_put_bytes(x).n_bits == 0
            && payload(added(s.spec_var_put_bytes(x), s)) == b64_digits(x),
        x.len() % 3 == 1 ==> s.spec_var_put_bytes(x).n_bits == 2
            && s.spec_var_put_bytes(x).bits & 3 == (x.last() & 3u8) as u32
            && payload(added(s.spec_var_put_bytes(x), s)) == b64_digits(x).drop_last(),
        x.len() % 3 == 2 ==> s.spec_var_put_bytes(x).n_bits == 4
            && s.spec_var_put_bytes(x).bits & 15 == (x.last() & 15u8) as u32
            && payload(added(s.spec_var_put_bytes(x), s)) == b64_digits(x).drop_last(),
    decreases x.len(),
{
    let t = s.spec_var_put_bytes(x);
    if x.len() >= 3 {
        lemma_put3(s, x);
        let s3 = s.spec_var_put_bytes(x.take(3));
        assert(x == x.take(3) + x.skip(3));
        lemma_put_bytes_concat(s, x.take(3), x.skip(3));
        lemma_put_groups(s3, x.skip(3));
        lemma_extends_trans(s, s3, t);
        lemma_payload_concat(added(s3, s), added(t, s3));
        lemma_region_concat(added(s3, s), added(t, s3));
        let rest = x.skip(3);
        assert(b64_values(x) == b64_values(x.take(3).add(rest)).take(4) + b64_values(rest)) by {
            assert(x.take(3).add(rest) == x);
        }
        assert(b64_digits(x) =~= b64_digits(x).take(4) + b64_digits(rest));
        if rest.len() > 0 {
            assert(rest.last() == x.last());
            assert(b64_digits(x).drop_last() =~= b64_digits(x).take(4) + b64_digits(rest).drop_last());
        }
    } else if x.len() == 2 {
        let a = x[0];
        let b = x[1];
        let s1 = s.spec_var_put_char(a);
        let s2 = s1.spec_var_put_char(b);
        assert(t == s2) by {
            reveal_with_fuel(OutputState::spec_var_put_bytes, 3);
            assert(x.drop_first()[0] == b);
            assert(x.drop_first().drop_first().len() == 0);
        }
        lemma_put6(s, a);
        lemma_put6(s1, b);
        lemma_extends_trans(s, s1, s2);
        lemma_payload_concat(added(s1, s), added(s2, s1));
        lemma_region_concat(added(s1, s), added(s2, s1));
        let b1 = s1.bits;
        assert(((b1 & 3) as u8) == a & 3u8) by (bit_vector)
            requires b1 & 3 == (a & 3u8) as u32;
        assert(b64_digits(x).drop_last() =~= payload(added(s2, s)));
    } else if x.len() == 1 {
        let a = x[0];
        assert(t == s.spec_var_put_char(a)) by {
            reveal_with_fuel(OutputState::spec_var_put_bytes, 2);
            assert(x.drop_first().len() == 0);
        }
        lemma_put6(s, a);
        assert(b64_digits(x).drop_last() =~= payload(added(t, s)));
    } else {
        assert(t == s);
        assert(added(t, s) =~= Seq::<u8>::empty());
        assert(s.out.take(s.out.len() as int) =~= s.out);
        assert(b64_digits(x) =~= Seq::<u8>::empty());
    }
}

proof fn lemma_pad(t: OutputState)
    requires
        in_region(t),
    ensures
        in_region(t.spec_pad_loop()),
        t.spec_pad_loop().n_bits == t.n_bits,
        extends(t.spec_pad_loop(), t),
        region_text(added(t.spec_pad_loop(), t)),
        payload(added(t.spec_pad_loop(), t)) == Seq::<u8>::empty(),
    decreases (4 - t.base64_count % 4) % 4,
{
    let e = crate::chars::EQUALS;
    if t.base64_count % 4 != 0 {
        let wrap = t.max_column > 0 && t.column >= t.max_column;
        let s1 = if wrap { t.spec_new_line(t.mode) } else { t };
        let s2 = OutputState { base64_count: crate::output::next_u32(t.base64_count), ..s1.spec_put_char(e) };
        let w: Seq<u8> = if wrap { lemma_new_line(t, t.mode); added(s1, t) } else { Seq::empty() };
        assert(white(w));
        lemma_white_region(w);
        let pre = w + seq![e];
        assert(s1.out =~= t.out + w);
        assert(s2.out =~= t.out + pre);
        assert(s2.out.take(t.out.len() as int) =~= t.out);
        assert(added(s2, t) =~= pre);
        assert(payload(seq![e]) == Seq::<u8>::empty()) by {
            reveal_with_fuel(payload, 2);
            assert(seq![e].drop_first() =~= Seq::<u8>::empty());
        }
        lemma_payload_concat(w, seq![e]);
        assert(region_char(e));
        lemma_region_concat(w, seq![e]);
        assert(payload(pre) =~= Seq::<u8>::empty());
        if (4 - s2.base64_count % 4) % 4 < (4 - t.base64_count % 4) % 4 {
            lemma_pad(s2);
            lemma_extends_trans(t, s2, s2.spec_pad_loop());
            lemma_payload_concat(added(s2, t), added(s2.spec_pad_loop(), s2));
            lemma_region_concat(added(s2, t), added(s2.spec_pad_loop(), s2));
            assert(Seq::<u8>::empty() + Seq::<u8>::empty() =~= Seq::<u8>::empty());
        }
    } else {
        assert(added(t, t) =~= Seq::<u8>::empty());
        assert(t.out.take(t.out.len() as int) =~= t.out);
    }
}

/// The last digit and the padding of a base64 region.
proof fn lemma_flush_region(t: OutputState)
    requires
        in_region(t),
        t.n_bits == 0 || t.n_bits == 2 || t.n_bits == 4,
    ensures
        in_region(t.spec_flush()),
        t.spec_flush().n_bits == 0,
        extends(t.spec_flush(), t),
        region_text(added(t.spec_flush(), t)),
        t.n_bits == 0 ==> payload(added(t.spec_flush(), t)) == Seq::<u8>::empty(),
        t.n_bits == 2 ==> payload(added(t.spec_flush(), t)) == seq![crate::chars::spec_base64_digit(
            (((t.bits & 3) as u8) << 4u8) as u32,
        )],
        t.n_bits == 4 ==> payload(added(t.spec_flush(), t)) == seq![crate::chars::spec_base64_digit(
            (((t.bits & 15) as u8) << 2u8) as u32,
        )],
{
    if t.n_bits > 0 {
        let b = t.bits;
        let sh = (6 - t.n_bits) as u32;
        let v = (b << sh) & 0x3f;
        assert(v < 64) by (bit_vector)
            requires v == (b << sh) & 0x3f;
        if t.n_bits == 2 {
            assert(v == (((b & 3) as u8) << 4u8) as u32) by (bit_vector)
                requires v == (b << sh) & 0x3f, sh == 4;
        } else {
            assert(v == (((b & 15) as u8) << 2u8) as u32) by (bit_vector)
                requires v == (b << sh) & 0x3f, sh == 2;
        }
        let d = crate::chars::spec_base64_digit(v);
        assert(crate::chars::spec_is_base64_digit(d));
        let s1 = OutputState { n_bits: 0, base64_count: crate::output::next_u32(t.base64_count), ..t.spec_put_char(d) };
        assert(s1.out =~= t.out + seq![d]);
        assert(s1.out.take(t.out.len() as int) =~= t.out);
        assert(added(s1, t) =~= seq![d]);
        assert(payload(seq![d]) == seq![d]) by {
            reveal_with_fuel(payload, 2);
            assert(seq![d].drop_first() =~= Seq::<u8>::empty());
            assert(seq![d] + Seq::<u8>::empty() =~= seq![d]);
        }
        lemma_pad(s1);
        lemma_extends_trans(t, s1, s1.spec_pad_loop());
        lemma_payload_concat(added(s1, t), added(s1.spec_pad_loop(), s1));
        lemma_region_concat(added(s1, t), added(s1.spec_pad_loop(), s1));
        assert(seq![d] + Seq::<u8>::empty() =~= seq![d]);
    } else {
        lemma_pad(t);
    }
}

/// Bytes through the encoder from the start of a region, then flushed: a
/// region text whose digits are the base64 digits of the bytes.
pub(crate) proof fn lemma_encode_region(s: OutputState, x: Seq<u8>)
    requires
        in_region(s),
        s.n_bits == 0,
    ensures
        in_region(s.spec_var_put_bytes(x).spec_flush()),
        s.spec_var_put_bytes(x).spec_flush().n_bits == 0,
        extends(s.spec_var_put_bytes(x).spec_flush(), s),
        region_text(added(s.spec_var_put_bytes(x).spec_flush(), s)),
        payload(added(s.spec_var_put_bytes(x).spec_flush(), s)) == b64_digits(x),
{
    lemma_put_groups(s, x);
    let t = s.spec_var_put_bytes(x);
    lemma_flush_region(t);
    let u = t.spec_flush();
    lemma_extends_trans(s, t, u);
    lemma_payload_concat(added(t, s), added(u, t));
    lemma_region_concat(added(t, s), added(u, t));
    let v = b64_values(x);
    if x.len() % 3 == 0 {
        assert(b64_digits(x) + Seq::<u8>::empty() =~= b64_digits(x));
    } else {
        lemma_b64_last(x);
        let tb = t.bits;
        let xl = x.last();
        if x.len() % 3 == 1 {
            assert(((tb & 3) as u8) == xl & 3u8) by (bit_vector)
                requires tb & 3 == (xl & 3u8) as u32;
        } else {
            assert(((tb & 15) as u8) == xl & 15u8) by (bit_vector)
                requires tb & 15 == (xl & 15u8) as u32;
        }
        assert(b64_digits(x) =~= b64_digits(x).drop_last().push(b64_digits(x).last()));
    }
}

/// The last base64 value of bytes that do not fill their last group.
proof fn lemma_b64_last(x: Seq<u8>)
    requires
        x.len() % 3 != 0,
    ensures
        b64_values(x).len() > 0,
        x.len() % 3 == 1 ==> b64_values(x).last() == (x.last() & 3u8) << 4u8,
        x.len() % 3 == 2 ==> b64_values(x).last() == (x.last() & 15u8) << 2u8,
    decreases x.len(),
{
    if x.len() >= 3 {
        lemma_b64_last(x.skip(3));
        assert(x.skip(3).last() == x.last());
    }
}

// ---------------------------------------------------------------------------
// Decoding what the encoder wrote.

proof fn lemma_digit_value(v: u32)
    requires
        v < 64,
    ensures
        spec_is_base64_digit(crate::chars::spec_base64_digit(v)),
        spec_base64_value(crate::chars::spec_base64_digit(v)) as u32 == v,
{
}

/// Decoding passes over whitespace and padding: only the digits count.
pub(crate) proof fn lemma_decode_payload(n: u32, bits: u32, t: Seq<u8>)
    ensures
        decode_from(6, n, bits, t) == decode_from(6, n, bits, payload(t)),
        left_zero(6, n, bits, t) == left_zero(6, n, bits, payload(t)),
    decreases t.len(),
{
    if t.len() > 0 {
        let rest = t.drop_first();
        if spec_is_base64_digit(t[0]) {
            let p = seq![t[0]] + payload(rest);
            assert(p[0] == t[0]);
            assert(p.drop_first() == payload(rest));
            let b2 = (bits << 6u32) | (spec_base64_value(t[0]) as u32);
            let n2 = (n + 6) as u32;
            if n2 >= 8 {
                lemma_decode_payload((n2 - 8) as u32, b2, rest);
            } else {
                lemma_decode_payload(n2, b2, rest);
            }
        } else {
            lemma_decode_payload(n, bits, rest);
        }
    }
}

/// One digit decoded where it completes no byte.
proof fn lemma_decode_quiet(n: u32, bits: u32, e: u8, t: Seq<u8>)
    requires
        spec_is_base64_digit(e),
        n + 6 < 8,
    ensures
        decode_from(6, n, bits, seq![e] + t) == decode_from(6, (n + 6) as u32, (bits << 6u32) | (spec_base64_value(e) as u32), t),
        left_zero(6, n, bits, seq![e] + t) == left_zero(6, (n + 6) as u32, (bits << 6u32) | (spec_base64_value(e) as u32), t),
{
    assert((seq![e] + t)[0] == e);
    assert((seq![e] + t).drop_first() == t);
}

/// One digit decoded where it completes a byte.
proof fn lemma_decode_byte(n: u32, bits: u32, e: u8, t: Seq<u8>)
    requires
        spec_is_base64_digit(e),
        8 <= n + 6 < 14,
    ensures
        decode_from(6, n, bits, seq![e] + t) == seq![
            ((((bits << 6u32) | (spec_base64_value(e) as u32)) >> ((n - 2) as u32)) & 0xff) as u8,
        ] + decode_from(6, (n - 2) as u32, (bits << 6u32) | (spec_base64_value(e) as u32), t),
        left_zero(6, n, bits, seq![e] + t) == left_zero(6, (n - 2) as u32, (bits << 6u32) | (spec_base64_value(e) as u32), t),
{
    assert((seq![e] + t)[0] == e);
    assert((seq![e] + t).drop_first() == t);
}

/// The base64 digits of bytes decode back to the bytes, with no nonzero
/// bits left over, whatever bits were there before.
pub(crate) proof fn lemma_decode_digits(b: u32, x: Seq<u8>)
    ensures
        decode_from(6, 0, b, b64_digits(x)) == x,
        left_zero(6, 0, b, b64_digits(x)),
    decreases x.len(),
{
    let v = b64_values(x);
    let dg = b64_digits(x);
    if x.len() == 0 {
        assert(dg =~= Seq::<u8>::empty());
    } else {
        let a = x[0];
        let v0 = a >> 2u8;
        let v1 = if x.len() >= 2 { ((a & 3u8) << 4u8) | (x[1] >> 4u8) } else { (a & 3u8) << 4u8 };
        assert((a >> 2u8) < 64 && ((a & 3u8) << 4u8) < 64) by (bit_vector);
        let c1 = x[if x.len() >= 2 { 1int } else { 0int }];
        assert(((a & 3u8) << 4u8) | (c1 >> 4u8) < 64) by (bit_vector);
        assert(v[0] == v0 && v[1] == v1);
        let e0 = crate::chars::spec_base64_digit(v0 as u32);
        let e1 = crate::chars::spec_base64_digit(v1 as u32);
        lemma_digit_value(v0 as u32);
        lemma_digit_value(v1 as u32);
        let b1 = (b << 6u32) | (v0 as u32);
        let b2 = (b1 << 6u32) | (v1 as u32);
        assert(dg[0] == e0 && dg[1] == e1);
        let t2 = dg.skip(2);
        assert(dg =~= seq![e0] + (seq![e1] + t2));
        lemma_decode_quiet(0, b, e0, seq![e1] + t2);
        lemma_decode_byte(6, b1, e1, t2);
        assert((((b2 >> 4u32) & 0xff) as u8) == a) by (bit_vector)
            requires
                b1 == (b << 6u32) | ((a >> 2u8) as u32),
                b2 == (b1 << 6u32) | (v1 as u32),
                v1 == ((a & 3u8) << 4u8) | (c1 >> 4u8) || v1 == (a & 3u8) << 4u8;
        if x.len() == 1 {
            assert(t2 =~= Seq::<u8>::empty());
            assert(left_zero(6, 4, b2, Seq::<u8>::empty())) by {
                assert((((1u32 << 4u32) - 1) as u32) & b2 == 0) by (bit_vector)
                    requires b2 == (b1 << 6u32) | (v1 as u32), v1 == (a & 3u8) << 4u8;
            }
            assert(seq![a] + Seq::<u8>::empty() =~= x);
        } else {
            let bb = x[1];
            let v2 = if x.len() >= 3 { ((bb & 15u8) << 2u8) | (x[2] >> 6u8) } else { (bb & 15u8) << 2u8 };
            let c2 = x[if x.len() >= 3 { 2int } else { 1int }];
            assert(((bb & 15u8) << 2u8) | (c2 >> 6u8) < 64 && (bb & 15u8) << 2u8 < 64) by (bit_vector);
            assert(v[2] == v2);
            let e2 = crate::chars::spec_base64_digit(v2 as u32);
            lemma_digit_value(v2 as u32);
            let b3 = (b2 << 6u32) | (v2 as u32);
            assert(dg[2] == e2);
            let t3 = dg.skip(3);
            assert(t2 =~= seq![e2] + t3);
            lemma_decode_byte(4, b2, e2, t3);
            assert((((b3 >> 2u32) & 0xff) as u8) == bb) by (bit_vector)
                requires
                    b2 == (b1 << 6u32) | (v1 as u32),
                    v1 == ((a & 3u8) << 4u8) | (bb >> 4u8),
                    b3 == (b2 << 6u32) | (v2 as u32),
                    v2 == ((bb & 15u8) << 2u8) | (c2 >> 6u8) || v2 == (bb & 15u8) << 2u8;
            if x.len() == 2 {
                assert(t3 =~= Seq::<u8>::empty());
                assert(left_zero(6, 2, b3, Seq::<u8>::empty())) by {
                    assert((((1u32 << 2u32) - 1) as u32) & b3 == 0) by (bit_vector)
                        requires b3 == (b2 << 6u32) | (v2 as u32), v2 == (bb & 15u8) << 2u8;
                }
                assert(seq![a] + (seq![bb] + Seq::<u8>::empty()) =~= x);
            } else {
                let cc = x[2];
                let v3 = cc & 63u8;
                assert(cc & 63u8 < 64) by (bit_vector);
                assert(v[3] == v3);
                let e3 = crate::chars::spec_base64_digit(v3 as u32);
                lemma_digit_value(v3 as u32);
                let b4 = (b3 << 6u32) | (v3 as u32);
                assert(dg[3] == e3);
                let t4 = dg.skip(4);
                assert(t3 =~= seq![e3] + t4);
                lemma_decode_byte(2, b3, e3, t4);
                assert((((b4 >> 0u32) & 0xff) as u8) == cc) by (bit_vector)
                    requires
                        b3 == (b2 << 6u32) | (v2 as u32),
                        v2 == ((bb & 15u8) << 2u8) | (cc >> 6u8),
                        b4 == (b3 << 6u32) | (v3 as u32),
                        v3 == cc & 63u8;
                assert(t4 =~= b64_digits(x.skip(3)));
                lemma_decode_digits(b4, x.skip(3));
                assert(seq![a] + (seq![bb] + (seq![cc] + x.skip(3))) =~= x);
            }
        }
    }
}

// ---------------------------------------------------------------------------
// The whole base64 form.

/// The line break that the printer writes before a brace where the line is
/// full.
pub open spec fn brace_lead(s: OutputState) -> Seq<u8> {
    if s.max_column > 0 && s.column >= s.max_column { seq![crate::chars::LF] } else { Seq::empty() }
}

proof fn lemma_put_brace(s: OutputState, c: u8)
    requires
        s.byte_size == 8,
        s.n_bits == 0,
        s.mode == PrintMode::Base64,
        c == LBRACE || c == RBRACE,
    ensures
        s.spec_var_put_char(c).byte_size == 8,
        s.spec_var_put_char(c).n_bits == 0,
        s.spec_var_put_char(c).mode == PrintMode::Base64,
        s.spec_var_put_char(c).out == s.out + brace_lead(s) + seq![c],
{
    let sb = s.bits;
    let b = (sb << 8u32) | (c as u32);
    let s0 = OutputState { bits: b, n_bits: 8, ..s };
    assert((b & 0xff) as u8 == c) by (bit_vector)
        requires b == (sb << 8u32) | (c as u32);
    assert(s0.encoded_char() == c);
    let wrap = s.max_column > 0 && s.column >= s.max_column;
    let s1 = if wrap { s0.spec_new_line(s0.mode) } else { s0 };
    let t = OutputState { n_bits: 0, base64_count: crate::output::next_u32(s0.base64_count), ..s1.spec_put_char(c) };
    assert(t.spec_emit_loop(c) == t);
    assert(s.spec_var_put_char(c) == t);
    if wrap {
        assert(t.out =~= s.out + seq![crate::chars::LF] + seq![c]);
    } else {
        assert(t.out =~= s.out + Seq::<u8>::empty() + seq![c]);
    }
}

/// What the printer writes in base64 form: a line break where the line is
/// full, `{`, a region text whose digits are the base64 digits of the
/// canonical bytes, `}`.
proof fn lemma_base64_form(st: OutputState, obj: SexpModel) -> (parts: (Seq<u8>, Seq<u8>))
    requires
        fits(st.depth, obj),
        short_strings(obj),
    ensures
        st.spec_print_base64(obj).1 is Ok,
        st.spec_print_base64(obj).0.out == st.out + parts.0 + seq![LBRACE] + parts.1 + seq![RBRACE],
        white(parts.0),
        region_text(parts.1),
        payload(parts.1) == b64_digits(full_canonical_bytes(obj)),
{
    let s1 = st.spec_change_output_byte_size(8, PrintMode::Base64).0;
    lemma_put_brace(s1, LBRACE);
    let p = s1.spec_var_put_char(LBRACE);
    let s3 = p.spec_change_output_byte_size(6, PrintMode::Base64).0;
    assert(s3.depth == st.depth) by {
        crate::depth_limit::lemma_var_put_char_frame(s1, LBRACE);
    }
    let x = full_canonical_bytes(obj);
    lemma_object_bytes(s3, obj);
    lemma_encode_region(s3, x);
    let f = s3.spec_var_put_bytes(x).spec_flush();
    let s6 = f.spec_change_output_byte_size(8, PrintMode::Base64).0;
    lemma_put_brace(s6, RBRACE);
    let t = added(f, s3);
    let lead2 = brace_lead(s6);
    assert(f.out =~= s3.out + t);
    let text = t + lead2;
    assert(region_text(lead2)) by {
        if lead2.len() > 0 {
            assert(lead2[0] == crate::chars::LF);
        }
    }
    lemma_region_concat(t, lead2);
    lemma_payload_concat(t, lead2);
    assert(payload(lead2) == Seq::<u8>::empty()) by {
        if lead2.len() > 0 {
            reveal_with_fuel(payload, 2);
            assert(lead2.drop_first() =~= Seq::<u8>::empty());
        }
    }
    assert(b64_digits(x) + Seq::<u8>::empty() =~= b64_digits(x));
    let lead1 = brace_lead(s1);
    assert(white(lead1)) by {
        if lead1.len() > 0 {
            assert(lead1[0] == crate::chars::LF);
        }
    }
    assert(st.spec_print_base64(obj).0.out =~= st.out + lead1 + seq![LBRACE] + text + seq![RBRACE]);
    (lead1, text)
}

/// Every byte of `t` is whitespace.
pub open spec fn white(t: Seq<u8>) -> bool {
    forall|i: int| 0 <= i < t.len() ==> spec_is_whitespace(#[trigger] t[i])
}

pub(crate) proof fn lemma_skip_white<'a>(r: SexpInputStream<SliceSource<'a>>, w: Seq<u8>, more: Seq<u8>)
    requires
        plain_reader(r),
        white(w),
        more.len() > 0,
        !spec_is_whitespace(more[0]),
        upcoming(r) == w + more,
    ensures
        r.spec_skip_white_space().1 is Ok,
        plain_reader(r.spec_skip_white_space().0),
        upcoming(r.spec_skip_white_space().0) == more,
        same_settings(r.spec_skip_white_space().0, r),
        r.spec_skip_white_space().0.measure() <= r.measure(),
    decreases w.len(),
{
    if w.len() == 0 {
        assert(w + more == more);
        lemma_no_white(r);
    } else {
        assert(upcoming(r)[0] == w[0]);
        assert(r.next_char != EOF);
        assert(spec_low_byte(r.next_char) == w[0]);
        lemma_get_char(r);
        let r1 = r.spec_get_char().0;
        assert((w + more).drop_first() == w.drop_first() + more);
        lemma_skip_white(r1, w.drop_first(), more);
    }
}

/// A reader of 8-bit characters, positioned at a base64 form, reads the
/// object back and stops after the closing brace.
#[verifier::spinoff_prover]
#[verifier::rlimit(50)]
proof fn lemma_read_base64<'a>(r: SexpInputStream<SliceSource<'a>>, obj: SexpModel, w: Seq<u8>, text: Seq<u8>, rest: Seq<u8>)
    requires
        plain_reader(r),
        fits(r.depth, obj),
        short_strings(obj),
        white(w),
        region_text(text),
        payload(text) == b64_digits(full_canonical_bytes(obj)),
        upcoming(r) == w + seq![LBRACE] + text + seq![RBRACE] + rest,
    ensures
        r.spec_scan_object().1 == Ok::<SexpModel, SexpError>(obj),
        reader(r.spec_scan_object().0),
        upcoming(r.spec_scan_object().0) == rest,
        r.spec_scan_object().0.depth == r.depth,
{
    let x = full_canonical_bytes(obj);
    let more = seq![LBRACE] + text + seq![RBRACE] + rest;
    assert(w + seq![LBRACE] + text + seq![RBRACE] + rest == w + more);
    lemma_skip_white(r, w, more);
    let s1 = r.spec_skip_white_space().0;
    assert(upcoming(s1)[0] == LBRACE);
    assert(s1.next_char == LBRACE as i32);
    let rem = s1.source.remaining();
    let after = seq![RBRACE] + rest;
    assert(upcoming(s1) == seq![s1.next_char as u8] + rem);
    assert((seq![s1.next_char as u8] + rem).drop_first() =~= rem);
    assert(more.drop_first() =~= text + after);
    assert(rem =~= text + after);
    assert forall|i: int| 0 <= i < text.len() implies crate::region::coded_char(6, #[trigger] text[i]) by {
        assert(region_char(text[i]));
    }
    lemma_region_len_text(6, text, after);
    assert(rem.take(text.len() as int) =~= text);
    assert(rem.skip(text.len() as int) =~= after);
    let wst = s1.with_byte_size(6);
    lemma_decode_payload(0, 0, text);
    lemma_decode_digits(0, x);
    lemma_slice_next_read(s1.source);
    lemma_region_loop(wst);
    let s2 = wst.spec_get_char_loop().0;
    assert(wst.spec_skip_char(LBRACE) == wst.spec_get_char_loop());
    assert(upcoming(s2) == x + after);
    assert(s2.measure() < r.measure());
    lemma_read_object(s2, obj, after);
    let s3 = s2.spec_scan_object().0;
    assert(upcoming(s3)[0] == RBRACE);
    lemma_skip_char(s3, RBRACE);
    assert(after.drop_first() == rest);
}

/// What a printer writes in base64 form (the canonical bytes, hints
/// included, base64-encoded inside `{...}`), a reader of 8-bit characters
/// positioned at those bytes reads back, for every object whose strings are
/// at most 1 MiB long and whose lists fit within both nesting limits; the
/// reader stops right after the closing brace.
pub proof fn law_base64_round_trip<'a>(st: OutputState, obj: SexpModel, r: SexpInputStream<SliceSource<'a>>, rest: Seq<u8>)
    requires
        fits(st.depth, obj),
        fits(r.depth, obj),
        short_strings(obj),
        plain_reader(r),
        upcoming(r) == added(st.spec_print_base64(obj).0, st) + rest,
    ensures
        st.spec_print_base64(obj).1 is Ok,
        r.spec_scan_object().1 == Ok::<SexpModel, SexpError>(obj),
        upcoming(r.spec_scan_object().0) == rest,
        r.spec_scan_object().0.depth == r.depth,
{
    let (w, text) = lemma_base64_form(st, obj);
    let out = st.spec_print_base64(obj).0.out;
    assert(added(st.spec_print_base64(obj).0, st) =~= w + seq![LBRACE] + text + seq![RBRACE]);
    lemma_read_base64(r, obj, w, text, rest);
}

/// What a new printer writes in base64 form, a new reader over those bytes
/// (with the same nesting limit) reads back, for every object whose strings
/// are at most 1 MiB long and whose lists fit within the limit.
pub proof fn law_base64_stream_round_trip<'a>(obj: SexpModel, max_depth: usize, r: SexpInputStream<SliceSource<'a>>)
    requires
        fits(DepthManager { depth: 0, max_depth }, obj),
        short_strings(obj),
        r.fresh(OutputState::initial(max_depth).spec_print_base64(obj).0.out, max_depth),
    ensures
        OutputState::initial(max_depth).spec_print_base64(obj).1 is Ok,
        r.spec_scan_object().1 == Ok::<SexpModel, SexpError>(obj),
{
    let st = OutputState::initial(max_depth);
    let (w, text) = lemma_base64_form(st, obj);
    let out = st.spec_print_base64(obj).0.out;
    let w1 = seq![32u8] + w;
    assert(white(w1)) by {
        assert forall|i: int| 0 <= i < w1.len() implies spec_is_whitespace(#[trigger] w1[i]) by {
            if i > 0 {
                assert(w1[i] == w[i - 1]);
            }
        }
    }
    lemma_slice_next_read(r.source);
    assert(plain_reader(r));
    assert(upcoming(r) =~= w1 + seq![LBRACE] + text + seq![RBRACE] + Seq::<u8>::empty());
    lemma_read_base64(r, obj, w1, text, Seq::empty());
}

} // verus!
