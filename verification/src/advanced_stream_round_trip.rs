//! What the streaming reader gives back of what the printer writes in
//! advanced form.
use vstd::prelude::*;
use crate::base64_round_trip::{
    added, extends, in_region, lemma_decode_digits, lemma_decode_payload, lemma_encode_region, lemma_extends_trans,
    lemma_new_line, lemma_skip_white, only_written, region_char, white,
};
use crate::chars::{
    spec_hex_value, spec_is_dec_digit, spec_is_hex_digit, spec_is_token_char, spec_is_whitespace, spec_low_byte,
    BACKSLASH, BAR, CR, HASH, LF, QUOTE,
};
use crate::depth::DepthManager;
use crate::depth_limit::fits;
use crate::error::SexpError;
use crate::input::{SexpInputStream, SliceSource, EOF, NO_LENGTH};
use crate::output::{OutputState, PrintMode};
use crate::region::{
    after_region, coded_char, coded_digit, decode_from, decoded, digit_value, left_zero, lemma_region_get_char,
    lemma_region_len_text, lemma_region_loop, region_reader,
};
use crate::stream_round_trip::{
    all_fit, lemma_get_char, lemma_list_fits, lemma_skip_char, plain_reader, reader, same_settings, upcoming,
};
use crate::types::{SexpModel, StringModel};

verus! {

// ---------------------------------------------------------------------------
// The reader on the forms of simple strings.

/// A token read up to the first character that is not a token character.
proof fn lemma_token_read<'a>(r: SexpInputStream<SliceSource<'a>>, t: Seq<u8>, acc: Seq<u8>, more: Seq<u8>)
    requires
        plain_reader(r),
        upcoming(r) == t + more,
        forall|i: int| 0 <= i < t.len() ==> #[trigger] spec_is_token_char(t[i]),
        more.len() == 0 || !spec_is_token_char(more[0]),
    ensures
        r.spec_token_loop(acc).1 == Ok::<Seq<u8>, SexpError>(acc + t),
        plain_reader(r.spec_token_loop(acc).0),
        upcoming(r.spec_token_loop(acc).0) == more,
        same_settings(r.spec_token_loop(acc).0, r),
        r.spec_token_loop(acc).0.measure() <= r.measure(),
    decreases t.len(),
{
    if t.len() == 0 {
        assert(t + more =~= more);
        assert(acc + t =~= acc);
        if r.next_char != EOF {
            assert(spec_low_byte(r.next_char) == more[0]);
        }
    } else {
        assert(upcoming(r)[0] == t[0]);
        assert(r.next_char != EOF);
        assert(spec_low_byte(r.next_char) == t[0]);
        lemma_get_char(r);
        let r1 = r.spec_get_char().0;
        assert((t + more).drop_first() =~= t.drop_first() + more);
        lemma_token_read(r1, t.drop_first(), acc.push(t[0]), more);
        assert(acc.push(t[0]) + t.drop_first() =~= acc + t);
    }
}

/// Quoted text `q` (without its quotes) that reads as `data`: each byte as
/// it is (neither `"` nor `\`), or a backslash and a line feed (not followed
/// by a carriage return), which stand for nothing.
pub open spec fn reads_as(q: Seq<u8>, data: Seq<u8>) -> bool
    decreases q.len(),
{
    if q.len() == 0 {
        data.len() == 0
    } else if q[0] == BACKSLASH {
        &&& q.len() >= 2
        &&& q[1] == LF
        &&& (q.len() > 2 ==> q[2] != CR)
        &&& reads_as(q.skip(2), data)
    } else {
        &&& q[0] != QUOTE
        &&& data.len() > 0
        &&& q[0] == data[0]
        &&& reads_as(q.drop_first(), data.drop_first())
    }
}

/// The rest of a quoted string: `q`, then `"`.
#[verifier::spinoff_prover]
#[verifier::rlimit(50)]
proof fn lemma_quoted_read<'a>(r: SexpInputStream<SliceSource<'a>>, q: Seq<u8>, data: Seq<u8>, acc: Seq<u8>, more: Seq<u8>)
    requires
        plain_reader(r),
        reads_as(q, data),
        upcoming(r) == q + seq![QUOTE] + more,
    ensures
        r.spec_quoted_loop(NO_LENGTH, acc).1 == Ok::<Seq<u8>, SexpError>(acc + data),
        plain_reader(r.spec_quoted_loop(NO_LENGTH, acc).0),
        upcoming(r.spec_quoted_loop(NO_LENGTH, acc).0) == more,
        same_settings(r.spec_quoted_loop(NO_LENGTH, acc).0, r),
        r.spec_quoted_loop(NO_LENGTH, acc).0.measure() < r.measure(),
    decreases q.len(),
{
    let all = q + seq![QUOTE] + more;
    assert(upcoming(r)[0] == all[0]);
    assert(r.next_char != EOF);
    assert(r.next_char as u8 == all[0]);
    assert((acc.len() as u32) <= NO_LENGTH);
    if q.len() == 0 {
        assert(all[0] == QUOTE);
        assert(r.next_char == QUOTE as i32);
        lemma_skip_char(r, QUOTE);
        assert(all.drop_first() =~= more);
        assert(acc + data =~= acc);
    } else if q[0] == BACKSLASH {
        assert(r.next_char == BACKSLASH as i32);
        lemma_get_char(r);
        let r1 = r.spec_get_char().0;
        assert(all.drop_first() =~= q.drop_first() + seq![QUOTE] + more);
        assert(upcoming(r1)[0] == LF);
        assert(spec_low_byte(r1.next_char) == LF);
        lemma_get_char(r1);
        let r2 = r1.spec_get_char().0;
        let rest = q.skip(2);
        assert(upcoming(r2) =~= rest + seq![QUOTE] + more);
        assert(upcoming(r2)[0] != CR);
        assert(r2.next_char != CR as i32);
        assert(r1.spec_scan_escape() == (r2, Ok::<crate::input::Escape, SexpError>(crate::input::Escape::Continue)));
        lemma_quoted_read(r2, rest, data, acc, more);
    } else {
        assert(r.next_char != QUOTE as i32 && r.next_char != BACKSLASH as i32);
        lemma_get_char(r);
        let r1 = r.spec_get_char().0;
        assert(all.drop_first() =~= q.drop_first() + seq![QUOTE] + more);
        lemma_quoted_read(r1, q.drop_first(), data.drop_first(), acc.push(data[0]), more);
        assert(acc.push(data[0]) + data.drop_first() =~= acc + data);
    }
}

/// The decoded bytes of a region, up to the character `close` that ends it.
#[verifier::spinoff_prover]
proof fn lemma_region_read<'a>(r: SexpInputStream<SliceSource<'a>>, close: u8, acc: Seq<u8>)
    requires
        region_reader(r),
        after_region(r)[0] == close,
    ensures
        r.spec_region_loop(close, r.byte_size, acc).1 == Ok::<Seq<u8>, SexpError>(acc + seq![r.next_char as u8] + decoded(r)),
        plain_reader(r.spec_region_loop(close, r.byte_size, acc).0),
        upcoming(r.spec_region_loop(close, r.byte_size, acc).0) == after_region(r),
        same_settings(r.spec_region_loop(close, r.byte_size, acc).0, r),
        r.spec_region_loop(close, r.byte_size, acc).0.measure() < r.measure(),
    decreases decoded(r).len(),
{
    let size = r.byte_size;
    assert(0 <= r.next_char <= 255);
    assert(spec_low_byte(r.next_char) == r.next_char as u8);
    let acc2 = acc.push(r.next_char as u8);
    lemma_region_get_char(r);
    let r1 = r.spec_get_char().0;
    crate::region::lemma_region_upcoming(r);
    assert(r.spec_region_loop(close, size, acc) == r1.spec_region_loop(close, size, acc2));
    if decoded(r).len() > 0 {
        crate::region::lemma_region_upcoming(r1);
        assert(upcoming(r1)[0] == decoded(r)[0]);
        lemma_region_read(r1, close, acc2);
        assert(acc2 + seq![r1.next_char as u8] + decoded(r1) =~= acc + seq![r.next_char as u8] + decoded(r));
    } else {
        assert(upcoming(r1) =~= after_region(r));
        assert(r1.next_char == close as i32);
        assert(r1.byte_size == 8);
        assert(r1.spec_region_loop(close, size, acc2) == (r1, Ok::<Seq<u8>, SexpError>(acc2)));
        assert(acc2 =~= acc + seq![r.next_char as u8] + decoded(r));
    }
}

/// A region from its opening delimiter to its closing one.
#[verifier::spinoff_prover]
#[verifier::rlimit(50)]
proof fn lemma_coded_read<'a>(r: SexpInputStream<SliceSource<'a>>, size: u32, inner: Seq<u8>, data: Seq<u8>, more: Seq<u8>)
    requires
        plain_reader(r),
        size == 4 || size == 6,
        forall|i: int| 0 <= i < inner.len() ==> coded_char(size, #[trigger] inner[i]),
        decode_from(size, 0, 0, inner) == data,
        left_zero(size, 0, 0, inner),
        data.len() > 0,
        upcoming(r) == seq![crate::input::region_delimiter(size)] + inner + seq![crate::input::region_delimiter(size)] + more,
    ensures
        r.spec_scan_coded_string(NO_LENGTH, size).1 == Ok::<Seq<u8>, SexpError>(data),
        plain_reader(r.spec_scan_coded_string(NO_LENGTH, size).0),
        upcoming(r.spec_scan_coded_string(NO_LENGTH, size).0) == more,
        same_settings(r.spec_scan_coded_string(NO_LENGTH, size).0, r),
        r.spec_scan_coded_string(NO_LENGTH, size).0.measure() < r.measure(),
{
    let delim = crate::input::region_delimiter(size);
    let all = seq![delim] + inner + seq![delim] + more;
    assert(upcoming(r)[0] == delim);
    assert(r.next_char == delim as i32);
    let rem = r.source.remaining();
    assert(rem =~= all.drop_first());
    let after = seq![delim] + more;
    assert(rem =~= inner + after);
    assert(!coded_char(size, delim));
    lemma_region_len_text(size, inner, after);
    let w = r.with_byte_size(size);
    assert(w.spec_skip_char(delim) == w.spec_get_char_loop());
    lemma_region_loop(w);
    let s2 = w.spec_get_char_loop().0;
    crate::region::lemma_region_upcoming(s2);
    assert(upcoming(s2) == data + after);
    assert(after_region(s2) == after);
    assert(upcoming(s2)[0] == data[0]);
    lemma_region_read(s2, delim, Seq::empty());
    let s3 = s2.spec_region_loop(delim, size, Seq::empty()).0;
    assert(Seq::<u8>::empty() + seq![s2.next_char as u8] + decoded(s2) =~= data);
    assert(upcoming(s3)[0] == delim);
    lemma_skip_char(s3, delim);
    assert(after.drop_first() =~= more);
}

/// The four forms of a simple string in advanced form, by tag: a token, a
/// quoted string, hexadecimal and base64.
pub open spec fn form_bytes(tag: u8, inner: Seq<u8>) -> Seq<u8> {
    if tag == 0 {
        inner
    } else if tag == 1 {
        seq![QUOTE] + inner + seq![QUOTE]
    } else if tag == 2 {
        seq![HASH] + inner + seq![HASH]
    } else {
        seq![BAR] + inner + seq![BAR]
    }
}

/// The bits per character of the coded forms.
pub open spec fn form_size(tag: u8) -> u32 {
    if tag == 2 { 4 } else { 6 }
}

/// What the text of a form reads as.
pub open spec fn form_reads_as(tag: u8, inner: Seq<u8>, data: Seq<u8>) -> bool {
    if tag == 0 {
        &&& inner == data
        &&& data.len() > 0
        &&& !spec_is_dec_digit(data[0])
        &&& forall|i: int| 0 <= i < data.len() ==> #[trigger] spec_is_token_char(data[i])
    } else if tag == 1 {
        reads_as(inner, data)
    } else {
        &&& tag <= 3
        &&& data.len() > 0
        &&& forall|i: int| 0 <= i < inner.len() ==> coded_char(form_size(tag), #[trigger] inner[i])
        &&& decode_from(form_size(tag), 0, 0, inner) == data
        &&& left_zero(form_size(tag), 0, 0, inner)
    }
}

/// A simple string in any of the four forms, after whitespace.
#[verifier::spinoff_prover]
#[verifier::rlimit(50)]
proof fn lemma_simple_read<'a>(r: SexpInputStream<SliceSource<'a>>, w: Seq<u8>, tag: u8, inner: Seq<u8>, data: Seq<u8>, more: Seq<u8>)
    requires
        plain_reader(r),
        white(w),
        form_reads_as(tag, inner, data),
        upcoming(r) == w + form_bytes(tag, inner) + more,
        tag == 0 ==> more.len() == 0 || !spec_is_token_char(more[0]),
    ensures
        r.spec_scan_simple_string().1 == Ok::<Seq<u8>, SexpError>(data),
        plain_reader(r.spec_scan_simple_string().0),
        upcoming(r.spec_scan_simple_string().0) == more,
        same_settings(r.spec_scan_simple_string().0, r),
        r.spec_scan_simple_string().0.measure() < r.measure(),
{
    let f = form_bytes(tag, inner);
    let fm = f + more;
    assert(f.len() > 0 && fm[0] == f[0]);
    if tag == 0 {
        assert(spec_is_token_char(data[0]));
    }
    assert(!spec_is_whitespace(fm[0]));
    assert(upcoming(r) =~= w + fm);
    lemma_skip_white(r, w, fm);
    let s1 = r.spec_skip_white_space().0;
    assert(upcoming(s1)[0] == f[0]);
    assert(s1.next_char != EOF);
    let b = spec_low_byte(s1.next_char);
    assert(b == f[0]);
    if tag == 0 {
        assert(Seq::<u8>::empty() + fm =~= fm);
        lemma_skip_white(s1, Seq::empty(), fm);
        assert(s1.spec_skip_white_space().0 == s1);
        lemma_token_read(s1, data, Seq::empty(), more);
        assert(Seq::<u8>::empty() + data =~= data);
    } else {
        assert(!spec_is_token_char(b) && !spec_is_dec_digit(b));
        if tag == 1 {
            assert(s1.next_char == QUOTE as i32);
            lemma_skip_char(s1, QUOTE);
            let s2 = s1.spec_skip_char(QUOTE).0;
            assert(fm.drop_first() =~= inner + seq![QUOTE] + more);
            lemma_quoted_read(s2, inner, data, Seq::empty(), more);
            assert(Seq::<u8>::empty() + data =~= data);
        } else {
            let size = form_size(tag);
            assert(crate::input::region_delimiter(size) == f[0]);
            assert(fm =~= seq![f[0]] + inner + seq![f[0]] + more);
            lemma_coded_read(s1, size, inner, data, more);
        }
    }
}

// ---------------------------------------------------------------------------
// Decoding region text.

/// The pending bits after the region text `t` is decoded.
pub open spec fn dstate(size: u32, n: u32, bits: u32, t: Seq<u8>) -> (u32, u32)
    decreases t.len(),
{
    if t.len() == 0 {
        (n, bits)
    } else if coded_digit(size, t[0]) {
        let b2 = (bits << size) | digit_value(size, t[0]);
        let n2 = (n + size) as u32;
        if n2 >= 8 {
            dstate(size, (n2 - 8) as u32, b2, t.drop_first())
        } else {
            dstate(size, n2, b2, t.drop_first())
        }
    } else {
        dstate(size, n, bits, t.drop_first())
    }
}

proof fn lemma_decode_concat(size: u32, n: u32, bits: u32, a: Seq<u8>, b: Seq<u8>)
    ensures
        decode_from(size, n, bits, a + b) == decode_from(size, n, bits, a) + decode_from(
            size,
            dstate(size, n, bits, a).0,
            dstate(size, n, bits, a).1,
            b,
        ),
        left_zero(size, n, bits, a + b) == left_zero(size, dstate(size, n, bits, a).0, dstate(size, n, bits, a).1, b),
        dstate(size, n, bits, a + b) == dstate(size, dstate(size, n, bits, a).0, dstate(size, n, bits, a).1, b),
    decreases a.len(),
{
    if a.len() == 0 {
        assert(a + b =~= b);
        assert(decode_from(size, n, bits, a) + decode_from(size, n, bits, b) =~= decode_from(size, n, bits, b));
    } else {
        assert((a + b)[0] == a[0]);
        assert((a + b).drop_first() =~= a.drop_first() + b);
        let b2 = (bits << size) | digit_value(size, a[0]);
        let n2 = (n + size) as u32;
        if coded_digit(size, a[0]) {
            if n2 >= 8 {
                lemma_decode_concat(size, (n2 - 8) as u32, b2, a.drop_first(), b);
            } else {
                lemma_decode_concat(size, n2, b2, a.drop_first(), b);
            }
        } else {
            lemma_decode_concat(size, n, bits, a.drop_first(), b);
        }
        assert(decode_from(size, n, bits, a + b) =~= decode_from(size, n, bits, a) + decode_from(
            size,
            dstate(size, n, bits, a).0,
            dstate(size, n, bits, a).1,
            b,
        ));
    }
}

/// Whitespace decodes to nothing and leaves the pending bits as they are.
proof fn lemma_decode_white(size: u32, n: u32, bits: u32, w: Seq<u8>)
    requires
        white(w),
    ensures
        decode_from(size, n, bits, w) == Seq::<u8>::empty(),
        dstate(size, n, bits, w) == (n, bits),
        forall|i: int| 0 <= i < w.len() ==> coded_char(size, #[trigger] w[i]),
    decreases w.len(),
{
    if w.len() > 0 {
        assert(spec_is_whitespace(w[0]));
        assert(!coded_digit(size, w[0]));
        assert(white(w.drop_first())) by {
            assert forall|i: int| 0 <= i < w.drop_first().len() implies spec_is_whitespace(#[trigger] w.drop_first()[i]) by {
                assert(spec_is_whitespace(w[i + 1]));
            }
        }
        lemma_decode_white(size, n, bits, w.drop_first());
        assert forall|i: int| 0 <= i < w.len() implies coded_char(size, #[trigger] w[i]) by {
            assert(spec_is_whitespace(w[i]));
        }
    }
}

/// The bits left over are zero exactly where the final pending bits are.
proof fn lemma_left_zero_dstate(size: u32, n: u32, bits: u32, t: Seq<u8>)
    ensures
        left_zero(size, n, bits, t) == ({
            let (n1, b1) = dstate(size, n, bits, t);
            n1 == 0 || (((1u32 << n1) - 1) as u32) & b1 == 0
        }),
    decreases t.len(),
{
    if t.len() > 0 {
        let b2 = (bits << size) | digit_value(size, t[0]);
        let n2 = (n + size) as u32;
        if coded_digit(size, t[0]) {
            if n2 >= 8 {
                lemma_left_zero_dstate(size, (n2 - 8) as u32, b2, t.drop_first());
            } else {
                lemma_left_zero_dstate(size, n2, b2, t.drop_first());
            }
        } else {
            lemma_left_zero_dstate(size, n, bits, t.drop_first());
        }
    }
}

proof fn lemma_hex_digit_value(v: u32)
    requires
        v < 16,
    ensures
        spec_is_hex_digit(crate::chars::spec_hex_digit(v)),
        spec_hex_value(crate::chars::spec_hex_digit(v)) as u32 == v,
{
}

proof fn lemma_decode_one(size: u32, n: u32, bits: u32, e: u8)
    requires
        coded_digit(size, e),
    ensures
        decode_from(size, n, bits, seq![e]) == (if (n + size) as u32 >= 8 {
            seq![((((bits << size) | digit_value(size, e)) >> (((n + size) as u32 - 8) as u32)) & 0xff) as u8]
        } else {
            Seq::<u8>::empty()
        }),
        dstate(size, n, bits, seq![e]) == (if (n + size) as u32 >= 8 {
            (((n + size) as u32 - 8) as u32, (bits << size) | digit_value(size, e))
        } else {
            ((n + size) as u32, (bits << size) | digit_value(size, e))
        }),
{
    assert(seq![e].drop_first() =~= Seq::<u8>::empty());
    assert(seq![e][0] == e);
    let b2 = (bits << size) | digit_value(size, e);
    let n2 = (n + size) as u32;
    assert(decode_from(size, n2, b2, Seq::<u8>::empty()) == Seq::<u8>::empty());
    assert(dstate(size, n2, b2, Seq::<u8>::empty()) == (n2, b2));
    assert(decode_from(size, (n2 - 8) as u32, b2, Seq::<u8>::empty()) == Seq::<u8>::empty());
    assert(dstate(size, (n2 - 8) as u32, b2, Seq::<u8>::empty()) == ((n2 - 8) as u32, b2));
    if n2 >= 8 {
        assert(seq![((b2 >> ((n2 - 8) as u32)) & 0xff) as u8] + Seq::<u8>::empty() =~= seq![((b2 >> ((n2 - 8) as u32)) & 0xff) as u8]);
    }
}

/// One turn of the encoder's loop in hexadecimal: a line break where the
/// line is full, then one digit.
proof fn lemma_hex_emit(s: OutputState, c: u8) -> (t: OutputState)
    requires
        s.byte_size == 4,
        4 <= s.n_bits < 12,
    ensures
        s.spec_emit_loop(c) == t.spec_emit_loop(c),
        t.n_bits == s.n_bits - 4,
        t.bits == s.bits,
        t.byte_size == 4,
        t.mode == s.mode,
        t.max_column == s.max_column,
        t.indent == s.indent,
        t.depth == s.depth,
        extends(t, s),
        added(t, s).len() >= 1,
        white(added(t, s).drop_last()),
        added(t, s).last() == s.encoded_char(),
{
    let wrap = s.max_column > 0 && s.column >= s.max_column;
    let s1 = if wrap { s.spec_new_line(s.mode) } else { s };
    let e = s.encoded_char();
    let s2 = s1.spec_put_char(e);
    let t = OutputState { n_bits: (s.n_bits - 4) as u32, base64_count: crate::output::next_u32(s.base64_count), ..s2 };
    let w: Seq<u8> = if wrap { lemma_new_line(s, s.mode); added(s1, s) } else { Seq::empty() };
    assert(white(w));
    assert(s1.out =~= s.out + w);
    assert(t.out =~= s.out + w + seq![e]);
    assert(t.out.take(s.out.len() as int) =~= s.out);
    assert(added(t, s) =~= w + seq![e]);
    assert(added(t, s).drop_last() =~= w);
    t
}

/// A byte through the encoder in hexadecimal: two digits (each perhaps
/// after a line break) that decode back to it.
#[verifier::spinoff_prover]
#[verifier::rlimit(50)]
proof fn lemma_hex_byte(s: OutputState, c: u8)
    requires
        s.byte_size == 4,
        s.n_bits == 0,
    ensures
        s.spec_var_put_char(c).n_bits == 0,
        s.spec_var_put_char(c).byte_size == 4,
        s.spec_var_put_char(c).mode == s.mode,
        s.spec_var_put_char(c).max_column == s.max_column,
        s.spec_var_put_char(c).indent == s.indent,
        s.spec_var_put_char(c).depth == s.depth,
        extends(s.spec_var_put_char(c), s),
        forall|i: int| 0 <= i < added(s.spec_var_put_char(c), s).len() ==> coded_char(4, #[trigger] added(s.spec_var_put_char(c), s)[i]),
        forall|b: u32| #[trigger] decode_from(4, 0, b, added(s.spec_var_put_char(c), s)) == seq![c],
        forall|b: u32| (#[trigger] dstate(4, 0, b, added(s.spec_var_put_char(c), s))).0 == 0,
{
    let sb = s.bits;
    let bb = (sb << 8u32) | (c as u32);
    let s0 = OutputState { bits: bb, n_bits: 8, ..s };
    assert(s.spec_var_put_char(c) == s0.spec_emit_loop(c));
    let t1 = lemma_hex_emit(s0, c);
    let t2 = lemma_hex_emit(t1, c);
    assert(t2.spec_emit_loop(c) == t2);
    let t = s.spec_var_put_char(c);
    assert(t == t2);
    assert(s0.out == s.out);
    assert(added(s0, s) =~= Seq::<u8>::empty());
    assert(s0.out.take(s.out.len() as int) =~= s.out);
    lemma_extends_trans(s0, t1, t2);
    let a1 = added(t1, s0);
    let a2 = added(t2, t1);
    let w1 = a1.drop_last();
    let w2 = a2.drop_last();
    let h1 = s0.encoded_char();
    let h2 = t1.encoded_char();
    let v1 = (bb >> 4u32) & 0xf;
    let v2 = (bb >> 0u32) & 0xf;
    assert(v1 < 16 && v2 < 16) by (bit_vector)
        requires v1 == (bb >> 4u32) & 0xf, v2 == (bb >> 0u32) & 0xf;
    assert(h1 == crate::chars::spec_hex_digit(v1));
    assert(h2 == crate::chars::spec_hex_digit(v2));
    lemma_hex_digit_value(v1);
    lemma_hex_digit_value(v2);
    assert(a1 =~= w1 + seq![h1]);
    assert(a2 =~= w2 + seq![h2]);
    let all = added(t, s);
    assert(all =~= w1 + seq![h1] + w2 + seq![h2]);
    assert forall|i: int| 0 <= i < all.len() implies coded_char(4, #[trigger] all[i]) by {
        lemma_decode_white(4, 0, 0, w1);
        lemma_decode_white(4, 0, 0, w2);
        if i < w1.len() {
            assert(all[i] == w1[i]);
        } else if i == w1.len() {
            assert(all[i] == h1);
        } else if i < w1.len() + 1 + w2.len() {
            assert(all[i] == w2[i - w1.len() - 1]);
        } else {
            assert(all[i] == h2);
        }
    }
    assert forall|b: u32|
        #![trigger decode_from(4, 0, b, all)]
        #![trigger dstate(4, 0, b, all)]
        decode_from(4, 0, b, all) == seq![c] && dstate(4, 0, b, all).0 == 0 by {
        lemma_decode_white(4, 0, b, w1);
        lemma_decode_concat(4, 0, b, w1, seq![h1] + w2 + seq![h2]);
        assert(w1 + seq![h1] + w2 + seq![h2] =~= w1 + (seq![h1] + w2 + seq![h2]));
        lemma_decode_one(4, 0, b, h1);
        let b1 = (b << 4u32) | v1;
        lemma_decode_concat(4, 0, b, seq![h1], w2 + seq![h2]);
        assert(seq![h1] + w2 + seq![h2] =~= seq![h1] + (w2 + seq![h2]));
        lemma_decode_white(4, 4, b1, w2);
        lemma_decode_concat(4, 4, b1, w2, seq![h2]);
        lemma_decode_one(4, 4, b1, h2);
        let b2 = (b1 << 4u32) | v2;
        assert((((b2 >> 0u32) & 0xff) as u8) == c) by (bit_vector)
            requires
                b1 == (b << 4u32) | v1,
                b2 == (b1 << 4u32) | v2,
                v1 == (bb >> 4u32) & 0xf,
                v2 == (bb >> 0u32) & 0xf,
                bb == (sb << 8u32) | (c as u32);
        assert(Seq::<u8>::empty() + (Seq::<u8>::empty() + (Seq::<u8>::empty() + seq![c])) =~= seq![c]);
    }
}

proof fn lemma_coded_concat(size: u32, a: Seq<u8>, b: Seq<u8>)
    requires
        forall|i: int| 0 <= i < a.len() ==> coded_char(size, #[trigger] a[i]),
        forall|i: int| 0 <= i < b.len() ==> coded_char(size, #[trigger] b[i]),
    ensures
        forall|i: int| 0 <= i < (a + b).len() ==> coded_char(size, #[trigger] (a + b)[i]),
{
    assert forall|i: int| 0 <= i < (a + b).len() implies coded_char(size, #[trigger] (a + b)[i]) by {
        if i < a.len() {
            assert((a + b)[i] == a[i]);
        } else {
            assert((a + b)[i] == b[i - a.len()]);
        }
    }
}

/// Bytes through the encoder in hexadecimal: digits and whitespace that
/// decode back to the bytes, with no bits left over.
proof fn lemma_hex_text(s: OutputState, data: Seq<u8>)
    requires
        s.byte_size == 4,
        s.n_bits == 0,
    ensures
        s.spec_var_put_bytes(data).n_bits == 0,
        s.spec_var_put_bytes(data).byte_size == 4,
        s.spec_var_put_bytes(data).mode == s.mode,
        s.spec_var_put_bytes(data).max_column == s.max_column,
        s.spec_var_put_bytes(data).indent == s.indent,
        s.spec_var_put_bytes(data).depth == s.depth,
        extends(s.spec_var_put_bytes(data), s),
        forall|i: int| 0 <= i < added(s.spec_var_put_bytes(data), s).len() ==> coded_char(4, #[trigger] added(s.spec_var_put_bytes(data), s)[i]),
        forall|b: u32| #[trigger] decode_from(4, 0, b, added(s.spec_var_put_bytes(data), s)) == data,
        forall|b: u32| (#[trigger] dstate(4, 0, b, added(s.spec_var_put_bytes(data), s))).0 == 0,
    decreases data.len(),
{
    let t = s.spec_var_put_bytes(data);
    if data.len() == 0 {
        assert(t == s);
        assert(s.out.take(s.out.len() as int) =~= s.out);
        assert(added(t, s) =~= Seq::<u8>::empty());
        assert forall|b: u32|
            #![trigger decode_from(4, 0, b, added(t, s))]
            #![trigger dstate(4, 0, b, added(t, s))]
            decode_from(4, 0, b, added(t, s)) == data && dstate(4, 0, b, added(t, s)).0 == 0 by {
            assert(data =~= Seq::<u8>::empty());
        }
    } else {
        let t1 = s.spec_var_put_char(data[0]);
        lemma_hex_byte(s, data[0]);
        lemma_hex_text(t1, data.drop_first());
        assert(t == t1.spec_var_put_bytes(data.drop_first()));
        lemma_extends_trans(s, t1, t);
        let a1 = added(t1, s);
        let a2 = added(t, t1);
        lemma_coded_concat(4, a1, a2);
        assert forall|b: u32|
            #![trigger decode_from(4, 0, b, added(t, s))]
            #![trigger dstate(4, 0, b, added(t, s))]
            decode_from(4, 0, b, added(t, s)) == data && dstate(4, 0, b, added(t, s)).0 == 0 by {
            lemma_decode_concat(4, 0, b, a1, a2);
            let d1 = dstate(4, 0, b, a1);
            assert(d1.0 == 0);
            assert(decode_from(4, 0, b, a1) == seq![data[0]]);
            assert(decode_from(4, 0, d1.1, a2) == data.drop_first());
            assert(seq![data[0]] + data.drop_first() =~= data);
        }
    }
}

/// A delimiter written with byte size 8: a line break first where the line
/// is full.
proof fn lemma_put_delim(s: OutputState, c: u8)
    requires
        s.byte_size == 8,
        s.n_bits == 0,
        c == crate::chars::LBRACE || c == crate::chars::RBRACE || c == HASH || c == BAR,
    ensures
        s.spec_var_put_char(c).byte_size == 8,
        s.spec_var_put_char(c).n_bits == 0,
        s.spec_var_put_char(c).mode == s.mode,
        s.spec_var_put_char(c).max_column == s.max_column,
        s.spec_var_put_char(c).indent == s.indent,
        s.spec_var_put_char(c).depth == s.depth,
        extends(s.spec_var_put_char(c), s),
        added(s.spec_var_put_char(c), s).len() >= 1,
        white(added(s.spec_var_put_char(c), s).drop_last()),
        added(s.spec_var_put_char(c), s).last() == c,
{
    let sb = s.bits;
    let b = (sb << 8u32) | (c as u32);
    let s0 = OutputState { bits: b, n_bits: 8, ..s };
    assert((b & 0xff) as u8 == c) by (bit_vector)
        requires b == (sb << 8u32) | (c as u32);
    assert(s0.encoded_char() == c);
    let wrap = s.max_column > 0 && s.column >= s.max_column;
    let s1 = if wrap { s0.spec_new_line(s0.mode) } else { s0 };
    let t = OutputState { n_bits: 0, base64_count: crate::output::next_u32(s0.base64_count), ..s1.spec_put_char(c) };
    assert(t.spec_emit_loop(c) == t);
    assert(s.spec_var_put_char(c) == t);
    let w: Seq<u8> = if wrap { lemma_new_line(s0, s0.mode); added(s1, s0) } else { Seq::empty() };
    assert(s1.out =~= s.out + w);
    assert(t.out =~= s.out + w + seq![c]);
    assert(t.out.take(s.out.len() as int) =~= s.out);
    assert(added(t, s) =~= w + seq![c]);
    assert(added(t, s).drop_last() =~= w);
}

/// Bytes written as they are.
proof fn lemma_put_bytes_plain(s: OutputState, data: Seq<u8>)
    ensures
        only_written(s.spec_put_bytes(data), s),
        added(s.spec_put_bytes(data), s) == data,
    decreases data.len(),
{
    if data.len() == 0 {
        assert(s.out.take(s.out.len() as int) =~= s.out);
        assert(added(s, s) =~= data);
    } else {
        let s1 = s.spec_put_char(data[0]);
        lemma_put_bytes_plain(s1, data.drop_first());
        assert(s1.out.take(s.out.len() as int) =~= s.out);
        assert(added(s1, s) =~= seq![data[0]]);
        lemma_extends_trans(s, s1, s.spec_put_bytes(data));
        assert(seq![data[0]] + data.drop_first() =~= data);
    }
}

proof fn lemma_put_char_plain(s: OutputState, c: u8)
    ensures
        only_written(s.spec_put_char(c), s),
        added(s.spec_put_char(c), s) == seq![c],
{
    assert(s.spec_put_char(c).out.take(s.out.len() as int) =~= s.out);
    assert(added(s.spec_put_char(c), s) =~= seq![c]);
}

/// The inside of a quoted string as the printer writes it: the bytes, with
/// a backslash and a line feed before a byte near the end of a line.
proof fn lemma_quoted_text(s: OutputState, data: Seq<u8>)
    requires
        crate::output::all_quotable(data),
    ensures
        only_written(s.spec_quoted_loop(data), s),
        reads_as(added(s.spec_quoted_loop(data), s), data),
    decreases data.len(),
{
    let t = s.spec_quoted_loop(data);
    if data.len() == 0 {
        assert(s.out.take(s.out.len() as int) =~= s.out);
        assert(added(s, s) =~= Seq::<u8>::empty());
    } else {
        let d0 = data[0];
        assert(spec_is_token_char(d0) || d0 == crate::chars::SPACE);
        let cont = s.max_column > 0 && s.column >= crate::output::sat_sub_u32(s.max_column, 2);
        let s1 = if cont {
            OutputState { column: 0, ..s.spec_put_char(BACKSLASH).spec_put_char(LF) }
        } else {
            s
        };
        let p: Seq<u8> = if cont { seq![BACKSLASH, LF] } else { Seq::empty() };
        assert(s1.out =~= s.out + p);
        let s2 = s1.spec_put_char(d0);
        assert(forall|i: int| 0 <= i < data.drop_first().len() ==> (spec_is_token_char(#[trigger] data.drop_first()[i]) || data.drop_first()[i] == crate::chars::SPACE)) by {
            assert forall|i: int| 0 <= i < data.drop_first().len() implies (spec_is_token_char(#[trigger] data.drop_first()[i]) || data.drop_first()[i] == crate::chars::SPACE) by {
                assert(data.drop_first()[i] == data[i + 1]);
            }
        }
        lemma_quoted_text(s2, data.drop_first());
        assert(s2.out =~= s.out + p + seq![d0]);
        assert(s2.out.take(s.out.len() as int) =~= s.out);
        assert(added(s2, s) =~= p + seq![d0]);
        lemma_extends_trans(s, s2, t);
        let rest = added(t, s2);
        let q = added(t, s);
        assert(q =~= p + seq![d0] + rest);
        assert(reads_as(seq![d0] + rest, data)) by {
            assert((seq![d0] + rest)[0] == d0);
            assert((seq![d0] + rest).drop_first() =~= rest);
        }
        if cont {
            assert(q[0] == BACKSLASH && q[1] == LF && q[2] == d0);
            assert(q.skip(2) =~= seq![d0] + rest);
        }
    }
}

proof fn lemma_pad_frame(s: OutputState)
    ensures
        s.spec_pad_loop().depth == s.depth,
        s.spec_pad_loop().indent == s.indent,
        s.spec_pad_loop().max_column == s.max_column,
        s.spec_pad_loop().mode == s.mode,
        s.spec_pad_loop().byte_size == s.byte_size,
        s.spec_pad_loop().n_bits == s.n_bits,
    decreases (4 - s.base64_count % 4) % 4,
{
    if s.base64_count % 4 != 0 {
        lemma_new_line(s, s.mode);
        let s1 = if s.max_column > 0 && s.column >= s.max_column { s.spec_new_line(s.mode) } else { s };
        let s2 = OutputState { base64_count: crate::output::next_u32(s.base64_count), ..s1.spec_put_char(crate::chars::EQUALS) };
        if (4 - s2.base64_count % 4) % 4 < (4 - s.base64_count % 4) % 4 {
            lemma_pad_frame(s2);
        }
    }
}

proof fn lemma_flush_frame(s: OutputState)
    ensures
        s.spec_flush().depth == s.depth,
        s.spec_flush().indent == s.indent,
        s.spec_flush().max_column == s.max_column,
        s.spec_flush().mode == s.mode,
        s.spec_flush().byte_size == s.byte_size,
{
    let s1 = if s.n_bits > 0 {
        OutputState {
            n_bits: 0,
            base64_count: crate::output::next_u32(s.base64_count),
            ..s.spec_put_char(crate::chars::spec_base64_digit((s.bits << ((6 - s.n_bits) as u32)) & 0x3f))
        }
    } else {
        s
    };
    lemma_pad_frame(s1);
}

/// What the printer writes for a simple string in advanced form with byte
/// size 8: whitespace, then one of the four forms, which reads as the data.
#[verifier::spinoff_prover]
#[verifier::rlimit(80)]
proof fn lemma_print_simple(st: OutputState, data: Seq<u8>) -> (res: (Seq<u8>, u8, Seq<u8>))
    requires
        st.byte_size == 8,
        st.n_bits == 0,
    ensures
        st.spec_simple(data).1 is Ok,
        st.spec_simple(data).0.byte_size == 8,
        st.spec_simple(data).0.n_bits == 0,
        st.spec_simple(data).0.max_column == st.max_column,
        st.spec_simple(data).0.indent == st.indent,
        st.spec_simple(data).0.depth == st.depth,
        extends(st.spec_simple(data).0, st),
        added(st.spec_simple(data).0, st) == res.0 + form_bytes(res.1, res.2),
        white(res.0),
        form_reads_as(res.1, res.2, data),
{
    let t = st.spec_simple(data).0;
    if st.spec_can_print_as_token(data) {
        let wrap = st.max_column > 0 && st.column > crate::output::sat_sub_u32(st.max_column, data.len() as u32);
        let s1 = if wrap { st.spec_new_line(PrintMode::Advanced) } else { st };
        let w: Seq<u8> = if wrap { lemma_new_line(st, PrintMode::Advanced); added(s1, st) } else {
            assert(st.out.take(st.out.len() as int) =~= st.out);
            assert(added(st, st) =~= Seq::<u8>::empty());
            Seq::empty()
        };
        assert(white(w));
        lemma_put_bytes_plain(s1, data);
        lemma_extends_trans(st, s1, t);
        assert(form_bytes(0, data) == data);
        assert forall|i: int| 0 <= i < data.len() implies #[trigger] spec_is_token_char(data[i]) by {
        }
        (w, 0u8, data)
    } else if crate::output::all_quotable(data) {
        let s1 = st.spec_put_char(QUOTE);
        lemma_put_char_plain(st, QUOTE);
        lemma_quoted_text(s1, data);
        let s2 = s1.spec_quoted_loop(data);
        lemma_put_char_plain(s2, QUOTE);
        lemma_extends_trans(st, s1, s2);
        lemma_extends_trans(st, s2, t);
        let q = added(s2, s1);
        assert(added(t, st) =~= form_bytes(1, q));
        assert(added(t, st) =~= Seq::<u8>::empty() + form_bytes(1, q));
        (Seq::empty(), 1u8, q)
    } else if data.len() <= 4 {
        let sa = st.spec_put_char(HASH);
        lemma_put_char_plain(st, HASH);
        let sb = sa.spec_change_output_byte_size(4, PrintMode::Advanced).0;
        assert(sb.out == sa.out);
        lemma_hex_text(sb, data);
        let sc = sb.spec_var_put_bytes(data);
        assert(sc.spec_flush() == sc);
        let se = sc.spec_change_output_byte_size(8, PrintMode::Advanced).0;
        lemma_put_char_plain(se, HASH);
        let text = added(sc, sb);
        assert(sb.out.take(sa.out.len() as int) =~= sa.out);
        assert(added(sb, sa) =~= Seq::<u8>::empty());
        lemma_extends_trans(st, sa, sb);
        lemma_extends_trans(st, sb, sc);
        assert(se.out == sc.out);
        assert(se.out.take(sc.out.len() as int) =~= sc.out);
        lemma_extends_trans(st, sc, se);
        lemma_extends_trans(st, se, t);
        assert(added(t, st) =~= Seq::<u8>::empty() + form_bytes(2, text));
        assert(decode_from(4, 0, 0, text) == data);
        lemma_left_zero_dstate(4, 0, 0, text);
        assert(dstate(4, 0, 0, text).0 == 0);
        assert(data.len() > 0);
        (Seq::empty(), 2u8, text)
    } else {
        let sa = st.spec_var_put_char(BAR);
        lemma_put_delim(st, BAR);
        let sb = sa.spec_change_output_byte_size(6, PrintMode::Advanced).0;
        assert(in_region(sb) && sb.n_bits == 0);
        lemma_encode_region(sb, data);
        let sc = sb.spec_var_put_bytes(data).spec_flush();
        crate::depth_limit::lemma_var_put_bytes_frame(sb, data);
        lemma_flush_frame(sb.spec_var_put_bytes(data));
        let sd = sc.spec_change_output_byte_size(8, PrintMode::Advanced).0;
        lemma_put_delim(sd, BAR);
        let w0 = added(sa, st).drop_last();
        let text = added(sc, sb);
        let w1 = added(t, sd).drop_last();
        assert(added(sa, st) =~= w0 + seq![BAR]);
        assert(added(t, sd) =~= w1 + seq![BAR]);
        assert(sb.out.take(sa.out.len() as int) =~= sa.out);
        assert(added(sb, sa) =~= Seq::<u8>::empty());
        assert(sd.out.take(sc.out.len() as int) =~= sc.out);
        assert(added(sd, sc) =~= Seq::<u8>::empty());
        lemma_extends_trans(st, sa, sb);
        lemma_extends_trans(st, sb, sc);
        lemma_extends_trans(st, sc, sd);
        lemma_extends_trans(st, sd, t);
        let inner = text + w1;
        assert(added(t, st) =~= w0 + form_bytes(3, inner));
        lemma_decode_payload(0, 0, text);
        lemma_decode_digits(0, data);
        lemma_decode_concat(6, 0, 0, text, w1);
        lemma_decode_white(6, dstate(6, 0, 0, text).0, dstate(6, 0, 0, text).1, w1);
        lemma_left_zero_dstate(6, dstate(6, 0, 0, text).0, dstate(6, 0, 0, text).1, w1);
        lemma_left_zero_dstate(6, 0, 0, text);
        assert(text + Seq::<u8>::empty() =~= text);
        assert(data + Seq::<u8>::empty() =~= data);
        assert forall|i: int| 0 <= i < text.len() implies coded_char(6, #[trigger] text[i]) by {
            assert(region_char(text[i]));
        }
        lemma_coded_concat(6, text, w1);
        (w0, 3u8, inner)
    }
}

// ---------------------------------------------------------------------------
// Strings and lists, printed and read back.

proof fn lemma_prefix(st: OutputState)
    ensures
        only_written(st.spec_adv_prefix(), st),
        white(added(st.spec_adv_prefix(), st)),
{
    if st.max_column > 0 && st.column > crate::output::sat_sub_u32(st.max_column, 4) {
        lemma_new_line(st, PrintMode::Advanced);
    } else {
        assert(st.out.take(st.out.len() as int) =~= st.out);
        assert(added(st, st) =~= Seq::<u8>::empty());
    }
}

/// Reading an object after whitespace is reading it from where the
/// whitespace ends.
proof fn lemma_object_after_white<'a>(r: SexpInputStream<SliceSource<'a>>, s1: SexpInputStream<SliceSource<'a>>)
    requires
        r.spec_skip_white_space().0 == s1,
        r.spec_skip_white_space().1 is Ok,
        s1.spec_skip_white_space() == (s1, Ok::<(), SexpError>(())),
        s1.next_char != crate::chars::LBRACE as i32,
        s1.measure() <= r.measure(),
    ensures
        r.spec_scan_object() == s1.spec_scan_object(),
{
}

/// `[hint]` read up to and past the `]`.
#[verifier::spinoff_prover]
#[verifier::rlimit(50)]
proof fn lemma_hint_read<'a>(r1: SexpInputStream<SliceSource<'a>>, h: Seq<u8>, hw: Seq<u8>, htag: u8, hinner: Seq<u8>, x3: Seq<u8>)
    requires
        plain_reader(r1),
        white(hw),
        form_reads_as(htag, hinner, h),
        upcoming(r1) == seq![crate::chars::LBRACKET] + hw + form_bytes(htag, hinner) + seq![crate::chars::RBRACKET] + x3,
    ensures
        ({
            let (s1, e1) = r1.spec_skip_char(crate::chars::LBRACKET);
            let (s2, e2) = s1.spec_scan_simple_string();
            let (s3, e3) = s2.spec_skip_white_space();
            let (s4, e4) = s3.spec_skip_char(crate::chars::RBRACKET);
            &&& e1 is Ok
            &&& e2 == Ok::<Seq<u8>, SexpError>(h)
            &&& e3 is Ok
            &&& e4 is Ok
            &&& plain_reader(s4)
            &&& upcoming(s4) == x3
            &&& same_settings(s4, r1)
            &&& s4.measure() < r1.measure()
        }),
{
    let hf = form_bytes(htag, hinner);
    assert(upcoming(r1)[0] == crate::chars::LBRACKET);
    assert(r1.next_char == crate::chars::LBRACKET as i32);
    lemma_skip_char(r1, crate::chars::LBRACKET);
    let r2 = r1.spec_skip_char(crate::chars::LBRACKET).0;
    let x2 = seq![crate::chars::RBRACKET] + x3;
    assert(upcoming(r2) =~= hw + hf + x2);
    lemma_simple_read(r2, hw, htag, hinner, h, x2);
    let r3 = r2.spec_scan_simple_string().0;
    assert(upcoming(r3)[0] == crate::chars::RBRACKET);
    crate::stream_round_trip::lemma_no_white(r3);
    lemma_skip_char(r3, crate::chars::RBRACKET);
    assert(x2.drop_first() =~= x3);
}

/// String data after whitespace, read as the last part of a string.
proof fn lemma_data_read<'a>(r4: SexpInputStream<SliceSource<'a>>, data: Seq<u8>, dw: Seq<u8>, dtag: u8, dinner: Seq<u8>, more: Seq<u8>)
    requires
        plain_reader(r4),
        white(dw),
        form_reads_as(dtag, dinner, data),
        upcoming(r4) == dw + form_bytes(dtag, dinner) + more,
        dtag == 0 ==> more.len() == 0 || !spec_is_token_char(more[0]),
    ensures
        r4.spec_skip_white_space().1 is Ok,
        plain_reader(r4.spec_skip_white_space().0),
        r4.spec_skip_white_space().0.spec_skip_white_space() == (r4.spec_skip_white_space().0, Ok::<(), SexpError>(())),
        r4.spec_skip_white_space().0.measure() <= r4.measure(),
        r4.spec_skip_white_space().0.next_char != crate::chars::LBRACKET as i32,
        r4.spec_skip_white_space().0.next_char != crate::chars::LBRACE as i32,
        r4.spec_skip_white_space().0.next_char != crate::chars::LPAREN as i32,
        r4.spec_skip_white_space().0.next_char != crate::chars::RPAREN as i32,
        r4.spec_skip_white_space().0.spec_scan_simple_string().1 == Ok::<Seq<u8>, SexpError>(data),
        plain_reader(r4.spec_skip_white_space().0.spec_scan_simple_string().0),
        upcoming(r4.spec_skip_white_space().0.spec_scan_simple_string().0) == more,
        same_settings(r4.spec_skip_white_space().0.spec_scan_simple_string().0, r4),
        r4.spec_skip_white_space().0.spec_scan_simple_string().0.measure() < r4.measure(),
{
    let df = form_bytes(dtag, dinner);
    let x3 = df + more;
    assert(upcoming(r4) =~= dw + x3);
    assert(df.len() > 0 && x3[0] == df[0]);
    if dtag == 0 {
        assert(spec_is_token_char(dinner[0]));
    }
    assert(!spec_is_whitespace(x3[0]));
    lemma_skip_white(r4, dw, x3);
    let r5 = r4.spec_skip_white_space().0;
    assert(Seq::<u8>::empty() + df + more =~= x3);
    lemma_simple_read(r5, Seq::empty(), dtag, dinner, data, more);
    assert(upcoming(r5)[0] == df[0]);
    crate::stream_round_trip::lemma_no_white(r5);
}

/// Where whitespace ends, an object starts: neither `)` nor `{`.
pub open spec fn starts_object<'a>(r: SexpInputStream<SliceSource<'a>>) -> bool {
    &&& r.spec_skip_white_space().1 is Ok
    &&& r.spec_skip_white_space().0.spec_skip_white_space() == (r.spec_skip_white_space().0, Ok::<(), SexpError>(()))
    &&& r.spec_skip_white_space().0.next_char != crate::chars::RPAREN as i32
    &&& r.spec_skip_white_space().0.next_char != crate::chars::LBRACE as i32
    &&& r.spec_skip_white_space().0.measure() <= r.measure()
}

/// The printer's frame through a string in advanced form.
pub open spec fn string_printed(st: OutputState, s: crate::types::StringModel) -> bool {
    &&& st.spec_adv_string(s).1 is Ok
    &&& st.spec_adv_string(s).0.byte_size == 8
    &&& st.spec_adv_string(s).0.n_bits == 0
    &&& st.spec_adv_string(s).0.max_column == st.max_column
    &&& st.spec_adv_string(s).0.indent == st.indent
    &&& st.spec_adv_string(s).0.depth == st.depth
    &&& extends(st.spec_adv_string(s).0, st)
}

/// The reader's state after reading `obj`: it, and then `more`.
pub open spec fn read_back<'a>(r: SexpInputStream<SliceSource<'a>>, obj: crate::types::SexpModel, more: Seq<u8>) -> bool {
    &&& r.spec_scan_object().1 == Ok::<crate::types::SexpModel, SexpError>(obj)
    &&& plain_reader(r.spec_scan_object().0)
    &&& upcoming(r.spec_scan_object().0) == more
    &&& same_settings(r.spec_scan_object().0, r)
    &&& r.spec_scan_object().0.measure() < r.measure()
}

#[verifier::spinoff_prover]
#[verifier::rlimit(80)]
proof fn lemma_read_hinted<'a>(r: SexpInputStream<SliceSource<'a>>, st: OutputState, s: crate::types::StringModel, w: Seq<u8>, more: Seq<u8>)
    requires
        s.hint is Some,
        plain_reader(r),
        st.byte_size == 8,
        st.n_bits == 0,
        white(w),
        upcoming(r) == w + added(st.spec_adv_string(s).0, st) + more,
        more.len() == 0 || !spec_is_token_char(more[0]),
    ensures
        string_printed(st, s),
        read_back(r, crate::types::SexpModel::Atom(s), more),
        starts_object(r),
{
    let h = s.hint->Some_0;
    let s0 = st.spec_adv_prefix();
    lemma_prefix(st);
    let w0 = added(s0, st);
    crate::base64_round_trip::lemma_white_concat(w, w0);
    let sa = s0.spec_put_char(crate::chars::LBRACKET);
    lemma_put_char_plain(s0, crate::chars::LBRACKET);
    let (hw, htag, hinner) = lemma_print_simple(sa, h);
    let sb = sa.spec_simple(h).0;
    let sc = sb.spec_put_char(crate::chars::RBRACKET);
    lemma_put_char_plain(sb, crate::chars::RBRACKET);
    let (dw, dtag, dinner) = lemma_print_simple(sc, s.data);
    let t = sc.spec_simple(s.data).0;
    lemma_extends_trans(st, s0, sa);
    lemma_extends_trans(st, sa, sb);
    lemma_extends_trans(st, sb, sc);
    lemma_extends_trans(st, sc, t);
    let hf = form_bytes(htag, hinner);
    let df = form_bytes(dtag, dinner);
    let x3 = dw + df + more;
    let x1 = seq![crate::chars::LBRACKET] + hw + hf + seq![crate::chars::RBRACKET] + x3;
    assert(added(t, st) =~= w0 + seq![crate::chars::LBRACKET] + (hw + hf) + seq![crate::chars::RBRACKET] + (dw + df));
    assert(upcoming(r) =~= (w + w0) + x1);
    lemma_skip_white(r, w + w0, x1);
    let r1 = r.spec_skip_white_space().0;
    lemma_hint_read(r1, h, hw, htag, hinner, x3);
    assert(upcoming(r1)[0] == crate::chars::LBRACKET);
    crate::stream_round_trip::lemma_no_white(r1);
    let r4 = r1.spec_skip_char(crate::chars::LBRACKET).0.spec_scan_simple_string().0.spec_skip_white_space().0.spec_skip_char(
        crate::chars::RBRACKET,
    ).0;
    assert(upcoming(r4) == dw + df + more);
    lemma_data_read(r4, s.data, dw, dtag, dinner, more);
    assert(r1.next_char == crate::chars::LBRACKET as i32);
    assert(r1.spec_scan_string().1 == Ok::<crate::types::StringModel, SexpError>(s));
}

#[verifier::spinoff_prover]
#[verifier::rlimit(80)]
proof fn lemma_read_unhinted<'a>(r: SexpInputStream<SliceSource<'a>>, st: OutputState, s: crate::types::StringModel, w: Seq<u8>, more: Seq<u8>)
    requires
        s.hint is None,
        plain_reader(r),
        st.byte_size == 8,
        st.n_bits == 0,
        white(w),
        upcoming(r) == w + added(st.spec_adv_string(s).0, st) + more,
        more.len() == 0 || !spec_is_token_char(more[0]),
    ensures
        string_printed(st, s),
        read_back(r, crate::types::SexpModel::Atom(s), more),
        starts_object(r),
{
    let s0 = st.spec_adv_prefix();
    lemma_prefix(st);
    let w0 = added(s0, st);
    crate::base64_round_trip::lemma_white_concat(w, w0);
    let (dw, dtag, dinner) = lemma_print_simple(s0, s.data);
    let t = s0.spec_simple(s.data).0;
    lemma_extends_trans(st, s0, t);
    let df = form_bytes(dtag, dinner);
    assert(upcoming(r) =~= (w + w0 + dw) + df + more);
    crate::base64_round_trip::lemma_white_concat(w + w0, dw);
    lemma_data_read(r, s.data, w + w0 + dw, dtag, dinner, more);
    let r1 = r.spec_skip_white_space().0;
    assert(r1.spec_scan_string().1 == Ok::<crate::types::StringModel, SexpError>(s));
}

/// The printer's frame through an object in advanced form.
pub open spec fn adv_printed(st: OutputState, obj: SexpModel) -> bool {
    &&& st.spec_print_advanced(obj).1 is Ok
    &&& st.spec_print_advanced(obj).0.byte_size == 8
    &&& st.spec_print_advanced(obj).0.n_bits == 0
    &&& st.spec_print_advanced(obj).0.max_column == st.max_column
    &&& st.spec_print_advanced(obj).0.indent == st.indent
    &&& st.spec_print_advanced(obj).0.depth == st.depth
    &&& extends(st.spec_print_advanced(obj).0, st)
}

/// The printer's frame through the rest of a list: one level up.
pub open spec fn rest_printed(st: OutputState, elems: Seq<SexpModel>, v: bool, first: bool) -> bool {
    &&& st.spec_adv_rest(elems, v, first).1 is Ok
    &&& st.spec_adv_rest(elems, v, first).0.byte_size == 8
    &&& st.spec_adv_rest(elems, v, first).0.n_bits == 0
    &&& st.spec_adv_rest(elems, v, first).0.max_column == st.max_column
    &&& st.spec_adv_rest(elems, v, first).0.indent == crate::output::prev_u32(st.indent)
    &&& st.spec_adv_rest(elems, v, first).0.depth == (DepthManager { depth: (st.depth.depth - 1) as usize, ..st.depth })
    &&& extends(st.spec_adv_rest(elems, v, first).0, st)
}

/// A line break in advanced form starts with a line feed.
proof fn lemma_new_line_first(s: OutputState)
    ensures
        added(s.spec_new_line(PrintMode::Advanced), s).len() > 0,
        added(s.spec_new_line(PrintMode::Advanced), s)[0] == LF,
{
    let s1 = OutputState { column: 0, ..s.spec_put_char(LF) };
    crate::base64_round_trip::lemma_indent_white(s1, 0);
    let t = s1.spec_indent_loop(0);
    assert(t.out.take(s1.out.len() as int)[s.out.len() as int] == t.out[s.out.len() as int]);
    assert(s1.out[s.out.len() as int] == LF);
}

/// The end of a list: whitespace (starting with a line feed), then `)`.
proof fn lemma_close(s: OutputState)
    requires
        s.byte_size == 8,
        s.n_bits == 0,
    ensures
        s.spec_adv_close().byte_size == 8,
        s.spec_adv_close().n_bits == 0,
        s.spec_adv_close().max_column == s.max_column,
        s.spec_adv_close().indent == crate::output::prev_u32(s.indent),
        s.spec_adv_close().depth == (DepthManager { depth: (s.depth.depth - 1) as usize, ..s.depth }),
        extends(s.spec_adv_close(), s),
        added(s.spec_adv_close(), s).len() > 0,
        white(added(s.spec_adv_close(), s).drop_last()),
        added(s.spec_adv_close(), s).last() == crate::chars::RPAREN,
        added(s.spec_adv_close(), s)[0] == crate::chars::RPAREN || added(s.spec_adv_close(), s)[0] == LF,
{
    let nl = s.max_column > 0 && s.column > crate::output::sat_sub_u32(s.max_column, 2);
    let s4 = if nl { s.spec_new_line(PrintMode::Advanced) } else { s };
    let w: Seq<u8> = if nl {
        crate::base64_round_trip::lemma_new_line(s, PrintMode::Advanced);
        lemma_new_line_first(s);
        added(s4, s)
    } else {
        Seq::empty()
    };
    assert(s4.out =~= s.out + w);
    let s5 = OutputState { indent: crate::output::prev_u32(s4.indent), ..s4 }.spec_put_char(crate::chars::RPAREN);
    let t = s.spec_adv_close();
    assert(t.out =~= s.out + w + seq![crate::chars::RPAREN]);
    assert(t.out.take(s.out.len() as int) =~= s.out);
    assert(added(t, s) =~= w + seq![crate::chars::RPAREN]);
    assert(added(t, s).drop_last() =~= w);
}

/// The separator before an element other than the first: a line break
/// where the list goes one element per line, else a space.
proof fn lemma_separator(s: OutputState, v: bool)
    ensures
        only_written(if v { s.spec_new_line(PrintMode::Advanced) } else { s.spec_put_char(crate::chars::SPACE) }, s),
        white(added(if v { s.spec_new_line(PrintMode::Advanced) } else { s.spec_put_char(crate::chars::SPACE) }, s)),
        added(if v { s.spec_new_line(PrintMode::Advanced) } else { s.spec_put_char(crate::chars::SPACE) }, s).len() > 0,
        added(if v { s.spec_new_line(PrintMode::Advanced) } else { s.spec_put_char(crate::chars::SPACE) }, s)[0] == LF
            || added(if v { s.spec_new_line(PrintMode::Advanced) } else { s.spec_put_char(crate::chars::SPACE) }, s)[0]
            == crate::chars::SPACE,
{
    if v {
        crate::base64_round_trip::lemma_new_line(s, PrintMode::Advanced);
        lemma_new_line_first(s);
    } else {
        lemma_put_char_plain(s, crate::chars::SPACE);
    }
}

proof fn lemma_prev_next(x: u32)
    ensures
        crate::output::prev_u32(crate::output::next_u32(x)) == x,
{
}

/// What the printer does with an object in advanced form, within its
/// nesting limit.
proof fn lemma_print_adv(st: OutputState, obj: SexpModel)
    requires
        st.byte_size == 8,
        st.n_bits == 0,
        fits(st.depth, obj),
    ensures
        adv_printed(st, obj),
    decreases obj, 2nat,
{
    match obj {
        SexpModel::Atom(s) => {
            let s0 = st.spec_adv_prefix();
            lemma_prefix(st);
            match s.hint {
                Some(h) => {
                    let sa = s0.spec_put_char(crate::chars::LBRACKET);
                    lemma_put_char_plain(s0, crate::chars::LBRACKET);
                    lemma_print_simple(sa, h);
                    let sb = sa.spec_simple(h).0;
                    let sc = sb.spec_put_char(crate::chars::RBRACKET);
                    lemma_put_char_plain(sb, crate::chars::RBRACKET);
                    lemma_print_simple(sc, s.data);
                    let t = sc.spec_simple(s.data).0;
                    lemma_extends_trans(st, s0, sa);
                    lemma_extends_trans(st, sa, sb);
                    lemma_extends_trans(st, sb, sc);
                    lemma_extends_trans(st, sc, t);
                },
                None => {
                    lemma_print_simple(s0, s.data);
                    lemma_extends_trans(st, s0, s0.spec_simple(s.data).0);
                },
            }
        },
        SexpModel::List(l) => {
            lemma_print_list(st, l);
        },
    }
}

proof fn lemma_print_list(st: OutputState, l: Seq<SexpModel>)
    requires
        st.byte_size == 8,
        st.n_bits == 0,
        fits(st.depth, SexpModel::List(l)),
    ensures
        adv_printed(st, SexpModel::List(l)),
        added(st.spec_print_advanced(SexpModel::List(l)).0, st) == added(st.spec_adv_prefix(), st) + seq![crate::chars::LPAREN]
            + added(
            st.spec_print_advanced(SexpModel::List(l)).0,
            OutputState {
                indent: crate::output::next_u32(st.spec_adv_prefix().spec_put_char(crate::chars::LPAREN).indent),
                depth: DepthManager { depth: (st.depth.depth + 1) as usize, ..st.depth },
                ..st.spec_adv_prefix().spec_put_char(crate::chars::LPAREN)
            },
        ),
    decreases l, 1nat,
{
    let s0 = st.spec_adv_prefix();
    lemma_prefix(st);
    let sp = s0.spec_put_char(crate::chars::LPAREN);
    lemma_put_char_plain(s0, crate::chars::LPAREN);
    lemma_list_fits(st.depth, l, crate::output::NO_POSITION);
    let d1 = DepthManager { depth: (st.depth.depth + 1) as usize, ..st.depth };
    let s1 = OutputState { depth: d1, ..sp };
    assert(s0.spec_open_list(false) == (s1, Ok::<(), SexpError>(())));
    let s2 = OutputState { indent: crate::output::next_u32(s1.indent), ..s1 };
    let v = s2.spec_vertical(l);
    lemma_print_rest(s2, l, v, true);
    let t = s2.spec_adv_rest(l, v, true).0;
    lemma_prev_next(s1.indent);
    assert(s2.out == sp.out);
    lemma_extends_trans(st, s0, sp);
    lemma_extends_trans(st, sp, t);
    assert(added(t, st) =~= added(s0, st) + seq![crate::chars::LPAREN] + added(t, s2));
    assert(t.depth == st.depth);
}

/// What the printer does with the rest of a list.
proof fn lemma_print_rest(st: OutputState, elems: Seq<SexpModel>, v: bool, first: bool)
    requires
        st.byte_size == 8,
        st.n_bits == 0,
        st.depth.depth > 0,
        all_fit(st.depth, elems),
    ensures
        rest_printed(st, elems, v, first),
        !first || elems.len() == 0 ==> added(st.spec_adv_rest(elems, v, first).0, st).len() > 0 && (added(
            st.spec_adv_rest(elems, v, first).0,
            st,
        )[0] == LF || added(st.spec_adv_rest(elems, v, first).0, st)[0] == crate::chars::SPACE || added(
            st.spec_adv_rest(elems, v, first).0,
            st,
        )[0] == crate::chars::RPAREN),
    decreases elems, 0nat,
{
    if elems.len() == 0 {
        lemma_close(st);
    } else {
        let s1 = if first { st } else if v { st.spec_new_line(PrintMode::Advanced) } else { st.spec_put_char(crate::chars::SPACE) };
        if first {
            assert(st.out.take(st.out.len() as int) =~= st.out);
        } else {
            lemma_separator(st, v);
        }
        assert(fits(s1.depth, elems[0]));
        lemma_print_adv(s1, elems[0]);
        let s2 = s1.spec_print_advanced(elems[0]).0;
        assert(all_fit(s2.depth, elems.drop_first())) by {
            assert forall|i: int| 0 <= i < elems.drop_first().len() implies fits(s2.depth, #[trigger] elems.drop_first()[i]) by {
                assert(fits(st.depth, elems[i + 1]));
            }
        }
        lemma_print_rest(s2, elems.drop_first(), v, false);
        let t = s2.spec_adv_rest(elems.drop_first(), v, false).0;
        lemma_extends_trans(st, s1, s2);
        lemma_extends_trans(st, s2, t);
        if !first {
            assert(added(t, st)[0] == added(s1, st)[0]);
        }
    }
}

/// An object printed in advanced form (after any whitespace) read back.
proof fn lemma_read_adv<'a>(r: SexpInputStream<SliceSource<'a>>, st: OutputState, obj: SexpModel, w: Seq<u8>, more: Seq<u8>)
    requires
        plain_reader(r),
        st.byte_size == 8,
        st.n_bits == 0,
        fits(st.depth, obj),
        fits(r.depth, obj),
        white(w),
        upcoming(r) == w + added(st.spec_print_advanced(obj).0, st) + more,
        more.len() == 0 || !spec_is_token_char(more[0]),
    ensures
        read_back(r, obj, more),
        starts_object(r),
    decreases obj, 3nat,
{
    match obj {
        SexpModel::Atom(s) => {
            if s.hint is Some {
                lemma_read_hinted(r, st, s, w, more);
            } else {
                lemma_read_unhinted(r, st, s, w, more);
            }
        },
        SexpModel::List(l) => {
            lemma_read_adv_list(r, st, l, w, more);
        },
    }
}

/// The first element of a list and the rest, as the printer writes them.
proof fn lemma_first_split(s2: OutputState, l: Seq<SexpModel>, v: bool)
    requires
        s2.byte_size == 8,
        s2.n_bits == 0,
        s2.depth.depth > 0,
        all_fit(s2.depth, l),
        l.len() > 0,
    ensures
        adv_printed(s2, l[0]),
        all_fit(s2.spec_print_advanced(l[0]).0.depth, l.drop_first()),
        rest_printed(s2.spec_print_advanced(l[0]).0, l.drop_first(), v, false),
        s2.spec_adv_rest(l, v, true).0 == s2.spec_print_advanced(l[0]).0.spec_adv_rest(l.drop_first(), v, false).0,
        added(s2.spec_adv_rest(l, v, true).0, s2) == added(s2.spec_print_advanced(l[0]).0, s2) + added(
            s2.spec_adv_rest(l, v, true).0,
            s2.spec_print_advanced(l[0]).0,
        ),
        added(s2.spec_adv_rest(l, v, true).0, s2.spec_print_advanced(l[0]).0).len() > 0,
        !spec_is_token_char(added(s2.spec_adv_rest(l, v, true).0, s2.spec_print_advanced(l[0]).0)[0]),
{
    let e0 = l[0];
    assert(fits(s2.depth, e0));
    lemma_print_adv(s2, e0);
    let se = s2.spec_print_advanced(e0).0;
    assert(all_fit(se.depth, l.drop_first())) by {
        assert forall|i: int| 0 <= i < l.drop_first().len() implies fits(se.depth, #[trigger] l.drop_first()[i]) by {
            assert(fits(s2.depth, l[i + 1]));
        }
    }
    lemma_print_rest(se, l.drop_first(), v, false);
    let t = se.spec_adv_rest(l.drop_first(), v, false).0;
    assert(s2.spec_adv_rest(l, v, true).0 == t);
    lemma_extends_trans(s2, se, t);
}

/// Reading the rest of a list from where whitespace ends, when that is `)`,
/// is reading it from before the whitespace.
proof fn lemma_loop_after_white<'a>(so: SexpInputStream<SliceSource<'a>>, s2r: SexpInputStream<SliceSource<'a>>, acc: Seq<SexpModel>)
    requires
        so.spec_skip_white_space().0 == s2r,
        so.spec_skip_white_space().1 is Ok,
        s2r.spec_skip_white_space() == (s2r, Ok::<(), SexpError>(())),
        s2r.next_char == crate::chars::RPAREN as i32,
    ensures
        so.spec_list_loop(acc) == s2r.spec_list_loop(acc),
{
}

/// A list read from its `(`.
#[verifier::spinoff_prover]
#[verifier::rlimit(100)]
proof fn lemma_scan_list_read<'a>(r1: SexpInputStream<SliceSource<'a>>, s2: OutputState, l: Seq<SexpModel>, v: bool, more: Seq<u8>)
    requires
        plain_reader(r1),
        s2.byte_size == 8,
        s2.n_bits == 0,
        s2.depth.depth > 0,
        all_fit(s2.depth, l),
        fits(r1.depth, SexpModel::List(l)),
        upcoming(r1) == seq![crate::chars::LPAREN] + added(s2.spec_adv_rest(l, v, true).0, s2) + more,
    ensures
        r1.spec_scan_list().1 == Ok::<Seq<SexpModel>, SexpError>(l),
        plain_reader(r1.spec_scan_list().0),
        upcoming(r1.spec_scan_list().0) == more,
        same_settings(r1.spec_scan_list().0, r1),
        r1.spec_scan_list().0.measure() < r1.measure(),
    decreases l, 1nat,
{
    let rr = added(s2.spec_adv_rest(l, v, true).0, s2);
    assert(upcoming(r1)[0] == crate::chars::LPAREN);
    assert(r1.next_char == crate::chars::LPAREN as i32);
    lemma_skip_char(r1, crate::chars::LPAREN);
    let ro = r1.spec_skip_char(crate::chars::LPAREN).0;
    assert(upcoming(ro) =~= rr + more);
    lemma_list_fits(r1.depth, l, ro.count);
    let so = SexpInputStream { depth: r1.depth.spec_increase(ro.count).0, ..ro };
    assert(r1.spec_open_list() == (so, Ok::<(), SexpError>(())));
    assert(plain_reader(so) && upcoming(so) == upcoming(ro));
    if l.len() == 0 {
        assert(s2.spec_adv_rest(l, v, true) == s2.spec_adv_rest(l, v, false));
        lemma_read_adv_rest(so, s2, l, v, Seq::empty(), more);
        lemma_close(s2);
        let wc = rr.drop_last();
        assert(rr =~= wc + seq![crate::chars::RPAREN]);
        assert(upcoming(so) =~= wc + (seq![crate::chars::RPAREN] + more));
        lemma_skip_white(so, wc, seq![crate::chars::RPAREN] + more);
        let s2r = so.spec_skip_white_space().0;
        assert(upcoming(s2r)[0] == crate::chars::RPAREN);
        crate::stream_round_trip::lemma_no_white(s2r);
        lemma_loop_after_white(so, s2r, Seq::empty());
        assert(Seq::<SexpModel>::empty() + l =~= l);
    } else {
        let e0 = l[0];
        lemma_first_split(s2, l, v);
        let se = s2.spec_print_advanced(e0).0;
        let t = s2.spec_adv_rest(l, v, true).0;
        let a_e = added(se, s2);
        let a_r = added(t, se);
        assert(fits(so.depth, e0));
        assert(upcoming(so) =~= Seq::<u8>::empty() + a_e + (a_r + more));
        assert((a_r + more)[0] == a_r[0]);
        lemma_read_adv(so, s2, e0, Seq::empty(), a_r + more);
        let s2r = so.spec_skip_white_space().0;
        lemma_object_after_white(so, s2r);
        let s3 = so.spec_scan_object().0;
        assert(all_fit(s3.depth, l.drop_first())) by {
            assert forall|i: int| 0 <= i < l.drop_first().len() implies fits(s3.depth, #[trigger] l.drop_first()[i]) by {
                assert(fits(so.depth, l[i + 1]));
            }
        }
        lemma_read_adv_rest(s3, se, l.drop_first(), v, seq![e0], more);
        assert(seq![e0] + l.drop_first() =~= l);
    }
}

#[verifier::spinoff_prover]
#[verifier::rlimit(80)]
proof fn lemma_read_adv_list<'a>(r: SexpInputStream<SliceSource<'a>>, st: OutputState, l: Seq<SexpModel>, w: Seq<u8>, more: Seq<u8>)
    requires
        plain_reader(r),
        st.byte_size == 8,
        st.n_bits == 0,
        fits(st.depth, SexpModel::List(l)),
        fits(r.depth, SexpModel::List(l)),
        white(w),
        upcoming(r) == w + added(st.spec_print_advanced(SexpModel::List(l)).0, st) + more,
    ensures
        read_back(r, SexpModel::List(l), more),
        starts_object(r),
    decreases l, 2nat,
{
    lemma_print_list(st, l);
    let s0 = st.spec_adv_prefix();
    lemma_prefix(st);
    let sp = s0.spec_put_char(crate::chars::LPAREN);
    lemma_list_fits(st.depth, l, crate::output::NO_POSITION);
    let s2 = OutputState {
        indent: crate::output::next_u32(sp.indent),
        depth: DepthManager { depth: (st.depth.depth + 1) as usize, ..st.depth },
        ..sp
    };
    let v = s2.spec_vertical(l);
    let t = s2.spec_adv_rest(l, v, true).0;
    assert(st.spec_print_advanced(SexpModel::List(l)).0 == t);
    let rr = added(t, s2);
    let w0 = added(s0, st);
    crate::base64_round_trip::lemma_white_concat(w, w0);
    let x = seq![crate::chars::LPAREN] + rr + more;
    assert(upcoming(r) =~= (w + w0) + x);
    lemma_skip_white(r, w + w0, x);
    let r1 = r.spec_skip_white_space().0;
    assert(upcoming(r1)[0] == crate::chars::LPAREN);
    crate::stream_round_trip::lemma_no_white(r1);
    lemma_scan_list_read(r1, s2, l, v, more);
}

/// The rest of a list (elements after the first, and `)`) read back.
#[verifier::spinoff_prover]
#[verifier::rlimit(80)]
proof fn lemma_read_adv_rest<'a>(r: SexpInputStream<SliceSource<'a>>, st: OutputState, elems: Seq<SexpModel>, v: bool, acc: Seq<SexpModel>, more: Seq<u8>)
    requires
        plain_reader(r),
        st.byte_size == 8,
        st.n_bits == 0,
        st.depth.depth > 0,
        r.depth.depth > 0,
        all_fit(st.depth, elems),
        all_fit(r.depth, elems),
        upcoming(r) == added(st.spec_adv_rest(elems, v, false).0, st) + more,
    ensures
        r.spec_list_loop(acc).1 == Ok::<Seq<SexpModel>, SexpError>(acc + elems),
        plain_reader(r.spec_list_loop(acc).0),
        upcoming(r.spec_list_loop(acc).0) == more,
        r.spec_list_loop(acc).0.depth == (DepthManager { depth: (r.depth.depth - 1) as usize, ..r.depth }),
        r.spec_list_loop(acc).0.verbosity == r.verbosity,
        r.spec_list_loop(acc).0.measure() < r.measure(),
    decreases elems, 0nat,
{
    let t = st.spec_adv_rest(elems, v, false).0;
    if elems.len() == 0 {
        lemma_close(st);
        let rr = added(t, st);
        let wc = rr.drop_last();
        assert(rr =~= wc + seq![crate::chars::RPAREN]);
        assert(upcoming(r) =~= wc + (seq![crate::chars::RPAREN] + more));
        lemma_skip_white(r, wc, seq![crate::chars::RPAREN] + more);
        let s1 = r.spec_skip_white_space().0;
        assert(upcoming(s1)[0] == crate::chars::RPAREN);
        assert(s1.next_char == crate::chars::RPAREN as i32);
        lemma_skip_char(s1, crate::chars::RPAREN);
        assert((seq![crate::chars::RPAREN] + more).drop_first() =~= more);
        assert(acc + elems =~= acc);
    } else {
        let s1 = if v { st.spec_new_line(PrintMode::Advanced) } else { st.spec_put_char(crate::chars::SPACE) };
        lemma_separator(st, v);
        let e0 = elems[0];
        assert(fits(s1.depth, e0));
        lemma_print_adv(s1, e0);
        let s2 = s1.spec_print_advanced(e0).0;
        assert(all_fit(s2.depth, elems.drop_first())) by {
            assert forall|i: int| 0 <= i < elems.drop_first().len() implies fits(s2.depth, #[trigger] elems.drop_first()[i]) by {
                assert(fits(st.depth, elems[i + 1]));
            }
        }
        lemma_print_rest(s2, elems.drop_first(), v, false);
        let t2 = s2.spec_adv_rest(elems.drop_first(), v, false).0;
        assert(t == t2);
        lemma_extends_trans(st, s1, s2);
        lemma_extends_trans(st, s2, t);
        let sep = added(s1, st);
        let a_e = added(s2, s1);
        let a_r = added(t, s2);
        assert(added(t, st) =~= sep + a_e + a_r);
        assert(a_r.len() > 0);
        assert(!spec_is_token_char(a_r[0]));
        assert((a_r + more)[0] == a_r[0]);
        assert(fits(r.depth, e0));
        assert(upcoming(r) =~= sep + a_e + (a_r + more));
        lemma_read_adv(r, s1, e0, sep, a_r + more);
        let r1 = r.spec_skip_white_space().0;
        lemma_object_after_white(r, r1);
        let r2 = r.spec_scan_object().0;
        assert(all_fit(r2.depth, elems.drop_first())) by {
            assert forall|i: int| 0 <= i < elems.drop_first().len() implies fits(r2.depth, #[trigger] elems.drop_first()[i]) by {
                assert(fits(r.depth, elems[i + 1]));
            }
        }
        lemma_read_adv_rest(r2, s2, elems.drop_first(), v, acc.push(e0), more);
        assert(acc.push(e0) + elems.drop_first() =~= acc + elems);
    }
}

/// What a printer with byte size 8 writes in advanced form, a reader of
/// 8-bit characters positioned at those bytes reads back, for every object
/// whose lists fit within both nesting limits, provided that what follows
/// does not start with a token character (which would continue a token);
/// the reader stops right after the object.
pub proof fn law_advanced_stream_round_trip<'a>(st: OutputState, obj: SexpModel, r: SexpInputStream<SliceSource<'a>>, rest: Seq<u8>)
    requires
        st.wf(),
        st.byte_size == 8,
        fits(st.depth, obj),
        fits(r.depth, obj),
        plain_reader(r),
        upcoming(r) == added(st.spec_print_advanced(obj).0, st) + rest,
        rest.len() == 0 || !spec_is_token_char(rest[0]),
    ensures
        st.spec_print_advanced(obj).1 is Ok,
        r.spec_scan_object().1 == Ok::<SexpModel, SexpError>(obj),
        upcoming(r.spec_scan_object().0) == rest,
        r.spec_scan_object().0.depth == r.depth,
{
    lemma_print_adv(st, obj);
    assert(upcoming(r) =~= Seq::<u8>::empty() + added(st.spec_print_advanced(obj).0, st) + rest);
    lemma_read_adv(r, st, obj, Seq::empty(), rest);
}

/// What a new printer writes in advanced form, a new reader over those
/// bytes (with the same nesting limit) reads back, for every object whose
/// lists fit within the limit.
pub proof fn law_advanced_print_read<'a>(obj: SexpModel, max_depth: usize, r: SexpInputStream<SliceSource<'a>>)
    requires
        fits(DepthManager { depth: 0, max_depth }, obj),
        r.fresh(OutputState::initial(max_depth).spec_print_advanced(obj).0.out, max_depth),
    ensures
        OutputState::initial(max_depth).spec_print_advanced(obj).1 is Ok,
        r.spec_scan_object().1 == Ok::<SexpModel, SexpError>(obj),
{
    let st = OutputState::initial(max_depth);
    lemma_print_adv(st, obj);
    let out = st.spec_print_advanced(obj).0.out;
    assert(added(st.spec_print_advanced(obj).0, st) =~= out);
    crate::input::lemma_slice_next_read(r.source);
    assert(plain_reader(r));
    assert(white(seq![32u8]));
    assert(upcoming(r) =~= seq![32u8] + added(st.spec_print_advanced(obj).0, st) + Seq::<u8>::empty());
    lemma_read_adv(r, st, obj, seq![32u8], Seq::empty());
}

/// The inside of a quoted string that ends well within its line: the bytes
/// as they are, one column each.
proof fn lemma_quoted_plain(s: OutputState, data: Seq<u8>)
    requires
        s.max_column == 0 || s.column + data.len() + 2 < s.max_column,
    ensures
        extends(s.spec_quoted_loop(data), s),
        added(s.spec_quoted_loop(data), s) == data,
        s.spec_quoted_loop(data).max_column == s.max_column,
    decreases data.len(),
{
    if data.len() == 0 {
        assert(s.out.take(s.out.len() as int) =~= s.out);
        assert(added(s, s) =~= data);
    } else {
        let s1 = s.spec_put_char(data[0]);
        lemma_put_char_plain(s, data[0]);
        lemma_quoted_plain(s1, data.drop_first());
        lemma_extends_trans(s, s1, s.spec_quoted_loop(data));
        assert(seq![data[0]] + data.drop_first() =~= data);
    }
}

/// What the layout estimates of a string without a hint is what the
/// printer writes, where the string is written as a token or a quoted
/// string and ends well within its line: `advanced_length` gives the
/// number of bytes that `print_advanced` writes then.
pub proof fn law_simple_length_exact(st: OutputState, data: Seq<u8>)
    requires
        st.byte_size == 8,
        st.spec_can_print_as_token(data) || crate::output::all_quotable(data),
        st.max_column == 0 || st.column + data.len() + 4 < st.max_column,
    ensures
        st.spec_print_advanced(SexpModel::Atom(StringModel { data, hint: None })).1 is Ok,
        extends(st.spec_print_advanced(SexpModel::Atom(StringModel { data, hint: None })).0, st),
        added(st.spec_print_advanced(SexpModel::Atom(StringModel { data, hint: None })).0, st).len()
            == st.spec_adv_len(SexpModel::Atom(StringModel { data, hint: None })),
{
    assert(st.spec_adv_prefix() == st);
    if st.spec_can_print_as_token(data) {
        lemma_put_bytes_plain(st, data);
    } else {
        let s1 = st.spec_put_char(QUOTE);
        lemma_put_char_plain(st, QUOTE);
        lemma_quoted_plain(s1, data);
        let s2 = s1.spec_quoted_loop(data);
        lemma_put_char_plain(s2, QUOTE);
        lemma_extends_trans(st, s1, s2);
        lemma_extends_trans(st, s2, s2.spec_put_char(QUOTE));
    }
}

} // verus!
