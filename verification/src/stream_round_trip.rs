//! What the streaming reader gives back of what the printer writes.
use vstd::prelude::*;
use crate::chars::{spec_is_dec_digit, spec_is_whitespace, spec_low_byte, COLON, LBRACKET, LPAREN, RBRACKET, RPAREN};
use crate::depth::DepthManager;
use crate::depth_limit::{fits};
use crate::error::SexpError;
use crate::input::{lemma_slice_next_read, CharSource, SexpInputStream, SliceSource, EOF};
use crate::num::{all_dec_digits, lemma_decimal_digits, lemma_decimal_digits_len, lemma_decimal_value_monotone,
    pow10, spec_decimal_digits, spec_decimal_value};
use crate::output::{OutputState, PrintMode};
use crate::types::{nesting, nesting_elems, SexpModel, StringModel};
use crate::region::{decode_from, lemma_region_get_char, region_len, region_reader};

verus! {

/// `len:bytes`
pub open spec fn verbatim_bytes(data: Seq<u8>) -> Seq<u8> {
    spec_decimal_digits(data.len()).push(COLON) + data
}

/// The canonical bytes of a string: `[len:hint]` if it has a hint, then
/// `len:data`.
pub open spec fn string_bytes(s: StringModel) -> Seq<u8> {
    match s.hint {
        Some(h) => seq![LBRACKET] + verbatim_bytes(h) + seq![RBRACKET] + verbatim_bytes(s.data),
        None => verbatim_bytes(s.data),
    }
}

/// The canonical bytes of an object, hints included, as the printer writes
/// them in canonical form.
pub open spec fn full_canonical_bytes(obj: SexpModel) -> Seq<u8>
    decreases obj, 1nat,
{
    match obj {
        SexpModel::Atom(s) => string_bytes(s),
        SexpModel::List(l) => seq![LPAREN] + full_elems_bytes(l) + seq![RPAREN],
    }
}

pub open spec fn full_elems_bytes(elems: Seq<SexpModel>) -> Seq<u8>
    decreases elems, 0nat,
{
    if elems.len() == 0 {
        Seq::empty()
    } else {
        full_canonical_bytes(elems[0]) + full_elems_bytes(elems.drop_first())
    }
}

/// Every string and hint of `obj` is at most 1 MiB long, the reader's limit
/// on verbatim strings.
pub open spec fn short_strings(obj: SexpModel) -> bool
    decreases obj, 1nat,
{
    match obj {
        SexpModel::Atom(s) => s.data.len() <= 1048576 && match s.hint {
            Some(h) => h.len() <= 1048576,
            None => true,
        },
        SexpModel::List(l) => short_strings_elems(l),
    }
}

pub open spec fn short_strings_elems(elems: Seq<SexpModel>) -> bool
    decreases elems, 0nat,
{
    elems.len() == 0 || (short_strings(elems[0]) && short_strings_elems(elems.drop_first()))
}

// ---------------------------------------------------------------------------
// The printer in canonical mode writes the canonical bytes.

/// A printer that writes bytes as they are: byte size 8, no pending bits,
/// canonical mode (so that no line breaks are inserted).
pub open spec fn plain_printer(st: OutputState) -> bool {
    &&& st.byte_size == 8
    &&& st.n_bits == 0
    &&& st.mode == PrintMode::Canonical
}

proof fn lemma_print_byte(st: OutputState, c: u8)
    requires
        plain_printer(st),
    ensures
        plain_printer(st.spec_var_put_char(c)),
        st.spec_var_put_char(c).out == st.out.push(c),
        st.spec_var_put_char(c).depth == st.depth,
{
    let b = st.bits;
    let bits = (b << 8u32) | (c as u32);
    assert(bits & 0xff == c as u32) by (bit_vector)
        requires
            bits == (b << 8u32) | (c as u32),
    ;
    let s0 = OutputState { bits, n_bits: 8, ..st };
    assert(s0.spec_new_line(st.mode) == s0);
    assert(s0.encoded_char() == c);
    let s2 = s0.spec_put_char(c);
    let s3 = OutputState { n_bits: 0, base64_count: crate::output::next_u32(s0.base64_count), ..s2 };
    assert(s3.spec_emit_loop(c) == s3);
    assert(s0.spec_emit_loop(c) == s3);
}

proof fn lemma_print_bytes(st: OutputState, data: Seq<u8>)
    requires
        plain_printer(st),
    ensures
        plain_printer(st.spec_var_put_bytes(data)),
        st.spec_var_put_bytes(data).out == st.out + data,
        st.spec_var_put_bytes(data).depth == st.depth,
    decreases data.len(),
{
    if data.len() == 0 {
        assert(st.out + data == st.out);
    } else {
        lemma_print_byte(st, data[0]);
        lemma_print_bytes(st.spec_var_put_char(data[0]), data.drop_first());
        assert(st.out.push(data[0]) + data.drop_first() == st.out + data);
    }
}

proof fn lemma_print_verbatim(st: OutputState, data: Seq<u8>)
    requires
        plain_printer(st),
        data.len() <= 1048576,
    ensures
        plain_printer(st.spec_verbatim(data)),
        st.spec_verbatim(data).out == st.out + verbatim_bytes(data),
        st.spec_verbatim(data).depth == st.depth,
{
    let d = spec_decimal_digits(data.len());
    assert(data.len() as u64 as nat == data.len());
    lemma_print_bytes(st, d);
    let s1 = st.spec_print_decimal(data.len() as u64);
    lemma_print_byte(s1, COLON);
    lemma_print_bytes(s1.spec_var_put_char(COLON), data);
    assert(st.out + d + seq![COLON] + data == st.out + verbatim_bytes(data));
}

proof fn lemma_print_string(st: OutputState, s: StringModel)
    requires
        plain_printer(st),
        short_strings(SexpModel::Atom(s)),
    ensures
        plain_printer(st.spec_canonical_string(s)),
        st.spec_canonical_string(s).out == st.out + string_bytes(s),
        st.spec_canonical_string(s).depth == st.depth,
{
    match s.hint {
        Some(h) => {
            let a = st.spec_var_put_char(LBRACKET);
            lemma_print_byte(st, LBRACKET);
            lemma_print_verbatim(a, h);
            let b = a.spec_verbatim(h);
            lemma_print_byte(b, RBRACKET);
            lemma_print_verbatim(b.spec_var_put_char(RBRACKET), s.data);
            assert(st.out.push(LBRACKET) + verbatim_bytes(h) + seq![RBRACKET] + verbatim_bytes(s.data)
                == st.out + string_bytes(s));
        },
        None => {
            lemma_print_verbatim(st, s.data);
        },
    }
}

/// Whether each element fits below depth `d`.
pub open spec fn all_fit(d: DepthManager, elems: Seq<SexpModel>) -> bool {
    forall|i: int| 0 <= i < elems.len() ==> fits(d, #[trigger] elems[i])
}

pub(crate) proof fn lemma_nesting_elem(elems: Seq<SexpModel>, i: int)
    requires
        0 <= i < elems.len(),
    ensures
        nesting(elems[i]) <= nesting_elems(elems),
    decreases elems.len(),
{
    if i < elems.len() - 1 {
        lemma_nesting_elem(elems.drop_last(), i);
    }
}

/// A list that fits at `d` is entered without error, and its elements fit
/// one level deeper.
pub(crate) proof fn lemma_list_fits(d: DepthManager, l: Seq<SexpModel>, position: i32)
    requires
        fits(d, SexpModel::List(l)),
    ensures
        d.spec_increase(position).1 is Ok,
        d.spec_increase(position).0 == (DepthManager { depth: (d.depth + 1) as usize, ..d }),
        all_fit(d.spec_increase(position).0, l),
{
    let d1 = d.spec_increase(position).0;
    assert forall|i: int| 0 <= i < l.len() implies fits(d1, #[trigger] l[i]) by {
        lemma_nesting_elem(l, i);
    }
}

pub(crate) proof fn lemma_short_elem(elems: Seq<SexpModel>, i: int)
    requires
        short_strings_elems(elems),
        0 <= i < elems.len(),
    ensures
        short_strings(elems[i]),
    decreases elems.len(),
{
    if i > 0 {
        lemma_short_elem(elems.drop_first(), i - 1);
    }
}

proof fn lemma_print_object(st: OutputState, obj: SexpModel)
    requires
        plain_printer(st),
        fits(st.depth, obj),
        short_strings(obj),
    ensures
        st.spec_print_canonical(obj).1 is Ok,
        plain_printer(st.spec_print_canonical(obj).0),
        st.spec_print_canonical(obj).0.out == st.out + full_canonical_bytes(obj),
        st.spec_print_canonical(obj).0.depth == st.depth,
    decreases obj, 2nat,
{
    match obj {
        SexpModel::Atom(s) => {
            lemma_print_string(st, s);
        },
        SexpModel::List(l) => {
            lemma_list_fits(st.depth, l, crate::output::NO_POSITION);
            lemma_print_byte(st, LPAREN);
            let s0 = st.spec_var_put_char(LPAREN);
            let s1 = st.spec_open_list(true).0;
            assert(s1 == OutputState { depth: st.depth.spec_increase(crate::output::NO_POSITION).0, ..s0 });
            lemma_print_elems(s1, l);
            let s2 = s1.spec_canonical_elems(l).0;
            lemma_print_byte(s2, RPAREN);
            assert(st.out.push(LPAREN) + full_elems_bytes(l) + seq![RPAREN] == st.out + full_canonical_bytes(obj));
        },
    }
}

proof fn lemma_print_elems(st: OutputState, elems: Seq<SexpModel>)
    requires
        plain_printer(st),
        all_fit(st.depth, elems),
        short_strings_elems(elems),
    ensures
        st.spec_canonical_elems(elems).1 is Ok,
        plain_printer(st.spec_canonical_elems(elems).0),
        st.spec_canonical_elems(elems).0.out == st.out + full_elems_bytes(elems),
        st.spec_canonical_elems(elems).0.depth == st.depth,
    decreases elems, 0nat,
{
    if elems.len() == 0 {
        assert(st.out + full_elems_bytes(elems) == st.out);
    } else {
        assert(fits(st.depth, elems[0]));
        lemma_print_object(st, elems[0]);
        let s1 = st.spec_print_canonical(elems[0]).0;
        assert forall|i: int| 0 <= i < elems.drop_first().len() implies fits(s1.depth, #[trigger] elems.drop_first()[i]) by {
            assert(fits(st.depth, elems[i + 1]));
        }
        lemma_print_elems(s1, elems.drop_first());
        assert(st.out + full_canonical_bytes(elems[0]) + full_elems_bytes(elems.drop_first())
            == st.out + full_elems_bytes(elems));
    }
}

// ---------------------------------------------------------------------------
// The reader reads the canonical bytes back.

/// The bytes that the reader has yet to give: its lookahead, then what its
/// source holds; inside a hexadecimal or base64 region, what the rest of
/// the region decodes to, then what follows the region.
pub open spec fn upcoming<'a>(r: SexpInputStream<SliceSource<'a>>) -> Seq<u8> {
    let rem = r.source.remaining();
    if r.next_char == EOF {
        Seq::empty()
    } else if r.byte_size == 4 || r.byte_size == 6 {
        let k = region_len(r.byte_size, rem) as int;
        seq![r.next_char as u8] + decode_from(r.byte_size, r.n_bits, r.bits, rem.take(k)) + rem.skip(k)
    } else {
        seq![r.next_char as u8] + rem
    }
}

/// A reader of 8-bit characters, between calls.
pub open spec fn plain_reader<'a>(r: SexpInputStream<SliceSource<'a>>) -> bool {
    &&& r.wf()
    &&& -1 <= r.next_char <= 255
    &&& r.byte_size == 8
    &&& r.n_bits == 0
    &&& (r.next_char == EOF ==> r.source.remaining().len() == 0)
}

/// A reader between calls, of 8-bit characters or inside a coded region.
pub open spec fn reader<'a>(r: SexpInputStream<SliceSource<'a>>) -> bool {
    plain_reader(r) || region_reader(r)
}

/// `r2` is `r1` further on, with the same nesting and verbosity.
pub open spec fn same_settings<'a>(r2: SexpInputStream<SliceSource<'a>>, r1: SexpInputStream<SliceSource<'a>>) -> bool {
    &&& r2.depth == r1.depth
    &&& r2.verbosity == r1.verbosity
}

pub(crate) proof fn lemma_get_char<'a>(r: SexpInputStream<SliceSource<'a>>)
    requires
        reader(r),
        r.next_char != EOF,
    ensures
        r.spec_get_char().1 is Ok,
        reader(r.spec_get_char().0),
        plain_reader(r) ==> plain_reader(r.spec_get_char().0),
        upcoming(r.spec_get_char().0) == upcoming(r).drop_first(),
        same_settings(r.spec_get_char().0, r),
        r.spec_get_char().0.measure() < r.measure(),
{
    if plain_reader(r) {
        lemma_slice_next_read(r.source);
        let (c, src) = r.source.next_read();
        assert(upcoming(r).drop_first() == r.source.remaining());
        if c != EOF {
            assert(0 <= c <= 255);
            assert(spec_low_byte(c) == c as u8);
            assert(seq![c as u8] + src.remaining() == r.source.remaining());
        }
    } else {
        lemma_region_get_char(r);
    }
}

pub(crate) proof fn lemma_no_white<'a>(r: SexpInputStream<SliceSource<'a>>)
    requires
        reader(r),
        upcoming(r).len() > 0,
        !spec_is_whitespace(upcoming(r)[0]),
    ensures
        r.spec_skip_white_space() == (r, Ok::<(), SexpError>(())),
{
    assert(spec_low_byte(r.next_char) == upcoming(r)[0]);
}

pub(crate) proof fn lemma_skip_char<'a>(r: SexpInputStream<SliceSource<'a>>, c: u8)
    requires
        reader(r),
        upcoming(r).len() > 0,
        upcoming(r)[0] == c,
    ensures
        r.spec_skip_char(c).1 is Ok,
        reader(r.spec_skip_char(c).0),
        plain_reader(r) ==> plain_reader(r.spec_skip_char(c).0),
        upcoming(r.spec_skip_char(c).0) == upcoming(r).drop_first(),
        same_settings(r.spec_skip_char(c).0, r),
        r.spec_skip_char(c).0.measure() < r.measure(),
{
    lemma_get_char(r);
}

proof fn lemma_read_decimal<'a>(r: SexpInputStream<SliceSource<'a>>, d: Seq<u8>, i: nat, rest: Seq<u8>)
    requires
        reader(r),
        1 <= d.len() <= 9,
        i <= d.len(),
        all_dec_digits(d),
        spec_decimal_value(d) <= u32::MAX,
        rest.len() > 0,
        !spec_is_dec_digit(rest[0]),
        upcoming(r) == d.skip(i as int) + rest,
    ensures
        r.spec_decimal_loop(spec_decimal_value(d.take(i as int)), i).1 == Ok::<u32, SexpError>(spec_decimal_value(d) as u32),
        reader(r.spec_decimal_loop(spec_decimal_value(d.take(i as int)), i).0),
        upcoming(r.spec_decimal_loop(spec_decimal_value(d.take(i as int)), i).0) == rest,
        same_settings(r.spec_decimal_loop(spec_decimal_value(d.take(i as int)), i).0, r),
        r.spec_decimal_loop(spec_decimal_value(d.take(i as int)), i).0.measure() <= r.measure(),
    decreases d.len() - i,
{
    let value = spec_decimal_value(d.take(i as int));
    assert(spec_low_byte(r.next_char) == upcoming(r)[0]);
    if i < d.len() {
        assert(upcoming(r)[0] == d[i as int]);
        lemma_get_char(r);
        let r1 = r.spec_get_char().0;
        assert(d.take(i + 1 as int).drop_last() == d.take(i as int));
        assert(d.take(i + 1 as int) == d.subrange(0, i + 1 as int));
        lemma_decimal_value_monotone(d, i + 1 as int);
        assert(d.skip(i as int).drop_first() == d.skip(i + 1 as int));
        assert((d.skip(i as int) + rest).drop_first() == d.skip(i + 1 as int) + rest);
        lemma_read_decimal(r1, d, (i + 1) as nat, rest);
    } else {
        assert(d.take(i as int) == d);
        assert(d.skip(i as int) + rest == rest);
    }
}

proof fn lemma_read_bytes<'a>(r: SexpInputStream<SliceSource<'a>>, m: nat, acc: Seq<u8>, data: Seq<u8>, rest: Seq<u8>)
    requires
        reader(r),
        data.len() == m,
        upcoming(r) == data + rest,
    ensures
        r.spec_verbatim_loop(m, acc).1 == Ok::<Seq<u8>, SexpError>(acc + data),
        reader(r.spec_verbatim_loop(m, acc).0),
        upcoming(r.spec_verbatim_loop(m, acc).0) == rest,
        same_settings(r.spec_verbatim_loop(m, acc).0, r),
        r.spec_verbatim_loop(m, acc).0.measure() <= r.measure(),
    decreases m,
{
    if m == 0 {
        assert(acc + data == acc);
        assert(data + rest == rest);
    } else {
        assert(upcoming(r)[0] == data[0]);
        assert(r.next_char != EOF);
        assert(spec_low_byte(r.next_char) == data[0]);
        lemma_get_char(r);
        let r1 = r.spec_get_char().0;
        assert((data + rest).drop_first() == data.drop_first() + rest);
        lemma_read_bytes(r1, (m - 1) as nat, acc.push(data[0]), data.drop_first(), rest);
        assert(acc.push(data[0]) + data.drop_first() == acc + data);
    }
}

/// `len:data`, then `rest`, read as a simple string.
#[verifier::spinoff_prover]
#[verifier::rlimit(50)]
proof fn lemma_read_verbatim<'a>(r: SexpInputStream<SliceSource<'a>>, data: Seq<u8>, rest: Seq<u8>)
    requires
        reader(r),
        data.len() <= 1048576,
        upcoming(r) == verbatim_bytes(data) + rest,
    ensures
        r.spec_scan_simple_string().1 == Ok::<Seq<u8>, SexpError>(data),
        reader(r.spec_scan_simple_string().0),
        upcoming(r.spec_scan_simple_string().0) == rest,
        same_settings(r.spec_scan_simple_string().0, r),
        r.spec_scan_simple_string().0.measure() < r.measure(),
{
    let n = data.len();
    let d = spec_decimal_digits(n);
    lemma_decimal_digits(n);
    assert(pow10(7) == 10000000) by {
        reveal_with_fuel(pow10, 8);
    }
    lemma_decimal_digits_len(n, 7);
    let after = seq![COLON] + data + rest;
    assert(upcoming(r) == d + after);
    assert(d.skip(0) == d);
    assert(d.take(0) == Seq::<u8>::empty());
    assert(upcoming(r)[0] == d[0]);
    lemma_no_white(r);
    assert(spec_low_byte(r.next_char) == d[0]);
    lemma_read_decimal(r, d, 0, after);
    let r2 = r.spec_decimal_loop(0, 0).0;
    assert(upcoming(r2)[0] == COLON);
    assert(r2.next_char != EOF);
    assert(r2.next_char as u8 == COLON);
    assert(r2.next_char == COLON as i32);
    lemma_no_white(r2);
    lemma_skip_char(r2, COLON);
    let r3 = r2.spec_skip_char(COLON).0;
    assert(after.drop_first() == data + rest);
    assert(r2.spec_scan_verbatim_string(n as u32) == r3.spec_verbatim_loop(n, Seq::empty()));
    lemma_read_bytes(r3, n, Seq::empty(), data, rest);
    assert(Seq::<u8>::empty() + data == data);
}

#[verifier::spinoff_prover]
#[verifier::rlimit(50)]
proof fn lemma_read_string<'a>(r: SexpInputStream<SliceSource<'a>>, s: StringModel, rest: Seq<u8>)
    requires
        reader(r),
        short_strings(SexpModel::Atom(s)),
        upcoming(r) == string_bytes(s) + rest,
    ensures
        r.spec_scan_string().1 == Ok::<StringModel, SexpError>(s),
        reader(r.spec_scan_string().0),
        upcoming(r.spec_scan_string().0) == rest,
        same_settings(r.spec_scan_string().0, r),
        r.spec_scan_string().0.measure() < r.measure(),
{
    lemma_decimal_digits(s.data.len());
    match s.hint {
        Some(h) => {
            lemma_decimal_digits(h.len());
            let tail = seq![RBRACKET] + verbatim_bytes(s.data) + rest;
            assert(upcoming(r) == seq![LBRACKET] + (verbatim_bytes(h) + tail));
            assert(upcoming(r)[0] == LBRACKET);
            assert(r.next_char != EOF);
            assert(r.next_char as u8 == LBRACKET);
            assert(r.next_char == LBRACKET as i32);
            lemma_skip_char(r, LBRACKET);
            let r1 = r.spec_skip_char(LBRACKET).0;
            assert((seq![LBRACKET] + (verbatim_bytes(h) + tail)).drop_first() == verbatim_bytes(h) + tail);
            lemma_read_verbatim(r1, h, tail);
            let r2 = r1.spec_scan_simple_string().0;
            lemma_no_white(r2);
            lemma_skip_char(r2, RBRACKET);
            let r4 = r2.spec_skip_char(RBRACKET).0;
            assert(tail.drop_first() == verbatim_bytes(s.data) + rest);
            assert(upcoming(r4)[0] == spec_decimal_digits(s.data.len())[0]);
            assert(crate::chars::spec_is_dec_digit(spec_decimal_digits(s.data.len())[0]));
            assert(!spec_is_whitespace(upcoming(r4)[0]));
            lemma_no_white(r4);
            lemma_read_verbatim(r4, s.data, rest);
        },
        None => {
            assert(upcoming(r)[0] == spec_decimal_digits(s.data.len())[0]);
            assert(r.next_char != LBRACKET as i32);
            lemma_read_verbatim(r, s.data, rest);
        },
    }
}

/// Canonical bytes start with `(` (lists), `[` or a digit (strings).
proof fn lemma_first_byte(obj: SexpModel)
    ensures
        full_canonical_bytes(obj).len() >= 1,
        obj is List <==> full_canonical_bytes(obj)[0] == LPAREN,
        full_canonical_bytes(obj)[0] == LPAREN || full_canonical_bytes(obj)[0] == LBRACKET
            || spec_is_dec_digit(full_canonical_bytes(obj)[0]),
{
    match obj {
        SexpModel::Atom(s) => {
            lemma_decimal_digits(s.data.len());
            assert(full_canonical_bytes(obj) == string_bytes(s));
            let v = verbatim_bytes(s.data);
            assert(v[0] == spec_decimal_digits(s.data.len())[0]);
            assert(spec_is_dec_digit(spec_decimal_digits(s.data.len())[0]));
            match s.hint {
                Some(h) => {
                    assert(string_bytes(s)[0] == LBRACKET);
                },
                None => {
                    assert(string_bytes(s)[0] == v[0]);
                },
            }
        },
        SexpModel::List(l) => {
            assert(full_canonical_bytes(obj)[0] == LPAREN);
        },
    }
}

#[verifier::spinoff_prover]
#[verifier::rlimit(50)]
pub(crate) proof fn lemma_read_object<'a>(r: SexpInputStream<SliceSource<'a>>, obj: SexpModel, rest: Seq<u8>)
    requires
        reader(r),
        fits(r.depth, obj),
        short_strings(obj),
        upcoming(r) == full_canonical_bytes(obj) + rest,
    ensures
        r.spec_scan_object().1 == Ok::<SexpModel, SexpError>(obj),
        reader(r.spec_scan_object().0),
        upcoming(r.spec_scan_object().0) == rest,
        same_settings(r.spec_scan_object().0, r),
        r.spec_scan_object().0.measure() < r.measure(),
    decreases obj, 3nat,
{
    lemma_first_byte(obj);
    let b = full_canonical_bytes(obj);
    assert(upcoming(r)[0] == b[0]);
    lemma_no_white(r);
    assert(r.next_char != EOF);
    assert(r.next_char as u8 == b[0]);
    match obj {
        SexpModel::Atom(s) => {
            assert(r.next_char != LPAREN as i32);
            lemma_read_string(r, s, rest);
        },
        SexpModel::List(l) => {
            assert(r.next_char == LPAREN as i32);
            lemma_read_list(r, l, rest);
        },
    }
}

/// The reader after `(` of a list that fits: one level deeper.
pub open spec fn opened<'a>(r: SexpInputStream<SliceSource<'a>>) -> SexpInputStream<SliceSource<'a>> {
    let r1 = r.spec_skip_char(LPAREN).0;
    SexpInputStream { depth: r1.depth.spec_increase(r1.count).0, ..r1 }
}

proof fn lemma_open<'a>(r: SexpInputStream<SliceSource<'a>>, l: Seq<SexpModel>, rest: Seq<u8>)
    requires
        reader(r),
        fits(r.depth, SexpModel::List(l)),
        upcoming(r) == full_canonical_bytes(SexpModel::List(l)) + rest,
    ensures
        r.spec_open_list() == (opened(r), Ok::<(), SexpError>(())),
        reader(opened(r)),
        upcoming(opened(r)) == full_elems_bytes(l) + seq![RPAREN] + rest,
        opened(r).depth == (DepthManager { depth: (r.depth.depth + 1) as usize, ..r.depth }),
        opened(r).verbosity == r.verbosity,
        all_fit(opened(r).depth, l),
        opened(r).measure() < r.measure(),
{
    let b = full_canonical_bytes(SexpModel::List(l));
    lemma_list_fits(r.depth, l, r.spec_skip_char(LPAREN).0.count);
    assert(upcoming(r)[0] == LPAREN);
    lemma_skip_char(r, LPAREN);
    assert(b == seq![LPAREN] + full_elems_bytes(l) + seq![RPAREN]);
    assert((b + rest).drop_first() == full_elems_bytes(l) + seq![RPAREN] + rest);
}

proof fn lemma_read_list<'a>(r: SexpInputStream<SliceSource<'a>>, l: Seq<SexpModel>, rest: Seq<u8>)
    requires
        reader(r),
        fits(r.depth, SexpModel::List(l)),
        short_strings_elems(l),
        upcoming(r) == full_canonical_bytes(SexpModel::List(l)) + rest,
    ensures
        r.spec_scan_list().1 == Ok::<Seq<SexpModel>, SexpError>(l),
        reader(r.spec_scan_list().0),
        upcoming(r.spec_scan_list().0) == rest,
        same_settings(r.spec_scan_list().0, r),
        r.spec_scan_list().0.measure() < r.measure(),
    decreases l, 2nat,
{
    lemma_open(r, l, rest);
    if l.len() == 0 {
        lemma_read_empty_list(r, l, rest);
    } else {
        lemma_read_full_list(r, l, rest);
    }
}

proof fn lemma_read_empty_list<'a>(r: SexpInputStream<SliceSource<'a>>, l: Seq<SexpModel>, rest: Seq<u8>)
    requires
        reader(r),
        l.len() == 0,
        fits(r.depth, SexpModel::List(l)),
        upcoming(r) == full_canonical_bytes(SexpModel::List(l)) + rest,
    ensures
        r.spec_scan_list().1 == Ok::<Seq<SexpModel>, SexpError>(l),
        reader(r.spec_scan_list().0),
        upcoming(r.spec_scan_list().0) == rest,
        same_settings(r.spec_scan_list().0, r),
        r.spec_scan_list().0.measure() < r.measure(),
    decreases l, 1nat,
{
    lemma_open(r, l, rest);
    let r2 = opened(r);
    assert(full_elems_bytes(l) + seq![RPAREN] + rest == seq![RPAREN] + rest);
    assert(upcoming(r2)[0] == RPAREN);
    lemma_no_white(r2);
    assert(r2.next_char == RPAREN as i32);
    lemma_read_loop(r2, l, Seq::empty(), rest);
    assert(Seq::<SexpModel>::empty() + l == l);
}

#[verifier::spinoff_prover]
#[verifier::rlimit(50)]
proof fn lemma_read_full_list<'a>(r: SexpInputStream<SliceSource<'a>>, l: Seq<SexpModel>, rest: Seq<u8>)
    requires
        reader(r),
        l.len() > 0,
        fits(r.depth, SexpModel::List(l)),
        short_strings_elems(l),
        upcoming(r) == full_canonical_bytes(SexpModel::List(l)) + rest,
    ensures
        r.spec_scan_list().1 == Ok::<Seq<SexpModel>, SexpError>(l),
        reader(r.spec_scan_list().0),
        upcoming(r.spec_scan_list().0) == rest,
        same_settings(r.spec_scan_list().0, r),
        r.spec_scan_list().0.measure() < r.measure(),
    decreases l, 1nat,
{
    lemma_open(r, l, rest);
    let r2 = opened(r);
    let d1 = r2.depth;
    let e = l[0];
    let after = full_elems_bytes(l.drop_first()) + seq![RPAREN] + rest;
    assert(full_elems_bytes(l) + seq![RPAREN] + rest == full_canonical_bytes(e) + after);
    lemma_first_byte(e);
    assert(upcoming(r2)[0] == full_canonical_bytes(e)[0]);
    lemma_no_white(r2);
    assert(r2.next_char != RPAREN as i32);
    lemma_short_elem(l, 0);
    assert(fits(d1, e));
    lemma_read_object(r2, e, after);
    let r3 = r2.spec_scan_object().0;
    assert forall|i: int| 0 <= i < l.drop_first().len() implies fits(r3.depth, #[trigger] l.drop_first()[i]) by {
        assert(fits(d1, l[i + 1]));
    }
    lemma_read_loop(r3, l.drop_first(), seq![e], rest);
    assert(seq![e] + l.drop_first() == l);
}

/// The rest of a list: elements `l` and `)`, after the elements `acc`.
#[verifier::spinoff_prover]
#[verifier::rlimit(50)]
proof fn lemma_read_loop<'a>(r: SexpInputStream<SliceSource<'a>>, l: Seq<SexpModel>, acc: Seq<SexpModel>, rest: Seq<u8>)
    requires
        reader(r),
        r.depth.depth > 0,
        all_fit(r.depth, l),
        short_strings_elems(l),
        upcoming(r) == full_elems_bytes(l) + seq![RPAREN] + rest,
    ensures
        r.spec_list_loop(acc).1 == Ok::<Seq<SexpModel>, SexpError>(acc + l),
        reader(r.spec_list_loop(acc).0),
        upcoming(r.spec_list_loop(acc).0) == rest,
        r.spec_list_loop(acc).0.depth == (DepthManager { depth: (r.depth.depth - 1) as usize, ..r.depth }),
        r.spec_list_loop(acc).0.verbosity == r.verbosity,
        r.spec_list_loop(acc).0.measure() < r.measure(),
    decreases l, 0nat,
{
    if l.len() == 0 {
        assert(full_elems_bytes(l) + seq![RPAREN] + rest == seq![RPAREN] + rest);
        assert(upcoming(r)[0] == RPAREN);
        lemma_no_white(r);
        assert(r.next_char == RPAREN as i32);
        lemma_skip_char(r, RPAREN);
        assert((seq![RPAREN] + rest).drop_first() == rest);
        assert(acc + l == acc);
    } else {
        let e = l[0];
        let after = full_elems_bytes(l.drop_first()) + seq![RPAREN] + rest;
        assert(full_elems_bytes(l) + seq![RPAREN] + rest == full_canonical_bytes(e) + after);
        lemma_first_byte(e);
        assert(upcoming(r)[0] == full_canonical_bytes(e)[0]);
        lemma_no_white(r);
        assert(r.next_char != RPAREN as i32);
        assert(fits(r.depth, e));
        lemma_short_elem(l, 0);
        lemma_read_object(r, e, after);
        let r1 = r.spec_scan_object().0;
        assert forall|i: int| 0 <= i < l.drop_first().len() implies fits(r1.depth, #[trigger] l.drop_first()[i]) by {
            assert(fits(r.depth, l[i + 1]));
        }
        lemma_read_loop(r1, l.drop_first(), acc.push(e), rest);
        assert(acc.push(e) + l.drop_first() == acc + l);
    }
}

/// A reader, positioned at the canonical bytes of an object (hints
/// included) whose strings are at most 1 MiB and whose lists fit within
/// its nesting limit, reads the object back and stops right after it.
pub proof fn law_read_canonical<'a>(r: SexpInputStream<SliceSource<'a>>, obj: SexpModel, rest: Seq<u8>)
    requires
        plain_reader(r),
        fits(r.depth, obj),
        short_strings(obj),
        upcoming(r) == full_canonical_bytes(obj) + rest,
    ensures
        r.spec_scan_object().1 == Ok::<SexpModel, SexpError>(obj),
        upcoming(r.spec_scan_object().0) == rest,
        r.spec_scan_object().0.depth == r.depth,
{
    lemma_read_object(r, obj, rest);
}

/// A printer in canonical mode with byte size 8 writes, for an object whose
/// lists fit within its nesting limit, exactly the object's canonical bytes
/// (hints included), and is back at its depth afterwards.
pub proof fn law_print_canonical_bytes(st: OutputState, obj: SexpModel)
    requires
        plain_printer(st),
        fits(st.depth, obj),
        short_strings(obj),
    ensures
        st.spec_print_canonical(obj).1 is Ok,
        st.spec_print_canonical(obj).0.out == st.out + full_canonical_bytes(obj),
        st.spec_print_canonical(obj).0.depth == st.depth,
{
    lemma_print_object(st, obj);
}

/// What a new printer writes in canonical form, a new reader over those
/// bytes (with the same nesting limit) reads back, for every object whose
/// strings are at most 1 MiB long and whose lists fit within the limit.
pub proof fn law_stream_round_trip<'a>(obj: SexpModel, max_depth: usize, r: SexpInputStream<SliceSource<'a>>)
    requires
        fits(DepthManager { depth: 0, max_depth }, obj),
        short_strings(obj),
        r.fresh(OutputState::initial(max_depth).spec_print_canonical(obj).0.out, max_depth),
    ensures
        OutputState::initial(max_depth).spec_print_canonical(obj).1 is Ok,
        r.spec_scan_object().1 == Ok::<SexpModel, SexpError>(obj),
{
    let st = OutputState::initial(max_depth);
    lemma_print_object(st, obj);
    let bytes = st.spec_print_canonical(obj).0.out;
    assert(bytes == full_canonical_bytes(obj)) by {
        assert(Seq::<u8>::empty() + full_canonical_bytes(obj) == full_canonical_bytes(obj));
    }
    lemma_slice_next_read(r.source);
    assert(plain_reader(r));
    assert(upcoming(r) == seq![32u8] + bytes);
    lemma_get_char(r);
    let r1 = r.spec_get_char().0;
    assert((seq![32u8] + bytes).drop_first() == bytes);
    lemma_first_byte(obj);
    assert(bytes + Seq::<u8>::empty() == bytes);
    lemma_read_object(r1, obj, Seq::empty());
    assert(upcoming(r1)[0] == bytes[0]);
    lemma_no_white(r1);
    assert(r.spec_skip_white_space() == (r1, Ok::<(), SexpError>(())));
}

} // verus!
