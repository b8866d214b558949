//! What the parser gives back of what the serializer writes in advanced
//! form.
use vstd::prelude::*;
use vstd::utf8::{encode_utf8, is_ascii_chars, is_ascii_chars_encode_utf8, valid_utf8};
use crate::chars::{spec_is_dec_digit, spec_is_token_char, spec_is_whitespace, COLON, LBRACKET, QUOTE, RBRACKET};
use crate::num::{lemma_decimal_digits, spec_decimal_digits};
use crate::error::SexpError;
use crate::parse::{ParseState, MAX_VERBATIM_LEN};
use crate::base64_round_trip::white;
use crate::round_trip::lemma_decimal_run;
use crate::num::{lemma_decimal_digits_len, pow10};
use crate::ser::{
    advanced_chars, advanced_elems_chars, initial_layout, separator, serialized, PrintMode, SerLayout,
    advanced_string_chars, escape_byte, escape_chars, length_prefix, quotable_char, ser_quotable, ser_token,
    ser_token_char,
};
use crate::text::{latin1, utf8_lossy};
use crate::types::{nesting, SexpModel, StringModel};
use crate::depth::DEFAULT_MAX_DEPTH;
use crate::parse::{initial_state, spec_parse_advanced};
use crate::stream_round_trip::lemma_nesting_elem;
use crate::parse::simple_escape;

verus! {

/// Data that the advanced form writes as `length:bytes`: neither empty nor a
/// token nor quotable.
pub open spec fn written_verbatim(data: Seq<u8>) -> bool {
    data.len() > 0 && !ser_token(data) && !ser_quotable(data)
}

/// The lossy UTF-8 text of `b` gives `b` back when encoded (as it does for
/// valid UTF-8).
pub open spec fn lossless(b: Seq<u8>) -> bool {
    encode_utf8(utf8_lossy(b)) == b
}

/// A string whose advanced text reads back: its hint, and its data where it
/// is written as `length:bytes`, are at most 1 MiB long and keep their bytes
/// through the lossy text.
pub open spec fn readable_string(s: StringModel) -> bool {
    &&& (s.hint matches Some(h) ==> h.len() <= MAX_VERBATIM_LEN && lossless(h))
    &&& (written_verbatim(s.data) ==> s.data.len() <= MAX_VERBATIM_LEN && lossless(s.data))
}

pub open spec fn readable(obj: SexpModel) -> bool
    decreases obj, 1nat,
{
    match obj {
        SexpModel::Atom(s) => readable_string(s),
        SexpModel::List(l) => readable_elems(l),
    }
}

pub open spec fn readable_elems(elems: Seq<SexpModel>) -> bool
    decreases elems, 0nat,
{
    elems.len() == 0 || (readable(elems[0]) && readable_elems(elems.drop_first()))
}

/// `readable_string` with valid UTF-8 in place of `lossless`.
pub open spec fn utf8_readable_string(s: StringModel) -> bool {
    &&& (s.hint matches Some(h) ==> h.len() <= MAX_VERBATIM_LEN && valid_utf8(h))
    &&& (written_verbatim(s.data) ==> s.data.len() <= MAX_VERBATIM_LEN && valid_utf8(s.data))
}

/// `readable` with valid UTF-8 in place of `lossless`: each hint, and each
/// string written as `length:bytes`, is valid UTF-8 of at most 1 MiB.
pub open spec fn utf8_readable(obj: SexpModel) -> bool
    decreases obj, 1nat,
{
    match obj {
        SexpModel::Atom(s) => utf8_readable_string(s),
        SexpModel::List(l) => utf8_readable_elems(l),
    }
}

pub open spec fn utf8_readable_elems(elems: Seq<SexpModel>) -> bool
    decreases elems, 0nat,
{
    elems.len() == 0 || (utf8_readable(elems[0]) && utf8_readable_elems(elems.drop_first()))
}

/// Where each element on its own is readable when valid, so is the list.
pub(crate) proof fn lemma_readable_elems(elems: Seq<SexpModel>)
    requires
        forall|j: int| 0 <= j < elems.len() ==> (utf8_readable(#[trigger] elems[j]) ==> readable(elems[j])),
    ensures
        utf8_readable_elems(elems) ==> readable_elems(elems),
    decreases elems.len(),
{
    if elems.len() > 0 {
        let rest = elems.drop_first();
        assert forall|j: int| 0 <= j < rest.len() && utf8_readable(#[trigger] rest[j]) implies readable(rest[j]) by {
            assert(rest[j] == elems[j + 1]);
        }
        lemma_readable_elems(rest);
    }
}

// ---------------------------------------------------------------------------
// The UTF-8 bytes of the advanced text.

pub(crate) proof fn lemma_encode_concat(a: Seq<char>, b: Seq<char>)
    ensures
        encode_utf8(a + b) == encode_utf8(a) + encode_utf8(b),
    decreases a.len(),
{
    if a.len() == 0 {
        assert(a + b =~= b);
        assert(encode_utf8(a) + encode_utf8(b) =~= encode_utf8(b));
    } else {
        assert((a + b)[0] == a[0]);
        assert((a + b).drop_first() =~= a.drop_first() + b);
        lemma_encode_concat(a.drop_first(), b);
        assert(encode_utf8(a + b) =~= encode_utf8(a) + encode_utf8(b));
    }
}

/// The codes of ASCII characters, one byte each.
pub open spec fn ascii_codes(s: Seq<char>) -> Seq<u8> {
    Seq::new(s.len(), |i: int| s[i] as u8)
}

pub(crate) proof fn lemma_encode_ascii(s: Seq<char>)
    requires
        is_ascii_chars(s),
    ensures
        encode_utf8(s) == ascii_codes(s),
{
    is_ascii_chars_encode_utf8(s);
    assert(encode_utf8(s) =~= ascii_codes(s));
}

/// ASCII bytes, read one character each, encode back to themselves.
proof fn lemma_encode_latin1(d: Seq<u8>)
    requires
        forall|i: int| 0 <= i < d.len() ==> #[trigger] d[i] < 128,
    ensures
        encode_utf8(latin1(d)) == d,
{
    let s = latin1(d);
    assert(is_ascii_chars(s)) by {
        assert forall|i: int| 0 <= i < s.len() implies '\0' <= #[trigger] s[i] <= '\u{7f}' by {
            assert(d[i] < 128);
        }
    }
    lemma_encode_ascii(s);
    assert(ascii_codes(s) =~= d);
}

/// `n:` as bytes.
pub(crate) proof fn lemma_prefix_bytes(n: nat)
    ensures
        encode_utf8(length_prefix(n)) == spec_decimal_digits(n) + seq![COLON],
{
    let d = spec_decimal_digits(n);
    lemma_decimal_digits(n);
    assert forall|i: int| 0 <= i < d.len() implies #[trigger] d[i] < 128 by {
        assert(spec_is_dec_digit(d[i]));
    }
    lemma_encode_latin1(d);
    lemma_encode_concat(latin1(d), seq![':']);
    lemma_encode_ascii(seq![':']);
    assert(ascii_codes(seq![':']) =~= seq![COLON]);
    assert(length_prefix(n) == latin1(d) + seq![':']);
}

/// The bytes of a hint in advanced form: `[len:hint]`.
pub open spec fn hint_bytes(s: StringModel) -> Seq<u8> {
    match s.hint {
        Some(h) => seq![LBRACKET] + spec_decimal_digits(h.len()) + seq![COLON] + h + seq![RBRACKET],
        None => Seq::empty(),
    }
}

/// The bytes of string data in advanced form.
pub open spec fn data_bytes(data: Seq<u8>) -> Seq<u8> {
    if data.len() == 0 {
        seq![48u8, COLON]
    } else if ser_token(data) {
        data
    } else if ser_quotable(data) {
        seq![QUOTE] + encode_utf8(escape_chars(data)) + seq![QUOTE]
    } else {
        spec_decimal_digits(data.len()) + seq![COLON] + data
    }
}

proof fn lemma_string_bytes(s: StringModel)
    requires
        readable_string(s),
    ensures
        encode_utf8(advanced_string_chars(s)) == hint_bytes(s) + data_bytes(s.data),
{
    let h: Seq<char> = match s.hint {
        Some(hh) => seq!['['] + length_prefix(hh.len()) + utf8_lossy(hh) + seq![']'],
        None => Seq::empty(),
    };
    let data = s.data;
    let d: Seq<char> = if data.len() == 0 {
        seq!['0', ':']
    } else if ser_token(data) {
        latin1(data)
    } else if ser_quotable(data) {
        seq!['"'] + escape_chars(data) + seq!['"']
    } else {
        length_prefix(data.len()) + utf8_lossy(data)
    };
    assert(advanced_string_chars(s) == h + d);
    lemma_encode_concat(h, d);
    lemma_encode_ascii(seq!['[']);
    lemma_encode_ascii(seq![']']);
    lemma_encode_ascii(seq!['"']);
    assert(ascii_codes(seq!['[']) =~= seq![LBRACKET]);
    assert(ascii_codes(seq![']']) =~= seq![RBRACKET]);
    assert(ascii_codes(seq!['"']) =~= seq![QUOTE]);
    match s.hint {
        Some(hh) => {
            let p = length_prefix(hh.len());
            lemma_prefix_bytes(hh.len());
            lemma_encode_concat(seq!['['], p);
            lemma_encode_concat(seq!['['] + p, utf8_lossy(hh));
            lemma_encode_concat(seq!['['] + p + utf8_lossy(hh), seq![']']);
            assert(encode_utf8(h) =~= hint_bytes(s));
        },
        None => {
            assert(encode_utf8(h) =~= hint_bytes(s));
        },
    }
    if data.len() == 0 {
        lemma_encode_ascii(d);
        assert(ascii_codes(d) =~= data_bytes(data));
    } else if ser_token(data) {
        assert forall|i: int| 0 <= i < data.len() implies #[trigger] data[i] < 128 by {
            assert(ser_token_char(data[i]));
        }
        lemma_encode_latin1(data);
    } else if ser_quotable(data) {
        lemma_encode_concat(seq!['"'], escape_chars(data));
        lemma_encode_concat(seq!['"'] + escape_chars(data), seq!['"']);
        assert(encode_utf8(d) =~= data_bytes(data));
    } else {
        lemma_prefix_bytes(data.len());
        lemma_encode_concat(length_prefix(data.len()), utf8_lossy(data));
        assert(encode_utf8(d) =~= data_bytes(data));
    }
}

// ---------------------------------------------------------------------------
// Escapes inside quoted strings.

proof fn lemma_escape_front(data: Seq<u8>)
    requires
        data.len() > 0,
    ensures
        escape_chars(data) == escape_byte(data[0]) + escape_chars(data.drop_first()),
    decreases data.len(),
{
    if data.len() == 1 {
        assert(data.drop_last() =~= Seq::<u8>::empty());
        assert(data.drop_first() =~= Seq::<u8>::empty());
        assert(escape_chars(data) =~= escape_byte(data[0]) + escape_chars(data.drop_first()));
    } else {
        let dl = data.drop_last();
        lemma_escape_front(dl);
        assert(dl.drop_first() =~= data.drop_first().drop_last());
        assert(data.drop_first().last() == data.last());
        assert(escape_chars(data) =~= escape_byte(data[0]) + escape_chars(data.drop_first()));
    }
}

/// The bytes that the serializer writes for a byte of a quoted string.
pub open spec fn escape_bytes(c: u8) -> Seq<u8> {
    if c == 92 {
        seq![92u8, 92u8]
    } else if c == 34 {
        seq![92u8, 34u8]
    } else if c == 9 {
        seq![92u8, 116u8]
    } else if c == 10 {
        seq![92u8, 110u8]
    } else if c == 13 {
        seq![92u8, 114u8]
    } else {
        seq![c]
    }
}

proof fn lemma_escape_bytes(c: u8)
    requires
        quotable_char(c),
    ensures
        encode_utf8(escape_byte(c)) == escape_bytes(c),
{
    let e = escape_byte(c);
    assert(is_ascii_chars(e)) by {
        assert forall|i: int| 0 <= i < e.len() implies '\0' <= #[trigger] e[i] <= '\u{7f}' by {
        }
    }
    lemma_encode_ascii(e);
    assert(ascii_codes(e) =~= escape_bytes(c));
}

// ---------------------------------------------------------------------------
// The parser reading strings.

/// What the parser has yet to read.
pub open spec fn ahead(st: ParseState) -> Seq<u8> {
    st.input.skip(st.pos as int)
}

/// The parser `k` bytes further on.
pub open spec fn adv(st: ParseState, k: nat) -> ParseState {
    ParseState { pos: st.pos + k, ..st }
}

proof fn lemma_ahead_step(st: ParseState)
    requires
        st.pos <= st.input.len(),
        ahead(st).len() > 0,
    ensures
        st.pos < st.input.len(),
        ahead(st.advance()) == ahead(st).drop_first(),
        st.input[st.pos as int] == ahead(st)[0],
        st.peek() == Some(ahead(st)[0]),
{
    assert(ahead(st.advance()) =~= ahead(st).drop_first());
}

proof fn lemma_ahead_adv(st: ParseState, k: nat)
    requires
        st.pos + k <= st.input.len(),
    ensures
        ahead(adv(st, k)) == ahead(st).skip(k as int),
{
    assert(ahead(adv(st, k)) =~= ahead(st).skip(k as int));
}

proof fn lemma_skip_ws(st: ParseState, w: Seq<u8>, more: Seq<u8>)
    requires
        st.pos <= st.input.len(),
        ahead(st) == w + more,
        white(w),
        more.len() == 0 || !spec_is_whitespace(more[0]),
    ensures
        st.spec_skip_whitespace() == adv(st, w.len()),
    decreases w.len(),
{
    if w.len() == 0 {
        assert(w + more =~= more);
        if st.pos < st.input.len() {
            lemma_ahead_step(st);
        }
        assert(adv(st, 0) == st);
    } else {
        assert(ahead(st).len() > 0);
        lemma_ahead_step(st);
        assert(spec_is_whitespace(w[0]));
        assert((w + more).drop_first() =~= w.drop_first() + more);
        lemma_skip_ws(st.advance(), w.drop_first(), more);
    }
}

proof fn lemma_token_run(st: ParseState, t: Seq<u8>, acc: Seq<u8>, more: Seq<u8>)
    requires
        st.pos <= st.input.len(),
        ahead(st) == t + more,
        forall|i: int| 0 <= i < t.len() ==> #[trigger] spec_is_token_char(t[i]),
        more.len() == 0 || !spec_is_token_char(more[0]),
    ensures
        st.spec_token_run(acc) == (adv(st, t.len()), acc + t),
    decreases t.len(),
{
    if t.len() == 0 {
        assert(t + more =~= more);
        if st.pos < st.input.len() {
            lemma_ahead_step(st);
        }
        assert(adv(st, 0) == st);
        assert(acc + t =~= acc);
    } else {
        assert(ahead(st).len() > 0);
        lemma_ahead_step(st);
        assert(spec_is_token_char(t[0]));
        assert((t + more).drop_first() =~= t.drop_first() + more);
        lemma_token_run(st.advance(), t.drop_first(), acc.push(t[0]), more);
        assert(acc.push(t[0]) + t.drop_first() =~= acc + t);
    }
}

/// `len:data` read as a simple string.
#[verifier::spinoff_prover]
#[verifier::rlimit(50)]
proof fn lemma_verbatim_simple(st: ParseState, data: Seq<u8>, more: Seq<u8>)
    requires
        st.wf(),
        data.len() <= MAX_VERBATIM_LEN,
        ahead(st) == spec_decimal_digits(data.len()) + seq![COLON] + data + more,
    ensures
        st.spec_scan_simple() == (
            adv(st, spec_decimal_digits(data.len()).len() + 1 + data.len()),
            Ok::<Seq<u8>, SexpError>(data),
        ),
{
    let n = data.len();
    let d = spec_decimal_digits(n);
    lemma_decimal_digits(n);
    assert(pow10(7) == 10000000) by {
        reveal_with_fuel(pow10, 8);
    }
    lemma_decimal_digits_len(n, 7);
    let all = d + seq![COLON] + data + more;
    assert(ahead(st).len() > 0);
    lemma_ahead_step(st);
    assert(all[0] == d[0]);
    assert(spec_is_dec_digit(d[0]));
    lemma_skip_ws(st, Seq::empty(), all);
    assert(Seq::<u8>::empty() + all =~= all);
    assert(st.input.subrange(st.pos as int, st.pos + d.len() as int) =~= d) by {
        assert forall|i: int| 0 <= i < d.len() implies st.input[st.pos + i] == d[i] by {
            assert(ahead(st)[i] == all[i]);
        }
    }
    assert(st.input[st.pos + d.len() as int] == COLON) by {
        assert(ahead(st)[d.len() as int] == all[d.len() as int]);
    }
    assert(d.take(0) =~= Seq::<u8>::empty());
    lemma_decimal_run(st, d, 0);
    let s1 = adv(st, d.len());
    assert(st.spec_scan_decimal() == (s1, Ok::<u32, SexpError>(n as u32)));
    assert(s1.peek() == Some(COLON));
    let s2 = adv(st, d.len() + 1);
    assert(s1.spec_expect_char(COLON) == (s2, Ok::<(), SexpError>(())));
    assert(st.input.subrange(s2.pos as int, s2.pos + n as int) =~= data) by {
        assert forall|i: int| 0 <= i < n implies st.input[s2.pos + i] == data[i] by {
            assert(ahead(st)[d.len() + 1 + i] == all[d.len() + 1 + i]);
        }
    }
    assert(s1.spec_scan_verbatim(n as u32) == (adv(st, d.len() + 1 + n), Ok::<Seq<u8>, SexpError>(data)));
}

/// The rest of a quoted string: the escaped bytes of `data`, then `"`.
#[verifier::spinoff_prover]
#[verifier::rlimit(50)]
proof fn lemma_quoted_loop(st: ParseState, data: Seq<u8>, acc: Seq<u8>, more: Seq<u8>)
    requires
        st.pos <= st.input.len(),
        forall|i: int| 0 <= i < data.len() ==> #[trigger] quotable_char(data[i]),
        ahead(st) == encode_utf8(escape_chars(data)) + seq![QUOTE] + more,
    ensures
        st.spec_quoted_loop(acc, None) == (
            adv(st, encode_utf8(escape_chars(data)).len() + 1),
            Ok::<Seq<u8>, SexpError>(acc + data),
        ),
    decreases data.len(),
{
    let all = encode_utf8(escape_chars(data)) + seq![QUOTE] + more;
    assert(ahead(st).len() > 0);
    lemma_ahead_step(st);
    if data.len() == 0 {
        assert(escape_chars(data) =~= Seq::<char>::empty());
        assert(encode_utf8(escape_chars(data)) =~= Seq::<u8>::empty());
        assert(all[0] == QUOTE);
        assert(acc + data =~= acc);
    } else {
        let c = data[0];
        let rest = data.drop_first();
        lemma_escape_front(data);
        lemma_escape_bytes(c);
        lemma_encode_concat(escape_byte(c), escape_chars(rest));
        let eb = escape_bytes(c);
        let re = encode_utf8(escape_chars(rest));
        assert(all =~= eb + (re + seq![QUOTE] + more));
        assert forall|i: int| 0 <= i < rest.len() implies #[trigger] quotable_char(rest[i]) by {
            assert(quotable_char(data[i + 1]));
        }
        if c == 92 || c == 34 || c == 9 || c == 10 || c == 13 {
            let s1 = st.advance();
            assert(ahead(s1) =~= seq![eb[1]] + (re + seq![QUOTE] + more));
            lemma_ahead_step(s1);
            assert(simple_escape(eb[1]) == Some(c));
            let s2 = s1.advance();
            assert(s1.spec_escape() == (s2, Ok::<u8, SexpError>(c)));
            assert(ahead(s2) =~= re + seq![QUOTE] + more);
            lemma_quoted_loop(s2, rest, acc.push(c), more);
        } else {
            assert(eb == seq![c]);
            let s1 = st.advance();
            assert(ahead(s1) =~= re + seq![QUOTE] + more);
            lemma_quoted_loop(s1, rest, acc.push(c), more);
        }
        assert(acc.push(c) + rest =~= acc + data);
    }
}

/// The first byte of string data in advanced form is none of whitespace,
/// `[`, `(`, `)` and `{`.
proof fn lemma_data_first(data: Seq<u8>)
    ensures
        data_bytes(data).len() > 0,
        !spec_is_whitespace(data_bytes(data)[0]),
        data_bytes(data)[0] != LBRACKET,
        data_bytes(data)[0] != 40,
        data_bytes(data)[0] != 41,
        data_bytes(data)[0] != 123,
{
    if data.len() > 0 && ser_token(data) {
        assert(ser_token_char(data[0]));
    } else if data.len() > 0 && !ser_quotable(data) {
        lemma_decimal_digits(data.len());
        assert(spec_is_dec_digit(spec_decimal_digits(data.len())[0]));
    }
}

/// String data in advanced form read as a simple string.
#[verifier::spinoff_prover]
#[verifier::rlimit(50)]
proof fn lemma_data_simple(st: ParseState, data: Seq<u8>, more: Seq<u8>)
    requires
        st.wf(),
        written_verbatim(data) ==> data.len() <= MAX_VERBATIM_LEN,
        ahead(st) == data_bytes(data) + more,
        ser_token(data) ==> more.len() == 0 || !spec_is_token_char(more[0]),
    ensures
        st.spec_scan_simple() == (adv(st, data_bytes(data).len()), Ok::<Seq<u8>, SexpError>(data)),
{
    let db = data_bytes(data);
    lemma_data_first(data);
    assert(ahead(st).len() > 0);
    lemma_ahead_step(st);
    if data.len() == 0 {
        assert(spec_decimal_digits(0) == seq![48u8]);
        assert(db =~= spec_decimal_digits(0) + seq![COLON] + data);
        lemma_verbatim_simple(st, data, more);
    } else if ser_token(data) {
        assert(ser_token_char(data[0]));
        assert(ahead(st) =~= Seq::<u8>::empty() + ahead(st));
        lemma_skip_ws(st, Seq::empty(), ahead(st));
        assert forall|i: int| 0 <= i < data.len() implies #[trigger] spec_is_token_char(data[i]) by {
            assert(ser_token_char(data[i]));
        }
        lemma_token_run(st, data, Seq::empty(), more);
        assert(Seq::<u8>::empty() + data =~= data);
    } else if ser_quotable(data) {
        assert(ahead(st) =~= Seq::<u8>::empty() + ahead(st));
        lemma_skip_ws(st, Seq::empty(), ahead(st));
        assert(db[0] == QUOTE);
        let s1 = st.advance();
        assert(ahead(s1) =~= encode_utf8(escape_chars(data)) + seq![QUOTE] + more);
        assert forall|i: int| 0 <= i < data.len() implies #[trigger] quotable_char(data[i]) by {
        }
        lemma_quoted_loop(s1, data, Seq::empty(), more);
        assert(Seq::<u8>::empty() + data =~= data);
    } else {
        lemma_verbatim_simple(st, data, more);
    }
}

/// The first byte of a string in advanced form.
proof fn lemma_string_first(s: StringModel)
    ensures
        (hint_bytes(s) + data_bytes(s.data)).len() > 0,
        !spec_is_whitespace((hint_bytes(s) + data_bytes(s.data))[0]),
        (hint_bytes(s) + data_bytes(s.data))[0] == LBRACKET <==> s.hint is Some,
        (hint_bytes(s) + data_bytes(s.data))[0] != 40,
        (hint_bytes(s) + data_bytes(s.data))[0] != 41,
        (hint_bytes(s) + data_bytes(s.data))[0] != 123,
{
    lemma_data_first(s.data);
    if s.hint is None {
        assert(hint_bytes(s) + data_bytes(s.data) =~= data_bytes(s.data));
    }
}

/// A string in advanced form, hint included, read back.
#[verifier::spinoff_prover]
#[verifier::rlimit(50)]
proof fn lemma_string_read(st: ParseState, s: StringModel, more: Seq<u8>)
    requires
        st.wf(),
        readable_string(s),
        ahead(st) == hint_bytes(s) + data_bytes(s.data) + more,
        ser_token(s.data) ==> more.len() == 0 || !spec_is_token_char(more[0]),
    ensures
        st.spec_scan_string() == (
            adv(st, (hint_bytes(s) + data_bytes(s.data)).len()),
            Ok::<StringModel, SexpError>(s),
        ),
{
    let db = data_bytes(s.data);
    lemma_string_first(s);
    assert(ahead(st).len() > 0);
    lemma_ahead_step(st);
    assert(ahead(st) =~= Seq::<u8>::empty() + ahead(st));
    lemma_skip_ws(st, Seq::empty(), ahead(st));
    match s.hint {
        Some(h) => {
            let d = spec_decimal_digits(h.len());
            let s1 = st.advance();
            assert(ahead(s1) =~= d + seq![COLON] + h + (seq![RBRACKET] + db + more));
            lemma_verbatim_simple(s1, h, seq![RBRACKET] + db + more);
            let s2 = adv(s1, d.len() + 1 + h.len());
            let a1 = d + seq![COLON] + h + (seq![RBRACKET] + db + more);
            assert(a1.len() == ahead(s1).len());
            lemma_ahead_adv(s1, d.len() + 1 + h.len());
            assert(a1.skip((d.len() + 1 + h.len()) as int) =~= seq![RBRACKET] + (db + more));
            assert(ahead(s2) =~= seq![RBRACKET] + (db + more));
            lemma_ahead_step(s2);
            let s3 = s2.advance();
            assert(s2.spec_expect_char(RBRACKET) == (s3, Ok::<(), SexpError>(())));
            assert(ahead(s3) =~= db + more);
            lemma_data_simple(s3, s.data, more);
            assert(s3.spec_scan_simple() == (adv(st, (hint_bytes(s) + db).len()), Ok::<Seq<u8>, SexpError>(s.data)));
            assert(StringModel { data: s.data, hint: Some(h) } == s);
        },
        None => {
            assert(hint_bytes(s) + db =~= db);
            assert(ahead(st) =~= db + more);
            lemma_data_simple(st, s.data, more);
            assert(StringModel { data: s.data, hint: None } == s);
        },
    }
}

// ---------------------------------------------------------------------------
// Lists.

/// The bytes of an object in advanced form.
pub open spec fn adv_bytes(obj: SexpModel, c: SerLayout, tail: usize) -> Seq<u8> {
    encode_utf8(advanced_chars(obj, c, tail).0)
}

pub open spec fn adv_elems_bytes(elems: Seq<SexpModel>, first: bool, c: SerLayout, tail: usize) -> Seq<u8> {
    encode_utf8(advanced_elems_chars(elems, first, c, tail).0)
}

proof fn lemma_list_bytes(l: Seq<SexpModel>, c: SerLayout, tail: usize)
    ensures
        adv_bytes(SexpModel::List(l), c, tail) == seq![40u8] + adv_elems_bytes(
            l,
            true,
            SerLayout { column: crate::ser::sat_inc(c.column), depth: crate::ser::wrap_inc(c.depth), indent: crate::ser::wrap_inc(c.indent), ..c },
            tail,
        ) + seq![41u8],
{
    let c1 = SerLayout { column: crate::ser::sat_inc(c.column), depth: crate::ser::wrap_inc(c.depth), indent: crate::ser::wrap_inc(c.indent), ..c };
    let body = advanced_elems_chars(l, true, c1, tail).0;
    lemma_encode_concat(seq!['('], body);
    lemma_encode_concat(seq!['('] + body, seq![')']);
    lemma_encode_ascii(seq!['(']);
    lemma_encode_ascii(seq![')']);
    assert(ascii_codes(seq!['(']) =~= seq![40u8]);
    assert(ascii_codes(seq![')']) =~= seq![41u8]);
}

/// The first byte of an object in advanced form is none of whitespace, `)`
/// and `{`; a list's is `(`.
proof fn lemma_object_first(obj: SexpModel, c: SerLayout, tail: usize)
    requires
        readable(obj),
    ensures
        adv_bytes(obj, c, tail).len() > 0,
        !spec_is_whitespace(adv_bytes(obj, c, tail)[0]),
        adv_bytes(obj, c, tail)[0] != 41,
        adv_bytes(obj, c, tail)[0] != 123,
        (adv_bytes(obj, c, tail)[0] == 40) == (obj is List),
{
    match obj {
        SexpModel::Atom(s) => {
            lemma_string_bytes(s);
            lemma_string_first(s);
        },
        SexpModel::List(l) => {
            lemma_list_bytes(l, c, tail);
        },
    }
}

proof fn lemma_separator(first: bool, c: SerLayout, e: SexpModel, t: usize)
    ensures
        white(encode_utf8(separator(first, c, e, t).0)),
        !first ==> encode_utf8(separator(first, c, e, t).0).len() > 0
            && !spec_is_token_char(encode_utf8(separator(first, c, e, t).0)[0]),
{
    let p = separator(first, c, e, t).0;
    assert(is_ascii_chars(p)) by {
        assert forall|i: int| 0 <= i < p.len() implies '\0' <= #[trigger] p[i] <= '\u{7f}' by {
        }
    }
    lemma_encode_ascii(p);
    let b = ascii_codes(p);
    assert forall|i: int| 0 <= i < b.len() implies spec_is_whitespace(#[trigger] b[i]) by {
        assert(p[i] == ' ' || p[i] == '\n');
    }
    if !first {
        assert(b[0] == 32 || b[0] == 10);
    }
}

proof fn lemma_elems_split(l: Seq<SexpModel>, first: bool, c: SerLayout, tail: usize)
    requires
        l.len() > 0,
    ensures
        ({
            let t = crate::ser::elem_tail(l.len(), tail);
            let (p, c2) = separator(first, c, l[0], t);
            adv_elems_bytes(l, first, c, tail) == encode_utf8(p) + adv_bytes(l[0], c2, t)
                + adv_elems_bytes(l.drop_first(), false, advanced_chars(l[0], c2, t).1, tail)
        }),
{
    let t = crate::ser::elem_tail(l.len(), tail);
    let (p, c2) = separator(first, c, l[0], t);
    let (e, c3) = advanced_chars(l[0], c2, t);
    let rest = advanced_elems_chars(l.drop_first(), false, c3, tail).0;
    assert(advanced_elems_chars(l, first, c, tail).0 =~= p + e + rest);
    lemma_encode_concat(p, e);
    lemma_encode_concat(p + e, rest);
}

/// An object in advanced form read back, from any layout.
#[verifier::spinoff_prover]
#[verifier::rlimit(50)]
proof fn lemma_adv_object(st: ParseState, obj: SexpModel, c: SerLayout, tail: usize, more: Seq<u8>)
    requires
        st.wf(),
        readable(obj),
        st.depth + nesting(obj) <= st.max_depth,
        ahead(st) == adv_bytes(obj, c, tail) + more,
        more.len() == 0 || !spec_is_token_char(more[0]),
    ensures
        st.spec_scan_object() == (adv(st, adv_bytes(obj, c, tail).len()), Ok::<SexpModel, SexpError>(obj)),
    decreases obj, 1nat,
{
    lemma_object_first(obj, c, tail);
    assert(ahead(st).len() > 0);
    lemma_ahead_step(st);
    assert(ahead(st) =~= Seq::<u8>::empty() + ahead(st));
    lemma_skip_ws(st, Seq::empty(), ahead(st));
    match obj {
        SexpModel::Atom(s) => {
            lemma_string_bytes(s);
            assert(ahead(st) == hint_bytes(s) + data_bytes(s.data) + more);
            lemma_string_read(st, s, more);
        },
        SexpModel::List(l) => {
            let c1 = SerLayout { column: crate::ser::sat_inc(c.column), depth: crate::ser::wrap_inc(c.depth), indent: crate::ser::wrap_inc(c.indent), ..c };
            lemma_list_bytes(l, c, tail);
            let eb = adv_elems_bytes(l, true, c1, tail);
            let s1 = st.advance();
            assert(st.spec_expect_char(40u8) == (s1, Ok::<(), SexpError>(())));
            let s2 = ParseState { depth: (s1.depth + 1) as usize, ..s1 };
            assert(ahead(s2) =~= eb + seq![41u8] + more);
            assert forall|i: int| 0 <= i < l.len() implies s2.depth + nesting(#[trigger] l[i]) <= s2.max_depth by {
                lemma_nesting_elem(l, i);
            }
            lemma_adv_elems(s2, l, true, c1, tail, Seq::empty(), more);
            assert(Seq::<SexpModel>::empty() + l =~= l);
            assert(st.spec_scan_list() == (adv(st, adv_bytes(obj, c, tail).len()), Ok::<Seq<SexpModel>, SexpError>(l)));
        },
    }
}

/// The elements of a list in advanced form, then `)`.
#[verifier::spinoff_prover]
#[verifier::rlimit(50)]
proof fn lemma_adv_elems(st: ParseState, l: Seq<SexpModel>, first: bool, c: SerLayout, tail: usize, acc: Seq<SexpModel>, more: Seq<u8>)
    requires
        st.wf(),
        readable_elems(l),
        st.depth >= 1,
        forall|i: int| 0 <= i < l.len() ==> st.depth + nesting(#[trigger] l[i]) <= st.max_depth,
        ahead(st) == adv_elems_bytes(l, first, c, tail) + seq![41u8] + more,
    ensures
        st.spec_list_loop(acc) == (
            ParseState { pos: st.pos + adv_elems_bytes(l, first, c, tail).len() + 1, depth: (st.depth - 1) as usize, ..st },
            Ok::<Seq<SexpModel>, SexpError>(acc + l),
        ),
    decreases l, 0nat,
{
    if l.len() == 0 {
        assert(advanced_elems_chars(l, first, c, tail).0 =~= Seq::<char>::empty());
        assert(adv_elems_bytes(l, first, c, tail) =~= Seq::<u8>::empty());
        assert(ahead(st) =~= seq![41u8] + more);
        lemma_ahead_step(st);
        lemma_skip_ws(st, Seq::empty(), ahead(st));
        assert(Seq::<u8>::empty() + ahead(st) =~= ahead(st));
        assert(acc + l =~= acc);
    } else {
        let t = crate::ser::elem_tail(l.len(), tail);
        let (p, c2) = separator(first, c, l[0], t);
        let (e, c3) = advanced_chars(l[0], c2, t);
        let w = encode_utf8(p);
        let eb = adv_bytes(l[0], c2, t);
        let rb = adv_elems_bytes(l.drop_first(), false, c3, tail);
        lemma_elems_split(l, first, c, tail);
        lemma_separator(first, c, l[0], t);
        assert(readable(l[0]));
        lemma_object_first(l[0], c2, t);
        let after = eb + rb + seq![41u8] + more;
        assert(ahead(st) =~= w + after);
        lemma_skip_ws(st, w, after);
        let s0 = adv(st, w.len());
        lemma_ahead_adv(st, w.len());
        assert(ahead(s0) =~= eb + (rb + seq![41u8] + more));
        let more1 = rb + seq![41u8] + more;
        if l.drop_first().len() > 0 {
            let l1 = l.drop_first();
            lemma_separator(false, c3, l1[0], crate::ser::elem_tail(l1.len(), tail));
            lemma_elems_split(l1, false, c3, tail);
            assert(!spec_is_token_char(more1[0]));
        } else {
            assert(advanced_elems_chars(l.drop_first(), false, c3, tail).0 =~= Seq::<char>::empty());
            assert(rb =~= Seq::<u8>::empty());
            assert(more1[0] == 41);
        }
        assert(st.depth + nesting(l[0]) <= st.max_depth);
        lemma_ahead_step(s0);
        lemma_adv_object(s0, l[0], c2, t, more1);
        let s1 = adv(s0, eb.len());
        lemma_ahead_adv(s0, eb.len());
        assert(ahead(s1) =~= rb + seq![41u8] + more);
        assert forall|i: int| 0 <= i < l.drop_first().len() implies s1.depth + nesting(#[trigger] l.drop_first()[i]) <= s1.max_depth by {
            assert(l.drop_first()[i] == l[i + 1]);
        }
        lemma_adv_elems(s1, l.drop_first(), false, c3, tail, acc.push(l[0]), more);
        assert(acc.push(l[0]) + l.drop_first() =~= acc + l);
    }
}

/// The advanced form reads back: for every object whose lists nest at most
/// 1024 deep, `parse_advanced` of the UTF-8 text that `serialize` writes in
/// advanced form gives the object, provided each hint, and each string
/// written as `length:bytes`, is at most 1 MiB long and keeps its bytes
/// through the lossy UTF-8 text (as valid UTF-8 does).
pub proof fn law_advanced_round_trip(obj: SexpModel)
    requires
        nesting(obj) <= DEFAULT_MAX_DEPTH,
    ensures
        readable(obj) ==> spec_parse_advanced(encode_utf8(serialized(obj, PrintMode::Advanced)))
            == Ok::<SexpModel, SexpError>(obj),
{
    if readable(obj) {
        let c = initial_layout();
        let input = adv_bytes(obj, c, 0);
        let st = initial_state(input);
        assert(ahead(st) =~= input + Seq::<u8>::empty());
        lemma_adv_object(st, obj, c, 0, Seq::empty());
        let s1 = adv(st, input.len());
        assert(s1.spec_skip_whitespace() == s1);
    }
}

} // verus!
