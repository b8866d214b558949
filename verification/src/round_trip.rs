//! What the parser gives back of what the serializer writes.
use vstd::prelude::*;
use crate::chars::{spec_is_dec_digit, spec_is_whitespace, COLON};
use crate::depth::DEFAULT_MAX_DEPTH;
use crate::error::SexpError;
use crate::num::{all_dec_digits, lemma_decimal_digits, lemma_decimal_digits_len,
    lemma_decimal_value_monotone, pow10, spec_decimal_digits, spec_decimal_value};
use crate::parse::{initial_state, spec_parse_canonical, ParseState, MAX_VERBATIM_LEN};
use crate::ser::{
    canonical_bytes, canonical_chars, canonical_elems_bytes, canonical_elems_chars, canonical_string_chars,
    length_prefix, serialized, PrintMode,
};
use crate::advanced_round_trip::{
    ascii_codes, lemma_encode_ascii, lemma_encode_concat, lemma_prefix_bytes, lossless,
};
use crate::text::utf8_lossy;
use vstd::utf8::{encode_utf8, valid_utf8};
use crate::types::{nesting, nesting_elems, SexpModel, StringModel};

verus! {

/// Every string of `obj` is without a presentation hint and within the
/// parser's limit on verbatim strings.
pub open spec fn plain(obj: SexpModel) -> bool
    decreases obj, 1nat,
{
    match obj {
        SexpModel::Atom(s) => s.hint is None && s.data.len() <= MAX_VERBATIM_LEN,
        SexpModel::List(l) => plain_elems(l),
    }
}

pub open spec fn plain_elems(elems: Seq<SexpModel>) -> bool
    decreases elems, 0nat,
{
    elems.len() == 0 || (plain_elems(elems.drop_last()) && plain(elems.last()))
}

proof fn lemma_elems_index(elems: Seq<SexpModel>, i: int)
    requires
        0 <= i < elems.len(),
    ensures
        plain_elems(elems) ==> plain(elems[i]),
        nesting(elems[i]) <= nesting_elems(elems),
    decreases elems.len(),
{
    if i < elems.len() - 1 {
        lemma_elems_index(elems.drop_last(), i);
    }
}

/// The canonical bytes of the first `j` elements start with those of the
/// first `i`.
proof fn lemma_elems_bytes_prefix(elems: Seq<SexpModel>, i: int, j: int)
    requires
        0 <= i <= j <= elems.len(),
    ensures
        canonical_elems_bytes(elems.take(i)).len() <= canonical_elems_bytes(elems.take(j)).len(),
        canonical_elems_bytes(elems.take(j)).subrange(0, canonical_elems_bytes(elems.take(i)).len() as int)
            == canonical_elems_bytes(elems.take(i)),
    decreases j - i,
{
    if i < j {
        lemma_elems_bytes_prefix(elems, i, j - 1);
        assert(elems.take(j).drop_last() == elems.take(j - 1));
        let a = canonical_elems_bytes(elems.take(i));
        let b = canonical_elems_bytes(elems.take(j - 1));
        let c = canonical_elems_bytes(elems.take(j));
        assert(c == b + canonical_bytes(elems.take(j).last()));
        assert(c.subrange(0, a.len() as int) == b.subrange(0, a.len() as int));
    } else {
        assert(canonical_elems_bytes(elems.take(j)).subrange(0, canonical_elems_bytes(elems.take(j)).len() as int)
            == canonical_elems_bytes(elems.take(j)));
    }
}

/// Canonical bytes start with `(` or a digit.
proof fn lemma_canonical_first(obj: SexpModel)
    ensures
        canonical_bytes(obj).len() >= 1,
        canonical_bytes(obj)[0] == 40 || spec_is_dec_digit(canonical_bytes(obj)[0]),
{
    match obj {
        SexpModel::Atom(s) => {
            lemma_decimal_digits(s.data.len());
        },
        SexpModel::List(l) => {},
    }
}

/// The parser reads the digits `d` (which are followed by something other
/// than a digit) into their value.
pub(crate) proof fn lemma_decimal_run(st: ParseState, d: Seq<u8>, i: nat)
    requires
        st.wf(),
        1 <= d.len() <= 9,
        i <= d.len(),
        all_dec_digits(d),
        spec_decimal_value(d) <= u32::MAX,
        st.pos + d.len() < st.input.len(),
        st.input.subrange(st.pos as int, st.pos + d.len() as int) == d,
        !spec_is_dec_digit(st.input[st.pos + d.len() as int]),
    ensures
        (ParseState { pos: st.pos + i, ..st }).spec_decimal_loop(spec_decimal_value(d.take(i as int)), i)
            == (ParseState { pos: st.pos + d.len(), ..st }, Ok::<u32, SexpError>(spec_decimal_value(d) as u32)),
    decreases d.len() - i,
{
    let si = ParseState { pos: st.pos + i, ..st };
    if i < d.len() {
        assert(st.input[st.pos + i as int] == d[i as int]);
        assert(spec_is_dec_digit(d[i as int]));
        assert(d.take(i + 1 as int).drop_last() == d.take(i as int));
        assert(d.take(i + 1 as int) == d.subrange(0, i + 1 as int));
        lemma_decimal_value_monotone(d, i + 1 as int);
        lemma_decimal_run(st, d, (i + 1) as nat);
    } else {
        assert(d.take(i as int) == d);
    }
}

/// Reading canonical bytes of a plain object, not nested too deeply, gives
/// the object back and stops right after those bytes.
proof fn lemma_scan_canonical(st: ParseState, obj: SexpModel)
    requires
        st.wf(),
        plain(obj),
        st.depth + nesting(obj) <= st.max_depth,
        st.pos + canonical_bytes(obj).len() <= st.input.len(),
        st.input.subrange(st.pos as int, st.pos + canonical_bytes(obj).len() as int) == canonical_bytes(obj),
    ensures
        st.spec_scan_object() == (
            ParseState { pos: st.pos + canonical_bytes(obj).len(), ..st },
            Ok::<SexpModel, SexpError>(obj),
        ),
    decreases obj, 0nat,
{
    let cb = canonical_bytes(obj);
    lemma_canonical_first(obj);
    assert(st.input[st.pos as int] == cb[0]);
    assert(st.spec_skip_whitespace() == st);
    match obj {
        SexpModel::Atom(s) => {
            let n = s.data.len();
            let d = spec_decimal_digits(n);
            lemma_decimal_digits(n);
            assert(pow10(7) == 10000000) by {
                reveal_with_fuel(pow10, 8);
            }
            lemma_decimal_digits_len(n, 7);
            assert(cb == d.push(COLON) + s.data);
            assert(st.input.subrange(st.pos as int, st.pos + d.len() as int) == d) by {
                assert(cb.subrange(0, d.len() as int) == d);
            }
            assert(st.input[st.pos + d.len() as int] == COLON) by {
                assert(cb[d.len() as int] == COLON);
            }
            assert(d.take(0) == Seq::<u8>::empty());
            lemma_decimal_run(st, d, 0);
            let s1 = ParseState { pos: st.pos + d.len(), ..st };
            assert(st.spec_scan_decimal() == (s1, Ok::<u32, SexpError>(n as u32)));
            let s2 = ParseState { pos: st.pos + d.len() + 1, ..st };
            assert(s1.spec_expect_char(COLON) == (s2, Ok::<(), SexpError>(())));
            assert(st.input.subrange(s2.pos as int, s2.pos + n as int) == s.data) by {
                assert(cb.subrange(d.len() + 1 as int, cb.len() as int) == s.data);
            }
            assert(s1.spec_scan_verbatim(n as u32) == (
                ParseState { pos: st.pos + cb.len(), ..st },
                Ok::<Seq<u8>, SexpError>(s.data),
            ));
            assert(st.spec_scan_string() == (
                ParseState { pos: st.pos + cb.len(), ..st },
                Ok::<StringModel, SexpError>(StringModel { data: s.data, hint: None }),
            ));
            assert(cb[0] == d[0]);
            assert(spec_is_dec_digit(d[0]));
            assert(st.peek() == Some(cb[0]));
            assert(StringModel { data: s.data, hint: None } == s);
        },
        SexpModel::List(l) => {
            let eb = canonical_elems_bytes(l);
            assert(cb == seq![40u8] + eb + seq![41u8]);
            let s2 = ParseState { pos: st.pos + 1, depth: (st.depth + 1) as usize, ..st };
            assert(st.spec_expect_char(40u8) == (st.advance(), Ok::<(), SexpError>(())));
            assert(l.take(0) == Seq::<SexpModel>::empty());
            assert(st.input.subrange(st.pos + 1 as int, st.pos + 1 + eb.len() + 1 as int) == eb + seq![41u8]) by {
                assert(cb.subrange(1, cb.len() as int) == eb + seq![41u8]);
            }
            lemma_scan_elems(s2, (st.pos + 1) as nat, l, 0);
            let fin = ParseState { pos: st.pos + cb.len(), ..st };
            assert(s2.spec_list_loop(Seq::empty()) == (fin, Ok::<Seq<SexpModel>, SexpError>(l)));
            assert(st.spec_scan_list() == (fin, Ok::<Seq<SexpModel>, SexpError>(l)));
            assert(st.spec_skip_whitespace().peek() == Some(40u8));
            assert(st.spec_scan_object() == (fin, Ok::<SexpModel, SexpError>(obj)));
        },
    }
}

/// The elements of a list from the `i`-th on, then `)`.
proof fn lemma_scan_elems(st: ParseState, start: nat, l: Seq<SexpModel>, i: nat)
    requires
        st.wf(),
        plain_elems(l),
        i <= l.len(),
        st.depth >= 1,
        st.depth + nesting_elems(l) <= st.max_depth,
        st.pos == start + canonical_elems_bytes(l.take(i as int)).len(),
        start + canonical_elems_bytes(l).len() + 1 <= st.input.len(),
        st.input.subrange(start as int, start + canonical_elems_bytes(l).len() + 1 as int)
            == canonical_elems_bytes(l) + seq![41u8],
    ensures
        st.spec_list_loop(l.take(i as int)) == (
            ParseState {
                pos: start + canonical_elems_bytes(l).len() + 1,
                depth: (st.depth - 1) as usize,
                ..st
            },
            Ok::<Seq<SexpModel>, SexpError>(l),
        ),
    decreases l, l.len() - i,
{
    let eb = canonical_elems_bytes(l);
    let whole = eb + seq![41u8];
    lemma_elems_bytes_prefix(l, i as int, l.len() as int);
    assert(l.take(l.len() as int) == l);
    let pre = canonical_elems_bytes(l.take(i as int));
    if i == l.len() {
        assert(l.take(i as int) == l);
        assert(st.input[st.pos as int] == whole[eb.len() as int]);
        assert(st.spec_skip_whitespace() == st);
    } else {
        let x = l[i as int];
        lemma_elems_index(l, i as int);
        lemma_elems_bytes_prefix(l, i + 1 as int, l.len() as int);
        assert(l.take(i + 1 as int).drop_last() == l.take(i as int));
        let pre1 = canonical_elems_bytes(l.take(i + 1 as int));
        assert(pre1 == pre + canonical_bytes(x));
        let cbx = canonical_bytes(x);
        assert(st.input.subrange(st.pos as int, st.pos + cbx.len() as int) == cbx) by {
            assert(eb.subrange(0, pre1.len() as int) == pre1);
            assert(pre1.subrange(pre.len() as int, pre1.len() as int) == cbx);
            assert(whole.subrange(pre.len() as int, pre1.len() as int) == cbx);
        }
        lemma_canonical_first(x);
        assert(st.input[st.pos as int] == cbx[0]);
        assert(st.spec_skip_whitespace() == st);
        lemma_scan_canonical(st, x);
        let s1 = ParseState { pos: st.pos + cbx.len(), ..st };
        assert(l.take(i as int).push(x) == l.take(i + 1 as int));
        lemma_scan_elems(s1, start, l, (i + 1) as nat);
    }
}

/// Canonical bytes read back: for every object whose strings carry no
/// presentation hint and are at most 1 MiB long, and whose lists nest at
/// most 1024 deep, `parse_canonical` of its canonical bytes gives the object.
pub proof fn law_canonical_round_trip(obj: SexpModel)
    requires
        plain(obj),
        nesting(obj) <= DEFAULT_MAX_DEPTH,
    ensures
        spec_parse_canonical(canonical_bytes(obj)) == Ok::<SexpModel, SexpError>(obj),
{
    let input = canonical_bytes(obj);
    let st = initial_state(input);
    assert(input.subrange(0, input.len() as int) == input);
    lemma_scan_canonical(st, obj);
}

/// Every string of `obj` is without a presentation hint and keeps its bytes
/// through the lossy UTF-8 text (as valid UTF-8 does).
pub open spec fn plain_lossless(obj: SexpModel) -> bool
    decreases obj, 1nat,
{
    match obj {
        SexpModel::Atom(s) => s.hint is None && lossless(s.data),
        SexpModel::List(l) => plain_lossless_elems(l),
    }
}

pub open spec fn plain_lossless_elems(elems: Seq<SexpModel>) -> bool
    decreases elems, 0nat,
{
    elems.len() == 0 || (plain_lossless_elems(elems.drop_last()) && plain_lossless(elems.last()))
}

/// Every string of `obj` is without a presentation hint and valid UTF-8.
pub open spec fn plain_utf8(obj: SexpModel) -> bool
    decreases obj, 1nat,
{
    match obj {
        SexpModel::Atom(s) => s.hint is None && valid_utf8(s.data),
        SexpModel::List(l) => plain_utf8_elems(l),
    }
}

pub open spec fn plain_utf8_elems(elems: Seq<SexpModel>) -> bool
    decreases elems, 0nat,
{
    elems.len() == 0 || (plain_utf8_elems(elems.drop_last()) && plain_utf8(elems.last()))
}

proof fn lemma_canonical_text(obj: SexpModel)
    requires
        plain_lossless(obj),
    ensures
        encode_utf8(canonical_chars(obj)) == canonical_bytes(obj),
    decreases obj, 1nat,
{
    match obj {
        SexpModel::Atom(s) => {
            let p = length_prefix(s.data.len());
            lemma_prefix_bytes(s.data.len());
            lemma_encode_concat(p, utf8_lossy(s.data));
            assert(canonical_string_chars(s) =~= p + utf8_lossy(s.data));
        },
        SexpModel::List(l) => {
            lemma_canonical_elems_text(l);
            let body = canonical_elems_chars(l);
            lemma_encode_concat(seq!['('], body);
            lemma_encode_concat(seq!['('] + body, seq![')']);
            lemma_encode_ascii(seq!['(']);
            lemma_encode_ascii(seq![')']);
            assert(ascii_codes(seq!['(']) =~= seq![40u8]);
            assert(ascii_codes(seq![')']) =~= seq![41u8]);
        },
    }
}

proof fn lemma_canonical_elems_text(elems: Seq<SexpModel>)
    requires
        plain_lossless_elems(elems),
    ensures
        encode_utf8(canonical_elems_chars(elems)) == canonical_elems_bytes(elems),
    decreases elems, 0nat,
{
    if elems.len() == 0 {
        assert(encode_utf8(Seq::<char>::empty()) =~= Seq::<u8>::empty());
    } else {
        lemma_canonical_elems_text(elems.drop_last());
        lemma_canonical_text(elems.last());
        lemma_encode_concat(canonical_elems_chars(elems.drop_last()), canonical_chars(elems.last()));
    }
}

/// The canonical text and the canonical bytes agree: for an object without
/// hints whose strings keep their bytes through the lossy UTF-8 text (as
/// valid UTF-8 does), the UTF-8 encoding of what `serialize` writes in
/// canonical form is what `serialize_canonical_bytes` gives.
pub proof fn law_canonical_text_is_bytes(obj: SexpModel)
    requires
        plain_lossless(obj),
    ensures
        encode_utf8(serialized(obj, PrintMode::Canonical)) == canonical_bytes(obj),
{
    lemma_canonical_text(obj);
}

} // verus!
