//! The streaming reader inside a hexadecimal or base64 region: what it
//! decodes from the text of the region.
use vstd::prelude::*;
use crate::chars::{
    spec_base64_value, spec_hex_value, spec_is_base64_digit, spec_is_hex_digit, spec_is_whitespace, spec_low_byte,
    BAR, EQUALS, HASH, RBRACE,
};
use crate::error::SexpError;
use crate::input::{lemma_slice_next_read, next_count, CharSource, SexpInputStream, SliceSource, EOF};
use crate::stream_round_trip::{plain_reader, reader, same_settings, upcoming};

verus! {

/// A digit of a region coded with `size` bits per character: hexadecimal
/// for 4, base64 for 6.
pub open spec fn coded_digit(size: u32, c: u8) -> bool {
    if size == 4 { spec_is_hex_digit(c) } else { spec_is_base64_digit(c) }
}

pub open spec fn digit_value(size: u32, c: u8) -> u32 {
    if size == 4 { spec_hex_value(c) as u32 } else { spec_base64_value(c) as u32 }
}

/// A character that may stand inside such a region: a digit, whitespace,
/// and in base64 the padding `=`.
pub open spec fn coded_char(size: u32, c: u8) -> bool {
    coded_digit(size, c) || spec_is_whitespace(c) || (size != 4 && c == EQUALS)
}

/// A character that ends such a region: `#` for hexadecimal, `|` or `}`
/// for base64.
pub open spec fn end_char(size: u32, c: u8) -> bool {
    if size == 4 { c == HASH } else { c == BAR || c == RBRACE }
}

/// How many region characters `t` starts with.
pub open spec fn region_len(size: u32, t: Seq<u8>) -> nat
    decreases t.len(),
{
    if t.len() > 0 && coded_char(size, t[0]) { 1 + region_len(size, t.drop_first()) } else { 0 }
}

/// The bytes that the reader decodes from the region text `t`, with `n`
/// bits `bits` pending; whitespace and padding are passed over.
pub open spec fn decode_from(size: u32, n: u32, bits: u32, t: Seq<u8>) -> Seq<u8>
    decreases t.len(),
{
    if t.len() == 0 {
        Seq::empty()
    } else if coded_digit(size, t[0]) {
        let b2 = (bits << size) | digit_value(size, t[0]);
        let n2 = (n + size) as u32;
        if n2 >= 8 {
            seq![((b2 >> ((n2 - 8) as u32)) & 0xff) as u8] + decode_from(size, (n2 - 8) as u32, b2, t.drop_first())
        } else {
            decode_from(size, n2, b2, t.drop_first())
        }
    } else {
        decode_from(size, n, bits, t.drop_first())
    }
}

/// Whether the bits left over once the region text `t` is decoded (from `n`
/// bits `bits` pending) are all zero.
pub open spec fn left_zero(size: u32, n: u32, bits: u32, t: Seq<u8>) -> bool
    decreases t.len(),
{
    if t.len() == 0 {
        n == 0 || (((1u32 << n) - 1) as u32) & bits == 0
    } else if coded_digit(size, t[0]) {
        let b2 = (bits << size) | digit_value(size, t[0]);
        let n2 = (n + size) as u32;
        if n2 >= 8 {
            left_zero(size, (n2 - 8) as u32, b2, t.drop_first())
        } else {
            left_zero(size, n2, b2, t.drop_first())
        }
    } else {
        left_zero(size, n, bits, t.drop_first())
    }
}

/// A reader between calls inside a region: its lookahead is a decoded byte,
/// its source holds the rest of the region and then the character that ends
/// it; the region leaves no nonzero bits over.
pub open spec fn region_reader<'a>(r: SexpInputStream<SliceSource<'a>>) -> bool {
    let rem = r.source.remaining();
    let k = region_len(r.byte_size, rem);
    &&& r.wf()
    &&& 0 <= r.next_char <= 255
    &&& (r.byte_size == 4 || r.byte_size == 6)
    &&& r.next_char != EOF
    &&& k < rem.len()
    &&& end_char(r.byte_size, rem[k as int])
    &&& left_zero(r.byte_size, r.n_bits, r.bits, rem.take(k as int))
}

/// The bytes that the rest of the region decodes to, after the lookahead.
pub open spec fn decoded<'a>(r: SexpInputStream<SliceSource<'a>>) -> Seq<u8> {
    let rem = r.source.remaining();
    decode_from(r.byte_size, r.n_bits, r.bits, rem.take(region_len(r.byte_size, rem) as int))
}

/// What follows the region: the character that ends it, and so on.
pub open spec fn after_region<'a>(r: SexpInputStream<SliceSource<'a>>) -> Seq<u8> {
    let rem = r.source.remaining();
    rem.skip(region_len(r.byte_size, rem) as int)
}

pub proof fn lemma_region_len_bound(size: u32, t: Seq<u8>)
    ensures
        region_len(size, t) <= t.len(),
    decreases t.len(),
{
    if t.len() > 0 && coded_char(size, t[0]) {
        lemma_region_len_bound(size, t.drop_first());
    }
}

proof fn lemma_region_len_step(size: u32, rem: Seq<u8>)
    requires
        rem.len() > 0,
        coded_char(size, rem[0]),
    ensures
        region_len(size, rem) == 1 + region_len(size, rem.drop_first()),
        rem.take(region_len(size, rem) as int).drop_first() == rem.drop_first().take(
            region_len(size, rem.drop_first()) as int,
        ),
        rem.take(region_len(size, rem) as int)[0] == rem[0],
        rem.skip(region_len(size, rem) as int) == rem.drop_first().skip(region_len(size, rem.drop_first()) as int),
{
    let k = region_len(size, rem.drop_first()) as int;
    lemma_region_len_bound(size, rem.drop_first());
    assert(rem.take(k + 1).drop_first() =~= rem.drop_first().take(k));
    assert(rem.skip(k + 1) =~= rem.drop_first().skip(k));
}

/// Region text, then a character that cannot stand in a region.
pub proof fn lemma_region_len_text(size: u32, t: Seq<u8>, after: Seq<u8>)
    requires
        forall|i: int| 0 <= i < t.len() ==> coded_char(size, #[trigger] t[i]),
        after.len() > 0,
        !coded_char(size, after[0]),
    ensures
        region_len(size, t + after) == t.len(),
        (t + after).take(t.len() as int) == t,
        (t + after).skip(t.len() as int) == after,
    decreases t.len(),
{
    if t.len() == 0 {
        assert(t + after =~= after);
    } else {
        assert((t + after)[0] == t[0]);
        assert((t + after).drop_first() =~= t.drop_first() + after);
        assert forall|i: int| 0 <= i < t.drop_first().len() implies coded_char(size, #[trigger] t.drop_first()[i]) by {
            assert(coded_char(size, t[i + 1]));
        }
        lemma_region_len_text(size, t.drop_first(), after);
    }
    assert((t + after).take(t.len() as int) =~= t);
    assert((t + after).skip(t.len() as int) =~= after);
}

/// The steps of `get_char` inside a region, from a state whose source holds
/// the rest of the region and then the character that ends it.
#[verifier::spinoff_prover]
#[verifier::rlimit(80)]
pub(crate) proof fn lemma_region_loop<'a>(s: SexpInputStream<SliceSource<'a>>)
    requires
        s.byte_size == 4 || s.byte_size == 6,
        s.n_bits < 8,
        region_len(s.byte_size, s.source.remaining()) < s.source.remaining().len(),
        end_char(s.byte_size, s.source.remaining()[region_len(s.byte_size, s.source.remaining()) as int]),
        left_zero(
            s.byte_size,
            s.n_bits,
            s.bits,
            s.source.remaining().take(region_len(s.byte_size, s.source.remaining()) as int),
        ),
    ensures
        s.spec_get_char_loop().1 is Ok,
        reader(s.spec_get_char_loop().0),
        upcoming(s.spec_get_char_loop().0) == decode_from(
            s.byte_size,
            s.n_bits,
            s.bits,
            s.source.remaining().take(region_len(s.byte_size, s.source.remaining()) as int),
        ) + s.source.remaining().skip(region_len(s.byte_size, s.source.remaining()) as int),
        decode_from(
            s.byte_size,
            s.n_bits,
            s.bits,
            s.source.remaining().take(region_len(s.byte_size, s.source.remaining()) as int),
        ).len() > 0 ==> region_reader(s.spec_get_char_loop().0) && s.spec_get_char_loop().0.byte_size == s.byte_size
            && decoded(s.spec_get_char_loop().0) == decode_from(
            s.byte_size,
            s.n_bits,
            s.bits,
            s.source.remaining().take(region_len(s.byte_size, s.source.remaining()) as int),
        ).drop_first() && after_region(s.spec_get_char_loop().0) == s.source.remaining().skip(
            region_len(s.byte_size, s.source.remaining()) as int,
        ),
        decode_from(
            s.byte_size,
            s.n_bits,
            s.bits,
            s.source.remaining().take(region_len(s.byte_size, s.source.remaining()) as int),
        ).len() == 0 ==> plain_reader(s.spec_get_char_loop().0),
        s.spec_get_char_loop().0.source.pending() < s.source.pending(),
        same_settings(s.spec_get_char_loop().0, s),
    decreases s.source.pending(),
{
    let size = s.byte_size;
    let rem = s.source.remaining();
    let k = region_len(size, rem);
    lemma_slice_next_read(s.source);
    let (c, src) = s.source.next_read();
    let st = SexpInputStream { source: src, count: next_count(s.count), next_char: c, ..s };
    assert(c == rem[0] as i32);
    let byte = spec_low_byte(c);
    assert(byte == rem[0]);
    lemma_slice_next_read(src);
    if k == 0 {
        assert(end_char(size, byte));
        assert(rem.take(0) =~= Seq::<u8>::empty());
        assert(rem.skip(0) == rem);
        let out = st.with_byte_size(8);
        assert(s.spec_get_char_loop() == (out, Ok::<(), SexpError>(())));
        assert(plain_reader(out));
        assert(upcoming(out) =~= seq![byte] + rem.drop_first());
        assert(rem =~= seq![byte] + rem.drop_first());
        assert(decode_from(size, s.n_bits, s.bits, Seq::<u8>::empty()) + rem =~= rem);
    } else {
        lemma_region_len_step(size, rem);
        let rem1 = rem.drop_first();
        let k1 = region_len(size, rem1);
        assert(src.remaining() == rem1);
        assert(rem1[k1 as int] == rem[k as int]);
        let t = rem.take(k as int);
        assert(t.drop_first() == rem1.take(k1 as int));
        assert(coded_char(size, byte));
        assert(!end_char(size, byte));
        assert(!(size == 6 && (byte == BAR || byte == RBRACE)) && !(size == 4 && byte == HASH));
        if coded_digit(size, byte) {
            assert(!spec_is_whitespace(byte) && !(size == 6 && byte == EQUALS));
            let digit = digit_value(size, byte);
            let bits = (s.bits << size) | digit;
            let n2 = (s.n_bits + size) as u32;
            let st2 = SexpInputStream { bits, n_bits: n2, ..st };
            if n2 >= 8 {
                let sh = (n2 - 8) as u32;
                let v = (bits >> sh) & 0xff;
                assert(v <= 0xff) by (bit_vector)
                    requires v == (bits >> sh) & 0xff;
                let out = SexpInputStream { next_char: v as i32, n_bits: (n2 - 8) as u32, ..st2 };
                assert(s.spec_get_char_loop() == (out, Ok::<(), SexpError>(())));
                assert(region_reader(out));
                assert((v as i32) as u8 == v as u8);
                assert(decode_from(size, s.n_bits, s.bits, t) == seq![v as u8] + decode_from(size, (n2 - 8) as u32, bits, t.drop_first()));
                assert(upcoming(out) =~= seq![v as u8] + decode_from(size, (n2 - 8) as u32, bits, rem1.take(k1 as int)) + rem1.skip(k1 as int));
                assert(decoded(out) =~= decode_from(size, s.n_bits, s.bits, t).drop_first());
            } else {
                assert(s.spec_get_char_loop() == st2.spec_get_char_loop());
                lemma_region_loop(st2);
            }
        } else {
            assert(spec_is_whitespace(byte) || (size == 6 && byte == EQUALS));
            assert(s.spec_get_char_loop() == st.spec_get_char_loop());
            lemma_region_loop(st);
        }
    }
}

/// `get_char` inside a region gives the next decoded byte; after the last
/// one, the character that ends the region, with 8-bit characters again.
pub(crate) proof fn lemma_region_get_char<'a>(r: SexpInputStream<SliceSource<'a>>)
    requires
        region_reader(r),
    ensures
        r.spec_get_char().1 is Ok,
        reader(r.spec_get_char().0),
        upcoming(r.spec_get_char().0) == upcoming(r).drop_first(),
        same_settings(r.spec_get_char().0, r),
        r.spec_get_char().0.measure() < r.measure(),
        decoded(r).len() > 0 ==> region_reader(r.spec_get_char().0) && r.spec_get_char().0.byte_size == r.byte_size
            && decoded(r.spec_get_char().0) == decoded(r).drop_first()
            && after_region(r.spec_get_char().0) == after_region(r),
        decoded(r).len() == 0 ==> plain_reader(r.spec_get_char().0),
{
    let rem = r.source.remaining();
    let k = region_len(r.byte_size, rem) as int;
    lemma_region_loop(r);
    assert(upcoming(r).drop_first() =~= decode_from(r.byte_size, r.n_bits, r.bits, rem.take(k)) + rem.skip(k));
}

/// The region text and what ends it, when decoded bytes are yet to come.
pub(crate) proof fn lemma_region_upcoming<'a>(r: SexpInputStream<SliceSource<'a>>)
    requires
        region_reader(r),
    ensures
        upcoming(r) == seq![r.next_char as u8] + decode_from(
            r.byte_size,
            r.n_bits,
            r.bits,
            r.source.remaining().take(region_len(r.byte_size, r.source.remaining()) as int),
        ) + r.source.remaining().skip(region_len(r.byte_size, r.source.remaining()) as int),
{
}

} // verus!
