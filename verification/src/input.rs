//! The streaming S-expression reader.
//!
//! The reader keeps one character of lookahead (`next_char`, -1 at the end of
//! input) and a `count` of the characters read so far (-1 before the first).
//! Its `byte_size` is 8 normally, 4 inside a `#...#` hexadecimal region and 6
//! inside a `|...|` or `{...}` base64 region, where the characters read are
//! decoded on the fly into the bytes that the lookahead then shows.
use vstd::prelude::*;
use crate::chars::{
    base64_value, dec_value, hex_value, is_base64_digit, is_dec_digit, is_hex_digit, is_token_char,
    is_whitespace, low_byte, spec_base64_value, spec_dec_value, spec_hex_value,
    spec_is_base64_digit, spec_is_dec_digit, spec_is_hex_digit, spec_is_token_char,
    spec_is_whitespace, spec_low_byte, BACKSLASH, BAR, COLON, EQUALS, HASH, LBRACE, LBRACKET,
    LPAREN, QUOTE, RBRACE, RBRACKET, RPAREN,
};
use crate::depth::{DepthManager, DEFAULT_MAX_DEPTH};
use crate::error::{report_fault, spec_sexp_report, Fault, Severity, SexpError};
use crate::types::{models_of, Sexp, SexpList, SexpModel, SexpString, StringModel};

verus! {

/// The value of `next_char` at the end of input.
pub const EOF: i32 = -1;

/// The declared length that stands for "no length was declared".
pub const NO_LENGTH: u32 = 0xffff_ffff;

/// The count after one more character: `count + 1`, wrapping at `i32::MAX`.
pub open spec fn next_count(count: i32) -> i32 {
    if count == i32::MAX { i32::MIN } else { (count + 1) as i32 }
}

fn bump_count(count: i32) -> (r: i32)
    ensures
        r == next_count(count),
{
    if count == i32::MAX { i32::MIN } else { count + 1 }
}

/// A source of characters for the reader.
///
/// `next_read` says what a call of `read_char` gives back (a byte, or -1 at the
/// end of input) and what the source is afterwards; `pending` bounds how many
/// more characters it can give.
pub trait CharSource: Sized {
    spec fn next_read(self) -> (i32, Self);

    spec fn pending(self) -> nat;

    proof fn lemma_next_read(self)
        ensures
            -1 <= self.next_read().0 <= 255,
            self.next_read().1.pending() <= self.pending(),
            self.next_read().0 != -1 ==> self.next_read().1.pending() < self.pending(),
    ;

    fn read_char(&mut self) -> (c: i32)
        ensures
            (c, *final(self)) == old(self).next_read(),
    ;
}

/// A byte slice as a character source.
pub struct SliceSource<'a> {
    pub bytes: &'a [u8],
    pub pos: usize,
}

impl<'a> SliceSource<'a> {
    pub open spec fn remaining(self) -> Seq<u8> {
        if self.pos <= self.bytes@.len() { self.bytes@.subrange(self.pos as int, self.bytes@.len() as int) } else { Seq::empty() }
    }

    pub fn new(bytes: &'a [u8]) -> (r: Self)
        ensures
            r.remaining() == bytes@,
            r == (SliceSource { bytes, pos: 0 }),
    {
        let r = SliceSource { bytes, pos: 0 };
        assert(bytes@.subrange(0, bytes@.len() as int) == bytes@);
        r
    }
}

impl<'a> CharSource for SliceSource<'a> {
    open spec fn next_read(self) -> (i32, Self) {
        if self.pos >= self.bytes.len() {
            (EOF, self)
        } else {
            (self.bytes@[self.pos as int] as i32, SliceSource { pos: (self.pos + 1) as usize, ..self })
        }
    }

    open spec fn pending(self) -> nat {
        if self.pos >= self.bytes.len() { 0 } else { (self.bytes.len() - self.pos) as nat }
    }

    proof fn lemma_next_read(self) {
    }

    fn read_char(&mut self) -> (c: i32) {
        if self.pos >= self.bytes.len() {
            return EOF;
        }
        let c = self.bytes[self.pos] as i32;
        self.pos = self.pos + 1;
        c
    }
}

/// What reading the next character of a slice source gives: its first
/// remaining byte, or the end of input.
pub proof fn lemma_slice_next_read(s: SliceSource)
    ensures
        s.remaining().len() == 0 ==> s.next_read().0 == EOF && s.next_read().1.remaining() == s.remaining(),
        s.remaining().len() > 0 ==> s.next_read().0 == s.remaining()[0] as i32
            && s.next_read().1.remaining() == s.remaining().drop_first(),
        s.pending() == s.remaining().len(),
{
    if s.pos < s.bytes@.len() {
        assert(s.next_read().1.remaining() == s.remaining().drop_first());
    }
}

/// The streaming reader.
pub struct SexpInputStream<S: CharSource> {
    pub source: S,
    pub count: i32,
    pub next_char: i32,
    pub byte_size: u32,
    pub bits: u32,
    pub n_bits: u32,
    pub depth: DepthManager,
    pub verbosity: Severity,
}

impl<'a> SexpInputStream<SliceSource<'a>> {
    /// The reader that `from_source` makes of a slice source at the start
    /// of `input`.
    pub fn new(input: &'a [u8]) -> (r: Self)
        ensures
            r.fresh(input@, DEFAULT_MAX_DEPTH),
            r.is_initial(SliceSource { bytes: input, pos: 0 }, DEFAULT_MAX_DEPTH),
    {
        Self::new_with_max_depth(input, DEFAULT_MAX_DEPTH)
    }

    pub fn new_with_max_depth(input: &'a [u8], max_depth: usize) -> (r: Self)
        ensures
            r.fresh(input@, max_depth),
            r.is_initial(SliceSource { bytes: input, pos: 0 }, max_depth),
    {
        SexpInputStream::from_source_with_max_depth(SliceSource::new(input), max_depth)
    }

    /// A reader over `input` that has read nothing yet.
    pub open spec fn fresh(self, input: Seq<u8>, max_depth: usize) -> bool {
        &&& self.source.remaining() == input
        &&& self.is_initial(self.source, max_depth)
    }
}

impl<S: CharSource> SexpInputStream<S> {
    /// Freshly made from `source`: nothing read, the lookahead a space, 8-bit
    /// characters, depth 0 and errors-only verbosity.
    pub open spec fn is_initial(self, source: S, max_depth: usize) -> bool {
        self == SexpInputStream::<S> {
            source,
            count: -1i32,
            next_char: 32i32,
            byte_size: 8u32,
            bits: 0u32,
            n_bits: 0u32,
            depth: DepthManager { depth: 0usize, max_depth },
            verbosity: Severity::Error,
        }
    }

    /// The invariant of the reader between calls.
    pub open spec fn wf(self) -> bool {
        &&& self.byte_size < 32
        &&& self.n_bits < 8
    }

    /// Decreases with every character taken from the source.
    pub open spec fn measure(self) -> nat {
        2 * self.source.pending() + if self.next_char != EOF { 1nat } else { 0nat }
    }

    pub open spec fn spec_source(self) -> S {
        self.source
    }

    pub fn from_source(source: S) -> (r: Self)
        ensures
            r.is_initial(source, DEFAULT_MAX_DEPTH),
            r.wf(),
    {
        Self::from_source_with_max_depth(source, DEFAULT_MAX_DEPTH)
    }

    pub fn from_source_with_max_depth(source: S, max_depth: usize) -> (r: Self)
        ensures
            r.is_initial(source, max_depth),
            r.wf(),
    {
        SexpInputStream {
            source,
            count: -1,
            next_char: 32,
            byte_size: 8,
            bits: 0,
            n_bits: 0,
            depth: DepthManager::new(max_depth),
            verbosity: Severity::Error,
        }
    }

    /// Gives the source back, with what is left of it.
    pub fn into_source(self) -> (r: S)
        ensures
            r == self.spec_source(),
    {
        self.source
    }

    /// Under verbosity `Warning`, warnings stop the reader as errors do.
    pub fn set_verbosity(&mut self, verbosity: Severity)
        ensures
            *final(self) == old(self).with_verbosity(verbosity),
    {
        self.verbosity = verbosity;
    }

    pub open spec fn with_verbosity(self, verbosity: Severity) -> Self {
        SexpInputStream { verbosity, ..self }
    }

    pub open spec fn with_next_char(self, c: i32) -> Self {
        SexpInputStream { next_char: c, ..self }
    }

    pub open spec fn with_byte_size(self, size: u32) -> Self {
        SexpInputStream { byte_size: size, n_bits: 0, bits: 0, ..self }
    }

    pub fn set_byte_size(&mut self, size: u32)
        ensures
            *final(self) == old(self).with_byte_size(size),
    {
        self.byte_size = size;
        self.n_bits = 0;
        self.bits = 0;
    }

    pub fn get_byte_size(&self) -> (r: u32)
        ensures
            r == self.byte_size,
    {
        self.byte_size
    }

    pub fn get_next_char(&self) -> (r: i32)
        ensures
            r == self.next_char,
    {
        self.next_char
    }

    pub fn set_next_char(&mut self, c: i32)
        ensures
            *final(self) == old(self).with_next_char(c),
    {
        self.next_char = c;
    }

    /// The state after one character is taken from the source.
    pub open spec fn spec_read_char(self) -> (Self, i32) {
        let (c, src) = self.source.next_read();
        (SexpInputStream { source: src, count: next_count(self.count), ..self }, c)
    }

    fn read_char(&mut self) -> (c: i32)
        ensures
            (*final(self), c) == old(self).spec_read_char(),
    {
        self.count = bump_count(self.count);
        self.source.read_char()
    }

    /// The steps of `get_char` after the first character has been read.
    pub open spec fn spec_get_char_loop(self) -> (Self, Result<(), SexpError>)
        decreases self.source.pending(),
    {
        let (c, src) = self.source.next_read();
        let st = SexpInputStream { source: src, count: next_count(self.count), next_char: c, ..self };
        if c == EOF {
            (st, Ok(()))
        } else if src.pending() >= self.source.pending() {
            (st, Ok(()))
        } else {
            let byte = spec_low_byte(c);
            if (st.byte_size == 6 && (byte == BAR || byte == RBRACE)) || (st.byte_size == 4 && byte == HASH) {
                let left_over = st.n_bits > 0 && ((((1u32 << st.n_bits) - 1) as u32) & st.bits) != 0;
                let rep = if left_over {
                    spec_sexp_report(
                        Fault::UnusedBits { byte_size: st.byte_size, n_bits: st.n_bits },
                        Severity::Warning,
                        st.count,
                        st.verbosity,
                    )
                } else {
                    Ok(())
                };
                match rep {
                    Err(e) => (st, Err(e)),
                    Ok(()) => (st.with_byte_size(8), Ok(())),
                }
            } else if st.byte_size != 8 && spec_is_whitespace(byte) {
                st.spec_get_char_loop()
            } else if st.byte_size == 6 && byte == EQUALS {
                st.spec_get_char_loop()
            } else if st.byte_size == 8 {
                (st, Ok(()))
            } else if !((st.byte_size == 6 && spec_is_base64_digit(byte)) || (st.byte_size == 4 && spec_is_hex_digit(byte))) {
                (SexpInputStream { bits: st.bits << st.byte_size, n_bits: (st.n_bits + st.byte_size) as u32, ..st }, Err(SexpError::Sexp {
                    fault: Fault::CodingRegion { ch: byte, byte_size: st.byte_size },
                    severity: Severity::Error,
                    position: st.count,
                }))
            } else {
                let digit = if st.byte_size == 6 { spec_base64_value(byte) as u32 } else { spec_hex_value(byte) as u32 };
                let bits = (st.bits << st.byte_size) | digit;
                let n_bits = (st.n_bits + st.byte_size) as u32;
                let st2 = SexpInputStream { bits, n_bits, ..st };
                if n_bits >= 8 {
                    (SexpInputStream {
                        next_char: ((bits >> ((n_bits - 8) as u32)) & 0xff) as i32,
                        n_bits: (n_bits - 8) as u32,
                        ..st2
                    }, Ok(()))
                } else {
                    st2.spec_get_char_loop()
                }
            }
        }
    }

    /// Advances the lookahead by one (decoded) character.
    pub open spec fn spec_get_char(self) -> (Self, Result<(), SexpError>) {
        if self.next_char == EOF {
            (SexpInputStream { byte_size: 8, ..self }, Ok(()))
        } else {
            self.spec_get_char_loop()
        }
    }

    /// Moves the lookahead to the next character. At the end of a hexadecimal
    /// or base64 region the byte size goes back to 8; a region that ends with
    /// nonzero left-over bits gives a warning.
    pub fn get_char(&mut self) -> (r: Result<(), SexpError>)
        requires
            old(self).wf(),
        ensures
            (*final(self), r) == old(self).spec_get_char(),
            r is Ok ==> final(self).wf(),
            final(self).measure() <= old(self).measure(),
            old(self).next_char != EOF ==> final(self).measure() < old(self).measure(),
            final(self).depth == old(self).depth,
            final(self).verbosity == old(self).verbosity,
    {
        if self.next_char == EOF {
            self.byte_size = 8;
            return Ok(());
        }
        let ghost start = *self;
        loop
            invariant
                self.wf(),
                start == *old(self),
                start.next_char != EOF,
                start.spec_get_char() == self.spec_get_char_loop(),
                2 * self.source.pending() < start.measure(),
                self.depth == start.depth,
                self.verbosity == start.verbosity,
            decreases self.source.pending(),
        {
            proof {
                self.source.lemma_next_read();
            }
            let ghost before = *self;
            let c = self.read_char();
            self.next_char = c;
            if c == EOF {
                return Ok(());
            }
            let byte = low_byte(c);
            if (self.byte_size == 6 && (byte == BAR || byte == RBRACE)) || (self.byte_size == 4
                && byte == HASH) {
                let nb = self.n_bits;
                assert(1u32 << nb >= 1) by (bit_vector)
                    requires nb < 8;
                if self.n_bits > 0 && (((1u32 << self.n_bits) - 1) & self.bits) != 0 {
                    report_fault(
                        Fault::UnusedBits { byte_size: self.byte_size, n_bits: self.n_bits },
                        Severity::Warning,
                        self.count,
                        self.verbosity,
                    )?;
                }
                self.set_byte_size(8);
                return Ok(());
            } else if self.byte_size != 8 && is_whitespace(byte) {
            } else if self.byte_size == 6 && byte == EQUALS {
            } else if self.byte_size == 8 {
                return Ok(());
            } else {
                let digit: u32;
                if self.byte_size == 6 && is_base64_digit(byte) {
                    digit = base64_value(byte) as u32;
                } else if self.byte_size == 4 && is_hex_digit(byte) {
                    digit = hex_value(byte) as u32;
                } else {
                    self.bits = self.bits << self.byte_size;
                    self.n_bits = self.n_bits + self.byte_size;
                    return Err(SexpError::Sexp {
                        fault: Fault::CodingRegion { ch: byte, byte_size: self.byte_size },
                        severity: Severity::Error,
                        position: self.count,
                    });
                }
                self.bits = (self.bits << self.byte_size) | digit;
                self.n_bits = self.n_bits + self.byte_size;
                if self.n_bits >= 8 {
                    let b = self.bits;
                    let sh = self.n_bits - 8;
                    let v = (b >> sh) & 0xff;
                    assert((b >> sh) & 0xff <= 0xff) by (bit_vector);
                    self.next_char = v as i32;
                    self.n_bits = self.n_bits - 8;
                    return Ok(());
                }
            }
        }
    }
}

/// The model of a string result whose hint is left out.
pub open spec fn string_data_result(r: Result<SexpString, SexpError>) -> Result<Seq<u8>, SexpError> {
    match r {
        Ok(s) => Ok(s.data@),
        Err(e) => Err(e),
    }
}

/// The model of a byte-vector result.
pub open spec fn bytes_result(r: Result<Vec<u8>, SexpError>) -> Result<Seq<u8>, SexpError> {
    match r {
        Ok(v) => Ok(v@),
        Err(e) => Err(e),
    }
}

impl<S: CharSource> SexpInputStream<S> {
    pub open spec fn spec_skip_white_space(self) -> (Self, Result<(), SexpError>)
        decreases self.measure(),
    {
        if spec_is_whitespace(spec_low_byte(self.next_char)) {
            let (s1, r) = self.spec_get_char();
            match r {
                Err(e) => (s1, Err(e)),
                Ok(()) => if s1.measure() < self.measure() {
                    s1.spec_skip_white_space()
                } else {
                    (s1, Ok(()))
                },
            }
        } else {
            (self, Ok(()))
        }
    }

    /// Moves the lookahead past any whitespace.
    pub fn skip_white_space(&mut self) -> (r: Result<(), SexpError>)
        requires
            old(self).wf(),
        ensures
            (*final(self), r) == old(self).spec_skip_white_space(),
            !spec_is_whitespace(spec_low_byte(old(self).next_char)) ==> *final(self) == *old(self),
            r is Ok ==> !spec_is_whitespace(spec_low_byte(final(self).next_char)),
            r is Ok ==> final(self).wf(),
            final(self).measure() <= old(self).measure(),
            final(self).depth == old(self).depth,
            final(self).verbosity == old(self).verbosity,
    {
        while is_whitespace(low_byte(self.next_char))
            invariant
                self.wf(),
                old(self).spec_skip_white_space() == self.spec_skip_white_space(),
                self.measure() <= old(self).measure(),
                self.depth == old(self).depth,
                self.verbosity == old(self).verbosity,
            decreases self.measure(),
        {
            self.get_char()?;
        }
        Ok(())
    }

    pub open spec fn spec_skip_char(self, expected: u8) -> (Self, Result<(), SexpError>) {
        if self.next_char != expected as i32 {
            (self, Err(SexpError::Sexp {
                fault: Fault::CharMismatch { found: self.next_char, expected },
                severity: Severity::Error,
                position: self.count,
            }))
        } else {
            self.spec_get_char()
        }
    }

    /// Checks that the lookahead is `expected` and moves past it.
    pub fn skip_char(&mut self, expected: u8) -> (r: Result<(), SexpError>)
        requires
            old(self).wf(),
        ensures
            (*final(self), r) == old(self).spec_skip_char(expected),
            r is Ok ==> final(self).wf(),
            final(self).measure() <= old(self).measure(),
            r is Ok ==> final(self).measure() < old(self).measure(),
            final(self).depth == old(self).depth,
            final(self).verbosity == old(self).verbosity,
    {
        if self.next_char != expected as i32 {
            return Err(SexpError::Sexp {
                fault: Fault::CharMismatch { found: self.next_char, expected },
                severity: Severity::Error,
                position: self.count,
            });
        }
        self.get_char()
    }

    pub open spec fn spec_token_loop(self, acc: Seq<u8>) -> (Self, Result<Seq<u8>, SexpError>)
        decreases self.measure(),
    {
        if spec_is_token_char(spec_low_byte(self.next_char)) {
            let acc2 = acc.push(spec_low_byte(self.next_char));
            let (s1, r) = self.spec_get_char();
            match r {
                Err(e) => (s1, Err(e)),
                Ok(()) => if s1.measure() < self.measure() {
                    s1.spec_token_loop(acc2)
                } else {
                    (s1, Ok(acc2))
                },
            }
        } else {
            (self, Ok(acc))
        }
    }

    pub open spec fn spec_scan_token(self) -> (Self, Result<Seq<u8>, SexpError>) {
        let (s1, r) = self.spec_skip_white_space();
        match r {
            Err(e) => (s1, Err(e)),
            Ok(()) => s1.spec_token_loop(Seq::empty()),
        }
    }

    /// Reads a run of token characters, after skipping whitespace.
    pub fn scan_token(&mut self) -> (r: Result<Vec<u8>, SexpError>)
        requires
            old(self).wf(),
        ensures
            (*final(self), bytes_result(r)) == old(self).spec_scan_token(),
            r is Ok ==> final(self).wf(),
            final(self).measure() <= old(self).measure(),
            spec_is_token_char(spec_low_byte(old(self).next_char)) ==> final(self).measure() < old(self).measure(),
            final(self).depth == old(self).depth,
            final(self).verbosity == old(self).verbosity,
    {
        self.skip_white_space()?;
        let mut bytes: Vec<u8> = Vec::new();
        let ghost s1 = *self;
        while is_token_char(low_byte(self.next_char))
            invariant
                self.wf(),
                s1.measure() <= old(self).measure(),
                spec_is_token_char(spec_low_byte(old(self).next_char)) ==> s1 == *old(self),
                bytes@.len() == 0 ==> *self == s1,
                bytes@.len() > 0 ==> self.measure() < s1.measure(),
                old(self).spec_scan_token() == self.spec_token_loop(bytes@),
                self.measure() <= old(self).measure(),
                self.depth == old(self).depth,
                self.verbosity == old(self).verbosity,
            decreases self.measure(),
        {
            bytes.push(low_byte(self.next_char));
            self.get_char()?;
        }
        Ok(bytes)
    }

    pub open spec fn spec_eof_loop(self, acc: Seq<u8>) -> (Self, Result<Seq<u8>, SexpError>)
        decreases self.measure(),
    {
        if self.next_char != EOF {
            let acc2 = acc.push(spec_low_byte(self.next_char));
            let (s1, r) = self.spec_get_char();
            match r {
                Err(e) => (s1, Err(e)),
                Ok(()) => if s1.measure() < self.measure() {
                    s1.spec_eof_loop(acc2)
                } else {
                    (s1, Ok(acc2))
                },
            }
        } else {
            (self, Ok(acc))
        }
    }

    pub open spec fn spec_scan_to_eof(self) -> (Self, Result<Seq<u8>, SexpError>) {
        let (s1, r) = self.spec_skip_white_space();
        match r {
            Err(e) => (s1, Err(e)),
            Ok(()) => s1.spec_eof_loop(Seq::empty()),
        }
    }

    /// Reads everything up to the end of input, after skipping whitespace, as
    /// a string without a presentation hint.
    pub fn scan_to_eof(&mut self) -> (r: Result<SexpString, SexpError>)
        requires
            old(self).wf(),
        ensures
            (*final(self), string_data_result(r)) == old(self).spec_scan_to_eof(),
            r matches Ok(s) ==> s.presentation_hint is None,
            r is Ok ==> final(self).wf(),
            final(self).measure() <= old(self).measure(),
            final(self).depth == old(self).depth,
            final(self).verbosity == old(self).verbosity,
    {
        let mut data: Vec<u8> = Vec::new();
        self.skip_white_space()?;
        while self.next_char != EOF
            invariant
                self.wf(),
                old(self).spec_scan_to_eof() == self.spec_eof_loop(data@),
                self.measure() <= old(self).measure(),
                self.depth == old(self).depth,
                self.verbosity == old(self).verbosity,
            decreases self.measure(),
        {
            data.push(low_byte(self.next_char));
            self.get_char()?;
        }
        Ok(SexpString { data, presentation_hint: None })
    }

    pub open spec fn spec_decimal_loop(self, value: nat, i: nat) -> (Self, Result<u32, SexpError>)
        decreases self.measure(),
    {
        if spec_is_dec_digit(spec_low_byte(self.next_char)) {
            let v = (value * 10 + spec_dec_value(spec_low_byte(self.next_char))) as nat;
            let (s1, r) = self.spec_get_char();
            match r {
                Err(e) => (s1, Err(e)),
                Ok(()) => if i > 8 {
                    (s1, Err(SexpError::Sexp {
                        fault: Fault::DecimalTooLong,
                        severity: Severity::Error,
                        position: s1.count,
                    }))
                } else if s1.measure() < self.measure() {
                    s1.spec_decimal_loop(v, i + 1)
                } else {
                    (s1, Ok(v as u32))
                },
            }
        } else {
            (self, Ok(value as u32))
        }
    }

    /// Reads a decimal number of at most nine digits.
    fn scan_decimal_string(&mut self) -> (r: Result<u32, SexpError>)
        requires
            old(self).wf(),
        ensures
            (*final(self), r) == old(self).spec_decimal_loop(0, 0),
            r is Ok ==> final(self).wf(),
            final(self).measure() <= old(self).measure(),
            spec_is_dec_digit(spec_low_byte(old(self).next_char)) ==> final(self).measure() < old(self).measure(),
            final(self).depth == old(self).depth,
            final(self).verbosity == old(self).verbosity,
    {
        let mut value: u32 = 0;
        let mut i: u32 = 0;
        proof {
            crate::num::lemma_pow10_bound(0);
        }
        while is_dec_digit(low_byte(self.next_char))
            invariant
                self.wf(),
                i <= 9,
                value < crate::num::pow10(i as nat),
                old(self).spec_decimal_loop(0, 0) == self.spec_decimal_loop(value as nat, i as nat),
                self.measure() <= old(self).measure(),
                i > 0 ==> self.measure() < old(self).measure(),
                i == 0 ==> *self == *old(self),
                self.depth == old(self).depth,
                self.verbosity == old(self).verbosity,
            decreases self.measure(),
        {
            let d = dec_value(low_byte(self.next_char));
            let v = value as u64 * 10 + d as u64;
            self.get_char()?;
            if i > 8 {
                return Err(SexpError::Sexp {
                    fault: Fault::DecimalTooLong,
                    severity: Severity::Error,
                    position: self.count,
                });
            }
            proof {
                crate::num::lemma_pow10_bound((i + 1) as nat);
                assert(v < crate::num::pow10((i + 1) as nat)) by (nonlinear_arith)
                    requires
                        value < crate::num::pow10(i as nat),
                        crate::num::pow10((i + 1) as nat) == 10 * crate::num::pow10(i as nat),
                        v == value * 10 + d,
                        d < 10;
            }
            value = v as u32;
            i = i + 1;
        }
        Ok(value)
    }

    pub open spec fn spec_verbatim_loop(self, remaining: nat, acc: Seq<u8>) -> (Self, Result<Seq<u8>, SexpError>)
        decreases remaining,
    {
        if remaining == 0 {
            (self, Ok(acc))
        } else if self.next_char == EOF {
            (self, Err(SexpError::Sexp {
                fault: Fault::VerbatimEof,
                severity: Severity::Error,
                position: self.count,
            }))
        } else {
            let acc2 = acc.push(spec_low_byte(self.next_char));
            let (s1, r) = self.spec_get_char();
            match r {
                Err(e) => (s1, Err(e)),
                Ok(()) => s1.spec_verbatim_loop((remaining - 1) as nat, acc2),
            }
        }
    }

    pub open spec fn spec_scan_verbatim_string(self, length: u32) -> (Self, Result<Seq<u8>, SexpError>) {
        let (s1, r1) = self.spec_skip_white_space();
        if r1 is Err {
            (s1, Err(r1->Err_0))
        } else {
            let (s2, r2) = s1.spec_skip_char(COLON);
            if r2 is Err {
                (s2, Err(r2->Err_0))
            } else if length > 1024 * 1024 {
                (s2, Err(SexpError::Sexp {
                    fault: Fault::VerbatimTooLong { len: length },
                    severity: Severity::Error,
                    position: s2.count,
                }))
            } else {
                s2.spec_verbatim_loop(length as nat, Seq::empty())
            }
        }
    }

    /// Reads `:` and then exactly `length` bytes.
    fn scan_verbatim_string(&mut self, length: u32) -> (r: Result<Vec<u8>, SexpError>)
        requires
            old(self).wf(),
        ensures
            (*final(self), bytes_result(r)) == old(self).spec_scan_verbatim_string(length),
            r is Ok ==> final(self).wf(),
            final(self).measure() <= old(self).measure(),
            r is Ok ==> final(self).measure() < old(self).measure(),
            final(self).depth == old(self).depth,
            final(self).verbosity == old(self).verbosity,
    {
        self.skip_white_space()?;
        self.skip_char(COLON)?;
        if length > 1024 * 1024 {
            return Err(SexpError::Sexp {
                fault: Fault::VerbatimTooLong { len: length },
                severity: Severity::Error,
                position: self.count,
            });
        }
        let mut bytes: Vec<u8> = Vec::new();
        let mut k: u32 = 0;
        while k < length
            invariant
                self.wf(),
                k <= length,
                old(self).spec_scan_verbatim_string(length) == self.spec_verbatim_loop((length - k) as nat, bytes@),
                length <= 1024 * 1024,
                self.measure() < old(self).measure(),
                self.depth == old(self).depth,
                self.verbosity == old(self).verbosity,
            decreases length - k,
        {
            if self.next_char == EOF {
                return Err(SexpError::Sexp {
                    fault: Fault::VerbatimEof,
                    severity: Severity::Error,
                    position: self.count,
                });
            }
            bytes.push(low_byte(self.next_char));
            self.get_char()?;
            k = k + 1;
        }
        Ok(bytes)
    }
}

/// What an escape sequence in a quoted string stands for.
pub enum Escape {
    /// A byte of the string.
    Byte(u8),
    /// A line continuation whose line end has already been passed: nothing is
    /// added and the next character is not skipped.
    Continue,
    /// A two-character line continuation: nothing is added.
    Nothing,
}

/// The model of a string result.
pub open spec fn string_result(r: Result<SexpString, SexpError>) -> Result<StringModel, SexpError> {
    match r {
        Ok(s) => Ok(s@),
        Err(e) => Err(e),
    }
}

impl<S: CharSource> SexpInputStream<S> {
    pub open spec fn error_here(self, fault: Fault) -> SexpError {
        SexpError::Sexp { fault, severity: Severity::Error, position: self.count }
    }

    pub open spec fn spec_hex_escape(self) -> (Self, Result<Escape, SexpError>) {
        let (s1, r1) = self.spec_get_char();
        if r1 is Err {
            (s1, Err(r1->Err_0))
        } else if !spec_is_hex_digit(spec_low_byte(s1.next_char)) {
            (s1, Err(s1.error_here(Fault::HexEscapeTooShort { val: 0 })))
        } else {
            let v1 = spec_hex_value(spec_low_byte(s1.next_char));
            let (s2, r2) = s1.spec_get_char();
            if r2 is Err {
                (s2, Err(r2->Err_0))
            } else if !spec_is_hex_digit(spec_low_byte(s2.next_char)) {
                (s2, Err(s2.error_here(Fault::HexEscapeTooShort { val: v1 })))
            } else {
                (s2, Ok(Escape::Byte(((v1 << 4u8) | spec_hex_value(spec_low_byte(s2.next_char))) as u8)))
            }
        }
    }

    pub open spec fn spec_octal_escape(self) -> (Self, Result<Escape, SexpError>) {
        let v0 = (spec_low_byte(self.next_char) - 48) as u32;
        let (s1, r1) = self.spec_get_char();
        if r1 is Err {
            (s1, Err(r1->Err_0))
        } else if !(48 <= s1.next_char <= 55) {
            (s1, Err(s1.error_here(Fault::OctalTooShort { val: v0 })))
        } else {
            let v1 = (v0 * 8 + (s1.next_char - 48)) as u32;
            let (s2, r2) = s1.spec_get_char();
            if r2 is Err {
                (s2, Err(r2->Err_0))
            } else if !(48 <= s2.next_char <= 55) {
                (s2, Err(s2.error_here(Fault::OctalTooShort { val: v1 })))
            } else {
                let v2 = (v1 * 8 + (s2.next_char - 48)) as u32;
                if v2 > 255 {
                    (s2, Err(s2.error_here(Fault::OctalTooBig { val: v2 })))
                } else {
                    (s2, Ok(Escape::Byte(v2 as u8)))
                }
            }
        }
    }

    /// The escape sequence whose character after the backslash is the lookahead.
    pub open spec fn spec_scan_escape(self) -> (Self, Result<Escape, SexpError>) {
        let c = spec_low_byte(self.next_char);
        if c == 98 {
            (self, Ok(Escape::Byte(8)))
        } else if c == 116 {
            (self, Ok(Escape::Byte(9)))
        } else if c == 118 {
            (self, Ok(Escape::Byte(11)))
        } else if c == 110 {
            (self, Ok(Escape::Byte(10)))
        } else if c == 102 {
            (self, Ok(Escape::Byte(12)))
        } else if c == 114 {
            (self, Ok(Escape::Byte(13)))
        } else if c == QUOTE || c == 39 || c == BACKSLASH {
            (self, Ok(Escape::Byte(c)))
        } else if c == 120 {
            self.spec_hex_escape()
        } else if c == 10 || c == 13 {
            let (s1, r1) = self.spec_get_char();
            let other: i32 = if c == 10 { 13 } else { 10 };
            if r1 is Err {
                (s1, Err(r1->Err_0))
            } else if s1.next_char != other {
                (s1, Ok(Escape::Continue))
            } else {
                (s1, Ok(Escape::Nothing))
            }
        } else if 48 <= c <= 55 {
            self.spec_octal_escape()
        } else {
            (self, Err(self.error_here(Fault::UnknownEscape { ch: c })))
        }
    }

    /// Reads the rest of an escape sequence; the lookahead is the character
    /// after the backslash.
    fn scan_escape(&mut self) -> (r: Result<Escape, SexpError>)
        requires
            old(self).wf(),
        ensures
            (*final(self), r) == old(self).spec_scan_escape(),
            r is Ok ==> final(self).wf(),
            final(self).measure() <= old(self).measure(),
            final(self).depth == old(self).depth,
            final(self).verbosity == old(self).verbosity,
    {
        let c = low_byte(self.next_char);
        if c == 98 {
            Ok(Escape::Byte(8))
        } else if c == 116 {
            Ok(Escape::Byte(9))
        } else if c == 118 {
            Ok(Escape::Byte(11))
        } else if c == 110 {
            Ok(Escape::Byte(10))
        } else if c == 102 {
            Ok(Escape::Byte(12))
        } else if c == 114 {
            Ok(Escape::Byte(13))
        } else if c == QUOTE || c == 39 || c == BACKSLASH {
            Ok(Escape::Byte(c))
        } else if c == 120 {
            self.get_char()?;
            let c1 = low_byte(self.next_char);
            if !is_hex_digit(c1) {
                return Err(SexpError::Sexp {
                    fault: Fault::HexEscapeTooShort { val: 0 },
                    severity: Severity::Error,
                    position: self.count,
                });
            }
            let v1 = hex_value(c1);
            self.get_char()?;
            let c2 = low_byte(self.next_char);
            if !is_hex_digit(c2) {
                return Err(SexpError::Sexp {
                    fault: Fault::HexEscapeTooShort { val: v1 },
                    severity: Severity::Error,
                    position: self.count,
                });
            }
            Ok(Escape::Byte((v1 << 4u8) | hex_value(c2)))
        } else if c == 10 || c == 13 {
            self.get_char()?;
            let other: i32 = if c == 10 { 13 } else { 10 };
            if self.next_char != other {
                Ok(Escape::Continue)
            } else {
                Ok(Escape::Nothing)
            }
        } else if 48 <= c && c <= 55 {
            let v0 = (c - 48) as u32;
            self.get_char()?;
            if !(48 <= self.next_char && self.next_char <= 55) {
                return Err(SexpError::Sexp {
                    fault: Fault::OctalTooShort { val: v0 },
                    severity: Severity::Error,
                    position: self.count,
                });
            }
            let v1 = v0 * 8 + (self.next_char - 48) as u32;
            self.get_char()?;
            if !(48 <= self.next_char && self.next_char <= 55) {
                return Err(SexpError::Sexp {
                    fault: Fault::OctalTooShort { val: v1 },
                    severity: Severity::Error,
                    position: self.count,
                });
            }
            let v2 = v1 * 8 + (self.next_char - 48) as u32;
            if v2 > 255 {
                return Err(SexpError::Sexp {
                    fault: Fault::OctalTooBig { val: v2 },
                    severity: Severity::Error,
                    position: self.count,
                });
            }
            Ok(Escape::Byte(v2 as u8))
        } else {
            Err(SexpError::Sexp {
                fault: Fault::UnknownEscape { ch: c },
                severity: Severity::Error,
                position: self.count,
            })
        }
    }

    pub open spec fn spec_quoted_loop(self, length: u32, acc: Seq<u8>) -> (Self, Result<Seq<u8>, SexpError>)
        decreases self.measure(),
    {
        if !((acc.len() as u32) <= length) {
            (self, Ok(acc))
        } else if self.next_char == QUOTE as i32 {
            if length == NO_LENGTH || acc.len() as u32 == length {
                let (s1, r1) = self.spec_skip_char(QUOTE);
                if r1 is Err {
                    (s1, Err(r1->Err_0))
                } else {
                    (s1, Ok(acc))
                }
            } else {
                (self, Err(self.error_here(Fault::QuotedTooShort { declared: length })))
            }
        } else if self.next_char == BACKSLASH as i32 {
            let (s1, r1) = self.spec_get_char();
            if r1 is Err {
                (s1, Err(r1->Err_0))
            } else {
                let (s2, r2) = s1.spec_scan_escape();
                if r2 is Err {
                    (s2, Err(r2->Err_0))
                } else if r2->Ok_0 is Continue {
                    if s2.measure() < self.measure() {
                        s2.spec_quoted_loop(length, acc)
                    } else {
                        (s2, Ok(acc))
                    }
                } else {
                    let acc2 = match r2->Ok_0 {
                        Escape::Byte(b) => acc.push(b),
                        _ => acc,
                    };
                    let (s3, r3) = s2.spec_get_char();
                    if r3 is Err {
                        (s3, Err(r3->Err_0))
                    } else if s3.measure() < self.measure() {
                        s3.spec_quoted_loop(length, acc2)
                    } else {
                        (s3, Ok(acc2))
                    }
                }
            }
        } else if self.next_char == EOF {
            (self, Err(self.error_here(Fault::UnexpectedEof)))
        } else {
            let acc2 = acc.push(spec_low_byte(self.next_char));
            let (s3, r3) = self.spec_get_char();
            if r3 is Err {
                (s3, Err(r3->Err_0))
            } else if s3.measure() < self.measure() {
                s3.spec_quoted_loop(length, acc2)
            } else {
                (s3, Ok(acc2))
            }
        }
    }

    pub open spec fn spec_scan_quoted_string(self, length: u32) -> (Self, Result<Seq<u8>, SexpError>) {
        let (s1, r1) = self.spec_skip_char(QUOTE);
        if r1 is Err {
            (s1, Err(r1->Err_0))
        } else {
            s1.spec_quoted_loop(length, Seq::empty())
        }
    }

    /// Reads a quoted string with its escape sequences; `length` is the
    /// declared length, or `NO_LENGTH`.
    fn scan_quoted_string(&mut self, length: u32) -> (r: Result<Vec<u8>, SexpError>)
        requires
            old(self).wf(),
        ensures
            (*final(self), bytes_result(r)) == old(self).spec_scan_quoted_string(length),
            r is Ok ==> final(self).wf(),
            final(self).measure() <= old(self).measure(),
            r is Ok ==> final(self).measure() < old(self).measure(),
            final(self).depth == old(self).depth,
            final(self).verbosity == old(self).verbosity,
    {
        self.skip_char(QUOTE)?;
        let mut bytes: Vec<u8> = Vec::new();
        while (bytes.len() as u32) <= length
            invariant
                self.wf(),
                old(self).spec_scan_quoted_string(length) == self.spec_quoted_loop(length, bytes@),
                self.measure() < old(self).measure(),
                self.depth == old(self).depth,
                self.verbosity == old(self).verbosity,
            decreases self.measure(),
        {
            if self.next_char == QUOTE as i32 {
                if length == NO_LENGTH || bytes.len() as u32 == length {
                    self.skip_char(QUOTE)?;
                    return Ok(bytes);
                } else {
                    return Err(SexpError::Sexp {
                        fault: Fault::QuotedTooShort { declared: length },
                        severity: Severity::Error,
                        position: self.count,
                    });
                }
            } else if self.next_char == BACKSLASH as i32 {
                self.get_char()?;
                match self.scan_escape()? {
                    Escape::Continue => {
                        continue;
                    },
                    Escape::Byte(b) => {
                        bytes.push(b);
                    },
                    Escape::Nothing => {},
                }
            } else if self.next_char == EOF {
                return Err(SexpError::Sexp {
                    fault: Fault::UnexpectedEof,
                    severity: Severity::Error,
                    position: self.count,
                });
            } else {
                bytes.push(low_byte(self.next_char));
            }
            self.get_char()?;
        }
        Ok(bytes)
    }
}

/// The model of a list result.
pub open spec fn list_result(r: Result<SexpList, SexpError>) -> Result<Seq<SexpModel>, SexpError> {
    match r {
        Ok(l) => Ok(l@),
        Err(e) => Err(e),
    }
}

/// The model of an S-expression result.
pub open spec fn sexp_result(r: Result<Sexp, SexpError>) -> Result<SexpModel, SexpError> {
    match r {
        Ok(s) => Ok(s@),
        Err(e) => Err(e),
    }
}

/// The character that opens and closes a region coded with `size` bits per
/// character: `#` for hexadecimal, `|` for base64.
pub open spec fn region_delimiter(size: u32) -> u8 {
    if size == 4 { HASH } else { BAR }
}

impl<S: CharSource> SexpInputStream<S> {
    pub open spec fn spec_region_loop(self, close: u8, size: u32, acc: Seq<u8>) -> (Self, Result<Seq<u8>, SexpError>)
        decreases self.measure(),
    {
        if self.next_char != EOF && (self.next_char != close as i32 || self.byte_size == size) {
            let acc2 = acc.push(spec_low_byte(self.next_char));
            let (s1, r1) = self.spec_get_char();
            if r1 is Err {
                (s1, Err(r1->Err_0))
            } else if s1.measure() < self.measure() {
                s1.spec_region_loop(close, size, acc2)
            } else {
                (s1, Ok(acc2))
            }
        } else {
            (self, Ok(acc))
        }
    }

    /// A hexadecimal (`size` 4) or base64 (`size` 6) string: the bytes that
    /// the region decodes to; a length that differs from the declared one is
    /// a warning.
    pub open spec fn spec_scan_coded_string(self, length: u32, size: u32) -> (Self, Result<Seq<u8>, SexpError>) {
        let delim = region_delimiter(size);
        let (s1, r1) = self.with_byte_size(size).spec_skip_char(delim);
        if r1 is Err {
            (s1, Err(r1->Err_0))
        } else {
            let (s2, r2) = s1.spec_region_loop(delim, size, Seq::empty());
            if r2 is Err {
                (s2, Err(r2->Err_0))
            } else {
                let acc = r2->Ok_0;
                let (s3, r3) = s2.spec_skip_char(delim);
                if r3 is Err {
                    (s3, Err(r3->Err_0))
                } else if acc.len() as u32 != length && length != NO_LENGTH {
                    let fault = if size == 4 {
                        Fault::HexLengthMismatch { actual: acc.len() as usize, declared: length }
                    } else {
                        Fault::Base64LengthMismatch { actual: acc.len() as usize, declared: length }
                    };
                    let rep = spec_sexp_report(fault, Severity::Warning, s3.count, s3.verbosity);
                    if rep is Err {
                        (s3, Err(rep->Err_0))
                    } else {
                        (s3, Ok(acc))
                    }
                } else {
                    (s3, Ok(acc))
                }
            }
        }
    }

    fn scan_coded_string(&mut self, length: u32, size: u32) -> (r: Result<Vec<u8>, SexpError>)
        requires
            old(self).wf(),
            size == 4 || size == 6,
        ensures
            (*final(self), bytes_result(r)) == old(self).spec_scan_coded_string(length, size),
            r is Ok ==> final(self).wf(),
            final(self).measure() <= old(self).measure(),
            r is Ok ==> final(self).measure() < old(self).measure(),
            final(self).depth == old(self).depth,
            final(self).verbosity == old(self).verbosity,
    {
        let delim: u8 = if size == 4 { HASH } else { BAR };
        self.set_byte_size(size);
        self.skip_char(delim)?;
        let mut bytes: Vec<u8> = Vec::new();
        let ghost s1 = *self;
        while self.next_char != EOF && (self.next_char != delim as i32 || self.byte_size == size)
            invariant
                self.wf(),
                s1.spec_region_loop(delim, size, Seq::empty()) == self.spec_region_loop(delim, size, bytes@),
                (s1, Ok::<(), SexpError>(())) == old(self).with_byte_size(size).spec_skip_char(delim),
                delim == region_delimiter(size),
                s1.depth == old(self).depth,
                s1.verbosity == old(self).verbosity,
                s1.measure() < old(self).measure(),
                self.measure() <= s1.measure(),
                self.depth == s1.depth,
                self.verbosity == s1.verbosity,
            decreases self.measure(),
        {
            bytes.push(low_byte(self.next_char));
            self.get_char()?;
        }
        self.skip_char(delim)?;
        if bytes.len() as u32 != length && length != NO_LENGTH {
            let fault = if size == 4 {
                Fault::HexLengthMismatch { actual: bytes.len(), declared: length }
            } else {
                Fault::Base64LengthMismatch { actual: bytes.len(), declared: length }
            };
            report_fault(fault, Severity::Warning, self.count, self.verbosity)?;
        }
        Ok(bytes)
    }

    /// Reads a `#...#` hexadecimal string.
    fn scan_hexadecimal_string(&mut self, length: u32) -> (r: Result<Vec<u8>, SexpError>)
        requires
            old(self).wf(),
        ensures
            (*final(self), bytes_result(r)) == old(self).spec_scan_coded_string(length, 4),
            r is Ok ==> final(self).wf(),
            final(self).measure() <= old(self).measure(),
            r is Ok ==> final(self).measure() < old(self).measure(),
            final(self).depth == old(self).depth,
            final(self).verbosity == old(self).verbosity,
    {
        self.scan_coded_string(length, 4)
    }

    /// Reads a `|...|` base64 string.
    fn scan_base64_string(&mut self, length: u32) -> (r: Result<Vec<u8>, SexpError>)
        requires
            old(self).wf(),
        ensures
            (*final(self), bytes_result(r)) == old(self).spec_scan_coded_string(length, 6),
            r is Ok ==> final(self).wf(),
            final(self).measure() <= old(self).measure(),
            r is Ok ==> final(self).measure() < old(self).measure(),
            final(self).depth == old(self).depth,
            final(self).verbosity == old(self).verbosity,
    {
        self.scan_coded_string(length, 6)
    }

    pub open spec fn spec_scan_simple_string(self) -> (Self, Result<Seq<u8>, SexpError>) {
        let (s1, r1) = self.spec_skip_white_space();
        let cur = s1.next_char;
        let b = spec_low_byte(cur);
        if r1 is Err {
            (s1, Err(r1->Err_0))
        } else if cur != EOF && spec_is_token_char(b) && !spec_is_dec_digit(b) {
            s1.spec_scan_token()
        } else {
            let (s2, r2) = if cur != EOF && spec_is_dec_digit(b) {
                s1.spec_decimal_loop(0, 0)
            } else {
                (s1, Ok(NO_LENGTH))
            };
            if r2 is Err {
                (s2, Err(r2->Err_0))
            } else {
                let length = r2->Ok_0;
                let n = s2.next_char;
                if n == QUOTE as i32 {
                    s2.spec_scan_quoted_string(length)
                } else if n == HASH as i32 {
                    s2.spec_scan_coded_string(length, 4)
                } else if n == BAR as i32 {
                    s2.spec_scan_coded_string(length, 6)
                } else if n == COLON as i32 {
                    s2.spec_scan_verbatim_string(length)
                } else if n == EOF {
                    (s2, Err(s2.error_here(Fault::UnexpectedEof)))
                } else {
                    (s2, Err(s2.error_here(Fault::IllegalChar { ch: spec_low_byte(n) })))
                }
            }
        }
    }

    /// Reads a simple string in any of its five forms: token, verbatim
    /// (`5:bytes`), quoted, hexadecimal or base64, the last four with an
    /// optional declared length.
    fn scan_simple_string(&mut self) -> (r: Result<Vec<u8>, SexpError>)
        requires
            old(self).wf(),
        ensures
            (*final(self), bytes_result(r)) == old(self).spec_scan_simple_string(),
            r is Ok ==> final(self).wf(),
            final(self).measure() <= old(self).measure(),
            r is Ok ==> final(self).measure() < old(self).measure(),
            final(self).depth == old(self).depth,
            final(self).verbosity == old(self).verbosity,
    {
        self.skip_white_space()?;
        let cur = self.next_char;
        let b = low_byte(cur);
        if cur != EOF && is_token_char(b) && !is_dec_digit(b) {
            return self.scan_token();
        }
        let length = if cur != EOF && is_dec_digit(b) {
            self.scan_decimal_string()?
        } else {
            NO_LENGTH
        };
        let n = self.next_char;
        if n == QUOTE as i32 {
            self.scan_quoted_string(length)
        } else if n == HASH as i32 {
            self.scan_hexadecimal_string(length)
        } else if n == BAR as i32 {
            self.scan_base64_string(length)
        } else if n == COLON as i32 {
            self.scan_verbatim_string(length)
        } else if n == EOF {
            Err(SexpError::Sexp { fault: Fault::UnexpectedEof, severity: Severity::Error, position: self.count })
        } else {
            Err(SexpError::Sexp {
                fault: Fault::IllegalChar { ch: low_byte(n) },
                severity: Severity::Error,
                position: self.count,
            })
        }
    }

    pub open spec fn spec_scan_string(self) -> (Self, Result<StringModel, SexpError>) {
        if self.next_char == LBRACKET as i32 {
            let (s1, r1) = self.spec_skip_char(LBRACKET);
            let (s2, r2) = s1.spec_scan_simple_string();
            let (s3, r3) = s2.spec_skip_white_space();
            let (s4, r4) = s3.spec_skip_char(RBRACKET);
            let (s5, r5) = s4.spec_skip_white_space();
            let (s6, r6) = s5.spec_scan_simple_string();
            if r1 is Err {
                (s1, Err(r1->Err_0))
            } else if r2 is Err {
                (s2, Err(r2->Err_0))
            } else if r3 is Err {
                (s3, Err(r3->Err_0))
            } else if r4 is Err {
                (s4, Err(r4->Err_0))
            } else if r5 is Err {
                (s5, Err(r5->Err_0))
            } else if r6 is Err {
                (s6, Err(r6->Err_0))
            } else {
                (s6, Ok(StringModel { data: r6->Ok_0, hint: Some(r2->Ok_0) }))
            }
        } else {
            let (s1, r1) = self.spec_scan_simple_string();
            if r1 is Err {
                (s1, Err(r1->Err_0))
            } else {
                (s1, Ok(StringModel { data: r1->Ok_0, hint: None }))
            }
        }
    }

    /// Reads a string with its optional `[hint]` in front.
    pub fn scan_string(&mut self) -> (r: Result<SexpString, SexpError>)
        requires
            old(self).wf(),
        ensures
            (*final(self), string_result(r)) == old(self).spec_scan_string(),
            r is Ok ==> final(self).wf(),
            final(self).measure() <= old(self).measure(),
            r is Ok ==> final(self).measure() < old(self).measure(),
            final(self).depth == old(self).depth,
            final(self).verbosity == old(self).verbosity,
    {
        if self.next_char == LBRACKET as i32 {
            self.skip_char(LBRACKET)?;
            let hint = self.scan_simple_string()?;
            self.skip_white_space()?;
            self.skip_char(RBRACKET)?;
            self.skip_white_space()?;
            let data = self.scan_simple_string()?;
            Ok(SexpString { data, presentation_hint: Some(hint) })
        } else {
            let data = self.scan_simple_string()?;
            Ok(SexpString { data, presentation_hint: None })
        }
    }
}

impl<S: CharSource> SexpInputStream<S> {
    pub open spec fn spec_open_list(self) -> (Self, Result<(), SexpError>) {
        let (s1, r1) = self.spec_skip_char(LPAREN);
        if r1 is Err {
            (s1, r1)
        } else {
            let (d, r2) = s1.depth.spec_increase(s1.count);
            (SexpInputStream { depth: d, ..s1 }, r2)
        }
    }

    /// Reads `(` and enters a list, within the depth limit.
    pub fn open_list(&mut self) -> (r: Result<(), SexpError>)
        requires
            old(self).wf(),
        ensures
            (*final(self), r) == old(self).spec_open_list(),
            r is Ok ==> final(self).wf(),
            final(self).measure() <= old(self).measure(),
            r is Ok ==> final(self).measure() < old(self).measure(),
            r is Ok ==> final(self).depth.depth == old(self).depth.depth + 1,
            final(self).depth.max_depth == old(self).depth.max_depth,
            final(self).verbosity == old(self).verbosity,
    {
        self.skip_char(LPAREN)?;
        self.depth.increase(self.count)
    }

    pub open spec fn spec_close_list(self) -> (Self, Result<(), SexpError>) {
        let (s1, r1) = self.spec_skip_char(RPAREN);
        if r1 is Err {
            (s1, r1)
        } else {
            (SexpInputStream { depth: DepthManager { depth: (s1.depth.depth - 1) as usize, ..s1.depth }, ..s1 }, Ok(()))
        }
    }

    /// Reads `)` and leaves a list.
    pub fn close_list(&mut self) -> (r: Result<(), SexpError>)
        requires
            old(self).wf(),
            old(self).next_char == RPAREN as i32 ==> old(self).depth.depth > 0,
        ensures
            (*final(self), r) == old(self).spec_close_list(),
            r is Ok ==> final(self).wf(),
            final(self).measure() <= old(self).measure(),
            r is Ok ==> final(self).measure() < old(self).measure(),
            r is Ok ==> final(self).depth.depth == old(self).depth.depth - 1,
            r is Err ==> final(self).depth == old(self).depth,
            final(self).depth.max_depth == old(self).depth.max_depth,
            final(self).verbosity == old(self).verbosity,
    {
        self.skip_char(RPAREN)?;
        self.depth.decrease();
        Ok(())
    }

    pub open spec fn spec_scan_object(self) -> (Self, Result<SexpModel, SexpError>)
        decreases self.measure(), 1nat,
    {
        let (s1, r1) = self.spec_skip_white_space();
        if r1 is Err {
            (s1, Err(r1->Err_0))
        } else if s1.next_char == LBRACE as i32 && s1.byte_size != 6 {
            let (s2, r2) = s1.with_byte_size(6).spec_skip_char(LBRACE);
            if r2 is Err {
                (s2, Err(r2->Err_0))
            } else if s2.measure() < self.measure() {
                let (s3, r3) = s2.spec_scan_object();
                if r3 is Err {
                    (s3, r3)
                } else {
                    let (s4, r4) = s3.spec_skip_char(RBRACE);
                    if r4 is Err {
                        (s4, Err(r4->Err_0))
                    } else {
                        (s4, r3)
                    }
                }
            } else {
                (s2, Ok(SexpModel::List(Seq::empty())))
            }
        } else if s1.next_char == LPAREN as i32 {
            if s1.measure() <= self.measure() {
                let (s2, r2) = s1.spec_scan_list();
                if r2 is Err {
                    (s2, Err(r2->Err_0))
                } else {
                    (s2, Ok(SexpModel::List(r2->Ok_0)))
                }
            } else {
                (s1, Ok(SexpModel::List(Seq::empty())))
            }
        } else {
            let (s2, r2) = s1.spec_scan_string();
            if r2 is Err {
                (s2, Err(r2->Err_0))
            } else {
                (s2, Ok(SexpModel::Atom(r2->Ok_0)))
            }
        }
    }

    pub open spec fn spec_scan_list(self) -> (Self, Result<Seq<SexpModel>, SexpError>)
        decreases self.measure(), 0nat,
    {
        let (s1, r1) = self.spec_open_list();
        if r1 is Err {
            (s1, Err(r1->Err_0))
        } else if s1.measure() < self.measure() {
            let (s2, r2) = s1.spec_skip_white_space();
            if r2 is Err {
                (s2, Err(r2->Err_0))
            } else if s2.next_char == RPAREN as i32 {
                if s2.measure() < self.measure() {
                    s2.spec_list_loop(Seq::empty())
                } else {
                    (s2, Ok(Seq::empty()))
                }
            } else if s2.measure() < self.measure() {
                let (s3, r3) = s2.spec_scan_object();
                if r3 is Err {
                    (s3, Err(r3->Err_0))
                } else if s3.measure() < self.measure() {
                    s3.spec_list_loop(seq![r3->Ok_0])
                } else {
                    (s3, Ok(seq![r3->Ok_0]))
                }
            } else {
                (s2, Ok(Seq::empty()))
            }
        } else {
            (s1, Ok(Seq::empty()))
        }
    }

    /// The rest of a list whose elements so far are `acc`.
    pub open spec fn spec_list_loop(self, acc: Seq<SexpModel>) -> (Self, Result<Seq<SexpModel>, SexpError>)
        decreases self.measure(), 2nat,
    {
        let (s1, r1) = self.spec_skip_white_space();
        if r1 is Err {
            (s1, Err(r1->Err_0))
        } else if s1.next_char == RPAREN as i32 {
            let (s2, r2) = s1.spec_close_list();
            if r2 is Err {
                (s2, Err(r2->Err_0))
            } else {
                (s2, Ok(acc))
            }
        } else if s1.measure() <= self.measure() {
            let (s2, r2) = s1.spec_scan_object();
            if r2 is Err {
                (s2, Err(r2->Err_0))
            } else if s2.measure() < self.measure() {
                s2.spec_list_loop(acc.push(r2->Ok_0))
            } else {
                (s2, Ok(acc.push(r2->Ok_0)))
            }
        } else {
            (s1, Ok(acc))
        }
    }

    /// Reads a list and its elements.
    pub fn scan_list(&mut self) -> (r: Result<SexpList, SexpError>)
        requires
            old(self).wf(),
        ensures
            (*final(self), list_result(r)) == old(self).spec_scan_list(),
            r is Ok ==> final(self).wf(),
            final(self).measure() <= old(self).measure(),
            r is Ok ==> final(self).measure() < old(self).measure(),
            r is Ok ==> final(self).depth == old(self).depth,
            final(self).depth.max_depth == old(self).depth.max_depth,
            final(self).verbosity == old(self).verbosity,
        decreases old(self).measure(), 0nat,
    {
        self.open_list()?;
        self.skip_white_space()?;
        let mut elements: Vec<Sexp> = Vec::new();
        if self.next_char != RPAREN as i32 {
            let obj = self.scan_object()?;
            proof {
                crate::types::lemma_models_of_push(elements@, obj);
            }
            elements.push(obj);
        }
        let ghost s0 = *old(self);
        loop
            invariant
                self.wf(),
                s0 == *old(self),
                s0.spec_scan_list() == self.spec_list_loop(models_of(elements@)),
                self.measure() < s0.measure(),
                self.depth.depth == s0.depth.depth + 1,
                self.depth.max_depth == s0.depth.max_depth,
                self.verbosity == s0.verbosity,
            decreases self.measure(),
        {
            self.skip_white_space()?;
            if self.next_char == RPAREN as i32 {
                self.close_list()?;
                return Ok(SexpList { elements });
            }
            let obj = self.scan_object()?;
            proof {
                crate::types::lemma_models_of_push(elements@, obj);
            }
            elements.push(obj);
        }
    }

    /// Reads one S-expression: a list, a string, or a `{...}` base64 region
    /// holding one.
    pub fn scan_object(&mut self) -> (r: Result<Sexp, SexpError>)
        requires
            old(self).wf(),
        ensures
            (*final(self), sexp_result(r)) == old(self).spec_scan_object(),
            r is Ok ==> final(self).wf(),
            final(self).measure() <= old(self).measure(),
            r is Ok ==> final(self).measure() < old(self).measure(),
            r is Ok ==> final(self).depth == old(self).depth,
            final(self).depth.max_depth == old(self).depth.max_depth,
            final(self).verbosity == old(self).verbosity,
        decreases old(self).measure(), 1nat,
    {
        self.skip_white_space()?;
        if self.next_char == LBRACE as i32 && self.byte_size != 6 {
            self.set_byte_size(6);
            self.skip_char(LBRACE)?;
            let obj = self.scan_object()?;
            self.skip_char(RBRACE)?;
            Ok(obj)
        } else if self.next_char == LPAREN as i32 {
            let list = self.scan_list()?;
            Ok(Sexp::List(list))
        } else {
            let s = self.scan_string()?;
            Ok(Sexp::String(s))
        }
    }
}

} // verus!
