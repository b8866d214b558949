//! The S-expression printer.
//!
//! Three print modes: canonical (`(3:abc)`, binary-safe, no whitespace),
//! advanced (human-readable, indented, wrapped at `max_column`, 75 by default)
//! and base64 (the canonical form base64-encoded inside `{...}`).
//!
//! Bytes go out through an encoder whose `byte_size` is 8 (bytes as they are),
//! 4 (upper-case hexadecimal digits) or 6 (base64 digits).
use vstd::prelude::*;
use crate::chars::{
    base64_digit, hex_digit, is_dec_digit, is_token_char, spec_base64_digit, spec_hex_digit,
    spec_is_dec_digit, spec_is_token_char, BAR, COLON, EQUALS, HASH, LBRACE, LBRACKET, LF, LPAREN,
    QUOTE, BACKSLASH, RBRACE, RBRACKET, RPAREN, SPACE,
};
use crate::depth::{DepthManager, DEFAULT_MAX_DEPTH};
use crate::error::{Fault, Severity, SexpError};
use crate::num::{decimal_digits, spec_decimal_digits};
use crate::text::{string_from_utf8_lossy, utf8_lossy};
use vstd::utf8::{encode_utf8, valid_utf8};
use crate::types::{models_of, Sexp, SexpList, SexpModel, SexpString, StringModel};

verus! {

#[derive(Debug, Clone, Copy, PartialEq, Eq, Structural)]
pub enum PrintMode {
    Canonical,
    Base64,
    Advanced,
}

pub const DEFAULT_LINE_LENGTH: u32 = 75;

/// The position of printer diagnostics: there is none.
pub const NO_POSITION: i32 = -1;

/// `n + 1`, wrapping at `u32::MAX`.
pub open spec fn next_u32(n: u32) -> u32 {
    if n == u32::MAX { 0 } else { (n + 1) as u32 }
}

fn bump(n: u32) -> (r: u32)
    ensures
        r == next_u32(n),
{
    if n == u32::MAX { 0 } else { n + 1 }
}

/// `n - 1`, wrapping at 0.
pub open spec fn prev_u32(n: u32) -> u32 {
    if n == 0 { u32::MAX } else { (n - 1) as u32 }
}

/// `a - b` modulo 2^32.
pub open spec fn wrapping_diff(a: u32, b: u32) -> u32 {
    if a >= b { (a - b) as u32 } else { (a + 0x1_0000_0000 - b) as u32 }
}

/// `a + b`, saturating at `usize::MAX`.
pub open spec fn sat_add(a: nat, b: nat) -> nat {
    if a + b > usize::MAX { usize::MAX as nat } else { a + b }
}

fn sat_add_exec(a: usize, b: usize) -> (r: usize)
    ensures
        r == sat_add(a as nat, b as nat),
{
    a.saturating_add(b)
}

/// The printer.
#[derive(Debug)]
pub struct SexpOutputStream {
    pub out: Vec<u8>,
    pub base64_count: u32,
    pub byte_size: u32,
    pub bits: u32,
    pub n_bits: u32,
    pub mode: PrintMode,
    pub column: u32,
    pub max_column: u32,
    pub indent: u32,
    pub depth: DepthManager,
}

/// The model of the printer: what it has written and its settings.
pub struct OutputState {
    pub out: Seq<u8>,
    pub base64_count: u32,
    pub byte_size: u32,
    pub bits: u32,
    pub n_bits: u32,
    pub mode: PrintMode,
    pub column: u32,
    pub max_column: u32,
    pub indent: u32,
    pub depth: DepthManager,
}

impl View for SexpOutputStream {
    type V = OutputState;

    open spec fn view(&self) -> OutputState {
        OutputState {
            out: self.out@,
            base64_count: self.base64_count,
            byte_size: self.byte_size,
            bits: self.bits,
            n_bits: self.n_bits,
            mode: self.mode,
            column: self.column,
            max_column: self.max_column,
            indent: self.indent,
            depth: self.depth,
        }
    }
}

impl OutputState {
    /// The invariant of the printer: a byte size of 4, 6 or 8, and fewer
    /// pending bits than one output character takes (none unless base64).
    pub open spec fn wf(self) -> bool {
        &&& (self.byte_size == 4 || self.byte_size == 6 || self.byte_size == 8)
        &&& self.n_bits < self.byte_size
        &&& (self.byte_size != 6 ==> self.n_bits == 0)
    }

    pub open spec fn spec_put_char(self, c: u8) -> Self {
        OutputState { out: self.out.push(c), column: next_u32(self.column), ..self }
    }

    pub open spec fn spec_put_bytes(self, data: Seq<u8>) -> Self
        decreases data.len(),
    {
        if data.len() == 0 {
            self
        } else {
            self.spec_put_char(data[0]).spec_put_bytes(data.drop_first())
        }
    }

    pub open spec fn spec_indent_loop(self, i: u32) -> Self
        decreases self.indent - i,
    {
        if i < self.indent && 4 * i < self.max_column {
            self.spec_put_char(SPACE).spec_indent_loop((i + 1) as u32)
        } else {
            self
        }
    }

    /// A line break (in advanced and base64 mode) and, in advanced mode, the
    /// indentation (one space per level, up to a quarter of the line).
    pub open spec fn spec_new_line(self, mode: PrintMode) -> Self {
        let s1 = if mode == PrintMode::Advanced || mode == PrintMode::Base64 {
            OutputState { column: 0, ..self.spec_put_char(LF) }
        } else {
            self
        };
        if mode == PrintMode::Advanced { s1.spec_indent_loop(0) } else { s1 }
    }

    /// The character that the encoder writes for its pending bits.
    pub open spec fn encoded_char(self) -> u8 {
        if self.byte_size == 4 {
            spec_hex_digit((self.bits >> ((self.n_bits - 4) as u32)) & 0xf)
        } else if self.byte_size == 6 {
            spec_base64_digit((self.bits >> ((self.n_bits - 6) as u32)) & 0x3f)
        } else {
            (self.bits & 0xff) as u8
        }
    }

    pub open spec fn spec_emit_loop(self, c: u8) -> Self
        decreases self.n_bits,
    {
        if self.byte_size > 0 && self.n_bits >= self.byte_size {
            let wrap = (self.byte_size == 6 || self.byte_size == 4 || c == RBRACE || c == LBRACE
                || c == HASH || c == BAR) && self.max_column > 0 && self.column >= self.max_column;
            let s1 = if wrap { self.spec_new_line(self.mode) } else { self };
            let s2 = s1.spec_put_char(self.encoded_char());
            OutputState {
                n_bits: (self.n_bits - self.byte_size) as u32,
                base64_count: next_u32(self.base64_count),
                ..s2
            }.spec_emit_loop(c)
        } else {
            self
        }
    }

    /// The byte `c` through the encoder.
    pub open spec fn spec_var_put_char(self, c: u8) -> Self {
        OutputState { bits: (self.bits << 8u32) | (c as u32), n_bits: (self.n_bits + 8) as u32, ..self }.spec_emit_loop(c)
    }

    pub open spec fn spec_var_put_bytes(self, data: Seq<u8>) -> Self
        decreases data.len(),
    {
        if data.len() == 0 {
            self
        } else {
            self.spec_var_put_char(data[0]).spec_var_put_bytes(data.drop_first())
        }
    }

    pub open spec fn spec_change_output_byte_size(self, new_size: u32, mode: PrintMode) -> (Self, Result<(), SexpError>) {
        if new_size != 4 && new_size != 6 && new_size != 8 {
            (self, Err(SexpError::Sexp {
                fault: Fault::IllegalOutputBase { base: new_size },
                severity: Severity::Error,
                position: NO_POSITION,
            }))
        } else if new_size != 8 && self.byte_size != 8 {
            (self, Err(SexpError::Sexp {
                fault: Fault::IllegalByteSizeChange { from: self.byte_size, to: new_size },
                severity: Severity::Error,
                position: NO_POSITION,
            }))
        } else {
            (OutputState { byte_size: new_size, n_bits: 0, bits: 0, base64_count: 0, mode, ..self }, Ok(()))
        }
    }

    pub open spec fn spec_pad_loop(self) -> Self
        decreases (4 - self.base64_count % 4) % 4,
    {
        if self.base64_count % 4 != 0 {
            let s1 = if self.max_column > 0 && self.column >= self.max_column {
                self.spec_new_line(self.mode)
            } else {
                self
            };
            let s2 = OutputState { base64_count: next_u32(self.base64_count), ..s1.spec_put_char(EQUALS) };
            if (4 - s2.base64_count % 4) % 4 < (4 - self.base64_count % 4) % 4 {
                s2.spec_pad_loop()
            } else {
                s2
            }
        } else {
            self
        }
    }

    /// Writes out the pending bits and, in base64, pads with `=` to a whole
    /// number of four-character groups.
    pub open spec fn spec_flush(self) -> Self {
        let s1 = if self.n_bits > 0 {
            OutputState {
                n_bits: 0,
                base64_count: next_u32(self.base64_count),
                ..self.spec_put_char(spec_base64_digit((self.bits << ((6 - self.n_bits) as u32)) & 0x3f))
            }
        } else {
            self
        };
        if self.byte_size == 6 { s1.spec_pad_loop() } else { s1 }
    }
}

proof fn lemma_pad_step(x: u32)
    requires
        x % 4 != 0,
    ensures
        (4 - next_u32(x) % 4) % 4 < (4 - x % 4) % 4,
{
    if x == u32::MAX {
        assert(u32::MAX % 4 == 3);
    } else if x % 4 == 1 {
        assert((x + 1) % 4 == 2);
    } else if x % 4 == 2 {
        assert((x + 1) % 4 == 3);
    } else {
        assert((x + 1) % 4 == 0);
    }
}

impl SexpOutputStream {
    pub fn new() -> (r: Self)
        ensures
            r@ == OutputState::initial(DEFAULT_MAX_DEPTH),
            r@.wf(),
    {
        Self::new_with_max_depth(DEFAULT_MAX_DEPTH)
    }

    pub fn new_with_max_depth(max_depth: usize) -> (r: Self)
        ensures
            r@ == OutputState::initial(max_depth),
            r@.wf(),
    {
        SexpOutputStream {
            out: Vec::new(),
            base64_count: 0,
            byte_size: 8,
            bits: 0,
            n_bits: 0,
            mode: PrintMode::Canonical,
            column: 0,
            max_column: DEFAULT_LINE_LENGTH,
            indent: 0,
            depth: DepthManager::new(max_depth),
        }
    }

    pub fn set_max_column(&mut self, mc: u32)
        ensures
            final(self)@ == (OutputState { max_column: mc, ..old(self)@ }),
    {
        self.max_column = mc;
    }

    pub fn get_max_column(&self) -> (r: u32)
        ensures
            r == self.max_column,
    {
        self.max_column
    }

    pub fn get_column(&self) -> (r: u32)
        ensures
            r == self.column,
    {
        self.column
    }

    pub fn get_byte_size(&self) -> (r: u32)
        ensures
            r == self.byte_size,
    {
        self.byte_size
    }

    pub fn reset_column(&mut self)
        ensures
            final(self)@ == (OutputState { column: 0, ..old(self)@ }),
    {
        self.column = 0;
    }

    pub fn inc_indent(&mut self)
        ensures
            final(self)@ == (OutputState { indent: next_u32(old(self).indent), ..old(self)@ }),
    {
        self.indent = bump(self.indent);
    }

    pub fn dec_indent(&mut self)
        requires
            old(self).indent > 0,
        ensures
            final(self)@ == (OutputState { indent: (old(self).indent - 1) as u32, ..old(self)@ }),
    {
        self.indent = self.indent - 1;
    }

    fn unindent(&mut self)
        ensures
            final(self)@ == (OutputState { indent: prev_u32(old(self).indent), ..old(self)@ }),
    {
        self.indent = if self.indent == 0 { u32::MAX } else { self.indent - 1 };
    }

    /// Writes `c` as it is.
    pub fn put_char(&mut self, c: u8)
        ensures
            final(self)@ == old(self)@.spec_put_char(c),
    {
        self.out.push(c);
        self.column = bump(self.column);
    }

    /// Starts a new line, as `spec_new_line` says.
    pub fn new_line(&mut self, mode: PrintMode)
        ensures
            final(self)@ == old(self)@.spec_new_line(mode),
            final(self)@.same_settings(old(self)@),
            final(self).base64_count == old(self).base64_count,
    {
        if mode == PrintMode::Advanced || mode == PrintMode::Base64 {
            self.put_char(LF);
            self.column = 0;
        }
        if mode == PrintMode::Advanced {
            let mut i: u32 = 0;
            let ghost s1 = self@;
            while i < self.indent && (4 * i as u64) < self.max_column as u64
                invariant
                    i <= self.indent,
                    s1.spec_indent_loop(0) == self@.spec_indent_loop(i),
                    self@.same_settings(old(self)@),
                    self.base64_count == old(self).base64_count,
                decreases self.indent - i,
            {
                self.put_char(SPACE);
                i = i + 1;
            }
        }
    }

    /// Writes the byte `c` through the encoder.
    pub fn var_put_char(&mut self, c: u8) -> (r: Result<(), SexpError>)
        requires
            old(self)@.wf(),
        ensures
            final(self)@ == old(self)@.spec_var_put_char(c),
            final(self)@.wf(),
            final(self)@.same_frame(old(self)@),
            r is Ok,
    {
        self.bits = (self.bits << 8u32) | (c as u32);
        self.n_bits = self.n_bits + 8;
        let ghost s0 = self@;
        while self.n_bits >= self.byte_size
            invariant
                s0.spec_emit_loop(c) == self@.spec_emit_loop(c),
                self.byte_size == old(self).byte_size,
                self@.same_frame(old(self)@),
                self.n_bits < self.byte_size + 8,
                old(self)@.wf(),
                self.byte_size == 8 ==> (self.n_bits == 0 || self.n_bits == 8),
                self.byte_size == 4 ==> (self.n_bits == 0 || self.n_bits == 4 || self.n_bits == 8),
            decreases self.n_bits,
        {
            let wrap = (self.byte_size == 6 || self.byte_size == 4 || c == RBRACE || c == LBRACE
                || c == HASH || c == BAR) && self.max_column > 0 && self.column >= self.max_column;
            let ghost before = self@;
            let ch: u8;
            if self.byte_size == 4 {
                let b = self.bits;
                let sh = self.n_bits - 4;
                assert((b >> sh) & 0xf < 16) by (bit_vector);
                ch = hex_digit((b >> sh) & 0xf);
            } else if self.byte_size == 6 {
                let b = self.bits;
                let sh = self.n_bits - 6;
                assert((b >> sh) & 0x3f < 64) by (bit_vector);
                ch = base64_digit((b >> sh) & 0x3f);
            } else {
                let b = self.bits;
                assert(b & 0xff <= 0xff) by (bit_vector);
                ch = (b & 0xff) as u8;
            }
            assert(ch == before.encoded_char());
            if wrap {
                self.new_line(self.mode);
            }
            self.put_char(ch);
            self.n_bits = self.n_bits - self.byte_size;
            self.base64_count = bump(self.base64_count);
        }
        Ok(())
    }

    /// Changes the encoder's byte size (4, 6 or 8) and the mode; only a
    /// change to 8 is allowed while the byte size is not 8.
    pub fn change_output_byte_size(&mut self, new_size: u32, mode: PrintMode) -> (r: Result<(), SexpError>)
        ensures
            (final(self)@, r) == old(self)@.spec_change_output_byte_size(new_size, mode),
    {
        if new_size != 4 && new_size != 6 && new_size != 8 {
            return Err(SexpError::Sexp {
                fault: Fault::IllegalOutputBase { base: new_size },
                severity: Severity::Error,
                position: NO_POSITION,
            });
        }
        if new_size != 8 && self.byte_size != 8 {
            return Err(SexpError::Sexp {
                fault: Fault::IllegalByteSizeChange { from: self.byte_size, to: new_size },
                severity: Severity::Error,
                position: NO_POSITION,
            });
        }
        self.byte_size = new_size;
        self.n_bits = 0;
        self.bits = 0;
        self.base64_count = 0;
        self.mode = mode;
        Ok(())
    }

    /// Writes out the pending bits and pads base64 output to a multiple of
    /// four characters.
    pub fn flush(&mut self) -> (r: Result<(), SexpError>)
        requires
            old(self)@.wf(),
        ensures
            final(self)@ == old(self)@.spec_flush(),
            final(self)@.wf(),
            final(self)@.same_frame(old(self)@),
            final(self)@.n_bits == 0,
            r is Ok,
            old(self).byte_size == 6 ==> final(self).base64_count % 4 == 0,
    {
        if self.n_bits > 0 {
            let b = self.bits;
            let sh = 6 - self.n_bits;
            assert((b << sh) & 0x3f < 64) by (bit_vector);
            let ch = base64_digit((b << sh) & 0x3f);
            self.put_char(ch);
            self.n_bits = 0;
            self.base64_count = bump(self.base64_count);
        }
        if self.byte_size == 6 {
            let ghost s1 = self@;
            while self.base64_count % 4 != 0
                invariant
                    s1.spec_pad_loop() == self@.spec_pad_loop(),
                    self@.wf(),
                    self@.same_frame(old(self)@),
                    self.n_bits == 0,
                decreases (4 - self.base64_count % 4) % 4,
            {
                if self.max_column > 0 && self.column >= self.max_column {
                    self.new_line(self.mode);
                }
                self.put_char(EQUALS);
                proof {
                    lemma_pad_step(self.base64_count);
                }
                self.base64_count = bump(self.base64_count);
            }
        }
        Ok(())
    }
}

impl OutputState {
    /// The byte size, mode, line length, indentation and depth are the same.
    pub open spec fn same_frame(self, other: Self) -> bool {
        &&& self.byte_size == other.byte_size
        &&& self.mode == other.mode
        &&& self.max_column == other.max_column
        &&& self.indent == other.indent
        &&& self.depth == other.depth
    }

    /// Everything but what has been written, the column and the count of
    /// base64 characters is the same in both states.
    pub open spec fn same_settings(self, other: Self) -> bool {
        &&& self.byte_size == other.byte_size
        &&& self.bits == other.bits
        &&& self.n_bits == other.n_bits
        &&& self.mode == other.mode
        &&& self.max_column == other.max_column
        &&& self.indent == other.indent
        &&& self.depth == other.depth
    }

    pub open spec fn initial(max_depth: usize) -> OutputState {
        OutputState {
            out: Seq::empty(),
            base64_count: 0,
            byte_size: 8,
            bits: 0,
            n_bits: 0,
            mode: PrintMode::Canonical,
            column: 0,
            max_column: DEFAULT_LINE_LENGTH,
            indent: 0,
            depth: DepthManager { depth: 0, max_depth },
        }
    }
}

/// `a - b`, or 0 when `b > a`.
pub open spec fn sat_sub_u32(a: u32, b: u32) -> u32 {
    if a >= b { (a - b) as u32 } else { 0 }
}

pub open spec fn all_token_chars(data: Seq<u8>) -> bool {
    forall|i: int| 0 <= i < data.len() ==> #[trigger] spec_is_token_char(data[i])
}

pub open spec fn all_quotable(data: Seq<u8>) -> bool {
    forall|i: int| 0 <= i < data.len() ==> spec_is_token_char(#[trigger] data[i]) || data[i] == SPACE
}

fn check_token_chars(data: &[u8]) -> (r: bool)
    ensures
        r == all_token_chars(data@),
{
    let mut i: usize = 0;
    while i < data.len()
        invariant
            i <= data@.len(),
            forall|j: int| 0 <= j < i ==> #[trigger] spec_is_token_char(data@[j]),
        decreases data@.len() - i,
    {
        if !is_token_char(data[i]) {
            return false;
        }
        i = i + 1;
    }
    true
}

fn can_print_as_quoted_string(data: &[u8]) -> (r: bool)
    ensures
        r == all_quotable(data@),
{
    let mut i: usize = 0;
    while i < data.len()
        invariant
            i <= data@.len(),
            forall|j: int| 0 <= j < i ==> spec_is_token_char(#[trigger] data@[j]) || data@[j] == SPACE,
        decreases data@.len() - i,
    {
        if !(is_token_char(data[i]) || data[i] == SPACE) {
            return false;
        }
        i = i + 1;
    }
    true
}

impl OutputState {
    pub open spec fn spec_print_decimal(self, n: u64) -> Self {
        self.spec_var_put_bytes(spec_decimal_digits(n as nat))
    }

    pub open spec fn spec_open_list(self, through_encoder: bool) -> (Self, Result<(), SexpError>) {
        let s1 = if through_encoder { self.spec_var_put_char(LPAREN) } else { self.spec_put_char(LPAREN) };
        let (d, r) = s1.depth.spec_increase(NO_POSITION);
        (OutputState { depth: d, ..s1 }, r)
    }

    pub open spec fn spec_close_list(self, through_encoder: bool) -> Self {
        let s1 = if through_encoder { self.spec_var_put_char(RPAREN) } else { self.spec_put_char(RPAREN) };
        OutputState { depth: DepthManager { depth: (s1.depth.depth - 1) as usize, ..s1.depth }, ..s1 }
    }

    /// `len:bytes`
    pub open spec fn spec_verbatim(self, data: Seq<u8>) -> Self {
        self.spec_print_decimal(data.len() as u64).spec_var_put_char(COLON).spec_var_put_bytes(data)
    }

    pub open spec fn spec_canonical_string(self, s: StringModel) -> Self {
        let s1 = match s.hint {
            Some(h) => self.spec_var_put_char(LBRACKET).spec_verbatim(h).spec_var_put_char(RBRACKET),
            None => self,
        };
        s1.spec_verbatim(s.data)
    }

    pub open spec fn spec_print_canonical(self, obj: SexpModel) -> (Self, Result<(), SexpError>)
        decreases obj, 2nat,
    {
        match obj {
            SexpModel::Atom(s) => (self.spec_canonical_string(s), Ok(())),
            SexpModel::List(l) => self.spec_canonical_list(l),
        }
    }

    pub open spec fn spec_canonical_list(self, l: Seq<SexpModel>) -> (Self, Result<(), SexpError>)
        decreases l, 1nat,
    {
        let (s1, r1) = self.spec_open_list(true);
        if r1 is Err {
            (s1, r1)
        } else {
            let (s2, r2) = s1.spec_canonical_elems(l);
            if r2 is Err {
                (s2, r2)
            } else {
                (s2.spec_close_list(true), Ok(()))
            }
        }
    }

    pub open spec fn spec_canonical_elems(self, elems: Seq<SexpModel>) -> (Self, Result<(), SexpError>)
        decreases elems, 0nat,
    {
        if elems.len() == 0 {
            (self, Ok(()))
        } else {
            let (s1, r1) = self.spec_print_canonical(elems[0]);
            if r1 is Err {
                (s1, r1)
            } else {
                s1.spec_canonical_elems(elems.drop_first())
            }
        }
    }

    pub open spec fn spec_print_base64(self, obj: SexpModel) -> (Self, Result<(), SexpError>) {
        let (s1, r1) = self.spec_change_output_byte_size(8, PrintMode::Base64);
        let (s3, r3) = s1.spec_var_put_char(LBRACE).spec_change_output_byte_size(6, PrintMode::Base64);
        let (s4, r4) = s3.spec_print_canonical(obj);
        let (s6, r6) = s4.spec_flush().spec_change_output_byte_size(8, PrintMode::Base64);
        if r1 is Err {
            (s1, r1)
        } else if r3 is Err {
            (s3, r3)
        } else if r4 is Err {
            (s4, r4)
        } else if r6 is Err {
            (s6, r6)
        } else {
            (s6.spec_var_put_char(RBRACE), Ok(()))
        }
    }
}

impl SexpOutputStream {
    /// Writes `n` in decimal through the encoder.
    pub fn print_decimal(&mut self, n: u64) -> (r: Result<(), SexpError>)
        requires
            old(self)@.wf(),
        ensures
            final(self)@ == old(self)@.spec_print_decimal(n),
            final(self)@.wf(),
            final(self)@.same_frame(old(self)@),
            r is Ok,
    {
        let digits = decimal_digits(n);
        self.put_bytes_encoded(digits.as_slice());
        Ok(())
    }

    fn put_bytes_encoded(&mut self, data: &[u8])
        requires
            old(self)@.wf(),
        ensures
            final(self)@ == old(self)@.spec_var_put_bytes(data@),
            final(self)@.wf(),
            final(self)@.same_frame(old(self)@),
    {
        let mut i: usize = 0;
        assert(data@.skip(0) == data@);
        while i < data.len()
            invariant
                i <= data@.len(),
                self@.wf(),
                self@.same_frame(old(self)@),
                old(self)@.spec_var_put_bytes(data@) == self@.spec_var_put_bytes(data@.skip(i as int)),
            decreases data@.len() - i,
        {
            assert(data@.skip(i as int).drop_first() == data@.skip(i + 1));
            let _ = self.var_put_char(data[i]);
            i = i + 1;
        }
        assert(data@.skip(data@.len() as int).len() == 0);
    }

    fn increase_depth(&mut self) -> (r: Result<(), SexpError>)
        ensures
            (final(self).depth, r) == old(self).depth.spec_increase(NO_POSITION),
            final(self)@ == (OutputState { depth: final(self).depth, ..old(self)@ }),
    {
        self.depth.increase(NO_POSITION)
    }

    fn decrease_depth(&mut self)
        requires
            old(self).depth.depth > 0,
        ensures
            final(self)@ == (OutputState {
                depth: DepthManager { depth: (old(self).depth.depth - 1) as usize, ..old(self).depth },
                ..old(self)@
            }),
    {
        self.depth.decrease();
    }

    /// Writes `(` and enters a list, within the depth limit.
    pub fn open_list(&mut self) -> (r: Result<(), SexpError>)
        ensures
            (final(self)@, r) == old(self)@.spec_open_list(false),
            r is Ok ==> final(self).depth.depth == old(self).depth.depth + 1,
            final(self).depth.max_depth == old(self).depth.max_depth,
            final(self).byte_size == old(self).byte_size,
            final(self).bits == old(self).bits,
            final(self).n_bits == old(self).n_bits,
            final(self).mode == old(self).mode,
            final(self).max_column == old(self).max_column,
            final(self).indent == old(self).indent,
    {
        self.put_char(LPAREN);
        self.increase_depth()
    }

    /// Writes `)` and leaves a list.
    pub fn close_list(&mut self) -> (r: Result<(), SexpError>)
        requires
            old(self).depth.depth > 0,
        ensures
            final(self)@ == old(self)@.spec_close_list(false),
            r is Ok,
    {
        self.put_char(RPAREN);
        self.decrease_depth();
        Ok(())
    }

    /// Writes `(` through the encoder and enters a list.
    pub fn var_open_list(&mut self) -> (r: Result<(), SexpError>)
        requires
            old(self)@.wf(),
        ensures
            (final(self)@, r) == old(self)@.spec_open_list(true),
            final(self)@.wf(),
            r is Ok ==> final(self).depth.depth == old(self).depth.depth + 1,
            final(self).depth.max_depth == old(self).depth.max_depth,
            final(self).byte_size == old(self).byte_size,
            final(self).mode == old(self).mode,
            final(self).max_column == old(self).max_column,
            final(self).indent == old(self).indent,
    {
        let _ = self.var_put_char(LPAREN);
        self.increase_depth()
    }

    /// Writes `)` through the encoder and leaves a list.
    pub fn var_close_list(&mut self) -> (r: Result<(), SexpError>)
        requires
            old(self)@.wf(),
            old(self).depth.depth > 0,
        ensures
            final(self)@ == old(self)@.spec_close_list(true),
            final(self)@.wf(),
            r is Ok,
            final(self).depth.depth == old(self).depth.depth - 1,
            final(self).depth.max_depth == old(self).depth.max_depth,
            final(self).byte_size == old(self).byte_size,
            final(self).mode == old(self).mode,
            final(self).max_column == old(self).max_column,
            final(self).indent == old(self).indent,
    {
        let _ = self.var_put_char(RPAREN);
        self.decrease_depth();
        Ok(())
    }

    fn print_canonical_verbatim(&mut self, data: &[u8])
        requires
            old(self)@.wf(),
        ensures
            final(self)@ == old(self)@.spec_verbatim(data@),
            final(self)@.wf(),
            final(self)@.same_frame(old(self)@),
    {
        let _ = self.print_decimal(data.len() as u64);
        let _ = self.var_put_char(COLON);
        self.put_bytes_encoded(data);
    }

    fn print_canonical_string(&mut self, s: &SexpString)
        requires
            old(self)@.wf(),
        ensures
            final(self)@ == old(self)@.spec_canonical_string(s@),
            final(self)@.wf(),
            final(self)@.same_frame(old(self)@),
    {
        match &s.presentation_hint {
            Some(hint) => {
                let _ = self.var_put_char(LBRACKET);
                self.print_canonical_verbatim(hint.as_slice());
                let _ = self.var_put_char(RBRACKET);
            },
            None => {},
        }
        self.print_canonical_verbatim(s.data.as_slice());
    }

    /// Writes `obj` in canonical form through the encoder.
    pub fn print_canonical(&mut self, obj: &Sexp) -> (r: Result<(), SexpError>)
        requires
            old(self)@.wf(),
        ensures
            (final(self)@, r) == old(self)@.spec_print_canonical(obj@),
            final(self)@.wf(),
            r is Ok ==> final(self)@.same_frame(old(self)@),
            final(self).depth.max_depth == old(self).depth.max_depth,
            final(self).byte_size == old(self).byte_size,
        decreases obj, 2nat,
    {
        match obj {
            Sexp::String(s) => {
                self.print_canonical_string(s);
                Ok(())
            },
            Sexp::List(l) => self.print_canonical_list(l),
        }
    }

    fn print_canonical_list(&mut self, l: &SexpList) -> (r: Result<(), SexpError>)
        requires
            old(self)@.wf(),
        ensures
            (final(self)@, r) == old(self)@.spec_canonical_list(l@),
            final(self)@.wf(),
            r is Ok ==> final(self)@.same_frame(old(self)@),
            final(self).depth.max_depth == old(self).depth.max_depth,
            final(self).byte_size == old(self).byte_size,
        decreases l, 1nat,
    {
        let opened = self.var_open_list();
        if opened.is_err() {
            return opened;
        }
        let ghost elems = l@;
        assert(elems.skip(0) == elems);
        proof {
            crate::types::lemma_models_of_index(l.elements@);
        }
        let mut i: usize = 0;
        while i < l.elements.len()
            invariant
                i <= l.elements@.len(),
                elems == l@,
                elems.len() == l.elements@.len(),
                forall|j: int| 0 <= j < elems.len() ==> #[trigger] elems[j] == l.elements@[j]@,
                self@.wf(),
                old(self)@.spec_open_list(true).1 is Ok,
                old(self)@.spec_canonical_list(l@) == ({
                    let (s2, r2) = self@.spec_canonical_elems(elems.skip(i as int));
                    if r2 is Err { (s2, r2) } else { (s2.spec_close_list(true), Ok(())) }
                }),
                self.depth.depth == old(self).depth.depth + 1,
                self.depth.max_depth == old(self).depth.max_depth,
                self.byte_size == old(self).byte_size,
                self.mode == old(self).mode,
                self.max_column == old(self).max_column,
                self.indent == old(self).indent,
            decreases l.elements@.len() - i,
        {
            assert(elems.skip(i as int).drop_first() == elems.skip(i + 1));
            assert(elems.skip(i as int)[0] == l.elements@[i as int]@);
            assert(decreases_to!(l => l.elements@[i as int]));
            let printed = self.print_canonical(&l.elements[i]);
            if printed.is_err() {
                return printed;
            }
            i = i + 1;
        }
        assert(elems.skip(i as int).len() == 0);
        let _ = self.var_close_list();
        Ok(())
    }

    /// Writes `obj` in base64 form: its canonical form, base64-encoded, inside
    /// `{...}`.
    pub fn print_base64(&mut self, obj: &Sexp) -> (r: Result<(), SexpError>)
        requires
            old(self)@.wf(),
        ensures
            (final(self)@, r) == old(self)@.spec_print_base64(obj@),
            final(self)@.wf(),
    {
        self.change_output_byte_size(8, PrintMode::Base64)?;
        let _ = self.var_put_char(LBRACE);
        self.change_output_byte_size(6, PrintMode::Base64)?;
        self.print_canonical(obj)?;
        let _ = self.flush();
        self.change_output_byte_size(8, PrintMode::Base64)?;
        let _ = self.var_put_char(RBRACE);
        Ok(())
    }
}

/// `n`, or `usize::MAX` where `n` is larger.
pub open spec fn clamp_usize(n: nat) -> nat {
    if n > usize::MAX { usize::MAX as nat } else { n }
}

proof fn lemma_sat_add_clamp(a: nat, b: nat)
    ensures
        sat_add(clamp_usize(a), clamp_usize(b)) == clamp_usize(a + b),
{
}

fn sat_sub(a: u32, b: u32) -> (r: u32)
    ensures
        r == sat_sub_u32(a, b),
{
    if a >= b { a - b } else { 0 }
}

fn wrapping_sub(a: u32, b: u32) -> (r: u32)
    ensures
        r == wrapping_diff(a, b),
{
    if a >= b { a - b } else { ((a as u64 + 0x1_0000_0000) - b as u64) as u32 }
}

impl OutputState {
    /// The byte size, line length, indentation and depth are the same.
    pub open spec fn same_layout(self, other: Self) -> bool {
        &&& self.byte_size == other.byte_size
        &&& self.max_column == other.max_column
        &&& self.indent == other.indent
        &&& self.depth == other.depth
    }

    /// `data` can be written as a token here: it is not empty, does not
    /// start with a digit, is made of token characters, and (with a line
    /// length) ends before the end of the line.
    pub open spec fn spec_can_print_as_token(self, data: Seq<u8>) -> bool {
        &&& data.len() > 0
        &&& !spec_is_dec_digit(data[0])
        &&& !(self.max_column > 0 && self.column + (data.len() as u32) >= self.max_column)
        &&& all_token_chars(data)
    }

    /// The length of `data` in advanced form, as the layout estimates it.
    pub open spec fn spec_simple_len(self, data: Seq<u8>) -> nat {
        if self.spec_can_print_as_token(data) {
            data.len()
        } else if all_quotable(data) {
            data.len() + 2
        } else if data.len() <= 4 && self.byte_size == 8 {
            2 * data.len() + 2
        } else if self.byte_size == 8 {
            4 * ((data.len() + 2) / 3) + 2
        } else {
            0
        }
    }

    /// The advanced length of an object, measured from this state.
    pub open spec fn spec_adv_len(self, obj: SexpModel) -> nat
        decreases obj, 1nat,
    {
        match obj {
            SexpModel::Atom(s) => {
                let h = match s.hint {
                    Some(h) => 2 + self.spec_simple_len(h),
                    None => 0,
                };
                h + self.spec_simple_len(s.data)
            },
            SexpModel::List(l) => 2 + self.spec_adv_len_elems(l),
        }
    }

    pub open spec fn spec_adv_len_elems(self, elems: Seq<SexpModel>) -> nat
        decreases elems, 0nat,
    {
        if elems.len() == 0 {
            0
        } else {
            self.spec_adv_len_elems(elems.drop_last()) + self.spec_adv_len(elems.last())
        }
    }

    /// A line break first when fewer than four columns are left.
    pub open spec fn spec_adv_prefix(self) -> Self {
        if self.max_column > 0 && self.column > sat_sub_u32(self.max_column, 4) {
            self.spec_new_line(PrintMode::Advanced)
        } else {
            self
        }
    }

    pub open spec fn spec_token(self, data: Seq<u8>) -> Self {
        let s1 = if self.max_column > 0 && self.column > sat_sub_u32(self.max_column, data.len() as u32) {
            self.spec_new_line(PrintMode::Advanced)
        } else {
            self
        };
        s1.spec_put_bytes(data)
    }

    pub open spec fn spec_quoted_loop(self, data: Seq<u8>) -> Self
        decreases data.len(),
    {
        if data.len() == 0 {
            self
        } else {
            let s1 = if self.max_column > 0 && self.column >= sat_sub_u32(self.max_column, 2) {
                OutputState { column: 0, ..self.spec_put_char(BACKSLASH).spec_put_char(LF) }
            } else {
                self
            };
            s1.spec_put_char(data[0]).spec_quoted_loop(data.drop_first())
        }
    }

    /// `"data"`, continued with a backslash and a line break near the end
    /// of a line.
    pub open spec fn spec_quoted(self, data: Seq<u8>) -> Self {
        self.spec_put_char(QUOTE).spec_quoted_loop(data).spec_put_char(QUOTE)
    }

    /// `#hex digits#`
    pub open spec fn spec_hexadecimal(self, data: Seq<u8>) -> Self {
        let s1 = self.spec_put_char(HASH).spec_change_output_byte_size(4, PrintMode::Advanced).0;
        let s2 = s1.spec_var_put_bytes(data).spec_flush();
        s2.spec_change_output_byte_size(8, PrintMode::Advanced).0.spec_put_char(HASH)
    }

    /// `|base64 digits|`
    pub open spec fn spec_base64_atom(self, data: Seq<u8>) -> Self {
        let s1 = self.spec_var_put_char(BAR).spec_change_output_byte_size(6, PrintMode::Advanced).0;
        let s2 = s1.spec_var_put_bytes(data).spec_flush();
        s2.spec_change_output_byte_size(8, PrintMode::Advanced).0.spec_var_put_char(BAR)
    }

    /// A simple string in advanced form: a token, a quoted string,
    /// hexadecimal (up to four bytes) or base64; the last two only with a
    /// byte size of 8.
    pub open spec fn spec_simple(self, data: Seq<u8>) -> (Self, Result<(), SexpError>) {
        if self.spec_can_print_as_token(data) {
            (self.spec_token(data), Ok(()))
        } else if all_quotable(data) {
            (self.spec_quoted(data), Ok(()))
        } else if data.len() <= 4 && self.byte_size == 8 {
            (self.spec_hexadecimal(data), Ok(()))
        } else if self.byte_size == 8 {
            (self.spec_base64_atom(data), Ok(()))
        } else {
            (self, Err(SexpError::Sexp {
                fault: Fault::RestrictedCharset,
                severity: Severity::Error,
                position: NO_POSITION,
            }))
        }
    }

    pub open spec fn spec_adv_string(self, s: StringModel) -> (Self, Result<(), SexpError>) {
        let s0 = self.spec_adv_prefix();
        match s.hint {
            Some(h) => {
                let (s1, r1) = s0.spec_put_char(LBRACKET).spec_simple(h);
                if r1 is Err {
                    (s1, r1)
                } else {
                    s1.spec_put_char(RBRACKET).spec_simple(s.data)
                }
            },
            None => s0.spec_simple(s.data),
        }
    }

    /// The elements go one per line when the list's advanced length is more
    /// than what is left of the line (counted modulo 2^32).
    pub open spec fn spec_vertical(self, l: Seq<SexpModel>) -> bool {
        (clamp_usize(self.spec_adv_len(SexpModel::List(l))) as u32) > wrapping_diff(self.max_column, self.column)
    }

    /// The end of a list: a line break when fewer than two columns are
    /// left, one level less of indentation, `)`.
    pub open spec fn spec_adv_close(self) -> Self {
        let s4 = if self.max_column > 0 && self.column > sat_sub_u32(self.max_column, 2) {
            self.spec_new_line(PrintMode::Advanced)
        } else {
            self
        };
        let s5 = OutputState { indent: prev_u32(s4.indent), ..s4 }.spec_put_char(RPAREN);
        OutputState { depth: DepthManager { depth: (s5.depth.depth - 1) as usize, ..s5.depth }, ..s5 }
    }

    pub open spec fn spec_print_advanced(self, obj: SexpModel) -> (Self, Result<(), SexpError>)
        decreases obj, 2nat,
    {
        match obj {
            SexpModel::Atom(s) => self.spec_adv_string(s),
            SexpModel::List(l) => self.spec_adv_list(l),
        }
    }

    pub open spec fn spec_adv_list(self, l: Seq<SexpModel>) -> (Self, Result<(), SexpError>)
        decreases l, 1nat,
    {
        let (s1, r1) = self.spec_adv_prefix().spec_open_list(false);
        if r1 is Err {
            (s1, r1)
        } else {
            let s2 = OutputState { indent: next_u32(s1.indent), ..s1 };
            s2.spec_adv_rest(l, s2.spec_vertical(l), true)
        }
    }

    pub open spec fn spec_adv_rest(self, elems: Seq<SexpModel>, vertical: bool, first: bool) -> (Self, Result<(), SexpError>)
        decreases elems, 0nat,
    {
        if elems.len() == 0 {
            (self.spec_adv_close(), Ok(()))
        } else {
            let s1 = if first {
                self
            } else if vertical {
                self.spec_new_line(PrintMode::Advanced)
            } else {
                self.spec_put_char(SPACE)
            };
            let (s2, r2) = s1.spec_print_advanced(elems[0]);
            if r2 is Err {
                (s2, r2)
            } else {
                s2.spec_adv_rest(elems.drop_first(), vertical, false)
            }
        }
    }
}

impl SexpOutputStream {
    /// Writes `data` as it is.
    fn put_bytes(&mut self, data: &[u8])
        ensures
            final(self)@ == old(self)@.spec_put_bytes(data@),
            final(self)@.same_settings(old(self)@),
    {
        let mut i: usize = 0;
        assert(data@.skip(0) == data@);
        while i < data.len()
            invariant
                i <= data@.len(),
                old(self)@.spec_put_bytes(data@) == self@.spec_put_bytes(data@.skip(i as int)),
                self@.same_settings(old(self)@),
            decreases data@.len() - i,
        {
            assert(data@.skip(i as int).drop_first() == data@.skip(i + 1));
            self.put_char(data[i]);
            i = i + 1;
        }
        assert(data@.skip(data@.len() as int).len() == 0);
    }

    fn can_print_as_token(&self, data: &[u8]) -> (r: bool)
        ensures
            r == self@.spec_can_print_as_token(data@),
    {
        if data.len() == 0 {
            return false;
        }
        if is_dec_digit(data[0]) {
            return false;
        }
        if self.max_column > 0 && (self.column as u64) + ((data.len() as u32) as u64) >= self.max_column as u64 {
            return false;
        }
        check_token_chars(data)
    }

    fn print_advanced_object_prefix(&mut self)
        ensures
            final(self)@ == old(self)@.spec_adv_prefix(),
            final(self)@.same_settings(old(self)@),
    {
        if self.max_column > 0 && self.column > sat_sub(self.max_column, 4) {
            self.new_line(PrintMode::Advanced);
        }
    }

    fn print_token(&mut self, data: &[u8])
        ensures
            final(self)@ == old(self)@.spec_token(data@),
            final(self)@.same_settings(old(self)@),
    {
        if self.max_column > 0 && self.column > sat_sub(self.max_column, data.len() as u32) {
            self.new_line(PrintMode::Advanced);
        }
        self.put_bytes(data);
    }

    fn print_quoted(&mut self, data: &[u8])
        ensures
            final(self)@ == old(self)@.spec_quoted(data@),
            final(self)@.same_settings(old(self)@),
    {
        self.put_char(QUOTE);
        let ghost s1 = self@;
        let mut i: usize = 0;
        assert(data@.skip(0) == data@);
        while i < data.len()
            invariant
                i <= data@.len(),
                s1.spec_quoted_loop(data@) == self@.spec_quoted_loop(data@.skip(i as int)),
                self@.same_settings(old(self)@),
            decreases data@.len() - i,
        {
            assert(data@.skip(i as int).drop_first() == data@.skip(i + 1));
            if self.max_column > 0 && self.column >= sat_sub(self.max_column, 2) {
                self.put_char(BACKSLASH);
                self.put_char(LF);
                self.column = 0;
            }
            self.put_char(data[i]);
            i = i + 1;
        }
        assert(data@.skip(data@.len() as int).len() == 0);
        self.put_char(QUOTE);
    }

    fn print_hexadecimal(&mut self, data: &[u8])
        requires
            old(self)@.wf(),
            old(self).byte_size == 8,
        ensures
            final(self)@ == old(self)@.spec_hexadecimal(data@),
            final(self)@.wf(),
            final(self)@.same_layout(old(self)@),
    {
        self.put_char(HASH);
        let _ = self.change_output_byte_size(4, PrintMode::Advanced);
        self.put_bytes_encoded(data);
        let _ = self.flush();
        let _ = self.change_output_byte_size(8, PrintMode::Advanced);
        self.put_char(HASH);
    }

    fn print_base64_simple_string(&mut self, data: &[u8])
        requires
            old(self)@.wf(),
            old(self).byte_size == 8,
        ensures
            final(self)@ == old(self)@.spec_base64_atom(data@),
            final(self)@.wf(),
            final(self)@.same_layout(old(self)@),
    {
        let _ = self.var_put_char(BAR);
        let _ = self.change_output_byte_size(6, PrintMode::Advanced);
        self.put_bytes_encoded(data);
        let _ = self.flush();
        let _ = self.change_output_byte_size(8, PrintMode::Advanced);
        let _ = self.var_put_char(BAR);
    }

    fn print_advanced_simple_string(&mut self, data: &[u8]) -> (r: Result<(), SexpError>)
        requires
            old(self)@.wf(),
        ensures
            (final(self)@, r) == old(self)@.spec_simple(data@),
            final(self)@.wf(),
            r is Ok ==> final(self)@.same_layout(old(self)@),
    {
        if self.can_print_as_token(data) {
            self.print_token(data);
            Ok(())
        } else if can_print_as_quoted_string(data) {
            self.print_quoted(data);
            Ok(())
        } else if data.len() <= 4 && self.byte_size == 8 {
            self.print_hexadecimal(data);
            Ok(())
        } else if self.byte_size == 8 {
            self.print_base64_simple_string(data);
            Ok(())
        } else {
            Err(SexpError::Sexp {
                fault: Fault::RestrictedCharset,
                severity: Severity::Error,
                position: NO_POSITION,
            })
        }
    }
}

impl SexpOutputStream {
    fn print_advanced_string(&mut self, s: &SexpString) -> (r: Result<(), SexpError>)
        requires
            old(self)@.wf(),
        ensures
            (final(self)@, r) == old(self)@.spec_adv_string(s@),
            final(self)@.wf(),
            r is Ok ==> final(self)@.same_layout(old(self)@),
    {
        self.print_advanced_object_prefix();
        match &s.presentation_hint {
            Some(hint) => {
                self.put_char(LBRACKET);
                let r1 = self.print_advanced_simple_string(hint.as_slice());
                if r1.is_err() {
                    return r1;
                }
                self.put_char(RBRACKET);
            },
            None => {},
        }
        self.print_advanced_simple_string(s.data.as_slice())
    }

    /// Writes `obj` in advanced form: tokens, quoted strings, hexadecimal or
    /// base64 for strings; lists laid out on one line when they fit, else
    /// one element per line, indented.
    pub fn print_advanced(&mut self, obj: &Sexp) -> (r: Result<(), SexpError>)
        requires
            old(self)@.wf(),
        ensures
            (final(self)@, r) == old(self)@.spec_print_advanced(obj@),
            final(self)@.wf(),
            r is Ok ==> final(self)@.same_layout(old(self)@),
        decreases obj, 2nat,
    {
        match obj {
            Sexp::String(s) => self.print_advanced_string(s),
            Sexp::List(l) => self.print_advanced_list(l),
        }
    }

    fn print_advanced_list(&mut self, l: &SexpList) -> (r: Result<(), SexpError>)
        requires
            old(self)@.wf(),
        ensures
            (final(self)@, r) == old(self)@.spec_adv_list(l@),
            final(self)@.wf(),
            r is Ok ==> final(self)@.same_layout(old(self)@),
        decreases l, 1nat,
    {
        self.print_advanced_object_prefix();
        let opened = self.open_list();
        if opened.is_err() {
            return opened;
        }
        self.inc_indent();
        let remaining = wrapping_sub(self.max_column, self.column);
        let len = self.advanced_length_list(l);
        let vertical = (len as u32) > remaining;
        let ghost elems = l@;
        assert(elems.skip(0) == elems);
        proof {
            crate::types::lemma_models_of_index(l.elements@);
        }
        let mut i: usize = 0;
        while i < l.elements.len()
            invariant
                i <= l.elements@.len(),
                elems == l@,
                elems.len() == l.elements@.len(),
                forall|j: int| 0 <= j < elems.len() ==> #[trigger] elems[j] == l.elements@[j]@,
                self@.wf(),
                old(self)@.spec_adv_list(l@) == self@.spec_adv_rest(elems.skip(i as int), vertical, i == 0),
                self.depth.depth == old(self).depth.depth + 1,
                self.depth.max_depth == old(self).depth.max_depth,
                self.byte_size == old(self).byte_size,
                self.max_column == old(self).max_column,
                self.indent == next_u32(old(self).indent),
            decreases l.elements@.len() - i,
        {
            assert(elems.skip(i as int).drop_first() == elems.skip(i + 1));
            assert(elems.skip(i as int)[0] == l.elements@[i as int]@);
            assert(decreases_to!(l => l.elements@[i as int]));
            if i > 0 {
                if vertical {
                    self.new_line(PrintMode::Advanced);
                } else {
                    self.put_char(SPACE);
                }
            }
            let printed = self.print_advanced(&l.elements[i]);
            if printed.is_err() {
                return printed;
            }
            i = i + 1;
        }
        assert(elems.skip(i as int).len() == 0);
        if self.max_column > 0 && self.column > sat_sub(self.max_column, 2) {
            self.new_line(PrintMode::Advanced);
        }
        self.unindent();
        self.put_char(RPAREN);
        self.decrease_depth();
        Ok(())
    }

    fn advanced_length_simple(&self, data: &[u8]) -> (r: usize)
        ensures
            r == clamp_usize(self@.spec_simple_len(data@)),
    {
        let n = data.len();
        if self.can_print_as_token(data) {
            n
        } else if can_print_as_quoted_string(data) {
            sat_add_exec(n, 2)
        } else if n <= 4 && self.byte_size == 8 {
            2 * n + 2
        } else if self.byte_size == 8 {
            let x: u128 = (n as u128 + 2) / 3 * 4 + 2;
            if x > usize::MAX as u128 { usize::MAX } else { x as usize }
        } else {
            0
        }
    }

    fn advanced_length_string(&self, s: &SexpString) -> (r: usize)
        ensures
            r == clamp_usize(self@.spec_adv_len(SexpModel::Atom(s@))),
    {
        let mut len: usize = 0;
        match &s.presentation_hint {
            Some(hint) => {
                let h = self.advanced_length_simple(hint.as_slice());
                proof {
                    lemma_sat_add_clamp(2, self@.spec_simple_len(hint@));
                }
                len = sat_add_exec(2, h);
            },
            None => {},
        }
        let d = self.advanced_length_simple(s.data.as_slice());
        proof {
            let hl: nat = match s@.hint {
                Some(h) => 2 + self@.spec_simple_len(h),
                None => 0,
            };
            lemma_sat_add_clamp(hl, self@.spec_simple_len(s@.data));
        }
        sat_add_exec(len, d)
    }

    fn advanced_length_list(&self, l: &SexpList) -> (r: usize)
        ensures
            r == clamp_usize(self@.spec_adv_len(SexpModel::List(l@))),
        decreases l, 1nat,
    {
        let ghost elems = l@;
        proof {
            crate::types::lemma_models_of_index(l.elements@);
            assert(elems.take(0) == Seq::<SexpModel>::empty());
        }
        let mut len: usize = 1;
        let mut i: usize = 0;
        while i < l.elements.len()
            invariant
                i <= l.elements@.len(),
                elems == l@,
                elems.len() == l.elements@.len(),
                forall|j: int| 0 <= j < elems.len() ==> #[trigger] elems[j] == l.elements@[j]@,
                len == clamp_usize(1 + self@.spec_adv_len_elems(elems.take(i as int))),
            decreases l.elements@.len() - i,
        {
            assert(decreases_to!(l => l.elements@[i as int]));
            let e = self.advanced_length(&l.elements[i]);
            proof {
                let t = elems.take(i + 1);
                assert(t.drop_last() == elems.take(i as int));
                assert(t.last() == elems[i as int]);
                lemma_sat_add_clamp(1 + self@.spec_adv_len_elems(elems.take(i as int)), self@.spec_adv_len(elems[i as int]));
            }
            len = sat_add_exec(len, e);
            i = i + 1;
        }
        assert(elems.take(i as int) == elems);
        proof {
            lemma_sat_add_clamp(1 + self@.spec_adv_len_elems(elems), 1);
        }
        sat_add_exec(len, 1)
    }

    /// The length that `obj` would take in advanced form, as measured from
    /// the current column (saturating at `usize::MAX`).
    pub fn advanced_length(&self, obj: &Sexp) -> (r: usize)
        ensures
            r == clamp_usize(self@.spec_adv_len(obj@)),
        decreases obj, 2nat,
    {
        match obj {
            Sexp::String(s) => self.advanced_length_string(s),
            Sexp::List(l) => self.advanced_length_list(l),
        }
    }
}

impl SexpOutputStream {
    /// What has been written.
    pub fn into_bytes(self) -> (r: Vec<u8>)
        ensures
            r@ == self.out@,
    {
        self.out
    }

    /// What has been written.
    pub fn as_bytes(&self) -> (r: &[u8])
        ensures
            r@ == self.out@,
    {
        self.out.as_slice()
    }

    /// What has been written, as a string (invalid UTF-8 replaced).
    pub fn into_string_lossy(self) -> (r: String)
        ensures
            r@ == utf8_lossy(self.out@),
            valid_utf8(self.out@) ==> encode_utf8(r@) == self.out@,
    {
        string_from_utf8_lossy(self.out.as_slice())
    }
}

impl Default for SexpOutputStream {
    fn default() -> (r: Self)
        ensures
            r@ == OutputState::initial(DEFAULT_MAX_DEPTH),
    {
        Self::new()
    }
}

} // verus!
