//! The one-pass parser over a byte slice.
//!
//! It reads canonical (`3:abc`) and advanced (tokens, `"quoted"`, `#hex#`,
//! `|base64|`) simple strings, `[hint]` presentation hints, lists, and
//! `{...}` braces around the base64 encoding of an object in canonical
//! form, with a nesting limit of 1024 lists.
use vstd::prelude::*;
use vstd::string::StringSliceAdditionalSpecFns;
use crate::chars::{
    base64_value, dec_value, hex_value, is_base64_digit, is_dec_digit, is_hex_digit, is_token_char,
    is_whitespace, spec_base64_value, spec_dec_value, spec_hex_value, spec_is_base64_digit,
    spec_is_dec_digit, spec_is_hex_digit, spec_is_token_char, spec_is_whitespace, APOS, BACKSLASH,
    BAR, COLON, EQUALS, HASH, LBRACE, LBRACKET, LPAREN, QUOTE, RBRACE, RBRACKET, RPAREN,
};
use crate::depth::DEFAULT_MAX_DEPTH;
use crate::error::SexpError;
use crate::input::{bytes_result, sexp_result, list_result, string_result};
use crate::types::{models_of, Sexp, SexpList, SexpModel, SexpString, StringModel};
use crate::ext_key::{spec_parse_extended, KeyModel};
use vstd::string::StrSliceExecFns;
use vstd::utf8::encode_utf8;

verus! {

/// The longest verbatim string that the parser accepts.
pub const MAX_VERBATIM_LEN: u32 = 1048576;

/// The parser's state: the input, the position of the next byte, and the
/// depth of list nesting with its limit.
pub struct ParseState {
    pub input: Seq<u8>,
    pub pos: nat,
    pub depth: usize,
    pub max_depth: usize,
}

pub open spec fn initial_state(input: Seq<u8>) -> ParseState {
    ParseState { input, pos: 0, depth: 0, max_depth: DEFAULT_MAX_DEPTH }
}

/// The value of the two hexadecimal digits `h` and `l`.
pub open spec fn hex_pair(h: u8, l: u8) -> u8 {
    (spec_hex_value(h) * 16 + spec_hex_value(l)) as u8
}

/// Hexadecimal digits taken in pairs, each pair one byte.
pub open spec fn hex_decode(digits: Seq<u8>) -> Seq<u8> {
    Seq::new(digits.len() / 2, |i: int| hex_pair(digits[2 * i], digits[2 * i + 1]))
}

/// The first, second and third byte of a group of base64 digits.
pub open spec fn b64_byte0(a: u8, b: u8) -> u8 {
    (spec_base64_value(a) * 4 + spec_base64_value(b) / 16) as u8
}

pub open spec fn b64_byte1(b: u8, c: u8) -> u8 {
    ((spec_base64_value(b) % 16) * 16 + spec_base64_value(c) / 4) as u8
}

pub open spec fn b64_byte2(c: u8, d: u8) -> u8 {
    ((spec_base64_value(c) % 4) * 64 + spec_base64_value(d)) as u8
}

/// Base64 digits decoded: each group of four gives three bytes; a last
/// group of three gives two, of two gives one, of one gives none.
pub open spec fn base64_decode_spec(v: Seq<u8>) -> Seq<u8>
    decreases v.len(),
{
    if v.len() >= 4 {
        seq![b64_byte0(v[0], v[1]), b64_byte1(v[1], v[2]), b64_byte2(v[2], v[3])]
            + base64_decode_spec(v.skip(4))
    } else if v.len() == 3 {
        seq![b64_byte0(v[0], v[1]), b64_byte1(v[1], v[2])]
    } else if v.len() == 2 {
        seq![b64_byte0(v[0], v[1])]
    } else {
        Seq::empty()
    }
}

/// The byte that an escape letter stands for in a quoted string.
pub open spec fn simple_escape(c: u8) -> Option<u8> {
    if c == 98 { Some(8u8) }
    else if c == 116 { Some(9u8) }
    else if c == 118 { Some(11u8) }
    else if c == 110 { Some(10u8) }
    else if c == 102 { Some(12u8) }
    else if c == 114 { Some(13u8) }
    else if c == QUOTE { Some(QUOTE) }
    else if c == APOS { Some(APOS) }
    else if c == BACKSLASH { Some(BACKSLASH) }
    else { None }
}

pub open spec fn is_octal(c: u8) -> bool {
    48 <= c <= 55
}

impl ParseState {
    /// The same input, depth and limit.
    pub open spec fn same_frame(self, other: Self) -> bool {
        &&& self.input == other.input
        &&& self.depth == other.depth
        &&& self.max_depth == other.max_depth
    }

    pub open spec fn wf(self) -> bool {
        &&& self.pos <= self.input.len()
        &&& self.depth <= self.max_depth + 1
        &&& self.max_depth == DEFAULT_MAX_DEPTH
    }

    /// What is left to read.
    pub open spec fn measure(self) -> nat {
        if self.pos <= self.input.len() { (self.input.len() - self.pos) as nat } else { 0 }
    }

    pub open spec fn peek(self) -> Option<u8> {
        if self.pos < self.input.len() { Some(self.input[self.pos as int]) } else { None }
    }

    /// One byte further.
    pub open spec fn advance(self) -> Self {
        ParseState { pos: self.pos + 1, ..self }
    }

    pub open spec fn spec_skip_whitespace(self) -> Self
        decreases self.measure(),
    {
        if self.pos < self.input.len() && spec_is_whitespace(self.input[self.pos as int]) {
            self.advance().spec_skip_whitespace()
        } else {
            self
        }
    }

    pub open spec fn spec_expect_char(self, expected: u8) -> (Self, Result<(), SexpError>) {
        match self.peek() {
            Some(c) => if c == expected {
                (self.advance(), Ok(()))
            } else {
                (self, Err(SexpError::CharMismatch { expected, found: c, pos: self.pos as usize }))
            },
            None => (self, Err(SexpError::UnexpectedEof { pos: self.pos as usize })),
        }
    }

    /// The digits from here on, `count` of them already read into `value`.
    pub open spec fn spec_decimal_loop(self, value: nat, count: nat) -> (Self, Result<u32, SexpError>)
        decreases self.measure(),
    {
        if self.pos < self.input.len() && spec_is_dec_digit(self.input[self.pos as int]) {
            let v: nat = value * 10 + spec_dec_value(self.input[self.pos as int]) as nat;
            if v > u32::MAX {
                (self, Err(SexpError::DecimalTooLong { pos: self.pos as usize }))
            } else if count + 1 > 9 {
                (self.advance(), Err(SexpError::DecimalTooLong { pos: self.advance().pos as usize }))
            } else {
                self.advance().spec_decimal_loop(v, count + 1)
            }
        } else {
            (self, Ok(value as u32))
        }
    }

    pub open spec fn spec_scan_decimal(self) -> (Self, Result<u32, SexpError>) {
        self.spec_decimal_loop(0, 0)
    }

    /// The token characters from here on, after `acc`.
    pub open spec fn spec_token_run(self, acc: Seq<u8>) -> (Self, Seq<u8>)
        decreases self.measure(),
    {
        if self.pos < self.input.len() && spec_is_token_char(self.input[self.pos as int]) {
            self.advance().spec_token_run(acc.push(self.input[self.pos as int]))
        } else {
            (self, acc)
        }
    }

    pub open spec fn spec_scan_token(self) -> (Self, Seq<u8>) {
        self.spec_skip_whitespace().spec_token_run(Seq::empty())
    }

    /// `:` and then `length` bytes as they are.
    pub open spec fn spec_scan_verbatim(self, length: u32) -> (Self, Result<Seq<u8>, SexpError>) {
        if length > MAX_VERBATIM_LEN {
            (self, Err(SexpError::VerbatimTooLong { len: length }))
        } else {
            let (s1, r1) = self.spec_expect_char(COLON);
            if r1 is Err {
                (s1, Err(r1->Err_0))
            } else if s1.pos + length <= s1.input.len() {
                (
                    ParseState { pos: (s1.pos + length) as nat, ..s1 },
                    Ok(s1.input.subrange(s1.pos as int, s1.pos + length)),
                )
            } else {
                (
                    ParseState { pos: s1.input.len(), ..s1 },
                    Err(SexpError::UnexpectedEof { pos: s1.input.len() as usize }),
                )
            }
        }
    }

    /// The two hexadecimal digits of a `\x` escape.
    pub open spec fn spec_hex_escape(self) -> (Self, Result<u8, SexpError>) {
        match self.peek() {
            None => (self, Err(SexpError::UnexpectedEof { pos: self.pos as usize })),
            Some(h) => {
                let s1 = self.advance();
                if !spec_is_hex_digit(h) {
                    (s1, Err(SexpError::IllegalChar { ch: h, pos: s1.pos as usize }))
                } else {
                    match s1.peek() {
                        None => (s1, Err(SexpError::UnexpectedEof { pos: s1.pos as usize })),
                        Some(l) => {
                            let s2 = s1.advance();
                            if !spec_is_hex_digit(l) {
                                (s2, Err(SexpError::IllegalChar { ch: l, pos: s2.pos as usize }))
                            } else {
                                (s2, Ok(hex_pair(h, l)))
                            }
                        },
                    }
                }
            },
        }
    }

    /// Up to two more octal digits after the first one, whose value is `first`.
    pub open spec fn spec_octal_digits(self, first: u32) -> (Self, u32) {
        match self.peek() {
            Some(o1) => if is_octal(o1) {
                let s1 = self.advance();
                let v1 = (first * 8 + (o1 - 48)) as u32;
                match s1.peek() {
                    Some(o2) => if is_octal(o2) {
                        (s1.advance(), (v1 * 8 + (o2 - 48)) as u32)
                    } else {
                        (s1, v1)
                    },
                    None => (s1, v1),
                }
            } else {
                (self, first)
            },
            None => (self, first),
        }
    }

    /// The byte that an escape stands for; `self` is just after the backslash.
    pub open spec fn spec_escape(self) -> (Self, Result<u8, SexpError>) {
        match self.peek() {
            None => (self, Err(SexpError::UnexpectedEof { pos: self.pos as usize })),
            Some(c) => {
                let s1 = self.advance();
                if simple_escape(c) is Some {
                    (s1, Ok(simple_escape(c)->0))
                } else if c == 120 {
                    s1.spec_hex_escape()
                } else if is_octal(c) {
                    let (s2, v) = s1.spec_octal_digits((c - 48) as u32);
                    if v > 255 {
                        (s2, Err(SexpError::OctalTooBig { val: v }))
                    } else {
                        (s2, Ok(v as u8))
                    }
                } else {
                    (s1, Err(SexpError::UnknownEscape { ch: c, pos: s1.pos as usize }))
                }
            },
        }
    }

    /// The rest of a quoted string whose bytes so far are `acc`.
    pub open spec fn spec_quoted_loop(self, acc: Seq<u8>, declared: Option<u32>) -> (Self, Result<Seq<u8>, SexpError>)
        decreases self.measure(),
    {
        match self.peek() {
            None => (self, Err(SexpError::UnexpectedEof { pos: self.pos as usize })),
            Some(c) => {
                let s1 = self.advance();
                if c == QUOTE {
                    match declared {
                        Some(d) => if (acc.len() as u32) != d {
                            (s1, Err(SexpError::LengthMismatch {
                                declared: d,
                                actual: acc.len() as usize,
                                pos: s1.pos as usize,
                            }))
                        } else {
                            (s1, Ok(acc))
                        },
                        None => (s1, Ok(acc)),
                    }
                } else if c == BACKSLASH {
                    let (s2, r2) = s1.spec_escape();
                    if r2 is Err {
                        (s2, Err(r2->Err_0))
                    } else if s2.measure() < self.measure() {
                        s2.spec_quoted_loop(acc.push(r2->Ok_0), declared)
                    } else {
                        (s2, Ok(acc))
                    }
                } else if s1.measure() < self.measure() {
                    s1.spec_quoted_loop(acc.push(c), declared)
                } else {
                    (s1, Ok(acc))
                }
            },
        }
    }

    pub open spec fn spec_scan_quoted(self, declared: Option<u32>) -> (Self, Result<Seq<u8>, SexpError>) {
        let (s1, r1) = self.spec_expect_char(QUOTE);
        if r1 is Err {
            (s1, Err(r1->Err_0))
        } else {
            s1.spec_quoted_loop(Seq::empty(), declared)
        }
    }

    /// The hexadecimal digits up to the closing `#`, whitespace passed over.
    pub open spec fn spec_hex_digits(self, acc: Seq<u8>) -> (Self, Result<Seq<u8>, SexpError>)
        decreases self.measure(),
    {
        match self.peek() {
            None => (self, Err(SexpError::UnexpectedEof { pos: self.pos as usize })),
            Some(c) => if c == HASH {
                (self.advance(), Ok(acc))
            } else if spec_is_hex_digit(c) || spec_is_whitespace(c) {
                self.advance().spec_hex_digits(if spec_is_whitespace(c) { acc } else { acc.push(c) })
            } else {
                (self, Err(SexpError::IllegalChar { ch: c, pos: self.pos as usize }))
            },
        }
    }

    pub open spec fn spec_scan_hex(self, declared: Option<u32>) -> (Self, Result<Seq<u8>, SexpError>) {
        let (s1, r1) = self.spec_expect_char(HASH);
        if r1 is Err {
            (s1, Err(r1->Err_0))
        } else {
            let (s2, r2) = s1.spec_hex_digits(Seq::empty());
            if r2 is Err {
                (s2, r2)
            } else if r2->Ok_0.len() % 2 != 0 {
                (s2, Err(SexpError::IllegalChar { ch: 0, pos: s2.pos as usize }))
            } else {
                s2.check_declared(hex_decode(r2->Ok_0), declared)
            }
        }
    }

    /// `bytes`, unless a length was declared and theirs differs.
    pub open spec fn check_declared(self, bytes: Seq<u8>, declared: Option<u32>) -> (Self, Result<Seq<u8>, SexpError>) {
        match declared {
            Some(d) => if (bytes.len() as u32) != d {
                (self, Err(SexpError::LengthMismatch {
                    declared: d,
                    actual: bytes.len() as usize,
                    pos: self.pos as usize,
                }))
            } else {
                (self, Ok(bytes))
            },
            None => (self, Ok(bytes)),
        }
    }

    /// The base64 digits up to `close` (`|` or `}`), whitespace and `=`
    /// passed over; `close` itself is read too.
    pub open spec fn spec_base64_digits(self, acc: Seq<u8>, close: u8) -> (Self, Result<Seq<u8>, SexpError>)
        decreases self.measure(),
    {
        match self.peek() {
            None => (self, Err(SexpError::UnexpectedEof { pos: self.pos as usize })),
            Some(c) => if c == close {
                (self.advance(), Ok(acc))
            } else if spec_is_base64_digit(c) || c == EQUALS || spec_is_whitespace(c) {
                self.advance().spec_base64_digits(
                    if spec_is_whitespace(c) || c == EQUALS { acc } else { acc.push(c) },
                    close,
                )
            } else {
                (self, Err(SexpError::IllegalChar { ch: c, pos: self.pos as usize }))
            },
        }
    }

    pub open spec fn spec_scan_base64(self, declared: Option<u32>) -> (Self, Result<Seq<u8>, SexpError>) {
        let (s1, r1) = self.spec_expect_char(BAR);
        if r1 is Err {
            (s1, Err(r1->Err_0))
        } else {
            let (s2, r2) = s1.spec_base64_digits(Seq::empty(), BAR);
            if r2 is Err {
                (s2, r2)
            } else {
                s2.check_declared(base64_decode_spec(r2->Ok_0), declared)
            }
        }
    }
}

impl ParseState {
    /// A simple string: a token, or an optional decimal length followed by a
    /// quoted, hexadecimal, base64 or verbatim string.
    pub open spec fn spec_scan_simple(self) -> (Self, Result<Seq<u8>, SexpError>) {
        let s0 = self.spec_skip_whitespace();
        match s0.peek() {
            None => (s0, Err(SexpError::UnexpectedEof { pos: s0.pos as usize })),
            Some(c) => if spec_is_token_char(c) && !spec_is_dec_digit(c) {
                let (s1, t) = s0.spec_scan_token();
                (s1, Ok(t))
            } else {
                let (s1, rd) = if spec_is_dec_digit(c) {
                    let (sd, r) = s0.spec_scan_decimal();
                    (sd, match r {
                        Ok(v) => Ok(Some(v)),
                        Err(e) => Err(e),
                    })
                } else {
                    (s0, Ok(None))
                };
                if rd is Err {
                    (s1, Err(rd->Err_0))
                } else {
                    let declared = rd->Ok_0;
                    match s1.peek() {
                        None => (s1, Err(SexpError::UnexpectedEof { pos: s1.pos as usize })),
                        Some(n) => if n == QUOTE {
                            s1.spec_scan_quoted(declared)
                        } else if n == HASH {
                            s1.spec_scan_hex(declared)
                        } else if n == BAR {
                            s1.spec_scan_base64(declared)
                        } else if n == COLON {
                            s1.spec_scan_verbatim(match declared { Some(d) => d, None => 0 })
                        } else {
                            (s1, Err(SexpError::IllegalChar { ch: n, pos: s1.pos as usize }))
                        },
                    }
                }
            },
        }
    }

    /// A string with an optional `[hint]` before it.
    pub open spec fn spec_scan_string(self) -> (Self, Result<StringModel, SexpError>) {
        let s0 = self.spec_skip_whitespace();
        if s0.peek() == Some(LBRACKET) {
            let (s2, r2) = s0.advance().spec_scan_simple();
            if r2 is Err {
                (s2, Err(r2->Err_0))
            } else {
                let (s3, r3) = s2.spec_expect_char(RBRACKET);
                if r3 is Err {
                    (s3, Err(r3->Err_0))
                } else {
                    let (s4, r4) = s3.spec_scan_simple();
                    if r4 is Err {
                        (s4, Err(r4->Err_0))
                    } else {
                        (s4, Ok(StringModel { data: r4->Ok_0, hint: Some(r2->Ok_0) }))
                    }
                }
            }
        } else {
            let (s1, r1) = s0.spec_scan_simple();
            if r1 is Err {
                (s1, Err(r1->Err_0))
            } else {
                (s1, Ok(StringModel { data: r1->Ok_0, hint: None }))
            }
        }
    }

    /// A reader of `bytes` from their start, at this depth and limit.
    pub open spec fn decoded_frame(self, bytes: Seq<u8>) -> Self {
        ParseState { input: bytes, pos: 0, depth: self.depth, max_depth: self.max_depth }
    }

    /// An object: a list, a string, or `{`, base64 digits and `}`, where the
    /// digits decode to exactly one object in canonical (or advanced) syntax.
    pub open spec fn spec_scan_object(self) -> (Self, Result<SexpModel, SexpError>)
        decreases self.measure(), 2nat,
    {
        let s0 = self.spec_skip_whitespace();
        match s0.peek() {
            None => (s0, Err(SexpError::UnexpectedEof { pos: s0.pos as usize })),
            Some(c) => if c == LPAREN {
                if s0.measure() <= self.measure() {
                    let (s1, r1) = s0.spec_scan_list();
                    if r1 is Err {
                        (s1, Err(r1->Err_0))
                    } else {
                        (s1, Ok(SexpModel::List(r1->Ok_0)))
                    }
                } else {
                    (s0, Ok(SexpModel::List(Seq::empty())))
                }
            } else if c == LBRACE {
                let (s1, r1) = s0.advance().spec_base64_digits(Seq::empty(), RBRACE);
                if r1 is Err {
                    (s1, Err(r1->Err_0))
                } else {
                    let inner = s0.decoded_frame(base64_decode_spec(r1->Ok_0));
                    if inner.measure() < self.measure() {
                        let (s2, r2) = inner.spec_scan_object();
                        if r2 is Err {
                            (s1, r2)
                        } else if s2.pos < inner.input.len() {
                            (s1, Err(SexpError::IllegalChar {
                                ch: inner.input[s2.pos as int],
                                pos: s2.pos as usize,
                            }))
                        } else {
                            (s1, r2)
                        }
                    } else {
                        (s1, Ok(SexpModel::List(Seq::empty())))
                    }
                }
            } else {
                let (s1, r1) = s0.spec_scan_string();
                if r1 is Err {
                    (s1, Err(r1->Err_0))
                } else {
                    (s1, Ok(SexpModel::Atom(r1->Ok_0)))
                }
            },
        }
    }

    /// `(`, one level deeper within the limit, and the elements.
    pub open spec fn spec_scan_list(self) -> (Self, Result<Seq<SexpModel>, SexpError>)
        decreases self.measure(), 1nat,
    {
        let (s1, r1) = self.spec_expect_char(LPAREN);
        if r1 is Err {
            (s1, Err(r1->Err_0))
        } else {
            let s2 = ParseState { depth: (s1.depth + 1) as usize, ..s1 };
            if s2.depth > s2.max_depth {
                (s2, Err(SexpError::MaxDepthExceeded { max: s2.max_depth, pos: s2.pos as usize }))
            } else if s2.measure() < self.measure() {
                s2.spec_list_loop(Seq::empty())
            } else {
                (s2, Ok(Seq::empty()))
            }
        }
    }

    /// The rest of a list whose elements so far are `acc`, up to `)`.
    pub open spec fn spec_list_loop(self, acc: Seq<SexpModel>) -> (Self, Result<Seq<SexpModel>, SexpError>)
        decreases self.measure(), 3nat,
    {
        let s0 = self.spec_skip_whitespace();
        match s0.peek() {
            None => (s0, Err(SexpError::UnexpectedEof { pos: s0.pos as usize })),
            Some(c) => if c == RPAREN {
                (ParseState { depth: (s0.depth - 1) as usize, ..s0.advance() }, Ok(acc))
            } else if s0.measure() <= self.measure() {
                let (s1, r1) = s0.spec_scan_object();
                if r1 is Err {
                    (s1, Err(r1->Err_0))
                } else if s1.measure() < self.measure() {
                    s1.spec_list_loop(acc.push(r1->Ok_0))
                } else {
                    (s1, Ok(acc.push(r1->Ok_0)))
                }
            } else {
                (s0, Ok(acc))
            },
        }
    }
}

/// What `parse_canonical` gives for `input`: the first object, whatever follows it.
pub open spec fn spec_parse_canonical(input: Seq<u8>) -> Result<SexpModel, SexpError> {
    initial_state(input).spec_scan_object().1
}

/// What `parse_advanced` gives for `input`: the object, with nothing but
/// whitespace after it.
pub open spec fn spec_parse_advanced(input: Seq<u8>) -> Result<SexpModel, SexpError> {
    let (s1, r1) = initial_state(input).spec_scan_object();
    if r1 is Err {
        r1
    } else {
        let s2 = s1.spec_skip_whitespace();
        if s2.pos < input.len() {
            Err(SexpError::IllegalChar { ch: input[s2.pos as int], pos: s2.pos as usize })
        } else {
            r1
        }
    }
}

/// The parser over a byte slice.
struct Parser<'a> {
    input: &'a [u8],
    pos: usize,
    depth: usize,
    max_depth: usize,
}

impl<'a> View for Parser<'a> {
    type V = ParseState;

    closed spec fn view(&self) -> ParseState {
        ParseState { input: self.input@, pos: self.pos as nat, depth: self.depth, max_depth: self.max_depth }
    }
}

impl<'a> Parser<'a> {
    fn new(input: &'a [u8]) -> (r: Self)
        ensures
            r@ == initial_state(input@),
            r@.wf(),
    {
        Parser { input, pos: 0, depth: 0, max_depth: DEFAULT_MAX_DEPTH }
    }

    fn peek(&self) -> (r: Option<u8>)
        ensures
            r == self@.peek(),
    {
        if self.pos < self.input.len() { Some(self.input[self.pos]) } else { None }
    }

    fn next(&mut self) -> (r: Option<u8>)
        requires
            old(self)@.wf(),
        ensures
            r == old(self)@.peek(),
            final(self)@ == (if r is Some { old(self)@.advance() } else { old(self)@ }),
            final(self)@.same_frame(old(self)@),
            final(self)@.pos >= old(self)@.pos,
            final(self)@.wf(),
    {
        if self.pos < self.input.len() {
            let c = self.input[self.pos];
            self.pos = self.pos + 1;
            Some(c)
        } else {
            None
        }
    }

    fn skip_whitespace(&mut self)
        requires
            old(self)@.wf(),
        ensures
            final(self)@ == old(self)@.spec_skip_whitespace(),
            final(self)@.same_frame(old(self)@),
            final(self)@.wf(),
            final(self)@.measure() <= old(self)@.measure(),
            final(self)@.pos >= old(self)@.pos,
    {
        while self.pos < self.input.len() && is_whitespace(self.input[self.pos])
            invariant
                self@.wf(),
                self@.input == old(self)@.input,
                old(self)@.spec_skip_whitespace() == self@.spec_skip_whitespace(),
                self@.measure() <= old(self)@.measure(),
                self@.pos >= old(self)@.pos,
                self@.depth == old(self)@.depth,
                self@.max_depth == old(self)@.max_depth,
            decreases self.input@.len() - self.pos,
        {
            self.pos = self.pos + 1;
        }
    }

    fn expect_char(&mut self, expected: u8) -> (r: Result<(), SexpError>)
        requires
            old(self)@.wf(),
        ensures
            (final(self)@, r) == old(self)@.spec_expect_char(expected),
            final(self)@.same_frame(old(self)@),
            final(self)@.pos >= old(self)@.pos,
            final(self)@.wf(),
    {
        if self.pos < self.input.len() {
            let c = self.input[self.pos];
            if c == expected {
                self.pos = self.pos + 1;
                Ok(())
            } else {
                Err(SexpError::CharMismatch { expected, found: c, pos: self.pos })
            }
        } else {
            Err(SexpError::UnexpectedEof { pos: self.pos })
        }
    }

    fn scan_decimal(&mut self) -> (r: Result<u32, SexpError>)
        requires
            old(self)@.wf(),
        ensures
            (final(self)@, r) == old(self)@.spec_scan_decimal(),
            final(self)@.same_frame(old(self)@),
            final(self)@.pos >= old(self)@.pos,
            final(self)@.wf(),
    {
        let mut value: u32 = 0;
        let mut count: u32 = 0;
        while self.pos < self.input.len() && is_dec_digit(self.input[self.pos])
            invariant
                self@.wf(),
                self@.input == old(self)@.input,
                self@.depth == old(self)@.depth,
                self@.max_depth == old(self)@.max_depth,
                count <= 9,
                self@.pos >= old(self)@.pos,
                old(self)@.spec_scan_decimal() == self@.spec_decimal_loop(value as nat, count as nat),
            decreases self.input@.len() - self.pos,
        {
            let d = dec_value(self.input[self.pos]) as u32;
            if value > 429496729 || (value == 429496729 && d > 5) {
                return Err(SexpError::DecimalTooLong { pos: self.pos });
            }
            value = value * 10 + d;
            self.pos = self.pos + 1;
            count = count + 1;
            if count > 9 {
                return Err(SexpError::DecimalTooLong { pos: self.pos });
            }
        }
        Ok(value)
    }

    fn scan_token(&mut self) -> (r: Vec<u8>)
        requires
            old(self)@.wf(),
        ensures
            (final(self)@, r@) == old(self)@.spec_scan_token(),
            final(self)@.same_frame(old(self)@),
            final(self)@.wf(),
            final(self)@.pos >= old(self)@.pos,
            ({
                let s0 = old(self)@.spec_skip_whitespace();
                s0.pos < s0.input.len() && spec_is_token_char(s0.input[s0.pos as int])
            }) ==> final(self)@.pos > old(self)@.pos,
    {
        self.skip_whitespace();
        let mut bytes: Vec<u8> = Vec::new();
        let ghost s0 = self@;
        while self.pos < self.input.len() && is_token_char(self.input[self.pos])
            invariant
                self@.wf(),
                self@.input == old(self)@.input,
                self@.depth == old(self)@.depth,
                self@.max_depth == old(self)@.max_depth,
                s0.spec_token_run(Seq::empty()) == self@.spec_token_run(bytes@),
                s0 == old(self)@.spec_skip_whitespace(),
                s0.pos >= old(self)@.pos,
                self@.pos == s0.pos + bytes@.len(),
            decreases self.input@.len() - self.pos,
        {
            bytes.push(self.input[self.pos]);
            self.pos = self.pos + 1;
        }
        bytes
    }

    fn scan_verbatim(&mut self, length: u32) -> (r: Result<Vec<u8>, SexpError>)
        requires
            old(self)@.wf(),
        ensures
            (final(self)@, bytes_result(r)) == old(self)@.spec_scan_verbatim(length),
            final(self)@.same_frame(old(self)@),
            final(self)@.pos >= old(self)@.pos,
            final(self)@.wf(),
            r is Ok ==> final(self)@.pos > old(self)@.pos,
    {
        if length > MAX_VERBATIM_LEN {
            return Err(SexpError::VerbatimTooLong { len: length });
        }
        self.expect_char(COLON)?;
        let start = self.pos;
        let mut bytes: Vec<u8> = Vec::new();
        let mut i: u32 = 0;
        while i < length
            invariant
                self@.wf(),
                self@.input == old(self)@.input,
                self@.depth == old(self)@.depth,
                self@.max_depth == old(self)@.max_depth,
                i <= length,
                length <= MAX_VERBATIM_LEN,
                old(self)@.spec_expect_char(COLON).1 is Ok,
                old(self)@.spec_expect_char(COLON).0.pos == start,
                old(self)@.spec_expect_char(COLON).0.input == self@.input,
                self.pos == start + i,
                start + i <= self.input@.len(),
                bytes@ == self.input@.subrange(start as int, start + i),
            decreases length - i,
        {
            match self.next() {
                Some(c) => {
                    bytes.push(c);
                    assert(bytes@ == self.input@.subrange(start as int, start + i + 1));
                },
                None => {
                    return Err(SexpError::UnexpectedEof { pos: self.pos });
                },
            }
            i = i + 1;
        }
        Ok(bytes)
    }
}

/// Decodes base64 digits (without padding), as `base64_decode_spec` says.
fn base64_decode(digits: &[u8]) -> (r: Vec<u8>)
    requires
        forall|i: int| 0 <= i < digits@.len() ==> #[trigger] spec_is_base64_digit(digits@[i]),
    ensures
        r@ == base64_decode_spec(digits@),
{
    let n = digits.len();
    let mut out: Vec<u8> = Vec::new();
    let mut i: usize = 0;
    proof {
        assert(digits@.skip(0) == digits@);
        assert(out@ + base64_decode_spec(digits@.skip(0)) == base64_decode_spec(digits@));
    }
    while n - i >= 4
        invariant
            n == digits@.len(),
            i <= n,
            i % 4 == 0,
            out@ + base64_decode_spec(digits@.skip(i as int)) == base64_decode_spec(digits@),
            forall|k: int| 0 <= k < digits@.len() ==> #[trigger] spec_is_base64_digit(digits@[k]),
        decreases n - i,
    {
        let a = base64_value(digits[i]) as u32;
        let b = base64_value(digits[i + 1]) as u32;
        let c = base64_value(digits[i + 2]) as u32;
        let d = base64_value(digits[i + 3]) as u32;
        let ghost rest = digits@.skip(i as int);
        assert(rest.skip(4) == digits@.skip(i + 4));
        assert(rest[0] == digits@[i as int] && rest[1] == digits@[i + 1] && rest[2] == digits@[i + 2] && rest[3] == digits@[i + 3]);
        let ghost before = out@;
        out.push((a * 4 + b / 16) as u8);
        out.push(((b % 16) * 16 + c / 4) as u8);
        out.push(((c % 4) * 64 + d) as u8);
        assert(out@ == before + seq![b64_byte0(rest[0], rest[1]), b64_byte1(rest[1], rest[2]), b64_byte2(rest[2], rest[3])]);
        i = i + 4;
    }
    let ghost rest = digits@.skip(i as int);
    let left = n - i;
    if left == 3 {
        let a = base64_value(digits[i]) as u32;
        let b = base64_value(digits[i + 1]) as u32;
        let c = base64_value(digits[i + 2]) as u32;
        out.push((a * 4 + b / 16) as u8);
        out.push(((b % 16) * 16 + c / 4) as u8);
    } else if left == 2 {
        let a = base64_value(digits[i]) as u32;
        let b = base64_value(digits[i + 1]) as u32;
        out.push((a * 4 + b / 16) as u8);
    }
    out
}

impl<'a> Parser<'a> {
    fn scan_escape(&mut self) -> (r: Result<u8, SexpError>)
        requires
            old(self)@.wf(),
        ensures
            (final(self)@, r) == old(self)@.spec_escape(),
            final(self)@.wf(),
            final(self)@.same_frame(old(self)@),
            final(self)@.pos >= old(self)@.pos,
    {
        let c = match self.next() {
            Some(c) => c,
            None => return Err(SexpError::UnexpectedEof { pos: self.pos }),
        };
        if c == 98 {
            Ok(8)
        } else if c == 116 {
            Ok(9)
        } else if c == 118 {
            Ok(11)
        } else if c == 110 {
            Ok(10)
        } else if c == 102 {
            Ok(12)
        } else if c == 114 {
            Ok(13)
        } else if c == QUOTE || c == APOS || c == BACKSLASH {
            Ok(c)
        } else if c == 120 {
            let h = match self.next() {
                Some(h) => h,
                None => return Err(SexpError::UnexpectedEof { pos: self.pos }),
            };
            if !is_hex_digit(h) {
                return Err(SexpError::IllegalChar { ch: h, pos: self.pos });
            }
            let l = match self.next() {
                Some(l) => l,
                None => return Err(SexpError::UnexpectedEof { pos: self.pos }),
            };
            if !is_hex_digit(l) {
                return Err(SexpError::IllegalChar { ch: l, pos: self.pos });
            }
            Ok(hex_value(h) * 16 + hex_value(l))
        } else if 48 <= c && c <= 55 {
            let mut val: u32 = (c - 48) as u32;
            if self.pos < self.input.len() && 48 <= self.input[self.pos] && self.input[self.pos] <= 55 {
                val = val * 8 + (self.input[self.pos] - 48) as u32;
                self.pos = self.pos + 1;
                if self.pos < self.input.len() && 48 <= self.input[self.pos] && self.input[self.pos] <= 55 {
                    val = val * 8 + (self.input[self.pos] - 48) as u32;
                    self.pos = self.pos + 1;
                }
            }
            if val > 255 {
                return Err(SexpError::OctalTooBig { val });
            }
            Ok(val as u8)
        } else {
            Err(SexpError::UnknownEscape { ch: c, pos: self.pos })
        }
    }
}

impl<'a> Parser<'a> {
    fn scan_quoted_string(&mut self, declared: Option<u32>) -> (r: Result<Vec<u8>, SexpError>)
        requires
            old(self)@.wf(),
        ensures
            (final(self)@, bytes_result(r)) == old(self)@.spec_scan_quoted(declared),
            final(self)@.wf(),
            final(self)@.same_frame(old(self)@),
            final(self)@.pos >= old(self)@.pos,
            r is Ok ==> final(self)@.pos > old(self)@.pos,
    {
        self.expect_char(QUOTE)?;
        let ghost s1 = self@;
        let mut bytes: Vec<u8> = Vec::new();
        loop
            invariant
                self@.wf(),
                self@.same_frame(old(self)@),
                self@.pos > old(self)@.pos,
                old(self)@.spec_scan_quoted(declared) == self@.spec_quoted_loop(bytes@, declared),
            decreases self@.measure(),
        {
            let ghost before = self@;
            match self.next() {
                Some(c) => {
                    if c == QUOTE {
                        match declared {
                            Some(d) => {
                                if bytes.len() as u32 != d {
                                    return Err(SexpError::LengthMismatch {
                                        declared: d,
                                        actual: bytes.len(),
                                        pos: self.pos,
                                    });
                                }
                            },
                            None => {},
                        }
                        return Ok(bytes);
                    } else if c == BACKSLASH {
                        let e = self.scan_escape()?;
                        bytes.push(e);
                    } else {
                        bytes.push(c);
                    }
                },
                None => {
                    return Err(SexpError::UnexpectedEof { pos: self.pos });
                },
            }
            assert(self@.measure() < before.measure());
        }
    }

    /// `bytes`, unless a length was declared and theirs differs.
    fn check_declared(&self, bytes: Vec<u8>, declared: Option<u32>) -> (r: Result<Vec<u8>, SexpError>)
        ensures
            (self@, bytes_result(r)) == self@.check_declared(bytes@, declared),
    {
        match declared {
            Some(d) => {
                if bytes.len() as u32 != d {
                    return Err(SexpError::LengthMismatch { declared: d, actual: bytes.len(), pos: self.pos });
                }
            },
            None => {},
        }
        Ok(bytes)
    }

    fn scan_hex_string(&mut self, declared: Option<u32>) -> (r: Result<Vec<u8>, SexpError>)
        requires
            old(self)@.wf(),
        ensures
            (final(self)@, bytes_result(r)) == old(self)@.spec_scan_hex(declared),
            final(self)@.wf(),
            final(self)@.same_frame(old(self)@),
            final(self)@.pos >= old(self)@.pos,
            r is Ok ==> final(self)@.pos > old(self)@.pos,
    {
        self.expect_char(HASH)?;
        let ghost s1 = self@;
        let mut digits: Vec<u8> = Vec::new();
        loop
            invariant_except_break
                s1.spec_hex_digits(Seq::empty()) == self@.spec_hex_digits(digits@),
            invariant
                self@.wf(),
                self@.same_frame(old(self)@),
                self@.pos > old(self)@.pos,
                old(self)@.spec_expect_char(HASH).1 is Ok,
                s1 == old(self)@.spec_expect_char(HASH).0,
                forall|k: int| 0 <= k < digits@.len() ==> #[trigger] spec_is_hex_digit(digits@[k]),
            ensures
                s1.spec_hex_digits(Seq::empty()) == (self@, Ok::<Seq<u8>, SexpError>(digits@)),
            decreases self@.measure(),
        {
            if self.pos >= self.input.len() {
                return Err(SexpError::UnexpectedEof { pos: self.pos });
            }
            let c = self.input[self.pos];
            if c == HASH {
                self.pos = self.pos + 1;
                break;
            } else if is_hex_digit(c) || is_whitespace(c) {
                if !is_whitespace(c) {
                    digits.push(c);
                }
                self.pos = self.pos + 1;
            } else {
                return Err(SexpError::IllegalChar { ch: c, pos: self.pos });
            }
        }
        if digits.len() % 2 != 0 {
            return Err(SexpError::IllegalChar { ch: 0, pos: self.pos });
        }
        let mut bytes: Vec<u8> = Vec::new();
        let mut i: usize = 0;
        while i < digits.len() / 2
            invariant
                digits@.len() % 2 == 0,
                i <= digits@.len() / 2,
                bytes@ == hex_decode(digits@).take(i as int),
                forall|k: int| 0 <= k < digits@.len() ==> #[trigger] spec_is_hex_digit(digits@[k]),
            decreases digits@.len() / 2 - i,
        {
            let hi = hex_value(digits[2 * i]);
            let lo = hex_value(digits[2 * i + 1]);
            bytes.push(hi * 16 + lo);
            assert(hex_decode(digits@).take(i + 1) == hex_decode(digits@).take(i as int).push(hex_pair(digits@[2 * i], digits@[2 * i + 1])));
            i = i + 1;
        }
        assert(hex_decode(digits@).take(i as int) == hex_decode(digits@));
        self.check_declared(bytes, declared)
    }

    /// The base64 digits up to `close`, which is read too.
    fn scan_base64_digits(&mut self, close: u8) -> (r: Result<Vec<u8>, SexpError>)
        requires
            old(self)@.wf(),
        ensures
            (final(self)@, bytes_result(r)) == old(self)@.spec_base64_digits(Seq::empty(), close),
            final(self)@.wf(),
            final(self)@.same_frame(old(self)@),
            final(self)@.pos >= old(self)@.pos,
            r is Ok ==> final(self)@.pos > old(self)@.pos,
            r is Ok ==> forall|k: int| 0 <= k < r->Ok_0@.len() ==> #[trigger] spec_is_base64_digit(r->Ok_0@[k]),
    {
        let ghost s1 = self@;
        let mut digits: Vec<u8> = Vec::new();
        loop
            invariant_except_break
                s1.spec_base64_digits(Seq::empty(), close) == self@.spec_base64_digits(digits@, close),
            invariant
                self@.wf(),
                self@.same_frame(s1),
                self@.pos >= s1.pos,
                s1 == old(self)@,
                forall|k: int| 0 <= k < digits@.len() ==> #[trigger] spec_is_base64_digit(digits@[k]),
            ensures
                s1.spec_base64_digits(Seq::empty(), close) == (self@, Ok::<Seq<u8>, SexpError>(digits@)),
                self@.pos > s1.pos,
            decreases self@.measure(),
        {
            if self.pos >= self.input.len() {
                return Err(SexpError::UnexpectedEof { pos: self.pos });
            }
            let c = self.input[self.pos];
            if c == close {
                self.pos = self.pos + 1;
                break;
            } else if is_base64_digit(c) || c == EQUALS || is_whitespace(c) {
                if !is_whitespace(c) && c != EQUALS {
                    digits.push(c);
                }
                self.pos = self.pos + 1;
            } else {
                return Err(SexpError::IllegalChar { ch: c, pos: self.pos });
            }
        }
        Ok(digits)
    }

    fn scan_base64_string(&mut self, declared: Option<u32>) -> (r: Result<Vec<u8>, SexpError>)
        requires
            old(self)@.wf(),
        ensures
            (final(self)@, bytes_result(r)) == old(self)@.spec_scan_base64(declared),
            final(self)@.wf(),
            final(self)@.same_frame(old(self)@),
            final(self)@.pos >= old(self)@.pos,
            r is Ok ==> final(self)@.pos > old(self)@.pos,
    {
        self.expect_char(BAR)?;
        let digits = self.scan_base64_digits(BAR)?;
        let bytes = base64_decode(digits.as_slice());
        self.check_declared(bytes, declared)
    }
}

/// Base64 decoding never lengthens: at most as many bytes as digits.
pub(crate) proof fn lemma_base64_decode_len(v: Seq<u8>)
    ensures
        base64_decode_spec(v).len() <= v.len(),
    decreases v.len(),
{
    if v.len() >= 4 {
        lemma_base64_decode_len(v.skip(4));
    }
}

/// Each digit read takes a byte of the input, and so does the closing one.
pub(crate) proof fn lemma_base64_digits_len(st: ParseState, acc: Seq<u8>, close: u8)
    requires
        st.pos <= st.input.len(),
    ensures
        st.spec_base64_digits(acc, close).1 is Ok
            ==> st.spec_base64_digits(acc, close).1->Ok_0.len() < acc.len() + st.measure(),
    decreases st.measure(),
{
    match st.peek() {
        None => {},
        Some(c) => {
            if c != close && (spec_is_base64_digit(c) || c == EQUALS || spec_is_whitespace(c)) {
                lemma_base64_digits_len(
                    st.advance(),
                    if spec_is_whitespace(c) || c == EQUALS { acc } else { acc.push(c) },
                    close,
                );
            }
        },
    }
}

impl<'a> Parser<'a> {
    fn scan_simple_string(&mut self) -> (r: Result<Vec<u8>, SexpError>)
        requires
            old(self)@.wf(),
        ensures
            (final(self)@, bytes_result(r)) == old(self)@.spec_scan_simple(),
            final(self)@.wf(),
            final(self)@.same_frame(old(self)@),
            final(self)@.pos >= old(self)@.pos,
            r is Ok ==> final(self)@.pos > old(self)@.pos,
    {
        self.skip_whitespace();
        if self.pos >= self.input.len() {
            return Err(SexpError::UnexpectedEof { pos: self.pos });
        }
        let c = self.input[self.pos];
        if is_token_char(c) && !is_dec_digit(c) {
            assert(self@.spec_skip_whitespace() == self@);
            return Ok(self.scan_token());
        }
        let declared = if is_dec_digit(c) {
            Some(self.scan_decimal()?)
        } else {
            None
        };
        if self.pos >= self.input.len() {
            return Err(SexpError::UnexpectedEof { pos: self.pos });
        }
        let n = self.input[self.pos];
        if n == QUOTE {
            self.scan_quoted_string(declared)
        } else if n == HASH {
            self.scan_hex_string(declared)
        } else if n == BAR {
            self.scan_base64_string(declared)
        } else if n == COLON {
            self.scan_verbatim(match declared { Some(d) => d, None => 0 })
        } else {
            Err(SexpError::IllegalChar { ch: n, pos: self.pos })
        }
    }

    fn scan_string(&mut self) -> (r: Result<SexpString, SexpError>)
        requires
            old(self)@.wf(),
        ensures
            (final(self)@, string_result(r)) == old(self)@.spec_scan_string(),
            final(self)@.wf(),
            final(self)@.same_frame(old(self)@),
            final(self)@.pos >= old(self)@.pos,
            r is Ok ==> final(self)@.pos > old(self)@.pos,
    {
        self.skip_whitespace();
        if self.pos < self.input.len() && self.input[self.pos] == LBRACKET {
            self.pos = self.pos + 1;
            let hint = self.scan_simple_string()?;
            self.expect_char(RBRACKET)?;
            let data = self.scan_simple_string()?;
            Ok(SexpString { data, presentation_hint: Some(hint) })
        } else {
            let data = self.scan_simple_string()?;
            Ok(SexpString { data, presentation_hint: None })
        }
    }

    fn scan_list(&mut self) -> (r: Result<SexpList, SexpError>)
        requires
            old(self)@.wf(),
            old(self)@.depth <= old(self)@.max_depth,
        ensures
            (final(self)@, list_result(r)) == old(self)@.spec_scan_list(),
            final(self)@.wf(),
            final(self)@.input == old(self)@.input,
            final(self)@.max_depth == old(self)@.max_depth,
            final(self)@.pos >= old(self)@.pos,
            r is Ok ==> final(self)@.pos > old(self)@.pos,
            r is Ok ==> final(self)@.depth == old(self)@.depth,
        decreases old(self)@.measure(), 1nat,
    {
        self.expect_char(LPAREN)?;
        self.depth = self.depth + 1;
        if self.depth > self.max_depth {
            return Err(SexpError::MaxDepthExceeded { max: self.max_depth, pos: self.pos });
        }
        let mut elements: Vec<Sexp> = Vec::new();
        loop
            invariant_except_break
                old(self)@.spec_scan_list() == self@.spec_list_loop(models_of(elements@)),
                self@.depth == old(self)@.depth + 1,
                self@.depth <= self@.max_depth,
            invariant
                self@.wf(),
                self@.input == old(self)@.input,
                self@.max_depth == old(self)@.max_depth,
                self@.measure() < old(self)@.measure(),
                self@.pos > old(self)@.pos,
            ensures
                old(self)@.spec_scan_list() == (self@, Ok::<Seq<SexpModel>, SexpError>(models_of(elements@))),
                self@.depth == old(self)@.depth,
            decreases self@.measure(),
        {
            self.skip_whitespace();
            if self.pos >= self.input.len() {
                return Err(SexpError::UnexpectedEof { pos: self.pos });
            }
            if self.input[self.pos] == RPAREN {
                self.pos = self.pos + 1;
                self.depth = self.depth - 1;
                break;
            }
            let elem = self.scan_object()?;
            proof {
                crate::types::lemma_models_of_push(elements@, elem);
            }
            elements.push(elem);
        }
        Ok(SexpList { elements })
    }

    fn scan_object(&mut self) -> (r: Result<Sexp, SexpError>)
        requires
            old(self)@.wf(),
            old(self)@.depth <= old(self)@.max_depth,
        ensures
            (final(self)@, sexp_result(r)) == old(self)@.spec_scan_object(),
            final(self)@.wf(),
            final(self)@.input == old(self)@.input,
            final(self)@.max_depth == old(self)@.max_depth,
            final(self)@.pos >= old(self)@.pos,
            r is Ok ==> final(self)@.pos > old(self)@.pos,
            r is Ok ==> final(self)@.depth == old(self)@.depth,
        decreases old(self)@.measure(), 2nat,
    {
        self.skip_whitespace();
        if self.pos >= self.input.len() {
            return Err(SexpError::UnexpectedEof { pos: self.pos });
        }
        let c = self.input[self.pos];
        if c == LPAREN {
            let list = self.scan_list()?;
            Ok(Sexp::List(list))
        } else if c == LBRACE {
            let ghost s0 = self@;
            self.pos = self.pos + 1;
            let digits = self.scan_base64_digits(RBRACE)?;
            let bytes = base64_decode(digits.as_slice());
            let mut inner = Parser { input: bytes.as_slice(), pos: 0, depth: self.depth, max_depth: self.max_depth };
            proof {
                lemma_base64_digits_len(s0.advance(), Seq::empty(), RBRACE);
                lemma_base64_decode_len(digits@);
                assert(inner@ == s0.decoded_frame(bytes@));
            }
            let obj = inner.scan_object()?;
            if inner.pos < inner.input.len() {
                return Err(SexpError::IllegalChar { ch: inner.input[inner.pos], pos: inner.pos });
            }
            Ok(obj)
        } else {
            let s = self.scan_string()?;
            Ok(Sexp::String(s))
        }
    }
}

/// Parses one S-expression in advanced (or canonical) syntax; only
/// whitespace may follow it.
pub fn parse_advanced(input: &str) -> (r: Result<Sexp, SexpError>)
    ensures
        sexp_result(r) == spec_parse_advanced(input.spec_bytes()),
{
    let bytes = input.as_bytes();
    let mut p = Parser::new(bytes);
    let sexp = p.scan_object()?;
    p.skip_whitespace();
    if p.pos < p.input.len() {
        return Err(SexpError::IllegalChar { ch: p.input[p.pos], pos: p.pos });
    }
    Ok(sexp)
}

/// Parses the first S-expression of `input`; what follows it is not read.
pub fn parse_canonical(input: &[u8]) -> (r: Result<Sexp, SexpError>)
    ensures
        sexp_result(r) == spec_parse_canonical(input@),
{
    let mut p = Parser::new(input);
    p.scan_object()
}

/// A string atom without a hint.
pub open spec fn plain_atom(data: Seq<u8>) -> SexpModel {
    SexpModel::Atom(StringModel { data, hint: None })
}

/// One field of an extended key as an S-expression: `(name value)`, both as
/// their UTF-8 bytes.
pub open spec fn field_sexp(f: (Seq<char>, Seq<char>)) -> SexpModel {
    SexpModel::List(seq![plain_atom(encode_utf8(f.0)), plain_atom(encode_utf8(f.1))])
}

/// The raw fields of an extended key as an S-expression: one `(name value)`
/// list per field, in order, then `(Key key)` with the key's elements.
pub open spec fn fields_sexp(m: KeyModel) -> SexpModel {
    SexpModel::List(
        Seq::new(m.fields.len(), |i: int| field_sexp(m.fields[i])) + seq![
            SexpModel::List(seq![plain_atom(seq![75u8, 101u8, 121u8]), SexpModel::List(m.key)]),
        ],
    )
}

/// The UTF-8 bytes of `s`.
fn string_bytes(s: &String) -> (r: Vec<u8>)
    ensures
        r@ == encode_utf8(s@),
{
    s.as_str().as_bytes_vec()
}

/// Parses GnuPG extended private key text and gives its raw fields as an
/// S-expression list (see `fields_sexp`); it succeeds and fails exactly as
/// `ext_key::parse_extended` does.
pub fn parse_extended(input: &[u8]) -> (r: Result<Sexp, SexpError>)
    ensures
        r is Ok <==> spec_parse_extended(input).1 is Ok,
        r matches Ok(x) ==> x@ == fields_sexp(spec_parse_extended(input).0),
        r matches Err(e) ==> spec_parse_extended(input).1 == Err::<(), SexpError>(e),
{
    let k = crate::ext_key::parse_extended(input)?;
    let ghost m = k@;
    let mut elems: Vec<Sexp> = Vec::new();
    let mut i: usize = 0;
    while i < k.fields.len()
        invariant
            i <= k.fields@.len(),
            m == k@,
            models_of(elems@) == Seq::new(i as nat, |j: int| field_sexp(m.fields[j])),
        decreases k.fields@.len() - i,
    {
        let name = string_bytes(&k.fields[i].0);
        let value = string_bytes(&k.fields[i].1);
        let a = Sexp::string(name);
        let b = Sexp::string(value);
        let v = vec![a, b];
        proof {
            crate::types::lemma_models_of_index(v@);
            assert(models_of(v@) =~= seq![a@, b@]);
        }
        let pair = Sexp::list(v);
        assert(pair@ == field_sexp(m.fields[i as int]));
        proof {
            crate::types::lemma_models_of_push(elems@, pair);
        }
        elems.push(pair);
        assert(models_of(elems@) =~= Seq::new((i + 1) as nat, |j: int| field_sexp(m.fields[j])));
        i = i + 1;
    }
    let key_name: Vec<u8> = vec![75u8, 101u8, 121u8];
    let ka = Sexp::string(key_name);
    let kb = Sexp::List(k.key);
    let kv = vec![ka, kb];
    proof {
        crate::types::lemma_models_of_index(kv@);
        assert(models_of(kv@) =~= seq![ka@, kb@]);
    }
    let key_pair = Sexp::list(kv);
    assert(key_name@ =~= seq![75u8, 101u8, 121u8]);
    assert(key_pair@ == SexpModel::List(seq![plain_atom(seq![75u8, 101u8, 121u8]), SexpModel::List(m.key)]));
    assert(i == m.fields.len());
    let ghost before = models_of(elems@);
    proof {
        crate::types::lemma_models_of_push(elems@, key_pair);
    }
    elems.push(key_pair);
    let r = Sexp::list(elems);
    assert(models_of(elems@) =~= Seq::new(m.fields.len(), |j: int| field_sexp(m.fields[j])) + seq![
        SexpModel::List(seq![plain_atom(seq![75u8, 101u8, 121u8]), SexpModel::List(m.key)]),
    ]);
    Ok(r)
}

} // verus!
