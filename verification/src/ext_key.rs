//! The GnuPG 2.3+ extended private key format.
//!
//! The input is a sequence of `Name: value` pairs (names compared without
//! regard to ASCII case, possibly repeated), one of which, `Key:`, holds the key
//! as an S-expression. A value continues on the next line when that line starts
//! with a space; such a line that is otherwise empty stands for a line break,
//! and one that starts with ` #` is a comment. An input that starts with `(` is
//! a bare key without fields.
use vstd::prelude::*;
use crate::chars::{is_whitespace, low_byte, spec_is_whitespace, spec_low_byte, COLON, CR, HASH, LF, LPAREN, SPACE};
use crate::depth::{DepthManager, DEFAULT_MAX_DEPTH};
use crate::error::{Fault, Severity, SexpError};
use crate::input::{next_count, sexp_result, CharSource, SexpInputStream, EOF};
use crate::text::{ascii_eq_ignore_case, ascii_lower, bytes_eq_ignore_case, latin1, latin1_string};
use crate::types::{models_of, Sexp, SexpList, SexpModel};
use vstd::string::StringSliceAdditionalSpecFns;

verus! {

/// A parsed extended private key: the `Key:` S-expression and the other
/// fields, in the order in which they occur.
#[derive(Debug, Clone)]
pub struct ExtendedPrivateKey {
    pub key: SexpList,
    pub fields: Vec<(String, String)>,
}

/// The model of a key: its list elements and its fields' names and values.
pub struct KeyModel {
    pub key: Seq<SexpModel>,
    pub fields: Seq<(Seq<char>, Seq<char>)>,
}

pub open spec fn field_models(fields: Seq<(String, String)>) -> Seq<(Seq<char>, Seq<char>)> {
    Seq::new(fields.len(), |i: int| (fields[i].0@, fields[i].1@))
}

impl View for ExtendedPrivateKey {
    type V = KeyModel;

    open spec fn view(&self) -> KeyModel {
        KeyModel { key: self.key@, fields: field_models(self.fields@) }
    }
}

/// The bytes of the field name "key".
pub open spec fn key_name() -> Seq<u8> {
    seq![107u8, 101u8, 121u8]
}

/// Whether field `f` has the name `name`, ASCII case aside.
pub open spec fn field_named(f: (String, String), name: Seq<u8>) -> bool {
    ascii_eq_ignore_case(utf8_of(f.0@), name)
}

pub open spec fn count_named(fields: Seq<(String, String)>, name: Seq<u8>) -> nat
    decreases fields.len(),
{
    if fields.len() == 0 {
        0
    } else {
        count_named(fields.drop_last(), name) + if field_named(fields.last(), name) { 1nat } else { 0nat }
    }
}

/// The UTF-8 bytes of a character sequence.
pub open spec fn utf8_of(s: Seq<char>) -> Seq<u8> {
    vstd::utf8::encode_utf8(s)
}

impl ExtendedPrivateKey {
    /// A key with an empty list and no fields.
    pub fn new() -> (r: Self)
        ensures
            r@.key == Seq::<SexpModel>::empty(),
            r@.fields == Seq::<(Seq<char>, Seq<char>)>::empty(),
    {
        let r = ExtendedPrivateKey { key: SexpList { elements: Vec::new() }, fields: Vec::new() };
        assert(r@.fields == Seq::<(Seq<char>, Seq<char>)>::empty());
        r
    }

    /// The number of fields named `name`, ASCII case aside.
    pub fn fields_count(&self, name: &str) -> (r: usize)
        ensures
            r == count_named(self.fields@, name.spec_bytes()),
    {
        let name_bytes = name.as_bytes();
        let mut n: usize = 0;
        let mut i: usize = 0;
        while i < self.fields.len()
            invariant
                i <= self.fields@.len(),
                name_bytes@ == name.spec_bytes(),
                n == count_named(self.fields@.subrange(0, i as int), name.spec_bytes()),
                n <= i,
            decreases self.fields@.len() - i,
        {
            let f = &self.fields[i];
            let hit = bytes_eq_ignore_case(f.0.as_str().as_bytes(), name_bytes);
            assert(self.fields@.subrange(0, i + 1).drop_last() == self.fields@.subrange(0, i as int));
            if hit {
                n = n + 1;
            }
            i = i + 1;
        }
        assert(self.fields@.subrange(0, self.fields@.len() as int) == self.fields@);
        n
    }

    /// The value of the first field named `name`, ASCII case aside.
    pub fn find(&self, name: &str) -> (r: Option<&str>)
        ensures
            r is None <==> forall|i: int| 0 <= i < self.fields@.len() ==> !field_named(#[trigger] self.fields@[i], name.spec_bytes()),
            r matches Some(v) ==> exists|i: int|
                0 <= i < self.fields@.len()
                && field_named(#[trigger] self.fields@[i], name.spec_bytes())
                && v@ == self.fields@[i].1@
                && forall|j: int| 0 <= j < i ==> !field_named(#[trigger] self.fields@[j], name.spec_bytes()),
    {
        let name_bytes = name.as_bytes();
        let mut i: usize = 0;
        while i < self.fields.len()
            invariant
                i <= self.fields@.len(),
                name_bytes@ == name.spec_bytes(),
                forall|j: int| 0 <= j < i ==> !field_named(#[trigger] self.fields@[j], name.spec_bytes()),
            decreases self.fields@.len() - i,
        {
            let f = &self.fields[i];
            if bytes_eq_ignore_case(f.0.as_str().as_bytes(), name_bytes) {
                return Some(f.1.as_str());
            }
            i = i + 1;
        }
        None
    }
}

impl Default for ExtendedPrivateKey {
    fn default() -> (r: Self)
        ensures
            r@.key == Seq::<SexpModel>::empty(),
            r@.fields == Seq::<(Seq<char>, Seq<char>)>::empty(),
    {
        ExtendedPrivateKey::new()
    }
}

pub open spec fn spec_is_newline(c: i32) -> bool {
    c == CR as i32 || c == LF as i32
}

fn is_newline(c: i32) -> (r: bool)
    ensures
        r == spec_is_newline(c),
{
    c == CR as i32 || c == LF as i32
}

/// The reader of the extended key format. Its `count` is the number of bytes
/// read so far minus one (bytes of comment lines not counted); while
/// `is_scanning_value` is set, line continuations are unwound.
#[derive(Clone, Copy)]
pub struct ExtKeyInputStream<'a> {
    pub input: &'a [u8],
    pub pos: usize,
    pub count: i32,
    pub is_scanning_value: bool,
    pub has_key: bool,
    pub verbosity: Severity,
}

impl<'a> ExtKeyInputStream<'a> {
    pub open spec fn wf(self) -> bool {
        self.pos <= self.input@.len()
    }

    pub open spec fn spec_pending(self) -> nat {
        if self.pos >= self.input.len() { 0 } else { (self.input.len() - self.pos) as nat }
    }

    pub fn new(input: &'a [u8]) -> (r: Self)
        ensures
            r.input == input,
            r.pos == 0,
            r.count == -1,
            !r.is_scanning_value,
            !r.has_key,
            r.verbosity == Severity::Error,
            r.wf(),
    {
        ExtKeyInputStream { input, pos: 0, count: -1, is_scanning_value: false, has_key: false, verbosity: Severity::Error }
    }

    pub fn count(&self) -> (r: i32)
        ensures
            r == self.count,
    {
        self.count
    }

    pub fn set_scanning_value(&mut self, v: bool)
        ensures
            *final(self) == (ExtKeyInputStream { is_scanning_value: v, ..*old(self) }),
    {
        self.is_scanning_value = v;
    }

    /// Under verbosity `Warning`, warnings stop the reader as errors do.
    pub fn set_verbosity(&mut self, verbosity: Severity)
        ensures
            *final(self) == (ExtKeyInputStream { verbosity, ..*old(self) }),
    {
        self.verbosity = verbosity;
    }

    pub open spec fn spec_peek(self) -> i32 {
        if self.pos >= self.input.len() { EOF } else { self.input@[self.pos as int] as i32 }
    }

    pub open spec fn spec_next_byte(self) -> (Self, i32) {
        let counted = ExtKeyInputStream { count: next_count(self.count), ..self };
        if self.pos >= self.input.len() {
            (counted, EOF)
        } else {
            (ExtKeyInputStream { pos: (self.pos + 1) as usize, ..counted }, self.input@[self.pos as int] as i32)
        }
    }

    fn next_byte(&mut self) -> (c: i32)
        ensures
            (*final(self), c) == old(self).spec_next_byte(),
    {
        self.count = if self.count == i32::MAX { i32::MIN } else { self.count + 1 };
        if self.pos >= self.input.len() {
            return EOF;
        }
        let c = self.input[self.pos] as i32;
        self.pos = self.pos + 1;
        c
    }

    fn peek_byte(&self) -> (c: i32)
        ensures
            c == self.spec_peek(),
    {
        if self.pos >= self.input.len() {
            return EOF;
        }
        self.input[self.pos] as i32
    }

    fn consume_byte(&mut self) -> (c: i32)
        ensures
            (*final(self), c) == old(self).spec_next_byte(),
    {
        self.next_byte()
    }

    /// Passes over the rest of a line, its line end included, without counting
    /// the bytes; gives back the line end, or -1 at the end of input.
    pub open spec fn spec_skip_line(self) -> (Self, i32)
        decreases self.spec_pending(),
    {
        if self.pos >= self.input.len() {
            (self, EOF)
        } else {
            let c = self.input@[self.pos as int] as i32;
            let next = ExtKeyInputStream { pos: (self.pos + 1) as usize, ..self };
            if spec_is_newline(c) { (next, c) } else { next.spec_skip_line() }
        }
    }

    fn skip_line(&mut self) -> (c: i32)
        ensures
            (*final(self), c) == old(self).spec_skip_line(),
            final(self).input == old(self).input,
            final(self).is_scanning_value == old(self).is_scanning_value,
            final(self).has_key == old(self).has_key,
            final(self).verbosity == old(self).verbosity,
    {
        let ghost start = *self;
        loop
            invariant
                start == *old(self),
                self.input == old(self).input,
                self.is_scanning_value == old(self).is_scanning_value,
                self.has_key == old(self).has_key,
                self.verbosity == old(self).verbosity,
                start.spec_skip_line() == self.spec_skip_line(),
            decreases self.spec_pending(),
        {
            if self.pos >= self.input.len() {
                return EOF;
            }
            let c = self.input[self.pos] as i32;
            self.pos = self.pos + 1;
            if is_newline(c) {
                return c;
            }
        }
    }

    /// After a line end `l1` inside a value: unwinds continuation lines. A
    /// continuation line that holds nothing but its space stands for a line
    /// break inside the value: with `literal`, it is given back as
    /// `LITERAL_LF`; without, it is passed over like the line end.
    pub open spec fn spec_continuation(self, l1: i32, literal: bool) -> (Self, i32)
        decreases self.spec_pending(),
    {
        let l2 = self.spec_peek();
        let (s, a, b) = if l1 == CR as i32 && l2 == LF as i32 {
            let (s1, x) = self.spec_next_byte();
            (s1, x, s1.spec_peek())
        } else {
            (self, l1, l2)
        };
        if b == SPACE as i32 {
            let (s2, ignored) = s.spec_next_byte();
            let l3 = s2.spec_peek();
            if l3 == HASH as i32 {
                let (s3, l) = s2.spec_skip_line();
                if s3.spec_pending() < self.spec_pending() { s3.spec_continuation(l, literal) } else { (s3, l) }
            } else if spec_is_newline(l3) {
                if literal {
                    (s2, LITERAL_LF)
                } else if s2.spec_pending() < self.spec_pending() {
                    s2.spec_continuation(l3, literal)
                } else {
                    (s2, l3)
                }
            } else {
                s2.spec_next_byte()
            }
        } else {
            (s, a)
        }
    }

    /// The next logical character: a byte, or -1 at the end of input.
    pub open spec fn spec_read_char_ext(self) -> (Self, i32) {
        self.spec_read_char_lit(false)
    }

    /// The next logical character, where with `literal` a blank continuation
    /// line gives `LITERAL_LF`.
    pub open spec fn spec_read_char_lit(self, literal: bool) -> (Self, i32) {
        let (s1, l1) = self.spec_next_byte();
        if self.is_scanning_value && spec_is_newline(l1) { s1.spec_continuation(l1, literal) } else { (s1, l1) }
    }

    proof fn lemma_skip_line(self)
        ensures
            self.spec_skip_line().0.spec_pending() <= self.spec_pending(),
            self.spec_skip_line().0.is_scanning_value == self.is_scanning_value,
            self.spec_skip_line().0.input == self.input,
            -1 <= self.spec_skip_line().1 <= 255,
        decreases self.spec_pending(),
    {
        if self.pos < self.input.len() {
            let next = ExtKeyInputStream { pos: (self.pos + 1) as usize, ..self };
            next.lemma_skip_line();
        }
    }

    proof fn lemma_continuation(self, l1: i32, literal: bool)
        requires
            -1 <= l1 <= 255,
        ensures
            self.spec_continuation(l1, literal).0.spec_pending() <= self.spec_pending(),
            self.spec_continuation(l1, literal).0.is_scanning_value == self.is_scanning_value,
            self.spec_continuation(l1, literal).0.input == self.input,
            -1 <= self.spec_continuation(l1, literal).1 <= 255 || (literal && self.spec_continuation(l1, literal).1
                == LITERAL_LF),
        decreases self.spec_pending(),
    {
        let l2 = self.spec_peek();
        let (s, a, b) = if l1 == CR as i32 && l2 == LF as i32 {
            let (s1, x) = self.spec_next_byte();
            (s1, x, s1.spec_peek())
        } else {
            (self, l1, l2)
        };
        if b == SPACE as i32 {
            let (s2, ignored) = s.spec_next_byte();
            let l3 = s2.spec_peek();
            if l3 == HASH as i32 {
                s2.lemma_skip_line();
                let (s3, l) = s2.spec_skip_line();
                if s3.spec_pending() < self.spec_pending() {
                    s3.lemma_continuation(l, literal);
                }
            } else if spec_is_newline(l3) && !literal {
                if s2.spec_pending() < self.spec_pending() {
                    s2.lemma_continuation(l3, literal);
                }
            }
        }
    }

    fn read_char_ext(&mut self) -> (c: i32)
        ensures
            (*final(self), c) == old(self).spec_read_char_ext(),
            final(self).input == old(self).input,
            final(self).is_scanning_value == old(self).is_scanning_value,
            final(self).has_key == old(self).has_key,
            final(self).verbosity == old(self).verbosity,
    {
        self.read_char_lit(false)
    }

    fn read_char_lit(&mut self, literal: bool) -> (c: i32)
        ensures
            (*final(self), c) == old(self).spec_read_char_lit(literal),
            final(self).input == old(self).input,
            final(self).is_scanning_value == old(self).is_scanning_value,
            final(self).has_key == old(self).has_key,
            final(self).verbosity == old(self).verbosity,
    {
        let mut lookahead_1 = self.next_byte();
        if self.is_scanning_value && is_newline(lookahead_1) {
            let ghost s1 = *self;
            loop
                invariant
                    s1 == old(self).spec_next_byte().0,
                    old(self).is_scanning_value,
                    spec_is_newline(old(self).spec_next_byte().1),
                    s1.spec_continuation(old(self).spec_next_byte().1, literal) == self.spec_continuation(lookahead_1, literal),
                    self.input == old(self).input,
                    self.is_scanning_value == old(self).is_scanning_value,
                    self.has_key == old(self).has_key,
                    self.verbosity == old(self).verbosity,
                decreases self.spec_pending(),
            {
                let mut lookahead_2 = self.peek_byte();
                if lookahead_1 == CR as i32 && lookahead_2 == LF as i32 {
                    lookahead_1 = self.consume_byte();
                    lookahead_2 = self.peek_byte();
                }
                if lookahead_2 == SPACE as i32 {
                    let ghost before = *self;
                    self.consume_byte();
                    let lookahead_3 = self.peek_byte();
                    if lookahead_3 == HASH as i32 {
                        proof {
                            self.lemma_skip_line();
                        }
                        lookahead_1 = self.skip_line();
                        continue;
                    }
                    if is_newline(lookahead_3) {
                        if literal {
                            return LITERAL_LF;
                        }
                        lookahead_1 = lookahead_3;
                        continue;
                    }
                    lookahead_1 = self.consume_byte();
                }
                return lookahead_1;
            }
        }
        lookahead_1
    }
}

impl<'a> CharSource for ExtKeyInputStream<'a> {
    open spec fn next_read(self) -> (i32, Self) {
        let (s, c) = self.spec_read_char_ext();
        (c, s)
    }

    open spec fn pending(self) -> nat {
        self.spec_pending()
    }

    proof fn lemma_next_read(self) {
        let (s1, l1) = self.spec_next_byte();
        if self.is_scanning_value && spec_is_newline(l1) {
            s1.lemma_continuation(l1, false);
        }
    }

    fn read_char(&mut self) -> (c: i32) {
        self.read_char_ext()
    }
}

/// What a blank continuation line gives inside a value: a line break that
/// belongs to the value (its low byte is a line feed).
pub const LITERAL_LF: i32 = 0x10a;

/// The byte that a value character stands for.
pub open spec fn value_byte(c: i32) -> u8 {
    if c == LITERAL_LF { LF } else { spec_low_byte(c) }
}

/// A letter (the first character of a name).
pub open spec fn spec_is_name_start(c: i32) -> bool {
    c >= 0 && crate::chars::spec_is_alpha(spec_low_byte(c))
}

/// A character that can continue a name: a letter, a digit or `-`.
pub open spec fn spec_is_name_char(c: i32) -> bool {
    0 <= c <= 255 && (c == 45 || crate::chars::spec_is_dec_digit(c as u8) || crate::chars::spec_is_alpha(c as u8))
}

impl<'a> ExtKeyInputStream<'a> {
    pub open spec fn error_here(self, fault: Fault) -> SexpError {
        SexpError::ExtKey { fault, severity: Severity::Error, position: self.count }
    }

    fn is_namechar(c: i32) -> (r: bool)
        ensures
            r == spec_is_name_char(c),
    {
        if !(0 <= c && c <= 255) {
            return false;
        }
        let b = c as u8;
        b == 45 || crate::chars::is_dec_digit(b) || crate::chars::is_alpha(b)
    }

    fn is_alpha(c: i32) -> (r: bool)
        ensures
            r == spec_is_name_start(c),
    {
        c >= 0 && crate::chars::is_alpha(low_byte(c))
    }

    pub open spec fn spec_name_loop(self, acc: Seq<u8>) -> (Self, Result<Seq<u8>, SexpError>)
        decreases self.spec_pending(),
    {
        let (s1, c) = self.spec_read_char_ext();
        if c == COLON as i32 {
            (s1, Ok(acc))
        } else if c == EOF {
            (s1, Err(s1.error_here(Fault::UnexpectedEof)))
        } else if spec_is_newline(c) {
            (s1, Err(s1.error_here(Fault::NameEndOfLine)))
        } else if !spec_is_name_char(c) {
            (s1, Err(s1.error_here(Fault::NameChar { ch: c })))
        } else if s1.spec_pending() < self.spec_pending() {
            s1.spec_name_loop(acc.push(c as u8))
        } else {
            (s1, Ok(acc))
        }
    }

    /// A field name that starts with `c`, up to and without its colon.
    pub open spec fn spec_scan_name(self, c: i32) -> (Self, Result<Seq<u8>, SexpError>) {
        if !spec_is_name_start(c) {
            (self, Err(self.error_here(Fault::NameStart { ch: c })))
        } else {
            self.spec_name_loop(seq![spec_low_byte(c)])
        }
    }

    fn scan_name(&mut self, initial_c: i32) -> (r: Result<Vec<u8>, SexpError>)
        ensures
            (*final(self), crate::input::bytes_result(r)) == old(self).spec_scan_name(initial_c),
            final(self).spec_pending() <= old(self).spec_pending(),
            r is Ok ==> final(self).spec_pending() < old(self).spec_pending(),
            final(self).is_scanning_value == old(self).is_scanning_value,
            final(self).has_key == old(self).has_key,
            final(self).verbosity == old(self).verbosity,
            final(self).input == old(self).input,
    {
        if !Self::is_alpha(initial_c) {
            return Err(SexpError::ExtKey { fault: Fault::NameStart { ch: initial_c }, severity: Severity::Error, position: self.count });
        }
        let mut name: Vec<u8> = Vec::new();
        name.push(low_byte(initial_c));
        loop
            invariant
                old(self).spec_scan_name(initial_c) == self.spec_name_loop(name@),
                self.spec_pending() <= old(self).spec_pending(),
                self.is_scanning_value == old(self).is_scanning_value,
                self.has_key == old(self).has_key,
                self.verbosity == old(self).verbosity,
                self.input == old(self).input,
            decreases self.spec_pending(),
        {
            proof {
                self.lemma_next_read();
            }
            let c = self.read_char_ext();
            if c == COLON as i32 {
                return Ok(name);
            }
            if c == EOF {
                return Err(SexpError::ExtKey { fault: Fault::UnexpectedEof, severity: Severity::Error, position: self.count });
            }
            if is_newline(c) {
                return Err(SexpError::ExtKey { fault: Fault::NameEndOfLine, severity: Severity::Error, position: self.count });
            }
            if !Self::is_namechar(c) {
                return Err(SexpError::ExtKey { fault: Fault::NameChar { ch: c }, severity: Severity::Error, position: self.count });
            }
            name.push(c as u8);
        }
    }

    /// Reads characters until one that is not whitespace, and gives it back.
    pub open spec fn spec_skip_blanks(self) -> (Self, i32)
        decreases self.spec_pending(),
    {
        let (s1, c) = self.spec_read_char_ext();
        if spec_is_whitespace(spec_low_byte(c)) && s1.spec_pending() < self.spec_pending() {
            s1.spec_skip_blanks()
        } else {
            (s1, c)
        }
    }

    fn skip_blanks(&mut self) -> (c: i32)
        ensures
            (*final(self), c) == old(self).spec_skip_blanks(),
            -1 <= c <= 255,
            final(self).spec_pending() <= old(self).spec_pending(),
            final(self).is_scanning_value == old(self).is_scanning_value,
            final(self).has_key == old(self).has_key,
            final(self).verbosity == old(self).verbosity,
            final(self).input == old(self).input,
    {
        loop
            invariant
                old(self).spec_skip_blanks() == self.spec_skip_blanks(),
                self.spec_pending() <= old(self).spec_pending(),
                self.is_scanning_value == old(self).is_scanning_value,
                self.has_key == old(self).has_key,
                self.verbosity == old(self).verbosity,
                self.input == old(self).input,
            decreases self.spec_pending(),
        {
            proof {
                self.lemma_next_read();
            }
            let c = self.read_char_ext();
            if !is_whitespace(low_byte(c)) {
                return c;
            }
        }
    }

    pub open spec fn spec_value_loop(self, c: i32, acc: Seq<u8>) -> (Self, Seq<u8>)
        decreases self.spec_pending() + if c != EOF { 1nat } else { 0nat },
    {
        if c != EOF && !spec_is_newline(c) {
            let (s1, c2) = self.spec_read_char_lit(true);
            if s1.spec_pending() + (if c2 != EOF { 1nat } else { 0nat }) < self.spec_pending() + 1 {
                s1.spec_value_loop(c2, acc.push(value_byte(c)))
            } else {
                (s1, acc.push(value_byte(c)))
            }
        } else {
            (self, acc)
        }
    }

    /// A field value: leading whitespace skipped, up to the end of its
    /// (logical) line.
    pub open spec fn spec_scan_value(self) -> (Self, Seq<u8>) {
        let (s1, c) = self.spec_skip_blanks();
        s1.spec_value_loop(c, Seq::empty())
    }

    fn scan_value(&mut self) -> (r: Vec<u8>)
        ensures
            (*final(self), r@) == old(self).spec_scan_value(),
            final(self).spec_pending() <= old(self).spec_pending(),
            final(self).is_scanning_value == old(self).is_scanning_value,
            final(self).has_key == old(self).has_key,
            final(self).verbosity == old(self).verbosity,
            final(self).input == old(self).input,
    {
        let mut c = self.skip_blanks();
        let mut value: Vec<u8> = Vec::new();
        while c != EOF && !is_newline(c)
            invariant
                old(self).spec_scan_value() == self.spec_value_loop(c, value@),
                -1 <= c <= 255 || c == LITERAL_LF,
                self.spec_pending() <= old(self).spec_pending(),
                self.is_scanning_value == old(self).is_scanning_value,
                self.has_key == old(self).has_key,
                self.verbosity == old(self).verbosity,
                self.input == old(self).input,
            decreases self.spec_pending() + if c != EOF { 1nat } else { 0nat },
        {
            proof {
                let (s1, l1) = self.spec_next_byte();
                if self.is_scanning_value && spec_is_newline(l1) {
                    s1.lemma_continuation(l1, true);
                }
            }
            let b = if c == LITERAL_LF { LF } else { low_byte(c) };
            value.push(b);
            c = self.read_char_lit(true);
        }
        value
    }
}

impl<'a> ExtKeyInputStream<'a> {
    /// The S-expression reader that reads the key through this reader, with
    /// `first` as its lookahead.
    pub open spec fn key_reader(self, first: i32) -> SexpInputStream<Self> {
        SexpInputStream {
            source: self,
            count: -1i32,
            next_char: first,
            byte_size: 8u32,
            bits: 0u32,
            n_bits: 0u32,
            depth: DepthManager { depth: 0usize, max_depth: DEFAULT_MAX_DEPTH },
            verbosity: self.verbosity,
        }
    }

    /// This reader after the key reader has read through it.
    pub open spec fn after_key(self, st: SexpInputStream<Self>) -> Self {
        ExtKeyInputStream {
            is_scanning_value: self.is_scanning_value,
            has_key: self.has_key,
            verbosity: self.verbosity,
            ..st.source
        }
    }

    pub open spec fn spec_parse_key_list(self, first: i32) -> (Self, Result<Seq<SexpModel>, SexpError>) {
        let (st, r) = self.key_reader(first).spec_scan_object();
        let me = self.after_key(st);
        if r is Err {
            (me, Err(r->Err_0))
        } else {
            match r->Ok_0 {
                SexpModel::List(l) => (me, Ok(l)),
                SexpModel::Atom(_) => (me, Err(me.error_here(Fault::KeyNotList))),
            }
        }
    }

    /// Reads the key S-expression through this reader; `first_char` is its
    /// first character, already read.
    fn parse_key_list(&mut self, first_char: i32) -> (r: Result<SexpList, SexpError>)
        requires
            -1 <= first_char <= 255,
        ensures
            (*final(self), crate::input::list_result(r)) == old(self).spec_parse_key_list(first_char),
            final(self).spec_pending() <= old(self).spec_pending(),
            final(self).is_scanning_value == old(self).is_scanning_value,
            final(self).has_key == old(self).has_key,
            final(self).verbosity == old(self).verbosity,
    {
        let mut sexp_is = SexpInputStream::from_source(*self);
        sexp_is.set_next_char(first_char);
        sexp_is.set_verbosity(self.verbosity);
        let obj = sexp_is.scan_object();
        let back = sexp_is.into_source();
        self.input = back.input;
        self.pos = back.pos;
        self.count = back.count;
        match obj {
            Err(e) => Err(e),
            Ok(Sexp::List(l)) => Ok(l),
            Ok(Sexp::String(_)) => Err(SexpError::ExtKey { fault: Fault::KeyNotList, severity: Severity::Error, position: self.count }),
        }
    }

    pub open spec fn spec_fields_loop(self, c: i32, res: KeyModel) -> (Self, KeyModel, Result<(), SexpError>)
        decreases self.spec_pending(),
    {
        if c == EOF {
            if !self.has_key {
                (self, res, Err(self.error_here(Fault::KeyMissing)))
            } else {
                (self, res, Ok(()))
            }
        } else {
            let (s1, rn) = self.spec_scan_name(c);
            if rn is Err {
                (s1, res, Err(rn->Err_0))
            } else {
                let name = rn->Ok_0;
                let s2 = ExtKeyInputStream { is_scanning_value: true, ..s1 };
                if ascii_eq_ignore_case(name, key_name()) {
                    if s2.has_key {
                        (s2, res, Err(s2.error_here(Fault::KeyTwice)))
                    } else {
                        let (s3, c3) = s2.spec_skip_blanks();
                        let (s4, r4) = s3.spec_parse_key_list(c3);
                        if r4 is Err {
                            (s4, res, Err(r4->Err_0))
                        } else {
                            let res2 = KeyModel { key: r4->Ok_0, ..res };
                            let s5 = ExtKeyInputStream { has_key: true, ..s4 };
                            let (s6, c6) = s5.spec_read_char_ext();
                            let s7 = ExtKeyInputStream { is_scanning_value: false, ..s6 };
                            if s7.spec_pending() < self.spec_pending() {
                                s7.spec_fields_loop(c6, res2)
                            } else {
                                (s7, res2, Ok(()))
                            }
                        }
                    }
                } else {
                    let (s3, value) = s2.spec_scan_value();
                    let res2 = KeyModel { fields: res.fields.push((latin1(name), latin1(value))), ..res };
                    let (s6, c6) = s3.spec_read_char_ext();
                    let s7 = ExtKeyInputStream { is_scanning_value: false, ..s6 };
                    if s7.spec_pending() < self.spec_pending() {
                        s7.spec_fields_loop(c6, res2)
                    } else {
                        (s7, res2, Ok(()))
                    }
                }
            }
        }
    }

    /// Reading the whole input into `res`: its key list and its fields.
    pub open spec fn spec_scan(self, res: KeyModel) -> (Self, KeyModel, Result<(), SexpError>) {
        let (s1, c) = self.spec_read_char_ext();
        if c == LPAREN as i32 {
            let (s2, r2) = s1.spec_parse_key_list(c);
            if r2 is Err {
                (s2, res, Err(r2->Err_0))
            } else {
                (ExtKeyInputStream { has_key: true, ..s2 }, KeyModel { key: r2->Ok_0, ..res }, Ok(()))
            }
        } else {
            s1.spec_fields_loop(c, res)
        }
    }

    /// Parses the whole input: either a bare key list, or fields of which
    /// exactly one is `Key`. Fields are appended to `res.fields`; the key
    /// becomes `res.key`.
    #[verifier::spinoff_prover]
    #[verifier::rlimit(40)]
    pub fn scan(&mut self, res: &mut ExtendedPrivateKey) -> (r: Result<(), SexpError>)
        ensures
            (*final(self), final(res)@, r) == old(self).spec_scan(old(res)@),
    {
        proof {
            self.lemma_next_read();
        }
        let first = self.read_char_ext();
        let mut c = first;
        if c == LPAREN as i32 {
            res.key = self.parse_key_list(c)?;
            self.has_key = true;
            return Ok(());
        }
        loop
            invariant
                old(self).spec_scan(old(res)@) == self.spec_fields_loop(c, res@),
                -1 <= c <= 255,
            decreases self.spec_pending(),
        {
            if c == EOF {
                if !self.has_key {
                    return Err(SexpError::ExtKey { fault: Fault::KeyMissing, severity: Severity::Error, position: self.count });
                }
                return Ok(());
            }
            let ghost s0 = *self;
            let name = self.scan_name(c)?;
            self.is_scanning_value = true;
            if is_key_name(&name) {
                if self.has_key {
                    return Err(SexpError::ExtKey { fault: Fault::KeyTwice, severity: Severity::Error, position: self.count });
                }
                c = self.skip_blanks();
                res.key = self.parse_key_list(c)?;
                self.has_key = true;
            } else {
                let value = self.scan_value();
                let name_text = latin1_string(name.as_slice());
                let value_text = latin1_string(value.as_slice());
                let ghost old_fields = res.fields@;
                res.fields.push((name_text, value_text));
                assert(field_models(res.fields@) == field_models(old_fields).push((latin1(name@), latin1(value@))));
            }
            proof {
                self.lemma_next_read();
            }
            c = self.read_char_ext();
            self.is_scanning_value = false;
        }
    }
}

fn is_key_name(name: &Vec<u8>) -> (r: bool)
    ensures
        r == ascii_eq_ignore_case(name@, key_name()),
{
    let key: [u8; 3] = [107, 101, 121];
    let r = bytes_eq_ignore_case(name.as_slice(), key.as_slice());
    assert(key@ == key_name());
    r
}

/// The model of what `parse_extended` gives for `input`.
pub open spec fn spec_parse_extended(input: &[u8]) -> (KeyModel, Result<(), SexpError>) {
    let reader = ExtKeyInputStream {
        input,
        pos: 0usize,
        count: -1i32,
        is_scanning_value: false,
        has_key: false,
        verbosity: Severity::Error,
    };
    let (st, m, r) = reader.spec_scan(KeyModel { key: Seq::empty(), fields: Seq::empty() });
    (m, r)
}

/// Parses `input` as an extended private key.
pub fn parse_extended(input: &[u8]) -> (r: Result<ExtendedPrivateKey, SexpError>)
    ensures
        r is Ok <==> spec_parse_extended(input).1 is Ok,
        r matches Ok(k) ==> k@ == spec_parse_extended(input).0,
        r matches Err(e) ==> spec_parse_extended(input).1 == Err::<(), SexpError>(e),
{
    let mut scanner = ExtKeyInputStream::new(input);
    let mut key = ExtendedPrivateKey::new();
    scanner.scan(&mut key)?;
    Ok(key)
}

/// Field names are compared without regard to ASCII case: two names that
/// differ only in the case of ASCII letters select the same fields, so
/// `find` and `fields_count` give the same answers for both.
pub proof fn law_names_ignore_case(fields: Seq<(String, String)>, a: Seq<u8>, b: Seq<u8>)
    requires
        ascii_eq_ignore_case(a, b),
    ensures
        forall|i: int| 0 <= i < fields.len() ==> (field_named(#[trigger] fields[i], a) <==> field_named(fields[i], b)),
        count_named(fields, a) == count_named(fields, b),
    decreases fields.len(),
{
    assert forall|i: int| 0 <= i < fields.len() implies (field_named(#[trigger] fields[i], a) <==> field_named(fields[i], b)) by {
        let n = utf8_of(fields[i].0@);
        if field_named(fields[i], a) {
            assert(ascii_eq_ignore_case(n, b)) by {
                assert forall|k: int| 0 <= k < n.len() implies ascii_lower(#[trigger] n[k]) == ascii_lower(b[k]) by {
                    assert(ascii_lower(n[k]) == ascii_lower(a[k]));
                    assert(ascii_lower(a[k]) == ascii_lower(b[k]));
                }
            }
        }
        if field_named(fields[i], b) {
            assert(ascii_eq_ignore_case(n, a)) by {
                assert forall|k: int| 0 <= k < n.len() implies ascii_lower(#[trigger] n[k]) == ascii_lower(a[k]) by {
                    assert(ascii_lower(n[k]) == ascii_lower(b[k]));
                    assert(ascii_lower(a[k]) == ascii_lower(b[k]));
                }
            }
        }
    }
    if fields.len() > 0 {
        law_names_ignore_case(fields.drop_last(), a, b);
        assert(field_named(fields[fields.len() - 1], a) <==> field_named(fields[fields.len() - 1], b));
    }
}

} // verus!
