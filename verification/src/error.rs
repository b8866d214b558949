//! Errors and diagnostics of the parsers and printers.
use vstd::prelude::*;
use crate::num::{decimal_digits, radix_digits, spec_decimal_digits, spec_radix_digits};
use crate::text::{latin1, push_latin1};

verus! {

/// How serious a diagnostic is. With the default verbosity (`Error`) only
/// errors stop processing; with verbosity `Warning`, warnings do too.
#[derive(Debug, Clone, Copy, PartialEq, Eq, Structural)]
pub enum Severity {
    Error,
    Warning,
}

/// What went wrong, with the values that the diagnostic message reports.
#[allow(inconsistent_fields)]
#[derive(Debug, Clone, PartialEq, Eq)]
pub enum Fault {
    /// "unexpected end of file"
    UnexpectedEof,
    /// "illegal character ..." (the byte that could not start a simple string)
    IllegalChar { ch: u8 },
    /// "character '..' found in N-bit coding region"
    CodingRegion { ch: u8, byte_size: u32 },
    /// "N-bit region ended with M unused bits left-over"
    UnusedBits { byte_size: u32, n_bits: u32 },
    /// "character X found where 'Y' was expected" (`found` is -1 at the end of input)
    CharMismatch { found: i32, expected: u8 },
    /// "Decimal number is too long"
    DecimalTooLong,
    /// "Verbatim string is too long: N"
    VerbatimTooLong { len: u32 },
    /// "EOF while reading verbatim string"
    VerbatimEof,
    /// "Declared length was N, but quoted string ended too early"
    QuotedTooShort { declared: u32 },
    /// "Hex character \xV... too short"
    HexEscapeTooShort { val: u8 },
    /// "Octal character \V... too short"
    OctalTooShort { val: u32 },
    /// "Octal character \V... too big"
    OctalTooBig { val: u32 },
    /// "Unknown escape sequence \C"
    UnknownEscape { ch: u8 },
    /// "Hex string has length N different than declared length M"
    HexLengthMismatch { actual: usize, declared: u32 },
    /// "Base64 string has length N different than declared length M"
    Base64LengthMismatch { actual: usize, declared: u32 },
    /// "Maximum allowed SEXP list depth (N) is exceeded"
    MaxDepth { max: usize },
    /// "Illegal output base N"
    IllegalOutputBase { base: u32 },
    /// "Illegal change of output byte size from N to M"
    IllegalByteSizeChange { from: u32, to: u32 },
    /// "Can't print in advanced mode with restricted output character set"
    RestrictedCharset,
    /// "unexpected character .. found starting a name field"
    NameStart { ch: i32 },
    /// "unexpected character .. found in a name field"
    NameChar { ch: i32 },
    /// "unexpected end of line" (inside a field name)
    NameEndOfLine,
    /// "'key' field must occur only once"
    KeyTwice,
    /// "missing mandatory 'key' field"
    KeyMissing,
    /// "expected Key field to be a list"
    KeyNotList,
    /// A diagnostic with a free-form message.
    Text { message: String },
}

/// The error type of the crate.
///
/// The first nine variants are those of the one-pass parser in `parse`; the
/// last two carry the diagnostics of the streaming reader and printer
/// (`SEXP ...`) and of the extended key reader (`EXTENDED KEY FORMAT ...`),
/// with the position of the input character at which they arose (negative when
/// there is no position, as for the printer).
#[allow(inconsistent_fields)]
#[derive(Debug, Clone, PartialEq, Eq)]
pub enum SexpError {
    UnexpectedEof { pos: usize },
    IllegalChar { ch: u8, pos: usize },
    CharMismatch { expected: u8, found: u8, pos: usize },
    LengthMismatch { declared: u32, actual: usize, pos: usize },
    MaxDepthExceeded { max: usize, pos: usize },
    UnknownEscape { ch: u8, pos: usize },
    VerbatimTooLong { len: u32 },
    DecimalTooLong { pos: usize },
    OctalTooBig { val: u32 },
    Sexp { fault: Fault, severity: Severity, position: i32 },
    ExtKey { fault: Fault, severity: Severity, position: i32 },
}

/// Whether a diagnostic of severity `level` stops processing under `verbosity`.
pub open spec fn spec_shall_fail(level: Severity, verbosity: Severity) -> bool {
    level == Severity::Error || verbosity == Severity::Warning
}

pub fn shall_fail(level: Severity, verbosity: Severity) -> (r: bool)
    ensures
        r == spec_shall_fail(level, verbosity),
{
    match (level, verbosity) {
        (Severity::Error, _) => true,
        (_, Severity::Warning) => true,
        _ => false,
    }
}

/// The result of reporting a diagnostic of the streaming reader or printer.
pub open spec fn spec_sexp_report(fault: Fault, level: Severity, position: i32, verbosity: Severity) -> Result<(), SexpError> {
    if spec_shall_fail(level, verbosity) {
        Err(SexpError::Sexp { fault, severity: level, position })
    } else {
        Ok(())
    }
}

/// The result of reporting a diagnostic of the extended key reader.
pub open spec fn spec_ext_key_report(fault: Fault, level: Severity, position: i32, verbosity: Severity) -> Result<(), SexpError> {
    if spec_shall_fail(level, verbosity) {
        Err(SexpError::ExtKey { fault, severity: level, position })
    } else {
        Ok(())
    }
}

/// Reports a diagnostic of the streaming reader or printer: an error, or a
/// warning under verbosity `Warning`, comes back as `Err`; other warnings are
/// passed over.
pub fn report_fault(fault: Fault, level: Severity, position: i32, verbosity: Severity) -> (r: Result<(), SexpError>)
    ensures
        r == spec_sexp_report(fault, level, position, verbosity),
{
    if shall_fail(level, verbosity) {
        Err(SexpError::Sexp { fault, severity: level, position })
    } else {
        Ok(())
    }
}

/// Reports a diagnostic of the extended key reader, as `report_fault` does.
pub fn report_ext_key_fault(fault: Fault, level: Severity, position: i32, verbosity: Severity) -> (r: Result<(), SexpError>)
    ensures
        r == spec_ext_key_report(fault, level, position, verbosity),
{
    if shall_fail(level, verbosity) {
        Err(SexpError::ExtKey { fault, severity: level, position })
    } else {
        Ok(())
    }
}

/// Reports a free-form diagnostic of the streaming reader or printer.
pub fn sexp_report(message: String, level: Severity, position: i32, verbosity: Severity) -> (r: Result<(), SexpError>)
    ensures
        r == spec_sexp_report(Fault::Text { message }, level, position, verbosity),
{
    report_fault(Fault::Text { message }, level, position, verbosity)
}

/// Reports a free-form diagnostic of the extended key reader.
pub fn ext_key_report(message: String, level: Severity, position: i32, verbosity: Severity) -> (r: Result<(), SexpError>)
    ensures
        r == spec_ext_key_report(Fault::Text { message }, level, position, verbosity),
{
    report_ext_key_fault(Fault::Text { message }, level, position, verbosity)
}

/// `String::push_str` appends the characters of `t`.
pub assume_specification[ std::string::String::push_str ](s: &mut String, t: &str)
    ensures
        final(s)@ == old(s)@ + t@,
;

/// `n` in decimal, hexadecimal (lower case) and octal.
pub open spec fn dec_chars(n: nat) -> Seq<char> {
    latin1(spec_decimal_digits(n))
}

pub open spec fn hex_chars(n: nat) -> Seq<char> {
    latin1(spec_radix_digits(n, 16))
}

pub open spec fn oct_chars(n: nat) -> Seq<char> {
    latin1(spec_radix_digits(n, 8))
}

/// A byte in two hexadecimal digits, as `{:02x}` writes it.
pub open spec fn hex2_chars(b: u8) -> Seq<char> {
    if b < 16 { seq!['0'] + hex_chars(b as nat) } else { hex_chars(b as nat) }
}

/// A printable ASCII character other than space.
pub open spec fn is_graphic(b: u8) -> bool {
    33 <= b <= 126
}

/// The byte as a character between single quotes.
pub open spec fn quoted_char(b: u8) -> Seq<char> {
    seq!['\'', b as char, '\'']
}

/// Whether `char::escape_debug` leaves the character of code `b` as it is.
pub open spec fn debug_printable(b: u8) -> bool {
    (32 <= b <= 126) || (160 <= b && b != 173)
}

/// The byte's character as `{:?}` writes a `char`: in single quotes, with
/// `\0 \t \r \n \' \\` escapes and `\u{..}` for characters that are not
/// printable.
pub open spec fn char_debug(b: u8) -> Seq<char> {
    let inner = if b == 0 {
        seq!['\\', '0']
    } else if b == 9 {
        seq!['\\', 't']
    } else if b == 13 {
        seq!['\\', 'r']
    } else if b == 10 {
        seq!['\\', 'n']
    } else if b == 39 {
        seq!['\\', '\'']
    } else if b == 92 {
        seq!['\\', '\\']
    } else if debug_printable(b) {
        seq![b as char]
    } else {
        seq!['\\', 'u', '{'] + hex_chars(b as nat) + seq!['}']
    };
    seq!['\''] + inner + seq!['\'']
}

/// The text of a diagnostic.
pub open spec fn fault_text(f: Fault) -> Seq<char> {
    match f {
        Fault::UnexpectedEof => "unexpected end of file"@,
        Fault::IllegalChar { ch } => if is_graphic(ch) {
            "illegal character "@ + quoted_char(ch) + " (0x"@ + hex_chars(ch as nat) + ")"@
        } else {
            "illegal character 0x"@ + hex_chars(ch as nat)
        },
        Fault::CodingRegion { ch, byte_size } =>
            "character "@ + quoted_char(ch) + " found in "@ + dec_chars(byte_size as nat) + "-bit coding region"@,
        Fault::UnusedBits { byte_size, n_bits } =>
            dec_chars(byte_size as nat) + "-bit region ended with "@ + dec_chars(n_bits as nat) + " unused bits left-over"@,
        Fault::CharMismatch { found, expected } =>
            "character "@ + (if found == -1 { "EOF"@ } else { quoted_char(found as u8) })
                + " found where "@ + quoted_char(expected) + " was expected"@,
        Fault::DecimalTooLong => "Decimal number is too long"@,
        Fault::VerbatimTooLong { len } => "Verbatim string is too long: "@ + dec_chars(len as nat),
        Fault::VerbatimEof => "EOF while reading verbatim string"@,
        Fault::QuotedTooShort { declared } =>
            "Declared length was "@ + dec_chars(declared as nat) + ", but quoted string ended too early"@,
        Fault::HexEscapeTooShort { val } => "Hex character \\x"@ + hex_chars(val as nat) + "... too short"@,
        Fault::OctalTooShort { val } => "Octal character \\"@ + oct_chars(val as nat) + "... too short"@,
        Fault::OctalTooBig { val } => "Octal character \\"@ + oct_chars(val as nat) + "... too big"@,
        Fault::UnknownEscape { ch } => "Unknown escape sequence \\"@ + seq![ch as char],
        Fault::HexLengthMismatch { actual, declared } =>
            "Hex string has length "@ + dec_chars(actual as nat) + " different than declared length "@
                + dec_chars(declared as nat),
        Fault::Base64LengthMismatch { actual, declared } =>
            "Base64 string has length "@ + dec_chars(actual as nat) + " different than declared length "@
                + dec_chars(declared as nat),
        Fault::MaxDepth { max } => "Maximum allowed SEXP list depth ("@ + dec_chars(max as nat) + ") is exceeded"@,
        Fault::IllegalOutputBase { base } => "Illegal output base "@ + dec_chars(base as nat),
        Fault::IllegalByteSizeChange { from, to } =>
            "Illegal change of output byte size from "@ + dec_chars(from as nat) + " to "@ + dec_chars(to as nat),
        Fault::RestrictedCharset => "Can't print in advanced mode with restricted output character set"@,
        Fault::NameStart { ch } => if ch != -1 && is_graphic(ch as u8) {
            "unexpected character "@ + quoted_char(ch as u8) + " (0x"@ + hex_chars((ch as u8) as nat)
                + ") found starting a name field"@
        } else {
            "unexpected character 0x"@ + hex_chars((ch as u32) as nat) + " found starting a name field"@
        },
        Fault::NameChar { ch } => if is_graphic(ch as u8) {
            "unexpected character "@ + quoted_char(ch as u8) + " (0x"@ + hex_chars((ch as u8) as nat)
                + ") found in a name field"@
        } else {
            "unexpected character 0x"@ + hex_chars((ch as u32) as nat) + " found in a name field"@
        },
        Fault::NameEndOfLine => "unexpected end of line"@,
        Fault::KeyTwice => "'key' field must occur only once"@,
        Fault::KeyMissing => "missing mandatory 'key' field"@,
        Fault::KeyNotList => "expected Key field to be a list"@,
        Fault::Text { message } => message@,
    }
}

/// `prefix ERROR: text` or `prefix WARNING: text`, then ` at position N`
/// where the position is not negative.
pub open spec fn report_text(prefix: Seq<char>, fault: Fault, severity: Severity, position: i32) -> Seq<char> {
    let level = match severity {
        Severity::Error => " ERROR: "@,
        Severity::Warning => " WARNING: "@,
    };
    let at = if position >= 0 { " at position "@ + dec_chars(position as nat) } else { Seq::empty() };
    prefix + level + fault_text(fault) + at
}

/// The message of an error, as its display form shows it.
pub open spec fn error_message(e: SexpError) -> Seq<char> {
    match e {
        SexpError::UnexpectedEof { pos } => "unexpected end of input at position "@ + dec_chars(pos as nat),
        SexpError::IllegalChar { ch, pos } =>
            "illegal character "@ + dec_chars(ch as nat) + " (0x"@ + hex2_chars(ch) + ") at position "@
                + dec_chars(pos as nat),
        SexpError::CharMismatch { expected, found, pos } =>
            "expected "@ + char_debug(expected) + " but found "@ + char_debug(found) + " at position "@
                + dec_chars(pos as nat),
        SexpError::LengthMismatch { declared, actual, pos } =>
            "declared length "@ + dec_chars(declared as nat) + " but actual length "@ + dec_chars(actual as nat)
                + " at position "@ + dec_chars(pos as nat),
        SexpError::MaxDepthExceeded { max, pos } =>
            "maximum nesting depth "@ + dec_chars(max as nat) + " exceeded at position "@ + dec_chars(pos as nat),
        SexpError::UnknownEscape { ch, pos } =>
            "unknown escape sequence \\"@ + seq![ch as char] + " at position "@ + dec_chars(pos as nat),
        SexpError::VerbatimTooLong { len } => "verbatim string too long: "@ + dec_chars(len as nat) + " bytes"@,
        SexpError::DecimalTooLong { pos } => "decimal number too long at position "@ + dec_chars(pos as nat),
        SexpError::OctalTooBig { val } => "octal character too big: "@ + dec_chars(val as nat),
        SexpError::Sexp { fault, severity, position } => report_text("SEXP"@, fault, severity, position),
        SexpError::ExtKey { fault, severity, position } =>
            report_text("EXTENDED KEY FORMAT"@, fault, severity, position),
    }
}

fn push_dec(out: &mut String, n: u64)
    ensures
        final(out)@ == old(out)@ + dec_chars(n as nat),
{
    let d = decimal_digits(n);
    push_latin1(out, d.as_slice());
}

fn push_hex(out: &mut String, n: u64)
    ensures
        final(out)@ == old(out)@ + hex_chars(n as nat),
{
    let d = radix_digits(n, 16);
    push_latin1(out, d.as_slice());
}

fn push_oct(out: &mut String, n: u64)
    ensures
        final(out)@ == old(out)@ + oct_chars(n as nat),
{
    let d = radix_digits(n, 8);
    push_latin1(out, d.as_slice());
}

fn push_quoted_char(out: &mut String, b: u8)
    ensures
        final(out)@ == old(out)@ + quoted_char(b),
{
    out.push('\'');
    out.push(b as char);
    out.push('\'');
}

fn push_char_debug(out: &mut String, b: u8)
    ensures
        final(out)@ == old(out)@ + char_debug(b),
{
    out.push('\'');
    if b == 0 {
        out.push('\\');
        out.push('0');
    } else if b == 9 {
        out.push('\\');
        out.push('t');
    } else if b == 13 {
        out.push('\\');
        out.push('r');
    } else if b == 10 {
        out.push('\\');
        out.push('n');
    } else if b == 39 {
        out.push('\\');
        out.push('\'');
    } else if b == 92 {
        out.push('\\');
        out.push('\\');
    } else if (32 <= b && b <= 126) || (160 <= b && b != 173) {
        out.push(b as char);
    } else {
        out.push('\\');
        out.push('u');
        out.push('{');
        push_hex(out, b as u64);
        out.push('}');
    }
    out.push('\'');
}

fn push_fault_text(out: &mut String, f: &Fault)
    ensures
        final(out)@ == old(out)@ + fault_text(*f),
{
    match f {
        Fault::UnexpectedEof => out.push_str("unexpected end of file"),
        Fault::IllegalChar { ch } => {
            if 33 <= *ch && *ch <= 126 {
                out.push_str("illegal character ");
                push_quoted_char(out, *ch);
                out.push_str(" (0x");
                push_hex(out, *ch as u64);
                out.push_str(")");
            } else {
                out.push_str("illegal character 0x");
                push_hex(out, *ch as u64);
            }
        },
        Fault::CodingRegion { ch, byte_size } => {
            out.push_str("character ");
            push_quoted_char(out, *ch);
            out.push_str(" found in ");
            push_dec(out, *byte_size as u64);
            out.push_str("-bit coding region");
        },
        Fault::UnusedBits { byte_size, n_bits } => {
            push_dec(out, *byte_size as u64);
            out.push_str("-bit region ended with ");
            push_dec(out, *n_bits as u64);
            out.push_str(" unused bits left-over");
        },
        Fault::CharMismatch { found, expected } => {
            out.push_str("character ");
            if *found == -1 {
                out.push_str("EOF");
            } else {
                push_quoted_char(out, *found as u8);
            }
            out.push_str(" found where ");
            push_quoted_char(out, *expected);
            out.push_str(" was expected");
        },
        Fault::DecimalTooLong => out.push_str("Decimal number is too long"),
        Fault::VerbatimTooLong { len } => {
            out.push_str("Verbatim string is too long: ");
            push_dec(out, *len as u64);
        },
        Fault::VerbatimEof => out.push_str("EOF while reading verbatim string"),
        Fault::QuotedTooShort { declared } => {
            out.push_str("Declared length was ");
            push_dec(out, *declared as u64);
            out.push_str(", but quoted string ended too early");
        },
        Fault::HexEscapeTooShort { val } => {
            out.push_str("Hex character \\x");
            push_hex(out, *val as u64);
            out.push_str("... too short");
        },
        Fault::OctalTooShort { val } => {
            out.push_str("Octal character \\");
            push_oct(out, *val as u64);
            out.push_str("... too short");
        },
        Fault::OctalTooBig { val } => {
            out.push_str("Octal character \\");
            push_oct(out, *val as u64);
            out.push_str("... too big");
        },
        Fault::UnknownEscape { ch } => {
            out.push_str("Unknown escape sequence \\");
            out.push(*ch as char);
        },
        Fault::HexLengthMismatch { actual, declared } => {
            out.push_str("Hex string has length ");
            push_dec(out, *actual as u64);
            out.push_str(" different than declared length ");
            push_dec(out, *declared as u64);
        },
        Fault::Base64LengthMismatch { actual, declared } => {
            out.push_str("Base64 string has length ");
            push_dec(out, *actual as u64);
            out.push_str(" different than declared length ");
            push_dec(out, *declared as u64);
        },
        Fault::MaxDepth { max } => {
            out.push_str("Maximum allowed SEXP list depth (");
            push_dec(out, *max as u64);
            out.push_str(") is exceeded");
        },
        Fault::IllegalOutputBase { base } => {
            out.push_str("Illegal output base ");
            push_dec(out, *base as u64);
        },
        Fault::IllegalByteSizeChange { from, to } => {
            out.push_str("Illegal change of output byte size from ");
            push_dec(out, *from as u64);
            out.push_str(" to ");
            push_dec(out, *to as u64);
        },
        Fault::RestrictedCharset => out.push_str("Can't print in advanced mode with restricted output character set"),
        Fault::NameStart { ch } => {
            let b = *ch as u8;
            if *ch != -1 && 33 <= b && b <= 126 {
                out.push_str("unexpected character ");
                push_quoted_char(out, b);
                out.push_str(" (0x");
                push_hex(out, b as u64);
                out.push_str(") found starting a name field");
            } else {
                out.push_str("unexpected character 0x");
                push_hex(out, (*ch as u32) as u64);
                out.push_str(" found starting a name field");
            }
        },
        Fault::NameChar { ch } => {
            let b = *ch as u8;
            if 33 <= b && b <= 126 {
                out.push_str("unexpected character ");
                push_quoted_char(out, b);
                out.push_str(" (0x");
                push_hex(out, b as u64);
                out.push_str(") found in a name field");
            } else {
                out.push_str("unexpected character 0x");
                push_hex(out, (*ch as u32) as u64);
                out.push_str(" found in a name field");
            }
        },
        Fault::NameEndOfLine => out.push_str("unexpected end of line"),
        Fault::KeyTwice => out.push_str("'key' field must occur only once"),
        Fault::KeyMissing => out.push_str("missing mandatory 'key' field"),
        Fault::KeyNotList => out.push_str("expected Key field to be a list"),
        Fault::Text { message } => out.push_str(message.as_str()),
    }
}

fn push_report(out: &mut String, prefix: &str, fault: &Fault, severity: Severity, position: i32)
    ensures
        final(out)@ == old(out)@ + report_text(prefix@, *fault, severity, position),
{
    out.push_str(prefix);
    match severity {
        Severity::Error => out.push_str(" ERROR: "),
        Severity::Warning => out.push_str(" WARNING: "),
    }
    push_fault_text(out, fault);
    if position >= 0 {
        out.push_str(" at position ");
        push_dec(out, position as u64);
    }
}

impl SexpError {
    /// The message of this error, as its display form shows it.
    pub fn message(&self) -> (r: String)
        ensures
            r@ == error_message(*self),
    {
        let mut out = String::new();
        match self {
            SexpError::UnexpectedEof { pos } => {
                out.push_str("unexpected end of input at position ");
                push_dec(&mut out, *pos as u64);
            },
            SexpError::IllegalChar { ch, pos } => {
                out.push_str("illegal character ");
                push_dec(&mut out, *ch as u64);
                out.push_str(" (0x");
                if *ch < 16 {
                    out.push('0');
                }
                push_hex(&mut out, *ch as u64);
                out.push_str(") at position ");
                push_dec(&mut out, *pos as u64);
            },
            SexpError::CharMismatch { expected, found, pos } => {
                out.push_str("expected ");
                push_char_debug(&mut out, *expected);
                out.push_str(" but found ");
                push_char_debug(&mut out, *found);
                out.push_str(" at position ");
                push_dec(&mut out, *pos as u64);
            },
            SexpError::LengthMismatch { declared, actual, pos } => {
                out.push_str("declared length ");
                push_dec(&mut out, *declared as u64);
                out.push_str(" but actual length ");
                push_dec(&mut out, *actual as u64);
                out.push_str(" at position ");
                push_dec(&mut out, *pos as u64);
            },
            SexpError::MaxDepthExceeded { max, pos } => {
                out.push_str("maximum nesting depth ");
                push_dec(&mut out, *max as u64);
                out.push_str(" exceeded at position ");
                push_dec(&mut out, *pos as u64);
            },
            SexpError::UnknownEscape { ch, pos } => {
                out.push_str("unknown escape sequence \\");
                out.push(*ch as char);
                out.push_str(" at position ");
                push_dec(&mut out, *pos as u64);
            },
            SexpError::VerbatimTooLong { len } => {
                out.push_str("verbatim string too long: ");
                push_dec(&mut out, *len as u64);
                out.push_str(" bytes");
            },
            SexpError::DecimalTooLong { pos } => {
                out.push_str("decimal number too long at position ");
                push_dec(&mut out, *pos as u64);
            },
            SexpError::OctalTooBig { val } => {
                out.push_str("octal character too big: ");
                push_dec(&mut out, *val as u64);
            },
            SexpError::Sexp { fault, severity, position } => {
                push_report(&mut out, "SEXP", fault, *severity, *position);
            },
            SexpError::ExtKey { fault, severity, position } => {
                push_report(&mut out, "EXTENDED KEY FORMAT", fault, *severity, *position);
            },
        }
        out
    }
}

} // verus!
