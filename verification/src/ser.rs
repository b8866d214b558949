//! The serializer: an S-expression written as a string or as canonical bytes.
//!
//! Canonical form writes every string as `length:bytes` (hints as
//! `[length:bytes]`) and lists as `(...)` without spaces. Advanced form
//! writes strings as tokens, quoted strings or `length:bytes`, and separates
//! list elements with a space, or with a line break and indentation before
//! an element that would not end within 75 columns on the current line.
use vstd::prelude::*;
use vstd::string::StrSliceExecFns;
use vstd::utf8::valid_utf8;
use crate::round_trip::{plain_lossless, plain_lossless_elems, plain_utf8, plain_utf8_elems};
use crate::advanced_round_trip::{
    lemma_readable_elems, lossless, readable, readable_string, utf8_readable, utf8_readable_string,
};
use crate::chars::{spec_is_dec_digit, spec_is_token_char, is_dec_digit, is_token_char, COLON};
use crate::num::{decimal_digits, spec_decimal_digits};
use crate::text::{latin1, string_from_utf8_lossy, utf8_lossy};
use crate::types::{models_of, Sexp, SexpList, SexpModel, SexpString, StringModel};

verus! {

/// The two forms of `serialize`.
#[derive(Debug, Clone, Copy, PartialEq, Eq, Structural)]
pub enum PrintMode {
    /// `(length:bytes)`, no whitespace.
    Canonical,
    /// Human-readable, with line breaks.
    Advanced,
}

/// `n` in decimal, as characters.
pub open spec fn decimal_chars(n: nat) -> Seq<char> {
    latin1(spec_decimal_digits(n))
}

/// `n:` as `format!("{}:", n)` writes it.
pub open spec fn length_prefix(n: nat) -> Seq<char> {
    decimal_chars(n).push(':')
}

/// The canonical text of a string: `[len:hint]` (hint decoded as UTF-8, lossily)
/// and `len:data` (likewise).
pub open spec fn canonical_string_chars(s: StringModel) -> Seq<char> {
    let h = match s.hint {
        Some(h) => seq!['['] + length_prefix(h.len()) + utf8_lossy(h) + seq![']'],
        None => Seq::empty(),
    };
    h + length_prefix(s.data.len()) + utf8_lossy(s.data)
}

/// The canonical text of an object.
pub open spec fn canonical_chars(obj: SexpModel) -> Seq<char>
    decreases obj, 1nat,
{
    match obj {
        SexpModel::Atom(s) => canonical_string_chars(s),
        SexpModel::List(l) => seq!['('] + canonical_elems_chars(l) + seq![')'],
    }
}

pub open spec fn canonical_elems_chars(elems: Seq<SexpModel>) -> Seq<char>
    decreases elems, 0nat,
{
    if elems.len() == 0 {
        Seq::empty()
    } else {
        canonical_elems_chars(elems.drop_last()) + canonical_chars(elems.last())
    }
}

/// The canonical bytes of an object: `len:data` for strings (hints are not
/// written), `(...)` for lists.
pub open spec fn canonical_bytes(obj: SexpModel) -> Seq<u8>
    decreases obj, 1nat,
{
    match obj {
        SexpModel::Atom(s) => spec_decimal_digits(s.data.len()).push(COLON) + s.data,
        SexpModel::List(l) => seq![40u8] + canonical_elems_bytes(l) + seq![41u8],
    }
}

pub open spec fn canonical_elems_bytes(elems: Seq<SexpModel>) -> Seq<u8>
    decreases elems, 0nat,
{
    if elems.len() == 0 {
        Seq::empty()
    } else {
        canonical_elems_bytes(elems.drop_last()) + canonical_bytes(elems.last())
    }
}

/// Writes `n` in decimal and a colon.
fn push_length(out: &mut String, n: usize)
    ensures
        final(out)@ == old(out)@ + length_prefix(n as nat),
{
    let digits = decimal_digits(n as u64);
    let mut i: usize = 0;
    while i < digits.len()
        invariant
            i <= digits@.len(),
            digits@ == spec_decimal_digits(n as nat),
            out@ == old(out)@ + latin1(digits@.take(i as int)),
        decreases digits@.len() - i,
    {
        out.push(digits[i] as char);
        assert(latin1(digits@.take(i + 1)) == latin1(digits@.take(i as int)).push(digits@[i as int] as char));
        i = i + 1;
    }
    assert(digits@.take(i as int) == digits@);
    out.push(':');
}

/// Appends `bytes` decoded as UTF-8, invalid sequences replaced.
fn push_lossy(out: &mut String, bytes: &[u8])
    ensures
        final(out)@ == old(out)@ + utf8_lossy(bytes@),
        valid_utf8(bytes@) ==> lossless(bytes@),
{
    let s = string_from_utf8_lossy(bytes);
    out.push_str(s.as_str());
}

fn serialize_string_canonical(s: &SexpString, out: &mut String)
    ensures
        final(out)@ == old(out)@ + canonical_string_chars(s@),
        plain_utf8(SexpModel::Atom(s@)) ==> plain_lossless(SexpModel::Atom(s@)),
{
    match &s.presentation_hint {
        Some(hint) => {
            out.push('[');
            push_length(out, hint.len());
            push_lossy(out, hint.as_slice());
            out.push(']');
        },
        None => {},
    }
    push_length(out, s.data.len());
    push_lossy(out, s.data.as_slice());
}

fn serialize_canonical(sexp: &Sexp, out: &mut String)
    ensures
        final(out)@ == old(out)@ + canonical_chars(sexp@),
        plain_utf8(sexp@) ==> plain_lossless(sexp@),
    decreases sexp, 2nat,
{
    match sexp {
        Sexp::String(s) => serialize_string_canonical(s, out),
        Sexp::List(l) => serialize_canonical_list(l, out),
    }
}

fn serialize_canonical_list(l: &SexpList, out: &mut String)
    ensures
        final(out)@ == old(out)@ + canonical_chars(SexpModel::List(l@)),
        plain_utf8(SexpModel::List(l@)) ==> plain_lossless(SexpModel::List(l@)),
    decreases l, 1nat,
{
    out.push('(');
    let ghost start = out@;
    proof {
        crate::types::lemma_models_of_index(l.elements@);
    }
    let ghost elems = models_of(l.elements@);
    let mut i: usize = 0;
    while i < l.elements.len()
        invariant
            i <= l.elements@.len(),
            elems == models_of(l.elements@),
            elems.len() == l.elements@.len(),
            forall|j: int| 0 <= j < elems.len() ==> #[trigger] elems[j] == l.elements@[j]@,
            out@ == start + canonical_elems_chars(elems.take(i as int)),
            plain_utf8_elems(elems.take(i as int)) ==> plain_lossless_elems(elems.take(i as int)),
        decreases l.elements@.len() - i,
    {
        assert(decreases_to!(l => l.elements@[i as int]));
        serialize_canonical(&l.elements[i], out);
        assert(elems.take(i + 1).drop_last() == elems.take(i as int));
        i = i + 1;
    }
    assert(elems.take(i as int) == elems);
    out.push(')');
}

fn serialize_canonical_into(sexp: &Sexp, out: &mut Vec<u8>)
    ensures
        final(out)@ == old(out)@ + canonical_bytes(sexp@),
    decreases sexp, 2nat,
{
    match sexp {
        Sexp::String(s) => {
            let digits = decimal_digits(s.data.len() as u64);
            let mut i: usize = 0;
            while i < digits.len()
                invariant
                    i <= digits@.len(),
                    out@ == old(out)@ + digits@.take(i as int),
                decreases digits@.len() - i,
            {
                out.push(digits[i]);
                assert(digits@.take(i + 1) == digits@.take(i as int).push(digits@[i as int]));
                i = i + 1;
            }
            assert(digits@.take(i as int) == digits@);
            out.push(COLON);
            let ghost mid = out@;
            let mut k: usize = 0;
            while k < s.data.len()
                invariant
                    k <= s.data@.len(),
                    out@ == mid + s.data@.take(k as int),
                decreases s.data@.len() - k,
            {
                out.push(s.data[k]);
                assert(s.data@.take(k + 1) == s.data@.take(k as int).push(s.data@[k as int]));
                k = k + 1;
            }
            assert(s.data@.take(k as int) == s.data@);
        },
        Sexp::List(l) => serialize_canonical_list_into(l, out),
    }
}

fn serialize_canonical_list_into(l: &SexpList, out: &mut Vec<u8>)
    ensures
        final(out)@ == old(out)@ + canonical_bytes(SexpModel::List(l@)),
    decreases l, 1nat,
{
    out.push(40);
    let ghost start = out@;
    proof {
        crate::types::lemma_models_of_index(l.elements@);
    }
    let ghost elems = models_of(l.elements@);
    let mut i: usize = 0;
    while i < l.elements.len()
        invariant
            i <= l.elements@.len(),
            elems == models_of(l.elements@),
            elems.len() == l.elements@.len(),
            forall|j: int| 0 <= j < elems.len() ==> #[trigger] elems[j] == l.elements@[j]@,
            out@ == start + canonical_elems_bytes(elems.take(i as int)),
        decreases l.elements@.len() - i,
    {
        assert(decreases_to!(l => l.elements@[i as int]));
        serialize_canonical_into(&l.elements[i], out);
        assert(elems.take(i + 1).drop_last() == elems.take(i as int));
        i = i + 1;
    }
    assert(elems.take(i as int) == elems);
    out.push(41);
}

/// The canonical bytes of `sexp` (presentation hints are left out).
pub fn serialize_canonical_bytes(sexp: &Sexp) -> (r: Vec<u8>)
    ensures
        r@ == canonical_bytes(sexp@),
{
    let mut out: Vec<u8> = Vec::new();
    serialize_canonical_into(sexp, &mut out);
    out
}

/// A token in advanced form: not empty, made of token characters other than
/// digits, and colons, and not all digits.
pub open spec fn ser_token(data: Seq<u8>) -> bool {
    &&& data.len() > 0
    &&& forall|i: int| 0 <= i < data.len() ==> #[trigger] ser_token_char(data[i])
    &&& !(forall|i: int| 0 <= i < data.len() ==> #[trigger] spec_is_dec_digit(data[i]))
}

pub open spec fn ser_token_char(c: u8) -> bool {
    (spec_is_token_char(c) && !spec_is_dec_digit(c)) || c == COLON
}

/// A quoted string in advanced form: not empty, made of tabs, line feeds,
/// carriage returns and printable ASCII.
pub open spec fn ser_quotable(data: Seq<u8>) -> bool {
    &&& data.len() > 0
    &&& forall|i: int| 0 <= i < data.len() ==> #[trigger] quotable_char(data[i])
}

pub open spec fn quotable_char(c: u8) -> bool {
    c == 9 || c == 10 || c == 13 || (32 <= c && c <= 126)
}

/// A lower-case hexadecimal digit.
pub open spec fn lower_hex(v: u8) -> char {
    if v < 10 { (48 + v) as char } else { (87 + v) as char }
}

/// A byte inside a quoted string: backslash escapes for `\`, `"`, tab, line
/// feed and carriage return, `\xhh` for other bytes outside printable ASCII.
pub open spec fn escape_byte(c: u8) -> Seq<char> {
    if c == 92 {
        seq!['\\', '\\']
    } else if c == 34 {
        seq!['\\', '"']
    } else if c == 9 {
        seq!['\\', 't']
    } else if c == 10 {
        seq!['\\', 'n']
    } else if c == 13 {
        seq!['\\', 'r']
    } else if 32 <= c && c <= 126 {
        seq![c as char]
    } else {
        seq!['\\', 'x', lower_hex(c / 16), lower_hex(c % 16)]
    }
}

pub open spec fn escape_chars(data: Seq<u8>) -> Seq<char>
    decreases data.len(),
{
    if data.len() == 0 {
        Seq::empty()
    } else {
        escape_chars(data.drop_last()) + escape_byte(data.last())
    }
}

/// The advanced text of a string.
pub open spec fn advanced_string_chars(s: StringModel) -> Seq<char> {
    let h = match s.hint {
        Some(h) => seq!['['] + length_prefix(h.len()) + utf8_lossy(h) + seq![']'],
        None => Seq::empty(),
    };
    let d = if s.data.len() == 0 {
        seq!['0', ':']
    } else if ser_token(s.data) {
        latin1(s.data)
    } else if ser_quotable(s.data) {
        seq!['"'] + escape_chars(s.data) + seq!['"']
    } else {
        length_prefix(s.data.len()) + utf8_lossy(s.data)
    };
    h + d
}

/// The layout state of the advanced serializer: the column (the characters
/// written since the last line break), the line length, the indentation and
/// the depth.
pub struct SerLayout {
    pub column: usize,
    pub max_column: usize,
    pub indent: usize,
    pub depth: usize,
}

pub open spec fn initial_layout() -> SerLayout {
    SerLayout { column: 0, max_column: 75, indent: 0, depth: 0 }
}

/// `n + 1`, saturating.
pub open spec fn sat_inc(n: usize) -> usize {
    if n == usize::MAX { n } else { (n + 1) as usize }
}

/// `n + k`, saturating.
pub open spec fn sat_add(n: usize, k: nat) -> usize {
    if n + k > usize::MAX { usize::MAX } else { (n + k) as usize }
}

/// `n + 1` and `n - 1`, wrapping.
pub open spec fn wrap_inc(n: usize) -> usize {
    if n == usize::MAX { 0 } else { (n + 1) as usize }
}

pub open spec fn wrap_dec(n: usize) -> usize {
    if n == 0 { usize::MAX } else { (n - 1) as usize }
}

pub open spec fn spaces(n: nat) -> Seq<char> {
    Seq::new(n, |i: int| ' ')
}

/// How many characters an object takes written on one line: a string its
/// text, a list its parentheses, its elements and a space between each two.
pub open spec fn flat_width(obj: SexpModel) -> nat
    decreases obj, 1nat,
{
    match obj {
        SexpModel::Atom(s) => advanced_string_chars(s).len(),
        SexpModel::List(l) => 2 + flat_elems_width(l, true),
    }
}

/// The width of elements on one line, each after a space but the first
/// where `first` holds.
pub open spec fn flat_elems_width(elems: Seq<SexpModel>, first: bool) -> nat
    decreases elems, 0nat,
{
    if elems.len() == 0 {
        0
    } else {
        (if first { 0nat } else { 1nat }) + flat_width(elems[0]) + flat_elems_width(elems.drop_first(), false)
    }
}

/// The closing parentheses that follow an element directly: those of its
/// list and of the lists around it where it is the last element, none
/// otherwise (`tail` is what follows its list).
pub open spec fn elem_tail(remaining: nat, tail: usize) -> usize {
    if remaining == 1 { sat_inc(tail) } else { 0 }
}

/// What goes before an element: nothing before the first; before another a
/// space where the element, written on one line, and the parentheses that
/// follow it still end within the line; a line break and the indentation
/// otherwise.
pub open spec fn separator(first: bool, c: SerLayout, e: SexpModel, tail: usize) -> (Seq<char>, SerLayout) {
    if first {
        (Seq::empty(), c)
    } else if c.column + 1 + flat_width(e) + tail <= c.max_column {
        (seq![' '], SerLayout { column: sat_inc(c.column), ..c })
    } else {
        (seq!['\n'] + spaces(c.indent as nat), SerLayout { column: c.indent, ..c })
    }
}

/// The advanced text of an object followed by `tail` closing parentheses,
/// and the layout after it.
pub open spec fn advanced_chars(obj: SexpModel, c: SerLayout, tail: usize) -> (Seq<char>, SerLayout)
    decreases obj, 1nat,
{
    match obj {
        SexpModel::Atom(s) => (
            advanced_string_chars(s),
            SerLayout { column: sat_add(c.column, advanced_string_chars(s).len()), ..c },
        ),
        SexpModel::List(l) => {
            let c1 = SerLayout {
                column: sat_inc(c.column),
                depth: wrap_inc(c.depth),
                indent: wrap_inc(c.indent),
                ..c
            };
            let (body, c2) = advanced_elems_chars(l, true, c1, tail);
            let c3 = SerLayout {
                indent: wrap_dec(c2.indent),
                depth: wrap_dec(c2.depth),
                column: sat_inc(c2.column),
                ..c2
            };
            (seq!['('] + body + seq![')'], c3)
        },
    }
}

pub open spec fn advanced_elems_chars(elems: Seq<SexpModel>, first: bool, c: SerLayout, tail: usize) -> (Seq<char>, SerLayout)
    decreases elems, 0nat,
{
    if elems.len() == 0 {
        (Seq::empty(), c)
    } else {
        let t = elem_tail(elems.len(), tail);
        let (p, c2) = separator(first, c, elems[0], t);
        let (e, c3) = advanced_chars(elems[0], c2, t);
        let (rest, c4) = advanced_elems_chars(elems.drop_first(), false, c3, tail);
        (p + e + rest, c4)
    }
}

/// What `serialize` writes.
pub open spec fn serialized(obj: SexpModel, mode: PrintMode) -> Seq<char> {
    match mode {
        PrintMode::Canonical => canonical_chars(obj),
        PrintMode::Advanced => advanced_chars(obj, initial_layout(), 0).0,
    }
}

struct SerCtx {
    column: usize,
    max_column: usize,
    indent: usize,
    depth: usize,
}

impl View for SerCtx {
    type V = SerLayout;

    closed spec fn view(&self) -> SerLayout {
        SerLayout { column: self.column, max_column: self.max_column, indent: self.indent, depth: self.depth }
    }
}

fn sat_inc_exec(n: usize) -> (r: usize)
    ensures
        r == sat_inc(n),
{
    if n == usize::MAX { n } else { n + 1 }
}

fn wrap_inc_exec(n: usize) -> (r: usize)
    ensures
        r == wrap_inc(n),
{
    if n == usize::MAX { 0 } else { n + 1 }
}

fn wrap_dec_exec(n: usize) -> (r: usize)
    ensures
        r == wrap_dec(n),
{
    if n == 0 { usize::MAX } else { n - 1 }
}

fn can_print_as_token(data: &[u8]) -> (r: bool)
    ensures
        r == ser_token(data@),
{
    if data.len() == 0 {
        return false;
    }
    let mut all_digits = true;
    let mut i: usize = 0;
    while i < data.len()
        invariant
            i <= data@.len(),
            data@.len() > 0,
            forall|j: int| 0 <= j < i ==> #[trigger] ser_token_char(data@[j]),
            all_digits == (forall|j: int| 0 <= j < i ==> #[trigger] spec_is_dec_digit(data@[j])),
        decreases data@.len() - i,
    {
        let c = data[i];
        if !((is_token_char(c) && !is_dec_digit(c)) || c == COLON) {
            assert(!ser_token_char(data@[i as int]));
            return false;
        }
        if !is_dec_digit(c) {
            all_digits = false;
        }
        i = i + 1;
    }
    !all_digits
}

fn can_print_as_quoted(data: &[u8]) -> (r: bool)
    ensures
        r == ser_quotable(data@),
{
    if data.len() == 0 {
        return false;
    }
    let mut i: usize = 0;
    while i < data.len()
        invariant
            i <= data@.len(),
            forall|j: int| 0 <= j < i ==> #[trigger] quotable_char(data@[j]),
        decreases data@.len() - i,
    {
        let c = data[i];
        if !(c == 9 || c == 10 || c == 13 || (32 <= c && c <= 126)) {
            assert(!quotable_char(data@[i as int]));
            return false;
        }
        i = i + 1;
    }
    true
}

fn lower_hex_exec(v: u8) -> (r: char)
    requires
        v < 16,
    ensures
        r == lower_hex(v),
{
    if v < 10 { (48 + v) as char } else { (87 + v) as char }
}

fn push_escaped(out: &mut String, c: u8)
    ensures
        final(out)@ == old(out)@ + escape_byte(c),
{
    if c == 92 {
        out.push('\\');
        out.push('\\');
    } else if c == 34 {
        out.push('\\');
        out.push('"');
    } else if c == 9 {
        out.push('\\');
        out.push('t');
    } else if c == 10 {
        out.push('\\');
        out.push('n');
    } else if c == 13 {
        out.push('\\');
        out.push('r');
    } else if 32 <= c && c <= 126 {
        out.push(c as char);
    } else {
        out.push('\\');
        out.push('x');
        out.push(lower_hex_exec(c / 16));
        out.push(lower_hex_exec(c % 16));
    }
}

fn serialize_string_advanced(s: &SexpString, out: &mut String)
    ensures
        final(out)@ == old(out)@ + advanced_string_chars(s@),
        utf8_readable_string(s@) ==> readable_string(s@),
{
    match &s.presentation_hint {
        Some(hint) => {
            out.push('[');
            push_length(out, hint.len());
            push_lossy(out, hint.as_slice());
            out.push(']');
        },
        None => {},
    }
    let ghost mid = out@;
    let data = s.data.as_slice();
    if data.len() == 0 {
        out.push('0');
        out.push(':');
        return;
    }
    if can_print_as_token(data) {
        let mut i: usize = 0;
        while i < data.len()
            invariant
                i <= data@.len(),
                out@ == mid + latin1(data@.take(i as int)),
            decreases data@.len() - i,
        {
            out.push(data[i] as char);
            assert(latin1(data@.take(i + 1)) == latin1(data@.take(i as int)).push(data@[i as int] as char));
            i = i + 1;
        }
        assert(data@.take(i as int) == data@);
        return;
    }
    if can_print_as_quoted(data) {
        out.push('"');
        let ghost q = out@;
        let mut i: usize = 0;
        while i < data.len()
            invariant
                i <= data@.len(),
                out@ == q + escape_chars(data@.take(i as int)),
            decreases data@.len() - i,
        {
            push_escaped(out, data[i]);
            assert(data@.take(i + 1).drop_last() == data@.take(i as int));
            i = i + 1;
        }
        assert(data@.take(i as int) == data@);
        out.push('"');
        return;
    }
    push_length(out, data.len());
    push_lossy(out, data);
}

/// The advanced text of a string, and how many characters it has.
fn advanced_string_text(s: &SexpString) -> (r: (String, usize))
    ensures
        r.0@ == advanced_string_chars(s@),
        utf8_readable_string(s@) ==> readable_string(s@),
        r.1 as nat == advanced_string_chars(s@).len(),
{
    let mut piece = String::new();
    serialize_string_advanced(s, &mut piece);
    let n = piece.as_str().unicode_len();
    (piece, n)
}

/// `flat_width(e)` where it is at most `cap`, `cap + 1` otherwise.
fn flat_width_upto(e: &Sexp, cap: usize) -> (r: usize)
    requires
        cap < usize::MAX,
    ensures
        r == (if flat_width(e@) <= cap { flat_width(e@) } else { cap as nat + 1 }),
    decreases e, 2nat,
{
    match e {
        Sexp::String(s) => {
            let (_, n) = advanced_string_text(s);
            if n <= cap { n } else { cap + 1 }
        },
        Sexp::List(l) => flat_list_width_upto(l, cap),
    }
}

fn flat_list_width_upto(l: &SexpList, cap: usize) -> (r: usize)
    requires
        cap < usize::MAX,
    ensures
        r == (if flat_width(SexpModel::List(l@)) <= cap { flat_width(SexpModel::List(l@)) } else { cap as nat + 1 }),
    decreases l, 1nat,
{
    proof {
        crate::types::lemma_models_of_index(l.elements@);
    }
    let ghost elems = models_of(l.elements@);
    if cap < 2 {
        return cap + 1;
    }
    let mut acc: usize = 2;
    let mut i: usize = 0;
    assert(elems.skip(0) =~= elems);
    while i < l.elements.len()
        invariant
            i <= l.elements@.len(),
            elems == models_of(l.elements@),
            elems.len() == l.elements@.len(),
            forall|j: int| 0 <= j < elems.len() ==> #[trigger] elems[j] == l.elements@[j]@,
            cap < usize::MAX,
            2 + flat_elems_width(elems, true) == acc + flat_elems_width(elems.skip(i as int), i == 0),
            acc <= cap,
        decreases l.elements@.len() - i,
    {
        assert(elems.skip(i as int).drop_first() =~= elems.skip(i + 1));
        assert(elems.skip(i as int)[0] == elems[i as int]);
        let sep: usize = if i > 0 { 1 } else { 0 };
        if acc + sep > cap {
            return cap + 1;
        }
        let room = cap - acc - sep;
        assert(decreases_to!(l => l.elements@[i as int]));
        let w = flat_width_upto(&l.elements[i], room);
        if w > room {
            return cap + 1;
        }
        acc = acc + sep + w;
        i = i + 1;
    }
    assert(elems.skip(i as int).len() == 0);
    acc
}

/// Whether `e`, written on one line from column `column` and followed by
/// `tail` closing parentheses, ends within `max` columns.
fn fits_on_line(e: &Sexp, column: usize, tail: usize, max: usize) -> (r: bool)
    requires
        column >= 1,
    ensures
        r == (column + flat_width(e@) + tail <= max),
{
    if column >= max || tail > max - column {
        return false;
    }
    let room = max - column - tail;
    let w = flat_width_upto(e, room);
    w <= room
}

fn serialize_advanced(sexp: &Sexp, out: &mut String, ctx: &mut SerCtx, tail: usize)
    ensures
        final(out)@ == old(out)@ + advanced_chars(sexp@, old(ctx)@, tail).0,
        final(ctx)@ == advanced_chars(sexp@, old(ctx)@, tail).1,
        utf8_readable(sexp@) ==> readable(sexp@),
    decreases sexp, 2nat,
{
    match sexp {
        Sexp::String(s) => {
            let (piece, n) = advanced_string_text(s);
            out.push_str(piece.as_str());
            ctx.column = if n > usize::MAX - ctx.column { usize::MAX } else { ctx.column + n };
        },
        Sexp::List(l) => serialize_advanced_list(l, out, ctx, tail),
    }
}

fn serialize_advanced_list(l: &SexpList, out: &mut String, ctx: &mut SerCtx, tail: usize)
    ensures
        final(out)@ == old(out)@ + advanced_chars(SexpModel::List(l@), old(ctx)@, tail).0,
        final(ctx)@ == advanced_chars(SexpModel::List(l@), old(ctx)@, tail).1,
        utf8_readable(SexpModel::List(l@)) ==> readable(SexpModel::List(l@)),
    decreases l, 1nat,
{
    out.push('(');
    ctx.column = sat_inc_exec(ctx.column);
    ctx.depth = wrap_inc_exec(ctx.depth);
    ctx.indent = wrap_inc_exec(ctx.indent);
    let ghost start = out@;
    let ghost c1 = ctx@;
    proof {
        crate::types::lemma_models_of_index(l.elements@);
    }
    let ghost elems = models_of(l.elements@);
    assert(elems.skip(0) == elems);
    let n = l.elements.len();
    let mut i: usize = 0;
    while i < n
        invariant
            i <= n,
            n == l.elements@.len(),
            elems == models_of(l.elements@),
            elems.len() == l.elements@.len(),
            forall|j: int| 0 <= j < elems.len() ==> #[trigger] elems[j] == l.elements@[j]@,
            ({
                let (body, c2) = advanced_elems_chars(elems, true, c1, tail);
                let (rest, c3) = advanced_elems_chars(elems.skip(i as int), i == 0, ctx@, tail);
                &&& body == (out@.subrange(start.len() as int, out@.len() as int) + rest)
                &&& c2 == c3
            }),
            out@.len() >= start.len(),
            out@.subrange(0, start.len() as int) == start,
            forall|j: int| 0 <= j < i ==> (utf8_readable(#[trigger] elems[j]) ==> readable(elems[j])),
        decreases n - i,
    {
        let ghost before = out@;
        assert(elems.skip(i as int).drop_first() == elems.skip(i + 1));
        assert(elems.skip(i as int)[0] == l.elements@[i as int]@);
        assert(elems.skip(i as int).len() == n - i);
        let t = if n - i == 1 { sat_inc_exec(tail) } else { 0 };
        if i > 0 {
            if ctx.column < usize::MAX && fits_on_line(&l.elements[i], ctx.column + 1, t, ctx.max_column) {
                out.push(' ');
                ctx.column = ctx.column + 1;
            } else {
                out.push('\n');
                let mut k: usize = 0;
                let ghost nl = out@;
                while k < ctx.indent
                    invariant
                        k <= ctx.indent,
                        out@ == nl + spaces(k as nat),
                    decreases ctx.indent - k,
                {
                    out.push(' ');
                    assert(spaces((k + 1) as nat) == spaces(k as nat).push(' '));
                    k = k + 1;
                }
                ctx.column = ctx.indent;
            }
        }
        assert(decreases_to!(l => l.elements@[i as int]));
        serialize_advanced(&l.elements[i], out, ctx, t);
        assert(out@.subrange(start.len() as int, out@.len() as int)
            == before.subrange(start.len() as int, before.len() as int) + out@.subrange(before.len() as int, out@.len() as int));
        i = i + 1;
    }
    assert(elems.skip(i as int).len() == 0);
    proof {
        lemma_readable_elems(elems);
    }
    assert(out@ =~= start + out@.subrange(start.len() as int, out@.len() as int));
    assert(start =~= old(out)@ + seq!['(']);
    ctx.indent = wrap_dec_exec(ctx.indent);
    ctx.depth = wrap_dec_exec(ctx.depth);
    out.push(')');
    ctx.column = sat_inc_exec(ctx.column);
}

/// `sexp` as a string in the given form. The strings written as
/// `length:bytes`, and the hints, that are valid UTF-8 keep their bytes in
/// the text.
pub fn serialize(sexp: &Sexp, mode: PrintMode) -> (r: String)
    ensures
        r@ == serialized(sexp@, mode),
        mode == PrintMode::Advanced ==> (utf8_readable(sexp@) ==> readable(sexp@)),
        mode == PrintMode::Canonical ==> (plain_utf8(sexp@) ==> plain_lossless(sexp@)),
{
    let mut out = String::new();
    let mut ctx = SerCtx { column: 0, max_column: 75, indent: 0, depth: 0 };
    match mode {
        PrintMode::Canonical => serialize_canonical(sexp, &mut out),
        PrintMode::Advanced => serialize_advanced(sexp, &mut out, &mut ctx, 0),
    }
    out
}

} // verus!
