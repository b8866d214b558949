//! The S-expression data types and their mathematical model.
use vstd::prelude::*;
use vstd::string::StringSliceAdditionalSpecFns;
use vstd::utf8::valid_utf8;
use vstd::std_specs::iter::IteratorSpec;
use crate::num::{parse_u32, spec_parse_u32};
use crate::parse::{spec_parse_advanced, spec_parse_canonical};
use crate::input::sexp_result;
use crate::ser::{canonical_bytes, serialized, PrintMode};
use crate::text::str_from_utf8;

verus! {

/// An S-expression value: either a list or a string.
#[derive(Debug, PartialEq, Eq)]
pub enum Sexp {
    List(SexpList),
    String(SexpString),
}

/// An S-expression list: `(elem1 elem2 ...)`.
#[derive(Debug, PartialEq, Eq)]
pub struct SexpList {
    pub elements: Vec<Sexp>,
}

/// An S-expression string: raw bytes with an optional presentation hint.
#[derive(Debug, PartialEq, Eq)]
pub struct SexpString {
    pub data: Vec<u8>,
    pub presentation_hint: Option<Vec<u8>>,
}

/// The model of a string: its bytes and its optional presentation hint.
pub struct StringModel {
    pub data: Seq<u8>,
    pub hint: Option<Seq<u8>>,
}

/// The model of an S-expression.
pub enum SexpModel {
    List(Seq<SexpModel>),
    Atom(StringModel),
}

pub open spec fn hint_model(h: Option<Vec<u8>>) -> Option<Seq<u8>> {
    match h {
        Some(v) => Some(v@),
        None => None,
    }
}

impl View for SexpString {
    type V = StringModel;

    open spec fn view(&self) -> StringModel {
        StringModel { data: self.data@, hint: hint_model(self.presentation_hint) }
    }
}

pub open spec fn sexp_model(s: Sexp) -> SexpModel
    decreases s,
{
    match s {
        Sexp::List(l) => SexpModel::List(models_of(l.elements@)),
        Sexp::String(t) => SexpModel::Atom(t@),
    }
}

pub open spec fn models_of(s: Seq<Sexp>) -> Seq<SexpModel>
    decreases s,
{
    if s.len() == 0 {
        Seq::empty()
    } else {
        models_of(s.drop_last()).push(sexp_model(s.last()))
    }
}

pub proof fn lemma_models_of_push(s: Seq<Sexp>, x: Sexp)
    ensures
        models_of(s.push(x)) == models_of(s).push(sexp_model(x)),
{
    assert(s.push(x).drop_last() == s);
}

pub proof fn lemma_models_of_index(s: Seq<Sexp>)
    ensures
        models_of(s).len() == s.len(),
        forall|i: int| 0 <= i < s.len() ==> #[trigger] models_of(s)[i] == sexp_model(s[i]),
    decreases s.len(),
{
    if s.len() > 0 {
        lemma_models_of_index(s.drop_last());
    }
}

/// How deeply lists nest in `obj` (0 for a string).
pub open spec fn nesting(obj: SexpModel) -> nat
    decreases obj, 1nat,
{
    match obj {
        SexpModel::Atom(_) => 0,
        SexpModel::List(l) => 1 + nesting_elems(l),
    }
}

pub open spec fn nesting_elems(elems: Seq<SexpModel>) -> nat
    decreases elems, 0nat,
{
    if elems.len() == 0 {
        0
    } else {
        let a = nesting_elems(elems.drop_last());
        let b = nesting(elems.last());
        if a >= b { a } else { b }
    }
}

impl View for Sexp {
    type V = SexpModel;

    open spec fn view(&self) -> SexpModel {
        sexp_model(*self)
    }
}

impl View for SexpList {
    type V = Seq<SexpModel>;

    open spec fn view(&self) -> Seq<SexpModel> {
        models_of(self.elements@)
    }
}

impl Sexp {
    /// A copy of this object, element by element.
    pub fn deep_clone(&self) -> (r: Sexp)
        ensures
            r@ == self@,
        decreases self, 2nat,
    {
        match self {
            Sexp::List(l) => Sexp::List(l.deep_clone()),
            Sexp::String(s) => Sexp::String(s.clone()),
        }
    }
}

impl SexpList {
    /// A copy of this list, element by element.
    pub fn deep_clone(&self) -> (r: SexpList)
        ensures
            r@ == self@,
        decreases self, 1nat,
    {
        let mut elements: Vec<Sexp> = Vec::new();
        let mut i: usize = 0;
        proof {
            lemma_models_of_index(self.elements@);
            assert(self.elements@.take(0) == Seq::<Sexp>::empty());
        }
        while i < self.elements.len()
            invariant
                i <= self.elements@.len(),
                models_of(elements@) == models_of(self.elements@.take(i as int)),
            decreases self.elements@.len() - i,
        {
            assert(decreases_to!(self => self.elements@[i as int]));
            let e = self.elements[i].deep_clone();
            proof {
                lemma_models_of_push(elements@, e);
                lemma_models_of_push(self.elements@.take(i as int), self.elements@[i as int]);
                assert(self.elements@.take(i + 1) == self.elements@.take(i as int).push(self.elements@[i as int]));
            }
            elements.push(e);
            i = i + 1;
        }
        assert(self.elements@.take(i as int) == self.elements@);
        SexpList { elements }
    }
}

impl Clone for SexpString {
    fn clone(&self) -> (r: Self)
        ensures
            r@ == self@,
    {
        let hint = match &self.presentation_hint {
            Some(h) => Some(h.clone()),
            None => None,
        };
        SexpString { data: self.data.clone(), presentation_hint: hint }
    }
}

impl Clone for SexpList {
    fn clone(&self) -> (r: Self)
        ensures
            r@ == self@,
    {
        self.deep_clone()
    }
}

impl Clone for Sexp {
    fn clone(&self) -> (r: Self)
        ensures
            r@ == self@,
    {
        self.deep_clone()
    }
}

/// The value of a string read as an unsigned decimal number (`u32::MAX`
/// when it is not one, or when it is empty).
pub open spec fn unsigned_value(data: Seq<u8>) -> u32 {
    match spec_parse_u32(data) {
        Some(v) => v,
        None => u32::MAX,
    }
}

impl SexpString {
    /// An empty string without a hint.
    pub fn new() -> (r: Self)
        ensures
            r@ == (StringModel { data: Seq::empty(), hint: None }),
    {
        SexpString { data: Vec::new(), presentation_hint: None }
    }

    pub fn from_bytes(data: Vec<u8>) -> (r: Self)
        ensures
            r@ == (StringModel { data: data@, hint: None }),
    {
        SexpString { data, presentation_hint: None }
    }

    /// The UTF-8 bytes of `s`, without a hint.
    pub fn from_string(s: &str) -> (r: Self)
        ensures
            r@ == (StringModel { data: s.spec_bytes(), hint: None }),
    {
        let b = s.as_bytes();
        let mut data: Vec<u8> = Vec::new();
        let mut i: usize = 0;
        while i < b.len()
            invariant
                i <= b@.len(),
                data@ == b@.take(i as int),
            decreases b@.len() - i,
        {
            data.push(b[i]);
            assert(b@.take(i + 1) == b@.take(i as int).push(b@[i as int]));
            i = i + 1;
        }
        assert(b@.take(i as int) == b@);
        SexpString { data, presentation_hint: None }
    }

    pub fn as_bytes(&self) -> (r: &[u8])
        ensures
            r@ == self.data@,
    {
        self.data.as_slice()
    }

    /// The bytes as a string slice, if they are valid UTF-8.
    pub fn as_str(&self) -> (r: Result<&str, std::str::Utf8Error>)
        ensures
            r is Ok <==> valid_utf8(self.data@),
            r is Ok ==> r->Ok_0.spec_bytes() == self.data@,
    {
        str_from_utf8(self.data.as_slice())
    }

    pub fn has_presentation_hint(&self) -> (r: bool)
        ensures
            r == self.presentation_hint is Some,
    {
        self.presentation_hint.is_some()
    }

    /// The bytes read as an unsigned decimal number, `u32::MAX` when they are not one.
    pub fn as_unsigned(&self) -> (r: u32)
        ensures
            r == unsigned_value(self.data@),
    {
        if self.data.len() == 0 {
            return u32::MAX;
        }
        match parse_u32(self.data.as_slice()) {
            Some(v) => v,
            None => u32::MAX,
        }
    }

    /// Whether the bytes are those of `other`.
    pub fn equals_str(&self, other: &str) -> (r: bool)
        ensures
            r == (self.data@ == other.spec_bytes()),
    {
        let b = other.as_bytes();
        if b.len() != self.data.len() {
            assert(b@.len() != self.data@.len());
            return false;
        }
        let mut i: usize = 0;
        while i < b.len()
            invariant
                i <= b@.len(),
                b@.len() == self.data@.len(),
                b@ == other.spec_bytes(),
                forall|j: int| 0 <= j < i ==> b@[j] == self.data@[j],
            decreases b@.len() - i,
        {
            if b[i] != self.data[i] {
                assert(b@[i as int] != self.data@[i as int]);
                return false;
            }
            i = i + 1;
        }
        assert(b@ == self.data@);
        true
    }
}

impl Default for SexpString {
    fn default() -> (r: Self)
        ensures
            r@ == (StringModel { data: Seq::empty(), hint: None }),
    {
        SexpString::new()
    }
}

impl SexpList {
    pub fn new() -> (r: Self)
        ensures
            r@ == Seq::<SexpModel>::empty(),
            r.elements@.len() == 0,
    {
        SexpList { elements: Vec::new() }
    }

    pub fn push(&mut self, elem: Sexp)
        ensures
            final(self).elements@ == old(self).elements@.push(elem),
            final(self)@ == old(self)@.push(elem@),
    {
        proof {
            lemma_models_of_push(self.elements@, elem);
        }
        self.elements.push(elem);
    }

    pub fn len(&self) -> (r: usize)
        ensures
            r == self@.len(),
    {
        proof {
            lemma_models_of_index(self.elements@);
        }
        self.elements.len()
    }

    pub fn is_empty(&self) -> (r: bool)
        ensures
            r == (self@.len() == 0),
    {
        proof {
            lemma_models_of_index(self.elements@);
        }
        self.elements.len() == 0
    }

    /// An iterator over the elements, in order.
    pub fn iter(&self) -> (r: std::slice::Iter<'_, Sexp>)
        ensures
            r.remaining().unref() == self.elements@,
    {
        let s = self.elements.as_slice();
        proof {
            broadcast use vstd::std_specs::slice::axiom_spec_slice_iter;
        }
        s.iter()
    }

    /// The element at `idx`, if there is one.
    pub fn get(&self, idx: usize) -> (r: Option<&Sexp>)
        ensures
            idx < self.elements@.len() ==> r == Some(&self.elements@[idx as int]),
            idx >= self.elements@.len() ==> r is None,
    {
        if idx < self.elements.len() { Some(&self.elements[idx]) } else { None }
    }

    /// The element at `idx`, if there is one and it is a list.
    pub fn sexp_list_at(&self, idx: usize) -> (r: Option<&SexpList>)
        ensures
            r == (if idx < self.elements@.len() && self.elements@[idx as int] is List {
                Some(&self.elements@[idx as int]->List_0)
            } else {
                None
            }),
    {
        if idx < self.elements.len() {
            match &self.elements[idx] {
                Sexp::List(l) => Some(l),
                Sexp::String(_) => None,
            }
        } else {
            None
        }
    }

    /// The element at `idx`, if there is one and it is a string.
    pub fn sexp_string_at(&self, idx: usize) -> (r: Option<&SexpString>)
        ensures
            r == (if idx < self.elements@.len() && self.elements@[idx as int] is String {
                Some(&self.elements@[idx as int]->String_0)
            } else {
                None
            }),
    {
        if idx < self.elements.len() {
            match &self.elements[idx] {
                Sexp::String(s) => Some(s),
                Sexp::List(_) => None,
            }
        } else {
            None
        }
    }
}

impl Default for SexpList {
    fn default() -> (r: Self)
        ensures
            r.elements@.len() == 0,
    {
        SexpList::new()
    }
}

impl Sexp {
    pub fn list(elements: Vec<Sexp>) -> (r: Sexp)
        ensures
            r == Sexp::List(SexpList { elements }),
            r@ == SexpModel::List(models_of(elements@)),
    {
        Sexp::List(SexpList { elements })
    }

    pub fn string(data: Vec<u8>) -> (r: Sexp)
        ensures
            r@ == SexpModel::Atom(StringModel { data: data@, hint: None }),
    {
        Sexp::String(SexpString { data, presentation_hint: None })
    }

    pub fn is_list(&self) -> (r: bool)
        ensures
            r == self is List,
    {
        match self {
            Sexp::List(_) => true,
            Sexp::String(_) => false,
        }
    }

    pub fn is_string(&self) -> (r: bool)
        ensures
            r == self is String,
    {
        match self {
            Sexp::String(_) => true,
            Sexp::List(_) => false,
        }
    }

    pub fn as_list(&self) -> (r: Option<&SexpList>)
        ensures
            r == (if self is List { Some(&self->List_0) } else { None }),
    {
        match self {
            Sexp::List(l) => Some(l),
            Sexp::String(_) => None,
        }
    }

    pub fn as_string(&self) -> (r: Option<&SexpString>)
        ensures
            r == (if self is String { Some(&self->String_0) } else { None }),
    {
        match self {
            Sexp::String(s) => Some(s),
            Sexp::List(_) => None,
        }
    }

    pub fn parse_advanced(input: &str) -> (r: Result<Sexp, crate::error::SexpError>)
        ensures
            sexp_result(r) == spec_parse_advanced(input.spec_bytes()),
    {
        crate::parse::parse_advanced(input)
    }

    pub fn parse_canonical(input: &[u8]) -> (r: Result<Sexp, crate::error::SexpError>)
        ensures
            sexp_result(r) == spec_parse_canonical(input@),
    {
        crate::parse::parse_canonical(input)
    }

    pub fn to_string_with_mode(&self, mode: PrintMode) -> (r: String)
        ensures
            r@ == serialized(self@, mode),
            mode == PrintMode::Advanced ==> (crate::advanced_round_trip::utf8_readable(self@)
                ==> crate::advanced_round_trip::readable(self@)),
            mode == PrintMode::Canonical ==> (crate::round_trip::plain_utf8(self@)
                ==> crate::round_trip::plain_lossless(self@)),
    {
        crate::ser::serialize(self, mode)
    }

    pub fn to_advanced(&self) -> (r: String)
        ensures
            r@ == serialized(self@, PrintMode::Advanced),
            crate::advanced_round_trip::utf8_readable(self@) ==> crate::advanced_round_trip::readable(self@),
    {
        self.to_string_with_mode(PrintMode::Advanced)
    }

    pub fn to_canonical(&self) -> (r: Vec<u8>)
        ensures
            r@ == canonical_bytes(self@),
    {
        crate::ser::serialize_canonical_bytes(self)
    }

    /// Whether this is a string whose bytes are those of `other`.
    pub fn equals_str(&self, other: &str) -> (r: bool)
        ensures
            r == (self is String && self->String_0.data@ == other.spec_bytes()),
    {
        match self {
            Sexp::String(s) => s.equals_str(other),
            Sexp::List(_) => false,
        }
    }

    /// A string's value as an unsigned number; `u32::MAX` for a list.
    pub fn as_unsigned(&self) -> (r: u32)
        ensures
            r == (match self {
                Sexp::String(s) => unsigned_value(s.data@),
                Sexp::List(_) => u32::MAX,
            }),
    {
        match self {
            Sexp::String(s) => s.as_unsigned(),
            Sexp::List(_) => u32::MAX,
        }
    }
}

/// `list[idx]`: the element at `idx`, which must be there.
impl std::ops::Index<usize> for SexpList {
    type Output = Sexp;

    fn index(&self, idx: usize) -> (r: &Sexp)
        ensures
            r == &self.elements@[idx as int],
    {
        &self.elements[idx]
    }
}

impl vstd::std_specs::core::IndexSpecImpl<usize> for SexpList {
    open spec fn index_req(&self, index: &usize) -> bool {
        *index < self.elements@.len()
    }
}

} // verus!
