//! Canonical identity grammar and the validated compartment and substance identities.

use vstd::prelude::*;
use vstd::string::*;
use vstd::utf8::*;

use crate::text::{append_str, decimal, push_char, push_decimal, text_of};

verus! {

/// An ASCII lowercase letter, the only admissible first character.
pub open spec fn is_identity_start(c: char) -> bool {
    'a' <= c && c <= 'z'
}

/// A character admissible after the first one.
pub open spec fn is_identity_tail(c: char) -> bool {
    ('a' <= c && c <= 'z') || ('0' <= c && c <= '9') || c == '-' || c == '_'
}

/// The canonical identity grammar: a lowercase letter followed by lowercase letters, digits,
/// hyphens and underscores.
pub open spec fn valid_identity(s: Seq<char>) -> bool {
    &&& s.len() > 0
    &&& is_identity_start(s[0])
    &&& forall|i: int| 1 <= i < s.len() ==> is_identity_tail(#[trigger] s[i])
}

/// Every text the grammar accepts is non-empty, opens with an ASCII lowercase letter, and holds
/// only ASCII lowercase letters, ASCII digits, hyphens and underscores: in particular no
/// uppercase letter occurs anywhere in it.
pub proof fn law_identity_alphabet(s: Seq<char>)
    requires
        valid_identity(s),
    ensures
        s.len() > 0,
        'a' <= s[0] && s[0] <= 'z',
        forall|i: int|
            0 <= i < s.len() ==> ('a' <= #[trigger] s[i] && s[i] <= 'z') || ('0' <= s[i] && s[i] <= '9')
                || s[i] == '-' || s[i] == '_',
        forall|i: int| 0 <= i < s.len() ==> !('A' <= #[trigger] s[i] && s[i] <= 'Z'),
{
    assert forall|i: int| 0 <= i < s.len() implies ('a' <= #[trigger] s[i] && s[i] <= 'z') || ('0' <= s[i]
        && s[i] <= '9') || s[i] == '-' || s[i] == '_' by {
        if i >= 1 {
            assert(is_identity_tail(s[i]));
        }
    }
}

/// Position `i` holds the first character after the first that falls outside the grammar.
pub open spec fn first_invalid_at(s: Seq<char>, i: int) -> bool {
    &&& 1 <= i < s.len()
    &&& !is_identity_tail(s[i])
    &&& forall|j: int| 1 <= j < i ==> is_identity_tail(#[trigger] s[j])
}

/// The UTF-8 byte offset of the character at position `i`.
pub open spec fn utf8_offset(s: Seq<char>, i: int) -> nat {
    encode_utf8(s.take(i)).len()
}

/// Which grammar rule a text breaks, stated over its characters.
pub enum GrammarViolation {
    Empty,
    InvalidStart,
    InvalidCharacter { byte_index: usize, character: char },
}

/// The outcome the grammar prescribes for `s`: `None` when `s` is a valid identity.
pub open spec fn grammar_violation(s: Seq<char>) -> Option<GrammarViolation> {
    if s.len() == 0 {
        Some(GrammarViolation::Empty)
    } else if !is_identity_start(s[0]) {
        Some(GrammarViolation::InvalidStart)
    } else if exists|i: int| first_invalid_at(s, i) {
        let i = choose|i: int| first_invalid_at(s, i);
        Some(GrammarViolation::InvalidCharacter {
            byte_index: utf8_offset(s, i) as usize,
            character: s[i],
        })
    } else {
        None
    }
}

proof fn lemma_first_invalid_unique(s: Seq<char>, i: int, k: int)
    requires
        first_invalid_at(s, i),
        first_invalid_at(s, k),
    ensures
        i == k,
{
    if i < k {
        assert(is_identity_tail(s[i]));
    } else if k < i {
        assert(is_identity_tail(s[k]));
    }
}

/// The UTF-8 encoding of a prefix of ASCII characters has one byte per character.
proof fn lemma_ascii_prefix_offset(s: Seq<char>, i: int)
    requires
        0 <= i <= s.len(),
        forall|j: int| 0 <= j < i ==> (#[trigger] s[j] as u32) < 0x80,
    ensures
        utf8_offset(s, i) == i,
    decreases i,
{
    if i > 0 {
        let t = s.take(i);
        lemma_ascii_prefix_offset(s.drop_first(), i - 1);
        assert(t.drop_first() =~= s.drop_first().take(i - 1));
        assert((t[0] as u32) < 0x80);
        assert(has_width_1_encoding(t[0] as u32));
    }
}

/// Applies the canonical identity grammar to the characters of `value`.
pub fn check_identity_grammar(value: &str) -> (result: Option<GrammarViolation>)
    ensures
        result == grammar_violation(value@),
        result is None <==> valid_identity(value@),
        result is None ==> forall|i: int|
            0 <= i < value@.len() ==> !('A' <= #[trigger] value@[i] && value@[i] <= 'Z'),
{
    proof {
        if valid_identity(value@) {
            law_identity_alphabet(value@);
        }
    }
    let n = value.unicode_len();
    if n == 0 {
        return Some(GrammarViolation::Empty);
    }
    let first = value.get_char(0);
    if !(first >= 'a' && first <= 'z') {
        return Some(GrammarViolation::InvalidStart);
    }
    let mut i: usize = 1;
    while i < n
        invariant
            n == value@.len(),
            1 <= i <= n,
            value@.len() > 0,
            is_identity_start(value@[0]),
            forall|j: int| 1 <= j < i ==> is_identity_tail(#[trigger] value@[j]),
        decreases n - i,
    {
        let c = value.get_char(i);
        let admissible = (c >= 'a' && c <= 'z') || (c >= '0' && c <= '9') || c == '-' || c
            == '_';
        if !admissible {
            proof {
                let s = value@;
                assert(first_invalid_at(s, i as int));
                let k = choose|k: int| first_invalid_at(s, k);
                lemma_first_invalid_unique(s, i as int, k);
                assert forall|j: int| 0 <= j < i implies (#[trigger] s[j] as u32) < 0x80 by {
                    if j >= 1 {
                        assert(is_identity_tail(s[j]));
                    }
                }
                lemma_ascii_prefix_offset(s, i as int);
            }
            return Some(GrammarViolation::InvalidCharacter { byte_index: i, character: c });
        }
        i = i + 1;
    }
    proof {
        let s = value@;
        if exists|k: int| first_invalid_at(s, k) {
            let k = choose|k: int| first_invalid_at(s, k);
            assert(is_identity_tail(s[k]));
        }
    }
    None
}


/// Identifies the domain whose identity failed validation.
#[derive(Clone, Copy, Debug, PartialEq, Eq, Structural)]
pub enum IdentityKind {
    /// A compartment identity.
    Compartment,
    /// A substance identity.
    Substance,
}

/// The name of an identity domain as it appears in messages.
pub open spec fn kind_name(kind: IdentityKind) -> Seq<char> {
    match kind {
        IdentityKind::Compartment => "compartment"@,
        IdentityKind::Substance => "substance"@,
    }
}

impl IdentityKind {
    /// The lowercase domain name.
    pub fn name(self) -> (r: &'static str)
        ensures
            r@ == kind_name(self),
    {
        match self {
            IdentityKind::Compartment => "compartment",
            IdentityKind::Substance => "substance",
        }
    }
}

/// Reports why an identity could not be constructed.
#[derive(Debug, PartialEq, Eq)]
pub enum IdentityError {
    /// Returned when an identity is empty.
    Empty { kind: IdentityKind },
    /// Returned when the first byte is not an ASCII lowercase letter.
    InvalidStart { kind: IdentityKind, value: String },
    /// Returned when a character after the first falls outside the identity grammar.
    InvalidCharacter { kind: IdentityKind, value: String, byte_index: usize, character: char },
}

/// The error that parsing `value` as an identity of `kind` reports, if any.
pub open spec fn identity_error_matches(
    kind: IdentityKind,
    value: Seq<char>,
    error: IdentityError,
) -> bool {
    match grammar_violation(value) {
        Some(GrammarViolation::Empty) => error == IdentityError::Empty { kind },
        Some(GrammarViolation::InvalidStart) => match error {
            IdentityError::InvalidStart { kind: k, value: v } => k == kind && v@ == value,
            _ => false,
        },
        Some(GrammarViolation::InvalidCharacter { byte_index, character }) => match error {
            IdentityError::InvalidCharacter { kind: k, value: v, byte_index: b, character: c } =>
                k == kind && v@ == value && b == byte_index && c == character,
            _ => false,
        },
        None => false,
    }
}

/// The human-readable message of an identity error.
pub open spec fn identity_error_message(error: IdentityError) -> Seq<char> {
    match error {
        IdentityError::Empty { kind } => kind_name(kind) + " identity must not be empty"@,
        IdentityError::InvalidStart { kind, value } => kind_name(kind) + " identity `"@ + value@
            + "` must start with an ASCII lowercase letter"@,
        IdentityError::InvalidCharacter { kind, value, byte_index, character } => kind_name(kind)
            + " identity `"@ + value@ + "` contains invalid character `"@ + seq![character]
            + "` at byte "@ + decimal(byte_index as nat),
    }
}

impl IdentityError {
    /// Renders the error as text.
    pub fn message(&self) -> (r: String)
        ensures
            r@ == identity_error_message(*self),
    {
        match self {
            IdentityError::Empty { kind } => {
                let mut s = text_of(kind.name());
                append_str(&mut s, " identity must not be empty");
                s
            },
            IdentityError::InvalidStart { kind, value } => {
                let mut s = text_of(kind.name());
                append_str(&mut s, " identity `");
                append_str(&mut s, value.as_str());
                append_str(&mut s, "` must start with an ASCII lowercase letter");
                s
            },
            IdentityError::InvalidCharacter { kind, value, byte_index, character } => {
                let mut s = text_of(kind.name());
                append_str(&mut s, " identity `");
                append_str(&mut s, value.as_str());
                append_str(&mut s, "` contains invalid character `");
                push_char(&mut s, *character);
                append_str(&mut s, "` at byte ");
                push_decimal(&mut s, *byte_index as u64);
                s
            },
        }
    }
}

/// Parses `value` under the identity grammar, reporting violations for `kind`.
fn parse_identity(value: &str, kind: IdentityKind) -> (result: Result<String, IdentityError>)
    ensures
        result is Ok <==> valid_identity(value@),
        result matches Ok(text) ==> text@ == value@,
        result matches Err(e) ==> identity_error_matches(kind, value@, e),
{
    match check_identity_grammar(value) {
        None => Ok(text_of(value)),
        Some(GrammarViolation::Empty) => Err(IdentityError::Empty { kind }),
        Some(GrammarViolation::InvalidStart) => Err(
            IdentityError::InvalidStart { kind, value: text_of(value) },
        ),
        Some(GrammarViolation::InvalidCharacter { byte_index, character }) => Err(
            IdentityError::InvalidCharacter { kind, value: text_of(value), byte_index, character },
        ),
    }
}

/// A validated compartment identity.
#[derive(Debug, Eq, Hash, PartialOrd, Ord)]
pub struct CompartmentId(String);

impl View for CompartmentId {
    type V = Seq<char>;

    closed spec fn view(&self) -> Seq<char> {
        self.0@
    }
}

impl CompartmentId {
    #[verifier::type_invariant]
    closed spec fn valid(self) -> bool {
        valid_identity(self.0@)
    }

    /// Parses a compartment identity using the canonical identity grammar.
    pub fn parse(value: &str) -> (result: Result<Self, IdentityError>)
        ensures
            result is Ok <==> valid_identity(value@),
            result matches Ok(id) ==> id@ == value@,
            result matches Err(e) ==> identity_error_matches(IdentityKind::Compartment, value@, e),
            result is Ok ==> forall|i: int|
                0 <= i < value@.len() ==> !('A' <= #[trigger] value@[i] && value@[i] <= 'Z'),
    {
        proof {
            if valid_identity(value@) {
                law_identity_alphabet(value@);
            }
        }
        match parse_identity(value, IdentityKind::Compartment) {
            Ok(text) => Ok(CompartmentId(text)),
            Err(e) => Err(e),
        }
    }

    /// Returns the identity text exactly as supplied at construction.
    pub fn as_str(&self) -> (r: &str)
        ensures
            r@ == self@,
            valid_identity(r@),
    {
        proof {
            use_type_invariant(self);
        }
        self.0.as_str()
    }
}

impl CompartmentId {
    /// An owned copy of the identity text.
    pub fn to_text(&self) -> (r: String)
        ensures
            r@ == self@,
    {
        self.0.clone()
    }
}

impl Clone for CompartmentId {
    fn clone(&self) -> (r: Self)
        ensures
            r == *self,
    {
        proof {
            use_type_invariant(self);
        }
        CompartmentId(self.0.clone())
    }
}

impl PartialEq for CompartmentId {
    fn eq(&self, other: &Self) -> (r: bool) {
        self.0 == other.0
    }
}

impl vstd::std_specs::cmp::PartialEqSpecImpl for CompartmentId {
    open spec fn obeys_eq_spec() -> bool {
        true
    }

    open spec fn eq_spec(&self, other: &Self) -> bool {
        self@ == other@
    }
}

/// A validated substance identity.
#[derive(Debug, Eq, Hash, PartialOrd, Ord)]
pub struct SubstanceId(String);

impl View for SubstanceId {
    type V = Seq<char>;

    closed spec fn view(&self) -> Seq<char> {
        self.0@
    }
}

impl SubstanceId {
    #[verifier::type_invariant]
    closed spec fn valid(self) -> bool {
        valid_identity(self.0@)
    }

    /// Parses a substance identity using the canonical identity grammar.
    pub fn parse(value: &str) -> (result: Result<Self, IdentityError>)
        ensures
            result is Ok <==> valid_identity(value@),
            result matches Ok(id) ==> id@ == value@,
            result matches Err(e) ==> identity_error_matches(IdentityKind::Substance, value@, e),
            result is Ok ==> forall|i: int|
                0 <= i < value@.len() ==> !('A' <= #[trigger] value@[i] && value@[i] <= 'Z'),
    {
        proof {
            if valid_identity(value@) {
                law_identity_alphabet(value@);
            }
        }
        match parse_identity(value, IdentityKind::Substance) {
            Ok(text) => Ok(SubstanceId(text)),
            Err(e) => Err(e),
        }
    }

    /// Returns the identity text exactly as supplied at construction.
    pub fn as_str(&self) -> (r: &str)
        ensures
            r@ == self@,
            valid_identity(r@),
    {
        proof {
            use_type_invariant(self);
        }
        self.0.as_str()
    }
}

impl SubstanceId {
    /// An owned copy of the identity text.
    pub fn to_text(&self) -> (r: String)
        ensures
            r@ == self@,
    {
        self.0.clone()
    }
}

impl Clone for SubstanceId {
    fn clone(&self) -> (r: Self)
        ensures
            r == *self,
    {
        proof {
            use_type_invariant(self);
        }
        SubstanceId(self.0.clone())
    }
}

impl PartialEq for SubstanceId {
    fn eq(&self, other: &Self) -> (r: bool) {
        self.0 == other.0
    }
}

impl vstd::std_specs::cmp::PartialEqSpecImpl for SubstanceId {
    open spec fn obeys_eq_spec() -> bool {
        true
    }

    open spec fn eq_spec(&self, other: &Self) -> bool {
        self@ == other@
    }
}

impl core::str::FromStr for CompartmentId {
    type Err = IdentityError;

    fn from_str(value: &str) -> (r: Result<Self, Self::Err>)
        ensures
            r is Ok <==> valid_identity(value@),
            r matches Ok(id) ==> id@ == value@,
            r matches Err(e) ==> identity_error_matches(IdentityKind::Compartment, value@, e),
    {
        Self::parse(value)
    }
}

impl AsRef<str> for CompartmentId {
    fn as_ref(&self) -> (r: &str)
        ensures
            r@ == self@,
            valid_identity(r@),
    {
        self.as_str()
    }
}

impl core::str::FromStr for SubstanceId {
    type Err = IdentityError;

    fn from_str(value: &str) -> (r: Result<Self, Self::Err>)
        ensures
            r is Ok <==> valid_identity(value@),
            r matches Ok(id) ==> id@ == value@,
            r matches Err(e) ==> identity_error_matches(IdentityKind::Substance, value@, e),
    {
        Self::parse(value)
    }
}

impl AsRef<str> for SubstanceId {
    fn as_ref(&self) -> (r: &str)
        ensures
            r@ == self@,
            valid_identity(r@),
    {
        self.as_str()
    }
}

} // verus!
