//! Typed, opaque references from rule expressions to inputs, parameters, forcings, projections,
//! interpolation tables and transfer branches.

use vstd::prelude::*;

use crate::identity::{check_identity_grammar, valid_identity, GrammarViolation, grammar_violation};
use crate::keyed::{lemma_key_order_1, Key, Keyed};
use crate::order::{compare_text, KeyOrder};
use crate::text::text_of;

verus! {

/// The value kind of a rule expression.
#[derive(Clone, Copy, Debug, Eq, Hash, Ord, PartialEq, PartialOrd, Structural)]
pub enum ExpressionValueKind {
    Scalar,
    Truth,
}

/// The value kind of a projection.
#[derive(Clone, Copy, Debug, Eq, Hash, Ord, PartialEq, PartialOrd, Structural)]
pub enum ProjectionValueKind {
    Extensive,
    Scalar,
    Truth,
}

/// The expression kind that a projection value of `kind` has when read by a rule.
pub open spec fn spec_expression_kind(kind: ProjectionValueKind) -> ExpressionValueKind {
    match kind {
        ProjectionValueKind::Extensive | ProjectionValueKind::Scalar => ExpressionValueKind::Scalar,
        ProjectionValueKind::Truth => ExpressionValueKind::Truth,
    }
}

/// The expression kind that a projection value of `kind` has when read by a rule.
pub fn expression_kind(kind: ProjectionValueKind) -> (r: ExpressionValueKind)
    ensures
        r == spec_expression_kind(kind),
{
    match kind {
        ProjectionValueKind::Extensive | ProjectionValueKind::Scalar => ExpressionValueKind::Scalar,
        ProjectionValueKind::Truth => ExpressionValueKind::Truth,
    }
}

/// The domain of a rule-reference identity.
#[derive(Clone, Copy, Debug, Eq, Hash, Ord, PartialEq, PartialOrd, Structural)]
pub enum RuleReferenceKind {
    Input,
    Parameter,
    Forcing,
    Projection,
    Table,
    TransferBranch,
}

/// Reports why a rule-reference identity could not be constructed.
#[derive(Clone, Debug, Eq, PartialEq)]
pub enum RuleReferenceIdentityError {
    /// Fires when an identity has no text.
    Empty { kind: RuleReferenceKind },
    /// Fires when an identity does not begin with an ASCII lowercase letter.
    InvalidStart { kind: RuleReferenceKind, value: String },
    /// Fires when an identity contains a character outside its canonical grammar.
    InvalidCharacter { kind: RuleReferenceKind, value: String, byte_index: usize, character: char },
}

/// The error that parsing `value` as a reference identity of `kind` reports.
pub open spec fn reference_error_matches(
    kind: RuleReferenceKind,
    value: Seq<char>,
    error: RuleReferenceIdentityError,
) -> bool {
    match grammar_violation(value) {
        Some(GrammarViolation::Empty) => error == RuleReferenceIdentityError::Empty { kind },
        Some(GrammarViolation::InvalidStart) => match error {
            RuleReferenceIdentityError::InvalidStart { kind: k, value: v } => k == kind && v@ == value,
            _ => false,
        },
        Some(GrammarViolation::InvalidCharacter { byte_index, character }) => match error {
            RuleReferenceIdentityError::InvalidCharacter {
                kind: k,
                value: v,
                byte_index: b,
                character: c,
            } => k == kind && v@ == value && b == byte_index && c == character,
            _ => false,
        },
        None => false,
    }
}

fn parse_reference(kind: RuleReferenceKind, value: &str) -> (r: Result<String, RuleReferenceIdentityError>)
    ensures
        r is Ok <==> valid_identity(value@),
        r matches Ok(text) ==> text@ == value@,
        r matches Err(e) ==> reference_error_matches(kind, value@, e),
{
    match check_identity_grammar(value) {
        None => Ok(text_of(value)),
        Some(GrammarViolation::Empty) => Err(RuleReferenceIdentityError::Empty { kind }),
        Some(GrammarViolation::InvalidStart) => Err(
            RuleReferenceIdentityError::InvalidStart { kind, value: text_of(value) },
        ),
        Some(GrammarViolation::InvalidCharacter { byte_index, character }) => Err(
            RuleReferenceIdentityError::InvalidCharacter {
                kind,
                value: text_of(value),
                byte_index,
                character,
            },
        ),
    }
}

/// The identity of an input.
#[derive(Debug, Eq, Hash, Ord, PartialOrd)]
pub struct InputId(String);

impl View for InputId {
    type V = Seq<char>;

    closed spec fn view(&self) -> Seq<char> {
        self.0@
    }
}

impl InputId {
    #[verifier::type_invariant]
    closed spec fn valid(self) -> bool {
        valid_identity(self.0@)
    }

    /// Parses text using the canonical rule-reference identity grammar.
    pub fn parse(value: &str) -> (r: Result<Self, RuleReferenceIdentityError>)
        ensures
            r is Ok <==> valid_identity(value@),
            r matches Ok(id) ==> id@ == value@,
            r matches Err(e) ==> reference_error_matches(RuleReferenceKind::Input, value@, e),
    {
        match parse_reference(RuleReferenceKind::Input, value) {
            Ok(text) => Ok(InputId(text)),
            Err(e) => Err(e),
        }
    }

    /// Returns the identity text.
    pub fn as_str(&self) -> (r: &str)
        ensures
            r@ == self@,
            valid_identity(r@),
    {
        proof {
            use_type_invariant(self);
        }
        self.0.as_str()
    }
}

impl Clone for InputId {
    fn clone(&self) -> (r: Self)
        ensures
            r == *self,
    {
        proof {
            use_type_invariant(self);
        }
        InputId(self.0.clone())
    }
}

impl PartialEq for InputId {
    fn eq(&self, other: &Self) -> (r: bool) {
        self.0 == other.0
    }
}

impl vstd::std_specs::cmp::PartialEqSpecImpl for InputId {
    open spec fn obeys_eq_spec() -> bool {
        true
    }

    open spec fn eq_spec(&self, other: &Self) -> bool {
        self@ == other@
    }
}

impl Keyed for InputId {
    open spec fn key(&self) -> Key {
        seq![self@]
    }

    fn compare_keys(&self, other: &Self) -> (r: KeyOrder) {
        proof {
            lemma_key_order_1(self@, other@);
        }
        compare_text(self.0.as_str(), other.0.as_str())
    }
}

/// The identity of a parameter.
#[derive(Debug, Eq, Hash, Ord, PartialOrd)]
pub struct ParameterId(String);

impl View for ParameterId {
    type V = Seq<char>;

    closed spec fn view(&self) -> Seq<char> {
        self.0@
    }
}

impl ParameterId {
    #[verifier::type_invariant]
    closed spec fn valid(self) -> bool {
        valid_identity(self.0@)
    }

    /// Parses text using the canonical rule-reference identity grammar.
    pub fn parse(value: &str) -> (r: Result<Self, RuleReferenceIdentityError>)
        ensures
            r is Ok <==> valid_identity(value@),
            r matches Ok(id) ==> id@ == value@,
            r matches Err(e) ==> reference_error_matches(RuleReferenceKind::Parameter, value@, e),
    {
        match parse_reference(RuleReferenceKind::Parameter, value) {
            Ok(text) => Ok(ParameterId(text)),
            Err(e) => Err(e),
        }
    }

    /// Returns the identity text.
    pub fn as_str(&self) -> (r: &str)
        ensures
            r@ == self@,
            valid_identity(r@),
    {
        proof {
            use_type_invariant(self);
        }
        self.0.as_str()
    }
}

impl Clone for ParameterId {
    fn clone(&self) -> (r: Self)
        ensures
            r == *self,
    {
        proof {
            use_type_invariant(self);
        }
        ParameterId(self.0.clone())
    }
}

impl PartialEq for ParameterId {
    fn eq(&self, other: &Self) -> (r: bool) {
        self.0 == other.0
    }
}

impl vstd::std_specs::cmp::PartialEqSpecImpl for ParameterId {
    open spec fn obeys_eq_spec() -> bool {
        true
    }

    open spec fn eq_spec(&self, other: &Self) -> bool {
        self@ == other@
    }
}

impl Keyed for ParameterId {
    open spec fn key(&self) -> Key {
        seq![self@]
    }

    fn compare_keys(&self, other: &Self) -> (r: KeyOrder) {
        proof {
            lemma_key_order_1(self@, other@);
        }
        compare_text(self.0.as_str(), other.0.as_str())
    }
}

/// The identity of a forcing series.
#[derive(Debug, Eq, Hash, Ord, PartialOrd)]
pub struct ForcingId(String);

impl View for ForcingId {
    type V = Seq<char>;

    closed spec fn view(&self) -> Seq<char> {
        self.0@
    }
}

impl ForcingId {
    #[verifier::type_invariant]
    closed spec fn valid(self) -> bool {
        valid_identity(self.0@)
    }

    /// Parses text using the canonical rule-reference identity grammar.
    pub fn parse(value: &str) -> (r: Result<Self, RuleReferenceIdentityError>)
        ensures
            r is Ok <==> valid_identity(value@),
            r matches Ok(id) ==> id@ == value@,
            r matches Err(e) ==> reference_error_matches(RuleReferenceKind::Forcing, value@, e),
    {
        match parse_reference(RuleReferenceKind::Forcing, value) {
            Ok(text) => Ok(ForcingId(text)),
            Err(e) => Err(e),
        }
    }

    /// Returns the identity text.
    pub fn as_str(&self) -> (r: &str)
        ensures
            r@ == self@,
            valid_identity(r@),
    {
        proof {
            use_type_invariant(self);
        }
        self.0.as_str()
    }
}

impl Clone for ForcingId {
    fn clone(&self) -> (r: Self)
        ensures
            r == *self,
    {
        proof {
            use_type_invariant(self);
        }
        ForcingId(self.0.clone())
    }
}

impl PartialEq for ForcingId {
    fn eq(&self, other: &Self) -> (r: bool) {
        self.0 == other.0
    }
}

impl vstd::std_specs::cmp::PartialEqSpecImpl for ForcingId {
    open spec fn obeys_eq_spec() -> bool {
        true
    }

    open spec fn eq_spec(&self, other: &Self) -> bool {
        self@ == other@
    }
}

impl Keyed for ForcingId {
    open spec fn key(&self) -> Key {
        seq![self@]
    }

    fn compare_keys(&self, other: &Self) -> (r: KeyOrder) {
        proof {
            lemma_key_order_1(self@, other@);
        }
        compare_text(self.0.as_str(), other.0.as_str())
    }
}

/// The identity of a projection.
#[derive(Debug, Eq, Hash, Ord, PartialOrd)]
pub struct ProjectionId(String);

impl View for ProjectionId {
    type V = Seq<char>;

    closed spec fn view(&self) -> Seq<char> {
        self.0@
    }
}

impl ProjectionId {
    #[verifier::type_invariant]
    closed spec fn valid(self) -> bool {
        valid_identity(self.0@)
    }

    /// Parses text using the canonical rule-reference identity grammar.
    pub fn parse(value: &str) -> (r: Result<Self, RuleReferenceIdentityError>)
        ensures
            r is Ok <==> valid_identity(value@),
            r matches Ok(id) ==> id@ == value@,
            r matches Err(e) ==> reference_error_matches(RuleReferenceKind::Projection, value@, e),
    {
        match parse_reference(RuleReferenceKind::Projection, value) {
            Ok(text) => Ok(ProjectionId(text)),
            Err(e) => Err(e),
        }
    }

    /// Returns the identity text.
    pub fn as_str(&self) -> (r: &str)
        ensures
            r@ == self@,
            valid_identity(r@),
    {
        proof {
            use_type_invariant(self);
        }
        self.0.as_str()
    }
}

impl Clone for ProjectionId {
    fn clone(&self) -> (r: Self)
        ensures
            r == *self,
    {
        proof {
            use_type_invariant(self);
        }
        ProjectionId(self.0.clone())
    }
}

impl PartialEq for ProjectionId {
    fn eq(&self, other: &Self) -> (r: bool) {
        self.0 == other.0
    }
}

impl vstd::std_specs::cmp::PartialEqSpecImpl for ProjectionId {
    open spec fn obeys_eq_spec() -> bool {
        true
    }

    open spec fn eq_spec(&self, other: &Self) -> bool {
        self@ == other@
    }
}

impl Keyed for ProjectionId {
    open spec fn key(&self) -> Key {
        seq![self@]
    }

    fn compare_keys(&self, other: &Self) -> (r: KeyOrder) {
        proof {
            lemma_key_order_1(self@, other@);
        }
        compare_text(self.0.as_str(), other.0.as_str())
    }
}

/// The identity of an interpolation table.
#[derive(Debug, Eq, Hash, Ord, PartialOrd)]
pub struct TableId(String);

impl View for TableId {
    type V = Seq<char>;

    closed spec fn view(&self) -> Seq<char> {
        self.0@
    }
}

impl TableId {
    #[verifier::type_invariant]
    closed spec fn valid(self) -> bool {
        valid_identity(self.0@)
    }

    /// Parses text using the canonical rule-reference identity grammar.
    pub fn parse(value: &str) -> (r: Result<Self, RuleReferenceIdentityError>)
        ensures
            r is Ok <==> valid_identity(value@),
            r matches Ok(id) ==> id@ == value@,
            r matches Err(e) ==> reference_error_matches(RuleReferenceKind::Table, value@, e),
    {
        match parse_reference(RuleReferenceKind::Table, value) {
            Ok(text) => Ok(TableId(text)),
            Err(e) => Err(e),
        }
    }

    /// Returns the identity text.
    pub fn as_str(&self) -> (r: &str)
        ensures
            r@ == self@,
            valid_identity(r@),
    {
        proof {
            use_type_invariant(self);
        }
        self.0.as_str()
    }
}

impl Clone for TableId {
    fn clone(&self) -> (r: Self)
        ensures
            r == *self,
    {
        proof {
            use_type_invariant(self);
        }
        TableId(self.0.clone())
    }
}

impl PartialEq for TableId {
    fn eq(&self, other: &Self) -> (r: bool) {
        self.0 == other.0
    }
}

impl vstd::std_specs::cmp::PartialEqSpecImpl for TableId {
    open spec fn obeys_eq_spec() -> bool {
        true
    }

    open spec fn eq_spec(&self, other: &Self) -> bool {
        self@ == other@
    }
}

impl Keyed for TableId {
    open spec fn key(&self) -> Key {
        seq![self@]
    }

    fn compare_keys(&self, other: &Self) -> (r: KeyOrder) {
        proof {
            lemma_key_order_1(self@, other@);
        }
        compare_text(self.0.as_str(), other.0.as_str())
    }
}

/// The identity of a transfer branch.
#[derive(Debug, Eq, Hash, Ord, PartialOrd)]
pub struct TransferBranchId(String);

impl View for TransferBranchId {
    type V = Seq<char>;

    closed spec fn view(&self) -> Seq<char> {
        self.0@
    }
}

impl TransferBranchId {
    #[verifier::type_invariant]
    closed spec fn valid(self) -> bool {
        valid_identity(self.0@)
    }

    /// Parses text using the canonical rule-reference identity grammar.
    pub fn parse(value: &str) -> (r: Result<Self, RuleReferenceIdentityError>)
        ensures
            r is Ok <==> valid_identity(value@),
            r matches Ok(id) ==> id@ == value@,
            r matches Err(e) ==> reference_error_matches(RuleReferenceKind::TransferBranch, value@, e),
    {
        match parse_reference(RuleReferenceKind::TransferBranch, value) {
            Ok(text) => Ok(TransferBranchId(text)),
            Err(e) => Err(e),
        }
    }

    /// Returns the identity text.
    pub fn as_str(&self) -> (r: &str)
        ensures
            r@ == self@,
            valid_identity(r@),
    {
        proof {
            use_type_invariant(self);
        }
        self.0.as_str()
    }
}

impl Clone for TransferBranchId {
    fn clone(&self) -> (r: Self)
        ensures
            r == *self,
    {
        proof {
            use_type_invariant(self);
        }
        TransferBranchId(self.0.clone())
    }
}

impl PartialEq for TransferBranchId {
    fn eq(&self, other: &Self) -> (r: bool) {
        self.0 == other.0
    }
}

impl vstd::std_specs::cmp::PartialEqSpecImpl for TransferBranchId {
    open spec fn obeys_eq_spec() -> bool {
        true
    }

    open spec fn eq_spec(&self, other: &Self) -> bool {
        self@ == other@
    }
}

impl Keyed for TransferBranchId {
    open spec fn key(&self) -> Key {
        seq![self@]
    }

    fn compare_keys(&self, other: &Self) -> (r: KeyOrder) {
        proof {
            lemma_key_order_1(self@, other@);
        }
        compare_text(self.0.as_str(), other.0.as_str())
    }
}

/// A typed reference to an input.
#[derive(Debug, Eq, Hash, Ord, PartialEq, PartialOrd)]
pub struct InputRef {
    id: InputId,
    value_kind: ExpressionValueKind,
}

impl View for InputRef {
    type V = (Seq<char>, ExpressionValueKind);

    open spec fn view(&self) -> (Seq<char>, ExpressionValueKind) {
        (self.spec_id()@, self.spec_kind())
    }
}

impl InputRef {
    /// The referenced identity.
    pub closed spec fn spec_id(&self) -> InputId {
        self.id
    }

    /// The declared value kind.
    pub closed spec fn spec_kind(&self) -> ExpressionValueKind {
        self.value_kind
    }

    /// Constructs a typed reference.
    pub fn new(id: InputId, value_kind: ExpressionValueKind) -> (r: Self)
        ensures
            r.spec_id() == id,
            r.spec_kind() == value_kind,
    {
        InputRef { id, value_kind }
    }

    /// The referenced identity.
    pub fn id(&self) -> (r: &InputId)
        ensures
            *r == self.spec_id(),
    {
        &self.id
    }

    /// The declared value kind.
    pub fn value_kind(&self) -> (r: ExpressionValueKind)
        ensures
            r == self@.1,
    {
        self.value_kind
    }
}

impl Clone for InputRef {
    fn clone(&self) -> (r: Self)
        ensures
            r == *self,
    {
        InputRef { id: self.id.clone(), value_kind: self.value_kind }
    }
}

impl Keyed for InputRef {
    open spec fn key(&self) -> Key {
        seq![self@.0]
    }

    fn compare_keys(&self, other: &Self) -> (r: KeyOrder) {
        proof {
            lemma_key_order_1(self@.0, other@.0);
        }
        compare_text(self.id.as_str(), other.id.as_str())
    }
}

/// A typed reference to a parameter.
#[derive(Debug, Eq, Hash, Ord, PartialEq, PartialOrd)]
pub struct ParameterRef {
    id: ParameterId,
    value_kind: ExpressionValueKind,
}

impl View for ParameterRef {
    type V = (Seq<char>, ExpressionValueKind);

    open spec fn view(&self) -> (Seq<char>, ExpressionValueKind) {
        (self.spec_id()@, self.spec_kind())
    }
}

impl ParameterRef {
    /// The referenced identity.
    pub closed spec fn spec_id(&self) -> ParameterId {
        self.id
    }

    /// The declared value kind.
    pub closed spec fn spec_kind(&self) -> ExpressionValueKind {
        self.value_kind
    }

    /// Constructs a typed reference.
    pub fn new(id: ParameterId, value_kind: ExpressionValueKind) -> (r: Self)
        ensures
            r.spec_id() == id,
            r.spec_kind() == value_kind,
    {
        ParameterRef { id, value_kind }
    }

    /// The referenced identity.
    pub fn id(&self) -> (r: &ParameterId)
        ensures
            *r == self.spec_id(),
    {
        &self.id
    }

    /// The declared value kind.
    pub fn value_kind(&self) -> (r: ExpressionValueKind)
        ensures
            r == self@.1,
    {
        self.value_kind
    }
}

impl Clone for ParameterRef {
    fn clone(&self) -> (r: Self)
        ensures
            r == *self,
    {
        ParameterRef { id: self.id.clone(), value_kind: self.value_kind }
    }
}

impl Keyed for ParameterRef {
    open spec fn key(&self) -> Key {
        seq![self@.0]
    }

    fn compare_keys(&self, other: &Self) -> (r: KeyOrder) {
        proof {
            lemma_key_order_1(self@.0, other@.0);
        }
        compare_text(self.id.as_str(), other.id.as_str())
    }
}

/// A typed reference to a projection.
#[derive(Debug, Eq, Hash, Ord, PartialEq, PartialOrd)]
pub struct ProjectionRef {
    id: ProjectionId,
    value_kind: ProjectionValueKind,
}

impl View for ProjectionRef {
    type V = (Seq<char>, ProjectionValueKind);

    open spec fn view(&self) -> (Seq<char>, ProjectionValueKind) {
        (self.spec_id()@, self.spec_kind())
    }
}

impl ProjectionRef {
    /// The referenced identity.
    pub closed spec fn spec_id(&self) -> ProjectionId {
        self.id
    }

    /// The declared value kind.
    pub closed spec fn spec_kind(&self) -> ProjectionValueKind {
        self.value_kind
    }

    /// Constructs a typed reference.
    pub fn new(id: ProjectionId, value_kind: ProjectionValueKind) -> (r: Self)
        ensures
            r.spec_id() == id,
            r.spec_kind() == value_kind,
    {
        ProjectionRef { id, value_kind }
    }

    /// The referenced identity.
    pub fn id(&self) -> (r: &ProjectionId)
        ensures
            *r == self.spec_id(),
    {
        &self.id
    }

    /// The declared value kind.
    pub fn value_kind(&self) -> (r: ProjectionValueKind)
        ensures
            r == self@.1,
    {
        self.value_kind
    }
}

impl Clone for ProjectionRef {
    fn clone(&self) -> (r: Self)
        ensures
            r == *self,
    {
        ProjectionRef { id: self.id.clone(), value_kind: self.value_kind }
    }
}

impl Keyed for ProjectionRef {
    open spec fn key(&self) -> Key {
        seq![self@.0]
    }

    fn compare_keys(&self, other: &Self) -> (r: KeyOrder) {
        proof {
            lemma_key_order_1(self@.0, other@.0);
        }
        compare_text(self.id.as_str(), other.id.as_str())
    }
}

/// A reference to a forcing series.
#[derive(Debug, Eq, Hash, Ord, PartialEq, PartialOrd)]
pub struct ForcingRef {
    id: ForcingId,
}

impl View for ForcingRef {
    type V = Seq<char>;

    closed spec fn view(&self) -> Seq<char> {
        self.id@
    }
}

impl ForcingRef {
    /// Constructs a reference.
    pub fn new(id: ForcingId) -> (r: Self)
        ensures
            r@ == id@,
    {
        ForcingRef { id }
    }

    /// The referenced identity.
    pub fn id(&self) -> (r: &ForcingId)
        ensures
            r@ == self@,
    {
        &self.id
    }
}

impl Clone for ForcingRef {
    fn clone(&self) -> (r: Self)
        ensures
            r == *self,
    {
        ForcingRef { id: self.id.clone() }
    }
}

/// A reference to an interpolation table.
#[derive(Debug, Eq, Hash, Ord, PartialEq, PartialOrd)]
pub struct InterpolatedTableRef {
    id: TableId,
}

impl View for InterpolatedTableRef {
    type V = Seq<char>;

    closed spec fn view(&self) -> Seq<char> {
        self.id@
    }
}

impl InterpolatedTableRef {
    /// Constructs a reference.
    pub fn new(id: TableId) -> (r: Self)
        ensures
            r@ == id@,
    {
        InterpolatedTableRef { id }
    }

    /// The referenced identity.
    pub fn id(&self) -> (r: &TableId)
        ensures
            r@ == self@,
    {
        &self.id
    }
}

impl Clone for InterpolatedTableRef {
    fn clone(&self) -> (r: Self)
        ensures
            r == *self,
    {
        InterpolatedTableRef { id: self.id.clone() }
    }
}

impl core::str::FromStr for InputId {
    type Err = RuleReferenceIdentityError;

    fn from_str(value: &str) -> (r: Result<Self, Self::Err>)
        ensures
            r is Ok <==> valid_identity(value@),
            r matches Ok(id) ==> id@ == value@,
            r matches Err(e) ==> reference_error_matches(RuleReferenceKind::Input, value@, e),
    {
        Self::parse(value)
    }
}

impl core::str::FromStr for ParameterId {
    type Err = RuleReferenceIdentityError;

    fn from_str(value: &str) -> (r: Result<Self, Self::Err>)
        ensures
            r is Ok <==> valid_identity(value@),
            r matches Ok(id) ==> id@ == value@,
            r matches Err(e) ==> reference_error_matches(RuleReferenceKind::Parameter, value@, e),
    {
        Self::parse(value)
    }
}

impl core::str::FromStr for ForcingId {
    type Err = RuleReferenceIdentityError;

    fn from_str(value: &str) -> (r: Result<Self, Self::Err>)
        ensures
            r is Ok <==> valid_identity(value@),
            r matches Ok(id) ==> id@ == value@,
            r matches Err(e) ==> reference_error_matches(RuleReferenceKind::Forcing, value@, e),
    {
        Self::parse(value)
    }
}

impl core::str::FromStr for ProjectionId {
    type Err = RuleReferenceIdentityError;

    fn from_str(value: &str) -> (r: Result<Self, Self::Err>)
        ensures
            r is Ok <==> valid_identity(value@),
            r matches Ok(id) ==> id@ == value@,
            r matches Err(e) ==> reference_error_matches(RuleReferenceKind::Projection, value@, e),
    {
        Self::parse(value)
    }
}

impl core::str::FromStr for TableId {
    type Err = RuleReferenceIdentityError;

    fn from_str(value: &str) -> (r: Result<Self, Self::Err>)
        ensures
            r is Ok <==> valid_identity(value@),
            r matches Ok(id) ==> id@ == value@,
            r matches Err(e) ==> reference_error_matches(RuleReferenceKind::Table, value@, e),
    {
        Self::parse(value)
    }
}

impl core::str::FromStr for TransferBranchId {
    type Err = RuleReferenceIdentityError;

    fn from_str(value: &str) -> (r: Result<Self, Self::Err>)
        ensures
            r is Ok <==> valid_identity(value@),
            r matches Ok(id) ==> id@ == value@,
            r matches Err(e) ==> reference_error_matches(RuleReferenceKind::TransferBranch, value@, e),
    {
        Self::parse(value)
    }
}

} // verus!
