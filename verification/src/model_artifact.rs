//! The parts of a model artifact that identify and describe it: protocol versions, unit
//! identities, rule definitions, and the content address of canonical artifact bytes.

use vstd::prelude::*;
use vstd::string::*;

use crate::bytes::{hex_text, to_hex};
use crate::identity::{CompartmentId, SubstanceId};
use crate::keyed::{
    compare_pair, keys_distinct, keys_of, keys_sorted, lemma_key_order_1,
    lemma_permutation_contains, lemma_sorted_distinct, sort_unique, Key, Keyed,
};
use crate::forcing::ForcingSeries;
use crate::interpolation_table::InterpolationTable;
use crate::numerical_semantics::{canonical_bits, is_finite_bits, NumericalSemanticsVersion};
use crate::order::{
    compare_text, lemma_text_lt_irreflexive, lemma_text_lt_transitive, text_lt, KeyOrder,
};
use crate::partition_expression::{PartitionExpr, PartitionExprView, PartitionNode};
use crate::projection::{spec_projection_id, ProjectionSpec};
use crate::projection_set::ProjectionSet;
use crate::rule_expression::{collect_references, texts, ExpressionReferences, RuleExpr};
use crate::rule_reference::{ForcingId, ParameterId, ProjectionId, RuleReferenceKind, TableId};
use crate::versions::{CanonicalEncodingVersion, InterpreterVersion, RuleIrVersion};

verus! {

/// The protocol versions that participate in a model artifact's identity.
#[derive(Clone, Copy, Debug, Eq, PartialEq, Structural)]
pub struct ModelVersions {
    rule_ir: RuleIrVersion,
    interpreter: InterpreterVersion,
    numerical_semantics: NumericalSemanticsVersion,
    canonical_encoding: CanonicalEncodingVersion,
}

impl ModelVersions {
    /// The selected rule IR version.
    pub closed spec fn spec_rule_ir(self) -> RuleIrVersion {
        self.rule_ir
    }

    /// The selected interpreter version.
    pub closed spec fn spec_interpreter(self) -> InterpreterVersion {
        self.interpreter
    }

    /// The selected numerical semantics version.
    pub closed spec fn spec_numerical_semantics(self) -> NumericalSemanticsVersion {
        self.numerical_semantics
    }

    /// The selected canonical-encoding version.
    pub closed spec fn spec_canonical_encoding(self) -> CanonicalEncodingVersion {
        self.canonical_encoding
    }

    /// Constructs an explicit version selection.
    pub fn new(
        rule_ir: RuleIrVersion,
        interpreter: InterpreterVersion,
        numerical_semantics: NumericalSemanticsVersion,
        canonical_encoding: CanonicalEncodingVersion,
    ) -> (r: Self)
        ensures
            r.spec_rule_ir() == rule_ir,
            r.spec_interpreter() == interpreter,
            r.spec_numerical_semantics() == numerical_semantics,
            r.spec_canonical_encoding() == canonical_encoding,
    {
        ModelVersions { rule_ir, interpreter, numerical_semantics, canonical_encoding }
    }

    /// The selected rule IR version.
    pub fn rule_ir(self) -> (r: RuleIrVersion)
        ensures
            r == self.spec_rule_ir(),
    {
        self.rule_ir
    }

    /// The selected interpreter version.
    pub fn interpreter(self) -> (r: InterpreterVersion)
        ensures
            r == self.spec_interpreter(),
    {
        self.interpreter
    }

    /// The selected numerical semantics version.
    pub fn numerical_semantics(self) -> (r: NumericalSemanticsVersion)
        ensures
            r == self.spec_numerical_semantics(),
    {
        self.numerical_semantics
    }

    /// The selected canonical-encoding version.
    pub fn canonical_encoding(self) -> (r: CanonicalEncodingVersion)
        ensures
            r == self.spec_canonical_encoding(),
    {
        self.canonical_encoding
    }
}

impl Default for ModelVersions {
    fn default() -> (r: Self)
        ensures
            r.spec_rule_ir() == RuleIrVersion::V1,
            r.spec_interpreter() == InterpreterVersion::V1,
            r.spec_numerical_semantics() == NumericalSemanticsVersion::V1,
            r.spec_canonical_encoding() == CanonicalEncodingVersion::V1,
    {
        ModelVersions::new(
            RuleIrVersion::V1,
            InterpreterVersion::V1,
            NumericalSemanticsVersion::V1,
            CanonicalEncodingVersion::V1,
        )
    }
}

/// A SHA-256 content address for canonical model-artifact bytes.
#[derive(Clone, Copy, Debug, Eq, Hash, Ord, PartialEq, PartialOrd)]
pub struct ModelDigest([u8; 32]);

impl View for ModelDigest {
    type V = Seq<u8>;

    closed spec fn view(&self) -> Seq<u8> {
        self.0@
    }
}

impl ModelDigest {
    /// Constructs a digest value from its fixed-width representation.
    pub fn from_bytes(bytes: [u8; 32]) -> (r: Self)
        ensures
            r@ == bytes@,
    {
        ModelDigest(bytes)
    }

    /// The fixed-width representation.
    pub fn as_bytes(&self) -> (r: &[u8; 32])
        ensures
            r@ == self@,
    {
        &self.0
    }

    /// The fixed-width representation.
    pub fn into_bytes(self) -> (r: [u8; 32])
        ensures
            r@ == self@,
    {
        self.0
    }

    /// The lowercase hexadecimal text of the digest.
    pub fn to_hex(self) -> (r: String)
        ensures
            r@ == hex_text(self@),
    {
        to_hex(self.0.as_slice())
    }
}

/// The byte is ASCII whitespace, as string trimming sees it: space, tab, line feed,
/// vertical tab, form feed or carriage return.
pub open spec fn ascii_whitespace(b: u8) -> bool {
    b == 0x20 || (0x09 <= b && b <= 0x0d)
}

/// The text is a canonical unit identity: non-empty, all ASCII, and with no whitespace at
/// either end (it equals its trimmed form). Whitespace inside, as in `kg m`, is allowed.
pub open spec fn valid_unit(bytes: Seq<u8>) -> bool {
    &&& bytes.len() > 0
    &&& forall|i: int| 0 <= i < bytes.len() ==> #[trigger] bytes[i] < 0x80
    &&& !ascii_whitespace(bytes[0])
    &&& !ascii_whitespace(bytes[bytes.len() - 1])
}

/// A canonical unit identity. Units remain opaque to the substance-agnostic engine.
#[derive(Debug, Eq, Ord, PartialOrd)]
pub struct UnitId(String);

impl View for UnitId {
    type V = Seq<char>;

    closed spec fn view(&self) -> Seq<char> {
        self.0@
    }
}

impl UnitId {
    /// Parses a unit identity: accepted exactly when the value is non-empty, all ASCII and
    /// without leading or trailing whitespace (it equals its trimmed form).
    pub fn parse(value: &str) -> (r: Result<Self, ModelArtifactError>)
        ensures
            valid_unit(value.spec_bytes()) ==> {
                &&& r matches Ok(u)
                &&& u@ == value@
            },
            !valid_unit(value.spec_bytes()) ==> {
                &&& r matches Err(ModelArtifactError::InvalidUnitIdentity { value: v })
                &&& v@ == value@
            },
    {
        let bytes = value.as_bytes();
        let mut valid = bytes.len() > 0;
        let mut i: usize = 0;
        while i < bytes.len()
            invariant
                i <= bytes@.len(),
                bytes@ == value.spec_bytes(),
                valid == (bytes@.len() > 0 && forall|k: int| 0 <= k < i ==> #[trigger] bytes@[k] < 0x80),
            decreases bytes.len() - i,
        {
            if bytes[i] >= 0x80u8 {
                valid = false;
            }
            i = i + 1;
        }
        if valid {
            let first = bytes[0];
            let last = bytes[bytes.len() - 1];
            if first == 0x20u8 || (0x09u8 <= first && first <= 0x0du8) || last == 0x20u8 || (0x09u8
                <= last && last <= 0x0du8) {
                valid = false;
            }
        }
        if !valid {
            return Err(ModelArtifactError::InvalidUnitIdentity { value: crate::text::text_of(value) });
        }
        Ok(UnitId(crate::text::text_of(value)))
    }

    /// The identity text.
    pub fn as_str(&self) -> (r: &str)
        ensures
            r@ == self@,
    {
        self.0.as_str()
    }
}

impl Clone for UnitId {
    fn clone(&self) -> (r: Self)
        ensures
            r == *self,
    {
        UnitId(self.0.clone())
    }
}

impl PartialEq for UnitId {
    fn eq(&self, other: &Self) -> (r: bool) {
        self.0 == other.0
    }
}

impl vstd::std_specs::cmp::PartialEqSpecImpl for UnitId {
    open spec fn obeys_eq_spec() -> bool {
        true
    }

    open spec fn eq_spec(&self, other: &Self) -> bool {
        self@ == other@
    }
}

/// Reports why a complete model artifact or one of its parts could not be constructed.
#[derive(Debug, Eq, PartialEq)]
pub enum ModelArtifactError {
    /// Fires when an initial-stock value is bound to a different topology snapshot.
    InitialStocksTopologyMismatch,
    /// Fires when an initial-stock value is bound to a different registry snapshot.
    InitialStocksRegistryMismatch,
    /// Fires when no projection set (including an explicitly empty set) was supplied.
    MissingProjectionSet,
    /// Fires when a projection's rule IR version differs from the artifact selection.
    ProjectionRuleIrVersionMismatch { projection: ProjectionId },
    /// Fires when a projection's numerical version differs from the artifact selection.
    ProjectionNumericalVersionMismatch { projection: ProjectionId },
    /// Fires when a forcing does not cover the artifact horizon exactly.
    ForcingHorizonMismatch { forcing: ForcingId },
    /// Fires when a forcing identity is repeated.
    DuplicateForcing { forcing: ForcingId },
    /// Fires when an interpolation-table identity is repeated.
    DuplicateTable { table: TableId },
    /// Fires when a table's numerical semantics version differs from the artifact selection.
    TableNumericalVersionMismatch { table: TableId },
    /// Fires when a rule names an endpoint absent from the topology.
    UnknownRuleCompartment { compartment: CompartmentId },
    /// Fires when a rule is assigned to a boundary account rather than a finite compartment.
    BoundaryAccountRule { account: CompartmentId },
    /// Fires when a rule names a substance absent from the registry.
    UnknownRuleSubstance { substance: SubstanceId },
    /// Fires when two rules name the same compartment-substance coordinate.
    DuplicateRule { compartment: CompartmentId, substance: SubstanceId },
    /// Fires when a rule's IR version differs from the artifact selection.
    RuleIrVersionMismatch { compartment: CompartmentId, substance: SubstanceId },
    /// Fires when a rule's numerical version differs from the artifact selection.
    RuleNumericalVersionMismatch { compartment: CompartmentId, substance: SubstanceId },
    /// Fires when one rule parameter identity occurs twice.
    DuplicateParameter { compartment: CompartmentId, substance: SubstanceId, parameter: ParameterId },
    /// Fires when a rule parameter is NaN or infinite.
    NonFiniteParameter {
        compartment: CompartmentId,
        substance: SubstanceId,
        parameter: ParameterId,
        bits: u64,
    },
    /// Fires when an expression refers to an undeclared rule parameter.
    MissingRuleParameter { compartment: CompartmentId, substance: SubstanceId, parameter: ParameterId },
    /// Fires when an expression or partition refers to an absent forcing series.
    MissingRuleForcing { compartment: CompartmentId, substance: SubstanceId, forcing: ForcingId },
    /// Fires when an expression refers to an absent interpolation table.
    MissingRuleTable { compartment: CompartmentId, substance: SubstanceId, table: TableId },
    /// Fires when an expression refers to an absent projection specification.
    MissingRuleProjection {
        compartment: CompartmentId,
        substance: SubstanceId,
        projection: ProjectionId,
    },
    /// Fires when a unit identity is empty, non-ASCII, or padded with whitespace.
    InvalidUnitIdentity { value: String },
    /// Fires when a unit names an unmodelled substance.
    UnknownUnitSubstance { substance: SubstanceId },
    /// Fires when a substance unit is declared more than once.
    DuplicateUnit { substance: SubstanceId },
    /// Fires when a modelled substance has no unit declaration.
    MissingUnit { substance: SubstanceId },
}

/// Reports a content-address collision in an artifact archive.
#[derive(Clone, Debug, Eq, PartialEq)]
pub enum ModelArtifactArchiveError {
    /// Fires if unequal canonical artifacts produce the same digest.
    DigestCollision { digest: ModelDigest },
}

/// Parameter `j` is not finite, or repeats the identity of an earlier parameter.
pub open spec fn parameter_invalid(parameters: Seq<(ParameterId, u64)>, j: int) -> bool {
    !is_finite_bits(parameters[j].1) || exists|i: int| 0 <= i < j && parameters[i].0@ == parameters[j].0@
}

/// The canonical bits declared for parameter `x`, if declared.
pub open spec fn declared_bits(parameters: Seq<(ParameterId, u64)>, x: Seq<char>) -> Option<u64> {
    if exists|k: int| 0 <= k < parameters.len() && #[trigger] parameters[k].0@ == x {
        Some(canonical_bits(parameters[declared_at(parameters, x)].1))
    } else {
        None
    }
}

/// A position at which parameter `x` is declared, if it is declared.
pub open spec fn declared_at(parameters: Seq<(ParameterId, u64)>, x: Seq<char>) -> int {
    choose|k: int| 0 <= k < parameters.len() && #[trigger] parameters[k].0@ == x
}

impl Keyed for (ParameterId, u64) {
    open spec fn key(&self) -> Key {
        seq![self.0@]
    }

    fn compare_keys(&self, other: &Self) -> (r: KeyOrder) {
        self.0.compare_keys(&other.0)
    }
}

/// One executable rule and its immutable scalar parameters, held as canonical bit patterns.
#[derive(Debug, PartialEq, Eq)]
pub struct RuleDefinition {
    compartment: CompartmentId,
    substance: SubstanceId,
    expression: RuleExpr,
    disposition: PartitionExpr,
    parameters: Vec<(ParameterId, u64)>,
}

impl Keyed for RuleDefinition {
    open spec fn key(&self) -> Key {
        seq![self.spec_compartment()@, self.spec_substance()@]
    }

    fn compare_keys(&self, other: &Self) -> (r: KeyOrder) {
        compare_pair(
            self.compartment().as_str(),
            self.substance().as_str(),
            other.compartment().as_str(),
            other.substance().as_str(),
        )
    }
}

impl Keyed for (SubstanceId, UnitId) {
    open spec fn key(&self) -> Key {
        seq![self.0@]
    }

    fn compare_keys(&self, other: &Self) -> (r: KeyOrder) {
        proof {
            lemma_key_order_1(self.0@, other.0@);
        }
        compare_text(self.0.as_str(), other.0.as_str())
    }
}

impl RuleDefinition {
    #[verifier::type_invariant]
    closed spec fn canonical(self) -> bool {
        keys_sorted(keys_of(self.parameters@))
    }

    /// The compartment of the rule.
    pub closed spec fn spec_compartment(&self) -> CompartmentId {
        self.compartment
    }

    /// The substance of the rule.
    pub closed spec fn spec_substance(&self) -> SubstanceId {
        self.substance
    }

    /// The rule's release expression.
    pub closed spec fn spec_expression(&self) -> RuleExpr {
        self.expression
    }

    /// The rule's disposition.
    pub closed spec fn spec_disposition(&self) -> PartitionExpr {
        self.disposition
    }

    /// The parameters in canonical identity order.
    pub closed spec fn spec_parameters(&self) -> Seq<(ParameterId, u64)> {
        self.parameters@
    }

    /// Constructs a rule: parameters are canonicalised under the expression's numerical
    /// semantics, and the first one that is not finite or repeats an earlier identity is
    /// rejected.
    pub fn new(
        compartment: CompartmentId,
        substance: SubstanceId,
        expression: RuleExpr,
        disposition: PartitionExpr,
        parameters: Vec<(ParameterId, u64)>,
    ) -> (r: Result<Self, ModelArtifactError>)
        ensures
            forall|j: int|
                0 <= j < parameters@.len() && #[trigger] parameter_invalid(parameters@, j) && (forall|
                    i: int,
                | 0 <= i < j ==> !parameter_invalid(parameters@, i)) ==> r == Err::<
                    Self,
                    ModelArtifactError,
                >(
                    if !is_finite_bits(parameters@[j].1) {
                        ModelArtifactError::NonFiniteParameter {
                            compartment,
                            substance,
                            parameter: parameters@[j].0,
                            bits: parameters@[j].1,
                        }
                    } else {
                        ModelArtifactError::DuplicateParameter {
                            compartment,
                            substance,
                            parameter: parameters@[j].0,
                        }
                    },
                ),
            r is Ok <==> forall|j: int|
                0 <= j < parameters@.len() ==> !#[trigger] parameter_invalid(parameters@, j),
            r matches Ok(d) ==> {
                &&& d.spec_compartment() == compartment
                &&& d.spec_substance() == substance
                &&& d.spec_expression() == expression
                &&& d.spec_disposition() == disposition
                &&& keys_sorted(keys_of(d.spec_parameters()))
                &&& forall|x: Seq<char>| #[trigger] declared_bits(d.spec_parameters(), x) == declared_bits(parameters@, x)
            },
    {
        let semantics = expression.numerical_semantics_version();
        let ghost input = parameters@;
        let mut canonical: Vec<(ParameterId, u64)> = Vec::new();
        let mut j: usize = 0;
        while j < parameters.len()
            invariant
                j <= input.len(),
                input == parameters@,
                canonical@.len() == j,
                forall|i: int| 0 <= i < j ==> !#[trigger] parameter_invalid(input, i),
                forall|k: int|
                    0 <= k < j ==> #[trigger] canonical@[k] == (input[k].0, canonical_bits(input[k].1)),
            decreases parameters.len() - j,
        {
            let bits = parameters[j].1;
            match semantics.normalize(bits) {
                Err(_) => {
                    proof {
                        lemma_first_invalid_parameter(input, j as int);
                        assert(parameter_invalid(parameters@, j as int));
                    }
                    return Err(
                        ModelArtifactError::NonFiniteParameter {
                            compartment,
                            substance,
                            parameter: parameters[j].0.clone(),
                            bits,
                        },
                    );
                },
                Ok(normalized) => {
                    let mut k: usize = 0;
                    let mut repeated = false;
                    while k < j
                        invariant
                            k <= j,
                            j < input.len(),
                            input == parameters@,
                            repeated ==> exists|i: int| 0 <= i < j && input[i].0@ == input[j as int].0@,
                            !repeated ==> forall|i: int| 0 <= i < k ==> input[i].0@ != input[j as int].0@,
                        decreases j - k,
                    {
                        if parameters[k].0 == parameters[j].0 {
                            repeated = true;
                        }
                        k = k + 1;
                    }
                    if repeated {
                        proof {
                            lemma_first_invalid_parameter(input, j as int);
                            assert(parameter_invalid(parameters@, j as int));
                        }
                        return Err(
                            ModelArtifactError::DuplicateParameter {
                                compartment,
                                substance,
                                parameter: parameters[j].0.clone(),
                            },
                        );
                    }
                    canonical.push((parameters[j].0.clone(), normalized));
                },
            }
            j = j + 1;
        }
        let ghost unsorted = canonical@;
        proof {
            assert forall|a: int, b: int| 0 <= a < b < unsorted.len() implies #[trigger] keys_of(unsorted)[a]
                != #[trigger] keys_of(unsorted)[b] by {
                assert(!parameter_invalid(input, b));
                assert(keys_of(unsorted)[a][0] == input[a].0@);
                assert(keys_of(unsorted)[b][0] == input[b].0@);
            }
        }
        let sorted = match sort_unique(canonical) {
            Ok(v) => v,
            Err(_) => unreached(),
        };
        proof {
            lemma_permutation_contains(sorted@, unsorted);
            lemma_sorted_distinct(keys_of(sorted@));
            assert forall|x: Seq<char>| #[trigger] declared_bits(sorted@, x) == declared_bits(input, x) by {
                lemma_declared_bits(input, unsorted, sorted@, x);
            }
        }
        Ok(RuleDefinition { compartment, substance, expression, disposition, parameters: sorted })
    }

    /// The compartment of the rule.
    pub fn compartment(&self) -> (r: &CompartmentId)
        ensures
            *r == self.spec_compartment(),
    {
        &self.compartment
    }

    /// The substance of the rule.
    pub fn substance(&self) -> (r: &SubstanceId)
        ensures
            *r == self.spec_substance(),
    {
        &self.substance
    }

    /// The rule's release expression.
    pub fn expression(&self) -> (r: &RuleExpr)
        ensures
            *r == self.spec_expression(),
    {
        &self.expression
    }

    /// The rule's disposition.
    pub fn disposition(&self) -> (r: &PartitionExpr)
        ensures
            *r == self.spec_disposition(),
    {
        &self.disposition
    }

    /// The parameters as bit patterns, in canonical identity order.
    pub fn parameters(&self) -> (r: &[(ParameterId, u64)])
        ensures
            r@ == self.spec_parameters(),
    {
        self.parameters.as_slice()
    }
}

proof fn lemma_first_invalid_parameter(input: Seq<(ParameterId, u64)>, j: int)
    requires
        0 <= j < input.len(),
        parameter_invalid(input, j),
        forall|i: int| 0 <= i < j ==> !#[trigger] parameter_invalid(input, i),
    ensures
        forall|jj: int|
            0 <= jj < input.len() && #[trigger] parameter_invalid(input, jj) && (forall|i: int|
                0 <= i < jj ==> !parameter_invalid(input, i)) ==> jj == j,
{
    assert forall|jj: int|
        0 <= jj < input.len() && #[trigger] parameter_invalid(input, jj) && (forall|i: int|
            0 <= i < jj ==> !parameter_invalid(input, i)) implies jj == j by {
        if jj < j {
            assert(!parameter_invalid(input, jj));
        } else if jj > j {
            assert(!parameter_invalid(input, j));
        }
    }
}

proof fn lemma_declared_bits(
    input: Seq<(ParameterId, u64)>,
    unsorted: Seq<(ParameterId, u64)>,
    sorted: Seq<(ParameterId, u64)>,
    x: Seq<char>,
)
    requires
        unsorted.len() == input.len(),
        forall|k: int|
            0 <= k < input.len() ==> #[trigger] unsorted[k] == (input[k].0, canonical_bits(input[k].1)),
        forall|j: int| 0 <= j < input.len() ==> !#[trigger] parameter_invalid(input, j),
        forall|p: (ParameterId, u64)| sorted.contains(p) <==> unsorted.contains(p),
        keys_distinct(keys_of(sorted)),
    ensures
        declared_bits(sorted, x) == declared_bits(input, x),
{
    if exists|k: int| 0 <= k < input.len() && #[trigger] input[k].0@ == x {
        let c = declared_at(input, x);
        assert(unsorted.contains(unsorted[c]));
        assert(sorted.contains(unsorted[c]));
        let q = choose|q: int| 0 <= q < sorted.len() && sorted[q] == unsorted[c];
        assert(sorted[q].0@ == x);
        let d = declared_at(sorted, x);
        assert(keys_of(sorted)[d] == seq![x]);
        assert(keys_of(sorted)[q] == seq![x]);
        assert(sorted[d].1 == canonical_bits(input[c].1));
    } else {
        if exists|k: int| 0 <= k < sorted.len() && #[trigger] sorted[k].0@ == x {
            let d = choose|k: int| 0 <= k < sorted.len() && #[trigger] sorted[k].0@ == x;
            assert(sorted.contains(sorted[d]));
            assert(unsorted.contains(sorted[d]));
            let u = choose|u: int| 0 <= u < unsorted.len() && unsorted[u] == sorted[d];
            assert(input[u].0@ == x);
        }
    }
}

impl Clone for RuleDefinition {
    fn clone(&self) -> (r: Self)
        ensures
            r.spec_compartment() == self.spec_compartment(),
            r.spec_substance() == self.spec_substance(),
            r.spec_expression() == self.spec_expression(),
            r.spec_parameters() == self.spec_parameters(),
    {
        proof {
            use_type_invariant(self);
        }
        let mut parameters: Vec<(ParameterId, u64)> = Vec::new();
        let mut i: usize = 0;
        while i < self.parameters.len()
            invariant
                i <= self.parameters@.len(),
                parameters@ == self.parameters@.take(i as int),
            decreases self.parameters.len() - i,
        {
            parameters.push((self.parameters[i].0.clone(), self.parameters[i].1));
            proof {
                assert(self.parameters@.take(i + 1) =~= self.parameters@.take(i as int).push(
                    self.parameters@[i as int],
                ));
            }
            i = i + 1;
        }
        proof {
            assert(self.parameters@.take(i as int) =~= self.parameters@);
        }
        RuleDefinition {
            compartment: self.compartment.clone(),
            substance: self.substance.clone(),
            expression: self.expression.clone(),
            disposition: self.disposition.clone(),
            parameters,
        }
    }
}

/// A value that carries an identity text.
trait Named {
    spec fn name_text(&self) -> Seq<char>;

    fn name(&self) -> (r: &str)
        ensures
            r@ == self.name_text(),
    ;
}

impl Named for ParameterId {
    spec fn name_text(&self) -> Seq<char> {
        self@
    }

    fn name(&self) -> (r: &str) {
        self.as_str()
    }
}

impl Named for ForcingId {
    spec fn name_text(&self) -> Seq<char> {
        self@
    }

    fn name(&self) -> (r: &str) {
        self.as_str()
    }
}

impl Named for TableId {
    spec fn name_text(&self) -> Seq<char> {
        self@
    }

    fn name(&self) -> (r: &str) {
        self.as_str()
    }
}

impl Named for ProjectionId {
    spec fn name_text(&self) -> Seq<char> {
        self@
    }

    fn name(&self) -> (r: &str) {
        self.as_str()
    }
}

impl Named for (ParameterId, u64) {
    spec fn name_text(&self) -> Seq<char> {
        self.0@
    }

    fn name(&self) -> (r: &str) {
        self.0.as_str()
    }
}

impl Named for ForcingSeries {
    spec fn name_text(&self) -> Seq<char> {
        self.spec_id()@
    }

    fn name(&self) -> (r: &str) {
        self.id().as_str()
    }
}

impl Named for InterpolationTable {
    spec fn name_text(&self) -> Seq<char> {
        self.spec_id()@
    }

    fn name(&self) -> (r: &str) {
        self.id().as_str()
    }
}

impl Named for ProjectionSpec {
    spec fn name_text(&self) -> Seq<char> {
        spec_projection_id(*self)@
    }

    fn name(&self) -> (r: &str) {
        self.id().as_str()
    }
}

/// The texts of a sequence of string slices.
pub open spec fn str_texts<'a>(s: Seq<&'a str>) -> Seq<Seq<char>> {
    s.map_values(|x: &'a str| x@)
}

/// The identity texts of the forcing series, in order.
pub open spec fn forcing_names(s: Seq<ForcingSeries>) -> Seq<Seq<char>> {
    s.map_values(|x: ForcingSeries| x.spec_id()@)
}

/// The identity texts of the interpolation tables, in order.
pub open spec fn table_names(s: Seq<InterpolationTable>) -> Seq<Seq<char>> {
    s.map_values(|x: InterpolationTable| x.spec_id()@)
}

/// The identity texts of the projection specifications, in order.
pub open spec fn projection_names(s: Seq<ProjectionSpec>) -> Seq<Seq<char>> {
    s.map_values(|x: ProjectionSpec| spec_projection_id(x)@)
}

/// The identity texts of the declared parameters, in order.
pub open spec fn parameter_names(s: Seq<(ParameterId, u64)>) -> Seq<Seq<char>> {
    s.map_values(|x: (ParameterId, u64)| x.0@)
}

/// The names of `items`.
fn names_of<T: Named>(items: &[T]) -> (r: Vec<&str>)
    ensures
        str_texts(r@) == items@.map_values(|x: T| x.name_text()),
{
    let mut out: Vec<&str> = Vec::new();
    let mut i: usize = 0;
    while i < items.len()
        invariant
            i <= items@.len(),
            str_texts(out@) == items@.take(i as int).map_values(|x: T| x.name_text()),
        decreases items.len() - i,
    {
        out.push(items[i].name());
        proof {
            assert(items@.take(i + 1).map_values(|x: T| x.name_text()) =~= items@.take(
                i as int,
            ).map_values(|x: T| x.name_text()).push(items@[i as int].name_text()));
            assert(str_texts(out@) =~= str_texts(out@.drop_last()).push(out@.last()@));
        }
        i = i + 1;
    }
    proof {
        assert(items@.take(i as int) =~= items@);
    }
    out
}

/// Whether `x` occurs among `names`.
fn listed(names: &Vec<&str>, x: &str) -> (r: bool)
    ensures
        r == str_texts(names@).contains(x@),
{
    let mut k: usize = 0;
    while k < names.len()
        invariant
            k <= names@.len(),
            forall|j: int| 0 <= j < k ==> names@[j]@ != x@,
        decreases names.len() - k,
    {
        if compare_text(names[k], x) == KeyOrder::Equal {
            proof {
                assert(str_texts(names@)[k as int] == x@);
            }
            return true;
        }
        k = k + 1;
    }
    proof {
        if str_texts(names@).contains(x@) {
            let j = choose|j: int| 0 <= j < str_texts(names@).len() && str_texts(names@)[j] == x@;
            assert(names@[j]@ == x@);
        }
    }
    false
}

/// `x` is the least text, in canonical order, that occurs in `refs` but not in `declared`.
pub open spec fn least_undeclared(refs: Seq<Seq<char>>, declared: Seq<Seq<char>>, x: Seq<char>) -> bool {
    &&& refs.contains(x)
    &&& !declared.contains(x)
    &&& forall|y: Seq<char>| #[trigger] refs.contains(y) && !declared.contains(y) ==> y == x || text_lt(x, y)
}

/// Every text of `refs` occurs in `declared`.
pub open spec fn all_declared(refs: Seq<Seq<char>>, declared: Seq<Seq<char>>) -> bool {
    forall|y: Seq<char>| #[trigger] refs.contains(y) ==> declared.contains(y)
}

/// The position in `names` of the least text that is not listed in `declared`.
fn least_unlisted(names: &Vec<&str>, declared: &Vec<&str>) -> (r: Option<usize>)
    ensures
        r is None <==> all_declared(str_texts(names@), str_texts(declared@)),
        r matches Some(i) ==> i < names@.len() && least_undeclared(
            str_texts(names@),
            str_texts(declared@),
            names@[i as int]@,
        ),
{
    let ghost n = str_texts(names@);
    let ghost d = str_texts(declared@);
    let mut best: Option<usize> = None;
    let mut j: usize = 0;
    while j < names.len()
        invariant
            j <= names@.len(),
            n == str_texts(names@),
            d == str_texts(declared@),
            best is None ==> forall|k: int| 0 <= k < j ==> d.contains(#[trigger] n[k]),
            best matches Some(b) ==> {
                &&& b < j
                &&& !d.contains(n[b as int])
                &&& forall|k: int|
                    0 <= k < j && !d.contains(#[trigger] n[k]) ==> n[k] == n[b as int] || text_lt(
                        n[b as int],
                        n[k],
                    )
            },
        decreases names.len() - j,
    {
        if !listed(declared, names[j]) {
            assert(n[j as int] == names@[j as int]@);
            match best {
                None => {
                    best = Some(j);
                },
                Some(b) => {
                    if compare_text(names[j], names[b]) == KeyOrder::Less {
                        proof {
                            assert forall|k: int|
                                0 <= k < j + 1 && !d.contains(#[trigger] n[k]) implies n[k] == n[j as int]
                                || text_lt(n[j as int], n[k]) by {
                                if k < j && n[k] != n[b as int] {
                                    lemma_text_lt_transitive(n[j as int], n[b as int], n[k]);
                                }
                            }
                        }
                        best = Some(j);
                    }
                },
            }
        }
        j = j + 1;
    }
    proof {
        match best {
            None => {
                assert forall|y: Seq<char>| #[trigger] n.contains(y) implies d.contains(y) by {
                    let k = choose|k: int| 0 <= k < n.len() && n[k] == y;
                }
            },
            Some(b) => {
                assert(n.contains(n[b as int]));
                assert forall|y: Seq<char>| #[trigger] n.contains(y) && !d.contains(y) implies y == n[b as int]
                    || text_lt(n[b as int], y) by {
                    let k = choose|k: int| 0 <= k < n.len() && n[k] == y;
                }
                if all_declared(n, d) {
                    assert(d.contains(n[b as int]));
                }
            },
        }
    }
    best
}

/// The identities of `kind` a rule refers to: those of its expression in pre-order, followed,
/// for forcings, by the series of an exogenous-series disposition.
pub open spec fn rule_references(rule: RuleDefinition, kind: RuleReferenceKind) -> Seq<Seq<char>> {
    rule.spec_expression().referenced(kind) + if kind == RuleReferenceKind::Forcing
        && rule.spec_disposition().node() is ExogenousSeries {
        seq![rule.spec_disposition().node()->ExogenousSeries_series@]
    } else {
        seq![]
    }
}

/// The outcome of checking a rule's references against the model's forcing series, tables and
/// projection specifications: the kinds are checked in order (parameters, forcings, tables,
/// projections), and for the first kind with an undeclared identity the least such identity is
/// reported.
pub open spec fn references_outcome(
    rule: RuleDefinition,
    forcings: Seq<ForcingSeries>,
    tables: Seq<InterpolationTable>,
    specs: Seq<ProjectionSpec>,
    r: Result<(), ModelArtifactError>,
) -> bool {
    let p = rule_references(rule, RuleReferenceKind::Parameter);
    let f = rule_references(rule, RuleReferenceKind::Forcing);
    let t = rule_references(rule, RuleReferenceKind::Table);
    let q = rule_references(rule, RuleReferenceKind::Projection);
    let dp = parameter_names(rule.spec_parameters());
    let df = forcing_names(forcings);
    let dt = table_names(tables);
    let dq = projection_names(specs);
    &&& !all_declared(p, dp) ==> {
        &&& r matches Err(ModelArtifactError::MissingRuleParameter { compartment, substance, parameter })
        &&& compartment == rule.spec_compartment()
        &&& substance == rule.spec_substance()
        &&& least_undeclared(p, dp, parameter@)
    }
    &&& all_declared(p, dp) && !all_declared(f, df) ==> {
        &&& r matches Err(ModelArtifactError::MissingRuleForcing { compartment, substance, forcing })
        &&& compartment == rule.spec_compartment()
        &&& substance == rule.spec_substance()
        &&& least_undeclared(f, df, forcing@)
    }
    &&& all_declared(p, dp) && all_declared(f, df) && !all_declared(t, dt) ==> {
        &&& r matches Err(ModelArtifactError::MissingRuleTable { compartment, substance, table })
        &&& compartment == rule.spec_compartment()
        &&& substance == rule.spec_substance()
        &&& least_undeclared(t, dt, table@)
    }
    &&& all_declared(p, dp) && all_declared(f, df) && all_declared(t, dt) && !all_declared(
        q,
        dq,
    ) ==> {
        &&& r matches Err(ModelArtifactError::MissingRuleProjection { compartment, substance, projection })
        &&& compartment == rule.spec_compartment()
        &&& substance == rule.spec_substance()
        &&& least_undeclared(q, dq, projection@)
    }
    &&& r is Ok <==> references_declared(rule, forcings, tables, specs)
}

/// Every identity the rule refers to is declared.
pub open spec fn references_declared(
    rule: RuleDefinition,
    forcings: Seq<ForcingSeries>,
    tables: Seq<InterpolationTable>,
    specs: Seq<ProjectionSpec>,
) -> bool {
    &&& all_declared(
        rule_references(rule, RuleReferenceKind::Parameter),
        parameter_names(rule.spec_parameters()),
    )
    &&& all_declared(rule_references(rule, RuleReferenceKind::Forcing), forcing_names(forcings))
    &&& all_declared(rule_references(rule, RuleReferenceKind::Table), table_names(tables))
    &&& all_declared(rule_references(rule, RuleReferenceKind::Projection), projection_names(specs))
}

/// Checks that every identity a rule refers to is declared: its parameters among its own
/// declarations, and its forcing series, interpolation tables and projections among those of the
/// model. The kinds are checked in that order, and for the first kind with an undeclared
/// identity, the least such identity is reported.
pub fn validate_rule_references(
    rule: &RuleDefinition,
    forcings: &[ForcingSeries],
    tables: &[InterpolationTable],
    projections: &ProjectionSet,
) -> (r: Result<(), ModelArtifactError>)
    ensures
        references_outcome(*rule, forcings@, tables@, projections.spec_specifications(), r),
{
    let mut refs = ExpressionReferences {
        parameters: Vec::new(),
        forcings: Vec::new(),
        tables: Vec::new(),
        projections: Vec::new(),
    };
    proof {
        assert(texts(refs.parameters@) =~= Seq::<Seq<char>>::empty());
        assert(texts(refs.forcings@) =~= Seq::<Seq<char>>::empty());
        assert(texts(refs.tables@) =~= Seq::<Seq<char>>::empty());
        assert(texts(refs.projections@) =~= Seq::<Seq<char>>::empty());
    }
    collect_references(rule.expression(), &mut refs);
    let ghost expression_forcings = texts(refs.forcings@);
    match rule.disposition().view() {
        PartitionExprView::ExogenousSeries { series, .. } => {
            refs.forcings.push(series.id().clone());
            proof {
                assert(texts(refs.forcings@) =~= expression_forcings.push(series@));
            }
        },
        _ => {},
    }
    proof {
        assert(texts(refs.forcings@) =~= rule_references(*rule, RuleReferenceKind::Forcing));
    }
    let compartment = rule.compartment();
    let substance = rule.substance();

    let names = names_of(refs.parameters.as_slice());
    let declared = names_of(rule.parameters());
    proof {
        assert(str_texts(names@) =~= rule_references(*rule, RuleReferenceKind::Parameter));
        assert(str_texts(declared@) =~= parameter_names(rule.spec_parameters()));
    }
    match least_unlisted(&names, &declared) {
        Some(i) => {
            proof {
                assert(str_texts(names@)[i as int] == names@[i as int]@);
                assert(refs.parameters@.map_values(|x| Named::name_text(&x))[i as int] == refs.parameters@[i as int]@);
            }
            return Err(
                ModelArtifactError::MissingRuleParameter {
                    compartment: compartment.clone(),
                    substance: substance.clone(),
                    parameter: refs.parameters[i].clone(),
                },
            );
        },
        None => {},
    }

    let names = names_of(refs.forcings.as_slice());
    let declared = names_of(forcings);
    proof {
        assert(str_texts(names@) =~= rule_references(*rule, RuleReferenceKind::Forcing));
        assert(str_texts(declared@) =~= forcing_names(forcings@));
    }
    match least_unlisted(&names, &declared) {
        Some(i) => {
            proof {
                assert(str_texts(names@)[i as int] == names@[i as int]@);
                assert(refs.forcings@.map_values(|x| Named::name_text(&x))[i as int] == refs.forcings@[i as int]@);
            }
            return Err(
                ModelArtifactError::MissingRuleForcing {
                    compartment: compartment.clone(),
                    substance: substance.clone(),
                    forcing: refs.forcings[i].clone(),
                },
            );
        },
        None => {},
    }

    let names = names_of(refs.tables.as_slice());
    let declared = names_of(tables);
    proof {
        assert(str_texts(names@) =~= rule_references(*rule, RuleReferenceKind::Table));
        assert(str_texts(declared@) =~= table_names(tables@));
    }
    match least_unlisted(&names, &declared) {
        Some(i) => {
            proof {
                assert(str_texts(names@)[i as int] == names@[i as int]@);
                assert(refs.tables@.map_values(|x| Named::name_text(&x))[i as int] == refs.tables@[i as int]@);
            }
            return Err(
                ModelArtifactError::MissingRuleTable {
                    compartment: compartment.clone(),
                    substance: substance.clone(),
                    table: refs.tables[i].clone(),
                },
            );
        },
        None => {},
    }

    let names = names_of(refs.projections.as_slice());
    let declared = names_of(projections.iter());
    proof {
        assert(str_texts(names@) =~= rule_references(*rule, RuleReferenceKind::Projection));
        assert(str_texts(declared@) =~= projection_names(projections.spec_specifications()));
    }
    match least_unlisted(&names, &declared) {
        Some(i) => {
            proof {
                assert(str_texts(names@)[i as int] == names@[i as int]@);
                assert(refs.projections@.map_values(|x| Named::name_text(&x))[i as int] == refs.projections@[i as int]@);
            }
            return Err(
                ModelArtifactError::MissingRuleProjection {
                    compartment: compartment.clone(),
                    substance: substance.clone(),
                    projection: refs.projections[i].clone(),
                },
            );
        },
        None => {},
    }
    Ok(())
}

} // verus!
