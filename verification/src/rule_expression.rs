//! Typed rule expressions: versioned leaves combined by closed scalar and truth combinators.

use vstd::prelude::*;

use crate::numerical_semantics::{
    canonical_bits, is_finite_bits, NumericalSemanticsVersion, ScalarComparison,
};
use crate::rule_reference::{
    expression_kind, spec_expression_kind, ExpressionValueKind, ForcingId, ForcingRef, InputRef,
    InterpolatedTableRef, ParameterId, ParameterRef, ProjectionId, ProjectionRef,
    RuleReferenceKind, TableId,
};
use crate::versions::RuleIrVersion;

verus! {

/// The deepest expression tree that may be constructed.
pub const MAX_RULE_EXPR_DEPTH: usize = 128;

/// A finite literal under a numerical semantics, held as its canonical binary64 bit pattern.
#[derive(Clone, Copy, Debug, Eq, PartialEq, Structural)]
pub struct FiniteLiteral {
    semantics: NumericalSemanticsVersion,
    bits: u64,
}

impl FiniteLiteral {
    /// The bit pattern of the literal.
    pub closed spec fn spec_bits(self) -> u64 {
        self.bits
    }

    /// The numerical semantics of the literal.
    pub closed spec fn spec_semantics(self) -> NumericalSemanticsVersion {
        self.semantics
    }

    /// Creates a finite literal: NaN and infinities are rejected, negative zero becomes zero.
    pub fn new(semantics: NumericalSemanticsVersion, bits: u64) -> (r: Result<Self, RuleExprError>)
        ensures
            r is Ok <==> is_finite_bits(bits),
            r matches Ok(l) ==> l.spec_bits() == canonical_bits(bits) && l.spec_semantics() == semantics,
            r matches Err(e) ==> e == (RuleExprError::NonFiniteLiteral { bits }),
    {
        match semantics.normalize(bits) {
            Ok(b) => Ok(FiniteLiteral { semantics, bits: b }),
            Err(_) => Err(RuleExprError::NonFiniteLiteral { bits }),
        }
    }

    /// The numerical semantics of the literal.
    pub fn numerical_semantics_version(self) -> (r: NumericalSemanticsVersion)
        ensures
            r == self.spec_semantics(),
    {
        self.semantics
    }

    /// The canonical bit pattern of the literal.
    pub fn bits(self) -> (r: u64)
        ensures
            r == self.spec_bits(),
    {
        self.bits
    }
}

/// A combinator of rule expressions.
#[derive(Clone, Copy, Debug, Eq, PartialEq, Structural)]
pub enum RuleExprOperation {
    Add,
    Subtract,
    Multiply,
    Divide,
    Minimum,
    Maximum,
    Clamp,
    Comparison,
    Select,
    InterpolatedTable,
}

/// An operand position of a combinator.
#[derive(Clone, Copy, Debug, Eq, PartialEq, Structural)]
pub enum RuleExprOperand {
    Left,
    Right,
    Value,
    Lower,
    Upper,
    Condition,
    WhenTrue,
    WhenFalse,
    Input,
}

/// Reports why a rule expression could not be constructed.
#[derive(Clone, Copy, Debug, PartialEq, Eq, Structural)]
pub enum RuleExprError {
    /// Fires when a literal is NaN or infinite.
    NonFiniteLiteral { bits: u64 },
    /// Fires when an operation receives an operand of the wrong expression value kind.
    IncompatibleValueKind {
        operation: RuleExprOperation,
        position: RuleExprOperand,
        expected: ExpressionValueKind,
        actual: ExpressionValueKind,
    },
    /// Fires when constructing an expression would exceed the maximum checked depth.
    ExpressionTooDeep { maximum: usize, attempted: usize },
}

/// The node of a rule expression: a typed leaf or a combinator over sub-expressions.
#[derive(Debug, Eq, PartialEq)]
pub enum RuleNode {
    Input(InputRef),
    Parameter(ParameterRef),
    Forcing(ForcingRef),
    Projection(ProjectionRef),
    Literal(FiniteLiteral),
    Add(Box<RuleExpr>, Box<RuleExpr>),
    Subtract(Box<RuleExpr>, Box<RuleExpr>),
    Multiply(Box<RuleExpr>, Box<RuleExpr>),
    Divide(Box<RuleExpr>, Box<RuleExpr>),
    Minimum(Box<RuleExpr>, Box<RuleExpr>),
    Maximum(Box<RuleExpr>, Box<RuleExpr>),
    Clamp { value: Box<RuleExpr>, lower: Box<RuleExpr>, upper: Box<RuleExpr> },
    Comparison { comparison: ScalarComparison, lhs: Box<RuleExpr>, rhs: Box<RuleExpr> },
    Select { condition: Box<RuleExpr>, when_true: Box<RuleExpr>, when_false: Box<RuleExpr> },
    InterpolatedTable { table: InterpolatedTableRef, input: Box<RuleExpr> },
}

/// A versioned, typed, depth-bounded rule expression.
#[derive(Debug, Eq, PartialEq)]
pub struct RuleExpr {
    rule_ir: RuleIrVersion,
    semantics: NumericalSemanticsVersion,
    node: RuleNode,
    depth: usize,
}

/// The value kind an expression with node `n` evaluates to.
pub open spec fn node_kind(n: RuleNode) -> ExpressionValueKind {
    match n {
        RuleNode::Input(r) => r@.1,
        RuleNode::Parameter(r) => r@.1,
        RuleNode::Projection(r) => spec_expression_kind(r@.1),
        RuleNode::Comparison { .. } => ExpressionValueKind::Truth,
        _ => ExpressionValueKind::Scalar,
    }
}

/// The larger of two depths.
pub open spec fn max_depth(a: nat, b: nat) -> nat {
    if a >= b {
        a
    } else {
        b
    }
}

/// The depth an expression with node `n` has: one for a leaf, else one more than its deepest
/// child.
pub open spec fn node_depth(n: RuleNode) -> nat {
    match n {
        RuleNode::Add(l, r) | RuleNode::Subtract(l, r) | RuleNode::Multiply(l, r)
        | RuleNode::Divide(l, r) | RuleNode::Minimum(l, r) | RuleNode::Maximum(l, r) => max_depth(
            l.spec_depth(),
            r.spec_depth(),
        ) + 1,
        RuleNode::Clamp { value, lower, upper } => max_depth(
            max_depth(value.spec_depth(), lower.spec_depth()),
            upper.spec_depth(),
        ) + 1,
        RuleNode::Comparison { lhs, rhs, .. } => max_depth(lhs.spec_depth(), rhs.spec_depth()) + 1,
        RuleNode::Select { condition, when_true, when_false } => max_depth(
            max_depth(condition.spec_depth(), when_true.spec_depth()),
            when_false.spec_depth(),
        ) + 1,
        RuleNode::InterpolatedTable { input, .. } => input.spec_depth() + 1,
        _ => 1,
    }
}

/// A borrowed view of an expression's node.
pub enum RuleExprView<'a> {
    Input(&'a InputRef),
    Parameter(&'a ParameterRef),
    Forcing(&'a ForcingRef),
    Projection(&'a ProjectionRef),
    Literal(FiniteLiteral),
    Add { lhs: &'a RuleExpr, rhs: &'a RuleExpr },
    Subtract { lhs: &'a RuleExpr, rhs: &'a RuleExpr },
    Multiply { lhs: &'a RuleExpr, rhs: &'a RuleExpr },
    Divide { lhs: &'a RuleExpr, rhs: &'a RuleExpr },
    Minimum { lhs: &'a RuleExpr, rhs: &'a RuleExpr },
    Maximum { lhs: &'a RuleExpr, rhs: &'a RuleExpr },
    Clamp { value: &'a RuleExpr, lower: &'a RuleExpr, upper: &'a RuleExpr },
    Comparison { comparison: ScalarComparison, lhs: &'a RuleExpr, rhs: &'a RuleExpr },
    Select { condition: &'a RuleExpr, when_true: &'a RuleExpr, when_false: &'a RuleExpr },
    InterpolatedTable { table: &'a InterpolatedTableRef, input: &'a RuleExpr },
}

/// The view `v` presents node `n` faithfully.
pub open spec fn view_of_node(v: RuleExprView, n: RuleNode) -> bool {
    match (v, n) {
        (RuleExprView::Input(a), RuleNode::Input(b)) => *a == b,
        (RuleExprView::Parameter(a), RuleNode::Parameter(b)) => *a == b,
        (RuleExprView::Forcing(a), RuleNode::Forcing(b)) => *a == b,
        (RuleExprView::Projection(a), RuleNode::Projection(b)) => *a == b,
        (RuleExprView::Literal(a), RuleNode::Literal(b)) => a == b,
        (RuleExprView::Add { lhs, rhs }, RuleNode::Add(l, r)) => *lhs == *l && *rhs == *r,
        (RuleExprView::Subtract { lhs, rhs }, RuleNode::Subtract(l, r)) => *lhs == *l && *rhs == *r,
        (RuleExprView::Multiply { lhs, rhs }, RuleNode::Multiply(l, r)) => *lhs == *l && *rhs == *r,
        (RuleExprView::Divide { lhs, rhs }, RuleNode::Divide(l, r)) => *lhs == *l && *rhs == *r,
        (RuleExprView::Minimum { lhs, rhs }, RuleNode::Minimum(l, r)) => *lhs == *l && *rhs == *r,
        (RuleExprView::Maximum { lhs, rhs }, RuleNode::Maximum(l, r)) => *lhs == *l && *rhs == *r,
        (
            RuleExprView::Clamp { value, lower, upper },
            RuleNode::Clamp { value: v2, lower: l2, upper: u2 },
        ) => *value == *v2 && *lower == *l2 && *upper == *u2,
        (
            RuleExprView::Comparison { comparison, lhs, rhs },
            RuleNode::Comparison { comparison: c2, lhs: l2, rhs: r2 },
        ) => comparison == c2 && *lhs == *l2 && *rhs == *r2,
        (
            RuleExprView::Select { condition, when_true, when_false },
            RuleNode::Select { condition: c2, when_true: t2, when_false: f2 },
        ) => *condition == *c2 && *when_true == *t2 && *when_false == *f2,
        (
            RuleExprView::InterpolatedTable { table, input },
            RuleNode::InterpolatedTable { table: t2, input: i2 },
        ) => *table == t2 && *input == *i2,
        _ => false,
    }
}

/// The error, if any, that requiring kind `expected` of `operand` reports.
pub open spec fn kind_error(
    operand: RuleExpr,
    operation: RuleExprOperation,
    position: RuleExprOperand,
    expected: ExpressionValueKind,
) -> Option<RuleExprError> {
    if operand.kind() == expected {
        None
    } else {
        Some(
            RuleExprError::IncompatibleValueKind {
                operation,
                position,
                expected,
                actual: operand.kind(),
            },
        )
    }
}

/// The depth of a combinator over sub-expressions of the given maximum depth, if admissible.
pub open spec fn depth_error(child_max: nat) -> Option<RuleExprError> {
    if child_max + 1 > MAX_RULE_EXPR_DEPTH {
        Some(
            RuleExprError::ExpressionTooDeep {
                maximum: MAX_RULE_EXPR_DEPTH,
                attempted: (child_max + 1) as usize,
            },
        )
    } else {
        None
    }
}

/// The outcome of combining operands checked in order: the first failing check decides.
pub open spec fn combine_outcome(
    checks: Seq<Option<RuleExprError>>,
    r: Result<RuleExpr, RuleExprError>,
) -> bool {
    if exists|i: int| 0 <= i < checks.len() && #[trigger] checks[i] is Some {
        let i = choose|i: int|
            0 <= i < checks.len() && #[trigger] checks[i] is Some && forall|j: int|
                0 <= j < i ==> #[trigger] checks[j] is None;
        r == Err::<RuleExpr, RuleExprError>(checks[i]->0)
    } else {
        r is Ok
    }
}

impl RuleExpr {
    #[verifier::type_invariant]
    closed spec fn bounded(self) -> bool {
        &&& 1 <= self.depth <= MAX_RULE_EXPR_DEPTH
        &&& self.depth == node_depth(self.node)
    }

    /// The node of the expression.
    pub closed spec fn node(&self) -> RuleNode {
        self.node
    }

    /// The depth of the expression tree (a leaf has depth one).
    pub closed spec fn spec_depth(&self) -> nat {
        self.depth as nat
    }

    /// The rule IR version of the expression.
    pub closed spec fn spec_rule_ir(&self) -> RuleIrVersion {
        self.rule_ir
    }

    /// The numerical semantics of the expression.
    pub closed spec fn spec_semantics(&self) -> NumericalSemanticsVersion {
        self.semantics
    }

    /// The value kind of the expression.
    pub open spec fn kind(&self) -> ExpressionValueKind {
        node_kind(self.node())
    }

    /// The leaves of the expression in pre-order (left to right), where a table lookup is taken
    /// as a leaf whose input is not entered.
    pub open spec fn leaves(&self) -> Seq<RuleNode>
        decreases self,
    {
        match self.node() {
            RuleNode::Add(l, r) => l.leaves() + r.leaves(),
            RuleNode::Subtract(l, r) => l.leaves() + r.leaves(),
            RuleNode::Multiply(l, r) => l.leaves() + r.leaves(),
            RuleNode::Divide(l, r) => l.leaves() + r.leaves(),
            RuleNode::Minimum(l, r) => l.leaves() + r.leaves(),
            RuleNode::Maximum(l, r) => l.leaves() + r.leaves(),
            RuleNode::Comparison { lhs, rhs, .. } => lhs.leaves() + rhs.leaves(),
            RuleNode::Clamp { value, lower, upper } => value.leaves() + lower.leaves()
                + upper.leaves(),
            RuleNode::Select { condition, when_true, when_false } => condition.leaves()
                + when_true.leaves() + when_false.leaves(),
            _ => seq![self.node()],
        }
    }

    /// The identities of `kind` the expression refers to, in pre-order (left to right); a table
    /// lookup names its table before the references of its input.
    pub open spec fn referenced(&self, kind: RuleReferenceKind) -> Seq<Seq<char>>
        decreases self,
    {
        match self.node() {
            RuleNode::Parameter(r) => if kind == RuleReferenceKind::Parameter {
                seq![r@.0]
            } else {
                seq![]
            },
            RuleNode::Forcing(r) => if kind == RuleReferenceKind::Forcing {
                seq![r@]
            } else {
                seq![]
            },
            RuleNode::Projection(r) => if kind == RuleReferenceKind::Projection {
                seq![r@.0]
            } else {
                seq![]
            },
            RuleNode::InterpolatedTable { table, input } => (if kind == RuleReferenceKind::Table {
                seq![table@]
            } else {
                seq![]
            }) + input.referenced(kind),
            RuleNode::Add(l, r) => l.referenced(kind) + r.referenced(kind),
            RuleNode::Subtract(l, r) => l.referenced(kind) + r.referenced(kind),
            RuleNode::Multiply(l, r) => l.referenced(kind) + r.referenced(kind),
            RuleNode::Divide(l, r) => l.referenced(kind) + r.referenced(kind),
            RuleNode::Minimum(l, r) => l.referenced(kind) + r.referenced(kind),
            RuleNode::Maximum(l, r) => l.referenced(kind) + r.referenced(kind),
            RuleNode::Comparison { lhs, rhs, .. } => lhs.referenced(kind) + rhs.referenced(kind),
            RuleNode::Clamp { value, lower, upper } => value.referenced(kind) + lower.referenced(kind)
                + upper.referenced(kind),
            RuleNode::Select { condition, when_true, when_false } => condition.referenced(kind)
                + when_true.referenced(kind) + when_false.referenced(kind),
            _ => seq![],
        }
    }

    fn leaf(rule_ir: RuleIrVersion, semantics: NumericalSemanticsVersion, node: RuleNode) -> (r: Self)
        requires
            node_depth(node) == 1,
        ensures
            r.node() == node,
            r.spec_depth() == 1,
            r.spec_rule_ir() == rule_ir,
            r.spec_semantics() == semantics,
    {
        RuleExpr { rule_ir, semantics, node, depth: 1 }
    }

    /// An input leaf.
    pub fn input(rule_ir: RuleIrVersion, semantics: NumericalSemanticsVersion, reference: InputRef) -> (r: Self)
        ensures
            r.node() == RuleNode::Input(reference),
            r.spec_depth() == 1,
            r.spec_rule_ir() == rule_ir,
            r.spec_semantics() == semantics,
    {
        Self::leaf(rule_ir, semantics, RuleNode::Input(reference))
    }

    /// A parameter leaf.
    pub fn parameter(
        rule_ir: RuleIrVersion,
        semantics: NumericalSemanticsVersion,
        reference: ParameterRef,
    ) -> (r: Self)
        ensures
            r.node() == RuleNode::Parameter(reference),
            r.spec_depth() == 1,
            r.spec_rule_ir() == rule_ir,
            r.spec_semantics() == semantics,
    {
        Self::leaf(rule_ir, semantics, RuleNode::Parameter(reference))
    }

    /// A forcing leaf.
    pub fn forcing(rule_ir: RuleIrVersion, semantics: NumericalSemanticsVersion, reference: ForcingRef) -> (r: Self)
        ensures
            r.node() == RuleNode::Forcing(reference),
            r.spec_depth() == 1,
            r.spec_rule_ir() == rule_ir,
            r.spec_semantics() == semantics,
    {
        Self::leaf(rule_ir, semantics, RuleNode::Forcing(reference))
    }

    /// A projection leaf.
    pub fn projection(
        rule_ir: RuleIrVersion,
        semantics: NumericalSemanticsVersion,
        reference: ProjectionRef,
    ) -> (r: Self)
        ensures
            r.node() == RuleNode::Projection(reference),
            r.spec_depth() == 1,
            r.spec_rule_ir() == rule_ir,
            r.spec_semantics() == semantics,
    {
        Self::leaf(rule_ir, semantics, RuleNode::Projection(reference))
    }

    /// A literal leaf, given the literal's binary64 bit pattern.
    pub fn literal(rule_ir: RuleIrVersion, semantics: NumericalSemanticsVersion, bits: u64) -> (r: Result<Self, RuleExprError>)
        ensures
            r is Ok <==> is_finite_bits(bits),
            r matches Ok(e) ==> (e.node() matches RuleNode::Literal(l) && l.spec_bits()
                == canonical_bits(bits)) && e.spec_depth() == 1 && e.spec_rule_ir() == rule_ir
                && e.spec_semantics() == semantics,
            r matches Err(e) ==> e == (RuleExprError::NonFiniteLiteral { bits }),
    {
        match FiniteLiteral::new(semantics, bits) {
            Ok(l) => Ok(Self::leaf(rule_ir, semantics, RuleNode::Literal(l))),
            Err(e) => Err(e),
        }
    }

    fn require(
        expr: &Self,
        operation: RuleExprOperation,
        position: RuleExprOperand,
        expected: ExpressionValueKind,
    ) -> (r: Result<(), RuleExprError>)
        ensures
            r is Ok <==> kind_error(*expr, operation, position, expected) is None,
            r matches Err(e) ==> kind_error(*expr, operation, position, expected) == Some(e),
    {
        let actual = expr.value_kind();
        if actual == expected {
            Ok(())
        } else {
            Err(RuleExprError::IncompatibleValueKind { operation, position, expected, actual })
        }
    }

    fn composite_depth(child_max: usize) -> (r: Result<usize, RuleExprError>)
        requires
            child_max <= MAX_RULE_EXPR_DEPTH,
        ensures
            r is Ok <==> depth_error(child_max as nat) is None,
            r matches Ok(d) ==> d == child_max + 1,
            r matches Err(e) ==> depth_error(child_max as nat) == Some(e),
    {
        let attempted = child_max + 1;
        if attempted > MAX_RULE_EXPR_DEPTH {
            Err(RuleExprError::ExpressionTooDeep { maximum: MAX_RULE_EXPR_DEPTH, attempted })
        } else {
            Ok(attempted)
        }
    }

    fn depth_of(&self) -> (r: usize)
        ensures
            r == self.spec_depth(),
            r == node_depth(self.node()),
            1 <= r <= MAX_RULE_EXPR_DEPTH,
    {
        proof {
            use_type_invariant(self);
        }
        self.depth
    }

    fn binary(lhs: Self, rhs: Self, operation: RuleExprOperation) -> (r: Result<Self, RuleExprError>)
        requires
            operation == RuleExprOperation::Add || operation == RuleExprOperation::Subtract
                || operation == RuleExprOperation::Multiply || operation == RuleExprOperation::Divide
                || operation == RuleExprOperation::Minimum || operation == RuleExprOperation::Maximum,
        ensures
            combine_outcome(
                seq![
                    kind_error(lhs, operation, RuleExprOperand::Left, ExpressionValueKind::Scalar),
                    kind_error(rhs, operation, RuleExprOperand::Right, ExpressionValueKind::Scalar),
                    depth_error(max_depth(lhs.spec_depth(), rhs.spec_depth())),
                ],
                r,
            ),
            r matches Ok(e) ==> e.spec_depth() == max_depth(lhs.spec_depth(), rhs.spec_depth()) + 1
                && e.spec_rule_ir() == lhs.spec_rule_ir() && e.spec_semantics()
                == lhs.spec_semantics() && e.node() == binary_node(operation, lhs, rhs),
    {
        let ghost checks = seq![
            kind_error(lhs, operation, RuleExprOperand::Left, ExpressionValueKind::Scalar),
            kind_error(rhs, operation, RuleExprOperand::Right, ExpressionValueKind::Scalar),
            depth_error(max_depth(lhs.spec_depth(), rhs.spec_depth())),
        ];
        match Self::require(&lhs, operation, RuleExprOperand::Left, ExpressionValueKind::Scalar) {
            Err(e) => {
                assert(checks[0] is Some);
                return Err(e);
            },
            Ok(()) => {},
        }
        match Self::require(&rhs, operation, RuleExprOperand::Right, ExpressionValueKind::Scalar) {
            Err(e) => {
                assert(checks[1] is Some && checks[0] is None);
                return Err(e);
            },
            Ok(()) => {},
        }
        let dl = lhs.depth_of();
        let dr = rhs.depth_of();
        let m = if dl >= dr { dl } else { dr };
        let depth = match Self::composite_depth(m) {
            Err(e) => {
                assert(checks[2] is Some && checks[0] is None && checks[1] is None);
                return Err(e);
            },
            Ok(d) => d,
        };
        assert(!(exists|i: int| 0 <= i < checks.len() && #[trigger] checks[i] is Some)) by {
            assert forall|i: int| 0 <= i < checks.len() implies #[trigger] checks[i] is None by {}
        }
        let rule_ir = lhs.rule_ir;
        let semantics = lhs.semantics;
        let l = Box::new(lhs);
        let r = Box::new(rhs);
        let node = match operation {
            RuleExprOperation::Add => RuleNode::Add(l, r),
            RuleExprOperation::Subtract => RuleNode::Subtract(l, r),
            RuleExprOperation::Multiply => RuleNode::Multiply(l, r),
            RuleExprOperation::Divide => RuleNode::Divide(l, r),
            RuleExprOperation::Minimum => RuleNode::Minimum(l, r),
            _ => RuleNode::Maximum(l, r),
        };
        Ok(RuleExpr { rule_ir, semantics, node, depth })
    }

    /// An ordered scalar addition.
    pub fn add(lhs: Self, rhs: Self) -> (r: Result<Self, RuleExprError>)
        ensures
            combine_outcome(
                seq![
                    kind_error(lhs, RuleExprOperation::Add, RuleExprOperand::Left, ExpressionValueKind::Scalar),
                    kind_error(rhs, RuleExprOperation::Add, RuleExprOperand::Right, ExpressionValueKind::Scalar),
                    depth_error(max_depth(lhs.spec_depth(), rhs.spec_depth())),
                ],
                r,
            ),
            r matches Ok(e) ==> e.spec_depth() == max_depth(lhs.spec_depth(), rhs.spec_depth()) + 1
                && e.spec_rule_ir() == lhs.spec_rule_ir() && e.spec_semantics()
                == lhs.spec_semantics() && e.node() == RuleNode::Add(Box::new(lhs), Box::new(rhs)),
    {
        Self::binary(lhs, rhs, RuleExprOperation::Add)
    }

    /// An ordered scalar subtraction.
    pub fn subtract(lhs: Self, rhs: Self) -> (r: Result<Self, RuleExprError>)
        ensures
            combine_outcome(
                seq![
                    kind_error(lhs, RuleExprOperation::Subtract, RuleExprOperand::Left, ExpressionValueKind::Scalar),
                    kind_error(rhs, RuleExprOperation::Subtract, RuleExprOperand::Right, ExpressionValueKind::Scalar),
                    depth_error(max_depth(lhs.spec_depth(), rhs.spec_depth())),
                ],
                r,
            ),
            r matches Ok(e) ==> e.spec_depth() == max_depth(lhs.spec_depth(), rhs.spec_depth()) + 1
                && e.spec_rule_ir() == lhs.spec_rule_ir() && e.spec_semantics()
                == lhs.spec_semantics() && e.node() == RuleNode::Subtract(Box::new(lhs), Box::new(rhs)),
    {
        Self::binary(lhs, rhs, RuleExprOperation::Subtract)
    }

    /// An ordered scalar multiplication.
    pub fn multiply(lhs: Self, rhs: Self) -> (r: Result<Self, RuleExprError>)
        ensures
            combine_outcome(
                seq![
                    kind_error(lhs, RuleExprOperation::Multiply, RuleExprOperand::Left, ExpressionValueKind::Scalar),
                    kind_error(rhs, RuleExprOperation::Multiply, RuleExprOperand::Right, ExpressionValueKind::Scalar),
                    depth_error(max_depth(lhs.spec_depth(), rhs.spec_depth())),
                ],
                r,
            ),
            r matches Ok(e) ==> e.spec_depth() == max_depth(lhs.spec_depth(), rhs.spec_depth()) + 1
                && e.spec_rule_ir() == lhs.spec_rule_ir() && e.spec_semantics()
                == lhs.spec_semantics() && e.node() == RuleNode::Multiply(Box::new(lhs), Box::new(rhs)),
    {
        Self::binary(lhs, rhs, RuleExprOperation::Multiply)
    }

    /// An ordered scalar division.
    pub fn divide(lhs: Self, rhs: Self) -> (r: Result<Self, RuleExprError>)
        ensures
            combine_outcome(
                seq![
                    kind_error(lhs, RuleExprOperation::Divide, RuleExprOperand::Left, ExpressionValueKind::Scalar),
                    kind_error(rhs, RuleExprOperation::Divide, RuleExprOperand::Right, ExpressionValueKind::Scalar),
                    depth_error(max_depth(lhs.spec_depth(), rhs.spec_depth())),
                ],
                r,
            ),
            r matches Ok(e) ==> e.spec_depth() == max_depth(lhs.spec_depth(), rhs.spec_depth()) + 1
                && e.spec_rule_ir() == lhs.spec_rule_ir() && e.spec_semantics()
                == lhs.spec_semantics() && e.node() == RuleNode::Divide(Box::new(lhs), Box::new(rhs)),
    {
        Self::binary(lhs, rhs, RuleExprOperation::Divide)
    }

    /// An ordered scalar minimum.
    pub fn minimum(lhs: Self, rhs: Self) -> (r: Result<Self, RuleExprError>)
        ensures
            combine_outcome(
                seq![
                    kind_error(lhs, RuleExprOperation::Minimum, RuleExprOperand::Left, ExpressionValueKind::Scalar),
                    kind_error(rhs, RuleExprOperation::Minimum, RuleExprOperand::Right, ExpressionValueKind::Scalar),
                    depth_error(max_depth(lhs.spec_depth(), rhs.spec_depth())),
                ],
                r,
            ),
            r matches Ok(e) ==> e.spec_depth() == max_depth(lhs.spec_depth(), rhs.spec_depth()) + 1
                && e.spec_rule_ir() == lhs.spec_rule_ir() && e.spec_semantics()
                == lhs.spec_semantics() && e.node() == RuleNode::Minimum(Box::new(lhs), Box::new(rhs)),
    {
        Self::binary(lhs, rhs, RuleExprOperation::Minimum)
    }

    /// An ordered scalar maximum.
    pub fn maximum(lhs: Self, rhs: Self) -> (r: Result<Self, RuleExprError>)
        ensures
            combine_outcome(
                seq![
                    kind_error(lhs, RuleExprOperation::Maximum, RuleExprOperand::Left, ExpressionValueKind::Scalar),
                    kind_error(rhs, RuleExprOperation::Maximum, RuleExprOperand::Right, ExpressionValueKind::Scalar),
                    depth_error(max_depth(lhs.spec_depth(), rhs.spec_depth())),
                ],
                r,
            ),
            r matches Ok(e) ==> e.spec_depth() == max_depth(lhs.spec_depth(), rhs.spec_depth()) + 1
                && e.spec_rule_ir() == lhs.spec_rule_ir() && e.spec_semantics()
                == lhs.spec_semantics() && e.node() == RuleNode::Maximum(Box::new(lhs), Box::new(rhs)),
    {
        Self::binary(lhs, rhs, RuleExprOperation::Maximum)
    }

    /// An ordered scalar clamp of `value` into `[lower, upper]`.
    pub fn clamp(value: Self, lower: Self, upper: Self) -> (r: Result<Self, RuleExprError>)
        ensures
            combine_outcome(
                seq![
                    kind_error(value, RuleExprOperation::Clamp, RuleExprOperand::Value, ExpressionValueKind::Scalar),
                    kind_error(lower, RuleExprOperation::Clamp, RuleExprOperand::Lower, ExpressionValueKind::Scalar),
                    kind_error(upper, RuleExprOperation::Clamp, RuleExprOperand::Upper, ExpressionValueKind::Scalar),
                    depth_error(max_depth(max_depth(value.spec_depth(), lower.spec_depth()), upper.spec_depth())),
                ],
                r,
            ),
            r matches Ok(e) ==> e.spec_depth() == max_depth(max_depth(value.spec_depth(), lower.spec_depth()), upper.spec_depth()) + 1
                && e.spec_rule_ir() == value.spec_rule_ir() && e.spec_semantics()
                == value.spec_semantics() && e.node() == (RuleNode::Clamp {
                    value: Box::new(value),
                    lower: Box::new(lower),
                    upper: Box::new(upper),
                }),
    {
        let ghost checks = seq![
            kind_error(value, RuleExprOperation::Clamp, RuleExprOperand::Value, ExpressionValueKind::Scalar),
            kind_error(lower, RuleExprOperation::Clamp, RuleExprOperand::Lower, ExpressionValueKind::Scalar),
            kind_error(upper, RuleExprOperation::Clamp, RuleExprOperand::Upper, ExpressionValueKind::Scalar),
            depth_error(max_depth(max_depth(value.spec_depth(), lower.spec_depth()), upper.spec_depth())),
        ];
        match Self::require(&value, RuleExprOperation::Clamp, RuleExprOperand::Value, ExpressionValueKind::Scalar) {
            Err(e) => {
                assert(checks[0] is Some);
                return Err(e);
            },
            Ok(()) => {},
        }
        match Self::require(&lower, RuleExprOperation::Clamp, RuleExprOperand::Lower, ExpressionValueKind::Scalar) {
            Err(e) => {
                assert(checks[1] is Some && checks[0] is None);
                return Err(e);
            },
            Ok(()) => {},
        }
        match Self::require(&upper, RuleExprOperation::Clamp, RuleExprOperand::Upper, ExpressionValueKind::Scalar) {
            Err(e) => {
                assert(checks[2] is Some && checks[0] is None && checks[1] is None);
                return Err(e);
            },
            Ok(()) => {},
        }
        let dv = value.depth_of();
        let dl = lower.depth_of();
        let du = upper.depth_of();
        let m1 = if dv >= dl { dv } else { dl };
        let m = if m1 >= du { m1 } else { du };
        let depth = match Self::composite_depth(m) {
            Err(e) => {
                assert(checks[3] is Some && checks[0] is None && checks[1] is None && checks[2] is None);
                return Err(e);
            },
            Ok(d) => d,
        };
        assert(!(exists|i: int| 0 <= i < checks.len() && #[trigger] checks[i] is Some)) by {
            assert forall|i: int| 0 <= i < checks.len() implies #[trigger] checks[i] is None by {}
        }
        let rule_ir = value.rule_ir;
        let semantics = value.semantics;
        Ok(RuleExpr {
            rule_ir,
            semantics,
            node: RuleNode::Clamp { value: Box::new(value), lower: Box::new(lower), upper: Box::new(upper) },
            depth,
        })
    }

    /// An ordered scalar comparison, evaluating to a truth value.
    pub fn comparison(comparison: ScalarComparison, lhs: Self, rhs: Self) -> (r: Result<Self, RuleExprError>)
        ensures
            combine_outcome(
                seq![
                    kind_error(lhs, RuleExprOperation::Comparison, RuleExprOperand::Left, ExpressionValueKind::Scalar),
                    kind_error(rhs, RuleExprOperation::Comparison, RuleExprOperand::Right, ExpressionValueKind::Scalar),
                    depth_error(max_depth(lhs.spec_depth(), rhs.spec_depth())),
                ],
                r,
            ),
            r matches Ok(e) ==> e.spec_depth() == max_depth(lhs.spec_depth(), rhs.spec_depth()) + 1
                && e.spec_rule_ir() == lhs.spec_rule_ir() && e.spec_semantics()
                == lhs.spec_semantics() && e.node() == (RuleNode::Comparison {
                    comparison,
                    lhs: Box::new(lhs),
                    rhs: Box::new(rhs),
                }),
    {
        let ghost checks = seq![
            kind_error(lhs, RuleExprOperation::Comparison, RuleExprOperand::Left, ExpressionValueKind::Scalar),
            kind_error(rhs, RuleExprOperation::Comparison, RuleExprOperand::Right, ExpressionValueKind::Scalar),
            depth_error(max_depth(lhs.spec_depth(), rhs.spec_depth())),
        ];
        match Self::require(&lhs, RuleExprOperation::Comparison, RuleExprOperand::Left, ExpressionValueKind::Scalar) {
            Err(e) => {
                assert(checks[0] is Some);
                return Err(e);
            },
            Ok(()) => {},
        }
        match Self::require(&rhs, RuleExprOperation::Comparison, RuleExprOperand::Right, ExpressionValueKind::Scalar) {
            Err(e) => {
                assert(checks[1] is Some && checks[0] is None);
                return Err(e);
            },
            Ok(()) => {},
        }
        let dl = lhs.depth_of();
        let dr = rhs.depth_of();
        let m = if dl >= dr { dl } else { dr };
        let depth = match Self::composite_depth(m) {
            Err(e) => {
                assert(checks[2] is Some && checks[0] is None && checks[1] is None);
                return Err(e);
            },
            Ok(d) => d,
        };
        assert(!(exists|i: int| 0 <= i < checks.len() && #[trigger] checks[i] is Some)) by {
            assert forall|i: int| 0 <= i < checks.len() implies #[trigger] checks[i] is None by {}
        }
        let rule_ir = lhs.rule_ir;
        let semantics = lhs.semantics;
        Ok(RuleExpr {
            rule_ir,
            semantics,
            node: RuleNode::Comparison { comparison, lhs: Box::new(lhs), rhs: Box::new(rhs) },
            depth,
        })
    }

    /// A truth-directed scalar selection.
    pub fn select(condition: Self, when_true: Self, when_false: Self) -> (r: Result<Self, RuleExprError>)
        ensures
            combine_outcome(
                seq![
                    kind_error(condition, RuleExprOperation::Select, RuleExprOperand::Condition, ExpressionValueKind::Truth),
                    kind_error(when_true, RuleExprOperation::Select, RuleExprOperand::WhenTrue, ExpressionValueKind::Scalar),
                    kind_error(when_false, RuleExprOperation::Select, RuleExprOperand::WhenFalse, ExpressionValueKind::Scalar),
                    depth_error(max_depth(max_depth(condition.spec_depth(), when_true.spec_depth()), when_false.spec_depth())),
                ],
                r,
            ),
            r matches Ok(e) ==> e.spec_depth() == max_depth(max_depth(condition.spec_depth(), when_true.spec_depth()), when_false.spec_depth()) + 1
                && e.spec_rule_ir() == condition.spec_rule_ir() && e.spec_semantics()
                == condition.spec_semantics() && e.node() == (RuleNode::Select {
                    condition: Box::new(condition),
                    when_true: Box::new(when_true),
                    when_false: Box::new(when_false),
                }),
    {
        let ghost checks = seq![
            kind_error(condition, RuleExprOperation::Select, RuleExprOperand::Condition, ExpressionValueKind::Truth),
            kind_error(when_true, RuleExprOperation::Select, RuleExprOperand::WhenTrue, ExpressionValueKind::Scalar),
            kind_error(when_false, RuleExprOperation::Select, RuleExprOperand::WhenFalse, ExpressionValueKind::Scalar),
            depth_error(max_depth(max_depth(condition.spec_depth(), when_true.spec_depth()), when_false.spec_depth())),
        ];
        match Self::require(&condition, RuleExprOperation::Select, RuleExprOperand::Condition, ExpressionValueKind::Truth) {
            Err(e) => {
                assert(checks[0] is Some);
                return Err(e);
            },
            Ok(()) => {},
        }
        match Self::require(&when_true, RuleExprOperation::Select, RuleExprOperand::WhenTrue, ExpressionValueKind::Scalar) {
            Err(e) => {
                assert(checks[1] is Some && checks[0] is None);
                return Err(e);
            },
            Ok(()) => {},
        }
        match Self::require(&when_false, RuleExprOperation::Select, RuleExprOperand::WhenFalse, ExpressionValueKind::Scalar) {
            Err(e) => {
                assert(checks[2] is Some && checks[0] is None && checks[1] is None);
                return Err(e);
            },
            Ok(()) => {},
        }
        let dc = condition.depth_of();
        let dt = when_true.depth_of();
        let df = when_false.depth_of();
        let m1 = if dc >= dt { dc } else { dt };
        let m = if m1 >= df { m1 } else { df };
        let depth = match Self::composite_depth(m) {
            Err(e) => {
                assert(checks[3] is Some && checks[0] is None && checks[1] is None && checks[2] is None);
                return Err(e);
            },
            Ok(d) => d,
        };
        assert(!(exists|i: int| 0 <= i < checks.len() && #[trigger] checks[i] is Some)) by {
            assert forall|i: int| 0 <= i < checks.len() implies #[trigger] checks[i] is None by {}
        }
        let rule_ir = condition.rule_ir;
        let semantics = condition.semantics;
        Ok(RuleExpr {
            rule_ir,
            semantics,
            node: RuleNode::Select {
                condition: Box::new(condition),
                when_true: Box::new(when_true),
                when_false: Box::new(when_false),
            },
            depth,
        })
    }

    /// A typed interpolation-table lookup.
    pub fn interpolated_table(table: InterpolatedTableRef, input: Self) -> (r: Result<Self, RuleExprError>)
        ensures
            combine_outcome(
                seq![
                    kind_error(input, RuleExprOperation::InterpolatedTable, RuleExprOperand::Input, ExpressionValueKind::Scalar),
                    depth_error(input.spec_depth()),
                ],
                r,
            ),
            r matches Ok(e) ==> e.spec_depth() == input.spec_depth() + 1
                && e.spec_rule_ir() == input.spec_rule_ir() && e.spec_semantics()
                == input.spec_semantics() && e.node() == (RuleNode::InterpolatedTable {
                    table,
                    input: Box::new(input),
                }),
    {
        let ghost checks = seq![
            kind_error(input, RuleExprOperation::InterpolatedTable, RuleExprOperand::Input, ExpressionValueKind::Scalar),
            depth_error(input.spec_depth()),
        ];
        match Self::require(&input, RuleExprOperation::InterpolatedTable, RuleExprOperand::Input, ExpressionValueKind::Scalar) {
            Err(e) => {
                assert(checks[0] is Some);
                return Err(e);
            },
            Ok(()) => {},
        }
        let d = input.depth_of();
        let depth = match Self::composite_depth(d) {
            Err(e) => {
                assert(checks[1] is Some && checks[0] is None);
                return Err(e);
            },
            Ok(d) => d,
        };
        assert(!(exists|i: int| 0 <= i < checks.len() && #[trigger] checks[i] is Some)) by {
            assert forall|i: int| 0 <= i < checks.len() implies #[trigger] checks[i] is None by {}
        }
        let rule_ir = input.rule_ir;
        let semantics = input.semantics;
        Ok(RuleExpr {
            rule_ir,
            semantics,
            node: RuleNode::InterpolatedTable { table, input: Box::new(input) },
            depth,
        })
    }

    /// The value kind of the expression.
    pub fn value_kind(&self) -> (r: ExpressionValueKind)
        ensures
            r == self.kind(),
    {
        match &self.node {
            RuleNode::Input(r) => r.value_kind(),
            RuleNode::Parameter(r) => r.value_kind(),
            RuleNode::Projection(r) => expression_kind(r.value_kind()),
            RuleNode::Comparison { .. } => ExpressionValueKind::Truth,
            _ => ExpressionValueKind::Scalar,
        }
    }

    /// The rule IR version of the expression.
    pub fn rule_ir_version(&self) -> (r: RuleIrVersion)
        ensures
            r == self.spec_rule_ir(),
    {
        self.rule_ir
    }

    /// The numerical semantics of the expression.
    pub fn numerical_semantics_version(&self) -> (r: NumericalSemanticsVersion)
        ensures
            r == self.spec_semantics(),
    {
        self.semantics
    }

    /// The depth of the expression tree: one for a leaf, else one more than the depth of its
    /// deepest child (the children [`RuleExpr::view`] shows); never more than the maximum.
    pub fn depth(&self) -> (r: usize)
        ensures
            r == self.spec_depth(),
            r == node_depth(self.node()),
            1 <= r <= MAX_RULE_EXPR_DEPTH,
    {
        self.depth_of()
    }

    /// A borrowed view of the expression's node.
    pub fn view(&self) -> (r: RuleExprView<'_>)
        ensures
            view_of_node(r, self.node()),
    {
        match &self.node {
            RuleNode::Input(r) => RuleExprView::Input(r),
            RuleNode::Parameter(r) => RuleExprView::Parameter(r),
            RuleNode::Forcing(r) => RuleExprView::Forcing(r),
            RuleNode::Projection(r) => RuleExprView::Projection(r),
            RuleNode::Literal(v) => RuleExprView::Literal(*v),
            RuleNode::Add(l, r) => RuleExprView::Add { lhs: l, rhs: r },
            RuleNode::Subtract(l, r) => RuleExprView::Subtract { lhs: l, rhs: r },
            RuleNode::Multiply(l, r) => RuleExprView::Multiply { lhs: l, rhs: r },
            RuleNode::Divide(l, r) => RuleExprView::Divide { lhs: l, rhs: r },
            RuleNode::Minimum(l, r) => RuleExprView::Minimum { lhs: l, rhs: r },
            RuleNode::Maximum(l, r) => RuleExprView::Maximum { lhs: l, rhs: r },
            RuleNode::Clamp { value, lower, upper } => RuleExprView::Clamp { value, lower, upper },
            RuleNode::Comparison { comparison, lhs, rhs } => RuleExprView::Comparison {
                comparison: *comparison,
                lhs,
                rhs,
            },
            RuleNode::Select { condition, when_true, when_false } => RuleExprView::Select {
                condition,
                when_true,
                when_false,
            },
            RuleNode::InterpolatedTable { table, input } => RuleExprView::InterpolatedTable {
                table,
                input,
            },
        }
    }
}

/// An expression has at least one leaf.
pub proof fn lemma_leaves_nonempty(e: RuleExpr)
    ensures
        e.leaves().len() >= 1,
    decreases e,
{
    match e.node {
        RuleNode::Add(l, r) | RuleNode::Subtract(l, r) | RuleNode::Multiply(l, r)
        | RuleNode::Divide(l, r) | RuleNode::Minimum(l, r) | RuleNode::Maximum(l, r) => {
            lemma_leaves_nonempty(*l);
        },
        RuleNode::Comparison { lhs, .. } => {
            lemma_leaves_nonempty(*lhs);
        },
        RuleNode::Clamp { value, .. } => {
            lemma_leaves_nonempty(*value);
        },
        RuleNode::Select { condition, .. } => {
            lemma_leaves_nonempty(*condition);
        },
        _ => {},
    }
}

/// The node a binary combinator builds.
pub open spec fn binary_node(operation: RuleExprOperation, lhs: RuleExpr, rhs: RuleExpr) -> RuleNode {
    match operation {
        RuleExprOperation::Add => RuleNode::Add(Box::new(lhs), Box::new(rhs)),
        RuleExprOperation::Subtract => RuleNode::Subtract(Box::new(lhs), Box::new(rhs)),
        RuleExprOperation::Multiply => RuleNode::Multiply(Box::new(lhs), Box::new(rhs)),
        RuleExprOperation::Divide => RuleNode::Divide(Box::new(lhs), Box::new(rhs)),
        RuleExprOperation::Minimum => RuleNode::Minimum(Box::new(lhs), Box::new(rhs)),
        _ => RuleNode::Maximum(Box::new(lhs), Box::new(rhs)),
    }
}


/// A node-for-node copy of `e`.
fn copy_expr(e: &RuleExpr) -> (r: RuleExpr)
    ensures
        r == *e,
    decreases e,
{
    proof {
        use_type_invariant(e);
    }
    let node = match &e.node {
        RuleNode::Input(x) => RuleNode::Input(x.clone()),
        RuleNode::Parameter(x) => RuleNode::Parameter(x.clone()),
        RuleNode::Forcing(x) => RuleNode::Forcing(x.clone()),
        RuleNode::Projection(x) => RuleNode::Projection(x.clone()),
        RuleNode::Literal(x) => RuleNode::Literal(*x),
        RuleNode::Add(l, r) => RuleNode::Add(Box::new(copy_expr(l)), Box::new(copy_expr(r))),
        RuleNode::Subtract(l, r) => RuleNode::Subtract(Box::new(copy_expr(l)), Box::new(copy_expr(r))),
        RuleNode::Multiply(l, r) => RuleNode::Multiply(Box::new(copy_expr(l)), Box::new(copy_expr(r))),
        RuleNode::Divide(l, r) => RuleNode::Divide(Box::new(copy_expr(l)), Box::new(copy_expr(r))),
        RuleNode::Minimum(l, r) => RuleNode::Minimum(Box::new(copy_expr(l)), Box::new(copy_expr(r))),
        RuleNode::Maximum(l, r) => RuleNode::Maximum(Box::new(copy_expr(l)), Box::new(copy_expr(r))),
        RuleNode::Clamp { value, lower, upper } => RuleNode::Clamp {
            value: Box::new(copy_expr(value)),
            lower: Box::new(copy_expr(lower)),
            upper: Box::new(copy_expr(upper)),
        },
        RuleNode::Comparison { comparison, lhs, rhs } => RuleNode::Comparison {
            comparison: *comparison,
            lhs: Box::new(copy_expr(lhs)),
            rhs: Box::new(copy_expr(rhs)),
        },
        RuleNode::Select { condition, when_true, when_false } => RuleNode::Select {
            condition: Box::new(copy_expr(condition)),
            when_true: Box::new(copy_expr(when_true)),
            when_false: Box::new(copy_expr(when_false)),
        },
        RuleNode::InterpolatedTable { table, input } => RuleNode::InterpolatedTable {
            table: table.clone(),
            input: Box::new(copy_expr(input)),
        },
    };
    RuleExpr { rule_ir: e.rule_ir, semantics: e.semantics, node, depth: e.depth }
}

impl Clone for RuleExpr {
    fn clone(&self) -> (r: Self)
        ensures
            r == *self,
    {
        copy_expr(self)
    }
}

/// The identity texts of a sequence of identities.
pub open spec fn texts<T: View<V = Seq<char>>>(s: Seq<T>) -> Seq<Seq<char>> {
    s.map_values(|x: T| x@)
}

/// The identities an expression refers to, by kind, in the order of [`RuleExpr::referenced`].
pub(crate) struct ExpressionReferences {
    pub parameters: Vec<ParameterId>,
    pub forcings: Vec<ForcingId>,
    pub tables: Vec<TableId>,
    pub projections: Vec<ProjectionId>,
}

/// Appends the references of `e` to `refs`.
pub(crate) fn collect_references(e: &RuleExpr, refs: &mut ExpressionReferences)
    ensures
        texts(final(refs).parameters@) == texts(old(refs).parameters@) + e.referenced(
            RuleReferenceKind::Parameter,
        ),
        texts(final(refs).forcings@) == texts(old(refs).forcings@) + e.referenced(RuleReferenceKind::Forcing),
        texts(final(refs).tables@) == texts(old(refs).tables@) + e.referenced(RuleReferenceKind::Table),
        texts(final(refs).projections@) == texts(old(refs).projections@) + e.referenced(
            RuleReferenceKind::Projection,
        ),
    decreases e,
{
    let ghost old_parameters = texts(refs.parameters@);
    let ghost old_forcings = texts(refs.forcings@);
    let ghost old_tables = texts(refs.tables@);
    let ghost old_projections = texts(refs.projections@);
    match &e.node {
        RuleNode::Add(l, r) => {
            collect_references(l, refs);
            collect_references(r, refs);
            proof {
                assert(texts(refs.parameters@) =~= old_parameters + l.referenced(RuleReferenceKind::Parameter) + r.referenced(RuleReferenceKind::Parameter));
                assert(texts(refs.forcings@) =~= old_forcings + l.referenced(RuleReferenceKind::Forcing) + r.referenced(RuleReferenceKind::Forcing));
                assert(texts(refs.tables@) =~= old_tables + l.referenced(RuleReferenceKind::Table) + r.referenced(RuleReferenceKind::Table));
                assert(texts(refs.projections@) =~= old_projections + l.referenced(RuleReferenceKind::Projection) + r.referenced(RuleReferenceKind::Projection));
            }
        },
        RuleNode::Subtract(l, r) => {
            collect_references(l, refs);
            collect_references(r, refs);
            proof {
                assert(texts(refs.parameters@) =~= old_parameters + l.referenced(RuleReferenceKind::Parameter) + r.referenced(RuleReferenceKind::Parameter));
                assert(texts(refs.forcings@) =~= old_forcings + l.referenced(RuleReferenceKind::Forcing) + r.referenced(RuleReferenceKind::Forcing));
                assert(texts(refs.tables@) =~= old_tables + l.referenced(RuleReferenceKind::Table) + r.referenced(RuleReferenceKind::Table));
                assert(texts(refs.projections@) =~= old_projections + l.referenced(RuleReferenceKind::Projection) + r.referenced(RuleReferenceKind::Projection));
            }
        },
        RuleNode::Multiply(l, r) => {
            collect_references(l, refs);
            collect_references(r, refs);
            proof {
                assert(texts(refs.parameters@) =~= old_parameters + l.referenced(RuleReferenceKind::Parameter) + r.referenced(RuleReferenceKind::Parameter));
                assert(texts(refs.forcings@) =~= old_forcings + l.referenced(RuleReferenceKind::Forcing) + r.referenced(RuleReferenceKind::Forcing));
                assert(texts(refs.tables@) =~= old_tables + l.referenced(RuleReferenceKind::Table) + r.referenced(RuleReferenceKind::Table));
                assert(texts(refs.projections@) =~= old_projections + l.referenced(RuleReferenceKind::Projection) + r.referenced(RuleReferenceKind::Projection));
            }
        },
        RuleNode::Divide(l, r) => {
            collect_references(l, refs);
            collect_references(r, refs);
            proof {
                assert(texts(refs.parameters@) =~= old_parameters + l.referenced(RuleReferenceKind::Parameter) + r.referenced(RuleReferenceKind::Parameter));
                assert(texts(refs.forcings@) =~= old_forcings + l.referenced(RuleReferenceKind::Forcing) + r.referenced(RuleReferenceKind::Forcing));
                assert(texts(refs.tables@) =~= old_tables + l.referenced(RuleReferenceKind::Table) + r.referenced(RuleReferenceKind::Table));
                assert(texts(refs.projections@) =~= old_projections + l.referenced(RuleReferenceKind::Projection) + r.referenced(RuleReferenceKind::Projection));
            }
        },
        RuleNode::Minimum(l, r) => {
            collect_references(l, refs);
            collect_references(r, refs);
            proof {
                assert(texts(refs.parameters@) =~= old_parameters + l.referenced(RuleReferenceKind::Parameter) + r.referenced(RuleReferenceKind::Parameter));
                assert(texts(refs.forcings@) =~= old_forcings + l.referenced(RuleReferenceKind::Forcing) + r.referenced(RuleReferenceKind::Forcing));
                assert(texts(refs.tables@) =~= old_tables + l.referenced(RuleReferenceKind::Table) + r.referenced(RuleReferenceKind::Table));
                assert(texts(refs.projections@) =~= old_projections + l.referenced(RuleReferenceKind::Projection) + r.referenced(RuleReferenceKind::Projection));
            }
        },
        RuleNode::Maximum(l, r) => {
            collect_references(l, refs);
            collect_references(r, refs);
            proof {
                assert(texts(refs.parameters@) =~= old_parameters + l.referenced(RuleReferenceKind::Parameter) + r.referenced(RuleReferenceKind::Parameter));
                assert(texts(refs.forcings@) =~= old_forcings + l.referenced(RuleReferenceKind::Forcing) + r.referenced(RuleReferenceKind::Forcing));
                assert(texts(refs.tables@) =~= old_tables + l.referenced(RuleReferenceKind::Table) + r.referenced(RuleReferenceKind::Table));
                assert(texts(refs.projections@) =~= old_projections + l.referenced(RuleReferenceKind::Projection) + r.referenced(RuleReferenceKind::Projection));
            }
        },
        RuleNode::Comparison { lhs, rhs, .. } => {
            collect_references(lhs, refs);
            collect_references(rhs, refs);
            proof {
                assert(texts(refs.parameters@) =~= old_parameters + lhs.referenced(RuleReferenceKind::Parameter) + rhs.referenced(RuleReferenceKind::Parameter));
                assert(texts(refs.forcings@) =~= old_forcings + lhs.referenced(RuleReferenceKind::Forcing) + rhs.referenced(RuleReferenceKind::Forcing));
                assert(texts(refs.tables@) =~= old_tables + lhs.referenced(RuleReferenceKind::Table) + rhs.referenced(RuleReferenceKind::Table));
                assert(texts(refs.projections@) =~= old_projections + lhs.referenced(RuleReferenceKind::Projection) + rhs.referenced(RuleReferenceKind::Projection));
            }
        },
        RuleNode::Clamp { value, lower, upper } => {
            collect_references(value, refs);
            collect_references(lower, refs);
            collect_references(upper, refs);
            proof {
                assert(texts(refs.parameters@) =~= old_parameters + value.referenced(RuleReferenceKind::Parameter) + lower.referenced(RuleReferenceKind::Parameter) + upper.referenced(RuleReferenceKind::Parameter));
                assert(texts(refs.forcings@) =~= old_forcings + value.referenced(RuleReferenceKind::Forcing) + lower.referenced(RuleReferenceKind::Forcing) + upper.referenced(RuleReferenceKind::Forcing));
                assert(texts(refs.tables@) =~= old_tables + value.referenced(RuleReferenceKind::Table) + lower.referenced(RuleReferenceKind::Table) + upper.referenced(RuleReferenceKind::Table));
                assert(texts(refs.projections@) =~= old_projections + value.referenced(RuleReferenceKind::Projection) + lower.referenced(RuleReferenceKind::Projection) + upper.referenced(RuleReferenceKind::Projection));
            }
        },
        RuleNode::Select { condition, when_true, when_false } => {
            collect_references(condition, refs);
            collect_references(when_true, refs);
            collect_references(when_false, refs);
            proof {
                assert(texts(refs.parameters@) =~= old_parameters + condition.referenced(RuleReferenceKind::Parameter) + when_true.referenced(RuleReferenceKind::Parameter) + when_false.referenced(RuleReferenceKind::Parameter));
                assert(texts(refs.forcings@) =~= old_forcings + condition.referenced(RuleReferenceKind::Forcing) + when_true.referenced(RuleReferenceKind::Forcing) + when_false.referenced(RuleReferenceKind::Forcing));
                assert(texts(refs.tables@) =~= old_tables + condition.referenced(RuleReferenceKind::Table) + when_true.referenced(RuleReferenceKind::Table) + when_false.referenced(RuleReferenceKind::Table));
                assert(texts(refs.projections@) =~= old_projections + condition.referenced(RuleReferenceKind::Projection) + when_true.referenced(RuleReferenceKind::Projection) + when_false.referenced(RuleReferenceKind::Projection));
            }
        },
        RuleNode::InterpolatedTable { table, input } => {
            refs.tables.push(table.id().clone());
            collect_references(input, refs);
            proof {
                assert(texts(refs.parameters@) =~= old_parameters + input.referenced(RuleReferenceKind::Parameter));
                assert(texts(refs.forcings@) =~= old_forcings + input.referenced(RuleReferenceKind::Forcing));
                assert(texts(refs.tables@) =~= old_tables + seq![table@] + input.referenced(RuleReferenceKind::Table));
                assert(texts(refs.projections@) =~= old_projections + input.referenced(RuleReferenceKind::Projection));
            }
        },
        RuleNode::Parameter(r) => {
            refs.parameters.push(r.id().clone());
            proof {
                assert(texts(refs.parameters@) =~= old_parameters + seq![r@.0]);
            }
        },
        RuleNode::Forcing(r) => {
            refs.forcings.push(r.id().clone());
            proof {
                assert(texts(refs.forcings@) =~= old_forcings + seq![r@]);
            }
        },
        RuleNode::Projection(r) => {
            refs.projections.push(r.id().clone());
            proof {
                assert(texts(refs.projections@) =~= old_projections + seq![r@.0]);
            }
        },
        _ => {},
    }
}

} // verus!
