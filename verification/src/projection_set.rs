//! Projection sets: specifications in authored evaluation order with one initial projector state
//! each, validated as a deterministic acyclic dependency order.

use vstd::prelude::*;

use crate::keyed::{
    member_keyed,
    first_key_repeat_at, keys_distinct, keys_of, keys_sorted, least_where,
    lemma_first_in_sorted_is_least, lemma_key_order_1, lemma_member_with_key_at,
    lemma_member_with_key_none, lemma_none_in_permutation, lemma_permutation_contains,
    member_with_key, sort_unique, Key, Keyed,
};
use crate::order::{compare_text, KeyOrder};
use crate::projection::{
    same_state_shape, source_kind, spec_projection_dependencies, spec_projection_id, spec_projection_kind,
    value_kind_of, InitialProjectorState, ProjectionError, ProjectionSpec, ProjectionValue,
};
use crate::projection_graph::{
    dependencies_declared, dependency_cyclic, find_cycle, identities_distinct, position_of,
    reported_cycle,
};
use crate::rule_reference::{ProjectionId, ProjectionRef, ProjectionValueKind};

verus! {

impl Keyed for ProjectionSpec {
    open spec fn key(&self) -> Key {
        seq![spec_projection_id(*self)@]
    }

    fn compare_keys(&self, other: &Self) -> (r: KeyOrder) {
        proof {
            lemma_key_order_1(spec_projection_id(*self)@, spec_projection_id(*other)@);
        }
        compare_text(self.id().as_str(), other.id().as_str())
    }
}

impl Keyed for InitialProjectorState {
    open spec fn key(&self) -> Key {
        seq![self.spec_projection()@]
    }

    fn compare_keys(&self, other: &Self) -> (r: KeyOrder) {
        proof {
            lemma_key_order_1(self.spec_projection()@, other.spec_projection()@);
        }
        compare_text(self.projection().as_str(), other.projection().as_str())
    }
}

/// `(j, t)` is the first position, in the order of `j` and then of `t`, at which `check` fails.
pub open spec fn first_failure(
    n: int,
    lens: spec_fn(int) -> int,
    check: spec_fn(int, int) -> Option<ProjectionError>,
    j: int,
    t: int,
) -> bool {
    &&& 0 <= j < n
    &&& 0 <= t < lens(j)
    &&& check(j, t) is Some
    &&& forall|j2: int, t2: int| 0 <= j2 < j && 0 <= t2 < lens(j2) ==> #[trigger] check(j2, t2) is None
    &&& forall|t2: int| 0 <= t2 < t ==> #[trigger] check(j, t2) is None
}

/// Some position fails `check`.
pub open spec fn some_failure(
    n: int,
    lens: spec_fn(int) -> int,
    check: spec_fn(int, int) -> Option<ProjectionError>,
) -> bool {
    exists|j: int, t: int| 0 <= j < n && 0 <= t < lens(j) && #[trigger] check(j, t) is Some
}

/// The number of projections the specification at `j` reads.
pub open spec fn dependency_count(specs: Seq<ProjectionSpec>, j: int) -> int {
    spec_projection_dependencies(specs[j]).len() as int
}

/// The error for dependency `t` of the specification at `j`: it must name a declared
/// projection of the declared kind.
pub open spec fn reference_check(specs: Seq<ProjectionSpec>, j: int, t: int) -> Option<ProjectionError> {
    let owner = specs[j];
    let reference = spec_projection_dependencies(owner)[t];
    match member_with_key(specs, seq![reference@.0]) {
        None => Some(
            ProjectionError::UnknownProjectionReference {
                owner: spec_projection_id(owner),
                reference: reference.spec_id(),
            },
        ),
        Some(target) => if reference@.1 != spec_projection_kind(target) {
            Some(
                ProjectionError::ProjectionReferenceKind {
                    owner: spec_projection_id(owner),
                    reference: reference.spec_id(),
                    expected: reference@.1,
                    actual: spec_projection_kind(target),
                },
            )
        } else {
            None
        },
    }
}

/// The position of the specification with identity `id`.
pub open spec fn position_with_id(specs: Seq<ProjectionSpec>, id: Seq<char>) -> int {
    choose|p: int| 0 <= p < specs.len() && spec_projection_id(specs[p])@ == id
}

/// The error for dependency `t` of the specification at `j`: it must be declared earlier.
pub open spec fn order_check(specs: Seq<ProjectionSpec>, j: int, t: int) -> Option<ProjectionError> {
    let reference = spec_projection_dependencies(specs[j])[t];
    let p = position_with_id(specs, reference@.0);
    if p >= j {
        Some(
            ProjectionError::DependencyNotEarlier {
                owner: spec_projection_id(specs[j]),
                reference: reference.spec_id(),
                owner_index: j as usize,
                reference_index: p as usize,
            },
        )
    } else {
        None
    }
}

/// The number of initial values a specification needs.
pub open spec fn initial_length(s: ProjectionSpec) -> int {
    match s {
        ProjectionSpec::BoundedLag(v) => v.spec_steps() as int,
        ProjectionSpec::OrderedRollingAggregate(v) => v.spec_window() - 1,
        ProjectionSpec::FiniteRecurrence(v) => v.spec_state_kinds().len() as int,
    }
}

/// The kind initial value `index` of a specification must have.
pub open spec fn initial_kind(s: ProjectionSpec, index: int) -> ProjectionValueKind {
    match s {
        ProjectionSpec::BoundedLag(v) => source_kind(v.spec_source()),
        ProjectionSpec::OrderedRollingAggregate(v) => source_kind(v.spec_source()),
        ProjectionSpec::FiniteRecurrence(v) => v.spec_state_kinds()[index],
    }
}

/// The initial state declared for the specification at `j`.
pub open spec fn state_of(specs: Seq<ProjectionSpec>, states: Seq<InitialProjectorState>, j: int) -> InitialProjectorState {
    member_with_key(states, specs[j].key())->0
}

/// The number of checks made on the initial state of the specification at `j`: its length, then
/// each value.
pub open spec fn state_check_count(
    specs: Seq<ProjectionSpec>,
    states: Seq<InitialProjectorState>,
    j: int,
) -> int {
    (1 + state_of(specs, states, j).spec_values().len()) as int
}

/// Check `t` on the initial state of the specification at `j`: first its length, then the kind of
/// value `t - 1`.
pub open spec fn state_check(
    specs: Seq<ProjectionSpec>,
    states: Seq<InitialProjectorState>,
    j: int,
    t: int,
) -> Option<ProjectionError> {
    let spec = specs[j];
    let values = state_of(specs, states, j).spec_values();
    if t == 0 {
        if values.len() != initial_length(spec) {
            Some(
                ProjectionError::InitialStateLength {
                    projection: spec_projection_id(spec),
                    expected: initial_length(spec) as usize,
                    actual: values.len() as usize,
                },
            )
        } else {
            None
        }
    } else if value_kind_of(values[t - 1]) != initial_kind(spec, t - 1) {
        Some(
            ProjectionError::InitialStateKind {
                projection: spec_projection_id(spec),
                index: (t - 1) as usize,
                expected: initial_kind(spec, t - 1),
                actual: value_kind_of(values[t - 1]),
            },
        )
    } else {
        None
    }
}

/// The state's projection is not declared.
pub open spec fn state_unknown(specs: Seq<ProjectionSpec>, state: InitialProjectorState) -> bool {
    !keys_of(specs).contains(state.key())
}

/// The identities of specifications and of initial states are unique and correspond one to one.
pub open spec fn catalogue_valid(specs: Seq<ProjectionSpec>, states: Seq<InitialProjectorState>) -> bool {
    &&& keys_distinct(keys_of(specs))
    &&& keys_distinct(keys_of(states))
    &&& forall|j: int| 0 <= j < specs.len() ==> keys_of(states).contains(#[trigger] specs[j].key())
    &&& forall|j: int| 0 <= j < states.len() ==> !state_unknown(specs, #[trigger] states[j])
}

/// The initial state `st` has the length and the value kinds that specification `s` needs.
pub open spec fn state_shaped(s: ProjectionSpec, st: InitialProjectorState) -> bool {
    &&& st.spec_values().len() == initial_length(s)
    &&& forall|i: int|
        0 <= i < st.spec_values().len() ==> value_kind_of(#[trigger] st.spec_values()[i])
            == initial_kind(s, i)
}

/// Every dependency of every specification names an earlier specification of the kind the
/// dependency declares.
pub open spec fn dependencies_earlier(specs: Seq<ProjectionSpec>) -> bool {
    forall|j: int, t: int|
        #![trigger spec_projection_dependencies(specs[j])[t]]
        0 <= j < specs.len() && 0 <= t < dependency_count(specs, j) ==> exists|p: int|
            0 <= p < j && spec_projection_id(#[trigger] specs[p])@
                == spec_projection_dependencies(specs[j])[t]@.0 && spec_projection_kind(specs[p])
                == spec_projection_dependencies(specs[j])[t]@.1
}

/// Every specification has an initial state, every initial state has the length and value kinds
/// of its specification, and every state belongs to a specification.
pub open spec fn states_shaped(specs: Seq<ProjectionSpec>, states: Seq<InitialProjectorState>) -> bool {
    &&& forall|j: int| 0 <= j < specs.len() ==> keys_of(states).contains(#[trigger] specs[j].key())
    &&& forall|j: int, st: InitialProjectorState|
        0 <= j < specs.len() && #[trigger] states.contains(st) && st.key() == (#[trigger] specs[j]).key()
            ==> state_shaped(specs[j], st)
    &&& forall|st: InitialProjectorState| #[trigger] states.contains(st) ==> keys_of(specs).contains(st.key())
}

/// Specifications and initial states pass every check a projection set makes.
pub open spec fn set_accepted(specs: Seq<ProjectionSpec>, states: Seq<InitialProjectorState>) -> bool {
    &&& catalogue_valid(specs, states)
    &&& !some_failure(
        specs.len() as int,
        |j: int| dependency_count(specs, j),
        |j: int, t: int| reference_check(specs, j, t),
    )
    &&& !dependency_cyclic(specs)
    &&& !some_failure(
        specs.len() as int,
        |j: int| dependency_count(specs, j),
        |j: int, t: int| order_check(specs, j, t),
    )
    &&& !some_failure(
        specs.len() as int,
        |j: int| state_check_count(specs, states, j),
        |j: int, t: int| state_check(specs, states, j, t),
    )
}

proof fn lemma_dependencies_earlier(specs: Seq<ProjectionSpec>, states: Seq<InitialProjectorState>)
    requires
        set_accepted(specs, states),
    ensures
        dependencies_earlier(specs),
{
    let rcheck = |j: int, t: int| reference_check(specs, j, t);
    let ocheck = |j: int, t: int| order_check(specs, j, t);
    assert forall|j: int, t: int|
        #![trigger spec_projection_dependencies(specs[j])[t]]
        0 <= j < specs.len() && 0 <= t < dependency_count(specs, j) implies exists|p: int|
        0 <= p < j && spec_projection_id(#[trigger] specs[p])@
            == spec_projection_dependencies(specs[j])[t]@.0 && spec_projection_kind(specs[p])
            == spec_projection_dependencies(specs[j])[t]@.1 by {
        assert(!(rcheck(j, t) is Some));
        assert(!(ocheck(j, t) is Some));
        let reference = spec_projection_dependencies(specs[j])[t];
        let target = member_with_key(specs, seq![reference@.0])->0;
        assert(member_keyed(specs, seq![reference@.0], target));
        let q = choose|q: int| 0 <= q < specs.len() && specs[q] == target;
        assert(target.key()[0] == reference@.0);
        assert(spec_projection_id(specs[q])@ == reference@.0);
        let p = position_with_id(specs, reference@.0);
        assert(0 <= p < specs.len() && spec_projection_id(specs[p])@ == reference@.0);
        assert(keys_of(specs)[p] =~= keys_of(specs)[q]);
        assert(p == q);
    }
}

proof fn lemma_state_shaped_at(specs: Seq<ProjectionSpec>, states: Seq<InitialProjectorState>, j: int)
    requires
        set_accepted(specs, states),
        0 <= j < specs.len(),
    ensures
        states.contains(state_of(specs, states, j)),
        state_of(specs, states, j).key() == specs[j].key(),
        state_shaped(specs[j], state_of(specs, states, j)),
{
    let scheck = |j: int, t: int| state_check(specs, states, j, t);
    assert(keys_of(states).contains(specs[j].key()));
    let i = choose|i: int| 0 <= i < keys_of(states).len() && keys_of(states)[i] == specs[j].key();
    assert(states.contains(states[i]));
    assert(member_keyed(states, specs[j].key(), states[i]));
    let st = state_of(specs, states, j);
    assert(member_keyed(states, specs[j].key(), st));
    assert(!(scheck(j, 0) is Some));
    assert forall|v: int| 0 <= v < st.spec_values().len() implies value_kind_of(
        #[trigger] st.spec_values()[v],
    ) == initial_kind(specs[j], v) by {
        assert(!(scheck(j, v + 1) is Some));
    }
}

proof fn lemma_shaped_permutation(
    specs: Seq<ProjectionSpec>,
    a: Seq<InitialProjectorState>,
    b: Seq<InitialProjectorState>,
)
    requires
        states_shaped(specs, a),
        a.to_multiset() == b.to_multiset(),
    ensures
        states_shaped(specs, b),
{
    lemma_permutation_contains(a, b);
    assert forall|j: int| 0 <= j < specs.len() implies keys_of(b).contains(#[trigger] specs[j].key()) by {
        assert(keys_of(a).contains(specs[j].key()));
        let i = choose|i: int| 0 <= i < keys_of(a).len() && keys_of(a)[i] == specs[j].key();
        assert(a.contains(a[i]));
        assert(b.contains(a[i]));
        let q = choose|q: int| 0 <= q < b.len() && b[q] == a[i];
        assert(keys_of(b)[q] == specs[j].key());
    }
}

proof fn lemma_copy_keeps_shape(
    specs: Seq<ProjectionSpec>,
    states: Seq<InitialProjectorState>,
    specs2: Seq<ProjectionSpec>,
    states2: Seq<InitialProjectorState>,
)
    requires
        dependencies_earlier(specs),
        states_shaped(specs, states),
        specs2.len() == specs.len(),
        states2.len() == states.len(),
        forall|i: int|
            0 <= i < specs.len() ==> {
                &&& spec_projection_id(#[trigger] specs2[i]) == spec_projection_id(specs[i])
                &&& spec_projection_kind(specs2[i]) == spec_projection_kind(specs[i])
                &&& spec_projection_dependencies(specs2[i]) == spec_projection_dependencies(specs[i])
                &&& same_state_shape(specs2[i], specs[i])
            },
        forall|i: int|
            0 <= i < states.len() ==> {
                &&& (#[trigger] states2[i]).spec_projection() == states[i].spec_projection()
                &&& states2[i].spec_values() == states[i].spec_values()
            },
    ensures
        dependencies_earlier(specs2),
        states_shaped(specs2, states2),
{
    assert(keys_of(specs2) =~= keys_of(specs));
    assert(keys_of(states2) =~= keys_of(states));
    assert forall|j: int, t: int|
        #![trigger spec_projection_dependencies(specs2[j])[t]]
        0 <= j < specs2.len() && 0 <= t < dependency_count(specs2, j) implies exists|p: int|
        0 <= p < j && spec_projection_id(#[trigger] specs2[p])@
            == spec_projection_dependencies(specs2[j])[t]@.0 && spec_projection_kind(specs2[p])
            == spec_projection_dependencies(specs2[j])[t]@.1 by {
        assert(spec_projection_dependencies(specs2[j]) == spec_projection_dependencies(specs[j]));
        assert(dependency_count(specs, j) == dependency_count(specs2, j));
        let p = choose|p: int|
            0 <= p < j && spec_projection_id(#[trigger] specs[p])@
                == spec_projection_dependencies(specs[j])[t]@.0 && spec_projection_kind(specs[p])
                == spec_projection_dependencies(specs[j])[t]@.1;
        assert(spec_projection_id(specs2[p]) == spec_projection_id(specs[p]));
    }
    assert forall|j: int| 0 <= j < specs2.len() implies keys_of(states2).contains(
        #[trigger] specs2[j].key(),
    ) by {
        assert(specs2[j].key() == keys_of(specs2)[j]);
        assert(keys_of(states).contains(specs[j].key()));
    }
    assert forall|j: int, st: InitialProjectorState|
        0 <= j < specs2.len() && #[trigger] states2.contains(st) && st.key() == (
        #[trigger] specs2[j]).key() implies state_shaped(specs2[j], st) by {
        let i = choose|i: int| 0 <= i < states2.len() && states2[i] == st;
        assert(states.contains(states[i]));
        assert(states[i].key() == keys_of(states)[i]);
        assert(specs2[j].key() == keys_of(specs2)[j]);
        assert(state_shaped(specs[j], states[i]));
    }
    assert forall|st: InitialProjectorState| #[trigger] states2.contains(st) implies keys_of(
        specs2,
    ).contains(st.key()) by {
        let i = choose|i: int| 0 <= i < states2.len() && states2[i] == st;
        assert(states.contains(states[i]));
        assert(states[i].key() == keys_of(states)[i]);
    }
}

/// In a set that passes its checks, every dependency names an earlier specification of its
/// kind, and every specification has an initial state of its length and value kinds.
pub proof fn law_accepted_set_shape(specs: Seq<ProjectionSpec>, states: Seq<InitialProjectorState>)
    requires
        set_accepted(specs, states),
    ensures
        dependencies_earlier(specs),
        states_shaped(specs, states),
{
    lemma_dependencies_earlier(specs, states);
    assert forall|j: int, st: InitialProjectorState|
        0 <= j < specs.len() && #[trigger] states.contains(st) && st.key() == (#[trigger] specs[j]).key()
        implies state_shaped(specs[j], st) by {
        lemma_state_shaped_at(specs, states, j);
        let i = choose|i: int| 0 <= i < states.len() && states[i] == st;
        let w = state_of(specs, states, j);
        let q = choose|q: int| 0 <= q < states.len() && states[q] == w;
        assert(keys_of(states)[i] == keys_of(states)[q]);
    }
    assert forall|st: InitialProjectorState| #[trigger] states.contains(st) implies keys_of(specs).contains(
        st.key(),
    ) by {
        let i = choose|i: int| 0 <= i < states.len() && states[i] == st;
        assert(!state_unknown(specs, states[i]));
    }
}

/// A validated set of projection specifications with their initial projector states.
#[derive(Debug, Eq, PartialEq)]
pub struct ProjectionSet {
    specifications: Vec<ProjectionSpec>,
    initial_states: Vec<InitialProjectorState>,
}

impl ProjectionSet {
    #[verifier::type_invariant]
    closed spec fn well_formed(self) -> bool {
        &&& keys_sorted(keys_of(self.initial_states@))
        &&& keys_distinct(keys_of(self.specifications@))
        &&& dependencies_earlier(self.specifications@)
        &&& states_shaped(self.specifications@, self.initial_states@)
    }

    /// The specifications in authored evaluation order.
    pub closed spec fn spec_specifications(&self) -> Seq<ProjectionSpec> {
        self.specifications@
    }

    /// The initial states in canonical projection order.
    pub closed spec fn spec_initial_states(&self) -> Seq<InitialProjectorState> {
        self.initial_states@
    }

    fn assemble(
        specifications: Vec<ProjectionSpec>,
        sorted: Vec<InitialProjectorState>,
        Ghost(states): Ghost<Seq<InitialProjectorState>>,
    ) -> (r: Self)
        requires
            set_accepted(specifications@, states),
            keys_sorted(keys_of(sorted@)),
            sorted@.to_multiset() == states.to_multiset(),
        ensures
            r.spec_specifications() == specifications@,
            r.spec_initial_states() == sorted@,
    {
        proof {
            law_accepted_set_shape(specifications@, states);
            lemma_shaped_permutation(specifications@, states, sorted@);
        }
        ProjectionSet { specifications, initial_states: sorted }
    }

    /// Validates projection identities, dependencies, order and initial-state shapes. The checks
    /// are made in this order, the first failure deciding: unique specification identities (the
    /// first repeat in authored order), unique initial states (the first repeat), a state for
    /// every specification (the first without one), a specification for every state (the least
    /// unknown identity), every dependency declared with its kind, no dependency cycle, every
    /// dependency earlier in authored order, and each state's length and value kinds.
    #[verifier::loop_isolation(false)]
    pub fn new(specifications: Vec<ProjectionSpec>, states: Vec<InitialProjectorState>) -> (r: Result<
        Self,
        ProjectionError,
    >)
        ensures
            !keys_distinct(keys_of(specifications@)) ==> exists|j: int|
                first_key_repeat_at(keys_of(specifications@), j) && r == Err::<Self, ProjectionError>(
                    ProjectionError::DuplicateProjection {
                        projection: spec_projection_id(specifications@[j]),
                    },
                ),
            keys_distinct(keys_of(specifications@)) && !keys_distinct(keys_of(states@)) ==> exists|
                j: int,
            |
                first_key_repeat_at(keys_of(states@), j) && r == Err::<Self, ProjectionError>(
                    ProjectionError::DuplicateInitialState {
                        projection: states@[j].spec_projection(),
                    },
                ),
            keys_distinct(keys_of(specifications@)) && keys_distinct(keys_of(states@)) && (exists|
                j: int,
            |
                0 <= j < specifications@.len() && !keys_of(states@).contains(
                    #[trigger] specifications@[j].key(),
                )) ==> exists|j: int|
                0 <= j < specifications@.len() && !keys_of(states@).contains(
                    specifications@[j].key(),
                ) && (forall|i: int|
                    0 <= i < j ==> keys_of(states@).contains(#[trigger] specifications@[i].key()))
                    && r == Err::<Self, ProjectionError>(
                    ProjectionError::MissingInitialState {
                        projection: spec_projection_id(specifications@[j]),
                    },
                ),
            keys_distinct(keys_of(specifications@)) && keys_distinct(keys_of(states@)) && (forall|
                j: int,
            |
                0 <= j < specifications@.len() ==> keys_of(states@).contains(
                    #[trigger] specifications@[j].key(),
                )) && (exists|j: int|
                0 <= j < states@.len() && state_unknown(specifications@, #[trigger] states@[j]))
                ==> exists|x: InitialProjectorState|
                least_where(
                    states@,
                    |s: InitialProjectorState| state_unknown(specifications@, s),
                    x,
                ) && r == Err::<Self, ProjectionError>(
                    ProjectionError::UnknownInitialState { projection: x.spec_projection() },
                ),
            catalogue_valid(specifications@, states@) && some_failure(
                specifications@.len() as int,
                |j: int| dependency_count(specifications@, j),
                |j: int, t: int| reference_check(specifications@, j, t),
            ) ==> exists|j: int, t: int|
                first_failure(
                    specifications@.len() as int,
                    |j: int| dependency_count(specifications@, j),
                    |j: int, t: int| reference_check(specifications@, j, t),
                    j,
                    t,
                ) && r == Err::<Self, ProjectionError>(reference_check(specifications@, j, t)->0),
            catalogue_valid(specifications@, states@) && !some_failure(
                specifications@.len() as int,
                |j: int| dependency_count(specifications@, j),
                |j: int, t: int| reference_check(specifications@, j, t),
            ) && dependency_cyclic(specifications@) ==> {
                &&& r matches Err(ProjectionError::CyclicDependency { cycle })
                &&& reported_cycle(specifications@, cycle@)
            },
            catalogue_valid(specifications@, states@) && !some_failure(
                specifications@.len() as int,
                |j: int| dependency_count(specifications@, j),
                |j: int, t: int| reference_check(specifications@, j, t),
            ) && !dependency_cyclic(specifications@) && some_failure(
                specifications@.len() as int,
                |j: int| dependency_count(specifications@, j),
                |j: int, t: int| order_check(specifications@, j, t),
            ) ==> exists|j: int, t: int|
                first_failure(
                    specifications@.len() as int,
                    |j: int| dependency_count(specifications@, j),
                    |j: int, t: int| order_check(specifications@, j, t),
                    j,
                    t,
                ) && r == Err::<Self, ProjectionError>(order_check(specifications@, j, t)->0),
            catalogue_valid(specifications@, states@) && !some_failure(
                specifications@.len() as int,
                |j: int| dependency_count(specifications@, j),
                |j: int, t: int| reference_check(specifications@, j, t),
            ) && !dependency_cyclic(specifications@) && !some_failure(
                specifications@.len() as int,
                |j: int| dependency_count(specifications@, j),
                |j: int, t: int| order_check(specifications@, j, t),
            ) && some_failure(
                specifications@.len() as int,
                |j: int| state_check_count(specifications@, states@, j),
                |j: int, t: int| state_check(specifications@, states@, j, t),
            ) ==> exists|j: int, t: int|
                first_failure(
                    specifications@.len() as int,
                    |j: int| state_check_count(specifications@, states@, j),
                    |j: int, t: int| state_check(specifications@, states@, j, t),
                    j,
                    t,
                ) && r == Err::<Self, ProjectionError>(
                    state_check(specifications@, states@, j, t)->0,
                ),
            r is Ok <==> catalogue_valid(specifications@, states@) && !some_failure(
                specifications@.len() as int,
                |j: int| dependency_count(specifications@, j),
                |j: int, t: int| reference_check(specifications@, j, t),
            ) && !dependency_cyclic(specifications@) && !some_failure(
                specifications@.len() as int,
                |j: int| dependency_count(specifications@, j),
                |j: int, t: int| order_check(specifications@, j, t),
            ) && !some_failure(
                specifications@.len() as int,
                |j: int| state_check_count(specifications@, states@, j),
                |j: int, t: int| state_check(specifications@, states@, j, t),
            ),
            r matches Ok(set) ==> {
                &&& set.spec_specifications() == specifications@
                &&& keys_sorted(keys_of(set.spec_initial_states()))
                &&& set.spec_initial_states().to_multiset() == states@.to_multiset()
            },
    {
        let ghost s = specifications@;
        let ghost ks = keys_of(s);
        // Unique specification identities, first repeat in authored order.
        let mut j: usize = 0;
        while j < specifications.len()
            invariant
                j <= s.len(),
                s == specifications@,
                keys_distinct(ks.take(j as int)),
            decreases specifications.len() - j,
        {
            let mut i: usize = 0;
            while i < j
                invariant
                    i <= j,
                    forall|q: int| 0 <= q < i ==> ks[q] != ks[j as int],
                decreases j - i,
            {
                if specifications[i].compare_keys(&specifications[j]) == KeyOrder::Equal {
                    proof {
                        assert(ks[i as int] == ks[j as int]);
                        assert(first_key_repeat_at(ks, j as int));
                    }
                    let projection = specifications[j].id().clone();
                    return Err(ProjectionError::DuplicateProjection { projection });
                }
                i = i + 1;
            }
            proof {
                assert forall|a: int, b: int| 0 <= a < b < j + 1 implies #[trigger] ks.take(j + 1)[a]
                    != #[trigger] ks.take(j + 1)[b] by {
                    if b < j {
                        assert(ks.take(j as int)[a] != ks.take(j as int)[b]);
                    }
                }
            }
            j = j + 1;
        }
        proof {
            assert(ks.take(j as int) =~= ks);
        }
        // Unique initial states, first repeat in declaration order.
        let ghost t = states@;
        let ghost kt = keys_of(t);
        let mut j: usize = 0;
        while j < states.len()
            invariant
                j <= t.len(),
                t == states@,
                keys_distinct(kt.take(j as int)),
            decreases states.len() - j,
        {
            let mut i: usize = 0;
            while i < j
                invariant
                    i <= j,
                    forall|q: int| 0 <= q < i ==> kt[q] != kt[j as int],
                decreases j - i,
            {
                if states[i].compare_keys(&states[j]) == KeyOrder::Equal {
                    proof {
                        assert(kt[i as int] == kt[j as int]);
                        assert(first_key_repeat_at(kt, j as int));
                    }
                    let projection = states[j].projection().clone();
                    return Err(ProjectionError::DuplicateInitialState { projection });
                }
                i = i + 1;
            }
            proof {
                assert forall|a: int, b: int| 0 <= a < b < j + 1 implies #[trigger] kt.take(j + 1)[a]
                    != #[trigger] kt.take(j + 1)[b] by {
                    if b < j {
                        assert(kt.take(j as int)[a] != kt.take(j as int)[b]);
                    }
                }
            }
            j = j + 1;
        }
        proof {
            assert(kt.take(j as int) =~= kt);
        }
        // A state for every specification, first missing in authored order.
        let mut j: usize = 0;
        while j < specifications.len()
            invariant
                j <= s.len(),
                forall|i: int| 0 <= i < j ==> kt.contains(#[trigger] s[i].key()),
            decreases specifications.len() - j,
        {
            match find_state(&states, specifications[j].id()) {
                None => {
                    proof {
                        assert(!kt.contains(s[j as int].key())) by {
                            if kt.contains(s[j as int].key()) {
                                let q = choose|q: int| 0 <= q < kt.len() && kt[q] == s[j as int].key();
                                assert(kt[q] == t[q].key());
                                assert(t[q].key()[0] == t[q].spec_projection()@);
                            }
                        }
                    }
                    let projection = specifications[j].id().clone();
                    return Err(ProjectionError::MissingInitialState { projection });
                },
                Some(q) => {
                    proof {
                        assert(kt[q as int] == t[q as int].key());
                        assert(t[q as int].key() =~= s[j as int].key());
                    }
                },
            }
            j = j + 1;
        }
        // A specification for every state, least unknown identity.
        let sorted = match sort_unique(states) {
            Ok(v) => v,
            Err(_) => unreached(),
        };
        let ghost unknown = |x: InitialProjectorState| state_unknown(s, x);
        let mut k: usize = 0;
        while k < sorted.len()
            invariant
                k <= sorted@.len(),
                forall|i: int| 0 <= i < k ==> !unknown(#[trigger] sorted@[i]),
            decreases sorted.len() - k,
        {
            match position_of(&specifications, sorted[k].projection()) {
                None => {
                    proof {
                        assert(unknown(sorted@[k as int])) by {
                            if ks.contains(sorted@[k as int].key()) {
                                let q = choose|q: int| 0 <= q < ks.len() && ks[q] == sorted@[k as int].key();
                                assert(ks[q] == s[q].key());
                                assert(s[q].key()[0] == spec_projection_id(s[q])@);
                            }
                        }
                        lemma_first_in_sorted_is_least(sorted@, t, unknown, k as int);
                    }
                    let projection = sorted[k].projection().clone();
                    return Err(ProjectionError::UnknownInitialState { projection });
                },
                Some(q) => {
                    proof {
                        assert(ks[q as int] == s[q as int].key());
                        assert(s[q as int].key() =~= sorted@[k as int].key());
                    }
                },
            }
            k = k + 1;
        }
        proof {
            lemma_none_in_permutation(sorted@, t, unknown);
            assert(catalogue_valid(s, t));
        }
        // Every dependency declared, with the declared kind.
        let ghost lens = |j: int| dependency_count(s, j);
        let ghost rcheck = |j: int, t: int| reference_check(s, j, t);
        let mut j: usize = 0;
        while j < specifications.len()
            invariant
                j <= s.len(),
                forall|j2: int, t2: int|
                    0 <= j2 < j && 0 <= t2 < lens(j2) ==> #[trigger] rcheck(j2, t2) is None,
            decreases specifications.len() - j,
        {
            let deps = specifications[j].dependencies();
            let mut t: usize = 0;
            while t < deps.len()
                invariant
                    t <= deps@.len(),
                    forall|t2: int| 0 <= t2 < t ==> #[trigger] rcheck(j as int, t2) is None,
                decreases deps.len() - t,
            {
                let reference = deps[t];
                match reference_error(&specifications, &specifications[j], reference) {
                    Some(e) => {
                        proof {
                            assert(e == rcheck(j as int, t as int)->0);
                            assert(first_failure(s.len() as int, lens, rcheck, j as int, t as int));
                        }
                        return Err(e);
                    },
                    None => {},
                }
                t = t + 1;
            }
            j = j + 1;
        }
        proof {
            assert(!some_failure(s.len() as int, lens, rcheck));
            assert(identities_distinct(s)) by {
                assert forall|u: int, v: int| 0 <= u < v < s.len() implies spec_projection_id(
                    #[trigger] s[u],
                )@ != spec_projection_id(#[trigger] s[v])@ by {
                    assert(ks[u] != ks[v]);
                    assert(ks[u] =~= seq![spec_projection_id(s[u])@]);
                    assert(ks[v] =~= seq![spec_projection_id(s[v])@]);
                }
            }
            assert(dependencies_declared(s)) by {
                assert forall|u: int, t: int|
                    0 <= u < s.len() && 0 <= t < spec_projection_dependencies(s[u]).len() implies exists|
                    v: int,
                |
                    0 <= v < s.len() && (#[trigger] spec_projection_dependencies(s[u])[t])@.0
                        == spec_projection_id(s[v])@ by {
                    assert(rcheck(u, t) is None);
                    let reference = spec_projection_dependencies(s[u])[t];
                    let target = member_with_key(s, seq![reference@.0])->0;
                    assert(crate::keyed::member_keyed(s, seq![reference@.0], target));
                    let v = choose|v: int| 0 <= v < s.len() && s[v] == target;
                    assert(target.key()[0] == spec_projection_id(target)@);
                }
            }
        }
        // No dependency cycle.
        match find_cycle(&specifications) {
            Some(cycle) => {
                return Err(ProjectionError::CyclicDependency { cycle });
            },
            None => {},
        }
        // Every dependency earlier in authored order.
        let ghost ocheck = |j: int, t: int| order_check(s, j, t);
        let mut j: usize = 0;
        while j < specifications.len()
            invariant
                j <= s.len(),
                forall|j2: int, t2: int|
                    0 <= j2 < j && 0 <= t2 < lens(j2) ==> #[trigger] ocheck(j2, t2) is None,
            decreases specifications.len() - j,
        {
            let deps = specifications[j].dependencies();
            let mut t: usize = 0;
            while t < deps.len()
                invariant
                    t <= deps@.len(),
                    forall|t2: int| 0 <= t2 < t ==> #[trigger] ocheck(j as int, t2) is None,
                decreases deps.len() - t,
            {
                let reference = deps[t];
                let p = match position_of(&specifications, reference.id()) {
                    Some(p) => p,
                    None => {
                        proof {
                            let v = choose|v: int|
                                0 <= v < s.len() && spec_projection_dependencies(s[j as int])[t as int]@.0
                                    == spec_projection_id(s[v])@;
                            assert(spec_projection_id(s[v])@ != reference.spec_id()@);
                        }
                        return Err(ProjectionError::MissingInitialState { projection: reference.id().clone() });
                    },
                };
                proof {
                    let id = spec_projection_dependencies(s[j as int])[t as int]@.0;
                    let chosen = position_with_id(s, id);
                    assert(0 <= chosen < s.len() && spec_projection_id(s[chosen])@ == id);
                    if chosen != p {
                        if chosen < p {
                            assert(spec_projection_id(s[chosen])@ != spec_projection_id(s[p as int])@);
                        } else {
                            assert(spec_projection_id(s[p as int])@ != spec_projection_id(s[chosen])@);
                        }
                    }
                }
                if p >= j {
                    proof {
                        assert(first_failure(s.len() as int, lens, ocheck, j as int, t as int));
                    }
                    return Err(
                        ProjectionError::DependencyNotEarlier {
                            owner: specifications[j].id().clone(),
                            reference: reference.id().clone(),
                            owner_index: j,
                            reference_index: p,
                        },
                    );
                }
                t = t + 1;
            }
            j = j + 1;
        }
        proof {
            assert(!some_failure(s.len() as int, lens, ocheck));
        }
        // Each state's length and value kinds.
        let ghost slens = |j: int| state_check_count(s, t, j);
        let ghost scheck = |j: int, i: int| state_check(s, t, j, i);
        let mut j: usize = 0;
        while j < specifications.len()
            invariant
                j <= s.len(),
                forall|j2: int, t2: int|
                    0 <= j2 < j && 0 <= t2 < slens(j2) ==> #[trigger] scheck(j2, t2) is None,
            decreases specifications.len() - j,
        {
            match check_initial_state(&specifications, &sorted, j, Ghost(t)) {
                Some((e, i)) => {
                    proof {
                        assert(first_failure(s.len() as int, slens, scheck, j as int, i@));
                    }
                    return Err(e);
                },
                None => {},
            }
            j = j + 1;
        }
        proof {
            assert(!some_failure(s.len() as int, slens, scheck));
            assert(set_accepted(s, t));
        }
        Ok(Self::assemble(specifications, sorted, Ghost(t)))
    }

    /// The specifications in authored evaluation order.
    pub fn iter(&self) -> (r: &[ProjectionSpec])
        ensures
            r@ == self.spec_specifications(),
            keys_distinct(keys_of(r@)),
            dependencies_earlier(r@),
    {
        proof {
            use_type_invariant(self);
        }
        self.specifications.as_slice()
    }

    /// The initial states in canonical projection order.
    pub fn initial_states(&self) -> (r: &[InitialProjectorState])
        ensures
            r@ == self.spec_initial_states(),
            states_shaped(self.spec_specifications(), r@),
    {
        proof {
            use_type_invariant(self);
        }
        self.initial_states.as_slice()
    }

    /// The initial state of a projection, if it is declared.
    pub fn initial_state(&self, projection: &ProjectionId) -> (r: Option<&InitialProjectorState>)
        ensures
            r matches Some(s) ==> self.spec_initial_states().contains(*s) && s.spec_projection()@
                == projection@,
            r is None ==> forall|i: int|
                0 <= i < self.spec_initial_states().len() ==> (#[trigger] self.spec_initial_states()[i]).spec_projection()@
                    != projection@,
            r matches Some(s) ==> exists|j: int|
                0 <= j < self.spec_specifications().len() && spec_projection_id(
                    #[trigger] self.spec_specifications()[j],
                )@ == projection@ && state_shaped(self.spec_specifications()[j], *s),
            r is None <==> forall|j: int|
                0 <= j < self.spec_specifications().len() ==> spec_projection_id(
                    #[trigger] self.spec_specifications()[j],
                )@ != projection@,
    {
        proof {
            use_type_invariant(self);
        }
        let ghost specs = self.spec_specifications();
        let ghost states = self.spec_initial_states();
        match find_state(&self.initial_states, projection) {
            Some(q) => {
                proof {
                    let st = states[q as int];
                    assert(states.contains(st));
                    let j = choose|j: int| 0 <= j < keys_of(specs).len() && keys_of(specs)[j] == st.key();
                    assert(specs[j].key() == st.key());
                    assert(specs[j].key()[0] == st.key()[0]);
                    assert(spec_projection_id(specs[j])@ == projection@);
                    assert(state_shaped(specs[j], st));
                    assert(0 <= j < specs.len() && spec_projection_id(specs[j])@ == projection@
                        && state_shaped(specs[j], st));
                }
                Some(&self.initial_states[q])
            },
            None => {
                proof {
                    assert forall|j: int| 0 <= j < specs.len() implies spec_projection_id(
                        #[trigger] specs[j],
                    )@ != projection@ by {
                        if spec_projection_id(specs[j])@ == projection@ {
                            assert(keys_of(states).contains(specs[j].key()));
                            let i = choose|i: int|
                                0 <= i < keys_of(states).len() && keys_of(states)[i] == specs[j].key();
                            assert(states[i].key()[0] == specs[j].key()[0]);
                        }
                    }
                }
                None
            },
        }
    }
}

/// The position of the state of projection `id`, if one is declared.
fn find_state(states: &Vec<InitialProjectorState>, id: &ProjectionId) -> (r: Option<usize>)
    ensures
        r matches Some(q) ==> q < states@.len() && states@[q as int].spec_projection()@ == id@,
        r is None ==> forall|q: int|
            0 <= q < states@.len() ==> (#[trigger] states@[q]).spec_projection()@ != id@,
{
    let mut q: usize = 0;
    while q < states.len()
        invariant
            q <= states@.len(),
            forall|i: int| 0 <= i < q ==> (#[trigger] states@[i]).spec_projection()@ != id@,
        decreases states.len() - q,
    {
        if states[q].projection() == id {
            return Some(q);
        }
        q = q + 1;
    }
    None
}

/// The error for a dependency of `owner`, if it names no declared projection or one of another
/// kind.
fn reference_error(
    specs: &Vec<ProjectionSpec>,
    owner: &ProjectionSpec,
    reference: &ProjectionRef,
) -> (r: Option<ProjectionError>)
    requires
        keys_distinct(keys_of(specs@)),
    ensures
        r == match member_with_key(specs@, seq![reference@.0]) {
            None => Some(
                ProjectionError::UnknownProjectionReference {
                    owner: spec_projection_id(*owner),
                    reference: reference.spec_id(),
                },
            ),
            Some(target) => if reference@.1 != spec_projection_kind(target) {
                Some(
                    ProjectionError::ProjectionReferenceKind {
                        owner: spec_projection_id(*owner),
                        reference: reference.spec_id(),
                        expected: reference@.1,
                        actual: spec_projection_kind(target),
                    },
                )
            } else {
                None
            },
        },
{
    match position_of(specs, reference.id()) {
        None => {
            proof {
                assert forall|q: int| 0 <= q < specs@.len() implies (#[trigger] specs@[q]).key()
                    != seq![reference@.0] by {
                    assert(specs@[q].key()[0] == spec_projection_id(specs@[q])@);
                }
                lemma_member_with_key_none(specs@, seq![reference@.0]);
            }
            Some(
                ProjectionError::UnknownProjectionReference {
                    owner: owner.id().clone(),
                    reference: reference.id().clone(),
                },
            )
        },
        Some(p) => {
            proof {
                lemma_member_with_key_at(specs@, p as int);
                assert(specs@[p as int].key() =~= seq![reference@.0]);
            }
            let actual = specs[p].value_kind();
            if reference.value_kind() != actual {
                Some(
                    ProjectionError::ProjectionReferenceKind {
                        owner: owner.id().clone(),
                        reference: reference.id().clone(),
                        expected: reference.value_kind(),
                        actual,
                    },
                )
            } else {
                None
            }
        },
    }
}

/// The first failing check on the initial state of the specification at `j`, with its position.
#[verifier::loop_isolation(false)]
fn check_initial_state(
    specs: &Vec<ProjectionSpec>,
    sorted: &Vec<InitialProjectorState>,
    j: usize,
    Ghost(states): Ghost<Seq<InitialProjectorState>>,
) -> (r: Option<(ProjectionError, Ghost<int>)>)
    requires
        j < specs@.len(),
        catalogue_valid(specs@, states),
        keys_sorted(keys_of(sorted@)),
        sorted@.to_multiset() == states.to_multiset(),
    ensures
        r matches Some((e, i)) ==> 0 <= i@ < state_check_count(specs@, states, j as int)
            && state_check(specs@, states, j as int, i@) == Some(e) && forall|t2: int|
            0 <= t2 < i@ ==> #[trigger] state_check(specs@, states, j as int, t2) is None,
        r is None ==> forall|t2: int|
            0 <= t2 < state_check_count(specs@, states, j as int) ==> #[trigger] state_check(
                specs@,
                states,
                j as int,
                t2,
            ) is None,
{
    let ghost s = specs@;
    let spec = &specs[j];
    proof {
        crate::keyed::lemma_sorted_distinct(keys_of(sorted@));
        crate::keyed::lemma_member_with_key_permutation(sorted@, states, spec.key());
        assert(keys_of(states).contains(spec.key()));
    }
    let q = match find_state(sorted, spec.id()) {
        Some(q) => q,
        None => {
            proof {
                let i = choose|i: int| 0 <= i < keys_of(states).len() && keys_of(states)[i] == spec.key();
                assert(states.contains(states[i]));
                lemma_permutation_contains(sorted@, states);
                let p = choose|p: int| 0 <= p < sorted@.len() && sorted@[p] == states[i];
                assert(keys_of(states)[i] == states[i].key());
                assert(states[i].key()[0] == states[i].spec_projection()@);
                assert(spec.key()[0] == spec_projection_id(*spec)@);
            }
            return None;
        },
    };
    proof {
        lemma_member_with_key_at(sorted@, q as int);
        assert(sorted@[q as int].key() =~= spec.key());
        assert(state_of(s, states, j as int) == sorted@[q as int]);
    }
    let state = &sorted[q];
    let values = state.values();
    let expected_len: usize = match spec {
        ProjectionSpec::BoundedLag(v) => v.steps(),
        ProjectionSpec::OrderedRollingAggregate(v) => v.window() - 1,
        ProjectionSpec::FiniteRecurrence(v) => v.state_kinds().len(),
    };
    if values.len() != expected_len {
        return Some(
            (
                ProjectionError::InitialStateLength {
                    projection: spec.id().clone(),
                    expected: expected_len,
                    actual: values.len(),
                },
                Ghost(0),
            ),
        );
    }
    let mut index: usize = 0;
    while index < values.len()
        invariant
            index <= values@.len(),
            values@ == state_of(s, states, j as int).spec_values(),
            values@.len() == initial_length(s[j as int]),
            forall|t2: int| 0 <= t2 < index + 1 ==> #[trigger] state_check(s, states, j as int, t2) is None,
        decreases values.len() - index,
    {
        let expected = match spec {
            ProjectionSpec::BoundedLag(v) => v.value_kind(),
            ProjectionSpec::OrderedRollingAggregate(v) => v.value_kind(),
            ProjectionSpec::FiniteRecurrence(v) => v.state_kinds()[index],
        };
        let actual = values[index].value_kind();
        proof {
            assert(expected == initial_kind(s[j as int], index as int));
            assert(actual == value_kind_of(values@[index as int]));
        }
        if actual != expected {
            return Some(
                (
                    ProjectionError::InitialStateKind {
                        projection: spec.id().clone(),
                        index,
                        expected,
                        actual,
                    },
                    Ghost(index + 1),
                ),
            );
        }
        index = index + 1;
    }
    None
}

impl Clone for ProjectionSet {
    fn clone(&self) -> (r: Self)
        ensures
            r.spec_specifications().len() == self.spec_specifications().len(),
            forall|i: int|
                0 <= i < self.spec_specifications().len() ==> {
                    &&& spec_projection_id(#[trigger] r.spec_specifications()[i]) == spec_projection_id(
                        self.spec_specifications()[i],
                    )
                    &&& spec_projection_kind(r.spec_specifications()[i]) == spec_projection_kind(
                        self.spec_specifications()[i],
                    )
                    &&& spec_projection_dependencies(r.spec_specifications()[i])
                        == spec_projection_dependencies(self.spec_specifications()[i])
                },
            r.spec_initial_states().len() == self.spec_initial_states().len(),
            forall|i: int|
                0 <= i < self.spec_initial_states().len() ==> {
                    &&& (#[trigger] r.spec_initial_states()[i]).spec_projection()
                        == self.spec_initial_states()[i].spec_projection()
                    &&& r.spec_initial_states()[i].spec_values()
                        == self.spec_initial_states()[i].spec_values()
                },
    {
        proof {
            use_type_invariant(self);
        }
        let specifications = self.specifications.clone();
        let initial_states = self.initial_states.clone();
        proof {
            assert forall|i: int| 0 <= i < specifications@.len() implies {
                &&& spec_projection_id(#[trigger] specifications@[i]) == spec_projection_id(
                    self.specifications@[i],
                )
                &&& spec_projection_kind(specifications@[i]) == spec_projection_kind(self.specifications@[i])
                &&& spec_projection_dependencies(specifications@[i]) == spec_projection_dependencies(
                    self.specifications@[i],
                )
                &&& same_state_shape(specifications@[i], self.specifications@[i])
            } by {
                assert(cloned::<ProjectionSpec>(self.specifications[i], specifications[i]));
            }
            assert forall|i: int| 0 <= i < initial_states@.len() implies {
                &&& (#[trigger] initial_states@[i]).spec_projection()
                    == self.initial_states@[i].spec_projection()
                &&& initial_states@[i].spec_values() == self.initial_states@[i].spec_values()
            } by {
                assert(cloned::<InitialProjectorState>(self.initial_states[i], initial_states[i]));
            }
            assert(keys_of(initial_states@) =~= keys_of(self.initial_states@));
            assert(keys_of(specifications@) =~= keys_of(self.specifications@));
            lemma_copy_keeps_shape(
                self.specifications@,
                self.initial_states@,
                specifications@,
                initial_states@,
            );
        }
        ProjectionSet { specifications, initial_states }
    }
}

} // verus!
