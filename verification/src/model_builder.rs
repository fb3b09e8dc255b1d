//! Assembling a model: the cross-component checks that bind initial stocks, projections, forcing
//! series, interpolation tables, rules and units to one topology, registry, horizon and version
//! selection.

use vstd::prelude::*;

use crate::forcing::ForcingSeries;
use crate::identity::SubstanceId;
use crate::initial_stocks::{endpoint_named, same_registry, InitialStocks, StocksView};
use crate::keyed::{keys_distinct, keys_of, keys_sorted, sort_unique, Keyed};
use crate::interpolation_table::InterpolationTable;
use crate::model_artifact::{
    references_declared, references_outcome, validate_rule_references, ModelArtifactError,
    ModelVersions, RuleDefinition, UnitId,
};
use crate::numerical_semantics::NumericalSemanticsVersion;
use crate::versions::RuleIrVersion;
use crate::order::{compare_text, KeyOrder};
use crate::projection::{spec_projection_id, InitialProjectorState, ProjectionSpec};
use crate::projection_set::ProjectionSet;
use crate::substance_registry::SubstanceRegistry;
use crate::temporal::{CalendarView, FixedStepCalendar, HorizonView, RunHorizon};
use crate::topology::{Topology, TopologyEndpoint, TopologyView};

verus! {

/// Whether each endpoint is a finite compartment.
pub open spec fn endpoint_kinds(es: Seq<TopologyEndpoint>) -> Seq<bool> {
    es.map_values(|e: TopologyEndpoint| e is Finite)
}

/// Two topologies hold the same endpoints of the same kinds, the same connections and the same
/// topological order.
pub open spec fn same_topology(a: TopologyView, b: TopologyView) -> bool {
    &&& a.ids == b.ids
    &&& endpoint_kinds(a.endpoints) == endpoint_kinds(b.endpoints)
    &&& a.links == b.links
    &&& a.order == b.order
}

/// Whether two topologies have the same content.
#[verifier::loop_isolation(false)]
pub(crate) fn topologies_equal(a: &Topology, b: &Topology) -> (r: bool)
    ensures
        r == same_topology(a@, b@),
{
    let ea = a.endpoints();
    let eb = b.endpoints();
    if ea.len() != eb.len() {
        proof {
            assert(endpoint_kinds(a@.endpoints).len() != endpoint_kinds(b@.endpoints).len());
        }
        return false;
    }
    let mut i: usize = 0;
    while i < ea.len()
        invariant
            i <= ea@.len(),
            ea@ == a@.endpoints,
            eb@ == b@.endpoints,
            ea@.len() == eb@.len(),
            forall|k: int| 0 <= k < i ==> #[trigger] a@.ids[k] == b@.ids[k],
            forall|k: int| 0 <= k < i ==> (#[trigger] ea@[k] is Finite) == (eb@[k] is Finite),
        decreases ea.len() - i,
    {
        if compare_text(ea[i].id().as_str(), eb[i].id().as_str()) != KeyOrder::Equal {
            proof {
                assert(a@.ids[i as int] != b@.ids[i as int]);
            }
            return false;
        }
        if ea[i].is_finite() != eb[i].is_finite() {
            proof {
                assert(endpoint_kinds(a@.endpoints)[i as int] != endpoint_kinds(b@.endpoints)[i as int]);
            }
            return false;
        }
        i = i + 1;
    }
    proof {
        assert(a@.ids =~= b@.ids);
        assert(endpoint_kinds(a@.endpoints) =~= endpoint_kinds(b@.endpoints));
    }
    let ca = a.connections();
    let cb = b.connections();
    if ca.len() != cb.len() {
        proof {
            assert(a@.links.len() != b@.links.len());
        }
        return false;
    }
    let mut i: usize = 0;
    while i < ca.len()
        invariant
            i <= ca@.len(),
            crate::keyed::keys_of(ca@) == a@.links,
            crate::keyed::keys_of(cb@) == b@.links,
            ca@.len() == cb@.len(),
            forall|k: int| 0 <= k < i ==> #[trigger] a@.links[k] == b@.links[k],
        decreases ca.len() - i,
    {
        proof {
            assert(a@.links[i as int] == seq![ca@[i as int]@.0, ca@[i as int]@.1]);
            assert(b@.links[i as int] == seq![cb@[i as int]@.0, cb@[i as int]@.1]);
        }
        if compare_text(ca[i].source().as_str(), cb[i].source().as_str()) != KeyOrder::Equal
            || compare_text(ca[i].target().as_str(), cb[i].target().as_str()) != KeyOrder::Equal {
            return false;
        }
        i = i + 1;
    }
    proof {
        assert(a@.links =~= b@.links);
    }
    let oa = a.topological_order();
    let ob = b.topological_order();
    if oa.len() != ob.len() {
        proof {
            assert(a@.order.len() != b@.order.len());
        }
        return false;
    }
    let mut i: usize = 0;
    while i < oa.len()
        invariant
            i <= oa@.len(),
            crate::topology::compartment_texts(oa@) == a@.order,
            crate::topology::compartment_texts(ob@) == b@.order,
            oa@.len() == ob@.len(),
            forall|k: int| 0 <= k < i ==> #[trigger] a@.order[k] == b@.order[k],
        decreases oa.len() - i,
    {
        if compare_text(oa[i].as_str(), ob[i].as_str()) != KeyOrder::Equal {
            proof {
                assert(a@.order[i as int] == oa@[i as int]@);
                assert(b@.order[i as int] == ob@[i as int]@);
            }
            return false;
        }
        i = i + 1;
    }
    proof {
        assert(a@.order =~= b@.order);
    }
    true
}

/// The rule IR version of a projection specification.
pub open spec fn projection_rule_ir(s: ProjectionSpec) -> RuleIrVersion {
    match s {
        ProjectionSpec::BoundedLag(v) => v.spec_rule_ir(),
        ProjectionSpec::OrderedRollingAggregate(v) => v.spec_rule_ir(),
        ProjectionSpec::FiniteRecurrence(v) => v.spec_rule_ir(),
    }
}

/// The numerical semantics of a projection specification.
pub open spec fn projection_semantics(s: ProjectionSpec) -> NumericalSemanticsVersion {
    match s {
        ProjectionSpec::BoundedLag(v) => v.spec_semantics(),
        ProjectionSpec::OrderedRollingAggregate(v) => v.spec_semantics(),
        ProjectionSpec::FiniteRecurrence(v) => v.spec_semantics(),
    }
}

/// The failure of a projection specification against the version selection: its rule IR
/// version first, then its numerical semantics.
pub open spec fn projection_error(s: ProjectionSpec, v: ModelVersions) -> Option<ModelArtifactError> {
    if projection_rule_ir(s) != v.spec_rule_ir() {
        Some(ModelArtifactError::ProjectionRuleIrVersionMismatch { projection: spec_projection_id(s) })
    } else if projection_semantics(s) != v.spec_numerical_semantics() {
        Some(ModelArtifactError::ProjectionNumericalVersionMismatch { projection: spec_projection_id(s) })
    } else {
        None
    }
}

/// The failure of forcing series `j`: a horizon other than the model's, then an identity that an
/// earlier series already has.
pub open spec fn forcing_error(fs: Seq<ForcingSeries>, horizon: HorizonView, j: int) -> Option<
    ModelArtifactError,
> {
    if fs[j].spec_horizon()@ != horizon {
        Some(ModelArtifactError::ForcingHorizonMismatch { forcing: fs[j].spec_id() })
    } else if exists|i: int| 0 <= i < j && #[trigger] fs[i].spec_id()@ == fs[j].spec_id()@ {
        Some(ModelArtifactError::DuplicateForcing { forcing: fs[j].spec_id() })
    } else {
        None
    }
}

/// The failure of table `j`: numerical semantics other than the model's, then an identity that
/// an earlier table already has.
pub open spec fn table_error(ts: Seq<InterpolationTable>, v: ModelVersions, j: int) -> Option<
    ModelArtifactError,
> {
    if ts[j].spec_semantics() != v.spec_numerical_semantics() {
        Some(ModelArtifactError::TableNumericalVersionMismatch { table: ts[j].spec_id() })
    } else if exists|i: int| 0 <= i < j && #[trigger] ts[i].spec_id()@ == ts[j].spec_id()@ {
        Some(ModelArtifactError::DuplicateTable { table: ts[j].spec_id() })
    } else {
        None
    }
}

/// The failure of a rule's placement and versions: an undeclared compartment, a boundary
/// account, an unregistered substance, then the rule IR and numerical versions of its expression
/// and disposition.
pub open spec fn rule_shape_error(
    rule: RuleDefinition,
    t: TopologyView,
    registry: Seq<Seq<char>>,
    v: ModelVersions,
) -> Option<ModelArtifactError> {
    let compartment = rule.spec_compartment();
    let substance = rule.spec_substance();
    match endpoint_named(t, compartment@) {
        None => Some(ModelArtifactError::UnknownRuleCompartment { compartment }),
        Some(TopologyEndpoint::Boundary(_)) => Some(ModelArtifactError::BoundaryAccountRule { account: compartment }),
        Some(TopologyEndpoint::Finite(_)) => if !registry.contains(substance@) {
            Some(ModelArtifactError::UnknownRuleSubstance { substance })
        } else if rule.spec_expression().spec_rule_ir() != v.spec_rule_ir()
            || rule.spec_disposition().spec_rule_ir() != v.spec_rule_ir() {
            Some(ModelArtifactError::RuleIrVersionMismatch { compartment, substance })
        } else if rule.spec_expression().spec_semantics() != v.spec_numerical_semantics()
            || rule.spec_disposition().spec_semantics() != v.spec_numerical_semantics() {
            Some(ModelArtifactError::RuleNumericalVersionMismatch { compartment, substance })
        } else {
            None
        },
    }
}

/// Rule `j` names the compartment-substance coordinate of an earlier rule.
pub open spec fn rule_repeats(rules: Seq<RuleDefinition>, j: int) -> bool {
    exists|i: int|
        0 <= i < j && #[trigger] rules[i].spec_compartment()@ == rules[j].spec_compartment()@
            && rules[i].spec_substance()@ == rules[j].spec_substance()@
}

/// The failure of unit declaration `j`: an unregistered substance, then a substance an earlier
/// declaration already names.
pub open spec fn unit_error(units: Seq<(SubstanceId, UnitId)>, registry: Seq<Seq<char>>, j: int) -> Option<
    ModelArtifactError,
> {
    if !registry.contains(units[j].0@) {
        Some(ModelArtifactError::UnknownUnitSubstance { substance: units[j].0 })
    } else if exists|i: int| 0 <= i < j && #[trigger] units[i].0@ == units[j].0@ {
        Some(ModelArtifactError::DuplicateUnit { substance: units[j].0 })
    } else {
        None
    }
}

/// No unit declaration names `x`.
pub open spec fn unit_missing(units: Seq<(SubstanceId, UnitId)>, x: Seq<char>) -> bool {
    forall|j: int| 0 <= j < units.len() ==> #[trigger] units[j].0@ != x
}

/// Position `j` is the first below `n` at which `fails` holds.
pub open spec fn first_failing(n: int, fails: spec_fn(int) -> bool, j: int) -> bool {
    &&& 0 <= j < n
    &&& fails(j)
    &&& forall|i: int| 0 <= i < j ==> !#[trigger] fails(i)
}

/// The components collected by a model builder.
pub struct BuilderView {
    pub topology: TopologyView,
    pub registry: Seq<Seq<char>>,
    pub initial_stocks: StocksView,
    pub calendar: CalendarView,
    pub horizon: HorizonView,
    /// The projection set's specifications in authored order and its initial states.
    pub projections: Option<(Seq<ProjectionSpec>, Seq<InitialProjectorState>)>,
    pub forcings: Seq<ForcingSeries>,
    pub tables: Seq<InterpolationTable>,
    pub rules: Seq<RuleDefinition>,
    pub units: Seq<(SubstanceId, UnitId)>,
    pub versions: ModelVersions,
}

/// Validation binds the initial stocks to the model's own topology: whenever it succeeds, the
/// stocks' topology has the model's endpoint identities, its connections (each source and
/// target, in order) and its topological order; and whenever the two topologies' connection
/// lists differ, validation answers `InitialStocksTopologyMismatch`.
pub proof fn law_validation_binds_topology(b: BuilderView, r: Result<(), ModelArtifactError>)
    requires
        validation_outcome(b, r),
    ensures
        r is Ok ==> b.initial_stocks.topology.links == b.topology.links && b.initial_stocks.topology.ids
            == b.topology.ids && b.initial_stocks.topology.order == b.topology.order,
        b.initial_stocks.topology.links != b.topology.links ==> r == Err::<(), ModelArtifactError>(
            ModelArtifactError::InitialStocksTopologyMismatch,
        ),
{
}

/// The outcome of validating the components `b`. The checks are made in this order, the first
/// failure deciding: the initial stocks' topology, then their registry; a projection set is
/// present; every projection's versions (the first failing specification in authored order);
/// every forcing series' horizon and identity (the first failing series); every table's
/// semantics and identity (the first failing table); every rule's placement, versions,
/// references and coordinate (the first failing rule); every unit declaration's substance and
/// uniqueness (the first failing declaration); a unit for every registered substance (the
/// first in registry order without one).
pub open spec fn validation_outcome(b: BuilderView, r: Result<(), ModelArtifactError>) -> bool {
    if !same_topology(b.initial_stocks.topology, b.topology) {
        r == Err::<(), ModelArtifactError>(ModelArtifactError::InitialStocksTopologyMismatch)
    } else if b.initial_stocks.registry != b.registry {
        r == Err::<(), ModelArtifactError>(ModelArtifactError::InitialStocksRegistryMismatch)
    } else if b.projections is None {
        r == Err::<(), ModelArtifactError>(ModelArtifactError::MissingProjectionSet)
    } else {
        let specs = (b.projections->0).0;
        let v = b.versions;
        let fs = b.forcings;
        let ts = b.tables;
        let rules = b.rules;
        let units = b.units;
        let projection_fails = |j: int| projection_error(specs[j], v) is Some;
        let forcing_fails = |j: int| forcing_error(fs, b.horizon, j) is Some;
        let table_fails = |j: int| table_error(ts, v, j) is Some;
        let rule_fails = |j: int|
            rule_shape_error(rules[j], b.topology, b.registry, v) is Some || !references_declared(
                rules[j],
                fs,
                ts,
                specs,
            ) || rule_repeats(rules, j);
        let unit_fails = |j: int| unit_error(units, b.registry, j) is Some;
        let missing_unit = |k: int| unit_missing(units, b.registry[k]);
        if exists|j: int| 0 <= j < specs.len() && #[trigger] projection_fails(j) {
            exists|j: int|
                first_failing(specs.len() as int, projection_fails, j) && r == Err::<(), ModelArtifactError>(
                    projection_error(specs[j], v)->0,
                )
        } else if exists|j: int| 0 <= j < fs.len() && #[trigger] forcing_fails(j) {
            exists|j: int|
                first_failing(fs.len() as int, forcing_fails, j) && r == Err::<(), ModelArtifactError>(
                    forcing_error(fs, b.horizon, j)->0,
                )
        } else if exists|j: int| 0 <= j < ts.len() && #[trigger] table_fails(j) {
            exists|j: int|
                first_failing(ts.len() as int, table_fails, j) && r == Err::<(), ModelArtifactError>(
                    table_error(ts, v, j)->0,
                )
        } else if exists|j: int| 0 <= j < rules.len() && #[trigger] rule_fails(j) {
            exists|j: int|
                first_failing(rules.len() as int, rule_fails, j) && if rule_shape_error(
                    rules[j],
                    b.topology,
                    b.registry,
                    v,
                ) is Some {
                    r == Err::<(), ModelArtifactError>(
                        rule_shape_error(rules[j], b.topology, b.registry, v)->0,
                    )
                } else if !references_declared(rules[j], fs, ts, specs) {
                    references_outcome(rules[j], fs, ts, specs, r)
                } else {
                    r == Err::<(), ModelArtifactError>(
                        ModelArtifactError::DuplicateRule {
                            compartment: rules[j].spec_compartment(),
                            substance: rules[j].spec_substance(),
                        },
                    )
                }
        } else if exists|j: int| 0 <= j < units.len() && #[trigger] unit_fails(j) {
            exists|j: int|
                first_failing(units.len() as int, unit_fails, j) && r == Err::<(), ModelArtifactError>(
                    unit_error(units, b.registry, j)->0,
                )
        } else if exists|k: int| 0 <= k < b.registry.len() && #[trigger] missing_unit(k) {
            exists|k: int|
                first_failing(b.registry.len() as int, missing_unit, k) && r is Err && r->Err_0
                    is MissingUnit && r->Err_0->MissingUnit_substance@ == b.registry[k]
        } else {
            r is Ok
        }
    }
}

/// Collects a model's optional components and version selection, and checks that they bind to
/// one another.
pub struct ModelArtifactBuilder {
    topology: Topology,
    registry: SubstanceRegistry,
    initial_stocks: InitialStocks,
    calendar: FixedStepCalendar,
    horizon: RunHorizon,
    projections: Option<ProjectionSet>,
    forcings: Vec<ForcingSeries>,
    tables: Vec<InterpolationTable>,
    rules: Vec<RuleDefinition>,
    units: Vec<(SubstanceId, UnitId)>,
    versions: ModelVersions,
}

impl View for ModelArtifactBuilder {
    type V = BuilderView;

    closed spec fn view(&self) -> BuilderView {
        BuilderView {
            topology: self.topology@,
            registry: self.registry@,
            initial_stocks: self.initial_stocks@,
            calendar: self.calendar@,
            horizon: self.horizon@,
            projections: match self.projections {
                Some(p) => Some((p.spec_specifications(), p.spec_initial_states())),
                None => None,
            },
            forcings: self.forcings@,
            tables: self.tables@,
            rules: self.rules@,
            units: self.units@,
            versions: self.versions,
        }
    }
}

impl ModelArtifactBuilder {
    /// Starts a model from its required components, with no projections, forcing series,
    /// tables, rules or units, and the default version selection.
    pub fn new(
        topology: Topology,
        registry: SubstanceRegistry,
        initial_stocks: InitialStocks,
        calendar: FixedStepCalendar,
        horizon: RunHorizon,
    ) -> (r: Self)
        ensures
            r@.topology == topology@,
            r@.registry == registry@,
            r@.initial_stocks == initial_stocks@,
            r@.calendar == calendar@,
            r@.horizon == horizon@,
            r@.projections is None,
            r@.forcings.len() == 0,
            r@.tables.len() == 0,
            r@.rules.len() == 0,
            r@.units.len() == 0,
            r@.versions.spec_rule_ir() == RuleIrVersion::V1,
            r@.versions.spec_numerical_semantics() == NumericalSemanticsVersion::V1,
    {
        ModelArtifactBuilder {
            topology,
            registry,
            initial_stocks,
            calendar,
            horizon,
            projections: None,
            forcings: Vec::new(),
            tables: Vec::new(),
            rules: Vec::new(),
            units: Vec::new(),
            versions: ModelVersions::default(),
        }
    }

    /// Sets the projection set.
    pub fn with_projections(self, projections: ProjectionSet) -> (r: Self)
        ensures
            r@ == (BuilderView {
                projections: Some((projections.spec_specifications(), projections.spec_initial_states())),
                ..self@
            }),
    {
        ModelArtifactBuilder { projections: Some(projections), ..self }
    }

    /// Sets the forcing series.
    pub fn with_forcings(self, forcings: Vec<ForcingSeries>) -> (r: Self)
        ensures
            r@ == (BuilderView { forcings: forcings@, ..self@ }),
    {
        ModelArtifactBuilder { forcings, ..self }
    }

    /// Sets the interpolation tables.
    pub fn with_tables(self, tables: Vec<InterpolationTable>) -> (r: Self)
        ensures
            r@ == (BuilderView { tables: tables@, ..self@ }),
    {
        ModelArtifactBuilder { tables, ..self }
    }

    /// Sets the rules.
    pub fn with_rules(self, rules: Vec<RuleDefinition>) -> (r: Self)
        ensures
            r@ == (BuilderView { rules: rules@, ..self@ }),
    {
        ModelArtifactBuilder { rules, ..self }
    }

    /// Sets the unit declarations.
    pub fn with_units(self, units: Vec<(SubstanceId, UnitId)>) -> (r: Self)
        ensures
            r@ == (BuilderView { units: units@, ..self@ }),
    {
        ModelArtifactBuilder { units, ..self }
    }

    /// Sets the version selection.
    pub fn with_versions(self, versions: ModelVersions) -> (r: Self)
        ensures
            r@ == (BuilderView { versions, ..self@ }),
    {
        ModelArtifactBuilder { versions, ..self }
    }
}

impl ModelArtifactBuilder {
    /// Makes the checks that bind the components to one another, in the order described by
    /// [`validation_outcome`].
    #[verifier::loop_isolation(false)]
    pub fn validate(&self) -> (r: Result<(), ModelArtifactError>)
        ensures
            validation_outcome(self@, r),
    {
        let ghost b = self@;
        if !topologies_equal(self.initial_stocks.topology(), &self.topology) {
            return Err(ModelArtifactError::InitialStocksTopologyMismatch);
        }
        if !same_registry(self.initial_stocks.registry(), &self.registry) {
            return Err(ModelArtifactError::InitialStocksRegistryMismatch);
        }
        let projections = match &self.projections {
            None => {
                return Err(ModelArtifactError::MissingProjectionSet);
            },
            Some(p) => p,
        };
        let ghost specs = (b.projections->0).0;
        let ghost v = b.versions;
        let ghost fs = b.forcings;
        let ghost ts = b.tables;
        let ghost rules = b.rules;
        let ghost units = b.units;
        let ghost projection_fails = |j: int| projection_error(specs[j], v) is Some;
        let ghost forcing_fails = |j: int| forcing_error(fs, b.horizon, j) is Some;
        let ghost table_fails = |j: int| table_error(ts, v, j) is Some;
        let ghost rule_fails = |j: int|
            rule_shape_error(rules[j], b.topology, b.registry, v) is Some || !references_declared(
                rules[j],
                fs,
                ts,
                specs,
            ) || rule_repeats(rules, j);
        let ghost unit_fails = |j: int| unit_error(units, b.registry, j) is Some;
        let ghost missing_unit = |k: int| unit_missing(units, b.registry[k]);
        let versions = self.versions;

        let list = projections.iter();
        let mut j: usize = 0;
        while j < list.len()
            invariant
                j <= list@.len(),
                list@ == specs,
                forall|i: int| 0 <= i < j ==> !#[trigger] projection_fails(i),
            decreases list.len() - j,
        {
            if list[j].rule_ir_version() != versions.rule_ir() {
                proof {
                    assert(first_failing(specs.len() as int, projection_fails, j as int));
                }
                return Err(ModelArtifactError::ProjectionRuleIrVersionMismatch { projection: list[j].id().clone() });
            }
            if list[j].numerical_semantics_version() != versions.numerical_semantics() {
                proof {
                    assert(first_failing(specs.len() as int, projection_fails, j as int));
                }
                return Err(
                    ModelArtifactError::ProjectionNumericalVersionMismatch { projection: list[j].id().clone() },
                );
            }
            j = j + 1;
        }

        let first = self.horizon.first().value();
        let last = self.horizon.last().value();
        let mut j: usize = 0;
        while j < self.forcings.len()
            invariant
                j <= fs.len(),
                fs == self.forcings@,
                forall|i: int| 0 <= i < specs.len() ==> !#[trigger] projection_fails(i),
                forall|i: int| 0 <= i < j ==> !#[trigger] forcing_fails(i),
            decreases self.forcings.len() - j,
        {
            let forcing = &self.forcings[j];
            let h = forcing.horizon();
            if h.first().value() != first || h.last().value() != last {
                proof {
                    assert(forcing_fails(j as int));
                    assert(first_failing(fs.len() as int, forcing_fails, j as int));
                }
                return Err(ModelArtifactError::ForcingHorizonMismatch { forcing: forcing.id().clone() });
            }
            let mut i: usize = 0;
            while i < j
                invariant
                    i <= j,
                    forall|k: int| 0 <= k < i ==> #[trigger] fs[k].spec_id()@ != fs[j as int].spec_id()@,
                decreases j - i,
            {
                if compare_text(self.forcings[i].id().as_str(), forcing.id().as_str()) == KeyOrder::Equal {
                    proof {
                        assert(fs[i as int].spec_id()@ == fs[j as int].spec_id()@);
                        assert(forcing_fails(j as int));
                        assert(first_failing(fs.len() as int, forcing_fails, j as int));
                    }
                    return Err(ModelArtifactError::DuplicateForcing { forcing: forcing.id().clone() });
                }
                i = i + 1;
            }
            proof {
                assert(!forcing_fails(j as int));
            }
            j = j + 1;
        }

        let mut j: usize = 0;
        while j < self.tables.len()
            invariant
                j <= ts.len(),
                ts == self.tables@,
                forall|i: int| 0 <= i < specs.len() ==> !#[trigger] projection_fails(i),
                forall|i: int| 0 <= i < fs.len() ==> !#[trigger] forcing_fails(i),
                forall|i: int| 0 <= i < j ==> !#[trigger] table_fails(i),
            decreases self.tables.len() - j,
        {
            let table = &self.tables[j];
            if table.numerical_semantics_version() != versions.numerical_semantics() {
                proof {
                    assert(first_failing(ts.len() as int, table_fails, j as int));
                }
                return Err(ModelArtifactError::TableNumericalVersionMismatch { table: table.id().clone() });
            }
            let mut i: usize = 0;
            while i < j
                invariant
                    i <= j,
                    forall|k: int| 0 <= k < i ==> #[trigger] ts[k].spec_id()@ != ts[j as int].spec_id()@,
                decreases j - i,
            {
                if compare_text(self.tables[i].id().as_str(), table.id().as_str()) == KeyOrder::Equal {
                    proof {
                        assert(ts[i as int].spec_id()@ == ts[j as int].spec_id()@);
                        assert(table_fails(j as int));
                        assert(first_failing(ts.len() as int, table_fails, j as int));
                    }
                    return Err(ModelArtifactError::DuplicateTable { table: table.id().clone() });
                }
                i = i + 1;
            }
            proof {
                assert(!table_fails(j as int));
            }
            j = j + 1;
        }

        let mut j: usize = 0;
        while j < self.rules.len()
            invariant
                j <= rules.len(),
                rules == self.rules@,
                forall|i: int| 0 <= i < specs.len() ==> !#[trigger] projection_fails(i),
                forall|i: int| 0 <= i < fs.len() ==> !#[trigger] forcing_fails(i),
                forall|i: int| 0 <= i < ts.len() ==> !#[trigger] table_fails(i),
                forall|i: int| 0 <= i < j ==> !#[trigger] rule_fails(i),
            decreases self.rules.len() - j,
        {
            let rule = &self.rules[j];
            let compartment = rule.compartment();
            let substance = rule.substance();
            match self.topology.endpoint(compartment) {
                None => {
                    proof {
                        assert(first_failing(rules.len() as int, rule_fails, j as int));
                    }
                    return Err(ModelArtifactError::UnknownRuleCompartment { compartment: compartment.clone() });
                },
                Some(TopologyEndpoint::Boundary(_)) => {
                    proof {
                        assert(first_failing(rules.len() as int, rule_fails, j as int));
                    }
                    return Err(ModelArtifactError::BoundaryAccountRule { account: compartment.clone() });
                },
                Some(TopologyEndpoint::Finite(_)) => {},
            }
            if !self.registry.contains(substance) {
                proof {
                    assert(first_failing(rules.len() as int, rule_fails, j as int));
                }
                return Err(ModelArtifactError::UnknownRuleSubstance { substance: substance.clone() });
            }
            if rule.expression().rule_ir_version() != versions.rule_ir()
                || rule.disposition().rule_ir_version() != versions.rule_ir() {
                proof {
                    assert(first_failing(rules.len() as int, rule_fails, j as int));
                }
                return Err(
                    ModelArtifactError::RuleIrVersionMismatch {
                        compartment: compartment.clone(),
                        substance: substance.clone(),
                    },
                );
            }
            if rule.expression().numerical_semantics_version() != versions.numerical_semantics()
                || rule.disposition().numerical_semantics_version() != versions.numerical_semantics() {
                proof {
                    assert(first_failing(rules.len() as int, rule_fails, j as int));
                }
                return Err(
                    ModelArtifactError::RuleNumericalVersionMismatch {
                        compartment: compartment.clone(),
                        substance: substance.clone(),
                    },
                );
            }
            match validate_rule_references(rule, self.forcings.as_slice(), self.tables.as_slice(), projections) {
                Err(e) => {
                    proof {
                        assert(first_failing(rules.len() as int, rule_fails, j as int));
                    }
                    return Err(e);
                },
                Ok(()) => {},
            }
            let mut i: usize = 0;
            while i < j
                invariant
                    i <= j,
                    forall|k: int|
                        0 <= k < i ==> !(#[trigger] rules[k].spec_compartment()@ == rules[j as int].spec_compartment()@
                            && rules[k].spec_substance()@ == rules[j as int].spec_substance()@),
                decreases j - i,
            {
                if compare_text(self.rules[i].compartment().as_str(), compartment.as_str()) == KeyOrder::Equal
                    && compare_text(self.rules[i].substance().as_str(), substance.as_str()) == KeyOrder::Equal {
                    proof {
                        assert(rule_repeats(rules, j as int));
                        assert(first_failing(rules.len() as int, rule_fails, j as int));
                    }
                    return Err(
                        ModelArtifactError::DuplicateRule {
                            compartment: compartment.clone(),
                            substance: substance.clone(),
                        },
                    );
                }
                i = i + 1;
            }
            proof {
                assert(!rule_repeats(rules, j as int));
                assert(!rule_fails(j as int));
            }
            j = j + 1;
        }

        let mut j: usize = 0;
        while j < self.units.len()
            invariant
                j <= units.len(),
                units == self.units@,
                forall|i: int| 0 <= i < specs.len() ==> !#[trigger] projection_fails(i),
                forall|i: int| 0 <= i < fs.len() ==> !#[trigger] forcing_fails(i),
                forall|i: int| 0 <= i < ts.len() ==> !#[trigger] table_fails(i),
                forall|i: int| 0 <= i < rules.len() ==> !#[trigger] rule_fails(i),
                forall|i: int| 0 <= i < j ==> !#[trigger] unit_fails(i),
            decreases self.units.len() - j,
        {
            let substance = &self.units[j].0;
            if !self.registry.contains(substance) {
                proof {
                    assert(first_failing(units.len() as int, unit_fails, j as int));
                }
                return Err(ModelArtifactError::UnknownUnitSubstance { substance: substance.clone() });
            }
            let mut i: usize = 0;
            while i < j
                invariant
                    i <= j,
                    forall|k: int| 0 <= k < i ==> #[trigger] units[k].0@ != units[j as int].0@,
                decreases j - i,
            {
                if compare_text(self.units[i].0.as_str(), substance.as_str()) == KeyOrder::Equal {
                    proof {
                        assert(units[i as int].0@ == units[j as int].0@);
                        assert(unit_fails(j as int));
                        assert(first_failing(units.len() as int, unit_fails, j as int));
                    }
                    return Err(ModelArtifactError::DuplicateUnit { substance: substance.clone() });
                }
                i = i + 1;
            }
            proof {
                assert(!unit_fails(j as int));
            }
            j = j + 1;
        }

        let registered = self.registry.iter();
        let mut k: usize = 0;
        while k < registered.len()
            invariant
                k <= registered@.len(),
                crate::substance_registry::substance_texts(registered@) == b.registry,
                forall|i: int| 0 <= i < specs.len() ==> !#[trigger] projection_fails(i),
                forall|i: int| 0 <= i < fs.len() ==> !#[trigger] forcing_fails(i),
                forall|i: int| 0 <= i < ts.len() ==> !#[trigger] table_fails(i),
                forall|i: int| 0 <= i < rules.len() ==> !#[trigger] rule_fails(i),
                forall|i: int| 0 <= i < units.len() ==> !#[trigger] unit_fails(i),
                forall|i: int| 0 <= i < k ==> !#[trigger] missing_unit(i),
            decreases registered.len() - k,
        {
            let mut found = false;
            let mut j: usize = 0;
            while j < self.units.len()
                invariant
                    j <= units.len(),
                    found ==> exists|q: int| 0 <= q < j && #[trigger] units[q].0@ == b.registry[k as int],
                    !found ==> forall|q: int| 0 <= q < j ==> #[trigger] units[q].0@ != b.registry[k as int],
                decreases self.units.len() - j,
            {
                if compare_text(self.units[j].0.as_str(), registered[k].as_str()) == KeyOrder::Equal {
                    found = true;
                }
                j = j + 1;
            }
            if !found {
                proof {
                    assert(missing_unit(k as int));
                    assert(first_failing(b.registry.len() as int, missing_unit, k as int));
                }
                return Err(ModelArtifactError::MissingUnit { substance: registered[k].clone() });
            }
            k = k + 1;
        }
        Ok(())
    }
}

/// The content of a model artifact.
pub struct ArtifactView {
    pub topology: TopologyView,
    pub registry: Seq<Seq<char>>,
    pub initial_stocks: StocksView,
    pub calendar: CalendarView,
    pub horizon: HorizonView,
    /// The projection set's specifications in authored order and its initial states.
    pub projections: (Seq<ProjectionSpec>, Seq<InitialProjectorState>),
    pub forcings: Seq<ForcingSeries>,
    pub tables: Seq<InterpolationTable>,
    pub rules: Seq<RuleDefinition>,
    pub units: Seq<(SubstanceId, UnitId)>,
    pub versions: ModelVersions,
}

/// `s` holds the members of `t`, in strictly increasing key order.
pub open spec fn canonical_arrangement<T: Keyed>(s: Seq<T>, t: Seq<T>) -> bool {
    keys_sorted(keys_of(s)) && s.to_multiset() == t.to_multiset()
}

/// The artifact `a` holds the components the builder `b` collected: forcing series, tables,
/// rules (by compartment, then substance) and units (by substance) in canonical identity order,
/// everything else as collected.
pub open spec fn artifact_of(b: BuilderView, a: ArtifactView) -> bool {
    &&& a.topology == b.topology
    &&& a.registry == b.registry
    &&& a.initial_stocks == b.initial_stocks
    &&& a.calendar == b.calendar
    &&& a.horizon == b.horizon
    &&& b.projections == Some(a.projections)
    &&& canonical_arrangement(a.forcings, b.forcings)
    &&& canonical_arrangement(a.tables, b.tables)
    &&& canonical_arrangement(a.rules, b.rules)
    &&& canonical_arrangement(a.units, b.units)
    &&& a.versions == b.versions
}

/// A model whose components have been checked to bind to one another.
#[derive(Debug)]
pub struct ModelArtifact {
    topology: Topology,
    registry: SubstanceRegistry,
    initial_stocks: InitialStocks,
    calendar: FixedStepCalendar,
    horizon: RunHorizon,
    projections: ProjectionSet,
    forcings: Vec<ForcingSeries>,
    tables: Vec<InterpolationTable>,
    rules: Vec<RuleDefinition>,
    units: Vec<(SubstanceId, UnitId)>,
    versions: ModelVersions,
}

impl View for ModelArtifact {
    type V = ArtifactView;

    closed spec fn view(&self) -> ArtifactView {
        ArtifactView {
            topology: self.topology@,
            registry: self.registry@,
            initial_stocks: self.initial_stocks@,
            calendar: self.calendar@,
            horizon: self.horizon@,
            projections: (self.projections.spec_specifications(), self.projections.spec_initial_states()),
            forcings: self.forcings@,
            tables: self.tables@,
            rules: self.rules@,
            units: self.units@,
            versions: self.versions,
        }
    }
}

proof fn lemma_distinct_keys<T: Keyed>(s: Seq<T>)
    requires
        forall|i: int, j: int| 0 <= i < j < s.len() ==> #[trigger] s[i].key() != #[trigger] s[j].key(),
    ensures
        keys_distinct(keys_of(s)),
{
    assert forall|i: int, j: int| 0 <= i < j < keys_of(s).len() implies #[trigger] keys_of(s)[i]
        != #[trigger] keys_of(s)[j] by {
        assert(s[i].key() != s[j].key());
    }
}

impl ModelArtifactBuilder {
    /// Checks the components as [`ModelArtifactBuilder::validate`] does and, when they bind,
    /// returns the artifact that holds them, with forcing series, tables, rules and units in
    /// canonical identity order.
    pub fn build(self) -> (r: Result<ModelArtifact, ModelArtifactError>)
        ensures
            validation_outcome(
                self@,
                (match r {
                    Ok(_) => Ok::<(), ModelArtifactError>(()),
                    Err(e) => Err(e),
                }),
            ),
            r matches Ok(a) ==> artifact_of(self@, a@),
    {
        match self.validate() {
            Err(e) => {
                return Err(e);
            },
            Ok(()) => {},
        }
        let ghost b = self@;
        proof {
            let fs = b.forcings;
            let ts = b.tables;
            let rs = b.rules;
            let us = b.units;
            assert(b.projections is Some);
            assert forall|i: int, j: int| 0 <= i < j < fs.len() implies #[trigger] fs[i].key()
                != #[trigger] fs[j].key() by {
                let forcing_fails = |j: int| forcing_error(fs, b.horizon, j) is Some;
                assert(!forcing_fails(j));
                if fs[i].key() == fs[j].key() {
                    assert(fs[i].key()[0] == fs[j].key()[0]);
                }
            }
            assert forall|i: int, j: int| 0 <= i < j < ts.len() implies #[trigger] ts[i].key()
                != #[trigger] ts[j].key() by {
                let table_fails = |j: int| table_error(ts, b.versions, j) is Some;
                assert(!table_fails(j));
                if ts[i].key() == ts[j].key() {
                    assert(ts[i].key()[0] == ts[j].key()[0]);
                }
            }
            assert forall|i: int, j: int| 0 <= i < j < rs.len() implies #[trigger] rs[i].key()
                != #[trigger] rs[j].key() by {
                let specs = (b.projections->0).0;
                let v = b.versions;
                let rule_fails = |j: int|
                    rule_shape_error(rs[j], b.topology, b.registry, v) is Some || !references_declared(
                        rs[j],
                        fs,
                        ts,
                        specs,
                    ) || rule_repeats(rs, j);
                assert(!rule_fails(j));
                if rs[i].key() == rs[j].key() {
                    assert(rs[i].key()[0] == rs[j].key()[0]);
                    assert(rs[i].key()[1] == rs[j].key()[1]);
                }
            }
            assert forall|i: int, j: int| 0 <= i < j < us.len() implies #[trigger] us[i].key()
                != #[trigger] us[j].key() by {
                let unit_fails = |j: int| unit_error(us, b.registry, j) is Some;
                assert(!unit_fails(j));
                if us[i].key() == us[j].key() {
                    assert(us[i].key()[0] == us[j].key()[0]);
                }
            }
            lemma_distinct_keys(fs);
            lemma_distinct_keys(ts);
            lemma_distinct_keys(rs);
            lemma_distinct_keys(us);
        }
        let ModelArtifactBuilder {
            topology,
            registry,
            initial_stocks,
            calendar,
            horizon,
            projections,
            forcings,
            tables,
            rules,
            units,
            versions,
        } = self;
        let projections = match projections {
            Some(p) => p,
            None => unreached(),
        };
        let forcings = match sort_unique(forcings) {
            Ok(v) => v,
            Err(_) => unreached(),
        };
        let tables = match sort_unique(tables) {
            Ok(v) => v,
            Err(_) => unreached(),
        };
        let rules = match sort_unique(rules) {
            Ok(v) => v,
            Err(_) => unreached(),
        };
        let units = match sort_unique(units) {
            Ok(v) => v,
            Err(_) => unreached(),
        };
        Ok(
            ModelArtifact {
                topology,
                registry,
                initial_stocks,
                calendar,
                horizon,
                projections,
                forcings,
                tables,
                rules,
                units,
                versions,
            },
        )
    }
}

impl ModelArtifact {
    /// Starts a model from its required components; see [`ModelArtifactBuilder::new`].
    pub fn builder(
        topology: Topology,
        registry: SubstanceRegistry,
        initial_stocks: InitialStocks,
        calendar: FixedStepCalendar,
        horizon: RunHorizon,
    ) -> (r: ModelArtifactBuilder)
        ensures
            r@.topology == topology@,
            r@.registry == registry@,
            r@.initial_stocks == initial_stocks@,
            r@.calendar == calendar@,
            r@.horizon == horizon@,
            r@.projections is None,
            r@.forcings.len() == 0,
            r@.tables.len() == 0,
            r@.rules.len() == 0,
            r@.units.len() == 0,
            r@.versions.spec_rule_ir() == RuleIrVersion::V1,
            r@.versions.spec_numerical_semantics() == NumericalSemanticsVersion::V1,
    {
        ModelArtifactBuilder::new(topology, registry, initial_stocks, calendar, horizon)
    }

    /// The topology.
    pub fn topology(&self) -> (r: &Topology)
        ensures
            r@ == self@.topology,
    {
        &self.topology
    }

    /// The substance registry.
    pub fn registry(&self) -> (r: &SubstanceRegistry)
        ensures
            r@ == self@.registry,
    {
        &self.registry
    }

    /// The initial stocks.
    pub fn initial_stocks(&self) -> (r: &InitialStocks)
        ensures
            r@ == self@.initial_stocks,
    {
        &self.initial_stocks
    }

    /// The projection set.
    pub fn projections(&self) -> (r: &ProjectionSet)
        ensures
            (r.spec_specifications(), r.spec_initial_states()) == self@.projections,
    {
        &self.projections
    }

    /// The calendar.
    pub fn calendar(&self) -> (r: FixedStepCalendar)
        ensures
            r@ == self@.calendar,
    {
        self.calendar
    }

    /// The run horizon.
    pub fn horizon(&self) -> (r: RunHorizon)
        ensures
            r@ == self@.horizon,
    {
        self.horizon
    }

    /// The version selection.
    pub fn versions(&self) -> (r: ModelVersions)
        ensures
            r == self@.versions,
    {
        self.versions
    }

    /// The forcing series in canonical identity order.
    pub fn forcings(&self) -> (r: &[ForcingSeries])
        ensures
            r@ == self@.forcings,
    {
        self.forcings.as_slice()
    }

    /// The interpolation tables in canonical identity order.
    pub fn tables(&self) -> (r: &[InterpolationTable])
        ensures
            r@ == self@.tables,
    {
        self.tables.as_slice()
    }

    /// The rules in canonical compartment-then-substance order.
    pub fn rules(&self) -> (r: &[RuleDefinition])
        ensures
            r@ == self@.rules,
    {
        self.rules.as_slice()
    }

    /// The unit declarations in canonical substance order.
    pub fn units(&self) -> (r: &[(SubstanceId, UnitId)])
        ensures
            r@ == self@.units,
    {
        self.units.as_slice()
    }
}

} // verus!
