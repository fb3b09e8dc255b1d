//! The authoritative fold of a log in whole quanta: every endpoint holds, per registered
//! substance, a signed count of quanta; Genesis seeds the finite compartments and every transfer
//! moves its counts from source to target. The binary64 side of the fold (splitting an amount
//! into whole quanta and a remainder, and back) is not computed here: the counts come in as
//! arguments, one per stock entry and one per transfer entry.

use vstd::prelude::*;

use crate::disposition::{
    endpoint_failure, check_last_transfer, check_replay_binding, in_horizon, last_transfer_outside,
    replay_binding_passes, replay_checks_outcome, replay_error_reports, transfer_failure,
    validate_transfer, StructuralFailure,
};
use crate::identity::{CompartmentId, SubstanceId};
use crate::keyed::{member_keyed, member_with_key, Keyed};
use crate::ledger::{AuthoritativeLog, LogView, ReplayError, Transfer, TransferView};
use crate::model_builder::{ArtifactView, ModelArtifact};
use crate::order::{lemma_text_lt_irreflexive, text_lt};
use crate::substance_registry::{strictly_sorted, substance_texts, SubstanceRegistry};
use crate::temporal::{HorizonView, RunHorizon, TimestepIndex};
use crate::topology::{endpoint_id, Topology, TopologyView};

verus! {

/// The position of the endpoint with identity `id` in the topology's canonical order.
pub open spec fn endpoint_position(t: TopologyView, id: Seq<char>) -> int {
    choose|p: int| 0 <= p < t.ids.len() && t.ids[p] == id
}

/// The position of substance `s` in the registry.
pub open spec fn substance_position(registry: Seq<Seq<char>>, s: Seq<char>) -> int {
    choose|i: int| 0 <= i < registry.len() && registry[i] == s
}

/// Counts for every endpoint (rows, canonical order) and registered substance (columns,
/// registry order).
pub open spec fn shaped(st: Seq<Seq<i64>>, endpoints: int, substances: int) -> bool {
    st.len() == endpoints && forall|p: int| 0 <= p < st.len() ==> (#[trigger] st[p]).len() == substances
}

/// Why the count fold stops.
pub enum FoldFailure {
    /// A check of a transfer fails.
    Check(StructuralFailure),
    /// A transfer moves a substance outside the registry.
    UnknownSubstance(Seq<char>),
    /// A count leaves the signed 64-bit range at this compartment, for this substance.
    Overflow(Seq<char>, Seq<char>),
    /// A finite compartment would give more quanta than it holds: compartment, substance,
    /// held, requested.
    Overdraw(Seq<char>, Seq<char>, int, int),
}

/// `st` with the count at row `p`, column `s` set to `v`.
pub open spec fn set_count(st: Seq<Seq<i64>>, p: int, s: int, v: i64) -> Seq<Seq<i64>> {
    st.update(p, st[p].update(s, v))
}

/// Moving `c` quanta of the substance `e.0` along transfer `tv`, from state `st`.
pub open spec fn entry_step(
    st: Seq<Seq<i64>>,
    t: TopologyView,
    registry: Seq<Seq<char>>,
    tv: TransferView,
    substance: Seq<char>,
    c: u64,
) -> Result<Seq<Seq<i64>>, FoldFailure> {
    if !registry.contains(substance) {
        Err(FoldFailure::UnknownSubstance(substance))
    } else {
        let s = substance_position(registry, substance);
        let p = endpoint_position(t, tv.source.1);
        let q = endpoint_position(t, tv.target.1);
        let held = st[p][s];
        if c > i64::MAX {
            Err(FoldFailure::Overflow(tv.source.1, substance))
        } else if tv.source.0 && c > held {
            Err(FoldFailure::Overdraw(tv.source.1, substance, held as int, c as int))
        } else if held - c < i64::MIN {
            Err(FoldFailure::Overflow(tv.source.1, substance))
        } else if st[q][s] + c > i64::MAX {
            Err(FoldFailure::Overflow(tv.target.1, substance))
        } else {
            Ok(set_count(set_count(st, p, s, (held - c) as i64), q, s, (st[q][s] + c) as i64))
        }
    }
}

/// Moving the counts `cs` of the entries `es` of transfer `tv`, in order.
pub open spec fn entries_step(
    st: Seq<Seq<i64>>,
    t: TopologyView,
    registry: Seq<Seq<char>>,
    tv: TransferView,
    es: Seq<(Seq<char>, u64)>,
    cs: Seq<u64>,
) -> Result<Seq<Seq<i64>>, FoldFailure>
    decreases es.len(),
{
    if es.len() == 0 {
        Ok(st)
    } else {
        match entry_step(st, t, registry, tv, es[0].0, cs[0]) {
            Err(f) => Err(f),
            Ok(next) => entries_step(next, t, registry, tv, es.drop_first(), cs.drop_first()),
        }
    }
}

/// Folding transfers `ts`, with entry counts `cs`, into `st`: each transfer is checked, then
/// its counts are moved; the first failure stops the fold, with the failing transfer's
/// timestep.
pub open spec fn transfers_fold(
    st: Seq<Seq<i64>>,
    t: TopologyView,
    h: HorizonView,
    registry: Seq<Seq<char>>,
    ts: Seq<TransferView>,
    cs: Seq<Seq<u64>>,
) -> Result<Seq<Seq<i64>>, (FoldFailure, TimestepIndex)>
    decreases ts.len(),
{
    if ts.len() == 0 {
        Ok(st)
    } else if transfer_failure(t, h, registry, ts[0]) is Some {
        Err((FoldFailure::Check(transfer_failure(t, h, registry, ts[0])->0), ts[0].timestep))
    } else {
        match entries_step(st, t, registry, ts[0], ts[0].amounts.entries, cs[0]) {
            Err(f) => Err((f, ts[0].timestep)),
            Ok(next) => transfers_fold(next, t, h, registry, ts.drop_first(), cs.drop_first()),
        }
    }
}

/// The seeded counts: a finite compartment holds its initial count, a boundary account none.
pub open spec fn seeded(a: ArtifactView, initial: Seq<Seq<u64>>) -> Seq<Seq<i64>> {
    Seq::new(
        a.topology.ids.len(),
        |p: int|
            Seq::new(
                a.registry.len(),
                |s: int|
                    if a.topology.endpoints[p] is Finite {
                        initial[p][s] as i64
                    } else {
                        0i64
                    },
            ),
    )
}

/// Seeding fails at row `p`, column `s`: a finite compartment's initial count exceeds the
/// signed 64-bit range.
pub open spec fn seed_fails(a: ArtifactView, initial: Seq<Seq<u64>>, p: int, s: int) -> bool {
    a.topology.endpoints[p] is Finite && initial[p][s] > i64::MAX
}

/// `(p2, s2)` comes before `(p, s)`, rows first.
pub open spec fn before(p2: int, s2: int, p: int, s: int) -> bool {
    p2 < p || (p2 == p && s2 < s)
}

/// Counts of the right shape for the artifact: one row per endpoint, one column per substance.
pub open spec fn counts_shaped(a: ArtifactView, initial: Seq<Seq<u64>>) -> bool {
    initial.len() == a.topology.ids.len() && forall|p: int|
        0 <= p < initial.len() ==> (#[trigger] initial[p]).len() == a.registry.len()
}

/// One count per entry of each transfer.
pub open spec fn transfer_counts_shaped(ts: Seq<TransferView>, cs: Seq<Seq<u64>>) -> bool {
    cs.len() == ts.len() && forall|k: int|
        0 <= k < cs.len() ==> (#[trigger] cs[k]).len() == ts[k].amounts.entries.len()
}

/// The failure of a count fold reported as an error.
#[derive(Clone, Debug, Eq, PartialEq)]
pub enum CountFoldError {
    /// A replay check fails.
    Replay { source: ReplayError },
    /// A finite compartment would give more quanta than it holds.
    Overdraw {
        compartment: CompartmentId,
        substance: SubstanceId,
        timestep: TimestepIndex,
        available_count: i64,
        requested_count: u64,
    },
}

/// `e` reports failure `f` of a transfer at `timestep` against horizon `h`.
pub open spec fn fold_error_reports(e: CountFoldError, f: FoldFailure, timestep: TimestepIndex, h: HorizonView) -> bool {
    match f {
        FoldFailure::Check(sf) => (e matches CountFoldError::Replay { source } && replay_error_reports(
            source,
            sf,
            timestep,
            h,
        )),
        FoldFailure::UnknownSubstance(s) => (e matches CountFoldError::Replay {
            source: ReplayError::ConservationReduction { substance },
        } && substance@ == s),
        FoldFailure::Overflow(c, s) => (e matches CountFoldError::Replay {
            source: ReplayError::NonFiniteFold { compartment, substance, timestep: x },
        } && compartment@ == c && substance@ == s && x == timestep),
        FoldFailure::Overdraw(c, s, held, requested) => (e matches CountFoldError::Overdraw {
            compartment,
            substance,
            timestep: x,
            available_count,
            requested_count,
        } && compartment@ == c && substance@ == s && x == timestep && available_count == held
            && requested_count == requested),
    }
}

/// Whole-quantum counts per endpoint and registered substance.
#[derive(Debug)]
pub struct StockCounts {
    endpoints: Vec<CompartmentId>,
    substances: Vec<SubstanceId>,
    counts: Vec<Vec<i64>>,
}

/// The content of stock counts.
pub struct StockCountsView {
    pub endpoints: Seq<Seq<char>>,
    pub substances: Seq<Seq<char>>,
    pub counts: Seq<Seq<i64>>,
}

/// The views of rows of counts.
pub open spec fn rows_view(rows: Seq<Vec<i64>>) -> Seq<Seq<i64>> {
    rows.map_values(|r: Vec<i64>| r@)
}

impl View for StockCounts {
    type V = StockCountsView;

    closed spec fn view(&self) -> StockCountsView {
        StockCountsView {
            endpoints: self.endpoints@.map_values(|c: CompartmentId| c@),
            substances: substance_texts(self.substances@),
            counts: rows_view(self.counts@),
        }
    }
}

/// No seeded count exceeds the signed 64-bit range.
pub open spec fn seed_passes(a: ArtifactView, initial: Seq<Seq<u64>>) -> bool {
    !exists|p: int, s: int|
        0 <= p < a.topology.ids.len() && 0 <= s < a.registry.len() && #[trigger] seed_fails(a, initial, p, s)
}

/// Replaying `log` in whole quanta against `a` succeeds.
pub open spec fn replay_succeeds(log: LogView, a: ArtifactView, initial: Seq<Seq<u64>>, cs: Seq<Seq<u64>>) -> bool {
    &&& replay_binding_passes(log, a)
    &&& seed_passes(a, initial)
    &&& !last_transfer_outside(log, a.horizon)
    &&& transfers_fold(seeded(a, initial), a.topology, a.horizon, a.registry, log.transfers, cs) is Ok
}

/// The counts a successful replay in whole quanta ends with.
pub open spec fn replayed(log: LogView, a: ArtifactView, initial: Seq<Seq<u64>>, cs: Seq<Seq<u64>>) -> Seq<Seq<i64>> {
    transfers_fold(seeded(a, initial), a.topology, a.horizon, a.registry, log.transfers, cs)->Ok_0
}

impl StockCounts {
    #[verifier::type_invariant]
    closed spec fn rectangular(self) -> bool {
        shaped(rows_view(self.counts@), self.endpoints@.len() as int, self.substances@.len() as int)
    }

    /// The rows of counts.
    pub(crate) fn into_rows(self) -> (r: Vec<Vec<i64>>)
        ensures
            rows_view(r@) == self@.counts,
            shaped(rows_view(r@), self@.endpoints.len() as int, self@.substances.len() as int),
    {
        proof {
            use_type_invariant(&self);
        }
        self.counts
    }

    /// The endpoint identities of the rows, in canonical order.
    pub fn endpoints(&self) -> (r: &[CompartmentId])
        ensures
            r@.map_values(|c: CompartmentId| c@) == self@.endpoints,
    {
        self.endpoints.as_slice()
    }

    /// The substance identities of the columns, in registry order.
    pub fn substances(&self) -> (r: &[SubstanceId])
        ensures
            substance_texts(r@) == self@.substances,
    {
        self.substances.as_slice()
    }

    /// The count of quanta `compartment` holds of `substance`, when both are known.
    pub fn count(&self, compartment: &CompartmentId, substance: &SubstanceId) -> (r: Option<i64>)
        ensures
            r matches Some(c) ==> exists|p: int, s: int|
                0 <= p < self@.endpoints.len() && 0 <= s < self@.substances.len() && self@.endpoints[p]
                    == compartment@ && self@.substances[s] == substance@ && self@.counts[p][s] == c,
            r is None ==> !self@.endpoints.contains(compartment@) || !self@.substances.contains(substance@),
    {
        let mut p: usize = 0;
        while p < self.endpoints.len()
            invariant
                p <= self.endpoints@.len(),
                forall|k: int| 0 <= k < p ==> #[trigger] self.endpoints@[k]@ != compartment@,
            decreases self.endpoints.len() - p,
        {
            if &self.endpoints[p] == compartment {
                let mut s: usize = 0;
                while s < self.substances.len()
                    invariant
                        p < self.endpoints@.len(),
                        self.endpoints@[p as int]@ == compartment@,
                        s <= self.substances@.len(),
                        forall|k: int| 0 <= k < s ==> #[trigger] self.substances@[k]@ != substance@,
                    decreases self.substances.len() - s,
                {
                    if &self.substances[s] == substance {
                        proof {
                            use_type_invariant(self);
                            assert(rows_view(self.counts@)[p as int] == self.counts@[p as int]@);
                        }
                        let c = self.counts[p][s];
                        proof {
                            assert(self@.endpoints[p as int] == compartment@);
                            assert(self@.substances[s as int] == substance@);
                            assert(self@.counts[p as int][s as int] == c);
                        }
                        return Some(c);
                    }
                    s = s + 1;
                }
                proof {
                    assert forall|k: int| 0 <= k < self@.substances.len() implies self@.substances[k] != substance@ by {
                        assert(self@.substances[k] == self.substances@[k]@);
                    }
                }
                return None;
            }
            p = p + 1;
        }
        proof {
            assert forall|k: int| 0 <= k < self@.endpoints.len() implies self@.endpoints[k] != compartment@ by {
                assert(self@.endpoints[k] == self.endpoints@[k]@);
            }
        }
        None
    }
}

/// The outcome of replaying `log` in whole quanta against the artifact `a`, from the initial
/// counts `initial` and the transfer entry counts `cs`. The checks are made in the order replay
/// makes them, the first failure deciding: the binding checks (Genesis and seal), seeding,
/// the last transfer of an unsealed log, then transfer by transfer its checks and its counts.
pub open spec fn replay_counts_outcome(
    log: LogView,
    a: ArtifactView,
    initial: Seq<Seq<u64>>,
    cs: Seq<Seq<u64>>,
    r: Result<StockCounts, CountFoldError>,
) -> bool {
    if !replay_binding_passes(log, a) {
        r matches Err(CountFoldError::Replay { source: e }) && replay_checks_outcome(log, a, Err(e))
    } else if exists|p: int, s: int|
        0 <= p < a.topology.ids.len() && 0 <= s < a.registry.len() && #[trigger] seed_fails(
            a,
            initial,
            p,
            s,
        ) {
        exists|p: int, s: int|
            0 <= p < a.topology.ids.len() && 0 <= s < a.registry.len() && seed_fails(a, initial, p, s)
                && (forall|p2: int, s2: int|
                0 <= p2 < a.topology.ids.len() && 0 <= s2 < a.registry.len() && before(p2, s2, p, s)
                    ==> !#[trigger] seed_fails(a, initial, p2, s2)) && (r matches Err(
                CountFoldError::Replay {
                    source: ReplayError::NonFiniteFold { compartment, substance, timestep },
                },
            ) && compartment@ == a.topology.ids[p] && substance@ == a.registry[s] && timestep@
                == a.horizon.first)
    } else if last_transfer_outside(log, a.horizon) {
        r matches Err(CountFoldError::Replay { source: e }) && replay_error_reports(
            e,
            StructuralFailure::OutsideHorizon,
            log.transfers.last().timestep,
            a.horizon,
        )
    } else {
        match transfers_fold(seeded(a, initial), a.topology, a.horizon, a.registry, log.transfers, cs) {
            Err((f, timestep)) => r matches Err(e) && fold_error_reports(e, f, timestep, a.horizon),
            Ok(st) => r matches Ok(sc) && sc@.counts == st && sc@.endpoints == a.topology.ids
                && sc@.substances == a.registry,
        }
    }
}

proof fn lemma_endpoint_position(t: TopologyView, p: int)
    requires
        t.ids.no_duplicates(),
        0 <= p < t.ids.len(),
    ensures
        endpoint_position(t, t.ids[p]) == p,
{
    let q = endpoint_position(t, t.ids[p]);
    assert(0 <= q < t.ids.len() && t.ids[q] == t.ids[p]);
}

proof fn lemma_substance_position(registry: Seq<Seq<char>>, i: int)
    requires
        strictly_sorted(registry),
        0 <= i < registry.len(),
    ensures
        substance_position(registry, registry[i]) == i,
{
    let q = substance_position(registry, registry[i]);
    assert(0 <= q < registry.len() && registry[q] == registry[i]);
    if q < i {
        assert(text_lt(registry[q], registry[i]));
        lemma_text_lt_irreflexive(registry[i]);
    } else if i < q {
        assert(text_lt(registry[i], registry[q]));
        lemma_text_lt_irreflexive(registry[i]);
    }
}

/// The position of the endpoint with identity `id`, if it is declared.
pub(crate) fn endpoint_index(topology: &Topology, id: &CompartmentId) -> (r: Option<usize>)
    ensures
        r matches Some(p) ==> p < topology@.ids.len() && topology@.ids[p as int] == id@
            && endpoint_position(topology@, id@) == p,
        r is None ==> !topology@.ids.contains(id@),
{
    let endpoints = topology.endpoints();
    let mut p: usize = 0;
    while p < endpoints.len()
        invariant
            p <= endpoints@.len(),
            topology@.ids.len() == endpoints@.len(),
            forall|k: int| 0 <= k < endpoints@.len() ==> #[trigger] topology@.ids[k] == endpoint_id(endpoints@[k]),
            topology@.ids.no_duplicates(),
            forall|k: int| 0 <= k < p ==> #[trigger] topology@.ids[k] != id@,
        decreases endpoints.len() - p,
    {
        if endpoints[p].id() == id {
            proof {
                lemma_endpoint_position(topology@, p as int);
            }
            return Some(p);
        }
        p = p + 1;
    }
    None
}

/// The position of substance `s` among `ids`, if it is registered.
fn substance_index(ids: &[SubstanceId], s: &SubstanceId) -> (r: Option<usize>)
    requires
        strictly_sorted(substance_texts(ids@)),
    ensures
        r matches Some(i) ==> i < ids@.len() && ids@[i as int]@ == s@ && substance_position(
            substance_texts(ids@),
            s@,
        ) == i,
        r is None ==> !substance_texts(ids@).contains(s@),
{
    let ghost reg = substance_texts(ids@);
    let mut i: usize = 0;
    while i < ids.len()
        invariant
            i <= ids@.len(),
            reg == substance_texts(ids@),
            strictly_sorted(reg),
            forall|k: int| 0 <= k < i ==> #[trigger] reg[k] != s@,
        decreases ids.len() - i,
    {
        if &ids[i] == s {
            proof {
                assert(reg[i as int] == s@);
                lemma_substance_position(reg, i as int);
            }
            return Some(i);
        }
        i = i + 1;
    }
    None
}

/// Sets the count at row `p`, column `s`.
fn set_cell(counts: &mut Vec<Vec<i64>>, p: usize, s: usize, v: i64)
    requires
        p < old(counts)@.len(),
        s < old(counts)@[p as int]@.len(),
    ensures
        rows_view(final(counts)@) == set_count(rows_view(old(counts)@), p as int, s as int, v),
        final(counts)@.len() == old(counts)@.len(),
        forall|k: int| 0 <= k < final(counts)@.len() ==> (#[trigger] final(counts)@[k])@.len() == old(counts)@[k]@.len(),
{
    let mut row = counts[p].clone();
    proof {
        assert(row@ =~= old(counts)@[p as int]@);
    }
    row.set(s, v);
    counts.set(p, row);
    proof {
        assert(rows_view(counts@) =~= set_count(rows_view(old(counts)@), p as int, s as int, v));
    }
}

proof fn lemma_entries_skip(
    st: Seq<Seq<i64>>,
    t: TopologyView,
    registry: Seq<Seq<char>>,
    tv: TransferView,
    es: Seq<(Seq<char>, u64)>,
    cs: Seq<u64>,
    i: int,
)
    requires
        0 <= i < es.len(),
        cs.len() == es.len(),
    ensures
        entries_step(st, t, registry, tv, es.skip(i), cs.skip(i)) == match entry_step(
            st,
            t,
            registry,
            tv,
            es[i].0,
            cs[i],
        ) {
            Err(f) => Err(f),
            Ok(next) => entries_step(next, t, registry, tv, es.skip(i + 1), cs.skip(i + 1)),
        },
{
    assert(es.skip(i)[0] == es[i]);
    assert(cs.skip(i)[0] == cs[i]);
    assert(es.skip(i).drop_first() =~= es.skip(i + 1));
    assert(cs.skip(i).drop_first() =~= cs.skip(i + 1));
}

/// Moves the entry counts `cs` of `transfer`, in entry order, in `counts`. The transfer has
/// passed its checks: both endpoints are declared and distinct.
fn apply_transfer_counts(
    counts: &mut Vec<Vec<i64>>,
    topology: &Topology,
    registry: &SubstanceRegistry,
    horizon: RunHorizon,
    transfer: &Transfer,
    cs: &Vec<u64>,
) -> (r: Result<(), CountFoldError>)
    requires
        shaped(rows_view(old(counts)@), topology@.ids.len() as int, registry@.len() as int),
        topology@.ids.contains(transfer@.source.1),
        topology@.ids.contains(transfer@.target.1),
        transfer@.source.1 != transfer@.target.1,
        cs@.len() == transfer@.amounts.entries.len(),
    ensures
        match entries_step(
            rows_view(old(counts)@),
            topology@,
            registry@,
            transfer@,
            transfer@.amounts.entries,
            cs@,
        ) {
            Ok(st) => r is Ok && rows_view(final(counts)@) == st,
            Err(f) => r matches Err(e) && fold_error_reports(e, f, transfer@.timestep, horizon@),
        },
{
    let ghost t = topology@;
    let ghost reg = registry@;
    let ghost tv = transfer@;
    let ghost es = transfer@.amounts.entries;
    let ghost st0 = rows_view(counts@);
    let entries = transfer.amounts().iter();
    let ids = registry.iter();
    let source = transfer.source();
    let target = transfer.target();
    let timestep = transfer.timestep();
    let p = match endpoint_index(topology, source.id()) {
        Some(p) => p,
        None => unreached(),
    };
    let q = match endpoint_index(topology, target.id()) {
        Some(q) => q,
        None => unreached(),
    };
    proof {
        assert(crate::sparse_substance_vector::entry_views(entries@) == es);
        assert(es.skip(0) =~= es);
        assert(cs@.skip(0) =~= cs@);
    }
    let mut i: usize = 0;
    while i < entries.len()
        invariant
            i <= entries@.len(),
            es == crate::sparse_substance_vector::entry_views(entries@),
            cs@.len() == es.len(),
            t == topology@,
            reg == registry@,
            tv == transfer@,
            substance_texts(ids@) == reg,
            strictly_sorted(reg),
            shaped(rows_view(counts@), t.ids.len() as int, reg.len() as int),
            p < t.ids.len(),
            q < t.ids.len(),
            p != q,
            endpoint_position(t, tv.source.1) == p,
            endpoint_position(t, tv.target.1) == q,
            tv.source.0 == (*source is Finite),
            tv.source.1 == crate::ledger::transfer_endpoint_id(*source),
            tv.target.1 == crate::ledger::transfer_endpoint_id(*target),
            timestep == tv.timestep,
            st0 == rows_view(old(counts)@),
            es == transfer@.amounts.entries,
            entries_step(st0, t, reg, tv, es, cs@) == entries_step(
                rows_view(counts@),
                t,
                reg,
                tv,
                es.skip(i as int),
                cs@.skip(i as int),
            ),
        decreases entries.len() - i,
    {
        let ghost st = rows_view(counts@);
        proof {
            lemma_entries_skip(st, t, reg, tv, es, cs@, i as int);
            assert(es[i as int].0 == entries@[i as int].0@);
        }
        let substance = &entries[i].0;
        let s = match substance_index(ids, substance) {
            Some(s) => s,
            None => {
                proof {
                    assert(!reg.contains(es[i as int].0));
                    assert(entry_step(st, t, reg, tv, es[i as int].0, cs@[i as int]) == Err::<
                        Seq<Seq<i64>>,
                        FoldFailure,
                    >(FoldFailure::UnknownSubstance(es[i as int].0)));
                    assert(entries_step(st, t, reg, tv, es.skip(i as int), cs@.skip(i as int)) == Err::<
                        Seq<Seq<i64>>,
                        FoldFailure,
                    >(FoldFailure::UnknownSubstance(es[i as int].0)));
                    assert(st0 == rows_view(old(counts)@));
                }
                let e = CountFoldError::Replay {
                    source: ReplayError::ConservationReduction { substance: substance.clone() },
                };
                proof {
                    assert(fold_error_reports(e, FoldFailure::UnknownSubstance(es[i as int].0), timestep, horizon@));
                }
                return Err(e);
            },
        };
        let c = cs[i];
        proof {
            assert(reg[s as int] == es[i as int].0);
            assert(reg.contains(es[i as int].0));
        }
        if c > 0x7fff_ffff_ffff_ffffu64 {
            return Err(
                CountFoldError::Replay {
                    source: ReplayError::NonFiniteFold {
                        compartment: source.id().clone(),
                        substance: substance.clone(),
                        timestep,
                    },
                },
            );
        }
        let held = counts[p][s];
        let c64 = c as i64;
        if source.is_finite() && c64 > held {
            return Err(
                CountFoldError::Overdraw {
                    compartment: source.id().clone(),
                    substance: substance.clone(),
                    timestep,
                    available_count: held,
                    requested_count: c,
                },
            );
        }
        if (held as i128) - (c as i128) < -0x8000_0000_0000_0000i128 {
            return Err(
                CountFoldError::Replay {
                    source: ReplayError::NonFiniteFold {
                        compartment: source.id().clone(),
                        substance: substance.clone(),
                        timestep,
                    },
                },
            );
        }
        let there = counts[q][s];
        if (there as i128) + (c as i128) > 0x7fff_ffff_ffff_ffffi128 {
            return Err(
                CountFoldError::Replay {
                    source: ReplayError::NonFiniteFold {
                        compartment: target.id().clone(),
                        substance: substance.clone(),
                        timestep,
                    },
                },
            );
        }
        set_cell(counts, p, s, held - c64);
        set_cell(counts, q, s, there + c64);
        i = i + 1;
    }
    proof {
        assert(es.skip(i as int).len() == 0);
    }
    Ok(())
}

/// The topology view's identities are those of its endpoints, in order.
pub open spec fn ids_match(t: TopologyView) -> bool {
    t.ids.len() == t.endpoints.len() && forall|k: int|
        0 <= k < t.ids.len() ==> #[trigger] t.ids[k] == endpoint_id(t.endpoints[k])
}

pub(crate) proof fn lemma_declared(t: TopologyView, e: (bool, Seq<char>))
    requires
        ids_match(t),
        endpoint_failure(t, e) is None,
    ensures
        t.ids.contains(e.1),
{
    let x = member_with_key(t.endpoints, seq![e.1])->0;
    assert(member_keyed(t.endpoints, seq![e.1], x));
    let k = choose|k: int| 0 <= k < t.endpoints.len() && t.endpoints[k] == x;
    assert(x.key()[0] == e.1);
    assert(t.ids[k] == e.1);
}

proof fn lemma_checked_transfer(t: TopologyView, h: HorizonView, registry: Seq<Seq<char>>, tv: TransferView)
    requires
        ids_match(t),
        transfer_failure(t, h, registry, tv) is None,
    ensures
        t.ids.contains(tv.source.1),
        t.ids.contains(tv.target.1),
        tv.source.1 != tv.target.1,
{
    lemma_declared(t, tv.source);
    lemma_declared(t, tv.target);
}

proof fn lemma_entries_shape(
    st: Seq<Seq<i64>>,
    t: TopologyView,
    registry: Seq<Seq<char>>,
    tv: TransferView,
    es: Seq<(Seq<char>, u64)>,
    cs: Seq<u64>,
)
    requires
        shaped(st, t.ids.len() as int, registry.len() as int),
        t.ids.contains(tv.source.1),
        t.ids.contains(tv.target.1),
        entries_step(st, t, registry, tv, es, cs) is Ok,
    ensures
        shaped(entries_step(st, t, registry, tv, es, cs)->Ok_0, t.ids.len() as int, registry.len() as int),
    decreases es.len(),
{
    if es.len() > 0 {
        let next = entry_step(st, t, registry, tv, es[0].0, cs[0])->Ok_0;
        let s = substance_position(registry, es[0].0);
        let p = endpoint_position(t, tv.source.1);
        let q = endpoint_position(t, tv.target.1);
        assert(0 <= s < registry.len());
        assert(0 <= p < t.ids.len());
        assert(0 <= q < t.ids.len());
        assert(shaped(next, t.ids.len() as int, registry.len() as int)) by {
            assert forall|r: int| 0 <= r < next.len() implies (#[trigger] next[r]).len() == registry.len() by {
                assert(st[r].len() == registry.len());
            }
        }
        lemma_entries_shape(next, t, registry, tv, es.drop_first(), cs.drop_first());
    }
}

proof fn lemma_transfers_skip(
    st: Seq<Seq<i64>>,
    t: TopologyView,
    h: HorizonView,
    registry: Seq<Seq<char>>,
    ts: Seq<TransferView>,
    cs: Seq<Seq<u64>>,
    k: int,
)
    requires
        0 <= k < ts.len(),
        cs.len() == ts.len(),
        transfer_failure(t, h, registry, ts[k]) is None,
    ensures
        transfers_fold(st, t, h, registry, ts.skip(k), cs.skip(k)) == match entries_step(
            st,
            t,
            registry,
            ts[k],
            ts[k].amounts.entries,
            cs[k],
        ) {
            Err(f) => Err((f, ts[k].timestep)),
            Ok(next) => transfers_fold(next, t, h, registry, ts.skip(k + 1), cs.skip(k + 1)),
        },
{
    assert(ts.skip(k)[0] == ts[k]);
    assert(cs.skip(k)[0] == cs[k]);
    assert(ts.skip(k).drop_first() =~= ts.skip(k + 1));
    assert(cs.skip(k).drop_first() =~= cs.skip(k + 1));
}

/// Folds `transfers`, with entry counts `cs`, into `counts`: each transfer is checked, then its
/// counts are moved; the first failure stops the fold.
pub(crate) fn fold_transfers(
    counts: &mut Vec<Vec<i64>>,
    topology: &Topology,
    horizon: RunHorizon,
    registry: &SubstanceRegistry,
    transfers: &[Transfer],
    cs: &Vec<Vec<u64>>,
) -> (r: Result<(), CountFoldError>)
    requires
        ids_match(topology@),
        shaped(rows_view(old(counts)@), topology@.ids.len() as int, registry@.len() as int),
        transfer_counts_shaped(crate::ledger::transfer_views(transfers@), rows_u64(cs@)),
    ensures
        match transfers_fold(
            rows_view(old(counts)@),
            topology@,
            horizon@,
            registry@,
            crate::ledger::transfer_views(transfers@),
            rows_u64(cs@),
        ) {
            Ok(st) => r is Ok && rows_view(final(counts)@) == st,
            Err((f, timestep)) => r matches Err(e) && fold_error_reports(e, f, timestep, horizon@),
        },
{
    let ghost ts = crate::ledger::transfer_views(transfers@);
    let ghost css = rows_u64(cs@);
    let ghost st0 = rows_view(counts@);
    let ghost t = topology@;
    let ghost h = horizon@;
    let ghost reg = registry@;
    proof {
        assert(ts.skip(0) =~= ts);
        assert(css.skip(0) =~= css);
    }
    let mut k: usize = 0;
    while k < transfers.len()
        invariant
            k <= transfers@.len(),
            ts == crate::ledger::transfer_views(transfers@),
            css == rows_u64(cs@),
            transfer_counts_shaped(ts, css),
            t == topology@,
            h == horizon@,
            reg == registry@,
            ids_match(t),
            st0 == rows_view(old(counts)@),
            shaped(rows_view(counts@), t.ids.len() as int, reg.len() as int),
            transfers_fold(st0, t, h, reg, ts, css) == transfers_fold(
                rows_view(counts@),
                t,
                h,
                reg,
                ts.skip(k as int),
                css.skip(k as int),
            ),
        decreases transfers.len() - k,
    {
        let ghost st = rows_view(counts@);
        proof {
            assert(ts[k as int] == transfers@[k as int]@);
        }
        match validate_transfer(&transfers[k], topology, horizon, registry) {
            Err(e) => {
                proof {
                    assert(ts.skip(k as int)[0] == ts[k as int]);
                }
                return Err(CountFoldError::Replay { source: e });
            },
            Ok(()) => {},
        }
        proof {
            lemma_transfers_skip(st, t, h, reg, ts, css, k as int);
            lemma_checked_transfer(t, h, reg, ts[k as int]);
            assert(css[k as int] == cs@[k as int]@);
        }
        match apply_transfer_counts(counts, topology, registry, horizon, &transfers[k], &cs[k]) {
            Err(e) => {
                return Err(e);
            },
            Ok(()) => {},
        }
        proof {
            lemma_entries_shape(st, t, reg, ts[k as int], ts[k as int].amounts.entries, css[k as int]);
        }
        k = k + 1;
    }
    proof {
        assert(ts.skip(k as int).len() == 0);
    }
    Ok(())
}

/// The views of rows of handed-in counts.
pub open spec fn rows_u64(rows: Seq<Vec<u64>>) -> Seq<Seq<u64>> {
    rows.map_values(|r: Vec<u64>| r@)
}

/// Replays `log` against `artifact` in whole quanta. `initial_counts[p][s]` is the whole number
/// of quanta in the initial stock of the artifact's `p`-th endpoint (canonical order) for the
/// `s`-th registered substance, and `transfer_counts[k][i]` the number of quanta the `k`-th
/// transfer moves in its `i`-th entry; both are the binary64 splits of those amounts, made by
/// the caller. The checks and the fold are made in the order replay makes them, the first
/// failure deciding; on success the result is the fold of the transfer counts, in log order,
/// over the seeded counts.
pub fn replay_counts(
    log: &AuthoritativeLog,
    artifact: &ModelArtifact,
    initial_counts: &Vec<Vec<u64>>,
    transfer_counts: &Vec<Vec<u64>>,
) -> (r: Result<StockCounts, CountFoldError>)
    requires
        counts_shaped(artifact@, rows_u64(initial_counts@)),
        transfer_counts_shaped(log@.transfers, rows_u64(transfer_counts@)),
    ensures
        replay_counts_outcome(log@, artifact@, rows_u64(initial_counts@), rows_u64(transfer_counts@), r),
        r is Ok <==> replay_succeeds(log@, artifact@, rows_u64(initial_counts@), rows_u64(transfer_counts@)),
        r matches Ok(sc) ==> sc@.counts == replayed(
            log@,
            artifact@,
            rows_u64(initial_counts@),
            rows_u64(transfer_counts@),
        ) && sc@.endpoints == artifact@.topology.ids && sc@.substances == artifact@.registry,
{
    let ghost a = artifact@;
    let ghost init = rows_u64(initial_counts@);
    let ghost cs = rows_u64(transfer_counts@);
    match check_replay_binding(log, artifact) {
        Err(e) => {
            return Err(CountFoldError::Replay { source: e });
        },
        Ok(()) => {},
    }
    let topology = artifact.topology();
    let horizon = artifact.horizon();
    let registry = artifact.registry();
    let endpoints = topology.endpoints();
    let ids = registry.iter();
    let ghost seed = seeded(a, init);
    proof {
        assert(ids_match(a.topology));
    }
    // Seeding, endpoint by endpoint and substance by substance.
    let mut counts: Vec<Vec<i64>> = Vec::new();
    let mut p: usize = 0;
    while p < endpoints.len()
        invariant
            p <= endpoints@.len(),
            a == artifact@,
            init == rows_u64(initial_counts@),
            counts_shaped(a, init),
            endpoints@ == a.topology.endpoints,
            a.topology.ids.len() == endpoints@.len(),
            substance_texts(ids@) == a.registry,
            seed == seeded(a, init),
            replay_binding_passes(log@, a),
            horizon@ == a.horizon,
            ids_match(a.topology),
            rows_view(counts@) == seed.take(p as int),
            forall|p2: int, s2: int|
                0 <= p2 < p && 0 <= s2 < a.registry.len() ==> !#[trigger] seed_fails(a, init, p2, s2),
        decreases endpoints.len() - p,
    {
        let finite = endpoints[p].is_finite();
        let mut row: Vec<i64> = Vec::new();
        let mut s: usize = 0;
        while s < ids.len()
            invariant
                p < endpoints@.len(),
                s <= ids@.len(),
                a == artifact@,
                init == rows_u64(initial_counts@),
                counts_shaped(a, init),
                endpoints@ == a.topology.endpoints,
                a.topology.ids.len() == endpoints@.len(),
                substance_texts(ids@) == a.registry,
                seed == seeded(a, init),
                finite == (endpoints@[p as int] is Finite),
                replay_binding_passes(log@, a),
                horizon@ == a.horizon,
                ids_match(a.topology),
                rows_view(counts@) == seed.take(p as int),
                row@ == seed[p as int].take(s as int),
                forall|p2: int, s2: int|
                    0 <= p2 < p && 0 <= s2 < a.registry.len() ==> !#[trigger] seed_fails(a, init, p2, s2),
                forall|s2: int| 0 <= s2 < s ==> !#[trigger] seed_fails(a, init, p as int, s2),
            decreases ids.len() - s,
        {
            if finite {
                proof {
                    assert(init[p as int] == initial_counts@[p as int]@);
                }
                let c = initial_counts[p][s];
                if c > 0x7fff_ffff_ffff_ffffu64 {
                    proof {
                        assert(seed_fails(a, init, p as int, s as int));
                        assert forall|p2: int, s2: int|
                            0 <= p2 < a.topology.ids.len() && 0 <= s2 < a.registry.len() && before(
                                p2,
                                s2,
                                p as int,
                                s as int,
                            ) implies !#[trigger] seed_fails(a, init, p2, s2) by {
                            if p2 == p {
                                assert(!seed_fails(a, init, p as int, s2));
                            }
                        }
                        assert(a.topology.ids[p as int] == endpoint_id(endpoints@[p as int]));
                        assert(a.registry[s as int] == ids@[s as int]@);
                    }
                    return Err(
                        CountFoldError::Replay {
                            source: ReplayError::NonFiniteFold {
                                compartment: endpoints[p].id().clone(),
                                substance: ids[s].clone(),
                                timestep: horizon.first(),
                            },
                        },
                    );
                }
                row.push(c as i64);
            } else {
                row.push(0i64);
            }
            proof {
                assert(row@ =~= seed[p as int].take(s + 1));
            }
            s = s + 1;
        }
        proof {
            assert(row@ =~= seed[p as int]);
        }
        let ghost prev = counts@;
        let ghost last = row@;
        counts.push(row);
        proof {
            assert(counts@ == prev.push(row));
            assert(rows_view(counts@) =~= rows_view(prev).push(last));
            assert(seed.take(p + 1) =~= seed.take(p as int).push(seed[p as int]));
        }
        p = p + 1;
    }
    proof {
        assert(seed.take(p as int) =~= seed);
        assert(!exists|p: int, s: int|
            0 <= p < a.topology.ids.len() && 0 <= s < a.registry.len() && #[trigger] seed_fails(
                a,
                init,
                p,
                s,
            ));
    }
    match check_last_transfer(log, horizon) {
        Err(e) => {
            return Err(CountFoldError::Replay { source: e });
        },
        Ok(()) => {},
    }
    // The fold, transfer by transfer.
    let transfers = log.transfers();
    proof {
        assert(cs == rows_u64(transfer_counts@));
    }
    match fold_transfers(&mut counts, topology, horizon, registry, transfers, transfer_counts) {
        Err(e) => {
            return Err(e);
        },
        Ok(()) => {},
    }
    // The identities of the rows and columns.
    let mut names: Vec<CompartmentId> = Vec::new();
    let mut e: usize = 0;
    while e < endpoints.len()
        invariant
            e <= endpoints@.len(),
            endpoints@ == a.topology.endpoints,
            ids_match(a.topology),
            names@.map_values(|c: CompartmentId| c@) == a.topology.ids.take(e as int),
        decreases endpoints.len() - e,
    {
        let ghost prev = names@;
        let id = endpoints[e].id().clone();
        names.push(id);
        proof {
            assert(names@ == prev.push(id));
            assert(names@.map_values(|c: CompartmentId| c@) =~= prev.map_values(|c: CompartmentId| c@).push(id@));
            assert(a.topology.ids[e as int] == endpoint_id(endpoints@[e as int]));
            assert(a.topology.ids.take(e + 1) =~= a.topology.ids.take(e as int).push(a.topology.ids[e as int]));
        }
        e = e + 1;
    }
    let mut substances: Vec<SubstanceId> = Vec::new();
    let mut j: usize = 0;
    while j < ids.len()
        invariant
            j <= ids@.len(),
            substance_texts(substances@) == substance_texts(ids@).take(j as int),
        decreases ids.len() - j,
    {
        let ghost prev = substances@;
        let x = ids[j].clone();
        substances.push(x);
        proof {
            assert(substances@ == prev.push(x));
            assert(substance_texts(substances@) =~= substance_texts(prev).push(x@));
            assert(substance_texts(ids@).take(j + 1) =~= substance_texts(ids@).take(j as int).push(ids@[j as int]@));
        }
        j = j + 1;
    }
    proof {
        assert(a.topology.ids.take(e as int) =~= a.topology.ids);
        assert(substance_texts(ids@).take(j as int) =~= substance_texts(ids@));
        assert(shaped(seed, a.topology.ids.len() as int, a.registry.len() as int));
        law_fold_conserves(seed, a.topology, a.horizon, a.registry, log@.transfers, cs);
    }
    Ok(StockCounts { endpoints: names, substances, counts })
}

/// The total count of the substance in column `s`, over every endpoint.
pub open spec fn substance_total(st: Seq<Seq<i64>>, s: int) -> int
    decreases st.len(),
{
    if st.len() == 0 {
        0
    } else {
        substance_total(st.drop_last(), s) + st.last()[s]
    }
}

proof fn lemma_total_update(st: Seq<Seq<i64>>, p: int, row: Seq<i64>, s: int)
    requires
        0 <= p < st.len(),
    ensures
        substance_total(st.update(p, row), s) == substance_total(st, s) - st[p][s] + row[s],
    decreases st.len(),
{
    if p == st.len() - 1 {
        assert(st.update(p, row).drop_last() =~= st.drop_last());
    } else {
        assert(st.update(p, row).drop_last() =~= st.drop_last().update(p, row));
        lemma_total_update(st.drop_last(), p, row, s);
    }
}

proof fn lemma_entry_conserves(
    st: Seq<Seq<i64>>,
    t: TopologyView,
    registry: Seq<Seq<char>>,
    tv: TransferView,
    substance: Seq<char>,
    c: u64,
    x: int,
)
    requires
        shaped(st, t.ids.len() as int, registry.len() as int),
        t.ids.contains(tv.source.1),
        t.ids.contains(tv.target.1),
        tv.source.1 != tv.target.1,
        entry_step(st, t, registry, tv, substance, c) is Ok,
        0 <= x < registry.len(),
    ensures
        substance_total(entry_step(st, t, registry, tv, substance, c)->Ok_0, x) == substance_total(st, x),
{
    let s = substance_position(registry, substance);
    let p = endpoint_position(t, tv.source.1);
    let q = endpoint_position(t, tv.target.1);
    assert(t.ids[p] == tv.source.1 && t.ids[q] == tv.target.1);
    assert(p != q);
    let held = st[p][s];
    let st1 = set_count(st, p, s, (held - c) as i64);
    lemma_total_update(st, p, st[p].update(s, (held - c) as i64), x);
    assert(st1[q] == st[q]);
    lemma_total_update(st1, q, st[q].update(s, (st[q][s] + c) as i64), x);
}

proof fn lemma_entries_conserves(
    st: Seq<Seq<i64>>,
    t: TopologyView,
    registry: Seq<Seq<char>>,
    tv: TransferView,
    es: Seq<(Seq<char>, u64)>,
    cs: Seq<u64>,
    x: int,
)
    requires
        shaped(st, t.ids.len() as int, registry.len() as int),
        t.ids.contains(tv.source.1),
        t.ids.contains(tv.target.1),
        tv.source.1 != tv.target.1,
        entries_step(st, t, registry, tv, es, cs) is Ok,
        0 <= x < registry.len(),
    ensures
        substance_total(entries_step(st, t, registry, tv, es, cs)->Ok_0, x) == substance_total(st, x),
    decreases es.len(),
{
    if es.len() > 0 {
        let next = entry_step(st, t, registry, tv, es[0].0, cs[0])->Ok_0;
        lemma_entry_conserves(st, t, registry, tv, es[0].0, cs[0], x);
        lemma_entries_shape(st, t, registry, tv, seq![es[0]], seq![cs[0]]);
        assert(seq![es[0]].drop_first() =~= Seq::<(Seq<char>, u64)>::empty());
        assert(entries_step(next, t, registry, tv, seq![es[0]].drop_first(), seq![cs[0]].drop_first())
            == Ok::<Seq<Seq<i64>>, FoldFailure>(next));
        lemma_entries_conserves(next, t, registry, tv, es.drop_first(), cs.drop_first(), x);
    }
}

/// One successful step of the fold moves exactly the quanta it names: the count of the named
/// substance falls by `c` at the transfer's source and rises by `c` at its target, and every
/// other count, of any endpoint and any substance, stays as it was.
pub proof fn law_entry_step_moves(
    st: Seq<Seq<i64>>,
    t: TopologyView,
    registry: Seq<Seq<char>>,
    tv: TransferView,
    substance: Seq<char>,
    c: u64,
)
    requires
        shaped(st, t.ids.len() as int, registry.len() as int),
        t.ids.no_duplicates(),
        strictly_sorted(registry),
        t.ids.contains(tv.source.1),
        t.ids.contains(tv.target.1),
        tv.source.1 != tv.target.1,
        entry_step(st, t, registry, tv, substance, c) is Ok,
    ensures
        registry.contains(substance),
        shaped(entry_step(st, t, registry, tv, substance, c)->Ok_0, t.ids.len() as int, registry.len() as int),
        forall|r: int, k: int|
            0 <= r < t.ids.len() && 0 <= k < registry.len() ==> (#[trigger] entry_step(
                st,
                t,
                registry,
                tv,
                substance,
                c,
            )->Ok_0[r][k]) == if registry[k] == substance && t.ids[r] == tv.source.1 {
                st[r][k] - c
            } else if registry[k] == substance && t.ids[r] == tv.target.1 {
                st[r][k] + c
            } else {
                st[r][k] as int
            },
{
    let s = substance_position(registry, substance);
    let p = endpoint_position(t, tv.source.1);
    let q = endpoint_position(t, tv.target.1);
    assert(0 <= s < registry.len() && registry[s] == substance);
    assert(0 <= p < t.ids.len() && t.ids[p] == tv.source.1);
    assert(0 <= q < t.ids.len() && t.ids[q] == tv.target.1);
    let out = entry_step(st, t, registry, tv, substance, c)->Ok_0;
    assert forall|r: int| 0 <= r < out.len() implies (#[trigger] out[r]).len() == registry.len() by {
        assert(st[r].len() == registry.len());
    }
    assert forall|r: int, k: int| 0 <= r < t.ids.len() && 0 <= k < registry.len() implies (#[trigger] out[r][k])
        == if registry[k] == substance && t.ids[r] == tv.source.1 {
            st[r][k] - c
        } else if registry[k] == substance && t.ids[r] == tv.target.1 {
            st[r][k] + c
        } else {
            st[r][k] as int
        } by {
        lemma_substance_position(registry, k);
        lemma_endpoint_position(t, r);
    }
}

/// Folding transfers conserves every substance: when the fold succeeds, the total count of
/// each registered substance over all endpoints is what it was before the first transfer.
pub proof fn law_fold_conserves(
    st: Seq<Seq<i64>>,
    t: TopologyView,
    h: HorizonView,
    registry: Seq<Seq<char>>,
    ts: Seq<TransferView>,
    cs: Seq<Seq<u64>>,
)
    requires
        ids_match(t),
        shaped(st, t.ids.len() as int, registry.len() as int),
        transfers_fold(st, t, h, registry, ts, cs) is Ok,
    ensures
        shaped(transfers_fold(st, t, h, registry, ts, cs)->Ok_0, t.ids.len() as int, registry.len() as int),
        forall|x: int|
            0 <= x < registry.len() ==> substance_total(
                #[trigger] transfers_fold(st, t, h, registry, ts, cs)->Ok_0,
                x,
            ) == substance_total(st, x),
    decreases ts.len(),
{
    if ts.len() > 0 {
        lemma_checked_transfer(t, h, registry, ts[0]);
        let next = entries_step(st, t, registry, ts[0], ts[0].amounts.entries, cs[0])->Ok_0;
        lemma_entries_shape(st, t, registry, ts[0], ts[0].amounts.entries, cs[0]);
        assert forall|x: int| 0 <= x < registry.len() implies substance_total(next, x) == substance_total(st, x) by {
            lemma_entries_conserves(st, t, registry, ts[0], ts[0].amounts.entries, cs[0], x);
        }
        law_fold_conserves(next, t, h, registry, ts.drop_first(), cs.drop_first());
    }
}

/// A successful replay in whole quanta conserves every substance: the total count of each
/// registered substance over all endpoints after the last transfer equals its total in the
/// counts Genesis seeds.
pub proof fn law_replay_conserves(a: ArtifactView, initial: Seq<Seq<u64>>, ts: Seq<TransferView>, cs: Seq<Seq<u64>>)
    requires
        ids_match(a.topology),
        counts_shaped(a, initial),
        transfers_fold(seeded(a, initial), a.topology, a.horizon, a.registry, ts, cs) is Ok,
    ensures
        forall|x: int|
            0 <= x < a.registry.len() ==> substance_total(
                #[trigger] transfers_fold(seeded(a, initial), a.topology, a.horizon, a.registry, ts, cs)->Ok_0,
                x,
            ) == substance_total(seeded(a, initial), x),
{
    let seed = seeded(a, initial);
    assert(shaped(seed, a.topology.ids.len() as int, a.registry.len() as int));
    law_fold_conserves(seed, a.topology, a.horizon, a.registry, ts, cs);
}

} // verus!
