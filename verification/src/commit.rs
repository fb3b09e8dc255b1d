//! The write boundary for dispositions: a disposition is checked against the log, the artifact
//! and the whole-quantum fold, and its transfers are appended all together or not at all.

use vstd::prelude::*;

use crate::disposition::{
    check_entry_substances, context_outcome, coverage_outcome, disposition_targets, endpoint_view,
    entries_registered, entry_substances, validate_transaction_context, Allocation, Disposition,
    SubstanceDisposition, TransactionError,
};
use crate::identity::{CompartmentId, SubstanceId};
use crate::ledger::{transfer_views, AuthoritativeLog, LogView, Transfer, TransferEndpoint, TransferView};
use crate::model_builder::{ArtifactView, ModelArtifact};
use crate::sparse_substance_vector::{SparseSubstanceVector, SparseView};
use crate::stock_counts::{
    counts_shaped, endpoint_index, endpoint_position, fold_error_reports, fold_transfers, ids_match,
    lemma_declared, law_fold_conserves, replay_counts, replay_counts_outcome, replay_succeeds,
    replayed, rows_u64, rows_view, seeded, shaped, transfer_counts_shaped, transfers_fold,
    CountFoldError,
};
use crate::substance_registry::substance_texts;
use crate::temporal::TimestepIndex;

verus! {

/// The position of the entry for substance `x`.
pub open spec fn entry_position(subs: Seq<SubstanceDisposition>, x: Seq<char>) -> int {
    choose|e: int| 0 <= e < subs.len() && subs[e].spec_substance()@ == x
}

/// The sum of counts.
pub open spec fn counts_total(cs: Seq<u64>) -> int
    decreases cs.len(),
{
    if cs.len() == 0 {
        0
    } else {
        counts_total(cs.drop_last()) + cs.last()
    }
}

/// The transfer an allocation of `substance` from `source` at `timestep` becomes.
pub open spec fn move_view(
    timestep: TimestepIndex,
    source: Seq<char>,
    registry: Seq<Seq<char>>,
    substance: Seq<char>,
    a: Allocation,
) -> TransferView {
    TransferView {
        timestep,
        source: (true, source),
        target: endpoint_view(a.spec_target()),
        amounts: SparseView { registry, entries: seq![(substance, a.spec_amount()@)] },
    }
}

/// The transfers, with their counts, that the allocations `allocs` with counts `cs` become:
/// one per allocation with a non-zero count, in authored order.
pub open spec fn allocation_moves(
    timestep: TimestepIndex,
    source: Seq<char>,
    registry: Seq<Seq<char>>,
    substance: Seq<char>,
    allocs: Seq<Allocation>,
    cs: Seq<u64>,
) -> Seq<(TransferView, u64)>
    decreases allocs.len(),
{
    if allocs.len() == 0 {
        seq![]
    } else {
        let rest = allocation_moves(timestep, source, registry, substance, allocs.drop_last(), cs.drop_last());
        if cs.last() == 0 {
            rest
        } else {
            rest.push((move_view(timestep, source, registry, substance, allocs.last()), cs.last()))
        }
    }
}

/// The transfers, with their counts, of the first `k` registered substances, in registry order.
pub open spec fn disposition_moves(
    timestep: TimestepIndex,
    source: Seq<char>,
    registry: Seq<Seq<char>>,
    subs: Seq<SubstanceDisposition>,
    ac: Seq<Seq<u64>>,
    k: int,
) -> Seq<(TransferView, u64)>
    decreases k,
{
    if k <= 0 {
        seq![]
    } else {
        let e = entry_position(subs, registry[k - 1]);
        disposition_moves(timestep, source, registry, subs, ac, k - 1) + allocation_moves(
            timestep,
            source,
            registry,
            registry[k - 1],
            subs[e].spec_allocations(),
            ac[e],
        )
    }
}

/// The transfers of moves.
pub open spec fn move_transfers(moves: Seq<(TransferView, u64)>) -> Seq<TransferView> {
    moves.map_values(|m: (TransferView, u64)| m.0)
}

/// The entry counts of moves: one entry each.
pub open spec fn move_counts(moves: Seq<(TransferView, u64)>) -> Seq<Seq<u64>> {
    moves.map_values(|m: (TransferView, u64)| seq![m.1])
}

/// Substance `k` of the registry is not balanced by the entries: it has no entry, or its
/// allocations exceed what the source holds, or the declared retained count is not the rest.
pub open spec fn balance_fails(
    held: Seq<i64>,
    registry: Seq<Seq<char>>,
    subs: Seq<SubstanceDisposition>,
    ac: Seq<Seq<u64>>,
    rc: Seq<u64>,
    k: int,
) -> bool {
    let e = entry_position(subs, registry[k]);
    ||| !entry_substances(subs).contains(registry[k])
    ||| counts_total(ac[e]) > held[k]
    ||| rc[e] != held[k] - counts_total(ac[e])
}

/// Why a disposition could not be committed.
#[derive(Clone, Debug, Eq, PartialEq)]
pub enum CommitError {
    /// The context or the entries of the disposition fail.
    Transaction { source: TransactionError },
    /// Replaying the log, or folding the new transfers, fails.
    Fold { source: CountFoldError },
    /// The allocations of a substance exceed what the source holds.
    Overdraw {
        compartment: CompartmentId,
        substance: SubstanceId,
        timestep: TimestepIndex,
        available_count: i64,
        requested_count: u128,
    },
    /// The declared retained count is not what the allocations leave.
    IncompletePartition {
        compartment: CompartmentId,
        substance: SubstanceId,
        timestep: TimestepIndex,
        available_count: i64,
        allocated_count: u128,
        retained_count: u64,
    },
}

/// The outcome of committing the disposition of `source` at `timestep` with entries `subs`,
/// allocation counts `ac` and retained counts `rc`, to `log` against `a`, with the replay counts
/// `init` and `tc`. The checks are made in this order, the first failure deciding: the log
/// replays; the disposition's context; its entries name registered substances, none twice; then
/// substance by substance in registry order it has an entry, its allocations do not exceed what
/// the source holds, and its retained count is the rest; then the new transfers fold.
pub open spec fn commit_outcome(
    log: LogView,
    a: ArtifactView,
    source: Seq<char>,
    timestep: TimestepIndex,
    subs: Seq<SubstanceDisposition>,
    init: Seq<Seq<u64>>,
    tc: Seq<Seq<u64>>,
    ac: Seq<Seq<u64>>,
    rc: Seq<u64>,
    r: Result<(), CommitError>,
) -> bool {
    let targets = disposition_targets(subs);
    if !replay_succeeds(log, a, init, tc) {
        r matches Err(CommitError::Fold { source: e }) && replay_counts_outcome(log, a, init, tc, Err(e))
    } else if !context_outcome(log, a.topology, a.horizon, timestep, source, targets, Ok(())) {
        r matches Err(CommitError::Transaction { source: e }) && context_outcome(
            log,
            a.topology,
            a.horizon,
            timestep,
            source,
            targets,
            Err(e),
        )
    } else if !entries_registered(a.registry, subs) {
        r matches Err(CommitError::Transaction { source: e }) && coverage_outcome(
            a.registry,
            source,
            timestep,
            subs,
            Err(e),
        )
    } else {
        let st = replayed(log, a, init, tc);
        let held = st[endpoint_position(a.topology, source)];
        if exists|k: int| 0 <= k < a.registry.len() && #[trigger] balance_fails(held, a.registry, subs, ac, rc, k) {
            exists|k: int|
                0 <= k < a.registry.len() && balance_fails(held, a.registry, subs, ac, rc, k) && (forall|
                    k2: int,
                |
                    0 <= k2 < k ==> !#[trigger] balance_fails(held, a.registry, subs, ac, rc, k2))
                    && {
                    let e = entry_position(subs, a.registry[k]);
                    if !entry_substances(subs).contains(a.registry[k]) {
                        r matches Err(CommitError::Transaction {
                            source: TransactionError::OmittedSubstance { compartment, substance, timestep: t },
                        }) && compartment@ == source && substance@ == a.registry[k] && t == timestep
                    } else if counts_total(ac[e]) > held[k] {
                        r matches Err(CommitError::Overdraw {
                            compartment,
                            substance,
                            timestep: t,
                            available_count,
                            requested_count,
                        }) && compartment@ == source && substance@ == a.registry[k] && t == timestep
                            && available_count == held[k] && requested_count == counts_total(ac[e])
                    } else {
                        r matches Err(CommitError::IncompletePartition {
                            compartment,
                            substance,
                            timestep: t,
                            available_count,
                            allocated_count,
                            retained_count,
                        }) && compartment@ == source && substance@ == a.registry[k] && t == timestep
                            && available_count == held[k] && allocated_count == counts_total(ac[e])
                            && retained_count == rc[e]
                    }
                }
        } else {
            let moves = disposition_moves(timestep, source, a.registry, subs, ac, a.registry.len() as int);
            match transfers_fold(st, a.topology, a.horizon, a.registry, move_transfers(moves), move_counts(moves)) {
                Err((f, t)) => r matches Err(CommitError::Fold { source: e }) && fold_error_reports(
                    e,
                    f,
                    t,
                    a.horizon,
                ),
                Ok(_) => r is Ok,
            }
        }
    }
}

/// The position of the entry for `x`; the entries name distinct registered substances.
fn find_entry(subs: &[SubstanceDisposition], x: &SubstanceId, Ghost(registry): Ghost<Seq<Seq<char>>>) -> (r:
    Option<usize>)
    requires
        entries_registered(registry, subs@),
    ensures
        r matches Some(e) ==> e < subs@.len() && subs@[e as int].spec_substance()@ == x@ && entry_position(
            subs@,
            x@,
        ) == e,
        r is None ==> !entry_substances(subs@).contains(x@),
{
    let ghost names = entry_substances(subs@);
    let mut e: usize = 0;
    while e < subs.len()
        invariant
            e <= subs@.len(),
            names == entry_substances(subs@),
            entries_registered(registry, subs@),
            forall|k: int| 0 <= k < e ==> #[trigger] names[k] != x@,
        decreases subs.len() - e,
    {
        if subs[e].substance() == x {
            proof {
                let q = entry_position(subs@, x@);
                assert(0 <= q < subs@.len() && subs@[q].spec_substance()@ == x@);
                if q != e as int {
                    let (i, j) = if q < e as int { (q, e as int) } else { (e as int, q) };
                    assert(names[i] == names[j]);
                    assert(crate::disposition::entry_fails(registry, names, j));
                }
            }
            return Some(e);
        }
        proof {
            assert(names[e as int] == subs@[e as int].spec_substance()@);
        }
        e = e + 1;
    }
    None
}

/// The sum of `cs`.
fn allocation_total(cs: &Vec<u64>) -> (r: u128)
    ensures
        r == counts_total(cs@),
{
    let mut total: u128 = 0;
    let mut j: usize = 0;
    while j < cs.len()
        invariant
            j <= cs@.len(),
            total == counts_total(cs@.take(j as int)),
            total <= j * 0xffff_ffff_ffff_ffffu128,
        decreases cs.len() - j,
    {
        proof {
            assert(cs@.take(j + 1).drop_last() =~= cs@.take(j as int));
        }
        total = total + cs[j] as u128;
        j = j + 1;
    }
    proof {
        assert(cs@.take(j as int) =~= cs@);
    }
    total
}

proof fn lemma_moves_concat(a: Seq<(TransferView, u64)>, b: Seq<(TransferView, u64)>)
    ensures
        move_transfers(a + b) == move_transfers(a) + move_transfers(b),
        move_counts(a + b) == move_counts(a) + move_counts(b),
{
    assert(move_transfers(a + b) =~= move_transfers(a) + move_transfers(b));
    assert(move_counts(a + b) =~= move_counts(a) + move_counts(b));
}

/// Appends the transfers, and their counts, that the allocations of `substance` become.
fn push_moves(
    transfers: &mut Vec<Transfer>,
    counts: &mut Vec<Vec<u64>>,
    timestep: TimestepIndex,
    source: &crate::endpoints::FiniteCompartment,
    registry: &crate::substance_registry::SubstanceRegistry,
    substance: &SubstanceId,
    allocs: &[Allocation],
    cs: &Vec<u64>,
)
    requires
        registry@.contains(substance@),
        cs@.len() == allocs@.len(),
        forall|j: int| 0 <= j < cs@.len() && #[trigger] cs@[j] != 0 ==> allocs@[j].spec_amount()@ != 0,
    ensures
        transfer_views(final(transfers)@) == transfer_views(old(transfers)@) + move_transfers(
            allocation_moves(timestep, source@, registry@, substance@, allocs@, cs@),
        ),
        rows_u64(final(counts)@) == rows_u64(old(counts)@) + move_counts(
            allocation_moves(timestep, source@, registry@, substance@, allocs@, cs@),
        ),
{
    let ghost t0 = transfer_views(transfers@);
    let ghost c0 = rows_u64(counts@);
    let mut j: usize = 0;
    proof {
        assert(allocs@.take(0) =~= Seq::<Allocation>::empty());
        assert(cs@.take(0) =~= Seq::<u64>::empty());
        assert(t0 + move_transfers(Seq::<(TransferView, u64)>::empty()) =~= t0);
        assert(c0 + move_counts(Seq::<(TransferView, u64)>::empty()) =~= c0);
    }
    while j < allocs.len()
        invariant
            j <= allocs@.len(),
            cs@.len() == allocs@.len(),
            registry@.contains(substance@),
            forall|i: int| 0 <= i < cs@.len() && #[trigger] cs@[i] != 0 ==> allocs@[i].spec_amount()@ != 0,
            t0 == transfer_views(old(transfers)@),
            c0 == rows_u64(old(counts)@),
            transfer_views(transfers@) == t0 + move_transfers(
                allocation_moves(timestep, source@, registry@, substance@, allocs@.take(j as int), cs@.take(j as int)),
            ),
            rows_u64(counts@) == c0 + move_counts(
                allocation_moves(timestep, source@, registry@, substance@, allocs@.take(j as int), cs@.take(j as int)),
            ),
        decreases allocs.len() - j,
    {
        let ghost before = allocation_moves(
            timestep,
            source@,
            registry@,
            substance@,
            allocs@.take(j as int),
            cs@.take(j as int),
        );
        proof {
            assert(allocs@.take(j + 1).drop_last() =~= allocs@.take(j as int));
            assert(cs@.take(j + 1).drop_last() =~= cs@.take(j as int));
            assert(allocs@.take(j + 1).last() == allocs@[j as int]);
            assert(cs@.take(j + 1).last() == cs@[j as int]);
        }
        let c = cs[j];
        if c != 0 {
            let allocation = &allocs[j];
            let amounts = SparseSubstanceVector::single(registry, substance.clone(), allocation.amount());
            let transfer = Transfer::new(
                timestep,
                TransferEndpoint::Finite(source.clone()),
                allocation.target().clone(),
                amounts,
            );
            let ghost tprev = transfers@;
            let ghost cprev = counts@;
            transfers.push(transfer);
            let mut row: Vec<u64> = Vec::new();
            row.push(c);
            counts.push(row);
            proof {
                let m = (move_view(timestep, source@, registry@, substance@, allocs@[j as int]), c);
                assert(transfer@ == m.0);
                assert(transfers@ == tprev.push(transfer));
                assert(transfer_views(transfers@) =~= transfer_views(tprev).push(transfer@));
                assert(counts@ == cprev.push(row));
                assert(rows_u64(counts@) =~= rows_u64(cprev).push(seq![c]));
                lemma_moves_concat(before, seq![m]);
                assert(before.push(m) =~= before + seq![m]);
                assert(move_transfers(seq![m]) =~= seq![m.0]);
                assert(move_counts(seq![m]) =~= seq![seq![m.1]]);
                assert(t0 + move_transfers(before.push(m)) =~= t0 + move_transfers(before) + seq![m.0]);
                assert(c0 + move_counts(before.push(m)) =~= c0 + move_counts(before) + seq![seq![m.1]]);
            }
        }
        j = j + 1;
    }
    proof {
        assert(allocs@.take(j as int) =~= allocs@);
        assert(cs@.take(j as int) =~= cs@);
    }
}

/// Allocation counts, one per allocation of each entry, and retained counts, one per entry; a
/// non-zero count belongs to a non-zero amount.
pub open spec fn allocation_counts_shaped(subs: Seq<SubstanceDisposition>, ac: Seq<Seq<u64>>, rc: Seq<u64>) -> bool {
    &&& ac.len() == subs.len()
    &&& rc.len() == subs.len()
    &&& forall|e: int| 0 <= e < subs.len() ==> (#[trigger] ac[e]).len() == subs[e].spec_allocations().len()
    &&& forall|e: int, j: int|
        0 <= e < subs.len() && 0 <= j < ac[e].len() && #[trigger] ac[e][j] != 0 ==> subs[e].spec_allocations()[j].spec_amount()@
            != 0
}

/// Every move is a transfer at `timestep` with one entry.
pub open spec fn moves_at(moves: Seq<(TransferView, u64)>, timestep: TimestepIndex) -> bool {
    forall|i: int|
        0 <= i < moves.len() ==> (#[trigger] moves[i]).0.timestep == timestep && moves[i].0.amounts.entries.len() == 1
}

proof fn lemma_allocation_moves_at(
    timestep: TimestepIndex,
    source: Seq<char>,
    registry: Seq<Seq<char>>,
    substance: Seq<char>,
    allocs: Seq<Allocation>,
    cs: Seq<u64>,
)
    ensures
        moves_at(allocation_moves(timestep, source, registry, substance, allocs, cs), timestep),
    decreases allocs.len(),
{
    if allocs.len() > 0 {
        lemma_allocation_moves_at(timestep, source, registry, substance, allocs.drop_last(), cs.drop_last());
    }
}

proof fn lemma_disposition_moves_at(
    timestep: TimestepIndex,
    source: Seq<char>,
    registry: Seq<Seq<char>>,
    subs: Seq<SubstanceDisposition>,
    ac: Seq<Seq<u64>>,
    k: int,
)
    ensures
        moves_at(disposition_moves(timestep, source, registry, subs, ac, k), timestep),
    decreases k,
{
    if k > 0 {
        let e = entry_position(subs, registry[k - 1]);
        lemma_disposition_moves_at(timestep, source, registry, subs, ac, k - 1);
        lemma_allocation_moves_at(timestep, source, registry, registry[k - 1], subs[e].spec_allocations(), ac[e]);
        let a = disposition_moves(timestep, source, registry, subs, ac, k - 1);
        let b = allocation_moves(timestep, source, registry, registry[k - 1], subs[e].spec_allocations(), ac[e]);
        assert forall|i: int| 0 <= i < (a + b).len() implies (#[trigger] (a + b)[i]).0.timestep == timestep
            && (a + b)[i].0.amounts.entries.len() == 1 by {
            if i < a.len() {
                assert((a + b)[i] == a[i]);
            } else {
                assert((a + b)[i] == b[i - a.len()]);
            }
        }
    }
}

/// Commits a disposition: replays the log in whole quanta, checks the disposition's context
/// and entries, then substance by substance in registry order that it has an entry whose
/// allocations do not exceed what the source holds and whose retained count is the rest, then
/// folds the new transfers, one per non-zero allocation (substances in registry order,
/// allocations in authored order), and appends them all. The first failing check decides the
/// error, and on any error the log is unchanged. `initial_counts` and `transfer_counts` are as
/// for [`replay_counts`]; `allocation_counts[e][j]` is the whole number of quanta of the `j`-th
/// allocation of the `e`-th entry, and `retained_counts[e]` that of the entry's retained
/// amount, both binary64 splits made by the caller.
pub fn commit_disposition(
    log: &mut AuthoritativeLog,
    artifact: &ModelArtifact,
    disposition: Disposition,
    initial_counts: &Vec<Vec<u64>>,
    transfer_counts: &Vec<Vec<u64>>,
    allocation_counts: &Vec<Vec<u64>>,
    retained_counts: &Vec<u64>,
) -> (r: Result<(), CommitError>)
    requires
        counts_shaped(artifact@, rows_u64(initial_counts@)),
        transfer_counts_shaped(old(log)@.transfers, rows_u64(transfer_counts@)),
        allocation_counts_shaped(disposition.spec_substances(), rows_u64(allocation_counts@), retained_counts@),
    ensures
        commit_outcome(
            old(log)@,
            artifact@,
            disposition.spec_source()@,
            disposition.spec_timestep(),
            disposition.spec_substances(),
            rows_u64(initial_counts@),
            rows_u64(transfer_counts@),
            rows_u64(allocation_counts@),
            retained_counts@,
            r,
        ),
        r is Err ==> final(log)@ == old(log)@,
        r is Ok ==> final(log)@ == (LogView {
            genesis: old(log)@.genesis,
            transfers: old(log)@.transfers + move_transfers(
                disposition_moves(
                    disposition.spec_timestep(),
                    disposition.spec_source()@,
                    artifact@.registry,
                    disposition.spec_substances(),
                    rows_u64(allocation_counts@),
                    artifact@.registry.len() as int,
                ),
            ),
            seal: old(log)@.seal,
        }),
{
    let ghost a = artifact@;
    let ghost init = rows_u64(initial_counts@);
    let ghost tc = rows_u64(transfer_counts@);
    let ghost ac = rows_u64(allocation_counts@);
    let ghost rc = retained_counts@;
    let ghost old_log = log@;
    let before = match replay_counts(log, artifact, initial_counts, transfer_counts) {
        Err(e) => {
            return Err(CommitError::Fold { source: e });
        },
        Ok(c) => c,
    };
    match validate_transaction_context(log, artifact, &disposition) {
        Err(e) => {
            return Err(CommitError::Transaction { source: e });
        },
        Ok(()) => {},
    }
    match check_entry_substances(artifact, &disposition) {
        Err(e) => {
            return Err(CommitError::Transaction { source: e });
        },
        Ok(()) => {},
    }
    let topology = artifact.topology();
    let horizon = artifact.horizon();
    let registry = artifact.registry();
    let ids = registry.iter();
    let _ = topology.endpoints();
    let source = disposition.source();
    let timestep = disposition.timestep();
    let subs = disposition.substances();
    let ghost src = source@;
    let ghost subs_v = subs@;
    proof {
        assert(ids_match(a.topology));
        lemma_declared(a.topology, (true, src));
    }
    let p = match endpoint_index(topology, source.id()) {
        Some(p) => p,
        None => unreached(),
    };
    let ghost st = replayed(old_log, a, init, tc);
    let mut rows = before.into_rows();
    let ghost held = st[p as int];
    proof {
        assert(rows_view(rows@)[p as int] == rows@[p as int]@);
    }
    let mut nt: Vec<Transfer> = Vec::new();
    let mut nc: Vec<Vec<u64>> = Vec::new();
    proof {
        assert(transfer_views(nt@) =~= move_transfers(disposition_moves(timestep, src, a.registry, subs_v, ac, 0)));
        assert(rows_u64(nc@) =~= move_counts(disposition_moves(timestep, src, a.registry, subs_v, ac, 0)));
    }
    let mut k: usize = 0;
    while k < ids.len()
        invariant
            k <= ids@.len(),
            a == artifact@,
            substance_texts(ids@) == a.registry,
            subs_v == subs@,
            subs_v == disposition.spec_substances(),
            src == disposition.spec_source()@,
            timestep == disposition.spec_timestep(),
            ac == rows_u64(allocation_counts@),
            rc == retained_counts@,
            allocation_counts_shaped(subs_v, ac, rc),
            entries_registered(a.registry, subs_v),
            registry@ == a.registry,
            p < rows@.len(),
            rows_view(rows@) == st,
            held == st[p as int],
            held.len() == a.registry.len(),
            old_log == old(log)@,
            old_log == log@,
            init == rows_u64(initial_counts@),
            tc == rows_u64(transfer_counts@),
            replay_succeeds(old_log, a, init, tc),
            st == replayed(old_log, a, init, tc),
            context_outcome(old_log, a.topology, a.horizon, timestep, src, disposition_targets(subs_v), Ok(())),
            endpoint_position(a.topology, src) == p,
            src == source@,
            timestep == disposition.spec_timestep(),
            forall|k2: int| 0 <= k2 < k ==> !#[trigger] balance_fails(held, a.registry, subs_v, ac, rc, k2),
            transfer_views(nt@) == move_transfers(disposition_moves(timestep, src, a.registry, subs_v, ac, k as int)),
            rows_u64(nc@) == move_counts(disposition_moves(timestep, src, a.registry, subs_v, ac, k as int)),
        decreases ids.len() - k,
    {
        proof {
            assert(a.registry[k as int] == ids@[k as int]@);
        }
        let e = match find_entry(subs, &ids[k], Ghost(a.registry)) {
            Some(e) => e,
            None => {
                proof {
                    assert(balance_fails(held, a.registry, subs_v, ac, rc, k as int));
                }
                return Err(
                    CommitError::Transaction {
                        source: TransactionError::OmittedSubstance {
                            compartment: source.id().clone(),
                            substance: ids[k].clone(),
                            timestep,
                        },
                    },
                );
            },
        };
        proof {
            assert(ac[e as int] == allocation_counts@[e as int]@);
            assert(rows_view(rows@)[p as int] == rows@[p as int]@);
        }
        let total = allocation_total(&allocation_counts[e]);
        let available = rows[p][k];
        proof {
            assert(available == held[k as int]);
            assert(entry_substances(subs_v)[e as int] == a.registry[k as int]);
            assert(entry_substances(subs_v).contains(a.registry[k as int]));
            assert(entry_position(subs_v, a.registry[k as int]) == e);
            assert(total == counts_total(ac[e as int]));
        }
        if available < 0 || total > available as u128 {
            proof {
                assert(balance_fails(held, a.registry, subs_v, ac, rc, k as int));
            }
            return Err(
                CommitError::Overdraw {
                    compartment: source.id().clone(),
                    substance: ids[k].clone(),
                    timestep,
                    available_count: available,
                    requested_count: total,
                },
            );
        }
        let retained = retained_counts[e];
        if retained as u128 != (available as u128) - total {
            proof {
                assert(balance_fails(held, a.registry, subs_v, ac, rc, k as int));
            }
            return Err(
                CommitError::IncompletePartition {
                    compartment: source.id().clone(),
                    substance: ids[k].clone(),
                    timestep,
                    available_count: available,
                    allocated_count: total,
                    retained_count: retained,
                },
            );
        }
        proof {
            assert(!balance_fails(held, a.registry, subs_v, ac, rc, k as int));
            assert(a.registry.contains(ids@[k as int]@));
            assert forall|j: int| 0 <= j < ac[e as int].len() && #[trigger] ac[e as int][j] != 0 implies subs_v[e as int].spec_allocations()[j].spec_amount()@ != 0 by {}
        }
        let ghost moves_k = disposition_moves(timestep, src, a.registry, subs_v, ac, k as int);
        push_moves(&mut nt, &mut nc, timestep, source, registry, &ids[k], subs[e].allocations(), &allocation_counts[e]);
        proof {
            lemma_moves_concat(
                moves_k,
                allocation_moves(timestep, src, a.registry, a.registry[k as int], subs_v[e as int].spec_allocations(), ac[e as int]),
            );
        }
        k = k + 1;
    }
    let ghost moves = disposition_moves(timestep, src, a.registry, subs_v, ac, a.registry.len() as int);
    proof {
        lemma_disposition_moves_at(timestep, src, a.registry, subs_v, ac, a.registry.len() as int);
        assert(transfer_counts_shaped(transfer_views(nt@), rows_u64(nc@))) by {
            assert forall|i: int| 0 <= i < rows_u64(nc@).len() implies (#[trigger] rows_u64(nc@)[i]).len()
                == transfer_views(nt@)[i].amounts.entries.len() by {
                assert(moves_at(moves, timestep));
                assert(move_counts(moves)[i] == seq![moves[i].1]);
                assert(move_transfers(moves)[i] == moves[i].0);
            }
        }
        assert(shaped(st, a.topology.ids.len() as int, a.registry.len() as int)) by {
            law_fold_conserves(seeded(a, init), a.topology, a.horizon, a.registry, old_log.transfers, tc);
            assert(shaped(seeded(a, init), a.topology.ids.len() as int, a.registry.len() as int));
        }
    }
    match fold_transfers(&mut rows, topology, horizon, registry, nt.as_slice(), &nc) {
        Err(e) => {
            return Err(CommitError::Fold { source: e });
        },
        Ok(()) => {},
    }
    let mut staged = log.clone();
    let mut j: usize = 0;
    proof {
        assert(old_log.transfers + transfer_views(nt@).take(0) =~= old_log.transfers);
    }
    while j < nt.len()
        invariant
            j <= nt@.len(),
            old_log == log@,
            transfer_views(nt@) == move_transfers(moves),
            moves_at(moves, timestep),
            old_log.seal is None,
            !(old_log.transfers.len() > 0 && timestep@ < old_log.transfers.last().timestep@),
            staged@ == (LogView {
                genesis: old_log.genesis,
                transfers: old_log.transfers + transfer_views(nt@).take(j as int),
                seal: None,
            }),
        decreases nt.len() - j,
    {
        let transfer = nt[j].clone();
        proof {
            assert(transfer_views(nt@)[j as int] == nt@[j as int]@);
            assert(move_transfers(moves)[j as int] == moves[j as int].0);
            assert(transfer@.timestep == timestep);
            if j > 0 {
                assert(staged@.transfers.last() == transfer_views(nt@)[j - 1]);
                assert(move_transfers(moves)[j - 1] == moves[j - 1].0);
            }
        }
        match staged.append(transfer) {
            Err(_) => unreached(),
            Ok(()) => {},
        }
        proof {
            assert(old_log.transfers + transfer_views(nt@).take(j + 1) =~= (old_log.transfers
                + transfer_views(nt@).take(j as int)).push(transfer_views(nt@)[j as int]));
        }
        j = j + 1;
    }
    proof {
        assert(transfer_views(nt@).take(j as int) =~= transfer_views(nt@));
    }
    *log = staged;
    Ok(())
}

} // verus!
