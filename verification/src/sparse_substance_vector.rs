//! Registry-bound sparse vectors of non-negative substance amounts: only non-zero amounts are
//! stored, in canonical registry order.

use vstd::prelude::*;

use crate::identity::SubstanceId;
use crate::keyed::{
    keys_distinct, keys_of, keys_sorted, lemma_key_order_1, lemma_permutation_contains,
    lemma_sorted_distinct, sort_unique, Key, Keyed,
};
use crate::numerical_semantics::NonNegativeAmount;
use crate::order::{compare_text, KeyOrder};
use crate::presence::ValueState;
use crate::substance_registry::SubstanceRegistry;

verus! {

impl Keyed for (SubstanceId, NonNegativeAmount) {
    open spec fn key(&self) -> Key {
        seq![self.0@]
    }

    fn compare_keys(&self, other: &Self) -> (r: KeyOrder) {
        proof {
            lemma_key_order_1(self.0@, other.0@);
        }
        compare_text(self.0.as_str(), other.0.as_str())
    }
}

/// The amount stored for substance `x`: that of its entry, or zero when it has none.
pub open spec fn stored_bits(entries: Seq<(SubstanceId, NonNegativeAmount)>, x: Seq<char>) -> u64 {
    if exists|k: int| 0 <= k < entries.len() && #[trigger] entries[k].0@ == x {
        entries[choose|k: int| 0 <= k < entries.len() && #[trigger] entries[k].0@ == x].1@
    } else {
        0
    }
}

/// Entry `j` is the first that names an unregistered substance or repeats an earlier one.
pub open spec fn first_invalid_entry(
    registry: Seq<Seq<char>>,
    entries: Seq<(SubstanceId, NonNegativeAmount)>,
    j: int,
) -> bool {
    &&& 0 <= j < entries.len()
    &&& entry_invalid(registry, entries, j)
    &&& forall|i: int| 0 <= i < j ==> !#[trigger] entry_invalid(registry, entries, i)
}

/// Entry `j` names an unregistered substance or repeats an earlier one.
pub open spec fn entry_invalid(
    registry: Seq<Seq<char>>,
    entries: Seq<(SubstanceId, NonNegativeAmount)>,
    j: int,
) -> bool {
    !registry.contains(entries[j].0@) || exists|i: int| 0 <= i < j && entries[i].0@ == entries[j].0@
}

/// A registry-bound sparse vector of non-negative substance amounts.
#[derive(Debug, PartialEq, Eq)]
pub struct SparseSubstanceVector {
    registry: SubstanceRegistry,
    entries: Vec<(SubstanceId, NonNegativeAmount)>,
}

/// Reports why a sparse substance vector could not be constructed.
#[derive(Debug, PartialEq, Eq)]
pub enum SparseSubstanceVectorError {
    /// Fires when an input identity is outside the supplied registry.
    UnregisteredSubstance { substance: SubstanceId },
    /// Fires when an input identity has already appeared in the constructor input.
    DuplicateSubstance { substance: SubstanceId },
}

impl SparseSubstanceVector {
    #[verifier::type_invariant]
    closed spec fn canonical(self) -> bool {
        &&& keys_sorted(keys_of(self.entries@))
        &&& forall|k: int| 0 <= k < self.entries@.len() ==> self.registry@.contains(#[trigger] self.entries@[k].0@)
        &&& forall|k: int| 0 <= k < self.entries@.len() ==> (#[trigger] self.entries@[k]).1@ != 0
    }

    /// The registry the vector is bound to.
    pub closed spec fn spec_registry(&self) -> Seq<Seq<char>> {
        self.registry@
    }

    /// The stored non-zero entries in canonical registry order.
    pub closed spec fn spec_entries(&self) -> Seq<(SubstanceId, NonNegativeAmount)> {
        self.entries@
    }

    /// The vector bound to a copy of `registry` that holds `amount` of `substance` alone.
    pub fn single(registry: &SubstanceRegistry, substance: SubstanceId, amount: NonNegativeAmount) -> (r: Self)
        requires
            registry@.contains(substance@),
            amount@ != 0,
        ensures
            r@ == (SparseView { registry: registry@, entries: seq![(substance@, amount@)] }),
    {
        let mut entries: Vec<(SubstanceId, NonNegativeAmount)> = Vec::new();
        entries.push((substance, amount));
        let r = SparseSubstanceVector { registry: registry.clone(), entries };
        proof {
            assert(entry_views(r.entries@) =~= seq![(substance@, amount@)]);
        }
        r
    }

    /// Constructs a canonical sparse vector bound to a copy of `registry`. The first entry that
    /// names an unregistered substance or repeats an earlier one is rejected; zero amounts are
    /// not stored.
    pub fn new(registry: &SubstanceRegistry, entries: Vec<(SubstanceId, NonNegativeAmount)>) -> (r:
        Result<Self, SparseSubstanceVectorError>)
        ensures
            forall|j: int|
                first_invalid_entry(registry@, entries@, j) ==> r == Err::<
                    Self,
                    SparseSubstanceVectorError,
                >(
                    if !registry@.contains(entries@[j].0@) {
                        SparseSubstanceVectorError::UnregisteredSubstance { substance: entries@[j].0 }
                    } else {
                        SparseSubstanceVectorError::DuplicateSubstance { substance: entries@[j].0 }
                    },
                ),
            (forall|j: int| 0 <= j < entries@.len() ==> !#[trigger] entry_invalid(registry@, entries@, j))
                ==> {
                &&& r is Ok
                &&& r->Ok_0.spec_registry() == registry@
                &&& forall|x: Seq<char>|
                    #[trigger] stored_bits(r->Ok_0.spec_entries(), x) == stored_bits(entries@, x)
            },
    {
        let ghost input = entries@;
        let mut j: usize = 0;
        while j < entries.len()
            invariant
                j <= input.len(),
                input == entries@,
                forall|i: int| 0 <= i < j ==> !#[trigger] entry_invalid(registry@, input, i),
            decreases entries.len() - j,
        {
            let invalid_here = !registry.contains(&entries[j].0);
            let mut repeated = false;
            let mut k: usize = 0;
            while k < j
                invariant
                    k <= j,
                    j < input.len(),
                    input == entries@,
                    repeated ==> exists|i: int| 0 <= i < j && input[i].0@ == input[j as int].0@,
                    !repeated ==> forall|i: int| 0 <= i < k ==> input[i].0@ != input[j as int].0@,
                decreases j - k,
            {
                if entries[k].0 == entries[j].0 {
                    repeated = true;
                }
                k = k + 1;
            }
            if invalid_here || repeated {
                proof {
                    assert(entry_invalid(registry@, input, j as int));
                    assert forall|jj: int| first_invalid_entry(registry@, input, jj) implies jj
                        == j by {
                        if jj < j {
                            assert(!entry_invalid(registry@, input, jj));
                        } else if jj > j {
                            assert(!entry_invalid(registry@, input, j as int));
                        }
                    }
                }
                let substance = entries[j].0.clone();
                if invalid_here {
                    return Err(SparseSubstanceVectorError::UnregisteredSubstance { substance });
                }
                return Err(SparseSubstanceVectorError::DuplicateSubstance { substance });
            }
            j = j + 1;
        }
        proof {
            assert forall|jj: int| !first_invalid_entry(registry@, input, jj) by {
                if 0 <= jj < input.len() {
                    assert(!entry_invalid(registry@, input, jj));
                }
            }
        }
        let mut nonzero: Vec<(SubstanceId, NonNegativeAmount)> = Vec::new();
        let mut j: usize = 0;
        while j < entries.len()
            invariant
                j <= input.len(),
                input == entries@,
                forall|i: int| 0 <= i < input.len() ==> !#[trigger] entry_invalid(registry@, input, i),
                forall|k: int| 0 <= k < nonzero@.len() ==> (#[trigger] nonzero@[k]).1@ != 0,
                forall|k: int| 0 <= k < nonzero@.len() ==> registry@.contains(#[trigger] nonzero@[k].0@),
                forall|k: int|
                    #![trigger nonzero@[k]]
                    0 <= k < nonzero@.len() ==> exists|i: int|
                        0 <= i < j && #[trigger] input[i] == nonzero@[k],
                forall|i: int|
                    0 <= i < j && (#[trigger] input[i]).1@ != 0 ==> nonzero@.contains(input[i]),
                keys_distinct(keys_of(nonzero@)),
            decreases entries.len() - j,
        {
            let ghost before = nonzero@;
            if entries[j].1.bits() != 0 {
                let entry = (entries[j].0.clone(), entries[j].1);
                proof {
                    assert(entry == input[j as int]);
                    assert(!entry_invalid(registry@, input, j as int));
                }
                nonzero.push(entry);
                proof {
                    assert forall|a: int, b: int| 0 <= a < b < nonzero@.len() implies #[trigger] keys_of(
                        nonzero@,
                    )[a] != #[trigger] keys_of(nonzero@)[b] by {
                        if b == nonzero@.len() - 1 {
                            let i = choose|i: int| 0 <= i < j && #[trigger] input[i] == nonzero@[a];
                            assert(input[i].0@ != input[j as int].0@);
                            assert(keys_of(nonzero@)[a][0] == nonzero@[a].0@);
                            assert(keys_of(nonzero@)[b][0] == nonzero@[b].0@);
                        } else {
                            assert(keys_of(before)[a] != keys_of(before)[b]);
                        }
                    }
                    assert forall|k: int|
                        #![trigger nonzero@[k]]
                        0 <= k < nonzero@.len() implies exists|i: int|
                        0 <= i < j + 1 && #[trigger] input[i] == nonzero@[k] by {
                        if k == nonzero@.len() - 1 {
                            assert(input[j as int] == nonzero@[k]);
                        } else {
                            let i = choose|i: int| 0 <= i < j && #[trigger] input[i] == before[k];
                            assert(input[i] == nonzero@[k]);
                        }
                    }
                    assert forall|i: int|
                        0 <= i < j + 1 && (#[trigger] input[i]).1@ != 0 implies nonzero@.contains(
                        input[i],
                    ) by {
                        if i == j {
                            assert(nonzero@[nonzero@.len() - 1] == input[i]);
                        } else {
                            let q = choose|q: int| 0 <= q < before.len() && before[q] == input[i];
                            assert(nonzero@[q] == input[i]);
                        }
                    }
                }
            }
            j = j + 1;
        }
        let ghost unsorted = nonzero@;
        let sorted = match sort_unique(nonzero) {
            Ok(v) => v,
            Err(_) => unreached(),
        };
        proof {
            lemma_permutation_contains(sorted@, unsorted);
            lemma_sorted_distinct(keys_of(sorted@));
            assert forall|k: int| 0 <= k < unsorted.len() implies input.contains(#[trigger] unsorted[k]) by {
                let i = choose|i: int| 0 <= i < input.len() && #[trigger] input[i] == unsorted[k];
                assert(input[i] == unsorted[k]);
            }
            assert forall|k: int| 0 <= k < sorted@.len() implies input.contains(#[trigger] sorted@[k]) by {
                assert(sorted@.contains(sorted@[k]));
                assert(unsorted.contains(sorted@[k]));
                let q = choose|q: int| 0 <= q < unsorted.len() && unsorted[q] == sorted@[k];
                assert(input.contains(unsorted[q]));
            }
            assert forall|i: int| 0 <= i < input.len() && (#[trigger] input[i]).1@ != 0 implies sorted@.contains(input[i]) by {
                assert(unsorted.contains(input[i]));
            }
            assert forall|i: int, j: int| 0 <= i < j < input.len() implies input[i].0@ != input[j].0@ by {
                assert(!entry_invalid(registry@, input, j));
            }
            assert(forall|i: int| 0 <= i < input.len() && (#[trigger] input[i]).1@ != 0 ==> sorted@.contains(input[i]));
            assert forall|x: Seq<char>| #[trigger] stored_bits(sorted@, x) == stored_bits(input, x) by {
                lemma_stored_bits(input, sorted@, x);
            }
        }
        let bound = registry.clone();
        proof {
            assert(bound@ == registry@);
            assert(keys_sorted(keys_of(sorted@)));
            assert forall|k: int| 0 <= k < sorted@.len() implies bound@.contains(#[trigger] sorted@[k].0@) by {
                assert(sorted@.contains(sorted@[k]));
                assert(unsorted.contains(sorted@[k]));
                let q = choose|q: int| 0 <= q < unsorted.len() && unsorted[q] == sorted@[k];
                assert(registry@.contains(unsorted[q].0@));
            }
            assert forall|k: int| 0 <= k < sorted@.len() implies (#[trigger] sorted@[k]).1@ != 0 by {
                assert(sorted@.contains(sorted@[k]));
                assert(unsorted.contains(sorted@[k]));
                let q = choose|q: int| 0 <= q < unsorted.len() && unsorted[q] == sorted@[k];
                assert(unsorted[q].1@ != 0);
            }
        }
        Ok(SparseSubstanceVector { registry: bound, entries: sorted })
    }

    /// The registry the vector is bound to.
    pub fn registry(&self) -> (r: &SubstanceRegistry)
        ensures
            r@ == self.spec_registry(),
    {
        &self.registry
    }

    /// The stored non-zero amounts in canonical registry order.
    pub fn iter(&self) -> (r: &[(SubstanceId, NonNegativeAmount)])
        ensures
            r@ == self.spec_entries(),
    {
        self.entries.as_slice()
    }

    /// The amount of `substance`: not modelled outside the registry, otherwise its stored amount
    /// or zero.
    pub fn amount(&self, substance: &SubstanceId) -> (r: ValueState<NonNegativeAmount>)
        ensures
            !self.spec_registry().contains(substance@) ==> r == ValueState::<NonNegativeAmount>::NotModelled,
            self.spec_registry().contains(substance@) ==> {
                &&& r matches ValueState::Present(a)
                &&& a@ == stored_bits(self.spec_entries(), substance@)
            },
    {
        if !self.registry.contains(substance) {
            return ValueState::NotModelled;
        }
        let mut k: usize = 0;
        while k < self.entries.len()
            invariant
                k <= self.entries@.len(),
                forall|q: int| 0 <= q < k ==> (#[trigger] self.entries@[q]).0@ != substance@,
            decreases self.entries.len() - k,
        {
            if compare_text(self.entries[k].0.as_str(), substance.as_str()) == KeyOrder::Equal {
                proof {
                    use_type_invariant(self);
                    lemma_sorted_distinct(keys_of(self.entries@));
                    let c = choose|c: int| 0 <= c < self.entries@.len() && #[trigger] self.entries@[c].0@ == substance@;
                    if c != k {
                        assert(keys_of(self.entries@)[c][0] == self.entries@[c].0@);
                        assert(keys_of(self.entries@)[k as int][0] == self.entries@[k as int].0@);
                        if c < k {
                            assert(keys_of(self.entries@)[c] != keys_of(self.entries@)[k as int]);
                        } else {
                            assert(keys_of(self.entries@)[k as int] != keys_of(self.entries@)[c]);
                        }
                    }
                }
                return ValueState::Present(self.entries[k].1);
            }
            k = k + 1;
        }
        ValueState::Present(NonNegativeAmount::zero())
    }
}

proof fn lemma_stored_bits(
    input: Seq<(SubstanceId, NonNegativeAmount)>,
    kept: Seq<(SubstanceId, NonNegativeAmount)>,
    x: Seq<char>,
)
    requires
        forall|i: int, j: int| 0 <= i < j < input.len() ==> input[i].0@ != input[j].0@,
        keys_distinct(keys_of(kept)),
        forall|k: int| 0 <= k < kept.len() ==> input.contains(#[trigger] kept[k]),
        forall|i: int| 0 <= i < input.len() && (#[trigger] input[i]).1@ != 0 ==> kept.contains(input[i]),
    ensures
        stored_bits(kept, x) == stored_bits(input, x),
{
    if exists|k: int| 0 <= k < kept.len() && #[trigger] kept[k].0@ == x {
        let c = choose|k: int| 0 <= k < kept.len() && #[trigger] kept[k].0@ == x;
        assert(input.contains(kept[c]));
        let i = choose|i: int| 0 <= i < input.len() && input[i] == kept[c];
        assert(input[i].0@ == x);
        let ii = choose|k: int| 0 <= k < input.len() && #[trigger] input[k].0@ == x;
        if ii != i {
            if ii < i {
                assert(input[ii].0@ != input[i].0@);
            } else {
                assert(input[i].0@ != input[ii].0@);
            }
        }
    } else {
        if exists|k: int| 0 <= k < input.len() && #[trigger] input[k].0@ == x {
            let ii = choose|k: int| 0 <= k < input.len() && #[trigger] input[k].0@ == x;
            if input[ii].1@ != 0 {
                assert(kept.contains(input[ii]));
                let q = choose|q: int| 0 <= q < kept.len() && kept[q] == input[ii];
                assert(kept[q].0@ == x);
            }
        }
    }
}

/// The content of a sparse vector: its registry and its stored entries as texts and bit patterns.
pub struct SparseView {
    pub registry: Seq<Seq<char>>,
    pub entries: Seq<(Seq<char>, u64)>,
}

/// The texts and bit patterns of stored entries.
pub open spec fn entry_views(entries: Seq<(SubstanceId, NonNegativeAmount)>) -> Seq<(Seq<char>, u64)> {
    entries.map_values(|e: (SubstanceId, NonNegativeAmount)| (e.0@, e.1@))
}

impl View for SparseSubstanceVector {
    type V = SparseView;

    open spec fn view(&self) -> SparseView {
        SparseView { registry: self.spec_registry(), entries: entry_views(self.spec_entries()) }
    }
}

impl Clone for SparseSubstanceVector {
    fn clone(&self) -> (r: Self)
        ensures
            r.spec_registry() == self.spec_registry(),
            r.spec_entries() == self.spec_entries(),
    {
        proof {
            use_type_invariant(self);
        }
        let mut entries: Vec<(SubstanceId, NonNegativeAmount)> = Vec::new();
        let mut i: usize = 0;
        while i < self.entries.len()
            invariant
                i <= self.entries@.len(),
                entries@ == self.entries@.take(i as int),
            decreases self.entries.len() - i,
        {
            let e = (self.entries[i].0.clone(), self.entries[i].1);
            entries.push(e);
            proof {
                assert(self.entries@.take(i + 1) =~= self.entries@.take(i as int).push(
                    self.entries@[i as int],
                ));
            }
            i = i + 1;
        }
        proof {
            assert(self.entries@.take(i as int) =~= self.entries@);
        }
        SparseSubstanceVector { registry: self.registry.clone(), entries }
    }
}

} // verus!
