//! Registry-bound initial stocks for the finite compartments of a topology.

use vstd::prelude::*;

use crate::identity::{CompartmentId, SubstanceId};
use crate::keyed::{
    keys_of, keys_sorted, lemma_key_order_1, lemma_member_with_key_at, lemma_member_with_key_none,
    lemma_permutation_contains, lemma_sorted_distinct, member_with_key, sort_unique, Key, Keyed,
};
use crate::numerical_semantics::NonNegativeAmount;
use crate::order::{compare_text, KeyOrder};
use crate::presence::ValueState;
use crate::sparse_substance_vector::{stored_bits, SparseSubstanceVector, SparseView};
use crate::substance_registry::SubstanceRegistry;
use crate::topology::{Topology, TopologyEndpoint, TopologyView};

verus! {

impl Keyed for (CompartmentId, SparseSubstanceVector) {
    open spec fn key(&self) -> Key {
        seq![self.0@]
    }

    fn compare_keys(&self, other: &Self) -> (r: KeyOrder) {
        proof {
            lemma_key_order_1(self.0@, other.0@);
        }
        compare_text(self.0.as_str(), other.0.as_str())
    }
}

/// Reports why initial stocks could not be bound or queried.
#[derive(Clone, Debug, PartialEq, Eq)]
pub enum InitialStocksError {
    /// Fires when construction or lookup names an identity absent from the bound topology.
    UnknownCompartment { compartment: CompartmentId },
    /// Fires when construction or lookup treats a boundary account as a finite-stock holder.
    BoundaryAccountStock { account: CompartmentId },
    /// Fires when a supplied vector is bound to another substance registry.
    RegistryMismatch { compartment: CompartmentId },
    /// Fires when constructor input repeats a compartment identity.
    DuplicateCompartment { compartment: CompartmentId },
}

/// The endpoint of the topology with identity `x`, if declared.
pub open spec fn endpoint_named(t: TopologyView, x: Seq<char>) -> Option<TopologyEndpoint> {
    member_with_key(t.endpoints, seq![x])
}

/// The error for entry `j` of the constructor input, if any: a repeated compartment, an
/// undeclared one, a boundary account, or a vector bound to another registry.
pub open spec fn stock_entry_error(
    t: TopologyView,
    registry: Seq<Seq<char>>,
    entries: Seq<(CompartmentId, SparseSubstanceVector)>,
    j: int,
) -> Option<InitialStocksError> {
    let compartment = entries[j].0;
    if exists|i: int| 0 <= i < j && #[trigger] entries[i].0@ == compartment@ {
        Some(InitialStocksError::DuplicateCompartment { compartment })
    } else {
        match endpoint_named(t, compartment@) {
            None => Some(InitialStocksError::UnknownCompartment { compartment }),
            Some(TopologyEndpoint::Boundary(_)) => Some(
                InitialStocksError::BoundaryAccountStock { account: compartment },
            ),
            Some(TopologyEndpoint::Finite(_)) => if entries[j].1.spec_registry() != registry {
                Some(InitialStocksError::RegistryMismatch { compartment })
            } else {
                None
            },
        }
    }
}

/// The content of initial stocks: topology, registry, and the stock entries by compartment text.
pub struct StocksView {
    pub topology: TopologyView,
    pub registry: Seq<Seq<char>>,
    pub stocks: Seq<(Seq<char>, SparseView)>,
}

/// The texts and contents of stock entries.
pub open spec fn stock_views(s: Seq<(CompartmentId, SparseSubstanceVector)>) -> Seq<(Seq<char>, SparseView)> {
    s.map_values(|e: (CompartmentId, SparseSubstanceVector)| (e.0@, e.1@))
}

/// The stock vector of compartment `x`, if it has an entry.
pub open spec fn stock_for(stocks: Seq<(Seq<char>, SparseView)>, x: Seq<char>) -> Option<SparseView> {
    if exists|k: int| 0 <= k < stocks.len() && #[trigger] stocks[k].0 == x {
        Some(stocks[choose|k: int| 0 <= k < stocks.len() && #[trigger] stocks[k].0 == x].1)
    } else {
        None
    }
}

/// The identities in `order` that have a stock entry, in order.
pub open spec fn stocked_texts(order: Seq<Seq<char>>, stocks: Seq<(Seq<char>, SparseView)>) -> Seq<Seq<char>>
    decreases order.len(),
{
    if order.len() == 0 {
        seq![]
    } else {
        let rest = stocked_texts(order.drop_last(), stocks);
        if stock_for(stocks, order.last()) is Some {
            rest.push(order.last())
        } else {
            rest
        }
    }
}

proof fn lemma_stock_for_at(s: Seq<(CompartmentId, SparseSubstanceVector)>, q: int)
    requires
        crate::keyed::keys_distinct(keys_of(s)),
        0 <= q < s.len(),
    ensures
        stock_for(stock_views(s), s[q].0@) == Some(s[q].1@),
{
    let v = stock_views(s);
    assert(v[q].0 == s[q].0@);
    let k = choose|k: int| 0 <= k < v.len() && #[trigger] v[k].0 == s[q].0@;
    if k != q {
        assert(keys_of(s)[k][0] == s[k].0@);
        assert(keys_of(s)[q][0] == s[q].0@);
        if k < q {
            assert(keys_of(s)[k] != keys_of(s)[q]);
        } else {
            assert(keys_of(s)[q] != keys_of(s)[k]);
        }
    }
}

proof fn lemma_stock_for_none(s: Seq<(CompartmentId, SparseSubstanceVector)>, x: Seq<char>)
    requires
        forall|q: int| 0 <= q < s.len() ==> (#[trigger] s[q]).key() != seq![x],
    ensures
        stock_for(stock_views(s), x) is None,
{
    let v = stock_views(s);
    if exists|k: int| 0 <= k < v.len() && #[trigger] v[k].0 == x {
        let k = choose|k: int| 0 <= k < v.len() && #[trigger] v[k].0 == x;
        assert(s[k].key() =~= seq![x]);
    }
}

/// Registry-bound initial stocks for finite compartments in a topology snapshot.
#[derive(Debug, PartialEq, Eq)]
pub struct InitialStocks {
    topology: Topology,
    registry: SubstanceRegistry,
    stocks: Vec<(CompartmentId, SparseSubstanceVector)>,
}

/// Whether two registries hold the same identities in the same order.
pub(crate) fn same_registry(a: &SubstanceRegistry, b: &SubstanceRegistry) -> (r: bool)
    ensures
        r == (a@ == b@),
{
    let x = a.iter();
    let y = b.iter();
    if x.len() != y.len() {
        return false;
    }
    let mut i: usize = 0;
    while i < x.len()
        invariant
            i <= x@.len(),
            x@.len() == y@.len(),
            crate::substance_registry::substance_texts(x@) == a@,
            crate::substance_registry::substance_texts(y@) == b@,
            forall|q: int| 0 <= q < i ==> #[trigger] a@[q] == b@[q],
        decreases x.len() - i,
    {
        if compare_text(x[i].as_str(), y[i].as_str()) != KeyOrder::Equal {
            proof {
                assert(a@[i as int] != b@[i as int]);
            }
            return false;
        }
        i = i + 1;
    }
    proof {
        assert(a@ =~= b@);
    }
    true
}

/// Whether two amount vectors have the same registry and the same stored entries.
pub(crate) fn same_vector(a: &SparseSubstanceVector, b: &SparseSubstanceVector) -> (r: bool)
    ensures
        r == (a@ == b@),
{
    if !same_registry(a.registry(), b.registry()) {
        return false;
    }
    let x = a.iter();
    let y = b.iter();
    if x.len() != y.len() {
        proof {
            assert(a@.entries.len() != b@.entries.len());
        }
        return false;
    }
    let mut i: usize = 0;
    while i < x.len()
        invariant
            i <= x@.len(),
            x@.len() == y@.len(),
            x@ == a.spec_entries(),
            y@ == b.spec_entries(),
            a@.registry == b@.registry,
            forall|q: int| 0 <= q < i ==> #[trigger] a@.entries[q] == b@.entries[q],
        decreases x.len() - i,
    {
        let same = compare_text(x[i].0.as_str(), y[i].0.as_str()) == KeyOrder::Equal && x[i].1.bits()
            == y[i].1.bits();
        proof {
            assert(a@.entries[i as int] == (x@[i as int].0@, x@[i as int].1@));
            assert(b@.entries[i as int] == (y@[i as int].0@, y@[i as int].1@));
        }
        if !same {
            return false;
        }
        i = i + 1;
    }
    proof {
        assert(a@.entries =~= b@.entries);
    }
    true
}

/// Whether two initial-stock values hold the same entries: the same compartments, in the same
/// order, with the same amount vectors.
pub(crate) fn same_stocks(a: &InitialStocks, b: &InitialStocks) -> (r: bool)
    ensures
        r == (a@.stocks == b@.stocks),
{
    let x = &a.stocks;
    let y = &b.stocks;
    if x.len() != y.len() {
        proof {
            assert(a@.stocks.len() != b@.stocks.len());
        }
        return false;
    }
    let mut i: usize = 0;
    while i < x.len()
        invariant
            i <= x@.len(),
            x@.len() == y@.len(),
            x@ == a.spec_stocks(),
            y@ == b.spec_stocks(),
            forall|q: int| 0 <= q < i ==> #[trigger] a@.stocks[q] == b@.stocks[q],
        decreases x.len() - i,
    {
        let same = compare_text(x[i].0.as_str(), y[i].0.as_str()) == KeyOrder::Equal && same_vector(
            &x[i].1,
            &y[i].1,
        );
        proof {
            assert(a@.stocks[i as int] == (x@[i as int].0@, x@[i as int].1@));
            assert(b@.stocks[i as int] == (y@[i as int].0@, y@[i as int].1@));
        }
        if !same {
            return false;
        }
        i = i + 1;
    }
    proof {
        assert(a@.stocks =~= b@.stocks);
    }
    true
}

impl InitialStocks {
    #[verifier::type_invariant]
    closed spec fn canonical(self) -> bool {
        keys_sorted(keys_of(self.stocks@))
    }

    /// The bound topology.
    pub closed spec fn spec_topology(&self) -> TopologyView {
        self.topology@
    }

    /// The bound registry.
    pub closed spec fn spec_registry(&self) -> Seq<Seq<char>> {
        self.registry@
    }

    /// The stock entries in canonical compartment order.
    pub closed spec fn spec_stocks(&self) -> Seq<(CompartmentId, SparseSubstanceVector)> {
        self.stocks@
    }

    /// Binds initial stocks to copies of the topology and registry; the first entry that repeats a
    /// compartment, names an undeclared one or a boundary account, or carries a vector bound to
    /// another registry is rejected.
    pub fn new(
        topology: &Topology,
        registry: &SubstanceRegistry,
        entries: Vec<(CompartmentId, SparseSubstanceVector)>,
    ) -> (r: Result<Self, InitialStocksError>)
        ensures
            forall|j: int|
                0 <= j < entries@.len() && (#[trigger] stock_entry_error(
                    topology@,
                    registry@,
                    entries@,
                    j,
                )) is Some && (forall|i: int|
                    0 <= i < j ==> stock_entry_error(topology@, registry@, entries@, i) is None)
                    ==> r == Err::<Self, InitialStocksError>(
                    stock_entry_error(topology@, registry@, entries@, j)->0,
                ),
            r is Ok <==> forall|j: int|
                0 <= j < entries@.len() ==> (#[trigger] stock_entry_error(
                    topology@,
                    registry@,
                    entries@,
                    j,
                )) is None,
            r matches Ok(s) ==> {
                &&& s.spec_topology() == topology@
                &&& s.spec_registry() == registry@
                &&& keys_sorted(keys_of(s.spec_stocks()))
                &&& s.spec_stocks().to_multiset() == entries@.to_multiset()
            },
    {
        let ghost input = entries@;
        let mut j: usize = 0;
        while j < entries.len()
            invariant
                j <= input.len(),
                input == entries@,
                forall|i: int|
                    0 <= i < j ==> (#[trigger] stock_entry_error(topology@, registry@, input, i)) is None,
            decreases entries.len() - j,
        {
            let mut repeated = false;
            let mut k: usize = 0;
            while k < j
                invariant
                    k <= j,
                    j < input.len(),
                    input == entries@,
                    repeated ==> exists|i: int| 0 <= i < j && #[trigger] input[i].0@ == input[j as int].0@,
                    !repeated ==> forall|i: int| 0 <= i < k ==> #[trigger] input[i].0@ != input[j as int].0@,
                decreases j - k,
            {
                if entries[k].0 == entries[j].0 {
                    repeated = true;
                }
                k = k + 1;
            }
            let compartment = entries[j].0.clone();
            if repeated {
                proof {
                    lemma_first_error_is_result(topology@, registry@, input, j as int);
                }
                return Err(InitialStocksError::DuplicateCompartment { compartment });
            }
            match topology.endpoint(&compartment) {
                None => {
                    proof {
                        lemma_first_error_is_result(topology@, registry@, input, j as int);
                    }
                    return Err(InitialStocksError::UnknownCompartment { compartment });
                },
                Some(TopologyEndpoint::Boundary(_)) => {
                    proof {
                        lemma_first_error_is_result(topology@, registry@, input, j as int);
                    }
                    return Err(InitialStocksError::BoundaryAccountStock { account: compartment });
                },
                Some(TopologyEndpoint::Finite(_)) => {},
            }
            if !same_registry(entries[j].1.registry(), registry) {
                proof {
                    lemma_first_error_is_result(topology@, registry@, input, j as int);
                }
                return Err(InitialStocksError::RegistryMismatch { compartment });
            }
            j = j + 1;
        }
        let stocks = match sort_unique(entries) {
            Ok(v) => v,
            Err(e) => {
                proof {
                    let jj = e.0@;
                    let i = choose|i: int| 0 <= i < jj && #[trigger] keys_of(input)[i] == keys_of(input)[jj];
                    assert(keys_of(input)[i][0] == input[i].0@);
                    assert(keys_of(input)[jj][0] == input[jj].0@);
                    assert(stock_entry_error(topology@, registry@, input, jj) is None);
                }
                return Err(InitialStocksError::DuplicateCompartment { compartment: e.1.0 });
            },
        };
        Ok(InitialStocks { topology: topology.clone(), registry: registry.clone(), stocks })
    }

    /// The bound topology.
    pub fn topology(&self) -> (r: &Topology)
        ensures
            r@ == self.spec_topology(),
    {
        &self.topology
    }

    /// The bound registry.
    pub fn registry(&self) -> (r: &SubstanceRegistry)
        ensures
            r@ == self.spec_registry(),
    {
        &self.registry
    }

    /// The stock entries in the topology's stable order.
    pub fn iter(&self) -> (r: Vec<(&CompartmentId, &SparseSubstanceVector)>)
        ensures
            r@.len() == stocked_texts(self@.topology.order, self@.stocks).len(),
            forall|k: int|
                0 <= k < r@.len() ==> (#[trigger] r@[k]).0@ == stocked_texts(
                    self@.topology.order,
                    self@.stocks,
                )[k] && stock_for(self@.stocks, r@[k].0@) == Some(r@[k].1@),
    {
        proof {
            use_type_invariant(self);
            lemma_sorted_distinct(keys_of(self.stocks@));
        }
        let order = self.topology.topological_order();
        let ghost texts = self.topology@.order;
        let ghost views = stock_views(self.stocks@);
        let mut out: Vec<(&CompartmentId, &SparseSubstanceVector)> = Vec::new();
        let mut i: usize = 0;
        while i < order.len()
            invariant
                i <= order@.len(),
                crate::topology::compartment_texts(order@) == texts,
                texts == self.topology@.order,
                views == stock_views(self.stocks@),
                crate::keyed::keys_distinct(keys_of(self.stocks@)),
                out@.len() == stocked_texts(texts.take(i as int), views).len(),
                forall|k: int|
                    0 <= k < out@.len() ==> (#[trigger] out@[k]).0@ == stocked_texts(
                        texts.take(i as int),
                        views,
                    )[k] && stock_for(views, out@[k].0@) == Some(out@[k].1@),
            decreases order.len() - i,
        {
            proof {
                assert(texts.take(i + 1).drop_last() =~= texts.take(i as int));
                assert(texts.take(i + 1).last() == texts[i as int]);
                assert(texts[i as int] == order@[i as int]@);
            }
            match find_stock(&self.stocks, &order[i]) {
                Some(q) => {
                    proof {
                        lemma_stock_for_at(self.stocks@, q as int);
                    }
                    out.push((&self.stocks[q].0, &self.stocks[q].1));
                },
                None => {
                    proof {
                        lemma_stock_for_none(self.stocks@, order@[i as int]@);
                    }
                },
            }
            i = i + 1;
        }
        proof {
            assert(texts.take(i as int) =~= texts);
        }
        out
    }

    /// The initial amount at one compartment-substance coordinate: undeclared compartments and
    /// boundary accounts are errors; a compartment without an entry holds zero of every
    /// registered substance.
    pub fn amount(&self, compartment: &CompartmentId, substance: &SubstanceId) -> (r: Result<
        ValueState<NonNegativeAmount>,
        InitialStocksError,
    >)
        ensures
            endpoint_named(self.spec_topology(), compartment@) is None ==> r == Err::<
                ValueState<NonNegativeAmount>,
                InitialStocksError,
            >(InitialStocksError::UnknownCompartment { compartment: *compartment }),
            endpoint_named(self.spec_topology(), compartment@) matches Some(
                TopologyEndpoint::Boundary(_),
            ) ==> r == Err::<ValueState<NonNegativeAmount>, InitialStocksError>(
                InitialStocksError::BoundaryAccountStock { account: *compartment },
            ),
            endpoint_named(self.spec_topology(), compartment@) matches Some(
                TopologyEndpoint::Finite(_),
            ) ==> match member_with_key(self.spec_stocks(), seq![compartment@]) {
                Some(entry) => if entry.1.spec_registry().contains(substance@) {
                    r matches Ok(ValueState::Present(a)) && a@ == stored_bits(
                        entry.1.spec_entries(),
                        substance@,
                    )
                } else {
                    r == Ok::<ValueState<NonNegativeAmount>, InitialStocksError>(
                        ValueState::NotModelled,
                    )
                },
                None => if self.spec_registry().contains(substance@) {
                    r matches Ok(ValueState::Present(a)) && a@ == 0
                } else {
                    r == Ok::<ValueState<NonNegativeAmount>, InitialStocksError>(
                        ValueState::NotModelled,
                    )
                },
            },
    {
        proof {
            use_type_invariant(self);
            lemma_sorted_distinct(keys_of(self.stocks@));
        }
        match self.topology.endpoint(compartment) {
            None => {
                return Err(InitialStocksError::UnknownCompartment { compartment: compartment.clone() });
            },
            Some(TopologyEndpoint::Boundary(_)) => {
                return Err(InitialStocksError::BoundaryAccountStock { account: compartment.clone() });
            },
            Some(TopologyEndpoint::Finite(_)) => {},
        }
        match find_stock(&self.stocks, compartment) {
            Some(q) => {
                proof {
                    lemma_member_with_key_at(self.stocks@, q as int);
                    assert(self.stocks@[q as int].key() =~= seq![compartment@]);
                }
                Ok(self.stocks[q].1.amount(substance))
            },
            None => {
                proof {
                    lemma_member_with_key_none(self.stocks@, seq![compartment@]);
                }
                if self.registry.contains(substance) {
                    Ok(ValueState::Present(NonNegativeAmount::zero()))
                } else {
                    Ok(ValueState::NotModelled)
                }
            },
        }
    }
}

/// The position of the entry for `compartment`, if any.
fn find_stock(stocks: &Vec<(CompartmentId, SparseSubstanceVector)>, compartment: &CompartmentId) -> (r:
    Option<usize>)
    ensures
        r matches Some(q) ==> q < stocks@.len() && stocks@[q as int].0@ == compartment@,
        r is None ==> forall|q: int|
            0 <= q < stocks@.len() ==> (#[trigger] stocks@[q]).key() != seq![compartment@],
{
    let mut q: usize = 0;
    while q < stocks.len()
        invariant
            q <= stocks@.len(),
            forall|i: int| 0 <= i < q ==> (#[trigger] stocks@[i]).key() != seq![compartment@],
        decreases stocks.len() - q,
    {
        if stocks[q].0 == *compartment {
            return Some(q);
        }
        proof {
            assert(stocks@[q as int].key()[0] == stocks@[q as int].0@);
        }
        q = q + 1;
    }
    None
}

proof fn lemma_first_error_is_result(
    t: TopologyView,
    registry: Seq<Seq<char>>,
    entries: Seq<(CompartmentId, SparseSubstanceVector)>,
    j: int,
)
    requires
        0 <= j < entries.len(),
        forall|i: int| 0 <= i < j ==> (#[trigger] stock_entry_error(t, registry, entries, i)) is None,
    ensures
        forall|jj: int|
            0 <= jj < entries.len() && (#[trigger] stock_entry_error(t, registry, entries, jj)) is Some
                && (forall|i: int| 0 <= i < jj ==> stock_entry_error(t, registry, entries, i) is None)
                && stock_entry_error(t, registry, entries, j) is Some ==> jj == j,
{
    assert forall|jj: int|
        0 <= jj < entries.len() && (#[trigger] stock_entry_error(t, registry, entries, jj)) is Some
            && (forall|i: int| 0 <= i < jj ==> stock_entry_error(t, registry, entries, i) is None)
            && stock_entry_error(t, registry, entries, j) is Some implies jj == j by {
        if jj < j {
            assert(stock_entry_error(t, registry, entries, jj) is None);
        } else if jj > j {
            assert(stock_entry_error(t, registry, entries, j) is None);
        }
    }
}

impl View for InitialStocks {
    type V = StocksView;

    open spec fn view(&self) -> StocksView {
        StocksView {
            topology: self.spec_topology(),
            registry: self.spec_registry(),
            stocks: stock_views(self.spec_stocks()),
        }
    }
}

impl Clone for InitialStocks {
    fn clone(&self) -> (r: Self)
        ensures
            r@ == self@,
    {
        proof {
            use_type_invariant(self);
        }
        let mut stocks: Vec<(CompartmentId, SparseSubstanceVector)> = Vec::new();
        let mut i: usize = 0;
        while i < self.stocks.len()
            invariant
                i <= self.stocks@.len(),
                stocks@.len() == i,
                forall|k: int| 0 <= k < i ==> (#[trigger] stocks@[k]).0 == self.stocks@[k].0,
                forall|k: int| 0 <= k < i ==> (#[trigger] stocks@[k]).1@ == self.stocks@[k].1@,
            decreases self.stocks.len() - i,
        {
            let e = (self.stocks[i].0.clone(), self.stocks[i].1.clone());
            stocks.push(e);
            i = i + 1;
        }
        proof {
            assert(keys_of(stocks@) =~= keys_of(self.stocks@));
            assert(stock_views(stocks@) =~= stock_views(self.stocks@));
        }
        InitialStocks { topology: self.topology.clone(), registry: self.registry.clone(), stocks }
    }
}

} // verus!
