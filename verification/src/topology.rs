//! Directed topologies of typed endpoints: validated, acyclic and canonically ordered.

use vstd::prelude::*;

use crate::endpoints::{BoundaryAccount, FiniteCompartment};
use crate::identity::CompartmentId;
use crate::keyed::{
    lemma_member_with_key_at, lemma_member_with_key_none, lemma_sorted_distinct, member_with_key,
    canonical_keys, key_order, keys_distinct, keys_of, keys_sorted, first_key_repeat_at,
    lemma_canonical_keys, lemma_key_lt_irreflexive, lemma_key_lt_total, lemma_key_order_1,
    lemma_key_order_cons, sort_unique, Key, Keyed,
};
use crate::order::{
    compare_text, lemma_text_lt_irreflexive, lemma_text_lt_total, text_lt, KeyOrder,
};

verus! {

/// A structurally classified endpoint in a directed topology.
#[derive(Debug, PartialEq, Eq)]
pub enum TopologyEndpoint {
    /// A finite compartment endpoint.
    Finite(FiniteCompartment),
    /// A boundary account endpoint.
    Boundary(BoundaryAccount),
}

/// The compartment identity of an endpoint.
pub open spec fn endpoint_id(e: TopologyEndpoint) -> Seq<char> {
    match e {
        TopologyEndpoint::Finite(c) => c@,
        TopologyEndpoint::Boundary(b) => b@,
    }
}

impl TopologyEndpoint {
    /// Returns the endpoint's compartment identity.
    pub fn id(&self) -> (r: &CompartmentId)
        ensures
            r@ == endpoint_id(*self),
    {
        match self {
            TopologyEndpoint::Finite(compartment) => compartment.id(),
            TopologyEndpoint::Boundary(account) => account.id(),
        }
    }

    /// Whether the endpoint is a finite compartment.
    pub fn is_finite(&self) -> (r: bool)
        ensures
            r == (*self is Finite),
    {
        match self {
            TopologyEndpoint::Finite(_) => true,
            TopologyEndpoint::Boundary(_) => false,
        }
    }
}

impl Clone for TopologyEndpoint {
    fn clone(&self) -> (r: Self)
        ensures
            r == *self,
    {
        match self {
            TopologyEndpoint::Finite(c) => TopologyEndpoint::Finite(c.clone()),
            TopologyEndpoint::Boundary(b) => TopologyEndpoint::Boundary(b.clone()),
        }
    }
}

impl Keyed for TopologyEndpoint {
    open spec fn key(&self) -> Key {
        seq![endpoint_id(*self)]
    }

    fn compare_keys(&self, other: &Self) -> (r: KeyOrder) {
        proof {
            lemma_key_order_1(endpoint_id(*self), endpoint_id(*other));
        }
        compare_text(self.id().as_str(), other.id().as_str())
    }
}

/// A directed connection between two declared topology endpoints.
#[derive(Debug, Eq, PartialEq, PartialOrd, Ord)]
pub struct DirectedConnection {
    source: CompartmentId,
    target: CompartmentId,
}

impl View for DirectedConnection {
    type V = (Seq<char>, Seq<char>);

    closed spec fn view(&self) -> (Seq<char>, Seq<char>) {
        (self.source@, self.target@)
    }
}

impl DirectedConnection {
    /// Constructs a directed connection from `source` to `target`.
    pub fn new(source: CompartmentId, target: CompartmentId) -> (r: Self)
        ensures
            r@ == (source@, target@),
    {
        DirectedConnection { source, target }
    }

    /// Returns the source endpoint identity.
    pub fn source(&self) -> (r: &CompartmentId)
        ensures
            r@ == self@.0,
    {
        &self.source
    }

    /// Returns the target endpoint identity.
    pub fn target(&self) -> (r: &CompartmentId)
        ensures
            r@ == self@.1,
    {
        &self.target
    }
}

impl Clone for DirectedConnection {
    fn clone(&self) -> (r: Self)
        ensures
            r == *self,
    {
        DirectedConnection { source: self.source.clone(), target: self.target.clone() }
    }
}

impl Keyed for DirectedConnection {
    open spec fn key(&self) -> Key {
        seq![self@.0, self@.1]
    }

    fn compare_keys(&self, other: &Self) -> (r: KeyOrder) {
        proof {
            lemma_key_order_cons(self@.0, seq![self@.1], other@.0, seq![other@.1]);
            lemma_key_order_1(self@.1, other@.1);
            assert(seq![self@.0] + seq![self@.1] =~= seq![self@.0, self@.1]);
            assert(seq![other@.0] + seq![other@.1] =~= seq![other@.0, other@.1]);
        }
        match compare_text(self.source.as_str(), other.source.as_str()) {
            KeyOrder::Equal => compare_text(self.target.as_str(), other.target.as_str()),
            o => o,
        }
    }
}

/// Identifies which connection endpoint is undeclared.
#[derive(Clone, Copy, Debug, Eq, PartialEq, Structural)]
pub enum ConnectionEndpointRole {
    /// The connection source.
    Source,
    /// The connection target.
    Target,
}

/// Reports why a directed topology could not be constructed.
#[derive(Clone, Debug, Eq, PartialEq)]
pub enum TopologyError {
    /// Returned when multiple endpoints have the same compartment identity.
    DuplicateEndpoint { endpoint: CompartmentId },
    /// Returned when the same directed connection occurs more than once.
    DuplicateConnection { connection_source: CompartmentId, connection_target: CompartmentId },
    /// Returned when a connection endpoint is not declared in the topology.
    UnknownConnectionEndpoint { role: ConnectionEndpointRole, endpoint: CompartmentId },
    /// Returned when directed cycles block a complete topological traversal.
    Cycle { blocked_endpoint_ids: Vec<CompartmentId> },
}

/// The identities named by a sequence of one-field keys.
pub open spec fn key_ids(ks: Seq<Key>) -> Seq<Seq<char>> {
    ks.map_values(|k: Key| k[0])
}

/// The identities of a sequence of compartment identities.
pub open spec fn compartment_texts(ids: Seq<CompartmentId>) -> Seq<Seq<char>> {
    ids.map_values(|id: CompartmentId| id@)
}

/// Every predecessor of `x` along `links` occurs in `placed`.
pub open spec fn predecessors_placed(placed: Seq<Seq<char>>, links: Seq<Key>, x: Seq<char>) -> bool {
    forall|l: int| 0 <= l < links.len() && #[trigger] links[l][1] == x ==> placed.contains(links[l][0])
}

/// `x` is a declared endpoint, not yet placed, all of whose predecessors are placed.
pub open spec fn available(
    ids: Seq<Seq<char>>,
    links: Seq<Key>,
    placed: Seq<Seq<char>>,
    x: Seq<char>,
) -> bool {
    ids.contains(x) && !placed.contains(x) && predecessors_placed(placed, links, x)
}

/// Each entry of `order` was available when placed and was the least available identity then.
pub open spec fn greedy_prefix(ids: Seq<Seq<char>>, links: Seq<Key>, order: Seq<Seq<char>>) -> bool {
    &&& order.no_duplicates()
    &&& forall|k: int| 0 <= k < order.len() ==> available(ids, links, order.take(k), #[trigger] order[k])
    &&& forall|k: int, y: Seq<char>|
        #![trigger available(ids, links, order.take(k), y)]
        0 <= k < order.len() && available(ids, links, order.take(k), y) ==> !text_lt(y, order[k])
}

/// No declared endpoint is available after `placed`.
pub open spec fn stuck(ids: Seq<Seq<char>>, links: Seq<Key>, placed: Seq<Seq<char>>) -> bool {
    forall|y: Seq<char>| !available(ids, links, placed, y)
}

/// `order` lists every declared endpoint once, each after all of its predecessors.
pub open spec fn is_topological_order(
    ids: Seq<Seq<char>>,
    links: Seq<Key>,
    order: Seq<Seq<char>>,
) -> bool {
    &&& order.len() == ids.len()
    &&& order.no_duplicates()
    &&& forall|k: int| 0 <= k < order.len() ==> ids.contains(#[trigger] order[k])
    &&& forall|k: int| 0 <= k < order.len() ==> predecessors_placed(order.take(k), links, #[trigger] order[k])
}

/// Strictly increasing identity texts.
pub open spec fn texts_sorted(s: Seq<Seq<char>>) -> bool {
    forall|i: int, j: int| 0 <= i < j < s.len() ==> text_lt(#[trigger] s[i], #[trigger] s[j])
}

/// Position `l` holds the first link with an undeclared source or target.
pub open spec fn first_undeclared_at(ids: Seq<Seq<char>>, links: Seq<Key>, l: int) -> bool {
    &&& 0 <= l < links.len()
    &&& !(ids.contains(links[l][0]) && ids.contains(links[l][1]))
    &&& forall|q: int| 0 <= q < l ==> ids.contains(#[trigger] links[q][0]) && ids.contains(links[q][1])
}

/// Every link joins two declared endpoints.
pub open spec fn links_declared(ids: Seq<Seq<char>>, links: Seq<Key>) -> bool {
    forall|q: int| 0 <= q < links.len() ==> ids.contains(#[trigger] links[q][0]) && ids.contains(links[q][1])
}

/// A validated directed topology with canonical endpoint and connection storage.
#[derive(Debug, Eq, PartialEq)]
pub struct Topology {
    endpoints: Vec<TopologyEndpoint>,
    connections: Vec<DirectedConnection>,
    topological_order: Vec<CompartmentId>,
}

/// The mathematical content of a topology.
pub struct TopologyView {
    /// Endpoint identities in canonical order.
    pub ids: Seq<Seq<char>>,
    /// Endpoints in canonical order.
    pub endpoints: Seq<TopologyEndpoint>,
    /// Connections as two-field keys (source, target) in canonical order.
    pub links: Seq<Key>,
    /// Endpoint identities in the stable topological order.
    pub order: Seq<Seq<char>>,
}

impl View for Topology {
    type V = TopologyView;

    closed spec fn view(&self) -> TopologyView {
        TopologyView {
            ids: key_ids(keys_of(self.endpoints@)),
            endpoints: self.endpoints@,
            links: keys_of(self.connections@),
            order: compartment_texts(self.topological_order@),
        }
    }
}

/// Finds the position of `id` among endpoints listed in canonical order.
fn find_endpoint(endpoints: &Vec<TopologyEndpoint>, id: &CompartmentId) -> (r: Option<usize>)
    ensures
        r matches Some(i) ==> i < endpoints@.len() && key_ids(keys_of(endpoints@))[i as int] == id@,
        r is None ==> !key_ids(keys_of(endpoints@)).contains(id@),
{
    let ghost ids = key_ids(keys_of(endpoints@));
    let mut i: usize = 0;
    while i < endpoints.len()
        invariant
            ids == key_ids(keys_of(endpoints@)),
            i <= endpoints.len(),
            forall|q: int| 0 <= q < i ==> #[trigger] ids[q] != id@,
        decreases endpoints.len() - i,
    {
        if compare_text(endpoints[i].id().as_str(), id.as_str()) == KeyOrder::Equal {
            return Some(i);
        }
        i = i + 1;
    }
    None
}

/// Sorted keys of one field name strictly increasing identities.
proof fn lemma_key_ids_sorted(ks: Seq<Key>)
    requires
        keys_sorted(ks),
        forall|i: int| 0 <= i < ks.len() ==> (#[trigger] ks[i]).len() == 1,
    ensures
        texts_sorted(key_ids(ks)),
        key_ids(ks).no_duplicates(),
{
    assert forall|i: int, j: int| 0 <= i < j < ks.len() implies text_lt(
        #[trigger] key_ids(ks)[i],
        #[trigger] key_ids(ks)[j],
    ) by {
        let a = ks[i];
        let b = ks[j];
        assert(a.len() == 1 && b.len() == 1);
        assert(crate::keyed::key_lt(a, b));
        assert(a.drop_first() =~= Seq::<Seq<char>>::empty());
        assert(b.drop_first() =~= Seq::<Seq<char>>::empty());
        assert(!crate::keyed::key_lt(a.drop_first(), b.drop_first()));
        assert(key_ids(ks)[i] == a[0]);
        assert(key_ids(ks)[j] == b[0]);
    }
    assert forall|i: int, j: int| 0 <= i < key_ids(ks).len() && 0 <= j < key_ids(ks).len() && i
        != j implies key_ids(ks)[i] != key_ids(ks)[j] by {
        if i < j {
            lemma_text_lt_irreflexive(key_ids(ks)[i]);
        } else {
            lemma_text_lt_irreflexive(key_ids(ks)[j]);
        }
    }
}

/// Monotonicity: placing more endpoints keeps predecessors placed.
proof fn lemma_predecessors_placed_mono(
    a: Seq<Seq<char>>,
    b: Seq<Seq<char>>,
    links: Seq<Key>,
    x: Seq<char>,
)
    requires
        predecessors_placed(a, links, x),
        forall|y: Seq<char>| a.contains(y) ==> b.contains(y),
    ensures
        predecessors_placed(b, links, x),
{
}

/// A topology whose greedy traversal gets stuck before placing every endpoint has no
/// topological order: a `Cycle` error is reported exactly for cyclic topologies.
pub proof fn law_stuck_means_cyclic(
    ids: Seq<Seq<char>>,
    links: Seq<Key>,
    placed: Seq<Seq<char>>,
    order: Seq<Seq<char>>,
)
    requires
        texts_sorted(ids),
        greedy_prefix(ids, links, placed),
        stuck(ids, links, placed),
        placed.len() < ids.len(),
    ensures
        !is_topological_order(ids, links, order),
{
    assert(ids.no_duplicates()) by {
        assert forall|i: int, j: int| 0 <= i < ids.len() && 0 <= j < ids.len() && i != j implies ids[i] != ids[j] by {
            if i < j {
                lemma_text_lt_irreflexive(ids[i]);
            } else {
                lemma_text_lt_irreflexive(ids[j]);
            }
        }
    }
    assert forall|k: int| 0 <= k < placed.len() implies ids.contains(#[trigger] placed[k]) by {
        assert(available(ids, links, placed.take(k), placed[k]));
    }
    if is_topological_order(ids, links, order) {
        ids.unique_seq_to_set();
        placed.unique_seq_to_set();
        order.unique_seq_to_set();
        // Some declared endpoint is unplaced.
        if forall|q: int| 0 <= q < ids.len() ==> placed.contains(#[trigger] ids[q]) {
            assert(ids.to_set().subset_of(placed.to_set())) by {
                assert forall|y: Seq<char>| ids.to_set().contains(y) implies placed.to_set().contains(y) by {
                    let q = choose|q: int| 0 <= q < ids.len() && ids[q] == y;
                    assert(placed.contains(ids[q]));
                }
            }
            vstd::set_lib::lemma_len_subset(ids.to_set(), placed.to_set());
            assert(false);
        }
        let q0 = choose|q: int| 0 <= q < ids.len() && !placed.contains(#[trigger] ids[q]);
        let z = ids[q0];
        // Every declared endpoint occurs in the order.
        if !order.contains(z) {
            assert(order.to_set().subset_of(ids.to_set().remove(z))) by {
                assert forall|y: Seq<char>| order.to_set().contains(y) implies ids.to_set().remove(z).contains(y) by {
                    let k = choose|k: int| 0 <= k < order.len() && order[k] == y;
                    assert(ids.contains(order[k]));
                }
            }
            assert(ids.to_set().contains(z));
            vstd::set_lib::lemma_len_subset(order.to_set(), ids.to_set().remove(z));
            assert(false);
        }
        let kz = choose|k: int| 0 <= k < order.len() && order[k] == z;
        lemma_first_unplaced(order, placed, kz);
        let k = choose|k: int| 0 <= k <= kz && !placed.contains(#[trigger] order[k])
            && forall|q: int| 0 <= q < k ==> placed.contains(#[trigger] order[q]);
        assert forall|y: Seq<char>| order.take(k).contains(y) implies placed.contains(y) by {
            let q = choose|q: int| 0 <= q < order.take(k).len() && order.take(k)[q] == y;
            assert(order[q] == y);
        }
        lemma_predecessors_placed_mono(order.take(k), placed, links, order[k]);
        assert(available(ids, links, placed, order[k]));
    }
}

proof fn lemma_first_unplaced(order: Seq<Seq<char>>, placed: Seq<Seq<char>>, kz: int)
    requires
        0 <= kz < order.len(),
        !placed.contains(order[kz]),
    ensures
        exists|k: int| 0 <= k <= kz && !placed.contains(#[trigger] order[k]) && forall|q: int|
            0 <= q < k ==> placed.contains(#[trigger] order[q]),
    decreases kz,
{
    if exists|q: int| 0 <= q < kz && !placed.contains(#[trigger] order[q]) {
        let q = choose|q: int| 0 <= q < kz && !placed.contains(#[trigger] order[q]);
        lemma_first_unplaced(order, placed, q);
    } else {
        assert(!placed.contains(order[kz]));
    }
}

/// A complete greedy traversal is a topological order.
pub proof fn law_greedy_complete_is_topological(
    ids: Seq<Seq<char>>,
    links: Seq<Key>,
    order: Seq<Seq<char>>,
)
    requires
        greedy_prefix(ids, links, order),
        order.len() == ids.len(),
    ensures
        is_topological_order(ids, links, order),
{
    assert forall|k: int| 0 <= k < order.len() implies ids.contains(#[trigger] order[k]) by {
        assert(available(ids, links, order.take(k), order[k]));
    }
    assert forall|k: int| 0 <= k < order.len() implies predecessors_placed(
        order.take(k),
        links,
        #[trigger] order[k],
    ) by {
        assert(available(ids, links, order.take(k), order[k]));
    }
}

/// `a` comes before `b` in the lexicographic order of identity texts: at the first position
/// where they differ, the text in `a` is the lesser.
pub open spec fn lex_precedes(a: Seq<Seq<char>>, b: Seq<Seq<char>>) -> bool {
    exists|k: int|
        0 <= k < a.len() && k < b.len() && a.take(k) == b.take(k) && text_lt(
            #[trigger] a[k],
            b[k],
        )
}

proof fn lemma_greedy_least_from(
    ids: Seq<Seq<char>>,
    links: Seq<Key>,
    order: Seq<Seq<char>>,
    other: Seq<Seq<char>>,
    i: int,
)
    requires
        greedy_prefix(ids, links, order),
        order.len() == ids.len(),
        is_topological_order(ids, links, other),
        0 <= i <= order.len(),
        order.take(i) == other.take(i),
        order != other,
    ensures
        lex_precedes(order, other),
    decreases order.len() - i,
{
    if i == order.len() {
        assert(order.take(i) =~= order);
        assert(other.take(i) =~= other);
    } else if order[i] == other[i] {
        assert(order.take(i + 1) =~= order.take(i).push(order[i]));
        assert(other.take(i + 1) =~= other.take(i).push(other[i]));
        lemma_greedy_least_from(ids, links, order, other, i + 1);
    } else {
        let placed = order.take(i);
        assert(ids.contains(other[i]));
        assert(predecessors_placed(other.take(i), links, other[i]));
        assert(!placed.contains(other[i])) by {
            if placed.contains(other[i]) {
                let q = choose|q: int| 0 <= q < placed.len() && placed[q] == other[i];
                assert(other.take(i)[q] == other[q]);
            }
        }
        assert(available(ids, links, placed, other[i]));
        assert(!text_lt(other[i], order[i]));
        lemma_text_lt_total(order[i], other[i]);
        assert(text_lt(order[i], other[i]));
    }
}

/// The stable topological order is the lexicographically least of all topological orders:
/// any other order of the same endpoints that respects every connection places a greater
/// identity at the first position where the two differ.
pub proof fn law_greedy_order_is_least(
    ids: Seq<Seq<char>>,
    links: Seq<Key>,
    order: Seq<Seq<char>>,
    other: Seq<Seq<char>>,
)
    requires
        greedy_prefix(ids, links, order),
        order.len() == ids.len(),
        is_topological_order(ids, links, other),
        other != order,
    ensures
        is_topological_order(ids, links, order),
        lex_precedes(order, other),
{
    law_greedy_complete_is_topological(ids, links, order);
    assert(order.take(0) =~= other.take(0));
    lemma_greedy_least_from(ids, links, order, other, 0);
}

impl Topology {
    #[verifier::type_invariant]
    closed spec fn canonical(self) -> bool {
        &&& keys_sorted(keys_of(self.endpoints@))
        &&& keys_sorted(keys_of(self.connections@))
    }

    /// Constructs a validated, canonically ordered directed topology.
    pub fn new(endpoints: Vec<TopologyEndpoint>, connections: Vec<DirectedConnection>) -> (r: Result<
        Self,
        TopologyError,
    >)
        ensures
            ({
                let eks = keys_of(endpoints@);
                let cks = keys_of(connections@);
                let ids = key_ids(canonical_keys(eks));
                let links = canonical_keys(cks);
                match r {
                    Ok(t) => {
                        &&& keys_distinct(eks)
                        &&& keys_distinct(cks)
                        &&& t@.ids == ids
                        &&& keys_of(t@.endpoints) == canonical_keys(eks)
                        &&& t@.endpoints.to_multiset() == endpoints@.to_multiset()
                        &&& t@.links == links
                        &&& links_declared(ids, links)
                        &&& greedy_prefix(ids, links, t@.order)
                        &&& t@.order.len() == ids.len()
                    },
                    Err(TopologyError::DuplicateEndpoint { endpoint }) => exists|j: int|
                        first_key_repeat_at(eks, j) && endpoint@ == eks[j][0],
                    Err(TopologyError::DuplicateConnection { connection_source, connection_target }) => {
                        &&& keys_distinct(eks)
                        &&& exists|j: int|
                            first_key_repeat_at(cks, j) && connection_source@ == cks[j][0]
                                && connection_target@ == cks[j][1]
                    },
                    Err(TopologyError::UnknownConnectionEndpoint { role, endpoint }) => {
                        &&& keys_distinct(eks)
                        &&& keys_distinct(cks)
                        &&& exists|l: int|
                            first_undeclared_at(ids, links, l) && if !ids.contains(links[l][0]) {
                                role == ConnectionEndpointRole::Source && endpoint@ == links[l][0]
                            } else {
                                role == ConnectionEndpointRole::Target && endpoint@ == links[l][1]
                            }
                    },
                    Err(TopologyError::Cycle { blocked_endpoint_ids }) => {
                        &&& keys_distinct(eks)
                        &&& keys_distinct(cks)
                        &&& links_declared(ids, links)
                        &&& exists|placed: Seq<Seq<char>>|
                            {
                                &&& greedy_prefix(ids, links, placed)
                                &&& stuck(ids, links, placed)
                                &&& placed.len() < ids.len()
                                &&& texts_sorted(compartment_texts(blocked_endpoint_ids@))
                                &&& forall|y: Seq<char>|
                                    compartment_texts(blocked_endpoint_ids@).contains(y) <==> (
                                    ids.contains(y) && !placed.contains(y))
                            }
                    },
                }
            }),
    {
        let ghost eks = keys_of(endpoints@);
        let ghost input_endpoints = endpoints@;
        let ghost input_connections = connections@;
        let ghost cks = keys_of(connections@);
        let eps = match sort_unique(endpoints) {
            Ok(v) => v,
            Err((j, y)) => {
                let endpoint = y.id().clone();
                return Err(TopologyError::DuplicateEndpoint { endpoint });
            },
        };
        let conns = match sort_unique(connections) {
            Ok(v) => v,
            Err((j, y)) => {
                return Err(
                    TopologyError::DuplicateConnection {
                        connection_source: y.source.clone(),
                        connection_target: y.target.clone(),
                    },
                );
            },
        };
        let ghost ek = keys_of(eps@);
        let ghost links = keys_of(conns@);
        let ghost ids = key_ids(ek);
        proof {
            lemma_canonical_keys(ek, eks);
            lemma_canonical_keys(links, cks);
            assert forall|i: int| 0 <= i < ek.len() implies (#[trigger] ek[i]).len() == 1 by {}
            lemma_key_ids_sorted(ek);
        }
        let n = eps.len();
        let m = conns.len();
        // Resolve every connection to endpoint positions, in canonical connection order.
        let mut sources: Vec<usize> = Vec::new();
        let mut targets: Vec<usize> = Vec::new();
        let mut l: usize = 0;
        while l < m
            invariant
                eps@.to_multiset() == input_endpoints.to_multiset(),
                m == conns@.len(),
                n == eps@.len(),
                ids == key_ids(keys_of(eps@)),
                links == keys_of(conns@),
                ids == key_ids(canonical_keys(eks)),
                links == canonical_keys(cks),
                keys_distinct(eks),
                keys_distinct(cks),
                eks == keys_of(input_endpoints),
                cks == keys_of(input_connections),
                input_endpoints == endpoints@,
                input_connections == connections@,
                l <= m,
                sources@.len() == l,
                targets@.len() == l,
                forall|q: int| 0 <= q < l ==> (#[trigger] sources@[q]) < n && ids[sources@[q] as int] == links[q][0],
                forall|q: int| 0 <= q < l ==> (#[trigger] targets@[q]) < n && ids[targets@[q] as int] == links[q][1],
            decreases m - l,
        {
            let c = &conns[l];
            assert(links[l as int] == seq![c@.0, c@.1]);
            assert(links[l as int][0] == c.source@ && links[l as int][1] == c.target@);
            let s = find_endpoint(&eps, &c.source);
            match s {
                None => {
                    proof {
                        assert(first_undeclared_at(ids, links, l as int)) by {
                            assert forall|q: int| 0 <= q < l implies ids.contains(#[trigger] links[q][0]) && ids.contains(links[q][1]) by {
                                assert(ids[sources@[q] as int] == links[q][0]);
                                assert(ids[targets@[q] as int] == links[q][1]);
                            }
                        }
                    }
                    let endpoint = c.source.clone();
                    proof {
                        assert(keys_distinct(eks));
                        assert(keys_distinct(cks));
                        assert(!ids.contains(links[l as int][0]));
                        assert(endpoint@ == links[l as int][0]);
                        assert(ids == key_ids(canonical_keys(eks)));
                        assert(links == canonical_keys(cks));
                    }
                    return Err(
                        TopologyError::UnknownConnectionEndpoint {
                            role: ConnectionEndpointRole::Source,
                            endpoint,
                        },
                    );
                },
                Some(si) => {
                    let t = find_endpoint(&eps, &c.target);
                    match t {
                        None => {
                            proof {
                                assert(ids.contains(links[l as int][0])) by {
                                    assert(ids[si as int] == links[l as int][0]);
                                }
                                assert(first_undeclared_at(ids, links, l as int)) by {
                                    assert forall|q: int| 0 <= q < l implies ids.contains(#[trigger] links[q][0]) && ids.contains(links[q][1]) by {
                                        assert(ids[sources@[q] as int] == links[q][0]);
                                        assert(ids[targets@[q] as int] == links[q][1]);
                                    }
                                }
                            }
                            return Err(
                                TopologyError::UnknownConnectionEndpoint {
                                    role: ConnectionEndpointRole::Target,
                                    endpoint: c.target.clone(),
                                },
                            );
                        },
                        Some(ti) => {
                            sources.push(si);
                            targets.push(ti);
                        },
                    }
                },
            }
            l = l + 1;
        }
        proof {
            assert forall|q: int| 0 <= q < links.len() implies ids.contains(#[trigger] links[q][0]) && ids.contains(links[q][1]) by {
                assert(ids[sources@[q] as int] == links[q][0]);
                assert(ids[targets@[q] as int] == links[q][1]);
            }
        }
        // Greedy traversal: repeatedly place the least available endpoint.
        let mut placed: Vec<bool> = Vec::new();
        let mut i: usize = 0;
        while i < n
            invariant
                eps@.to_multiset() == input_endpoints.to_multiset(),
                i <= n,
                placed@.len() == i,
                forall|q: int| 0 <= q < i ==> !(#[trigger] placed@[q]),
            decreases n - i,
        {
            placed.push(false);
            i = i + 1;
        }
        let mut order: Vec<CompartmentId> = Vec::new();
        loop
            invariant
                eps@.to_multiset() == input_endpoints.to_multiset(),
                m == conns@.len(),
                n == eps@.len(),
                ids == key_ids(keys_of(eps@)),
                ids.len() == n,
                texts_sorted(ids),
                ids.no_duplicates(),
                links == keys_of(conns@),
                sources@.len() == m,
                targets@.len() == m,
                forall|q: int| 0 <= q < m ==> (#[trigger] sources@[q]) < n && ids[sources@[q] as int] == links[q][0],
                forall|q: int| 0 <= q < m ==> (#[trigger] targets@[q]) < n && ids[targets@[q] as int] == links[q][1],
                placed@.len() == n,
                forall|q: int| 0 <= q < n ==> (#[trigger] placed@[q] <==> compartment_texts(order@).contains(ids[q])),
                greedy_prefix(ids, links, compartment_texts(order@)),
                order@.len() <= n,
            ensures
                placed@.len() == n,
                forall|q: int| 0 <= q < n ==> (#[trigger] placed@[q] <==> compartment_texts(order@).contains(ids[q])),
                greedy_prefix(ids, links, compartment_texts(order@)),
                stuck(ids, links, compartment_texts(order@)),
                order@.len() <= n,
            decreases n - order@.len(),
        {
            let ghost ord = compartment_texts(order@);
            // Find the least available position.
            let mut j: usize = 0;
            let mut found: bool = false;
            while j < n && !found
                invariant
                    eps@.to_multiset() == input_endpoints.to_multiset(),
                    j <= n,
                    placed@.len() == n,
                    forall|q: int| 0 <= q < n ==> (#[trigger] placed@[q] <==> ord.contains(ids[q])),
                    found ==> j < n && available(ids, links, ord, ids[j as int]),
                    m == links.len(),
                    forall|q: int| 0 <= q < j ==> !available(ids, links, ord, #[trigger] ids[q]),
                    m == conns@.len(),
                    ids.len() == n,
                    ids.no_duplicates(),
                    sources@.len() == m,
                    targets@.len() == m,
                    forall|q: int| 0 <= q < m ==> (#[trigger] sources@[q]) < n && ids[sources@[q] as int] == links[q][0],
                    forall|q: int| 0 <= q < m ==> (#[trigger] targets@[q]) < n && ids[targets@[q] as int] == links[q][1],
                decreases n - j, if found { 0int } else { 1int },
            {
                if !placed[j] {
                    // Are all predecessors of endpoint j placed?
                    let mut ready = true;
                    let mut q: usize = 0;
                    while q < m && ready
                        invariant
                            eps@.to_multiset() == input_endpoints.to_multiset(),
                            q <= m,
                            j < n,
                            placed@.len() == n,
                            ids.len() == n,
                            ids.no_duplicates(),
                            forall|p: int| 0 <= p < n ==> (#[trigger] placed@[p] <==> ord.contains(ids[p])),
                            sources@.len() == m,
                            targets@.len() == m,
                            forall|p: int| 0 <= p < m ==> (#[trigger] sources@[p]) < n && ids[sources@[p] as int] == links[p][0],
                            forall|p: int| 0 <= p < m ==> (#[trigger] targets@[p]) < n && ids[targets@[p] as int] == links[p][1],
                            m == links.len(),
                            ready ==> forall|p: int| 0 <= p < q && #[trigger] links[p][1] == ids[j as int] ==> ord.contains(links[p][0]),
                            !ready ==> !predecessors_placed(ord, links, ids[j as int]),
                        decreases m - q, if ready { 1int } else { 0int },
                    {
                        if targets[q] == j && !placed[sources[q]] {
                            ready = false;
                        } else {
                            proof {
                                if links[q as int][1] == ids[j as int] {
                                    assert(targets@[q as int] == j);
                                }
                            }
                            q = q + 1;
                        }
                    }
                    if ready {
                        found = true;
                    } else {
                        j = j + 1;
                    }
                } else {
                    j = j + 1;
                }
            }
            if !found {
                proof {
                    assert forall|y: Seq<char>| !available(ids, links, ord, y) by {
                        if available(ids, links, ord, y) {
                            let q = choose|q: int| 0 <= q < ids.len() && ids[q] == y;
                            assert(!available(ids, links, ord, ids[q]));
                        }
                    }
                }
                break;
            }
            proof {
                let x = ids[j as int];
                assert(!ord.contains(x));
                assert forall|y: Seq<char>| available(ids, links, ord, y) implies !text_lt(y, x) by {
                    let q = choose|q: int| 0 <= q < ids.len() && ids[q] == y;
                    if q < j {
                        assert(!available(ids, links, ord, ids[q]));
                    } else if q > j {
                        assert(text_lt(ids[j as int], ids[q]));
                        lemma_text_lt_total(x, y);
                    } else {
                        lemma_text_lt_irreflexive(x);
                    }
                }
                // The order cannot already hold every endpoint, since x is unplaced.
                if ord.len() >= n {
                    assert(ord.no_duplicates());
                    ord.unique_seq_to_set();
                    ids.unique_seq_to_set();
                    assert(ord.to_set().subset_of(ids.to_set())) by {
                        assert forall|y: Seq<char>| ord.to_set().contains(y) implies ids.to_set().contains(y) by {
                            let k = choose|k: int| 0 <= k < ord.len() && ord[k] == y;
                            assert(available(ids, links, ord.take(k), ord[k]));
                        }
                    }
                    assert(!ord.to_set().contains(x));
                    vstd::set_lib::lemma_len_subset(ord.to_set().insert(x), ids.to_set());
                }
            }
            let id = eps[j].id().clone();
            placed.set(j, true);
            order.push(id);
            proof {
                let x = ids[j as int];
                let nord = compartment_texts(order@);
                assert(nord =~= ord.push(x));
                assert(nord.take(ord.len() as int) =~= ord);
                assert forall|k: int| 0 <= k < ord.len() implies nord.take(k) =~= ord.take(k) by {}
                assert forall|q: int| 0 <= q < n implies (#[trigger] placed@[q] <==> nord.contains(ids[q])) by {
                    if q == j {
                        assert(nord[ord.len() as int] == x);
                    } else {
                        assert(ids[q] != x);
                        if nord.contains(ids[q]) {
                            let k = choose|k: int| 0 <= k < nord.len() && nord[k] == ids[q];
                            assert(ord[k] == ids[q]);
                        }
                        if ord.contains(ids[q]) {
                            let k = choose|k: int| 0 <= k < ord.len() && ord[k] == ids[q];
                            assert(nord[k] == ids[q]);
                        }
                    }
                }
                assert forall|a: int, b: int| 0 <= a < nord.len() && 0 <= b < nord.len() && a != b implies nord[a] != nord[b] by {
                    if a == ord.len() {
                        assert(ord[b] == nord[b]);
                    } else if b == ord.len() {
                        assert(ord[a] == nord[a]);
                    }
                }
                assert forall|k: int| 0 <= k < nord.len() implies available(ids, links, nord.take(k), #[trigger] nord[k]) by {
                    if k < ord.len() {
                        assert(nord.take(k) =~= ord.take(k));
                        assert(available(ids, links, ord.take(k), ord[k]));
                    }
                }
                assert forall|k: int, y: Seq<char>| #![trigger available(ids, links, nord.take(k), y)] 0 <= k < nord.len() && available(ids, links, nord.take(k), y) implies !text_lt(y, nord[k]) by {
                    if k < ord.len() {
                        assert(nord.take(k) =~= ord.take(k));
                        assert(nord[k] == ord[k]);
                    }
                }
            }
        }
        let ghost ord = compartment_texts(order@);
        if order.len() < n {
            // Report the eps the traversal could not reach, in canonical order.
            let mut blocked: Vec<CompartmentId> = Vec::new();
            let mut i: usize = 0;
            while i < n
                invariant
                    eps@.to_multiset() == input_endpoints.to_multiset(),
                    i <= n,
                    n == eps@.len(),
                    ids == key_ids(keys_of(eps@)),
                    ids.len() == n,
                    texts_sorted(ids),
                    placed@.len() == n,
                    forall|q: int| 0 <= q < n ==> (#[trigger] placed@[q] <==> ord.contains(ids[q])),
                    forall|a: int, b: int| 0 <= a < b < compartment_texts(blocked@).len() ==> text_lt(#[trigger] compartment_texts(blocked@)[a], #[trigger] compartment_texts(blocked@)[b]),
                    forall|a: int| 0 <= a < compartment_texts(blocked@).len() ==> exists|q: int| 0 <= q < i && #[trigger] compartment_texts(blocked@)[a] == ids[q],
                    forall|y: Seq<char>| #[trigger] compartment_texts(blocked@).contains(y) <==> (ids.take(i as int).contains(y) && !ord.contains(y)),
                decreases n - i,
            {
                if !placed[i] {
                    let id = eps[i].id().clone();
                    let ghost before = compartment_texts(blocked@);
                    blocked.push(id);
                    proof {
                        let after = compartment_texts(blocked@);
                        assert(after =~= before.push(ids[i as int]));
                        assert forall|a: int, b: int| 0 <= a < b < after.len() implies text_lt(#[trigger] after[a], #[trigger] after[b]) by {
                            if b == before.len() {
                                let q = choose|q: int| 0 <= q < i && #[trigger] before[a] == ids[q];
                                assert(text_lt(ids[q], ids[i as int]));
                            }
                        }
                        assert forall|a: int| 0 <= a < after.len() implies exists|q: int| 0 <= q < i + 1 && #[trigger] after[a] == ids[q] by {
                            if a < before.len() {
                                let q = choose|q: int| 0 <= q < i && #[trigger] before[a] == ids[q];
                                assert(after[a] == ids[q]);
                            } else {
                                assert(after[a] == ids[i as int]);
                            }
                        }
                        assert forall|y: Seq<char>| after.contains(y) <==> (ids.take(i + 1).contains(y) && !ord.contains(y)) by {
                            if after.contains(y) {
                                let a = choose|a: int| 0 <= a < after.len() && after[a] == y;
                                if a < before.len() {
                                    assert(before[a] == y);
                                    assert(before.contains(y));
                                    assert(ids.take(i as int).contains(y));
                                    let q = choose|q: int| 0 <= q < ids.take(i as int).len() && #[trigger] ids.take(i as int)[q] == y;
                                    assert(ids.take(i + 1)[q] == y);
                                } else {
                                    assert(ids.take(i + 1)[i as int] == y);
                                }
                            }
                            if ids.take(i + 1).contains(y) && !ord.contains(y) {
                                let q = choose|q: int| 0 <= q < i + 1 && #[trigger] ids.take(i + 1)[q] == y;
                                if q < i {
                                    assert(ids.take(i as int)[q] == y);
                                    assert(before.contains(y));
                                    let a = choose|a: int| 0 <= a < before.len() && before[a] == y;
                                    assert(after[a] == y);
                                } else {
                                    assert(after[before.len() as int] == y);
                                }
                            }
                        }
                    }
                } else {
                    proof {
                        let b = compartment_texts(blocked@);
                        assert forall|y: Seq<char>| b.contains(y) <==> (ids.take(i + 1).contains(y) && !ord.contains(y)) by {
                            if ids.take(i + 1).contains(y) && !ord.contains(y) {
                                let q = choose|q: int| 0 <= q < i + 1 && #[trigger] ids.take(i + 1)[q] == y;
                                if q < i {
                                    assert(ids.take(i as int)[q] == y);
                                } else {
                                    assert(ids[i as int] == y);
                                }
                            }
                            if b.contains(y) {
                                assert(ids.take(i as int).contains(y));
                                let q = choose|q: int| 0 <= q < ids.take(i as int).len() && #[trigger] ids.take(i as int)[q] == y;
                                assert(ids.take(i + 1)[q] == y);
                            }
                        }
                    }
                }
                i = i + 1;
            }
            proof {
                assert(ids.take(n as int) =~= ids);
            }
            return Err(TopologyError::Cycle { blocked_endpoint_ids: blocked });
        }
        Ok(Topology { endpoints: eps, connections: conns, topological_order: order })
    }

    /// Returns the endpoint with `id`, when declared.
    pub fn endpoint(&self, id: &CompartmentId) -> (r: Option<&TopologyEndpoint>)
        ensures
            r matches Some(e) ==> endpoint_id(*e) == id@ && self@.endpoints.contains(*e),
            r is None ==> !self@.ids.contains(id@),
            r matches Some(e) ==> member_with_key(self@.endpoints, seq![id@]) == Some(*e),
            r is None ==> member_with_key(self@.endpoints, seq![id@]) is None,
    {
        proof {
            use_type_invariant(self);
            lemma_sorted_distinct(keys_of(self.endpoints@));
        }
        match find_endpoint(&self.endpoints, id) {
            Some(i) => {
                proof {
                    lemma_member_with_key_at(self.endpoints@, i as int);
                    assert(keys_of(self.endpoints@)[i as int] == self.endpoints@[i as int].key());
                    assert(self.endpoints@[i as int].key() =~= seq![id@]);
                }
                Some(&self.endpoints[i])
            },
            None => {
                proof {
                    assert forall|q: int| 0 <= q < self.endpoints@.len() implies (#[trigger] self.endpoints@[q]).key() != seq![id@] by {
                        assert(key_ids(keys_of(self.endpoints@))[q] == self.endpoints@[q].key()[0]);
                        assert(self@.ids.contains(key_ids(keys_of(self.endpoints@))[q]));
                    }
                    lemma_member_with_key_none(self.endpoints@, seq![id@]);
                }
                None
            },
        }
    }

    /// Endpoints in ascending identity order.
    pub fn endpoints(&self) -> (r: &[TopologyEndpoint])
        ensures
            r@ == self@.endpoints,
            self@.ids.len() == r@.len(),
            forall|k: int| 0 <= k < r@.len() ==> #[trigger] self@.ids[k] == endpoint_id(r@[k]),
            self@.ids.no_duplicates(),
    {
        proof {
            use_type_invariant(self);
            let ek = keys_of(self.endpoints@);
            assert forall|i: int| 0 <= i < ek.len() implies (#[trigger] ek[i]).len() == 1 by {}
            lemma_key_ids_sorted(ek);
        }
        self.endpoints.as_slice()
    }

    /// Returns directed connections in canonical source-target order.
    pub fn connections(&self) -> (r: &[DirectedConnection])
        ensures
            keys_of(r@) == self@.links,
    {
        self.connections.as_slice()
    }

    /// Returns endpoint identities in stable topological order.
    pub fn topological_order(&self) -> (r: &[CompartmentId])
        ensures
            compartment_texts(r@) == self@.order,
    {
        self.topological_order.as_slice()
    }

    /// Returns the number of declared endpoints.
    pub fn len(&self) -> (r: usize)
        ensures
            r == self@.ids.len(),
    {
        self.endpoints.len()
    }

    /// Returns whether the topology has no declared endpoints.
    pub fn is_empty(&self) -> (r: bool)
        ensures
            r == (self@.ids.len() == 0),
    {
        self.endpoints.len() == 0
    }
}

/// A copy of a vector whose elements are cloned exactly.
fn clone_endpoints(v: &Vec<TopologyEndpoint>) -> (r: Vec<TopologyEndpoint>)
    ensures
        r@ == v@,
{
    let mut out: Vec<TopologyEndpoint> = Vec::new();
    let mut i: usize = 0;
    while i < v.len()
        invariant
            i <= v@.len(),
            out@ == v@.take(i as int),
        decreases v.len() - i,
    {
        out.push(v[i].clone());
        proof {
            assert(v@.take(i + 1) =~= v@.take(i as int).push(v@[i as int]));
        }
        i = i + 1;
    }
    proof {
        assert(v@.take(i as int) =~= v@);
    }
    out
}

/// A copy of a vector whose elements are cloned exactly.
fn clone_connections(v: &Vec<DirectedConnection>) -> (r: Vec<DirectedConnection>)
    ensures
        r@ == v@,
{
    let mut out: Vec<DirectedConnection> = Vec::new();
    let mut i: usize = 0;
    while i < v.len()
        invariant
            i <= v@.len(),
            out@ == v@.take(i as int),
        decreases v.len() - i,
    {
        out.push(v[i].clone());
        proof {
            assert(v@.take(i + 1) =~= v@.take(i as int).push(v@[i as int]));
        }
        i = i + 1;
    }
    proof {
        assert(v@.take(i as int) =~= v@);
    }
    out
}

/// A copy of a vector whose elements are cloned exactly.
fn clone_ids(v: &Vec<CompartmentId>) -> (r: Vec<CompartmentId>)
    ensures
        r@ == v@,
{
    let mut out: Vec<CompartmentId> = Vec::new();
    let mut i: usize = 0;
    while i < v.len()
        invariant
            i <= v@.len(),
            out@ == v@.take(i as int),
        decreases v.len() - i,
    {
        out.push(v[i].clone());
        proof {
            assert(v@.take(i + 1) =~= v@.take(i as int).push(v@[i as int]));
        }
        i = i + 1;
    }
    proof {
        assert(v@.take(i as int) =~= v@);
    }
    out
}

impl Clone for Topology {
    fn clone(&self) -> (r: Self)
        ensures
            r@ == self@,
    {
        proof {
            use_type_invariant(self);
        }
        Topology {
            endpoints: clone_endpoints(&self.endpoints),
            connections: clone_connections(&self.connections),
            topological_order: clone_ids(&self.topological_order),
        }
    }
}

} // verus!
