use incidence_core::endpoints::{BoundaryAccount, FiniteCompartment};
use incidence_core::identity::CompartmentId;
use incidence_core::topology::{
    ConnectionEndpointRole, DirectedConnection, Topology, TopologyEndpoint, TopologyError,
};

fn id(value: &str) -> CompartmentId {
    CompartmentId::parse(value).expect("fixture identity must be valid")
}

fn finite(value: &str) -> TopologyEndpoint {
    TopologyEndpoint::Finite(FiniteCompartment::new(id(value)))
}

fn boundary(value: &str) -> TopologyEndpoint {
    TopologyEndpoint::Boundary(BoundaryAccount::new(id(value)))
}

fn link(source: &str, target: &str) -> DirectedConnection {
    DirectedConnection::new(id(source), id(target))
}

fn order(topology: &Topology) -> Vec<&str> {
    topology.topological_order().iter().map(CompartmentId::as_str).collect()
}

#[test]
fn orders_endpoints_topologically_with_least_identity_first() {
    let topology = Topology::new(
        vec![finite("river"), boundary("rain"), finite("lake"), boundary("sea")],
        vec![link("rain", "river"), link("river", "lake"), link("lake", "sea")],
    )
    .expect("acyclic fixture");
    assert_eq!(order(&topology), ["rain", "river", "lake", "sea"]);
    assert_eq!(topology.len(), 4);
    assert!(!topology.is_empty());

    let independent = Topology::new(vec![finite("b"), finite("c"), finite("a")], vec![])
        .expect("no connections");
    assert_eq!(order(&independent), ["a", "b", "c"]);
}

#[test]
fn stores_endpoints_and_connections_canonically() {
    let topology = Topology::new(
        vec![finite("b"), boundary("a"), finite("c")],
        vec![link("b", "c"), link("a", "c"), link("a", "b")],
    )
    .expect("acyclic fixture");
    let endpoints: Vec<&str> = topology
        .endpoints()
        .iter()
        .map(|endpoint| endpoint.id().as_str())
        .collect();
    assert_eq!(endpoints, ["a", "b", "c"]);
    let connections: Vec<(&str, &str)> = topology
        .connections()
        .iter()
        .map(|c| (c.source().as_str(), c.target().as_str()))
        .collect();
    assert_eq!(connections, [("a", "b"), ("a", "c"), ("b", "c")]);
    assert_eq!(order(&topology), ["a", "b", "c"]);
    assert!(topology.endpoint(&id("a")).is_some_and(|e| !e.is_finite()));
    assert!(topology.endpoint(&id("b")).is_some_and(TopologyEndpoint::is_finite));
    assert!(topology.endpoint(&id("z")).is_none());
}

#[test]
fn rejects_duplicate_endpoint() {
    assert_eq!(
        Topology::new(vec![finite("a"), boundary("b"), boundary("a")], vec![]),
        Err(TopologyError::DuplicateEndpoint { endpoint: id("a") })
    );
}

#[test]
fn rejects_duplicate_connection() {
    assert_eq!(
        Topology::new(
            vec![finite("a"), finite("b")],
            vec![link("a", "b"), link("b", "a"), link("a", "b")]
        ),
        Err(TopologyError::DuplicateConnection {
            connection_source: id("a"),
            connection_target: id("b"),
        })
    );
}

#[test]
fn rejects_unknown_connection_endpoint_in_canonical_connection_order() {
    assert_eq!(
        Topology::new(vec![finite("b")], vec![link("b", "x"), link("a", "b")]),
        Err(TopologyError::UnknownConnectionEndpoint {
            role: ConnectionEndpointRole::Source,
            endpoint: id("a"),
        })
    );
    assert_eq!(
        Topology::new(vec![finite("b")], vec![link("b", "x")]),
        Err(TopologyError::UnknownConnectionEndpoint {
            role: ConnectionEndpointRole::Target,
            endpoint: id("x"),
        })
    );
}

#[test]
fn reports_endpoints_blocked_by_a_cycle() {
    assert_eq!(
        Topology::new(
            vec![finite("a"), finite("b"), finite("c"), finite("d")],
            vec![link("a", "b"), link("b", "c"), link("c", "b"), link("c", "d")],
        ),
        Err(TopologyError::Cycle {
            blocked_endpoint_ids: vec![id("b"), id("c"), id("d")],
        })
    );
}

#[test]
fn permits_empty_topology() {
    let topology = Topology::new(vec![], vec![]).expect("empty topology is valid");
    assert!(topology.is_empty());
    assert_eq!(topology.len(), 0);
    assert!(topology.topological_order().is_empty());
}

#[test]
fn the_stable_order_is_the_least_of_all_topological_orders() {
    let topology = Topology::new(
        vec![finite("alpha"), finite("beta"), finite("zeta")],
        vec![link("zeta", "alpha")],
    )
    .expect("acyclic topology");
    // The topological orders are [beta, zeta, alpha], [zeta, alpha, beta] and
    // [zeta, beta, alpha]; the first is the least.
    let stable = order(&topology);
    assert_eq!(stable, ["beta", "zeta", "alpha"]);
    for other in [["zeta", "alpha", "beta"], ["zeta", "beta", "alpha"]] {
        assert!(stable.as_slice() < other.as_slice());
    }
}

#[test]
fn endpoints_keep_their_kinds() {
    let topology = Topology::new(
        vec![finite("lake"), boundary("rain")],
        vec![link("rain", "lake")],
    )
    .expect("valid topology");
    assert_eq!(topology.endpoint(&id("lake")), Some(&finite("lake")));
    assert_eq!(topology.endpoint(&id("rain")), Some(&boundary("rain")));
    assert_eq!(topology.endpoints(), &[finite("lake"), boundary("rain")]);
    assert_eq!(topology.endpoint(&id("sea")), None);
}
