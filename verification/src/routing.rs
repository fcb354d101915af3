//! The routing graph.
use vstd::prelude::*;
use crate::graph;
use crate::graph::{
    EndpointDescriptor, EndpointDirection, EndpointId, GraphError, GraphErrorView, Route, RouteId,
};
use crate::text;
use crate::text::same_text;
use crate::textmap::TextMap;

verus! {

/// Endpoints, and routes between them.
#[derive(Debug)]
pub struct RoutingGraph {
    endpoints: TextMap<EndpointDescriptor>,
    routes: TextMap<Route>,
}

/// The endpoints and the routes by their names.
#[verifier::ext_equal]
pub struct GraphView {
    pub endpoints: Map<Seq<char>, EndpointDescriptor>,
    pub routes: Map<Seq<char>, Route>,
}

/// The values of a map in the order of their names.
pub open spec fn lists_endpoints(
    listed: Seq<EndpointDescriptor>,
    endpoints: Map<Seq<char>, EndpointDescriptor>,
) -> bool {
    &&& forall|i: int|
        0 <= i < listed.len() ==> endpoints.contains_key((#[trigger] listed[i]).id@)
            && endpoints[listed[i].id@] == listed[i]
    &&& forall|name: Seq<char>| #[trigger]
        endpoints.contains_key(name) ==> exists|i: int|
            0 <= i < listed.len() && (#[trigger] listed[i]).id@ == name
    &&& forall|i: int, j: int|
        0 <= i < j < listed.len() ==> text::text_before(
            (#[trigger] listed[i]).id@,
            (#[trigger] listed[j]).id@,
        )
}

/// The values of a map in the order of their names.
pub open spec fn lists_routes(listed: Seq<Route>, routes: Map<Seq<char>, Route>) -> bool {
    &&& forall|i: int|
        0 <= i < listed.len() ==> routes.contains_key((#[trigger] listed[i]).id@)
            && routes[listed[i].id@] == listed[i]
    &&& forall|name: Seq<char>| #[trigger]
        routes.contains_key(name) ==> exists|i: int|
            0 <= i < listed.len() && (#[trigger] listed[i]).id@ == name
    &&& forall|i: int, j: int|
        0 <= i < j < listed.len() ==> text::text_before(
            (#[trigger] listed[i]).id@,
            (#[trigger] listed[j]).id@,
        )
}

/// Why an endpoint cannot be part of any graph.
pub open spec fn endpoint_defect(endpoint: EndpointDescriptor) -> Option<GraphErrorView> {
    if endpoint.channels == 0 {
        Some(GraphErrorView::ZeroChannels)
    } else if endpoint.sample_rate < 8_000 || endpoint.sample_rate > 768_000 {
        Some(GraphErrorView::InvalidSampleRate(endpoint.sample_rate))
    } else if !graph::is_short(endpoint.node@) {
        Some(GraphErrorView::InvalidIdentifier(endpoint.node@))
    } else {
        None
    }
}

impl GraphView {
    /// A graph without endpoints.
    pub open spec fn empty() -> GraphView {
        GraphView { endpoints: Map::empty(), routes: Map::empty() }
    }

    /// The route's endpoints are there, face the right way, and have as many channels as the
    /// route's matrix; the gain is finite.
    pub open spec fn fits(self, route: Route) -> bool {
        &&& self.endpoints.contains_key(route.source@)
        &&& self.endpoints.contains_key(route.sink@)
        &&& self.endpoints[route.source@].direction == EndpointDirection::Source
        &&& self.endpoints[route.sink@].direction == EndpointDirection::Sink
        &&& route.matrix.inputs() == self.endpoints[route.source@].channels
        &&& route.matrix.outputs() == self.endpoints[route.sink@].channels
        &&& route.gain.finite()
    }

    /// Everything stands under its own name, endpoints are in order, and routes fit.
    pub open spec fn wf(self) -> bool {
        &&& forall|name: Seq<char>| #[trigger]
            self.endpoints.contains_key(name) ==> self.endpoints[name].id@ == name
                && endpoint_defect(self.endpoints[name]) is None
        &&& forall|name: Seq<char>| #[trigger]
            self.routes.contains_key(name) ==> self.routes[name].id@ == name && self.fits(
                self.routes[name],
            )
    }

    /// Some endpoint of the node feeds its sink back to its source.
    pub open spec fn loops_back(self, node: Seq<char>) -> bool {
        exists|name: Seq<char>| #[trigger]
            self.endpoints.contains_key(name) && self.endpoints[name].node@ == node
                && self.endpoints[name].is_loopback
    }

    /// The route named `name` carries audio from one node to another.
    pub open spec fn carries(self, name: Seq<char>, from: Seq<char>, to: Seq<char>) -> bool {
        &&& self.routes.contains_key(name)
        &&& self.endpoints.contains_key(self.routes[name].source@)
        &&& self.endpoints.contains_key(self.routes[name].sink@)
        &&& self.endpoints[self.routes[name].source@].node@ == from
        &&& self.endpoints[self.routes[name].sink@].node@ == to
    }

    /// Audio that a route takes from node `from` comes out of node `to` again.
    pub open spec fn edge(self, from: Seq<char>, to: Seq<char>) -> bool {
        &&& self.loops_back(to)
        &&& exists|name: Seq<char>| #[trigger] self.carries(name, from, to)
    }

    /// Nodes such that audio passes from each to the next.
    pub open spec fn is_path(self, path: Seq<Seq<char>>) -> bool {
        &&& path.len() > 0
        &&& forall|i: int| 0 <= i < path.len() - 1 ==> self.edge(#[trigger] path[i], path[i + 1])
    }

    /// Audio passes from node `from` to node `to` over zero or more routes.
    pub open spec fn connected(self, from: Seq<char>, to: Seq<char>) -> bool {
        exists|path: Seq<Seq<char>>| #[trigger]
            self.is_path(path) && path.first() == from && path.last() == to
    }

    /// Audio played to node `from` comes out of it and reaches node `to`.
    pub open spec fn feeds(self, from: Seq<char>, to: Seq<char>) -> bool {
        self.loops_back(from) && self.connected(from, to)
    }

    /// No node's audio comes back to it over one or more routes.
    pub open spec fn free_of_feedback(self) -> bool {
        forall|path: Seq<Seq<char>>|
            #![trigger self.is_path(path)]
            self.is_path(path) && path.len() > 1 ==> path.first() != path.last()
    }

    /// The graph with an endpoint added.
    pub open spec fn with_endpoint(self, endpoint: EndpointDescriptor) -> GraphView {
        GraphView { endpoints: self.endpoints.insert(endpoint.id@, endpoint), ..self }
    }

    /// The graph without an endpoint.
    pub open spec fn without_endpoint(self, name: Seq<char>) -> GraphView {
        GraphView { endpoints: self.endpoints.remove(name), ..self }
    }

    /// The graph with a route added.
    pub open spec fn with_route(self, route: Route) -> GraphView {
        GraphView { routes: self.routes.insert(route.id@, route), ..self }
    }

    /// The graph without a route.
    pub open spec fn without_route(self, name: Seq<char>) -> GraphView {
        GraphView { routes: self.routes.remove(name), ..self }
    }

    /// Some route starts or ends at the endpoint.
    pub open spec fn in_use(self, endpoint: Seq<char>) -> bool {
        exists|name: Seq<char>| #[trigger]
            self.routes.contains_key(name) && (self.routes[name].source@ == endpoint
                || self.routes[name].sink@ == endpoint)
    }

    /// Why an endpoint cannot be added.
    pub open spec fn endpoint_refusal(self, endpoint: EndpointDescriptor) -> Option<
        GraphErrorView,
    > {
        if endpoint_defect(endpoint) is Some {
            endpoint_defect(endpoint)
        } else if self.endpoints.contains_key(endpoint.id@) {
            Some(GraphErrorView::EndpointExists(endpoint.id@))
        } else {
            None
        }
    }

    /// Why a route cannot be added.
    pub open spec fn route_refusal(self, route: Route) -> Option<GraphErrorView> {
        let source = self.endpoints[route.source@];
        let sink = self.endpoints[route.sink@];
        if self.routes.contains_key(route.id@) {
            Some(GraphErrorView::RouteExists(route.id@))
        } else if !self.endpoints.contains_key(route.source@) {
            Some(GraphErrorView::EndpointNotFound(route.source@))
        } else if !self.endpoints.contains_key(route.sink@) {
            Some(GraphErrorView::EndpointNotFound(route.sink@))
        } else if source.direction != EndpointDirection::Source {
            Some(GraphErrorView::SourceDirectionRequired(route.source@))
        } else if sink.direction != EndpointDirection::Sink {
            Some(GraphErrorView::SinkDirectionRequired(route.sink@))
        } else if route.matrix.inputs() != source.channels {
            Some(
                GraphErrorView::MatrixInputMismatch {
                    expected: source.channels,
                    actual: route.matrix.inputs(),
                },
            )
        } else if route.matrix.outputs() != sink.channels {
            Some(
                GraphErrorView::MatrixOutputMismatch {
                    expected: sink.channels,
                    actual: route.matrix.outputs(),
                },
            )
        } else if !route.gain.finite() {
            Some(GraphErrorView::GainNotFinite)
        } else if self.feeds(sink.node@, source.node@) {
            Some(
                GraphErrorView::CycleDetected {
                    source_node: source.node@,
                    sink_node: sink.node@,
                },
            )
        } else {
            None
        }
    }
}

impl View for RoutingGraph {
    type V = GraphView;

    closed spec fn view(&self) -> GraphView {
        GraphView { endpoints: self.endpoints@, routes: self.routes@ }
    }
}

/// The nodes that texts name.
spec fn nodes(texts: Seq<String>) -> Seq<Seq<char>> {
    Seq::new(texts.len(), |i: int| texts[i]@)
}

/// Every node of the one list is in one of the others.
spec fn covered(node: Seq<char>, visited: Seq<Seq<char>>, pending: Seq<Seq<char>>) -> bool {
    visited.contains(node) || pending.contains(node)
}

impl RoutingGraph {
    /// The graph is well-formed.
    pub closed spec fn wf(&self) -> bool {
        &&& self.endpoints.wf()
        &&& self.routes.wf()
        &&& self@.wf()
    }

    /// A well-formed graph has a well-formed view.
    pub broadcast proof fn lemma_wf(&self)
        requires
            #[trigger] self.wf(),
        ensures
            self@.wf(),
    {
    }

    /// All endpoints, in the order of their names.
    pub fn endpoints(&self) -> (listed: &Vec<EndpointDescriptor>)
        requires
            self.wf(),
        ensures
            lists_endpoints(listed@, self@.endpoints),
    {
        let listed = self.endpoints.values();
        proof {
            let map = self.endpoints;
            assert forall|i: int| 0 <= i < listed@.len() implies self@.endpoints.contains_key(
                (#[trigger] listed@[i]).id@,
            ) && self@.endpoints[listed@[i].id@] == listed@[i] && listed@[i].id@
                == map.names()[i] by {
                map.lemma_entry(i);
            }
            assert forall|name: Seq<char>| #[trigger]
                self@.endpoints.contains_key(name) implies exists|i: int|
                0 <= i < listed@.len() && (#[trigger] listed@[i]).id@ == name by {
                let i = map.lemma_place(name);
                assert(listed@[i].id@ == name);
            }
        }
        listed
    }

    /// All routes, in the order of their names.
    pub fn routes(&self) -> (listed: &Vec<Route>)
        requires
            self.wf(),
        ensures
            lists_routes(listed@, self@.routes),
    {
        let listed = self.routes.values();
        proof {
            let map = self.routes;
            assert forall|i: int| 0 <= i < listed@.len() implies self@.routes.contains_key(
                (#[trigger] listed@[i]).id@,
            ) && self@.routes[listed@[i].id@] == listed@[i] && listed@[i].id@ == map.names()[i] by {
                map.lemma_entry(i);
            }
            assert forall|name: Seq<char>| #[trigger]
                self@.routes.contains_key(name) implies exists|i: int|
                0 <= i < listed@.len() && (#[trigger] listed@[i]).id@ == name by {
                let i = map.lemma_place(name);
                assert(listed@[i].id@ == name);
            }
        }
        listed
    }

    /// The endpoint with a given name.
    pub fn endpoint(&self, id: &EndpointId) -> (endpoint: Option<&EndpointDescriptor>)
        requires
            self.wf(),
        ensures
            match endpoint {
                Some(endpoint) => self@.endpoints.contains_key(id@) && *endpoint
                    == self@.endpoints[id@],
                None => !self@.endpoints.contains_key(id@),
            },
    {
        self.endpoints.get(id.as_str())
    }

    /// Adds an endpoint.
    pub fn add_endpoint(&mut self, endpoint: EndpointDescriptor) -> (result: Result<(), GraphError>)
        requires
            old(self).wf(),
        ensures
            final(self).wf(),
            match result {
                Ok(()) => old(self)@.endpoint_refusal(endpoint) is None && final(self)@ == old(
                    self
                )@.with_endpoint(endpoint),
                Err(error) => old(self)@.endpoint_refusal(endpoint) == Some(error@) && final(self)@
                    == old(self)@,
            },
    {
        if endpoint.channels == 0 {
            return Err(GraphError::ZeroChannels);
        }
        if endpoint.sample_rate < 8_000 || endpoint.sample_rate > 768_000 {
            return Err(GraphError::InvalidSampleRate(endpoint.sample_rate));
        }
        let length = endpoint.node.as_str().as_bytes().len();
        if length == 0 || length > 255 {
            return Err(GraphError::InvalidIdentifier(endpoint.node));
        }
        if self.endpoints.contains_key(endpoint.id.as_str()) {
            return Err(GraphError::EndpointExists(endpoint.id));
        }
        let key = endpoint.id.as_str().to_owned();
        let _ = self.endpoints.insert(key, endpoint);
        assert(self@ =~= old(self)@.with_endpoint(endpoint));
        Ok(())
    }

    /// Removes an endpoint that no route uses.
    pub fn remove_endpoint(&mut self, id: &EndpointId) -> (result: Result<
        EndpointDescriptor,
        GraphError,
    >)
        requires
            old(self).wf(),
        ensures
            final(self).wf(),
            match result {
                Ok(endpoint) => {
                    &&& !old(self)@.in_use(id@)
                    &&& old(self)@.endpoints.contains_key(id@)
                    &&& endpoint == old(self)@.endpoints[id@]
                    &&& final(self)@ == old(self)@.without_endpoint(id@)
                },
                Err(error) => {
                    &&& final(self)@ == old(self)@
                    &&& error@ == if old(self)@.in_use(id@) {
                        GraphErrorView::EndpointInUse(id@)
                    } else {
                        GraphErrorView::EndpointNotFound(id@)
                    }
                    &&& old(self)@.in_use(id@) || !old(self)@.endpoints.contains_key(id@)
                },
            },
    {
        let count = self.routes.len();
        let mut i: usize = 0;
        while i < count
            invariant
                self.wf(),
                *self == *old(self),
                i <= count,
                count == self.routes.names().len(),
                forall|k: int|
                    0 <= k < i ==> (#[trigger] self.routes.entries()[k]).source@ != id@
                        && self.routes.entries()[k].sink@ != id@,
            decreases count - i,
        {
            let route = self.routes.value_at(i);
            proof {
                self.routes.lemma_entry(i as int);
            }
            if same_text(route.source.as_str(), id.as_str()) || same_text(
                route.sink.as_str(),
                id.as_str(),
            ) {
                assert(self@.routes.contains_key(self.routes.names()[i as int]));
                assert(self@.in_use(id@));
                return Err(GraphError::EndpointInUse(id.clone()));
            }
            i = i + 1;
        }
        assert(!self@.in_use(id@)) by {
            if self@.in_use(id@) {
                let name = choose|name: Seq<char>| #[trigger]
                    self@.routes.contains_key(name) && (self@.routes[name].source@ == id@
                        || self@.routes[name].sink@ == id@);
                let k = self.routes.lemma_place(name);
                assert(self.routes.entries()[k].source@ != id@);
            }
        }
        let ghost before = self@;
        match self.endpoints.remove(id.as_str()) {
            Some(endpoint) => {
                proof {
                    assert(self@ =~= before.without_endpoint(id@));
                    assert forall|name: Seq<char>| #[trigger]
                        self@.routes.contains_key(name) implies self@.routes[name].id@ == name
                        && self@.fits(self@.routes[name]) by {
                        assert(before.routes.contains_key(name));
                        assert(before.fits(before.routes[name]));
                    }
                }
                Ok(endpoint)
            },
            None => {
                assert(self@ =~= before);
                Err(GraphError::EndpointNotFound(id.clone()))
            },
        }
    }

    /// Removes a route.
    pub fn remove_route(&mut self, id: &RouteId) -> (result: Result<Route, GraphError>)
        requires
            old(self).wf(),
        ensures
            final(self).wf(),
            match result {
                Ok(route) => {
                    &&& old(self)@.routes.contains_key(id@)
                    &&& route == old(self)@.routes[id@]
                    &&& final(self)@ == old(self)@.without_route(id@)
                },
                Err(error) => {
                    &&& !old(self)@.routes.contains_key(id@)
                    &&& error@ == GraphErrorView::RouteNotFound(id@)
                    &&& final(self)@ == old(self)@
                },
            },
    {
        match self.routes.remove(id.as_str()) {
            Some(route) => {
                assert(self@ =~= old(self)@.without_route(id@));
                Ok(route)
            },
            None => {
                assert(self@ =~= old(self)@);
                Err(GraphError::RouteNotFound(id.clone()))
            },
        }
    }

    /// Tells whether some endpoint of the node feeds its sink back to its source.
    fn node_is_loopback(&self, node: &str) -> (yes: bool)
        requires
            self.wf(),
        ensures
            yes == self@.loops_back(node@),
    {
        let count = self.endpoints.len();
        let mut i: usize = 0;
        while i < count
            invariant
                self.wf(),
                i <= count,
                count == self.endpoints.names().len(),
                forall|k: int|
                    0 <= k < i ==> !((#[trigger] self.endpoints.entries()[k]).node@ == node@
                        && self.endpoints.entries()[k].is_loopback),
            decreases count - i,
        {
            let endpoint = self.endpoints.value_at(i);
            proof {
                self.endpoints.lemma_entry(i as int);
            }
            if endpoint.is_loopback && same_text(endpoint.node.as_str(), node) {
                assert(self@.endpoints.contains_key(self.endpoints.names()[i as int]));
                return true;
            }
            i = i + 1;
        }
        proof {
            if self@.loops_back(node@) {
                let name = choose|name: Seq<char>| #[trigger]
                    self@.endpoints.contains_key(name) && self@.endpoints[name].node@ == node@
                        && self@.endpoints[name].is_loopback;
                let k = self.endpoints.lemma_place(name);
                assert(self.endpoints.entries()[k].node@ == node@);
            }
        }
        false
    }

    /// Tells whether audio played to node `from` comes out of it and reaches node `target`.
    fn path_exists(&self, from: &str, target: &str) -> (found: bool)
        requires
            self.wf(),
        ensures
            found == self@.feeds(from@, target@),
    {
        if !self.node_is_loopback(from) {
            return false;
        }
        let ghost graph = self@;
        let ghost universe = self.universe(from@);
        let mut pending: Vec<String> = vec![from.to_owned()];
        let mut visited: Vec<String> = Vec::new();
        proof {
            assert(nodes(pending@) =~= seq![from@]);
            assert(nodes(visited@) =~= seq![]);
            graph.lemma_connected_self(from@);
            assert(universe[0] == from@);
        }
        while pending.len() > 0
            invariant
                self.wf(),
                graph == self@,
                graph.loops_back(from@),
                universe == self.universe(from@),
                covered(from@, nodes(visited@), nodes(pending@)),
                forall|node: Seq<char>| #[trigger]
                    nodes(pending@).contains(node) ==> graph.connected(from@, node)
                        && universe.contains(node),
                forall|node: Seq<char>| #[trigger]
                    nodes(visited@).contains(node) ==> node != target@ && universe.contains(node),
                forall|node: Seq<char>, next: Seq<char>|
                    nodes(visited@).contains(node) && #[trigger] graph.edge(node, next) ==> covered(
                        next,
                        nodes(visited@),
                        nodes(pending@),
                    ),
                nodes(visited@).no_duplicates(),
                visited@.len() <= universe.len(),
            decreases universe.len() - visited@.len(), pending@.len(),
        {
            let ghost pending_before = nodes(pending@);
            let node = match pending.pop() {
                Some(node) => node,
                None => {
                    return false;
                },
            };
            proof {
                assert(pending_before =~= nodes(pending@).push(node@));
                assert(pending_before[pending_before.len() - 1] == node@);
                assert(pending_before.contains(node@));
            }
            if same_text(node.as_str(), target) {
                return true;
            }
            if Self::has_node(&visited, node.as_str()) {
                proof {
                    lemma_popped(nodes(visited@), nodes(pending@), node@);
                }
                continue ;
            }
            let ghost visited_before = nodes(visited@);
            let ghost current = node@;
            let ghost pending_popped = nodes(pending@);
            visited.push(node);
            proof {
                assert(nodes(visited@) =~= visited_before.push(current));
                lemma_pushed(visited_before, current);
                lemma_pushed(pending_popped, current);
                lemma_visited_bound(nodes(visited@), universe);
            }
            self.push_next_nodes(visited[visited.len() - 1].as_str(), &mut pending);
            proof {
                assert forall|n: Seq<char>| #[trigger] nodes(pending@).contains(n) implies
                    graph.connected(from@, n) && universe.contains(n) by {
                    if pending_popped.contains(n) {
                        assert(pending_popped.push(current).contains(n));
                        assert(pending_before.contains(n));
                    } else {
                        graph.lemma_connected_step(from@, current, n);
                        self.lemma_universe(from@, current, n);
                    }
                }
                assert forall|n: Seq<char>, next: Seq<char>|
                    nodes(visited@).contains(n) && #[trigger] graph.edge(n, next) implies covered(
                    next,
                    nodes(visited@),
                    nodes(pending@),
                ) by {
                    if visited_before.contains(n) {
                        assert(covered(next, visited_before, pending_before));
                    }
                }
            }
        }
        proof {
            assert(nodes(pending@) =~= seq![]);
            if graph.connected(from@, target@) {
                let path = choose|path: Seq<Seq<char>>| #[trigger]
                    graph.is_path(path) && path.first() == from@ && path.last() == target@;
                lemma_closed(graph, nodes(visited@), path, path.len() - 1);
            }
        }
        false
    }

    /// Appends every node that audio from `node` comes out of next.
    fn push_next_nodes(&self, node: &str, pending: &mut Vec<String>)
        requires
            self.wf(),
        ensures
            forall|n: Seq<char>| #[trigger]
                nodes(final(pending)@).contains(n) <==> nodes(old(pending)@).contains(n)
                    || self@.edge(node@, n),
    {
        let ghost graph = self@;
        let ghost start = nodes(pending@);
        let count = self.routes.len();
        let mut i: usize = 0;
        while i < count
            invariant
                self.wf(),
                graph == self@,
                i <= count,
                count == self.routes.names().len(),
                forall|n: Seq<char>| #[trigger]
                    nodes(pending@).contains(n) ==> start.contains(n) || graph.edge(node@, n),
                forall|n: Seq<char>| #[trigger]
                    start.contains(n) ==> nodes(pending@).contains(n),
                forall|k: int, next: Seq<char>|
                    0 <= k < i && graph.loops_back(next) && #[trigger] graph.carries(
                        self.routes.names()[k],
                        node@,
                        next,
                    ) ==> nodes(pending@).contains(next),
            decreases count - i,
        {
            let route = self.routes.value_at(i);
            let ghost before = nodes(pending@);
            let ghost name = self.routes.names()[i as int];
            proof {
                self.routes.lemma_entry(i as int);
                assert(graph.routes.contains_key(name));
                assert(graph.fits(graph.routes[name]));
            }
            if let (Some(source), Some(sink)) = (
                self.endpoints.get(route.source.as_str()),
                self.endpoints.get(route.sink.as_str()),
            ) {
                if same_text(source.node.as_str(), node) && self.node_is_loopback(
                    sink.node.as_str(),
                ) {
                    pending.push(sink.node.clone());
                    proof {
                        assert(nodes(pending@) =~= before.push(sink.node@));
                        lemma_pushed(before, sink.node@);
                        assert(graph.carries(name, node@, sink.node@));
                    }
                }
            }
            i = i + 1;
        }
        proof {
            assert forall|n: Seq<char>| graph.edge(node@, n) implies #[trigger] nodes(
                pending@,
            ).contains(n) by {
                let name = choose|name: Seq<char>| #[trigger] graph.carries(name, node@, n);
                let k = self.routes.lemma_place(name);
                assert(graph.carries(self.routes.names()[k], node@, n));
            }
        }
    }

    /// A search comes to known nodes alone.
    proof fn lemma_universe(&self, from: Seq<char>, node: Seq<char>, next: Seq<char>)
        requires
            self.wf(),
            self@.edge(node, next),
        ensures
            self.universe(from).contains(next),
    {
        let name = choose|name: Seq<char>| #[trigger] self@.carries(name, node, next);
        let k = self.routes.lemma_place(name);
        assert(self.universe(from)[k + 1] == next);
    }

    /// The nodes that a search from `from` can come to.
    spec fn universe(&self, from: Seq<char>) -> Seq<Seq<char>> {
        seq![from] + Seq::new(
            self.routes.names().len(),
            |i: int| self@.endpoints[self.routes.entries()[i].sink@].node@,
        )
    }

    /// Tells whether a node is in a list.
    fn has_node(list: &Vec<String>, node: &str) -> (found: bool)
        ensures
            found == nodes(list@).contains(node@),
    {
        let mut i: usize = 0;
        while i < list.len()
            invariant
                i <= list@.len(),
                forall|k: int| 0 <= k < i ==> (#[trigger] list@[k])@ != node@,
            decreases list.len() - i,
        {
            if same_text(list[i].as_str(), node) {
                assert(nodes(list@)[i as int] == node@);
                return true;
            }
            i = i + 1;
        }
        proof {
            if nodes(list@).contains(node@) {
                let k = choose|k: int| 0 <= k < nodes(list@).len() && nodes(list@)[k] == node@;
                assert(list@[k]@ == node@);
            }
        }
        false
    }

    /// Adds a route, unless it would make a node's audio come back to it.
    pub fn add_route(&mut self, route: Route) -> (result: Result<(), GraphError>)
        requires
            old(self).wf(),
        ensures
            final(self).wf(),
            match result {
                Ok(()) => old(self)@.route_refusal(route) is None && final(self)@ == old(
                    self
                )@.with_route(route),
                Err(error) => old(self)@.route_refusal(route) == Some(error@) && final(self)@
                    == old(self)@,
            },
    {
        if self.routes.contains_key(route.id.as_str()) {
            return Err(GraphError::RouteExists(route.id));
        }
        let source = match self.endpoints.get(route.source.as_str()) {
            Some(source) => source,
            None => {
                return Err(GraphError::EndpointNotFound(route.source));
            },
        };
        let sink = match self.endpoints.get(route.sink.as_str()) {
            Some(sink) => sink,
            None => {
                return Err(GraphError::EndpointNotFound(route.sink));
            },
        };
        if source.direction != EndpointDirection::Source {
            return Err(GraphError::SourceDirectionRequired(source.id.clone()));
        }
        if sink.direction != EndpointDirection::Sink {
            return Err(GraphError::SinkDirectionRequired(sink.id.clone()));
        }
        if route.matrix.input_channels() != source.channels {
            return Err(
                GraphError::MatrixInputMismatch {
                    expected: source.channels,
                    actual: route.matrix.input_channels(),
                },
            );
        }
        if route.matrix.output_channels() != sink.channels {
            return Err(
                GraphError::MatrixOutputMismatch {
                    expected: sink.channels,
                    actual: route.matrix.output_channels(),
                },
            );
        }
        if !route.gain.is_finite() {
            return Err(GraphError::GainNotFinite);
        }
        if self.path_exists(sink.node.as_str(), source.node.as_str()) {
            return Err(
                GraphError::CycleDetected {
                    source_node: source.node.clone(),
                    sink_node: sink.node.clone(),
                },
            );
        }
        let ghost before = self@;
        let key = route.id.as_str().to_owned();
        let _ = self.routes.insert(key, route);
        proof {
            assert(self@ =~= before.with_route(route));
            assert forall|name: Seq<char>| #[trigger]
                self@.routes.contains_key(name) implies self@.routes[name].id@ == name
                && self@.fits(self@.routes[name]) by {
                if name != route.id@ {
                    assert(before.routes.contains_key(name));
                    assert(before.fits(before.routes[name]));
                }
            }
        }
        Ok(())
    }
}

impl GraphView {
    /// The graphs have the same endpoints, and routes that agree under the same names.
    pub open spec fn agrees(self, other: GraphView) -> bool {
        &&& self.endpoints == other.endpoints
        &&& self.routes.dom() == other.routes.dom()
        &&& forall|name: Seq<char>| #[trigger]
            other.routes.contains_key(name) ==> self.routes[name].agrees(other.routes[name])
    }
}

impl Clone for RoutingGraph {
    fn clone(&self) -> (copy: Self)
        ensures
            self.wf() ==> copy.wf(),
            self.wf() ==> copy@.agrees(self@),
    {
        let copy = RoutingGraph { endpoints: self.endpoints.clone(), routes: self.routes.clone() };
        proof {
            if self.wf() {
                assert(copy.endpoints.entries() =~= self.endpoints.entries());
                assert(copy.endpoints@ =~= self.endpoints@);
                assert(copy.routes@.dom() =~= self.routes@.dom());
                assert forall|name: Seq<char>| #[trigger]
                    self@.routes.contains_key(name) implies copy@.routes[name].agrees(
                    self@.routes[name],
                ) by {
                    let i = self.routes.lemma_place(name);
                    let j = copy.routes.lemma_place(name);
                    self.routes.lemma_distinct(i, j);
                    assert(cloned::<Route>(self.routes.entries()[i], copy.routes.entries()[i]));
                }
                assert(copy@.agrees(self@));
            }
        }
        copy
    }
}

impl Default for RoutingGraph {
    /// A graph without endpoints.
    fn default() -> (graph: Self)
        ensures
            graph.wf(),
            graph@ == GraphView::empty(),
    {
        RoutingGraph { endpoints: TextMap::new(), routes: TextMap::new() }
    }
}

proof fn lemma_pushed(list: Seq<Seq<char>>, node: Seq<char>)
    ensures
        forall|n: Seq<char>| #[trigger]
            list.push(node).contains(n) <==> list.contains(n) || n == node,
        list.no_duplicates() && !list.contains(node) ==> list.push(node).no_duplicates(),
{
    let longer = list.push(node);
    assert forall|n: Seq<char>| #[trigger] longer.contains(n) <==> list.contains(n) || n == node by {
        if list.contains(n) {
            let k = choose|k: int| 0 <= k < list.len() && list[k] == n;
            assert(longer[k] == n);
        }
        if n == node {
            assert(longer[list.len() as int] == n);
        }
        if longer.contains(n) {
            let k = choose|k: int| 0 <= k < longer.len() && longer[k] == n;
            if k < list.len() {
                assert(list[k] == n);
            }
        }
    }
}

proof fn lemma_popped(visited: Seq<Seq<char>>, pending: Seq<Seq<char>>, node: Seq<char>)
    requires
        visited.contains(node),
    ensures
        forall|n: Seq<char>| #[trigger]
            covered(n, visited, pending.push(node)) ==> covered(n, visited, pending),
        forall|n: Seq<char>| #[trigger] pending.contains(n) ==> pending.push(node).contains(n),
{
    lemma_pushed(pending, node);
}

/// Distinct nodes of a list are at most as many as the list is long.
proof fn lemma_visited_bound(visited: Seq<Seq<char>>, universe: Seq<Seq<char>>)
    requires
        visited.no_duplicates(),
        forall|node: Seq<char>| #[trigger] visited.contains(node) ==> universe.contains(node),
    ensures
        visited.len() <= universe.len(),
{
    visited.unique_seq_to_set();
    universe.lemma_cardinality_of_set();
    assert(visited.to_set().subset_of(universe.to_set()));
    vstd::set_lib::lemma_len_subset(visited.to_set(), universe.to_set());
}

/// A set of nodes that no edge leaves holds every path that starts in it.
proof fn lemma_closed(graph: GraphView, visited: Seq<Seq<char>>, path: Seq<Seq<char>>, n: int)
    requires
        graph.is_path(path),
        visited.contains(path.first()),
        0 <= n < path.len(),
        forall|node: Seq<char>, next: Seq<char>|
            visited.contains(node) && #[trigger] graph.edge(node, next) ==> visited.contains(next),
    ensures
        visited.contains(path[n]),
    decreases n,
{
    if n > 0 {
        lemma_closed(graph, visited, path, n - 1);
        assert(graph.edge(path[n - 1], path[n - 1 + 1]));
    }
}

impl GraphView {
    proof fn lemma_connected_self(self, node: Seq<char>)
        ensures
            self.connected(node, node),
    {
        let path = seq![node];
        assert(self.is_path(path));
    }

    proof fn lemma_connected_step(self, from: Seq<char>, middle: Seq<char>, to: Seq<char>)
        requires
            self.connected(from, middle),
            self.edge(middle, to),
        ensures
            self.connected(from, to),
    {
        let path = choose|path: Seq<Seq<char>>| #[trigger]
            self.is_path(path) && path.first() == from && path.last() == middle;
        let longer = path.push(to);
        assert forall|i: int| 0 <= i < longer.len() - 1 implies self.edge(
            #[trigger] longer[i],
            longer[i + 1],
        ) by {
            if i < path.len() - 1 {
                assert(self.edge(path[i], path[i + 1]));
            }
        }
        assert(self.is_path(longer));
    }
}

/// Where every edge of one graph is an edge of another, the first is free of feedback if the other
/// is.
proof fn lemma_fewer_edges(less: GraphView, more: GraphView)
    requires
        forall|from: Seq<char>, to: Seq<char>| #[trigger] less.edge(from, to) ==> more.edge(from, to),
        more.free_of_feedback(),
    ensures
        less.free_of_feedback(),
{
    assert forall|path: Seq<Seq<char>>|
        #![trigger less.is_path(path)]
        less.is_path(path) && path.len() > 1 implies path.first() != path.last() by {
        assert(more.is_path(path));
    }
}

/// Audio that a longer graph passes on, the shorter one passes on too, unless it takes the new
/// route.
proof fn lemma_before_new_route(graph: GraphView, route: Route, path: Seq<Seq<char>>, n: int)
    requires
        graph.route_refusal(route) is None,
        graph.with_route(route).is_path(path),
        0 <= n < path.len(),
    ensures
        ({
            let source = graph.endpoints[route.source@].node@;
            graph.connected(path[0], path[n]) || graph.connected(path[0], source)
        }),
    decreases n,
{
    let longer = graph.with_route(route);
    let source = graph.endpoints[route.source@].node@;
    if n == 0 {
        graph.lemma_connected_self(path[0]);
    } else {
        lemma_before_new_route(graph, route, path, n - 1);
        if !graph.connected(path[0], source) {
            assert(longer.edge(path[n - 1], path[n - 1 + 1]));
            lemma_edge_or_new(graph, route, path[n - 1], path[n]);
            if graph.edge(path[n - 1], path[n]) {
                graph.lemma_connected_step(path[0], path[n - 1], path[n]);
            }
        }
    }
}

/// An edge of the longer graph is an edge of the shorter one or goes along the new route.
proof fn lemma_edge_or_new(graph: GraphView, route: Route, from: Seq<char>, to: Seq<char>)
    requires
        graph.route_refusal(route) is None,
        graph.with_route(route).edge(from, to),
    ensures
        graph.edge(from, to) || {
            &&& from == graph.endpoints[route.source@].node@
            &&& to == graph.endpoints[route.sink@].node@
            &&& graph.loops_back(to)
        },
{
    let longer = graph.with_route(route);
    let name = choose|name: Seq<char>| #[trigger] longer.carries(name, from, to);
    assert(longer.endpoints == graph.endpoints);
    assert(graph.loops_back(to)) by {
        let id = choose|id: Seq<char>| #[trigger]
            longer.endpoints.contains_key(id) && longer.endpoints[id].node@ == to
                && longer.endpoints[id].is_loopback;
        assert(graph.endpoints.contains_key(id));
    }
    if name != route.id@ {
        assert(graph.carries(name, from, to));
    }
}

/// A route that the graph accepts never makes a node's audio come back to it.
pub proof fn accepted_routes_make_no_feedback(graph: GraphView, route: Route)
    requires
        graph.free_of_feedback(),
        graph.route_refusal(route) is None,
    ensures
        graph.with_route(route).free_of_feedback(),
{
    let longer = graph.with_route(route);
    let source = graph.endpoints[route.source@].node@;
    let sink = graph.endpoints[route.sink@].node@;
    assert forall|path: Seq<Seq<char>>|
        #![trigger longer.is_path(path)]
        longer.is_path(path) && path.len() > 1 implies path.first() != path.last() by {
        if path.first() == path.last() {
            assert(!graph.is_path(path));
            let i = choose|i: int|
                0 <= i < path.len() - 1 && !graph.edge(#[trigger] path[i], path[i + 1]);
            assert(longer.edge(path[i], path[i + 1]));
            lemma_edge_or_new(graph, route, path[i], path[i + 1]);
            let round = path.skip(i + 1) + path.subrange(1, i + 1);
            let turn = path.len() - i - 1;
            assert forall|k: int| 0 <= k < round.len() - 1 implies longer.edge(
                #[trigger] round[k],
                round[k + 1],
            ) by {
                if k < turn - 1 {
                    assert(longer.edge(path[i + 1 + k], path[i + 1 + k + 1]));
                } else if k == turn - 1 {
                    assert(round[k] == path.last());
                    assert(round[k + 1] == path[1]);
                    assert(longer.edge(path[0], path[1]));
                } else {
                    let at = k - turn + 1;
                    assert(round[k] == path[at]);
                    assert(round[k + 1] == path[at + 1]);
                    assert(longer.edge(path[at], path[at + 1]));
                }
            }
            assert(longer.is_path(round));
            assert(round[0] == sink);
            assert(round[round.len() - 1] == source) by {
                if i == 0 {
                    assert(round =~= path.skip(1));
                } else {
                    assert(round[round.len() - 1] == path[i]);
                }
            }
            lemma_before_new_route(graph, route, round, round.len() - 1);
            assert(graph.feeds(sink, source));
        }
    }
}

/// A graph without routes is free of feedback.
pub proof fn graphs_without_routes_have_no_feedback(graph: GraphView)
    requires
        graph.routes == Map::<Seq<char>, Route>::empty(),
    ensures
        graph.free_of_feedback(),
{
    assert forall|path: Seq<Seq<char>>|
        #![trigger graph.is_path(path)]
        graph.is_path(path) && path.len() > 1 implies path.first() != path.last() by {
        assert(graph.edge(path[0], path[1]));
    }
}

/// Taking a route out, or an endpoint that no route uses, makes no feedback.
pub proof fn removals_make_no_feedback(graph: GraphView, name: Seq<char>)
    requires
        graph.free_of_feedback(),
    ensures
        graph.without_route(name).free_of_feedback(),
        !graph.in_use(name) ==> graph.without_endpoint(name).free_of_feedback(),
{
    let fewer = graph.without_route(name);
    assert forall|from: Seq<char>, to: Seq<char>| #[trigger] fewer.edge(from, to) implies graph.edge(
        from,
        to,
    ) by {
        let route = choose|route: Seq<char>| #[trigger] fewer.carries(route, from, to);
        assert(graph.carries(route, from, to));
        let id = choose|id: Seq<char>| #[trigger]
            fewer.endpoints.contains_key(id) && fewer.endpoints[id].node@ == to
                && fewer.endpoints[id].is_loopback;
        assert(graph.endpoints.contains_key(id));
    }
    lemma_fewer_edges(fewer, graph);
    let smaller = graph.without_endpoint(name);
    assert forall|from: Seq<char>, to: Seq<char>| #[trigger] smaller.edge(from, to) implies graph.edge(
        from,
        to,
    ) by {
        let route = choose|route: Seq<char>| #[trigger] smaller.carries(route, from, to);
        assert(graph.carries(route, from, to));
        let id = choose|id: Seq<char>| #[trigger]
            smaller.endpoints.contains_key(id) && smaller.endpoints[id].node@ == to
                && smaller.endpoints[id].is_loopback;
        assert(graph.endpoints.contains_key(id));
    }
    lemma_fewer_edges(smaller, graph);
}

/// An edge of a graph with an endpoint added is an edge of the graph without it, or follows a route
/// to the node that the endpoint makes loop back.
proof fn lemma_edge_or_looped(
    graph: GraphView,
    endpoint: EndpointDescriptor,
    from: Seq<char>,
    to: Seq<char>,
)
    requires
        graph.wf(),
        graph.endpoint_refusal(endpoint) is None,
        graph.with_endpoint(endpoint).edge(from, to),
    ensures
        graph.edge(from, to) || {
            &&& to == endpoint.node@
            &&& endpoint.is_loopback
            &&& !graph.loops_back(to)
            &&& exists|name: Seq<char>| #[trigger] graph.carries(name, from, to)
        },
{
    let larger = graph.with_endpoint(endpoint);
    let name = choose|name: Seq<char>| #[trigger] larger.carries(name, from, to);
    assert(graph.routes.contains_key(name));
    assert(graph.fits(graph.routes[name]));
    assert(graph.carries(name, from, to));
    let id = choose|id: Seq<char>| #[trigger]
        larger.endpoints.contains_key(id) && larger.endpoints[id].node@ == to
            && larger.endpoints[id].is_loopback;
    if id != endpoint.id@ {
        assert(graph.endpoints.contains_key(id));
    }
}

/// A path of a graph with an endpoint added that comes to a place which the endpoint's node is
/// connected with stays at such places.
proof fn lemma_stays_connected(
    graph: GraphView,
    endpoint: EndpointDescriptor,
    path: Seq<Seq<char>>,
    start: int,
    end: int,
)
    requires
        graph.wf(),
        graph.endpoint_refusal(endpoint) is None,
        graph.with_endpoint(endpoint).is_path(path),
        0 <= start <= end < path.len(),
        graph.connected(endpoint.node@, path[start]),
    ensures
        graph.connected(endpoint.node@, path[end]),
    decreases end,
{
    if start < end {
        lemma_stays_connected(graph, endpoint, path, start, end - 1);
        assert(graph.with_endpoint(endpoint).edge(path[end - 1], path[end - 1 + 1]));
        lemma_edge_or_looped(graph, endpoint, path[end - 1], path[end]);
        if graph.edge(path[end - 1], path[end]) {
            graph.lemma_connected_step(endpoint.node@, path[end - 1], path[end]);
        } else {
            graph.lemma_connected_self(endpoint.node@);
        }
    }
}

/// An endpoint that the graph accepts makes no feedback, unless it makes a node loop back that did
/// not, and whose audio already reaches a node from which a route leads to it.
pub proof fn accepted_endpoints_make_no_feedback(graph: GraphView, endpoint: EndpointDescriptor)
    requires
        graph.wf(),
        graph.free_of_feedback(),
        graph.endpoint_refusal(endpoint) is None,
        endpoint.is_loopback && !graph.loops_back(endpoint.node@) ==> forall|
            name: Seq<char>,
            from: Seq<char>,
        | #[trigger]
            graph.carries(name, from, endpoint.node@) ==> !graph.connected(endpoint.node@, from),
    ensures
        graph.with_endpoint(endpoint).free_of_feedback(),
{
    let larger = graph.with_endpoint(endpoint);
    assert forall|path: Seq<Seq<char>>|
        #![trigger larger.is_path(path)]
        larger.is_path(path) && path.len() > 1 implies path.first() != path.last() by {
        if path.first() == path.last() {
            assert(!graph.is_path(path));
            let i = choose|i: int|
                0 <= i < path.len() - 1 && !graph.edge(#[trigger] path[i], path[i + 1]);
            assert(larger.edge(path[i], path[i + 1]));
            lemma_edge_or_looped(graph, endpoint, path[i], path[i + 1]);
            graph.lemma_connected_self(endpoint.node@);
            lemma_stays_connected(graph, endpoint, path, i + 1, path.len() - 1);
            lemma_stays_connected(graph, endpoint, path, 0, i);
        }
    }
}

/// Removing a route that was just added gives the graph back.
pub proof fn removing_a_route_undoes_adding_it(graph: GraphView, route: Route)
    requires
        graph.route_refusal(route) is None,
    ensures
        graph.with_route(route).without_route(route.id@) == graph,
{
    assert(graph.with_route(route).without_route(route.id@) =~= graph);
}

/// Removing an endpoint that was just added gives the graph back.
pub proof fn removing_an_endpoint_undoes_adding_it(graph: GraphView, endpoint: EndpointDescriptor)
    requires
        graph.wf(),
        graph.endpoint_refusal(endpoint) is None,
    ensures
        !graph.with_endpoint(endpoint).in_use(endpoint.id@),
        graph.with_endpoint(endpoint).without_endpoint(endpoint.id@) == graph,
{
    let larger = graph.with_endpoint(endpoint);
    assert(larger.without_endpoint(endpoint.id@) =~= graph);
    if larger.in_use(endpoint.id@) {
        let name = choose|name: Seq<char>| #[trigger]
            larger.routes.contains_key(name) && (larger.routes[name].source@ == endpoint.id@
                || larger.routes[name].sink@ == endpoint.id@);
        assert(graph.routes.contains_key(name));
        assert(graph.fits(graph.routes[name]));
    }
}

/// An endpoint that routes use stays, and with it the routes stay whole: every route of a
/// well-formed graph leads from a source of the graph to a sink of the graph.
pub proof fn routes_lead_between_endpoints(graph: GraphView, name: Seq<char>)
    requires
        graph.wf(),
        graph.routes.contains_key(name),
    ensures
        graph.fits(graph.routes[name]),
        graph.in_use(graph.routes[name].source@),
        graph.in_use(graph.routes[name].sink@),
{
}

} // verus!
