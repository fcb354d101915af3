//! Laws of names and of the routing graph.
use vstd::prelude::*;
use vstd::utf8::*;
use crate::float::Float32;
use crate::graph::{
    ClockDomain, EndpointDescriptor, EndpointDirection, EndpointId, GraphError, Route, RouteId,
};
use crate::routing;
use crate::routing::{GraphView, RoutingGraph};

verus! {

/// A letter, a digit, or one of `.`, `_`, `:` and `-`.
pub open spec fn is_name_byte(byte: u8) -> bool {
    ||| 'a' as u8 <= byte <= 'z' as u8
    ||| 'A' as u8 <= byte <= 'Z' as u8
    ||| '0' as u8 <= byte <= '9' as u8
    ||| byte == '.' as u8
    ||| byte == '_' as u8
    ||| byte == ':' as u8
    ||| byte == '-' as u8
}

/// 1 to 255 bytes that names may hold.
pub open spec fn is_name(text: Seq<char>) -> bool {
    &&& 0 < encode_utf8(text).len() < 256
    &&& forall|i: int| 0 <= i < encode_utf8(text).len() ==> is_name_byte(#[trigger] encode_utf8(text)[i])
}

/// Exactly the names name an endpoint, as they are.
pub proof fn endpoints_take_names(value: String, result: Result<EndpointId, GraphError>)
    requires
        call_ensures(EndpointId::new, (value,), result),
    ensures
        match result {
            Ok(id) => is_name(value@) && id@ == value@,
            Err(error) => !is_name(value@) && (error matches GraphError::InvalidIdentifier(refused)
                && refused@ == value@),
        },
{
    assert forall|i: int| 0 <= i < encode_utf8(value@).len() implies is_name_byte(
        #[trigger] encode_utf8(value@)[i],
    ) == crate::graph::is_identifier_byte(encode_utf8(value@)[i]) by {}
}

/// Exactly the names name a route, as they are.
pub proof fn routes_take_names(value: String, result: Result<RouteId, GraphError>)
    requires
        call_ensures(RouteId::new, (value,), result),
    ensures
        match result {
            Ok(id) => is_name(value@) && id@ == value@,
            Err(error) => !is_name(value@) && (error matches GraphError::InvalidIdentifier(refused)
                && refused@ == value@),
        },
{
    assert forall|i: int| 0 <= i < encode_utf8(value@).len() implies is_name_byte(
        #[trigger] encode_utf8(value@)[i],
    ) == crate::graph::is_identifier_byte(encode_utf8(value@)[i]) by {}
}

/// Exactly the texts of 1 to 255 bytes name a clock, as they are.
pub proof fn clocks_take_short_texts(value: String, result: Result<ClockDomain, GraphError>)
    requires
        call_ensures(ClockDomain::new, (value,), result),
    ensures
        match result {
            Ok(id) => 0 < encode_utf8(value@).len() < 256 && id@ == value@,
            Err(error) => !(0 < encode_utf8(value@).len() < 256) && (error
                matches GraphError::InvalidIdentifier(refused) && refused@ == value@),
        },
{
}

/// A name is given out as the text that it was made from.
pub proof fn names_are_given_back(
    value: String,
    endpoint: EndpointId,
    endpoint_text: &str,
    route: RouteId,
    route_text: &str,
    clock: ClockDomain,
    clock_text: &str,
)
    requires
        call_ensures(EndpointId::new, (value,), Ok::<EndpointId, GraphError>(endpoint)),
        call_ensures(EndpointId::as_str, (&endpoint,), endpoint_text),
        call_ensures(RouteId::new, (value,), Ok::<RouteId, GraphError>(route)),
        call_ensures(RouteId::as_str, (&route,), route_text),
        call_ensures(ClockDomain::new, (value,), Ok::<ClockDomain, GraphError>(clock)),
        call_ensures(ClockDomain::as_str, (&clock,), clock_text),
    ensures
        endpoint_text@ == value@,
        route_text@ == value@,
        clock_text@ == value@,
{
}

/// An endpoint is added where it has channels, a rate from 8 kHz to 768 kHz and a node of 1 to 255
/// bytes, and where its name is free. Nothing else changes.
pub proof fn endpoints_are_added(
    graph: &mut RoutingGraph,
    endpoint: EndpointDescriptor,
    result: Result<(), GraphError>,
)
    requires
        call_ensures(RoutingGraph::add_endpoint, (graph, endpoint), result),
    ensures
        final(graph)@.routes == old(graph)@.routes,
        match result {
            Ok(()) => {
                &&& endpoint.channels > 0
                &&& 8_000 <= endpoint.sample_rate <= 768_000
                &&& 0 < encode_utf8(endpoint.node@).len() < 256
                &&& !old(graph)@.endpoints.contains_key(endpoint.id@)
                &&& final(graph)@.endpoints == old(graph)@.endpoints.insert(endpoint.id@, endpoint)
            },
            Err(error) => {
                &&& final(graph)@.endpoints == old(graph)@.endpoints
                &&& match error {
                    GraphError::ZeroChannels => endpoint.channels == 0,
                    GraphError::InvalidSampleRate(rate) => {
                        &&& rate == endpoint.sample_rate
                        &&& endpoint.channels > 0
                        &&& rate < 8_000 || 768_000 < rate
                    },
                    GraphError::InvalidIdentifier(node) => {
                        &&& node@ == endpoint.node@
                        &&& endpoint.channels > 0
                        &&& 8_000 <= endpoint.sample_rate <= 768_000
                        &&& !(0 < encode_utf8(node@).len() < 256)
                    },
                    GraphError::EndpointExists(id) => {
                        &&& id@ == endpoint.id@
                        &&& endpoint.channels > 0
                        &&& 8_000 <= endpoint.sample_rate <= 768_000
                        &&& 0 < encode_utf8(endpoint.node@).len() < 256
                        &&& old(graph)@.endpoints.contains_key(id@)
                    },
                    _ => false,
                }
            },
        },
{
}

/// An endpoint is removed where it is there and no route starts or ends at it. Nothing else changes.
pub proof fn endpoints_are_removed(
    graph: &mut RoutingGraph,
    id: EndpointId,
    result: Result<EndpointDescriptor, GraphError>,
)
    requires
        old(graph).wf(),
        call_ensures(RoutingGraph::remove_endpoint, (graph, &id), result),
    ensures
        final(graph)@.routes == old(graph)@.routes,
        match result {
            Ok(endpoint) => {
                &&& old(graph)@.endpoints.contains_key(id@)
                &&& endpoint == old(graph)@.endpoints[id@]
                &&& final(graph)@.endpoints == old(graph)@.endpoints.remove(id@)
                &&& forall|name: Seq<char>| #[trigger]
                    old(graph)@.routes.contains_key(name) ==> old(graph)@.routes[name].source@ != id@
                        && old(graph)@.routes[name].sink@ != id@
            },
            Err(error) => {
                &&& final(graph)@.endpoints == old(graph)@.endpoints
                &&& match error {
                    GraphError::EndpointInUse(used) => used@ == id@ && exists|name: Seq<char>|
                        #[trigger]
                        old(graph)@.routes.contains_key(name) && (old(graph)@.routes[name].source@
                            == id@ || old(graph)@.routes[name].sink@ == id@),
                    GraphError::EndpointNotFound(missing) => missing@ == id@ && !old(
                        graph,
                    )@.endpoints.contains_key(id@),
                    _ => false,
                }
            },
        },
{
}

/// A route is removed where it is there. Nothing else changes.
pub proof fn routes_are_removed(
    graph: &mut RoutingGraph,
    id: RouteId,
    result: Result<Route, GraphError>,
)
    requires
        call_ensures(RoutingGraph::remove_route, (graph, &id), result),
    ensures
        final(graph)@.endpoints == old(graph)@.endpoints,
        match result {
            Ok(route) => {
                &&& old(graph)@.routes.contains_key(id@)
                &&& route == old(graph)@.routes[id@]
                &&& final(graph)@.routes == old(graph)@.routes.remove(id@)
            },
            Err(error) => {
                &&& final(graph)@.routes == old(graph)@.routes
                &&& error matches GraphError::RouteNotFound(missing) && missing@ == id@
                &&& !old(graph)@.routes.contains_key(id@)
            },
        },
{
}

/// An endpoint is found by its name.
pub proof fn endpoints_are_found_by_name(
    graph: RoutingGraph,
    id: EndpointId,
    found: Option<&EndpointDescriptor>,
)
    requires
        call_ensures(RoutingGraph::endpoint, (&graph, &id), found),
    ensures
        found is Some == graph@.endpoints.contains_key(id@),
        found matches Some(endpoint) ==> *endpoint == graph@.endpoints[id@],
{
}

/// Bytes that come first in a dictionary: they are the start of the others, or have a smaller byte
/// at the first place where they differ.
pub open spec fn comes_first(left: Seq<u8>, right: Seq<u8>) -> bool {
    exists|n: int|
        {
            &&& 0 <= n <= left.len()
            &&& n < right.len()
            &&& #[trigger] left.take(n) == right.take(n)
            &&& n < left.len() ==> left[n] < right[n]
        }
}

/// What comes before in the order of bytes comes first in a dictionary.
pub proof fn lemma_comes_first(left: Seq<u8>, right: Seq<u8>)
    requires
        crate::text::bytes_before(left, right),
    ensures
        comes_first(left, right),
    decreases left.len(),
{
    if left.len() == 0 || left[0] != right[0] {
        assert(left.take(0) =~= right.take(0));
    } else {
        lemma_comes_first(left.drop_first(), right.drop_first());
        let l = left.drop_first();
        let r = right.drop_first();
        let n = choose|n: int|
            {
                &&& 0 <= n <= l.len()
                &&& n < r.len()
                &&& #[trigger] l.take(n) == r.take(n)
                &&& n < l.len() ==> l[n] < r[n]
            };
        assert forall|i: int| 0 <= i < n + 1 implies left[i] == right[i] by {
            if i > 0 {
                assert(l.take(n)[i - 1] == r.take(n)[i - 1]);
            }
        }
        assert(left.take(n + 1) =~= right.take(n + 1));
    }
}

/// Endpoints are listed each once, in the order of the bytes of their names.
pub proof fn endpoints_are_listed_in_order(graph: RoutingGraph, listed: &Vec<EndpointDescriptor>)
    requires
        call_ensures(RoutingGraph::endpoints, (&graph,), listed),
    ensures
        forall|i: int|
            0 <= i < listed@.len() ==> graph@.endpoints.contains_pair(
                (#[trigger] listed@[i]).id@,
                listed@[i],
            ),
        forall|name: Seq<char>| #[trigger]
            graph@.endpoints.contains_key(name) ==> exists|i: int|
                0 <= i < listed@.len() && (#[trigger] listed@[i]).id@ == name,
        forall|i: int, j: int|
            0 <= i < j < listed@.len() ==> comes_first(
                encode_utf8((#[trigger] listed@[i]).id@),
                encode_utf8((#[trigger] listed@[j]).id@),
            ),
{
    assert forall|i: int, j: int| 0 <= i < j < listed@.len() implies comes_first(
        encode_utf8((#[trigger] listed@[i]).id@),
        encode_utf8((#[trigger] listed@[j]).id@),
    ) by {
        lemma_comes_first(encode_utf8(listed@[i].id@), encode_utf8(listed@[j].id@));
    }
}

/// Routes are listed each once, in the order of the bytes of their names.
pub proof fn routes_are_listed_in_order(graph: RoutingGraph, listed: &Vec<Route>)
    requires
        call_ensures(RoutingGraph::routes, (&graph,), listed),
    ensures
        forall|i: int|
            0 <= i < listed@.len() ==> graph@.routes.contains_pair(
                (#[trigger] listed@[i]).id@,
                listed@[i],
            ),
        forall|name: Seq<char>| #[trigger]
            graph@.routes.contains_key(name) ==> exists|i: int|
                0 <= i < listed@.len() && (#[trigger] listed@[i]).id@ == name,
        forall|i: int, j: int|
            0 <= i < j < listed@.len() ==> comes_first(
                encode_utf8((#[trigger] listed@[i]).id@),
                encode_utf8((#[trigger] listed@[j]).id@),
            ),
{
    assert forall|i: int, j: int| 0 <= i < j < listed@.len() implies comes_first(
        encode_utf8((#[trigger] listed@[i]).id@),
        encode_utf8((#[trigger] listed@[j]).id@),
    ) by {
        lemma_comes_first(encode_utf8(listed@[i].id@), encode_utf8(listed@[j].id@));
    }
}

/// Neither infinite nor a NaN: not all of the exponent's bits are set.
pub open spec fn is_number(value: Float32) -> bool {
    value.bits & 0x7f80_0000 != 0x7f80_0000
}

/// A value is finite exactly where not all bits of its exponent are set.
pub proof fn finite_values_are_numbers(value: Float32, finite: bool)
    requires
        call_ensures(Float32::is_finite, (value,), finite),
    ensures
        finite == is_number(value),
{
    lemma_number(value);
}

/// A finite value is a number.
pub proof fn lemma_number(value: Float32)
    ensures
        value.finite() == is_number(value),
{
    let bits: u32 = value.bits;
    assert((bits & 0x7f80_0000 != 0x7f80_0000) == ((bits / 0x80_0000) % 0x100 != 0xff))
        by (bit_vector);
    assert((bits as int / 0x80_0000) % 0x100 == (bits / 0x80_0000) % 0x100);
}

/// Values are equal where both are numbers of the same bits, or infinite with the same sign, or both
/// are zeros of any sign. A NaN equals nothing.
pub proof fn values_are_compared_as_numbers(left: Float32, right: Float32, equal: bool)
    requires
        call_ensures(<Float32 as PartialEq>::eq, (&left, &right), equal),
    ensures
        equal == {
            &&& left.bits & 0x7fff_ffff <= 0x7f80_0000
            &&& right.bits & 0x7fff_ffff <= 0x7f80_0000
            &&& left.bits == right.bits || (left.bits | right.bits) & 0x7fff_ffff == 0
        },
{
    let a: u32 = left.bits;
    let b: u32 = right.bits;
    assert(a & 0x7fff_ffff == a % 0x8000_0000) by (bit_vector);
    assert(b & 0x7fff_ffff == b % 0x8000_0000) by (bit_vector);
    assert(((a | b) & 0x7fff_ffff == 0) == (a % 0x8000_0000 == 0 && b % 0x8000_0000 == 0))
        by (bit_vector);
}

/// The node from which a route takes its audio.
pub open spec fn source_node(graph: GraphView, name: Seq<char>) -> Seq<char> {
    graph.endpoints[graph.routes[name].source@].node@
}

/// The node to which a route takes its audio.
pub open spec fn sink_node(graph: GraphView, name: Seq<char>) -> Seq<char> {
    graph.endpoints[graph.routes[name].sink@].node@
}

/// What is played to the node is heard from it: some endpoint of the node is a loopback.
pub open spec fn echoes(graph: GraphView, node: Seq<char>) -> bool {
    exists|name: Seq<char>| #[trigger]
        graph.endpoints.contains_key(name) && graph.endpoints[name].is_loopback
            && graph.endpoints[name].node@ == node
}

/// Routes that each start at the node to which the one before leads, and where what is played is
/// heard.
pub open spec fn is_chain(graph: GraphView, names: Seq<Seq<char>>) -> bool {
    &&& names.len() > 0
    &&& forall|i: int|
        0 <= i < names.len() ==> {
            &&& graph.routes.contains_key(#[trigger] names[i])
            &&& graph.endpoints.contains_key(graph.routes[names[i]].source@)
            &&& graph.endpoints.contains_key(graph.routes[names[i]].sink@)
            &&& echoes(graph, sink_node(graph, names[i]))
            &&& i + 1 < names.len() ==> sink_node(graph, names[i]) == source_node(
                graph,
                names[i + 1],
            )
        }
}

/// A chain that leads back to where it starts.
pub open spec fn is_loop(graph: GraphView, names: Seq<Seq<char>>) -> bool {
    &&& is_chain(graph, names)
    &&& sink_node(graph, names.last()) == source_node(graph, names.first())
}

/// A graph in which a path returns has a loop of routes, with as many routes as the path has steps.
proof fn lemma_path_chain(graph: GraphView, path: Seq<Seq<char>>) -> (names: Seq<Seq<char>>)
    requires
        graph.is_path(path),
        path.len() > 1,
    ensures
        is_chain(graph, names),
        source_node(graph, names.first()) == path.first(),
        sink_node(graph, names.last()) == path.last(),
{
    let names = Seq::new(
        (path.len() - 1) as nat,
        |i: int| choose|name: Seq<char>| #[trigger] graph.carries(name, path[i], path[i + 1]),
    );
    assert forall|i: int| 0 <= i < names.len() implies #[trigger] graph.carries(
        names[i],
        path[i],
        path[i + 1],
    ) && echoes(graph, path[i + 1]) by {
        assert(graph.edge(path[i], path[i + 1]));
        let name = choose|name: Seq<char>| #[trigger]
            graph.endpoints.contains_key(name) && graph.endpoints[name].node@ == path[i + 1]
                && graph.endpoints[name].is_loopback;
        assert(graph.endpoints.contains_key(name));
    }
    assert forall|i: int| 0 <= i < names.len() implies {
        &&& graph.routes.contains_key(#[trigger] names[i])
        &&& graph.endpoints.contains_key(graph.routes[names[i]].source@)
        &&& graph.endpoints.contains_key(graph.routes[names[i]].sink@)
        &&& echoes(graph, sink_node(graph, names[i]))
        &&& i + 1 < names.len() ==> sink_node(graph, names[i]) == source_node(graph, names[i + 1])
    } by {
        assert(graph.carries(names[i], path[i], path[i + 1]));
        if i + 1 < names.len() {
            assert(graph.carries(names[i + 1], path[i + 1], path[i + 2]));
        }
    }
    assert(graph.carries(names[0], path[0], path[1]));
    let n = names.len() - 1;
    assert(graph.carries(names[n], path[n], path[n + 1]));
    names
}

/// A loop of routes is a path that returns.
proof fn lemma_loop_path(graph: GraphView, names: Seq<Seq<char>>) -> (path: Seq<Seq<char>>)
    requires
        is_loop(graph, names),
    ensures
        graph.is_path(path),
        path.len() > 1,
        path.first() == path.last(),
{
    let path = Seq::new(
        names.len() + 1,
        |i: int|
            if i < names.len() {
                source_node(graph, names[i])
            } else {
                sink_node(graph, names.last())
            },
    );
    assert forall|i: int| 0 <= i < path.len() - 1 implies graph.edge(
        #[trigger] path[i],
        path[i + 1],
    ) by {
        assert(graph.routes.contains_key(names[i]));
        assert(path[i + 1] == sink_node(graph, names[i]));
        assert(graph.carries(names[i], path[i], path[i + 1]));
        assert(echoes(graph, path[i + 1]));
        assert(graph.loops_back(path[i + 1]));
    }
    path
}

/// In a graph in which no routes make a loop, none do after a route is added.
pub proof fn accepted_routes_make_no_loop(graph: &mut RoutingGraph, route: Route)
    requires
        call_ensures(RoutingGraph::add_route, (graph, route), Ok::<(), GraphError>(())),
        forall|names: Seq<Seq<char>>| !#[trigger] is_loop(old(graph)@, names),
    ensures
        forall|names: Seq<Seq<char>>| !#[trigger] is_loop(final(graph)@, names),
{
    let before = old(graph)@;
    let after = final(graph)@;
    assert forall|path: Seq<Seq<char>>|
        #![trigger before.is_path(path)]
        before.is_path(path) && path.len() > 1 implies path.first() != path.last() by {
        let names = lemma_path_chain(before, path);
        assert(!is_loop(before, names));
    }
    routing::accepted_routes_make_no_feedback(before, route);
    assert forall|names: Seq<Seq<char>>| !#[trigger] is_loop(after, names) by {
        if is_loop(after, names) {
            let path = lemma_loop_path(after, names);
            assert(after.is_path(path));
        }
    }
}

/// A route between a source and a sink that have the channels of its matrix, with a finite gain and
/// a name that is free, is refused only where it would make a loop.
pub proof fn routes_are_refused_for_loops_alone(
    graph: &mut RoutingGraph,
    route: Route,
    result: Result<(), GraphError>,
)
    requires
        old(graph).wf(),
        call_ensures(RoutingGraph::add_route, (graph, route), result),
        !old(graph)@.routes.contains_key(route.id@),
        old(graph)@.endpoints.contains_key(route.source@),
        old(graph)@.endpoints.contains_key(route.sink@),
        old(graph)@.endpoints[route.source@].direction == EndpointDirection::Source,
        old(graph)@.endpoints[route.sink@].direction == EndpointDirection::Sink,
        old(graph)@.endpoints[route.source@].channels == route.matrix.inputs(),
        old(graph)@.endpoints[route.sink@].channels == route.matrix.outputs(),
        is_number(route.gain),
    ensures
        ({
            let with_it = GraphView {
                endpoints: old(graph)@.endpoints,
                routes: old(graph)@.routes.insert(route.id@, route),
            };
            match result {
                Ok(()) => final(graph)@ == with_it && forall|names: Seq<Seq<char>>|
                    names.len() > 0 && names.first() == route.id@ ==> !#[trigger] is_loop(
                        with_it,
                        names,
                    ) || exists|i: int| 0 < i < names.len() && #[trigger] names[i] == route.id@,
                Err(error) => {
                    &&& final(graph)@ == old(graph)@
                    &&& error matches GraphError::CycleDetected { source_node: from, sink_node: to }
                        && from@ == old(graph)@.endpoints[route.source@].node@ && to@ == old(
                        graph,
                    )@.endpoints[route.sink@].node@
                    &&& exists|names: Seq<Seq<char>>| #[trigger]
                        is_loop(with_it, names) && names.contains(route.id@)
                },
            }
        }),
{
    lemma_number(route.gain);
    let before = old(graph)@;
    let with_it = GraphView {
        endpoints: before.endpoints,
        routes: before.routes.insert(route.id@, route),
    };
    let from = before.endpoints[route.source@].node@;
    let to = before.endpoints[route.sink@].node@;
    match result {
        Ok(()) => {
            assert(final(graph)@ =~= with_it);
            assert forall|names: Seq<Seq<char>>|
                names.len() > 0 && names.first() == route.id@ implies !#[trigger] is_loop(
                with_it,
                names,
            ) || exists|i: int| 0 < i < names.len() && #[trigger] names[i] == route.id@ by {
                if is_loop(with_it, names) && !exists|i: int|
                    0 < i < names.len() && #[trigger] names[i] == route.id@ {
                    let path = lemma_loop_path_from(with_it, names);
                    let rest = path.skip(1);
                    assert(before.is_path(rest)) by {
                        assert forall|i: int| 0 <= i < rest.len() - 1 implies before.edge(
                            #[trigger] rest[i],
                            rest[i + 1],
                        ) by {
                            assert(names[i + 1] != route.id@);
                            assert(with_it.carries(names[i + 1], path[i + 1], path[i + 2]));
                            assert(before.carries(names[i + 1], rest[i], rest[i + 1]));
                            lemma_echo(with_it, before, path[i + 2]);
                        }
                    }
                    lemma_echo(with_it, before, path[1]);
                    assert(before.connected(to, from));
                    assert(before.feeds(to, from));
                }
            }
        },
        Err(error) => {
            let path = choose|path: Seq<Seq<char>>| #[trigger]
                before.is_path(path) && path.first() == to && path.last() == from;
            let rest = if path.len() > 1 {
                lemma_path_chain(before, path)
            } else {
                Seq::empty()
            };
            let names = seq![route.id@] + rest;
            lemma_echoes(before, with_it, to);
            assert forall|i: int| 0 <= i < names.len() implies {
                &&& with_it.routes.contains_key(#[trigger] names[i])
                &&& with_it.endpoints.contains_key(with_it.routes[names[i]].source@)
                &&& with_it.endpoints.contains_key(with_it.routes[names[i]].sink@)
                &&& echoes(with_it, sink_node(with_it, names[i]))
                &&& i + 1 < names.len() ==> sink_node(with_it, names[i]) == source_node(
                    with_it,
                    names[i + 1],
                )
            } by {
                if i > 0 {
                    assert(names[i] == rest[i - 1]);
                    assert(before.routes.contains_key(rest[i - 1]));
                    let node = sink_node(before, rest[i - 1]);
                    assert(echoes(before, node));
                    lemma_echoes(before, with_it, node);
                }
                if i + 1 < names.len() {
                    assert(names[i + 1] == rest[i]);
                    assert(before.routes.contains_key(rest[i]));
                }
            }
            assert(names.last() == if rest.len() > 0 {
                rest.last()
            } else {
                route.id@
            });
            if rest.len() > 0 {
                assert(before.routes.contains_key(rest[rest.len() - 1]));
            }
            assert(is_loop(with_it, names));
            assert(names[0] == route.id@);
            assert(names.contains(route.id@));
        },
    }
}

/// What is heard from a node depends on the endpoints alone.
proof fn lemma_echo(graph: GraphView, other: GraphView, node: Seq<char>)
    requires
        echoes(graph, node),
        other.endpoints == graph.endpoints,
    ensures
        other.loops_back(node),
{
    let name = choose|name: Seq<char>| #[trigger]
        graph.endpoints.contains_key(name) && graph.endpoints[name].is_loopback
            && graph.endpoints[name].node@ == node;
    assert(other.endpoints.contains_key(name));
}

/// What is heard from a node depends on the endpoints alone.
proof fn lemma_echoes(graph: GraphView, other: GraphView, node: Seq<char>)
    requires
        graph.loops_back(node) || echoes(graph, node),
        other.endpoints == graph.endpoints,
    ensures
        echoes(other, node),
{
    let name = choose|name: Seq<char>| #[trigger]
        graph.endpoints.contains_key(name) && graph.endpoints[name].is_loopback
            && graph.endpoints[name].node@ == node;
    assert(other.endpoints.contains_key(name));
}

/// The nodes of a loop of routes, and what carries audio from each to the next.
proof fn lemma_loop_path_from(graph: GraphView, names: Seq<Seq<char>>) -> (path: Seq<Seq<char>>)
    requires
        is_loop(graph, names),
    ensures
        path.len() == names.len() + 1,
        path.first() == source_node(graph, names.first()),
        path[1] == sink_node(graph, names.first()),
        path.last() == path.first(),
        forall|i: int|
            0 <= i < names.len() ==> graph.carries(#[trigger] names[i], path[i], path[i + 1]),
        forall|i: int| 0 < i < path.len() ==> echoes(graph, #[trigger] path[i]),
{
    let path = Seq::new(
        names.len() + 1,
        |i: int|
            if i < names.len() {
                source_node(graph, names[i])
            } else {
                sink_node(graph, names.last())
            },
    );
    assert forall|i: int| 0 <= i < names.len() implies graph.carries(
        #[trigger] names[i],
        path[i],
        path[i + 1],
    ) by {
        assert(path[i + 1] == sink_node(graph, names[i]));
    }
    assert forall|i: int| 0 < i < path.len() implies echoes(graph, #[trigger] path[i]) by {
        assert(graph.carries(names[i - 1], path[i - 1], path[i]));
    }
    assert(graph.carries(names[0], path[0], path[1]));
    path
}

/// A route is refused for the first of its faults.
pub proof fn faulty_routes_are_refused(
    graph: &mut RoutingGraph,
    route: Route,
    error: GraphError,
)
    requires
        call_ensures(RoutingGraph::add_route, (graph, route), Err::<(), GraphError>(error)),
    ensures
        final(graph)@ == old(graph)@,
        ({
            let free = !old(graph)@.routes.contains_key(route.id@);
            let starts = old(graph)@.endpoints.contains_key(route.source@);
            let ends = old(graph)@.endpoints.contains_key(route.sink@);
            let source = old(graph)@.endpoints[route.source@];
            let sink = old(graph)@.endpoints[route.sink@];
            let faces = source.direction == EndpointDirection::Source;
            let takes = sink.direction == EndpointDirection::Sink;
            let reads = route.matrix.inputs() == source.channels;
            let writes = route.matrix.outputs() == sink.channels;
            match error {
                GraphError::RouteExists(id) => !free && id@ == route.id@,
                GraphError::EndpointNotFound(id) => free && (!starts && id@ == route.source@
                    || starts && !ends && id@ == route.sink@),
                GraphError::SourceDirectionRequired(id) => free && starts && ends && !faces && id@
                    == route.source@,
                GraphError::SinkDirectionRequired(id) => free && starts && ends && faces && !takes
                    && id@ == route.sink@,
                GraphError::MatrixInputMismatch { expected, actual } => free && starts && ends
                    && faces && takes && !reads && expected == source.channels && actual
                    == route.matrix.inputs(),
                GraphError::MatrixOutputMismatch { expected, actual } => free && starts && ends
                    && faces && takes && reads && !writes && expected == sink.channels && actual
                    == route.matrix.outputs(),
                GraphError::GainNotFinite => free && starts && ends && faces && takes && reads
                    && writes && !is_number(route.gain),
                GraphError::CycleDetected { .. } => free && starts && ends && faces && takes && reads
                    && writes && is_number(route.gain),
                _ => false,
            }
        }),
{
    lemma_number(route.gain);
}

} // verus!
