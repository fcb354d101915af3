//! Laws of the routes that are kept between runs, and of what the daemon tells of itself.
use vstd::prelude::*;
use vstd::utf8::*;
use crate::daemon;
use crate::daemon::DaemonState;
use crate::float::FloatMath;
use crate::graph::{EndpointDescriptor, EndpointDirection, Route};
use crate::laws::graphs;
use crate::laws::wire;
use crate::protocol::{Message, ProtocolError, ProtocolErrorView, Request, RequestView};
use crate::requests::Step;
use crate::router::RouterMetrics;
use crate::routing;
use crate::routing::GraphView;
use crate::saved;
use crate::saved::{SavedRoute, SavedRouteView};
use crate::text;

verus! {

/// A route is saved as the request that asks for it.
pub proof fn routes_are_saved_as_requests(
    route: SavedRoute,
    line: String,
    body: &str,
    result: Result<Request, ProtocolError>,
)
    requires
        call_ensures(SavedRoute::line, (&route,), line),
        body@ == line@,
        call_ensures(Request::decode, (body,), result),
    ensures
        result matches Ok(Request::Connect { id, source, sink, gain_millidb, matrix_millionths })
            && id@ == route.id@ && source@ == route.source@ && sink@ == route.sink@ && gain_millidb
            == route.gain_millidb && matrix_millionths@ == route.matrix_millionths@,
{
    Request::decode_inverts_encode(route@.request());
}

/// The saved routes agree in their values.
pub open spec fn are_alike(left: SavedRoute, right: SavedRoute) -> bool {
    &&& left.id@ == right.id@
    &&& left.source@ == right.source@
    &&& left.sink@ == right.sink@
    &&& left.gain_millidb == right.gain_millidb
    &&& left.matrix_millionths@ == right.matrix_millionths@
}

/// What a state saves is what it is loaded with again.
pub proof fn saved_routes_are_loaded_again(
    state: DaemonState,
    lines: Vec<String>,
    path: &str,
    result: Result<DaemonState, String>,
)
    requires
        state.wf(),
        call_ensures(DaemonState::save_routes, (&state,), lines),
        call_ensures(DaemonState::load, (path, &lines), result),
    ensures
        result matches Ok(loaded) && {
            &&& forall|name: Seq<char>| #[trigger]
                loaded.saved().contains_key(name) <==> state.saved().contains_key(name)
            &&& forall|name: Seq<char>| #[trigger]
                state.saved().contains_key(name) ==> are_alike(
                    loaded.saved()[name],
                    state.saved()[name],
                )
            &&& loaded.graph().endpoints == Map::<Seq<char>, EndpointDescriptor>::empty()
            &&& loaded.graph().routes == Map::<Seq<char>, Route>::empty()
        },
{
    state.saved_routes_survive(path@);
    let loaded = result->Ok_0;
    let left = saved::named_views(loaded.saved());
    let right = saved::named_views(state.saved());
    assert(left == right);
    assert forall|name: Seq<char>| #[trigger]
        loaded.saved().contains_key(name) <==> state.saved().contains_key(name) by {
        assert(left.contains_key(name) == right.contains_key(name));
    }
    assert forall|name: Seq<char>| #[trigger] state.saved().contains_key(name) implies are_alike(
        loaded.saved()[name],
        state.saved()[name],
    ) by {
        assert(left[name] == right[name]);
        assert(loaded.saved().contains_key(name));
    }
}

/// The line stands for a route: it is a request for it.
#[verifier::opaque]
spec fn stands_for(line: Seq<char>, route: SavedRouteView) -> bool {
    Request::parsed(encode_utf8(line)) == Ok::<RequestView, ProtocolErrorView>(route.request())
}

/// A line stands for one route.
proof fn lemma_one_route(line: Seq<char>, first: SavedRouteView, second: SavedRouteView)
    requires
        stands_for(line, first),
        stands_for(line, second),
    ensures
        first.id == second.id,
{
    reveal(stands_for);
}

/// The first line with which something is wrong is named, with what is wrong with it.
pub open spec fn names_line(path: Seq<char>, lines: int, message: Seq<char>) -> bool {
    exists|k: int, complaint: Seq<char>|
        {
            &&& 0 <= k < lines
            &&& message == #[trigger] (path + ":"@ + text::digits((k + 1) as nat) + ": "@
                + complaint)
        }
}

/// What is loaded from lines.
proof fn lemma_loaded(path: Seq<char>, lines: Seq<Seq<char>>)
    ensures
        match saved::loaded(path, lines) {
            Ok(routes) => {
                &&& forall|k: int|
                    0 <= k < lines.len() && (#[trigger] lines[k]).len() > 0 ==> exists|
                        route: SavedRouteView,
                    | #[trigger]
                        stands_for(lines[k], route) && routes.contains_key(route.id)
                            && routes[route.id] == route
                &&& forall|name: Seq<char>| #[trigger]
                    routes.contains_key(name) ==> exists|k: int|
                        0 <= k < lines.len() && stands_for(#[trigger] lines[k], routes[name])
            },
            Err(message) => names_line(path, lines.len() as int, message),
        },
    decreases lines.len(),
{
    if lines.len() > 0 {
        let shorter = lines.drop_last();
        let last = lines.last();
        lemma_loaded(path, shorter);
        match saved::loaded(path, shorter) {
            Err(message) => {
                assert(names_line(path, lines.len() as int, message)) by {
                    let (k, complaint) = choose|k: int, complaint: Seq<char>|
                        {
                            &&& 0 <= k < shorter.len()
                            &&& message == #[trigger] (path + ":"@ + text::digits(
                                (k + 1) as nat,
                            ) + ": "@ + complaint)
                        };
                    assert(message == path + ":"@ + text::digits((k + 1) as nat) + ": "@
                        + complaint);
                }
            },
            Ok(before) => {
                match saved::loaded(path, lines) {
                    Ok(routes) => {
                        if last.len() > 0 {
                            lemma_line(path, lines.len(), before, last);
                        }
                        assert forall|k: int|
                            0 <= k < lines.len() && (
                            #[trigger] lines[k]).len() > 0 implies exists|route: SavedRouteView|
                            #[trigger] stands_for(lines[k], route) && routes.contains_key(route.id)
                                && routes[route.id] == route by {
                            if k < shorter.len() {
                                assert(shorter[k] == lines[k]);
                                let route = choose|route: SavedRouteView|
                                    #[trigger] stands_for(shorter[k], route)
                                        && before.contains_key(route.id) && before[route.id]
                                        == route;
                                assert(stands_for(lines[k], route));
                            }
                        }
                        assert forall|name: Seq<char>| #[trigger]
                            routes.contains_key(name) implies exists|k: int|
                            0 <= k < lines.len() && stands_for(
                                #[trigger] lines[k],
                                routes[name],
                            ) by {
                            if before.contains_key(name) {
                                let k = choose|k: int|
                                    0 <= k < shorter.len() && stands_for(
                                        #[trigger] shorter[k],
                                        before[name],
                                    );
                                assert(lines[k] == shorter[k]);
                            } else {
                                assert(stands_for(lines[lines.len() - 1], routes[name]));
                            }
                        }
                    },
                    Err(message) => {
                        lemma_line(path, lines.len(), before, last);
                        let complaint = choose|complaint: Seq<char>|
                            message == #[trigger] (path + ":"@ + text::digits(lines.len()) + ": "@
                                + complaint);
                        let k = lines.len() - 1;
                        assert(message == path + ":"@ + text::digits((k + 1) as nat) + ": "@
                            + complaint);
                    },
                }
            },
        }
    }
}

/// What one more line does.
proof fn lemma_line(
    path: Seq<char>,
    number: nat,
    before: Map<Seq<char>, SavedRouteView>,
    line: Seq<char>,
)
    requires
        line.len() > 0,
    ensures
        match saved::with_line(path, number, before, line) {
            Ok(routes) => exists|route: SavedRouteView|
                {
                    &&& #[trigger] stands_for(line, route)
                    &&& !before.contains_key(route.id)
                    &&& routes == before.insert(route.id, route)
                },
            Err(message) => exists|complaint: Seq<char>|
                message == #[trigger] (path + ":"@ + text::digits(number) + ": "@ + complaint),
        },
{
    reveal(stands_for);
    match saved::with_line(path, number, before, line) {
        Ok(routes) => {
            if let Ok(RequestView::Connect { id, source, sink, gain_millidb, matrix_millionths })
                = Request::parsed(encode_utf8(line)) {
                let route = SavedRouteView { id, source, sink, gain_millidb, matrix_millionths };
                assert(stands_for(line, route));
            }
        },
        Err(message) => {
            let mark = path + ":"@ + text::digits(number) + ": "@;
            assert(message.take(mark.len() as int) =~= mark);
            let complaint = message.skip(mark.len() as int);
            assert(message =~= mark + complaint);
        },
    }
}

/// Lines that are loaded stand for routes of different names.
proof fn lemma_apart(
    path: Seq<char>,
    lines: Seq<Seq<char>>,
    j: int,
    k: int,
    first: SavedRouteView,
    second: SavedRouteView,
)
    requires
        saved::loaded(path, lines) is Ok,
        0 <= j < k < lines.len(),
        lines[j].len() > 0,
        lines[k].len() > 0,
        stands_for(lines[j], first),
        stands_for(lines[k], second),
    ensures
        first.id != second.id,
    decreases lines.len(),
{
    let shorter = lines.drop_last();
    let before = saved::loaded(path, shorter)->Ok_0;
    assert(shorter[j] == lines[j]);
    if k < shorter.len() {
        lemma_apart(path, shorter, j, k, first, second);
    } else {
        lemma_loaded(path, shorter);
        lemma_line(path, lines.len(), before, lines.last());
        let route = choose|route: SavedRouteView| #[trigger]
            stands_for(shorter[j], route) && before.contains_key(route.id) && before[route.id]
                == route;
        lemma_one_route(shorter[j], route, first);
        let last = choose|route: SavedRouteView| #[trigger]
            stands_for(lines.last(), route) && !before.contains_key(route.id);
        lemma_one_route(lines.last(), last, second);
    }
}

/// Every line that is not empty is a request for a route, and is loaded as that route.
pub proof fn lines_are_loaded_as_routes(
    path: &str,
    lines: Vec<String>,
    state: DaemonState,
    k: int,
    body: &str,
    result: Result<Request, ProtocolError>,
)
    requires
        call_ensures(DaemonState::load, (path, &lines), Ok::<DaemonState, String>(state)),
        0 <= k < lines@.len(),
        lines@[k]@.len() > 0,
        body@ == lines@[k]@,
        call_ensures(Request::decode, (body,), result),
    ensures
        result matches Ok(Request::Connect { id, source, sink, gain_millidb, matrix_millionths }) && {
            &&& state.saved().contains_key(id@)
            &&& state.saved()[id@].id@ == id@
            &&& state.saved()[id@].source@ == source@
            &&& state.saved()[id@].sink@ == sink@
            &&& state.saved()[id@].gain_millidb == gain_millidb
            &&& state.saved()[id@].matrix_millionths@ == matrix_millionths@
        },
{
    reveal(stands_for);
    let all = saved::texts(lines@);
    lemma_loaded(path@, all);
    let routes = saved::named_views(state.saved());
    assert(all[k] == lines@[k]@);
    let route = choose|route: SavedRouteView| #[trigger]
        stands_for(all[k], route) && routes.contains_key(route.id) && routes[route.id] == route;
    assert(state.saved().contains_key(route.id));
    assert(routes[route.id] == state.saved()[route.id]@);
}

/// The line, wherever it is read as a request, is one for the route.
pub open spec fn is_request_for(line: Seq<char>, route: SavedRoute) -> bool {
    forall|body: &str, result: Result<Request, ProtocolError>|
        body@ == line && #[trigger] call_ensures(Request::decode, (body,), result) ==> (result
            matches Ok(Request::Connect { id, source, sink, gain_millidb, matrix_millionths })
            && id@ == route.id@ && source@ == route.source@ && sink@ == route.sink@ && gain_millidb
            == route.gain_millidb && matrix_millionths@ == route.matrix_millionths@)
}

/// Every route that is loaded has a line that is a request for it.
pub proof fn loaded_routes_have_a_line(
    path: &str,
    lines: Vec<String>,
    state: DaemonState,
    name: Seq<char>,
)
    requires
        call_ensures(DaemonState::load, (path, &lines), Ok::<DaemonState, String>(state)),
        state.saved().contains_key(name),
    ensures
        exists|k: int|
            0 <= k < lines@.len() && is_request_for(
                (#[trigger] lines@[k])@,
                state.saved()[name],
            ),
{
    reveal(stands_for);
    let all = saved::texts(lines@);
    lemma_loaded(path@, all);
    let routes = saved::named_views(state.saved());
    assert(routes.contains_key(name));
    let k = choose|k: int| 0 <= k < all.len() && stands_for(#[trigger] all[k], routes[name]);
    assert(lines@[k]@ == all[k]);
    assert(routes[name] == state.saved()[name]@);
    assert(is_request_for(lines@[k]@, state.saved()[name]));
}

/// No two lines that are loaded are requests for routes of one name.
pub proof fn loaded_lines_have_names_of_their_own(
    path: &str,
    lines: Vec<String>,
    state: DaemonState,
    j: int,
    k: int,
    first: &str,
    second: &str,
    earlier: Request,
    later: Request,
)
    requires
        call_ensures(DaemonState::load, (path, &lines), Ok::<DaemonState, String>(state)),
        0 <= j < k < lines@.len(),
        lines@[j]@.len() > 0,
        lines@[k]@.len() > 0,
        first@ == lines@[j]@,
        second@ == lines@[k]@,
        call_ensures(Request::decode, (first,), Ok::<Request, ProtocolError>(earlier)),
        call_ensures(Request::decode, (second,), Ok::<Request, ProtocolError>(later)),
    ensures
        earlier matches Request::Connect { id: a, .. } && (later matches Request::Connect {
            id: b,
            ..
        } && a@ != b@),
{
    reveal(stands_for);
    let all = saved::texts(lines@);
    lemma_loaded(path@, all);
    assert(all[j] == lines@[j]@ && all[k] == lines@[k]@);
    let routes = saved::named_views(state.saved());
    let a = choose|route: SavedRouteView| #[trigger]
        stands_for(all[j], route) && routes.contains_key(route.id) && routes[route.id] == route;
    let b = choose|route: SavedRouteView| #[trigger]
        stands_for(all[k], route) && routes.contains_key(route.id) && routes[route.id] == route;
    lemma_apart(path@, all, j, k, a, b);
}

/// Lines are refused with the name of the file and the number of the line.
pub proof fn faulty_lines_are_named(path: &str, lines: Vec<String>, message: String)
    requires
        call_ensures(DaemonState::load, (path, &lines), Err::<DaemonState, String>(message)),
    ensures
        names_line(path@, lines@.len() as int, message@),
{
    lemma_loaded(path@, saved::texts(lines@));
}

/// The lines with a line break between any two of them.
pub open spec fn with_breaks(lines: Seq<Seq<char>>) -> Seq<char>
    decreases lines.len(),
{
    if lines.len() == 0 {
        Seq::empty()
    } else if lines.len() == 1 {
        lines[0]
    } else {
        with_breaks(lines.drop_last()) + seq!['\n'] + lines.last()
    }
}

proof fn lemma_breaks(lines: Seq<Seq<char>>)
    ensures
        daemon::join_lines(lines) == with_breaks(lines),
    decreases lines.len(),
{
    reveal_strlit("\n");
    assert("\n"@ =~= seq!['\n']);
    if lines.len() > 1 {
        lemma_breaks(lines.drop_last());
    }
}

/// The line tells an endpoint's name, its direction, its channels, its rate and its clock.
pub open spec fn tells_endpoint(line: Seq<char>, endpoint: EndpointDescriptor) -> bool {
    let way = match endpoint.direction {
        EndpointDirection::Source => "Source"@,
        EndpointDirection::Sink => "Sink"@,
    };
    exists|channels: Seq<char>, rate: Seq<char>|
        {
            &&& #[trigger] wire::is_numeral(encode_utf8(channels), endpoint.channels as int)
            &&& #[trigger] wire::is_numeral(encode_utf8(rate), endpoint.sample_rate as int)
            &&& line == "endpoint\t"@ + endpoint.id@ + "\t"@ + way + "\t"@ + channels + "ch\t"@
                + rate + "Hz\t"@ + endpoint.clock_domain@
        }
}

/// The line tells a route's name, its source, its sink and its gain with six decimals.
pub open spec fn tells_route<M: FloatMath>(line: Seq<char>, route: Route) -> bool {
    exists|gain: String|
        {
            &&& #[trigger] call_ensures(M::six_decimals, (route.gain,), gain)
            &&& line == "route\t"@ + route.id@ + "\t"@ + route.source@ + "\t"@ + route.sink@
                + "\t"@ + gain@
        }
}

/// The line tells what was counted.
pub open spec fn tells_counts(line: Seq<char>, metrics: RouterMetrics) -> bool {
    exists|underruns: Seq<char>, overruns: Seq<char>, format_errors: Seq<char>|
        {
            &&& #[trigger] wire::is_numeral(encode_utf8(underruns), metrics.underruns as int)
            &&& #[trigger] wire::is_numeral(encode_utf8(overruns), metrics.overruns as int)
            &&& #[trigger] wire::is_numeral(
                encode_utf8(format_errors),
                metrics.format_errors as int,
            )
            &&& line == "metrics\tunderruns="@ + underruns + "\toverruns="@ + overruns
                + "\tformat_errors="@ + format_errors
        }
}

/// The lines tell of the endpoints, of the routes, each in the order of their names, and of what was
/// counted where the router runs.
pub open spec fn tells<M: FloatMath>(
    lines: Seq<Seq<char>>,
    endpoints: Seq<EndpointDescriptor>,
    routes: Seq<Route>,
    metrics: Option<RouterMetrics>,
) -> bool {
    &&& lines.len() == endpoints.len() + routes.len() + if metrics is Some {
        1int
    } else {
        0int
    }
    &&& forall|i: int|
        0 <= i < endpoints.len() ==> tells_endpoint(#[trigger] lines[i], endpoints[i])
    &&& forall|i: int|
        0 <= i < routes.len() ==> tells_route::<M>(
            lines[endpoints.len() + i],
            #[trigger] routes[i],
        )
    &&& metrics matches Some(metrics) ==> tells_counts(lines.last(), metrics)
}

proof fn lemma_tells_endpoint(endpoint: EndpointDescriptor)
    ensures
        tells_endpoint(daemon::endpoint_line(endpoint), endpoint),
{
    let channels = text::digits(endpoint.channels as nat);
    let rate = text::digits(endpoint.sample_rate as nat);
    wire::lemma_numeral(endpoint.channels as nat);
    wire::lemma_numeral(endpoint.sample_rate as nat);
    assert(wire::is_numeral(encode_utf8(channels), endpoint.channels as int));
    assert(wire::is_numeral(encode_utf8(rate), endpoint.sample_rate as int));
}

proof fn lemma_tells_counts(metrics: RouterMetrics)
    ensures
        tells_counts(daemon::metrics_line(metrics), metrics),
{
    wire::lemma_numeral(metrics.underruns as nat);
    wire::lemma_numeral(metrics.overruns as nat);
    wire::lemma_numeral(metrics.format_errors as nat);
    let underruns = text::digits(metrics.underruns as nat);
    let overruns = text::digits(metrics.overruns as nat);
    let format_errors = text::digits(metrics.format_errors as nat);
    assert(wire::is_numeral(encode_utf8(underruns), metrics.underruns as int));
    assert(wire::is_numeral(encode_utf8(overruns), metrics.overruns as int));
    assert(wire::is_numeral(encode_utf8(format_errors), metrics.format_errors as int));
}

/// All that the graph holds is told.
pub open spec fn is_told<M: FloatMath>(
    graph: GraphView,
    metrics: Option<RouterMetrics>,
    status: Seq<char>,
) -> bool {
    exists|lines: Seq<Seq<char>>, endpoints: Seq<EndpointDescriptor>, routes: Seq<Route>|
        {
            &&& #[trigger] tells::<M>(lines, endpoints, routes, metrics)
            &&& status == with_breaks(lines)
            &&& forall|name: Seq<char>| #[trigger]
                graph.endpoints.contains_key(name) ==> endpoints.contains(graph.endpoints[name])
            &&& forall|i: int|
                0 <= i < endpoints.len() ==> graph.endpoints.contains_pair(
                    (#[trigger] endpoints[i]).id@,
                    endpoints[i],
                )
            &&& forall|i: int, j: int|
                0 <= i < j < endpoints.len() ==> graphs::comes_first(
                    encode_utf8((#[trigger] endpoints[i]).id@),
                    encode_utf8((#[trigger] endpoints[j]).id@),
                )
            &&& forall|name: Seq<char>| #[trigger]
                graph.routes.contains_key(name) ==> routes.contains(graph.routes[name])
            &&& forall|i: int|
                0 <= i < routes.len() ==> graph.routes.contains_pair(
                    (#[trigger] routes[i]).id@,
                    routes[i],
                )
            &&& forall|i: int, j: int|
                0 <= i < j < routes.len() ==> graphs::comes_first(
                    encode_utf8((#[trigger] routes[i]).id@),
                    encode_utf8((#[trigger] routes[j]).id@),
                )
        }
}

proof fn lemma_told<M: FloatMath>(
    graph: GraphView,
    metrics: Option<RouterMetrics>,
    status: Seq<char>,
)
    requires
        daemon::is_status::<M>(graph, metrics, status),
    ensures
        is_told::<M>(graph, metrics, status),
{
    let (endpoints, routes, gains) = choose|
        endpoints: Seq<EndpointDescriptor>,
        routes: Seq<Route>,
        gains: Seq<String>,
    |
        {
            &&& #[trigger] routing::lists_endpoints(endpoints, graph.endpoints)
            &&& #[trigger] routing::lists_routes(routes, graph.routes)
            &&& #[trigger] daemon::are_gains::<M>(routes, gains)
            &&& status == daemon::join_lines(
                daemon::status_lines(endpoints, routes, gains, metrics),
            )
        };
    let lines = daemon::status_lines(endpoints, routes, gains, metrics);
    lemma_breaks(lines);
    assert forall|i: int| 0 <= i < endpoints.len() implies tells_endpoint(
        #[trigger] lines[i],
        endpoints[i],
    ) by {
        lemma_tells_endpoint(endpoints[i]);
        assert(lines[i] == daemon::endpoint_line(endpoints[i]));
    }
    assert forall|i: int| 0 <= i < routes.len() implies tells_route::<M>(
        lines[endpoints.len() + i],
        #[trigger] routes[i],
    ) by {
        assert(lines[endpoints.len() + i] == daemon::route_line(routes[i], gains[i]@));
        assert(call_ensures(M::six_decimals, (routes[i].gain,), gains[i]));
    }
    if let Some(metrics) = metrics {
        lemma_tells_counts(metrics);
        assert(lines.last() == daemon::metrics_line(metrics));
    }
    assert(tells::<M>(lines, endpoints, routes, metrics));
    assert forall|name: Seq<char>| #[trigger]
        graph.endpoints.contains_key(name) implies endpoints.contains(graph.endpoints[name]) by {
        let i = choose|i: int| 0 <= i < endpoints.len() && (#[trigger] endpoints[i]).id@ == name;
        assert(endpoints[i] == graph.endpoints[name]);
    }
    assert forall|name: Seq<char>| #[trigger] graph.routes.contains_key(name) implies routes.contains(
        graph.routes[name],
    ) by {
        let i = choose|i: int| 0 <= i < routes.len() && (#[trigger] routes[i]).id@ == name;
        assert(routes[i] == graph.routes[name]);
    }
    assert forall|i: int, j: int| 0 <= i < j < endpoints.len() implies graphs::comes_first(
        encode_utf8((#[trigger] endpoints[i]).id@),
        encode_utf8((#[trigger] endpoints[j]).id@),
    ) by {
        graphs::lemma_comes_first(encode_utf8(endpoints[i].id@), encode_utf8(endpoints[j].id@));
    }
    assert forall|i: int, j: int| 0 <= i < j < routes.len() implies graphs::comes_first(
        encode_utf8((#[trigger] routes[i]).id@),
        encode_utf8((#[trigger] routes[j]).id@),
    ) by {
        graphs::lemma_comes_first(encode_utf8(routes[i].id@), encode_utf8(routes[j].id@));
    }
}

/// The status tells of every endpoint and every route of the graph, and of what was counted.
pub proof fn statuses_tell_all<M: FloatMath>(
    state: DaemonState,
    metrics: Option<RouterMetrics>,
    status: String,
)
    requires
        call_ensures(DaemonState::status::<M>, (&state, metrics), status),
    ensures
        is_told::<M>(state.graph(), metrics, status@),
{
    lemma_told::<M>(state.graph(), metrics, status@);
}

/// A request for the status is answered with it.
pub proof fn status_requests_are_answered<M: FloatMath>(
    state: &mut DaemonState,
    metrics: Option<RouterMetrics>,
    step: Step,
)
    requires
        call_ensures(DaemonState::handle::<M>, (state, Request::Status, metrics), step),
    ensures
        step matches Step::Reply(Ok(status)) && is_told::<M>(
            old(state).graph(),
            metrics,
            status@,
        ),
{
    lemma_told::<M>(old(state).graph(), metrics, step->Reply_0->Ok_0@);
}

} // verus!
