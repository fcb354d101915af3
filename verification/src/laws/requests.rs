//! Laws of the requests that the daemon carries out.
use vstd::prelude::*;
use vstd::utf8::*;
use crate::daemon;
use crate::daemon::{respond, validate_device_id, DaemonError, DaemonErrorView, DaemonState};
use crate::device::{AudioDevice, AudioRoute, CoreAudioError};
use crate::endpoints::valid_device_id;
use crate::float::FloatMath;
use crate::graph::{EndpointDirection, GraphError, Route};
use crate::laws::building;
use crate::laws::graphs;
use crate::protocol::{Request, Response};
use crate::requests;
use crate::requests::{Action, Event, Step, Task};
use crate::router::RouterMetrics;
use crate::routing;
use crate::routing::GraphView;
use crate::saved;
use crate::saved::{SavedRoute, SavedRouteView};

verus! {

/// 1 to 128 letters, digits, dots, underscores and hyphens.
pub open spec fn is_device_name(id: Seq<char>) -> bool {
    &&& 0 < encode_utf8(id).len() <= 128
    &&& forall|i: int|
        0 <= i < encode_utf8(id).len() ==> graphs::is_name_byte(#[trigger] encode_utf8(id)[i])
            && encode_utf8(id)[i] != ':' as u8
}

/// The names that virtual devices may have.
proof fn lemma_device_name(id: Seq<char>)
    ensures
        crate::endpoints::is_device_id(id) == is_device_name(id),
{
    assert forall|i: int| 0 <= i < encode_utf8(id).len() implies graphs::is_name_byte(
        #[trigger] encode_utf8(id)[i],
    ) == crate::graph::is_identifier_byte(encode_utf8(id)[i]) by {}
    if is_device_name(id) {
        assert forall|i: int| 0 <= i < encode_utf8(id).len() implies
            crate::graph::is_identifier_byte(#[trigger] encode_utf8(id)[i]) && encode_utf8(id)[i]
            != 0x3a by {
            assert(graphs::is_name_byte(encode_utf8(id)[i]));
        }
    }
}

/// Exactly the ids of 1 to 128 letters, digits, dots, underscores and hyphens are valid.
pub proof fn device_ids_are_checked(id: &str, result: Result<(), DaemonError>)
    requires
        call_ensures(validate_device_id, (id,), result),
    ensures
        match result {
            Ok(()) => is_device_name(id@),
            Err(error) => !is_device_name(id@) && (error matches DaemonError::InvalidDeviceId(refused)
                && refused@ == id@),
        },
{
    lemma_device_name(id@);
}

/// The check of an id tells exactly the valid ones.
pub proof fn device_ids_are_told_apart(id: &str, valid: bool)
    requires
        call_ensures(valid_device_id, (id,), valid),
    ensures
        valid == is_device_name(id@),
{
    lemma_device_name(id@);
}

/// A request for a device with a valid id asks for the device with that id, name, number of input
/// channels, number of output channels and rate. One with an invalid id is refused. The state stays
/// as it is.
pub proof fn devices_are_created_as_requested<M: FloatMath>(
    state: &mut DaemonState,
    id: String,
    name: String,
    inputs: u32,
    outputs: u32,
    rate: u32,
    metrics: Option<RouterMetrics>,
    step: Step,
)
    requires
        call_ensures(
            DaemonState::handle::<M>,
            (
                state,
                Request::CreateDevice {
                    id,
                    name,
                    input_channels: inputs,
                    output_channels: outputs,
                    sample_rate: rate,
                },
                metrics,
            ),
            step,
        ),
    ensures
        final(state).graph() == old(state).graph(),
        final(state).saved() == old(state).saved(),
        final(state).devices() == old(state).devices(),
        match step {
            Step::Ask(
                Action::CreateDevice {
                    id: created,
                    name: shown,
                    input_channels,
                    output_channels,
                    sample_rate,
                },
                Task::Create { id: awaited },
            ) => {
                &&& is_device_name(id@)
                &&& created@ == id@
                &&& shown@ == name@
                &&& input_channels == inputs
                &&& output_channels == outputs
                &&& sample_rate == rate
                &&& awaited@ == id@
            },
            Step::Reply(Err(DaemonError::InvalidDeviceId(refused))) => {
                &&& !is_device_name(id@)
                &&& refused@ == id@
            },
            _ => false,
        },
{
    lemma_device_name(id@);
}

/// Some saved route starts or ends at an endpoint of the device with a unique name.
pub open spec fn is_used(state: DaemonState, uid: Seq<char>) -> bool {
    exists|name: Seq<char>|
        {
            &&& #[trigger] state.saved().contains_key(name)
            &&& {
                ||| state.devices().contains_key(state.saved()[name].source@)
                    && state.devices()[state.saved()[name].source@].uid@ == uid
                ||| state.devices().contains_key(state.saved()[name].sink@)
                    && state.devices()[state.saved()[name].sink@].uid@ == uid
            }
        }
}

/// A request to delete a device with a valid id asks for that device to be deleted, unless a saved
/// route starts or ends at it. The state stays as it is.
pub proof fn unused_devices_are_deleted<M: FloatMath>(
    state: &mut DaemonState,
    id: String,
    metrics: Option<RouterMetrics>,
    step: Step,
)
    requires
        call_ensures(
            DaemonState::handle::<M>,
            (state, Request::DeleteDevice { id }, metrics),
            step,
        ),
    ensures
        final(state).graph() == old(state).graph(),
        final(state).saved() == old(state).saved(),
        final(state).devices() == old(state).devices(),
        match step {
            Step::Ask(Action::DeleteDevice { id: deleted }, Task::Delete { id: awaited }) => {
                &&& is_device_name(id@)
                &&& !is_used(*old(state), "dev.vcable.device."@ + id@)
                &&& deleted@ == id@
                &&& awaited@ == id@
            },
            Step::Reply(Err(DaemonError::InvalidDeviceId(refused))) => {
                &&& !is_device_name(id@)
                &&& refused@ == id@
            },
            Step::Reply(Err(DaemonError::DeviceInUse(used))) => {
                &&& is_device_name(id@)
                &&& is_used(*old(state), "dev.vcable.device."@ + id@)
                &&& used@ == id@
            },
            _ => false,
        },
{
    lemma_device_name(id@);
    let uid = "dev.vcable.device."@ + id@;
    let saved = old(state).saved();
    let devices = old(state).devices();
    if daemon::references(saved, devices, uid) {
        let name = choose|name: Seq<char>| #[trigger]
            saved.contains_key(name) && daemon::touches(devices, saved[name]@, uid);
        assert(saved.contains_key(name));
    }
    if is_used(*old(state), uid) {
        let name = choose|name: Seq<char>|
            {
                &&& #[trigger] saved.contains_key(name)
                &&& {
                    ||| devices.contains_key(saved[name].source@) && devices[
                    saved[name].source@].uid@ == uid
                    ||| devices.contains_key(saved[name].sink@) && devices[saved[name].sink@].uid@
                        == uid
                }
            };
        assert(saved.contains_key(name) && daemon::touches(devices, saved[name]@, uid));
    }
}

/// A ping is answered with a pong, and a request to shut down asks for the router to be stopped.
pub proof fn pings_and_shutdowns_change_nothing<M: FloatMath>(
    state: &mut DaemonState,
    request: Request,
    metrics: Option<RouterMetrics>,
    step: Step,
)
    requires
        call_ensures(DaemonState::handle::<M>, (state, request, metrics), step),
        request is Ping || request is Shutdown || request is Status,
    ensures
        final(state).graph() == old(state).graph(),
        final(state).saved() == old(state).saved(),
        final(state).devices() == old(state).devices(),
        request is Ping ==> (step matches Step::Reply(Ok(answer)) && answer@ == "pong"@),
        request is Shutdown ==> (step matches Step::Ask(Action::StopRouter, Task::Shutdown)),
        request is Status ==> (step matches Step::Reply(Ok(_))),
{
}

/// What was loaded are the routes that the state has saved.
pub open spec fn are_saved_routes(
    state: DaemonState,
    loaded: Result<Map<Seq<char>, SavedRouteView>, Seq<char>>,
) -> bool {
    loaded matches Ok(routes) && {
        &&& forall|name: Seq<char>| #[trigger]
            routes.contains_key(name) <==> state.saved().contains_key(name)
        &&& forall|name: Seq<char>| #[trigger]
            state.saved().contains_key(name) ==> routes[name] == state.saved()[name]@
    }
}

/// The lines, where they are loaded, give the routes that the state has saved.
pub open spec fn are_lines_of(state: DaemonState, lines: Seq<Seq<char>>) -> bool {
    forall|path: Seq<char>| are_saved_routes(state, #[trigger] saved::loaded(path, lines))
}

/// What a state saves is what it has saved.
proof fn lemma_lines(state: DaemonState)
    requires
        state.wf(),
    ensures
        are_lines_of(state, saved::saved_lines(state.listed())),
{
    let lines = saved::saved_lines(state.listed());
    assert forall|path: Seq<char>| are_saved_routes(
        state,
        #[trigger] saved::loaded(path, lines),
    ) by {
        state.saved_routes_survive(path);
    }
}

/// A saved route by its values.
pub open spec fn is_saved_as(
    route: SavedRoute,
    id: String,
    source: String,
    sink: String,
    gain_millidb: i32,
    matrix_millionths: Vec<i32>,
) -> bool {
    &&& route.id@ == id@
    &&& route.source@ == source@
    &&& route.sink@ == sink@
    &&& route.gain_millidb == gain_millidb
    &&& route.matrix_millionths@ == matrix_millionths@
}

/// A request for a route with a new name that can be built, and that the graph accepts, adds the
/// route to the graph and saves it as it was asked for, next to the others, and asks for all saved
/// routes to be written down.
pub proof fn connections_are_saved_as_requested<M: FloatMath>(
    state: &mut DaemonState,
    id: String,
    source: String,
    sink: String,
    gain_millidb: i32,
    matrix_millionths: Vec<i32>,
    metrics: Option<RouterMetrics>,
    action: Action,
    task: Task,
)
    requires
        old(state).wf(),
        final(state).wf(),
        call_ensures(
            DaemonState::handle::<M>,
            (
                state,
                Request::Connect { id, source, sink, gain_millidb, matrix_millionths },
                metrics,
            ),
            Step::Ask(action, task),
        ),
    ensures
        !old(state).saved().contains_key(id@),
        final(state).saved().contains_key(id@),
        is_saved_as(
            final(state).saved()[id@],
            id,
            source,
            sink,
            gain_millidb,
            matrix_millionths,
        ),
        forall|name: Seq<char>|
            name != id@ ==> #[trigger] final(state).saved().contains_key(name) == old(
                state
            ).saved().contains_key(name) && (old(state).saved().contains_key(name) ==> final(
                state
            ).saved()[name] == old(state).saved()[name]),
        final(state).devices() == old(state).devices(),
        final(state).graph().endpoints == old(state).graph().endpoints,
        !old(state).graph().routes.contains_key(id@),
        building::is_restored::<M>(final(state).graph(), final(state).saved()[id@]@),
        forall|name: Seq<char>|
            name != id@ ==> #[trigger] final(state).graph().routes.contains_key(name) == old(
                state
            ).graph().routes.contains_key(name) && (old(state).graph().routes.contains_key(name)
                ==> final(state).graph().routes[name] == old(state).graph().routes[name]),
        task matches Task::ConnectSave { id: saved } && saved@ == id@,
        action matches Action::SaveRoutes(lines) && are_lines_of(
            *final(state),
            saved::texts(lines@),
        ),
{
    let route = SavedRouteView {
        id: id@,
        source: source@,
        sink: sink@,
        gain_millidb,
        matrix_millionths: matrix_millionths@,
    };
    let before = *old(state);
    let after = *final(state);
    let step = Step::Ask(action, task);
    let built = choose|built: Route|
        {
            &&& #[trigger] daemon::builds::<M>(before.graph(), route, Ok(built))
            &&& match before.graph().route_refusal(built) {
                Some(refusal) => requests::unchanged(before, after) && requests::fails(
                    step,
                    DaemonErrorView::Graph(refusal),
                ),
                None => requests::connects::<M>(before, route, built, after, step),
            }
        };
    let graph = before.graph().with_route(built);
    let one = seq![route];
    assert(daemon::restored::<M>(before.graph(), one, 0, before.graph()));
    assert(daemon::builds::<M>(before.graph(), one[0], Ok(built)));
    assert(daemon::restored::<M>(before.graph(), one, 1, graph));
    building::lemma_restored::<M>(before.graph(), one, 1, graph);
    assert(building::is_restored::<M>(graph, one[0]));
    assert(built.id@ == id@);
    lemma_lines(after);
}

/// A request for a route that can be built between a source and a sink, with a finite gain, is
/// refused only where its name is taken or it makes a loop.
pub proof fn fitting_connections_are_refused_for_loops_alone<M: FloatMath>(
    state: &mut DaemonState,
    id: String,
    source: String,
    sink: String,
    gain_millidb: i32,
    matrix_millionths: Vec<i32>,
    metrics: Option<RouterMetrics>,
    step: Step,
)
    requires
        old(state).wf(),
        call_ensures(
            DaemonState::handle::<M>,
            (
                state,
                Request::Connect { id, source, sink, gain_millidb, matrix_millionths },
                metrics,
            ),
            step,
        ),
        graphs::is_name(id@),
        graphs::is_name(source@),
        graphs::is_name(sink@),
        old(state).graph().endpoints.contains_key(source@),
        old(state).graph().endpoints.contains_key(sink@),
        old(state).graph().endpoints[source@].direction == EndpointDirection::Source,
        old(state).graph().endpoints[sink@].direction == EndpointDirection::Sink,
        matrix_millionths@.len() == old(state).graph().endpoints[sink@].channels * old(
            state
        ).graph().endpoints[source@].channels,
        building::are_numbers::<M>(matrix_millionths@),
        forall|gain: crate::float::Float32| #[trigger]
            call_ensures(M::gain, (gain_millidb,), gain) ==> graphs::is_number(gain),
        !old(state).saved().contains_key(id@),
    ensures
        match step {
            Step::Ask(Action::SaveRoutes(_), Task::ConnectSave { id: saved }) => saved@ == id@,
            Step::Reply(Err(DaemonError::Graph(error))) => {
                &&& final(state).graph() == old(state).graph()
                &&& final(state).saved() == old(state).saved()
                &&& match error {
                    GraphError::RouteExists(taken) => taken@ == id@ && old(
                        state
                    ).graph().routes.contains_key(id@),
                    GraphError::CycleDetected { .. } => true,
                    _ => false,
                }
            },
            _ => false,
        },
{
    let route = SavedRouteView {
        id: id@,
        source: source@,
        sink: sink@,
        gain_millidb,
        matrix_millionths: matrix_millionths@,
    };
    let before = *old(state);
    let after = *final(state);
    building::lemma_name(id@);
    building::lemma_name(source@);
    building::lemma_name(sink@);
    before.parts_fit_together();
    let from = before.graph().endpoints[source@];
    let to = before.graph().endpoints[sink@];
    assert(routing::endpoint_defect(from) is None);
    assert(routing::endpoint_defect(to) is None);
    vstd::arithmetic::mul::lemma_mul_strictly_positive(to.channels as int, from.channels as int);
    assert forall|coefficients: Seq<crate::float::Float32>| #[trigger]
        daemon::are_coefficients::<M>(
            matrix_millionths@,
            coefficients,
        ) implies crate::matrix::valid_shape(to.channels, from.channels, coefficients) by {
        assert forall|i: int| 0 <= i < coefficients.len() implies (
        #[trigger] coefficients[i]).finite() by {
            assert(call_ensures(M::coefficient, (matrix_millionths@[i],), coefficients[i]));
            graphs::lemma_number(coefficients[i]);
        }
    }
    assert(forall|error: DaemonErrorView|
        !#[trigger] daemon::builds::<M>(before.graph(), route, Err(error)));
    let built = choose|built: Route|
        {
            &&& #[trigger] daemon::builds::<M>(before.graph(), route, Ok(built))
            &&& match before.graph().route_refusal(built) {
                Some(refusal) => requests::unchanged(before, after) && requests::fails(
                    step,
                    DaemonErrorView::Graph(refusal),
                ),
                None => requests::connects::<M>(before, route, built, after, step),
            }
        };
    assert(call_ensures(M::gain, (gain_millidb,), built.gain));
    graphs::lemma_number(built.gain);
}

/// A request for a route that is refused leaves the state as it is, unless a route is already saved
/// under the name.
pub proof fn refused_connections_change_nothing<M: FloatMath>(
    state: &mut DaemonState,
    id: String,
    source: String,
    sink: String,
    gain_millidb: i32,
    matrix_millionths: Vec<i32>,
    metrics: Option<RouterMetrics>,
    answer: Result<String, DaemonError>,
)
    requires
        call_ensures(
            DaemonState::handle::<M>,
            (
                state,
                Request::Connect { id, source, sink, gain_millidb, matrix_millionths },
                metrics,
            ),
            Step::Reply(answer),
        ),
    ensures
        answer is Err,
        !old(state).saved().contains_key(id@) ==> {
            &&& final(state).graph() == old(state).graph()
            &&& final(state).saved() == old(state).saved()
            &&& final(state).devices() == old(state).devices()
        },
{
}

/// A request for a route under the name of a saved one that the graph does not have takes the saved
/// one's place, and fails. Where the graph refuses it, nothing changes.
pub proof fn saved_names_are_taken_over<M: FloatMath>(
    state: &mut DaemonState,
    id: String,
    source: String,
    sink: String,
    gain_millidb: i32,
    matrix_millionths: Vec<i32>,
    metrics: Option<RouterMetrics>,
    step: Step,
)
    requires
        old(state).saved().contains_key(id@),
        call_ensures(
            DaemonState::handle::<M>,
            (
                state,
                Request::Connect { id, source, sink, gain_millidb, matrix_millionths },
                metrics,
            ),
            step,
        ),
    ensures
        step is Reply && step->Reply_0 is Err,
        final(state).devices() == old(state).devices(),
        forall|name: Seq<char>| #[trigger]
            final(state).saved().contains_key(name) == old(state).saved().contains_key(name),
        forall|name: Seq<char>| #[trigger]
            old(state).saved().contains_key(name) && name != id@ ==> final(state).saved()[name]
                == old(state).saved()[name],
        final(state).graph() == old(state).graph() || is_saved_as(
            final(state).saved()[id@],
            id,
            source,
            sink,
            gain_millidb,
            matrix_millionths,
        ),
        old(state).graph().routes.contains_key(id@) ==> is_same(*old(state), *final(state)),
{
    let route = SavedRouteView {
        id: id@,
        source: source@,
        sink: sink@,
        gain_millidb,
        matrix_millionths: matrix_millionths@,
    };
    let before = *old(state);
    let after = *final(state);
    if !requests::unchanged(before, after) {
        let built = choose|built: Route|
            {
                &&& #[trigger] daemon::builds::<M>(before.graph(), route, Ok(built))
                &&& match before.graph().route_refusal(built) {
                    Some(refusal) => requests::unchanged(before, after) && requests::fails(
                        step,
                        DaemonErrorView::Graph(refusal),
                    ),
                    None => requests::connects::<M>(before, route, built, after, step),
                }
            };
        assert(built.id@ == id@);
    }
}

/// A new route that cannot be written down, where it was the only one, fails for that reason and
/// leaves the graph as it is.
pub proof fn lone_connections_fail_for_the_reason<M: FloatMath>(
    state: &mut DaemonState,
    id: String,
    failure: DaemonError,
    step: Step,
)
    requires
        final(state).wf(),
        call_ensures(
            DaemonState::resume::<M>,
            (
                state,
                Task::ConnectSave { id },
                Event::Saved(Err::<(), DaemonError>(failure)),
            ),
            step,
        ),
        forall|name: Seq<char>| #[trigger] old(state).saved().contains_key(name) ==> name == id@,
    ensures
        step matches Step::Reply(Err(error)) && error@ == failure@,
        final(state).graph() == old(state).graph(),
        forall|name: Seq<char>| !#[trigger] final(state).saved().contains_key(name),
{
    let after = *final(state);
    after.parts_fit_together();
    let error = choose|error: Option<DaemonErrorView>|
        {
            &&& #[trigger] daemon::restores::<M>(
                old(state).graph(),
                after.listed(),
                after.graph(),
                error,
            )
            &&& requests::fails(
                step,
                match error {
                    Some(error) => error,
                    None => failure@,
                },
            )
        };
    assert forall|name: Seq<char>| !#[trigger] after.saved().contains_key(name) by {
        if after.saved().contains_key(name) {
            assert(old(state).saved().contains_key(name));
        }
    }
    if after.listed().len() > 0 {
        assert(after.saved().contains_key(after.listed()[0].id));
    }
}

/// A request to take a saved route away takes that route from the saved ones, and no other, and asks
/// for the rest to be written down. Where there is none with the name, nothing changes.
pub proof fn disconnections_forget_the_route<M: FloatMath>(
    state: &mut DaemonState,
    id: String,
    metrics: Option<RouterMetrics>,
    step: Step,
)
    requires
        old(state).wf(),
        final(state).wf(),
        call_ensures(DaemonState::handle::<M>, (state, Request::Disconnect { id }, metrics), step),
    ensures
        final(state).graph() == old(state).graph(),
        final(state).devices() == old(state).devices(),
        !final(state).saved().contains_key(id@),
        forall|name: Seq<char>|
            name != id@ ==> #[trigger] final(state).saved().contains_key(name) == old(
                state
            ).saved().contains_key(name) && (old(state).saved().contains_key(name) ==> final(
                state
            ).saved()[name] == old(state).saved()[name]),
        match step {
            Step::Ask(Action::SaveRoutes(lines), Task::DisconnectSave { previous }) => {
                &&& old(state).saved().contains_key(id@)
                &&& previous == old(state).saved()[id@]
                &&& are_lines_of(*final(state), saved::texts(lines@))
            },
            Step::Reply(Err(DaemonError::RouteNotFound(missing))) => {
                &&& !old(state).saved().contains_key(id@)
                &&& missing@ == id@
            },
            _ => false,
        },
{
    lemma_lines(*final(state));
}

/// The plan runs all routes of the state, where it has any.
pub open spec fn is_plan_of(state: DaemonState, plan: Option<Vec<AudioRoute>>) -> bool {
    &&& plan is Some <==> exists|name: Seq<char>| #[trigger]
        state.graph().routes.contains_key(name)
    &&& plan matches Some(audio) ==> exists|names: Seq<Seq<char>>| #[trigger]
        building::are_run(state, names, audio@)
}

/// What the router is restarted with are the routes of the state.
proof fn lemma_plan(state: DaemonState, plan: Option<Vec<AudioRoute>>)
    requires
        daemon::is_router_plan(state.graph().routes, state.devices(), plan),
    ensures
        is_plan_of(state, plan),
{
    if let Some(audio) = plan {
        let names = building::lemma_run(state, audio@);
        assert(names.contains(names[0]));
        assert(state.graph().routes.contains_key(names[0]));
    }
}

/// The states have the same endpoints, devices, routes and saved routes.
pub open spec fn is_same(before: DaemonState, after: DaemonState) -> bool {
    &&& after.graph() == before.graph()
    &&& after.devices() == before.devices()
    &&& after.saved() == before.saved()
}

/// The endpoints of the state are those of the listed devices, and all saved routes run between
/// them.
pub open spec fn is_rebuilt<M: FloatMath>(state: DaemonState, listed: Seq<AudioDevice>) -> bool {
    &&& forall|d: int|
        0 <= d < listed.len() && (#[trigger] listed[d]).input_channels > 0 ==> exists|
            name: Seq<char>,
        |
            {
                &&& #[trigger] state.graph().endpoints.contains_key(name)
                &&& building::is_endpoint_of(
                    listed[d],
                    EndpointDirection::Source,
                    listed[d].input_channels,
                    state.graph().endpoints[name],
                )
                &&& state.devices().contains_key(name)
                &&& state.devices()[name] == listed[d]
            }
    &&& forall|d: int|
        0 <= d < listed.len() && (#[trigger] listed[d]).output_channels > 0 ==> exists|
            name: Seq<char>,
        |
            {
                &&& #[trigger] state.graph().endpoints.contains_key(name)
                &&& building::is_endpoint_of(
                    listed[d],
                    EndpointDirection::Sink,
                    listed[d].output_channels,
                    state.graph().endpoints[name],
                )
                &&& state.devices().contains_key(name)
                &&& state.devices()[name] == listed[d]
            }
    &&& forall|name: Seq<char>| #[trigger]
        state.devices().contains_key(name) ==> listed.contains(state.devices()[name])
    &&& forall|name: Seq<char>| #[trigger]
        state.graph().endpoints.contains_key(name) <==> state.devices().contains_key(name)
    &&& forall|name: Seq<char>| #[trigger]
        state.saved().contains_key(name) ==> building::is_restored::<M>(
            state.graph(),
            state.saved()[name]@,
        )
    &&& forall|name: Seq<char>| #[trigger]
        state.graph().routes.contains_key(name) <==> state.saved().contains_key(name)
}

/// What is rebuilt has the endpoints of the devices and the saved routes.
proof fn lemma_rebuilt<M: FloatMath>(
    before: DaemonState,
    listing: Result<Vec<AudioDevice>, CoreAudioError>,
    after: DaemonState,
)
    requires
        after.wf(),
        requests::rebuilds::<M>(before, listing, after, None),
    ensures
        listing matches Ok(listed) && is_rebuilt::<M>(after, listed@),
        after.saved() == before.saved(),
{
    let fresh = choose|fresh: GraphView|
        {
            &&& #[trigger] daemon::refreshes(
                before.graph(),
                before.devices(),
                listing,
                fresh,
                after.devices(),
                None,
            )
            &&& daemon::restores::<M>(fresh, after.listed(), after.graph(), None)
        };
    let listed = listing->Ok_0@;
    let names = after.listed();
    let sides = crate::endpoints::sides(listed);
    after.parts_fit_together();
    building::lemma_restored::<M>(fresh, names, names.len(), after.graph());
    assert forall|d: int|
        0 <= d < listed.len() && (#[trigger] listed[d]).input_channels > 0 implies exists|
        name: Seq<char>,
    |
        {
            &&& #[trigger] after.graph().endpoints.contains_key(name)
            &&& building::is_endpoint_of(
                listed[d],
                EndpointDirection::Source,
                listed[d].input_channels,
                after.graph().endpoints[name],
            )
            &&& after.devices().contains_key(name)
            &&& after.devices()[name] == listed[d]
        } by {
        let i = building::lemma_side_there(listed, d, EndpointDirection::Source);
        let name = sides[i].name();
        assert(crate::endpoints::has_side(sides, sides.len() as int, name));
        assert(after.graph().endpoints.contains_key(name));
    }
    assert forall|d: int|
        0 <= d < listed.len() && (#[trigger] listed[d]).output_channels > 0 implies exists|
        name: Seq<char>,
    |
        {
            &&& #[trigger] after.graph().endpoints.contains_key(name)
            &&& building::is_endpoint_of(
                listed[d],
                EndpointDirection::Sink,
                listed[d].output_channels,
                after.graph().endpoints[name],
            )
            &&& after.devices().contains_key(name)
            &&& after.devices()[name] == listed[d]
        } by {
        let i = building::lemma_side_there(listed, d, EndpointDirection::Sink);
        let name = sides[i].name();
        assert(crate::endpoints::has_side(sides, sides.len() as int, name));
        assert(after.graph().endpoints.contains_key(name));
    }
    assert forall|name: Seq<char>| #[trigger]
        after.devices().contains_key(name) implies listed.contains(after.devices()[name]) by {
        assert(crate::endpoints::has_side(sides, sides.len() as int, name));
        let i = choose|i: int| 0 <= i < sides.len() && (#[trigger] sides[i]).name() == name;
        let d = building::lemma_side_from(listed, i);
        assert(listed[d] == after.devices()[name]);
    }
    assert forall|name: Seq<char>| #[trigger]
        after.saved().contains_key(name) implies building::is_restored::<M>(
        after.graph(),
        after.saved()[name]@,
    ) by {
        let k = choose|k: int| 0 <= k < names.len() && (#[trigger] names[k]).id == name;
        assert(building::is_restored::<M>(after.graph(), names[k]));
    }
    assert forall|name: Seq<char>| #[trigger]
        after.graph().routes.contains_key(name) <==> after.saved().contains_key(name) by {
        if after.graph().routes.contains_key(name) {
            let k = choose|k: int| 0 <= k < names.len() && (#[trigger] names[k]).id == name;
            assert(after.saved().contains_key(names[k].id));
        }
        if after.saved().contains_key(name) {
            assert(building::is_restored::<M>(after.graph(), after.saved()[name]@));
            assert(after.saved()[name]@.id == name);
        }
    }
}

/// Once a device is created or deleted the devices are listed anew. Where that failed, the request
/// fails for the same reason. The state stays as it is.
pub proof fn changed_devices_are_listed<M: FloatMath>(
    state: &mut DaemonState,
    task: Task,
    result: Result<(), CoreAudioError>,
    step: Step,
)
    requires
        call_ensures(DaemonState::resume::<M>, (state, task, Event::DeviceChanged(result)), step),
        task is Create || task is Delete,
    ensures
        is_same(*old(state), *final(state)),
        match result {
            Ok(()) => step matches Step::Ask(Action::ListDevices, next) && match (task, next) {
                (Task::Create { id }, Task::CreateList { id: listed }) => listed@ == id@,
                (Task::Delete { id }, Task::DeleteList { id: listed }) => listed@ == id@,
                _ => false,
            },
            Err(failure) => step matches Step::Reply(Err(DaemonError::CoreAudio(error))) && error@
                == failure@,
        },
{
}

/// Once the devices are listed after one was created or deleted, the state has their endpoints and
/// all its saved routes, and the answer names the device. Otherwise the request fails.
pub proof fn changed_devices_are_answered<M: FloatMath>(
    state: &mut DaemonState,
    task: Task,
    listing: Result<Vec<AudioDevice>, CoreAudioError>,
    step: Step,
)
    requires
        final(state).wf(),
        call_ensures(DaemonState::resume::<M>, (state, task, Event::Devices(listing)), step),
        task is CreateList || task is DeleteList,
    ensures
        final(state).saved() == old(state).saved(),
        match step {
            Step::Reply(Ok(answer)) => {
                &&& listing matches Ok(listed) && is_rebuilt::<M>(*final(state), listed@)
                &&& match task {
                    Task::CreateList { id } => answer@ == "created "@ + id@,
                    Task::DeleteList { id } => answer@ == "deleted "@ + id@,
                    _ => false,
                }
            },
            Step::Reply(Err(error)) => listing matches Err(failure) ==> {
                &&& error@ == DaemonErrorView::CoreAudio(failure@)
                &&& is_same(*old(state), *final(state))
            },
            _ => false,
        },
{
    let error = choose|error: Option<DaemonErrorView>|
        {
            &&& #[trigger] requests::rebuilds::<M>(*old(state), listing, *final(state), error)
            &&& match error {
                Some(error) => requests::fails(step, error),
                None => step is Reply && step->Reply_0 is Ok,
            }
        };
    if error is None {
        lemma_rebuilt::<M>(*old(state), listing, *final(state));
    }
}

/// Once a new route is written down, the router is restarted with all routes of the graph. Where it
/// could not be written down, it is not saved, and the request fails.
pub proof fn saved_connections_are_run<M: FloatMath>(
    state: &mut DaemonState,
    id: String,
    result: Result<(), DaemonError>,
    step: Step,
)
    requires
        call_ensures(
            DaemonState::resume::<M>,
            (state, Task::ConnectSave { id }, Event::Saved(result)),
            step,
        ),
    ensures
        match result {
            Ok(()) => {
                &&& is_same(*old(state), *final(state))
                &&& step matches Step::Ask(Action::RestartRouter(plan), Task::ConnectRouter {
                    id: run,
                }) && run@ == id@ && is_plan_of(*final(state), plan)
            },
            Err(_) => {
                &&& step is Reply && step->Reply_0 is Err
                &&& final(state).devices() == old(state).devices()
                &&& final(state).saved() == old(state).saved().remove(id@)
            },
        },
{
    if result is Ok {
        lemma_plan(*final(state), step->Ask_0->RestartRouter_0);
    }
}

/// Once the router runs, a new route is connected. Where it does not start, the route is not saved,
/// the others are written down again, and the request fails for the reason for which it did not
/// start.
pub proof fn running_connections_are_answered<M: FloatMath>(
    state: &mut DaemonState,
    id: String,
    result: Result<(), CoreAudioError>,
    step: Step,
)
    requires
        final(state).wf(),
        call_ensures(
            DaemonState::resume::<M>,
            (state, Task::ConnectRouter { id }, Event::RouterRestarted(result)),
            step,
        ),
    ensures
        final(state).graph() == old(state).graph(),
        final(state).devices() == old(state).devices(),
        match result {
            Ok(()) => {
                &&& final(state).saved() == old(state).saved()
                &&& step matches Step::Reply(Ok(answer)) && answer@ == "connected "@ + id@
            },
            Err(failure) => {
                &&& final(state).saved() == old(state).saved().remove(id@)
                &&& step matches Step::Ask(Action::SaveRoutes(lines), Task::UndoSave { error })
                    && are_lines_of(*final(state), saved::texts(lines@)) && error
                    == DaemonError::CoreAudio(failure)
            },
        },
{
    lemma_lines(*final(state));
}

/// Once the saved routes are written down without one of them, the devices are listed anew. Where
/// they could not be written down, the route is saved again, and the request fails for that reason.
pub proof fn saved_disconnections_are_listed<M: FloatMath>(
    state: &mut DaemonState,
    previous: SavedRoute,
    result: Result<(), DaemonError>,
    step: Step,
)
    requires
        call_ensures(
            DaemonState::resume::<M>,
            (state, Task::DisconnectSave { previous }, Event::Saved(result)),
            step,
        ),
    ensures
        final(state).graph() == old(state).graph(),
        final(state).devices() == old(state).devices(),
        match result {
            Ok(()) => {
                &&& final(state).saved() == old(state).saved()
                &&& step == Step::Ask(Action::ListDevices, Task::DisconnectList { previous })
            },
            Err(failure) => {
                &&& final(state).saved() == old(state).saved().insert(previous.id@, previous)
                &&& step matches Step::Reply(Err(error)) && error@ == failure@
            },
        },
{
}

/// Once the devices are listed, the state has their endpoints and all saved routes, and the router is
/// restarted with them.
pub proof fn listed_disconnections_are_run<M: FloatMath>(
    state: &mut DaemonState,
    task: Task,
    listing: Result<Vec<AudioDevice>, CoreAudioError>,
    step: Step,
)
    requires
        final(state).wf(),
        call_ensures(DaemonState::resume::<M>, (state, task, Event::Devices(listing)), step),
        task is DisconnectList || task is UndoList,
    ensures
        final(state).saved() == old(state).saved(),
        match step {
            Step::Ask(Action::RestartRouter(plan), next) => {
                &&& listing matches Ok(listed) && is_rebuilt::<M>(*final(state), listed@)
                &&& is_plan_of(*final(state), plan)
                &&& match task {
                    Task::DisconnectList { previous } => next == Task::DisconnectRouter { previous },
                    Task::UndoList { error } => next == Task::UndoRouter { error },
                    _ => false,
                }
            },
            Step::Reply(Err(error)) => listing matches Err(failure) ==> {
                &&& error@ == DaemonErrorView::CoreAudio(failure@)
                &&& is_same(*old(state), *final(state))
            },
            _ => false,
        },
{
    let error = choose|error: Option<DaemonErrorView>|
        {
            &&& #[trigger] requests::rebuilds::<M>(*old(state), listing, *final(state), error)
            &&& match error {
                Some(error) => requests::fails(step, error),
                None => step is Ask,
            }
        };
    if error is None {
        lemma_rebuilt::<M>(*old(state), listing, *final(state));
        lemma_plan(*final(state), step->Ask_0->RestartRouter_0);
    }
}

/// Once the router runs without a route, it is disconnected. Where it does not start, the route is
/// saved again, all are written down, and the request fails for the reason for which it did not
/// start.
pub proof fn running_disconnections_are_answered<M: FloatMath>(
    state: &mut DaemonState,
    previous: SavedRoute,
    result: Result<(), CoreAudioError>,
    step: Step,
)
    requires
        final(state).wf(),
        call_ensures(
            DaemonState::resume::<M>,
            (state, Task::DisconnectRouter { previous }, Event::RouterRestarted(result)),
            step,
        ),
    ensures
        final(state).graph() == old(state).graph(),
        final(state).devices() == old(state).devices(),
        match result {
            Ok(()) => {
                &&& final(state).saved() == old(state).saved()
                &&& step matches Step::Reply(Ok(answer)) && answer@ == "disconnected "@
                    + previous.id@
            },
            Err(failure) => {
                &&& final(state).saved() == old(state).saved().insert(previous.id@, previous)
                &&& step matches Step::Ask(Action::SaveRoutes(lines), Task::UndoSave { error })
                    && are_lines_of(*final(state), saved::texts(lines@)) && error
                    == DaemonError::CoreAudio(failure)
            },
        },
{
    lemma_lines(*final(state));
}

/// A request that is undone lists the devices once the routes are written down, and fails for the
/// reason for which it is undone, unless undoing it fails: then for that reason.
pub proof fn undone_requests_fail<M: FloatMath>(
    state: &mut DaemonState,
    error: DaemonError,
    saved: Result<(), DaemonError>,
    restarted: Result<(), CoreAudioError>,
    task: Task,
    event: Event,
    step: Step,
)
    requires
        call_ensures(DaemonState::resume::<M>, (state, task, event), step),
        ({
            ||| task == Task::UndoSave { error } && event == Event::Saved(saved)
            ||| task == Task::UndoRouter { error } && event == Event::RouterRestarted(restarted)
        }),
    ensures
        is_same(*old(state), *final(state)),
        task is UndoSave ==> match saved {
            Ok(()) => step == Step::Ask(Action::ListDevices, Task::UndoList { error }),
            Err(failure) => step matches Step::Reply(Err(reason)) && reason@ == failure@,
        },
        task is UndoRouter ==> match restarted {
            Ok(()) => step matches Step::Reply(Err(reason)) && reason@ == error@,
            Err(failure) => step matches Step::Reply(Err(DaemonError::CoreAudio(reason))) && reason@
                == failure@,
        },
{
}

/// Once the router is stopped, a request to shut down is answered.
pub proof fn shutdowns_are_answered<M: FloatMath>(state: &mut DaemonState, step: Step)
    requires
        call_ensures(
            DaemonState::resume::<M>,
            (state, Task::Shutdown, Event::RouterStopped),
            step,
        ),
    ensures
        is_same(*old(state), *final(state)),
        step matches Step::Reply(Ok(answer)) && answer@ == "shutting down"@,
{
}

/// What went well is answered with its message, and what failed with a word for the kind of the
/// error and the error's own message.
pub proof fn outcomes_are_told(
    result: Result<String, DaemonError>,
    response: Response,
    error_code: &'static str,
    error_message: String,
)
    requires
        call_ensures(respond, (&result,), response),
        result matches Err(error) ==> {
            &&& call_ensures(DaemonError::code, (&error,), error_code)
            &&& call_ensures(DaemonError::text, (&error,), error_message)
        },
    ensures
        match result {
            Ok(answer) => response matches Response::Accepted(told) && told@ == answer@,
            Err(error) => response matches Response::Error { code, message } && code@
                == error_code@ && message@ == error_message@,
        },
{
}

/// Errors of different kinds are told by different words.
pub proof fn errors_are_told_by_their_kind(error: DaemonError, code: &'static str)
    requires
        call_ensures(DaemonError::code, (&error,), code),
    ensures
        code@ == match error {
            DaemonError::CoreAudio(_) => "core_audio"@,
            DaemonError::Graph(_) => "invalid_graph"@,
            DaemonError::Matrix(_) => "invalid_matrix"@,
            DaemonError::MatrixRequired { .. } => "invalid_matrix"@,
            DaemonError::Io(_) => "state_io"@,
            DaemonError::State(_) => "state_io"@,
            DaemonError::InvalidDeviceId(_) => "invalid_device_id"@,
            DaemonError::DeviceInUse(_) => "device_in_use"@,
            DaemonError::RouteExists(_) => "route_exists"@,
            DaemonError::RouteNotFound(_) => "route_not_found"@,
            DaemonError::EndpointNotFound(_) => "endpoint_not_found"@,
        },
{
}

} // verus!
