//! Laws of the routes and endpoints that the daemon builds.
use vstd::prelude::*;
use vstd::arithmetic::div_mod::*;
use vstd::arithmetic::mul::*;
use vstd::utf8::*;
use crate::daemon;
use crate::daemon::{DaemonError, DaemonErrorView, DaemonState};
use crate::device::{AudioDevice, AudioRoute, CoreAudioError};
use crate::endpoints;
use crate::endpoints::{endpoint_id, Side};
use crate::float::{Float32, FloatMath};
use crate::graph::{EndpointDescriptor, EndpointDirection, GraphError, Route};
use crate::laws::graphs;
use crate::matrix;
use crate::matrix::MatrixError;
use crate::routing;
use crate::routing::GraphView;
use crate::saved::{SavedRoute, SavedRouteView};

verus! {

/// The route goes where it was asked to go, by the name that was asked for and with the gain that
/// was asked for.
pub open spec fn is_asked_for<M: FloatMath>(saved: SavedRoute, route: Route) -> bool {
    &&& route.id@ == saved.id@
    &&& route.source@ == saved.source@
    &&& route.sink@ == saved.sink@
    &&& call_ensures(M::gain, (saved.gain_millidb,), route.gain)
}

/// The matrix has a row for each channel of the sink and a column for each channel of the source.
pub open spec fn is_between(
    source: EndpointDescriptor,
    sink: EndpointDescriptor,
    route: Route,
) -> bool {
    &&& route.matrix.outputs() == sink.channels
    &&& route.matrix.inputs() == source.channels
    &&& route.matrix.values().len() == sink.channels * source.channels
}

/// All that a coefficient in millionths can come to is finite.
pub open spec fn are_numbers<M: FloatMath>(millionths: Seq<i32>) -> bool {
    forall|k: int, value: Float32|
        0 <= k < millionths.len() && #[trigger] call_ensures(
            M::coefficient,
            (millionths[k],),
            value,
        ) ==> graphs::is_number(value)
}

/// The names that the graph takes are names.
pub proof fn lemma_name(name: Seq<char>)
    ensures
        crate::graph::is_identifier(name) == graphs::is_name(name),
{
    assert forall|i: int| 0 <= i < encode_utf8(name).len() implies graphs::is_name_byte(
        #[trigger] encode_utf8(name)[i],
    ) == crate::graph::is_identifier_byte(encode_utf8(name)[i]) by {}
    if graphs::is_name(name) {
        assert forall|i: int| 0 <= i < encode_utf8(name).len() implies
            crate::graph::is_identifier_byte(#[trigger] encode_utf8(name)[i]) by {
            assert(graphs::is_name_byte(encode_utf8(name)[i]));
        }
    }
}

/// A route with a finite coefficient for each pair of a sink channel and a source channel is built
/// with them, row by row.
pub proof fn routes_are_built_with_their_coefficients<M: FloatMath>(
    state: DaemonState,
    saved: SavedRoute,
    result: Result<Route, DaemonError>,
)
    requires
        state.wf(),
        call_ensures(DaemonState::build_route::<M>, (&state, &saved), result),
        graphs::is_name(saved.id@),
        graphs::is_name(saved.source@),
        graphs::is_name(saved.sink@),
        state.graph().endpoints.contains_key(saved.source@),
        state.graph().endpoints.contains_key(saved.sink@),
        saved.matrix_millionths@.len() == state.graph().endpoints[saved.sink@].channels
            * state.graph().endpoints[saved.source@].channels,
        are_numbers::<M>(saved.matrix_millionths@),
    ensures
        result matches Ok(route) && {
            let source = state.graph().endpoints[saved.source@];
            let sink = state.graph().endpoints[saved.sink@];
            &&& is_asked_for::<M>(saved, route)
            &&& is_between(source, sink, route)
            &&& forall|row: int, column: int|
                0 <= row < sink.channels && 0 <= column < source.channels ==> call_ensures(
                    M::coefficient,
                    (saved.matrix_millionths@[row * source.channels + column],),
                    #[trigger] route.matrix.values()[row * source.channels + column],
                )
        },
{
    lemma_name(saved.id@);
    lemma_name(saved.source@);
    lemma_name(saved.sink@);
    state.parts_fit_together();
    let source = state.graph().endpoints[saved.source@];
    let sink = state.graph().endpoints[saved.sink@];
    assert(routing::endpoint_defect(source) is None);
    assert(routing::endpoint_defect(sink) is None);
    lemma_mul_strictly_positive(sink.channels as int, source.channels as int);
    let outcome = match result {
        Ok(route) => Ok(route),
        Err(error) => Err(error@),
    };
    let coefficients = choose|coefficients: Seq<Float32>|
        {
            &&& #[trigger] daemon::are_coefficients::<M>(saved.matrix_millionths@, coefficients)
            &&& if matrix::valid_shape(sink.channels, source.channels, coefficients) {
                daemon::finishes::<M>(
                    saved@,
                    sink.channels,
                    source.channels,
                    coefficients,
                    outcome,
                )
            } else {
                outcome matches Err(DaemonErrorView::Matrix(error)) && matrix::shape_error(
                    sink.channels,
                    source.channels,
                    coefficients,
                    error,
                )
            }
        };
    assert forall|i: int| 0 <= i < coefficients.len() implies (
    #[trigger] coefficients[i]).finite() by {
        assert(call_ensures(M::coefficient, (saved.matrix_millionths@[i],), coefficients[i]));
        graphs::lemma_number(coefficients[i]);
    }
    assert(matrix::valid_shape(sink.channels, source.channels, coefficients));
    let route = result->Ok_0;
    assert forall|row: int, column: int|
        0 <= row < sink.channels && 0 <= column < source.channels implies call_ensures(
        M::coefficient,
        (saved.matrix_millionths@[row * source.channels + column],),
        #[trigger] route.matrix.values()[row * source.channels + column],
    ) by {
        lemma_mul_nonnegative(row, source.channels as int);
        lemma_mul_inequality(row + 1, sink.channels as int, source.channels as int);
        lemma_mul_is_distributive_add_other_way(source.channels as int, row, 1);
    }
}

/// A route without coefficients, between as many channels, passes each channel of the source to the
/// channel of the sink with the same number.
pub proof fn routes_without_coefficients_pass_channels_through<M: FloatMath>(
    state: DaemonState,
    saved: SavedRoute,
    result: Result<Route, DaemonError>,
)
    requires
        state.wf(),
        call_ensures(DaemonState::build_route::<M>, (&state, &saved), result),
        graphs::is_name(saved.id@),
        graphs::is_name(saved.source@),
        graphs::is_name(saved.sink@),
        state.graph().endpoints.contains_key(saved.source@),
        state.graph().endpoints.contains_key(saved.sink@),
        saved.matrix_millionths@.len() == 0,
        state.graph().endpoints[saved.source@].channels
            == state.graph().endpoints[saved.sink@].channels,
        state.graph().endpoints[saved.source@].channels
            * state.graph().endpoints[saved.sink@].channels <= usize::MAX,
    ensures
        result matches Ok(route) && {
            let source = state.graph().endpoints[saved.source@];
            let sink = state.graph().endpoints[saved.sink@];
            &&& is_asked_for::<M>(saved, route)
            &&& is_between(source, sink, route)
            &&& forall|row: int, column: int|
                0 <= row < sink.channels && 0 <= column < source.channels ==> (
                #[trigger] route.matrix.values()[row * source.channels + column]).bits == if row
                    == column {
                    0x3f80_0000
                } else {
                    0u32
                }
        },
{
    lemma_name(saved.id@);
    lemma_name(saved.source@);
    lemma_name(saved.sink@);
    let n = state.graph().endpoints[saved.source@].channels as int;
    let route = result->Ok_0;
    assert forall|row: int, column: int| 0 <= row < n && 0 <= column < n implies (
    #[trigger] route.matrix.values()[row * n + column]).bits == if row == column {
        0x3f80_0000
    } else {
        0u32
    } by {
        lemma_mul_nonnegative(row, n);
        lemma_mul_inequality(row + 1, n, n);
        lemma_mul_is_distributive_add_other_way(n, row, 1);
        lemma_fundamental_div_mod_converse(row * n + column, n, row, column);
    }
}

/// A route is not built for the first of its faults: a name that is none, an endpoint that is not
/// there, a number of coefficients that is not that of the pairs of channels, or a coefficient that
/// is not finite.
pub proof fn faulty_routes_are_not_built<M: FloatMath>(
    state: DaemonState,
    saved: SavedRoute,
    error: DaemonError,
)
    requires
        state.wf(),
        call_ensures(
            DaemonState::build_route::<M>,
            (&state, &saved),
            Err::<Route, DaemonError>(error),
        ),
    ensures
        ({
            let named = graphs::is_name(saved.source@) && graphs::is_name(saved.sink@);
            let starts = state.graph().endpoints.contains_key(saved.source@);
            let ends = state.graph().endpoints.contains_key(saved.sink@);
            let inputs = state.graph().endpoints[saved.source@].channels;
            let outputs = state.graph().endpoints[saved.sink@].channels;
            let count = saved.matrix_millionths@.len();
            match error {
                DaemonError::Graph(GraphError::InvalidIdentifier(name)) => {
                    ||| name@ == saved.source@ && !graphs::is_name(saved.source@)
                    ||| name@ == saved.sink@ && !graphs::is_name(saved.sink@)
                    ||| name@ == saved.id@ && !graphs::is_name(saved.id@) && named && starts && ends
                },
                DaemonError::EndpointNotFound(name) => {
                    &&& named
                    &&& name@ == saved.source@ && !starts || name@ == saved.sink@ && starts && !ends
                },
                DaemonError::MatrixRequired { inputs: needed_inputs, outputs: needed_outputs } => {
                    &&& named && starts && ends
                    &&& count == 0
                    &&& needed_inputs == inputs
                    &&& needed_outputs == outputs
                    &&& inputs != outputs
                },
                DaemonError::Matrix(MatrixError::WrongCoefficientCount { expected, actual }) => {
                    &&& named && starts && ends
                    &&& count > 0
                    &&& expected == inputs * outputs
                    &&& count != inputs * outputs
                    &&& count <= usize::MAX ==> actual == count
                },
                DaemonError::Matrix(MatrixError::NonFiniteCoefficient { index }) => {
                    &&& named && starts && ends
                    &&& index < count == inputs * outputs
                    &&& exists|value: Float32|
                        !graphs::is_number(value) && #[trigger] call_ensures(
                            M::coefficient,
                            (saved.matrix_millionths@[index as int],),
                            value,
                        )
                },
                DaemonError::Matrix(MatrixError::FrameCountOverflow) => {
                    &&& named && starts && ends
                    &&& inputs * outputs > usize::MAX
                },
                _ => false,
            }
        }),
{
    lemma_name(saved.id@);
    lemma_name(saved.source@);
    lemma_name(saved.sink@);
    state.parts_fit_together();
    let starts = state.graph().endpoints.contains_key(saved.source@);
    let ends = state.graph().endpoints.contains_key(saved.sink@);
    let source = state.graph().endpoints[saved.source@];
    let sink = state.graph().endpoints[saved.sink@];
    if starts && ends {
        assert(routing::endpoint_defect(source) is None);
        assert(routing::endpoint_defect(sink) is None);
        lemma_mul_is_commutative(sink.channels as int, source.channels as int);
    }
    if graphs::is_name(saved.source@) && graphs::is_name(saved.sink@) && starts && ends
        && saved.matrix_millionths@.len() > 0 {
        let outcome = Err::<Route, DaemonErrorView>(error@);
        let coefficients = choose|coefficients: Seq<Float32>|
            {
                &&& #[trigger] daemon::are_coefficients::<M>(
                    saved.matrix_millionths@,
                    coefficients,
                )
                &&& if matrix::valid_shape(sink.channels, source.channels, coefficients) {
                    daemon::finishes::<M>(
                        saved@,
                        sink.channels,
                        source.channels,
                        coefficients,
                        outcome,
                    )
                } else {
                    outcome matches Err(DaemonErrorView::Matrix(error)) && matrix::shape_error(
                        sink.channels,
                        source.channels,
                        coefficients,
                        error,
                    )
                }
            };
        if let DaemonError::Matrix(MatrixError::NonFiniteCoefficient { index }) = error {
            graphs::lemma_number(coefficients[index as int]);
            assert(call_ensures(
                M::coefficient,
                (saved.matrix_millionths@[index as int],),
                coefficients[index as int],
            ));
        }
    }
}

/// The value of a lower-case hexadecimal digit.
pub open spec fn hex_of(digit: char) -> int {
    if '0' <= digit <= '9' {
        digit as int - '0' as int
    } else if 'a' <= digit <= 'f' {
        digit as int - 'a' as int + 10
    } else {
        -1
    }
}

/// What stands for a byte: the byte itself where names may hold it, and an underscore with its two
/// hexadecimal digits otherwise.
pub open spec fn stands_for(spelling: Seq<char>, byte: u8) -> bool {
    if graphs::is_name_byte(byte) {
        spelling.len() == 1 && spelling[0] as int == byte
    } else {
        &&& spelling.len() == 3
        &&& spelling[0] == '_'
        &&& hex_of(spelling[1]) >= 0
        &&& hex_of(spelling[2]) >= 0
        &&& hex_of(spelling[1]) * 16 + hex_of(spelling[2]) == byte
    }
}

/// How bytes are spelled, one after the other.
proof fn lemma_spelling(bytes: Seq<u8>) -> (spellings: Seq<Seq<char>>)
    ensures
        spellings.len() == bytes.len(),
        forall|i: int| 0 <= i < bytes.len() ==> stands_for(#[trigger] spellings[i], bytes[i]),
        endpoints::named_bytes(bytes) == spellings.flatten_alt(),
    decreases bytes.len(),
{
    if bytes.len() == 0 {
        assert(Seq::<Seq<char>>::empty().flatten_alt() =~= Seq::<char>::empty());
        Seq::empty()
    } else {
        let shorter = lemma_spelling(bytes.drop_last());
        let byte = bytes.last();
        let spelling = endpoints::named_byte(byte);
        let spellings = shorter.push(spelling);
        assert(spellings.drop_last() =~= shorter);
        assert(stands_for(spelling, byte)) by {
            let high = byte as int / 16;
            let low = byte as int % 16;
            assert(0 <= high < 16 && 0 <= low < 16 && high * 16 + low == byte);
        }
        assert forall|i: int| 0 <= i < bytes.len() implies stands_for(
            #[trigger] spellings[i],
            bytes[i],
        ) by {
            if i < shorter.len() {
                assert(stands_for(shorter[i], bytes.drop_last()[i]));
            }
        }
        spellings
    }
}

/// The name of an endpoint is `audio:`, the device's unique name with each byte spelled so that names
/// may hold it, a colon, and the direction.
pub proof fn endpoints_are_named_for_their_device(uid: &str, direction: &str, name: String)
    requires
        call_ensures(endpoint_id, (uid, direction), name),
    ensures
        exists|spellings: Seq<Seq<char>>|
            {
                &&& spellings.len() == encode_utf8(uid@).len()
                &&& forall|i: int|
                    0 <= i < spellings.len() ==> stands_for(
                        #[trigger] spellings[i],
                        encode_utf8(uid@)[i],
                    )
                &&& name@ == "audio:"@ + #[trigger] spellings.flatten_alt() + ":"@ + direction@
            },
{
    let spellings = lemma_spelling(encode_utf8(uid@));
    assert(name@ == "audio:"@ + spellings.flatten_alt() + ":"@ + direction@);
}

/// A device with channels in a direction has a side in that direction.
pub proof fn lemma_side_there(devices: Seq<AudioDevice>, d: int, direction: EndpointDirection) -> (i: int)
    requires
        0 <= d < devices.len(),
        (Side { device: devices[d], direction }).channels() > 0,
    ensures
        0 <= i < endpoints::sides(devices).len(),
        endpoints::sides(devices)[i] == (Side { device: devices[d], direction }),
    decreases devices.len(),
{
    let before = endpoints::sides(devices.drop_last());
    let last = endpoints::sides_of(devices.last());
    if d < devices.len() - 1 {
        let i = lemma_side_there(devices.drop_last(), d, direction);
        assert(endpoints::sides(devices)[i] == before[i]);
        i
    } else {
        let j = if direction == EndpointDirection::Source || devices[d].input_channels == 0 {
            0int
        } else {
            1int
        };
        assert(last[j] == (Side { device: devices[d], direction }));
        assert(endpoints::sides(devices)[before.len() + j] == last[j]);
        before.len() + j
    }
}

/// A side is that of a device with channels in its direction.
pub proof fn lemma_side_from(devices: Seq<AudioDevice>, i: int) -> (d: int)
    requires
        0 <= i < endpoints::sides(devices).len(),
    ensures
        0 <= d < devices.len(),
        endpoints::sides(devices)[i].device == devices[d],
        endpoints::sides(devices)[i].channels() > 0,
    decreases devices.len(),
{
    let before = endpoints::sides(devices.drop_last());
    if i < before.len() {
        lemma_side_from(devices.drop_last(), i)
    } else {
        let side = endpoints::sides_of(devices.last())[i - before.len()];
        assert(endpoints::sides(devices)[i] == side);
        devices.len() - 1
    }
}

/// The endpoint is that of a device in a direction, in which the device has `channels` channels.
pub open spec fn is_endpoint_of(
    device: AudioDevice,
    direction: EndpointDirection,
    channels: u32,
    endpoint: EndpointDescriptor,
) -> bool {
    &&& endpoint.direction == direction
    &&& endpoint.node@ == device.uid@
    &&& endpoint.channels == channels
    &&& endpoint.sample_rate == device.sample_rate
    &&& endpoint.is_loopback == device.is_virtual
    &&& endpoint.clock_domain@ == "coreaudio:"@ + crate::text::digits(device.object_id as nat)
}

/// Every device that is listed brings a source with its input channels and a sink with its output
/// channels, where it has such, under the names that are made from its unique name. There are no
/// other endpoints, and no routes.
pub proof fn devices_bring_their_endpoints(
    state: &mut DaemonState,
    listed: Vec<AudioDevice>,
    d: int,
    uid: &str,
    input: &str,
    output: &str,
    source: String,
    sink: String,
)
    requires
        call_ensures(
            DaemonState::refresh_endpoints,
            (state, Ok::<Vec<AudioDevice>, CoreAudioError>(listed)),
            Ok::<(), DaemonError>(()),
        ),
        0 <= d < listed@.len(),
        uid@ == listed@[d].uid@,
        input@ == "input"@,
        output@ == "output"@,
        call_ensures(endpoint_id, (uid, input), source),
        call_ensures(endpoint_id, (uid, output), sink),
    ensures
        final(state).graph().routes == Map::<Seq<char>, Route>::empty(),
        final(state).saved() == old(state).saved(),
        listed@[d].input_channels > 0 ==> {
            &&& final(state).graph().endpoints.contains_key(source@)
            &&& final(state).graph().endpoints[source@].id@ == source@
            &&& is_endpoint_of(
                listed@[d],
                EndpointDirection::Source,
                listed@[d].input_channels,
                final(state).graph().endpoints[source@],
            )
            &&& final(state).devices().contains_key(source@)
            &&& final(state).devices()[source@] == listed@[d]
        },
        listed@[d].output_channels > 0 ==> {
            &&& final(state).graph().endpoints.contains_key(sink@)
            &&& final(state).graph().endpoints[sink@].id@ == sink@
            &&& is_endpoint_of(
                listed@[d],
                EndpointDirection::Sink,
                listed@[d].output_channels,
                final(state).graph().endpoints[sink@],
            )
            &&& final(state).devices().contains_key(sink@)
            &&& final(state).devices()[sink@] == listed@[d]
        },
        forall|name: Seq<char>| #[trigger]
            final(state).graph().endpoints.contains_key(name) ==> exists|e: int|
                {
                    let endpoint = final(state).graph().endpoints[name];
                    &&& 0 <= e < listed@.len()
                    &&& {
                        ||| (#[trigger] listed@[e]).input_channels > 0 && is_endpoint_of(
                            listed@[e],
                            EndpointDirection::Source,
                            listed@[e].input_channels,
                            endpoint,
                        )
                        ||| listed@[e].output_channels > 0 && is_endpoint_of(
                            listed@[e],
                            EndpointDirection::Sink,
                            listed@[e].output_channels,
                            endpoint,
                        )
                    }
                },
{
    let sides = endpoints::sides(listed@);
    let graph = final(state).graph();
    if listed@[d].input_channels > 0 {
        let i = lemma_side_there(listed@, d, EndpointDirection::Source);
        assert(sides[i].name() == source@);
        assert(endpoints::has_side(sides, sides.len() as int, source@));
    }
    if listed@[d].output_channels > 0 {
        let i = lemma_side_there(listed@, d, EndpointDirection::Sink);
        assert(sides[i].name() == sink@);
        assert(endpoints::has_side(sides, sides.len() as int, sink@));
    }
    assert forall|name: Seq<char>| #[trigger] graph.endpoints.contains_key(name) implies exists|
        e: int,
    |
        {
            let endpoint = graph.endpoints[name];
            &&& 0 <= e < listed@.len()
            &&& {
                ||| (#[trigger] listed@[e]).input_channels > 0 && is_endpoint_of(
                    listed@[e],
                    EndpointDirection::Source,
                    listed@[e].input_channels,
                    endpoint,
                )
                ||| listed@[e].output_channels > 0 && is_endpoint_of(
                    listed@[e],
                    EndpointDirection::Sink,
                    listed@[e].output_channels,
                    endpoint,
                )
            }
        } by {
        assert(endpoints::has_side(sides, sides.len() as int, name));
        let i = choose|i: int| 0 <= i < sides.len() && (#[trigger] sides[i]).name() == name;
        let e = lemma_side_from(listed@, i);
        assert(sides[i].is_endpoint(graph.endpoints[name]));
        assert(listed@[e].input_channels > 0 || listed@[e].output_channels > 0);
    }
}

/// Where the devices cannot be listed, or have endpoints that a graph cannot hold, nothing changes.
pub proof fn failed_listings_change_nothing(
    state: &mut DaemonState,
    listing: Result<Vec<AudioDevice>, CoreAudioError>,
    error: DaemonError,
)
    requires
        call_ensures(
            DaemonState::refresh_endpoints,
            (state, listing),
            Err::<(), DaemonError>(error),
        ),
    ensures
        final(state).graph() == old(state).graph(),
        final(state).devices() == old(state).devices(),
        final(state).saved() == old(state).saved(),
        listing matches Err(failure) ==> error@ == DaemonErrorView::CoreAudio(failure@),
        listing is Ok ==> error is Graph,
{
}

/// Listed devices are refused only for a rate outside of 8 kHz to 768 kHz, a unique name that is
/// empty or too long, or the name of an endpoint that is too long or already there.
pub proof fn listings_are_refused_for_their_faults(
    state: &mut DaemonState,
    listed: Vec<AudioDevice>,
    error: DaemonError,
)
    requires
        call_ensures(
            DaemonState::refresh_endpoints,
            (state, Ok::<Vec<AudioDevice>, CoreAudioError>(listed)),
            Err::<(), DaemonError>(error),
        ),
    ensures
        exists|d: int|
            {
                &&& 0 <= d < listed@.len()
                &&& (#[trigger] listed@[d]).input_channels > 0 || listed@[d].output_channels > 0
                &&& match error {
                    DaemonError::Graph(GraphError::InvalidSampleRate(rate)) => {
                        &&& rate == listed@[d].sample_rate
                        &&& rate < 8_000 || 768_000 < rate
                    },
                    DaemonError::Graph(GraphError::InvalidIdentifier(name)) => {
                        ||| name@ == listed@[d].uid@ && !(0 < encode_utf8(name@).len() < 256)
                        ||| name@ == endpoints::endpoint_name(listed@[d].uid@, "input"@)
                            && name@.len() > 255
                        ||| name@ == endpoints::endpoint_name(listed@[d].uid@, "output"@)
                            && name@.len() > 255
                    },
                    DaemonError::Graph(GraphError::EndpointExists(id)) => {
                        ||| id@ == endpoints::endpoint_name(listed@[d].uid@, "input"@)
                        ||| id@ == endpoints::endpoint_name(listed@[d].uid@, "output"@)
                    },
                    _ => false,
                }
            },
{
    let sides = endpoints::sides(listed@);
    let refusal = error@->Graph_0;
    let i = choose|i: int|
        {
            &&& 0 <= i < sides.len()
            &&& #[trigger] endpoints::side_error(sides, i) == Some(refusal)
            &&& forall|j: int| 0 <= j < i ==> #[trigger] endpoints::side_error(sides, j) is None
        };
    let d = lemma_side_from(listed@, i);
    endpoints::endpoint_names_are_names(listed@[d].uid@, "input"@);
    endpoints::endpoint_names_are_names(listed@[d].uid@, "output"@);
    assert(listed@[d].input_channels > 0 || listed@[d].output_channels > 0);
}

/// What a saved route has become in a graph: a route by its name, between its endpoints, with its
/// gain and a matrix of their channels.
pub open spec fn is_restored<M: FloatMath>(graph: GraphView, saved: SavedRouteView) -> bool {
    &&& graph.routes.contains_key(saved.id)
    &&& graph.routes[saved.id].id@ == saved.id
    &&& graph.routes[saved.id].source@ == saved.source
    &&& graph.routes[saved.id].sink@ == saved.sink
    &&& call_ensures(M::gain, (saved.gain_millidb,), graph.routes[saved.id].gain)
    &&& graph.endpoints.contains_key(saved.source)
    &&& graph.endpoints.contains_key(saved.sink)
    &&& graph.endpoints[saved.source].direction == EndpointDirection::Source
    &&& graph.endpoints[saved.sink].direction == EndpointDirection::Sink
    &&& graph.routes[saved.id].matrix.inputs() == graph.endpoints[saved.source].channels
    &&& graph.routes[saved.id].matrix.outputs() == graph.endpoints[saved.sink].channels
    &&& saved.matrix_millionths.len() > 0 ==> {
        &&& graph.routes[saved.id].matrix.values().len() == saved.matrix_millionths.len()
        &&& forall|k: int|
            0 <= k < saved.matrix_millionths.len() ==> call_ensures(
                M::coefficient,
                (saved.matrix_millionths[k],),
                #[trigger] graph.routes[saved.id].matrix.values()[k],
            )
    }
}

/// Routes that are added one after the other are all there.
pub proof fn lemma_restored<M: FloatMath>(
    before: GraphView,
    listed: Seq<SavedRouteView>,
    n: nat,
    after: GraphView,
)
    requires
        n <= listed.len(),
        daemon::restored::<M>(before, listed, n, after),
    ensures
        after.endpoints == before.endpoints,
        forall|k: int| 0 <= k < n ==> is_restored::<M>(after, #[trigger] listed[k]),
        forall|name: Seq<char>| #[trigger]
            before.routes.contains_key(name) ==> after.routes.contains_key(name)
                && after.routes[name] == before.routes[name],
        forall|name: Seq<char>| #[trigger]
            after.routes.contains_key(name) ==> before.routes.contains_key(name) || exists|k: int|
                0 <= k < n && (#[trigger] listed[k]).id == name,
    decreases n,
{
    if n > 0 {
        let (middle, route) = choose|middle: GraphView, route: Route|
            {
                &&& daemon::restored::<M>(before, listed, (n - 1) as nat, middle)
                &&& daemon::builds::<M>(middle, listed[n - 1], Ok(route))
                &&& middle.route_refusal(route) is None
                &&& after == #[trigger] middle.with_route(route)
            };
        lemma_restored::<M>(before, listed, (n - 1) as nat, middle);
        let last = listed[n - 1];
        assert(route.id@ == last.id && is_restored::<M>(after, last)) by {
            if last.matrix_millionths.len() > 0 {
                let source = middle.endpoints[last.source];
                let sink = middle.endpoints[last.sink];
                let outcome = Ok::<Route, DaemonErrorView>(route);
                let coefficients = choose|coefficients: Seq<Float32>|
                    {
                        &&& #[trigger] daemon::are_coefficients::<M>(
                            last.matrix_millionths,
                            coefficients,
                        )
                        &&& if matrix::valid_shape(sink.channels, source.channels, coefficients) {
                            daemon::finishes::<M>(
                                last,
                                sink.channels,
                                source.channels,
                                coefficients,
                                outcome,
                            )
                        } else {
                            outcome matches Err(DaemonErrorView::Matrix(error))
                                && matrix::shape_error(
                                sink.channels,
                                source.channels,
                                coefficients,
                                error,
                            )
                        }
                    };
                assert(route.matrix.values() == coefficients);
            }
        }
        assert forall|k: int| 0 <= k < n implies is_restored::<M>(after, #[trigger] listed[k]) by {
            if k < n - 1 {
                assert(is_restored::<M>(middle, listed[k]));
                assert(listed[k].id != route.id@);
            }
        }
        assert forall|name: Seq<char>| #[trigger]
            after.routes.contains_key(name) implies before.routes.contains_key(name) || exists|
            k: int,
        |
            0 <= k < n && (#[trigger] listed[k]).id == name by {
            if name == route.id@ {
                assert(listed[n - 1].id == name);
            } else {
                assert(middle.routes.contains_key(name));
            }
        }
    }
}

/// Every saved route is in the graph once they are all restored, next to the routes that were there,
/// and there are no others.
pub proof fn saved_routes_are_restored<M: FloatMath>(state: &mut DaemonState)
    requires
        old(state).wf(),
        call_ensures(DaemonState::restore_routes::<M>, (state,), Ok::<(), DaemonError>(())),
    ensures
        final(state).saved() == old(state).saved(),
        final(state).graph().endpoints == old(state).graph().endpoints,
        final(state).devices() == old(state).devices(),
        forall|name: Seq<char>| #[trigger]
            old(state).saved().contains_key(name) ==> is_restored::<M>(
                final(state).graph(),
                old(state).saved()[name]@,
            ),
        forall|name: Seq<char>| #[trigger]
            old(state).graph().routes.contains_key(name) ==> final(
                state
            ).graph().routes.contains_key(name) && final(state).graph().routes[name] == old(
                state
            ).graph().routes[name],
        forall|name: Seq<char>| #[trigger]
            final(state).graph().routes.contains_key(name) ==> old(
                state
            ).graph().routes.contains_key(name) || old(state).saved().contains_key(name),
{
    let listed = old(state).listed();
    old(state).parts_fit_together();
    lemma_restored::<M>(old(state).graph(), listed, listed.len(), final(state).graph());
    assert forall|name: Seq<char>| #[trigger] old(state).saved().contains_key(name) implies
        is_restored::<M>(final(state).graph(), old(state).saved()[name]@) by {
        let i = choose|i: int| 0 <= i < listed.len() && (#[trigger] listed[i]).id == name;
        assert(is_restored::<M>(final(state).graph(), listed[i]));
    }
    assert forall|name: Seq<char>| #[trigger]
        final(state).graph().routes.contains_key(name) implies old(
        state
    ).graph().routes.contains_key(name) || old(state).saved().contains_key(name) by {
        if !old(state).graph().routes.contains_key(name) {
            let k = choose|k: int| 0 <= k < listed.len() && (#[trigger] listed[k]).id == name;
            assert(old(state).saved().contains_key(listed[k].id));
        }
    }
}

/// Where a saved route cannot be restored, those with names before its own are in the graph, and of
/// the others none is that was not there before. Endpoints and saved routes stay as they are.
pub proof fn restoring_ends_at_the_first_refusal<M: FloatMath>(
    state: &mut DaemonState,
    error: DaemonError,
)
    requires
        old(state).wf(),
        call_ensures(DaemonState::restore_routes::<M>, (state,), Err::<(), DaemonError>(error)),
    ensures
        final(state).saved() == old(state).saved(),
        final(state).graph().endpoints == old(state).graph().endpoints,
        final(state).devices() == old(state).devices(),
        exists|refused: Seq<char>|
            {
                &&& #[trigger] old(state).saved().contains_key(refused)
                &&& forall|name: Seq<char>| #[trigger]
                    old(state).saved().contains_key(name) && name != refused ==> if comes_before(
                        name,
                        refused,
                    ) {
                        is_restored::<M>(final(state).graph(), old(state).saved()[name]@)
                    } else {
                        comes_before(refused, name) && final(
                            state
                        ).graph().routes.contains_key(name) == old(
                            state
                        ).graph().routes.contains_key(name)
                    }
            },
        forall|name: Seq<char>| #[trigger]
            old(state).graph().routes.contains_key(name) ==> final(
                state
            ).graph().routes.contains_key(name) && final(state).graph().routes[name] == old(
                state
            ).graph().routes[name],
{
    let before = old(state).graph();
    let after = final(state).graph();
    let saved = old(state).saved();
    let listed = old(state).listed();
    old(state).parts_fit_together();
    let n = choose|n: nat|
        {
            &&& n < listed.len()
            &&& #[trigger] daemon::restored::<M>(before, listed, n, after)
            &&& daemon::is_refused::<M>(after, listed[n as int], error@)
        };
    lemma_restored::<M>(before, listed, n, after);
    let refused = listed[n as int].id;
    assert(saved.contains_key(listed[n as int].id));
    assert forall|name: Seq<char>| #[trigger]
        saved.contains_key(name) && name != refused implies if comes_before(name, refused) {
        is_restored::<M>(after, saved[name]@)
    } else {
        comes_before(refused, name) && after.routes.contains_key(name)
            == before.routes.contains_key(name)
    } by {
        let i = choose|i: int| 0 <= i < listed.len() && (#[trigger] listed[i]).id == name;
        if i < n {
            assert(crate::text::text_before(listed[i].id, listed[n as int].id));
            graphs::lemma_comes_first(encode_utf8(name), encode_utf8(refused));
            assert(is_restored::<M>(after, listed[i]));
        } else {
            assert(crate::text::text_before(listed[n as int].id, listed[i].id));
            graphs::lemma_comes_first(encode_utf8(refused), encode_utf8(name));
            if comes_before(name, refused) {
                lemma_one_first(encode_utf8(refused), encode_utf8(name));
            }
            if after.routes.contains_key(name) && !before.routes.contains_key(name) {
                let k = choose|k: int| 0 <= k < n && (#[trigger] listed[k]).id == name;
                assert(crate::text::text_before(listed[k].id, listed[i].id));
                graphs::lemma_comes_first(encode_utf8(name), encode_utf8(name));
                lemma_one_first(encode_utf8(name), encode_utf8(name));
            }
        }
    }
}

/// The name comes before the other in the order of their bytes.
pub open spec fn comes_before(name: Seq<char>, other: Seq<char>) -> bool {
    graphs::comes_first(encode_utf8(name), encode_utf8(other))
}

/// Of two texts not both come first.
proof fn lemma_one_first(left: Seq<u8>, right: Seq<u8>)
    requires
        graphs::comes_first(left, right),
    ensures
        !graphs::comes_first(right, left),
{
    let n = choose|n: int|
        {
            &&& 0 <= n <= left.len()
            &&& n < right.len()
            &&& #[trigger] left.take(n) == right.take(n)
            &&& n < left.len() ==> left[n] < right[n]
        };
    if graphs::comes_first(right, left) {
        let m = choose|m: int|
            {
                &&& 0 <= m <= right.len()
                &&& m < left.len()
                &&& #[trigger] right.take(m) == left.take(m)
                &&& m < right.len() ==> right[m] < left[m]
            };
        if m < n {
            assert(left.take(n)[m] == right.take(n)[m]);
        } else if n < m {
            assert(left.take(m)[n] == right.take(m)[n]);
        }
    }
}

/// How the router runs a route between two devices.
pub open spec fn is_run_as(
    route: Route,
    source: AudioDevice,
    sink: AudioDevice,
    audio: AudioRoute,
) -> bool {
    &&& audio.source_device_id == source.object_id
    &&& audio.source_channels == source.input_channels
    &&& audio.source_sample_rate == source.sample_rate
    &&& audio.sink_device_id == sink.object_id
    &&& audio.sink_channels == sink.output_channels
    &&& audio.sink_sample_rate == sink.sample_rate
    &&& audio.matrix@ == route.matrix.values()
    &&& audio.gain == route.gain
}

/// The routes of the state, each once and in the order of their names, as the router runs them.
pub open spec fn are_run(state: DaemonState, names: Seq<Seq<char>>, audio: Seq<AudioRoute>) -> bool {
    let routes = state.graph().routes;
    &&& audio.len() == names.len()
    &&& forall|name: Seq<char>| #[trigger] routes.contains_key(name) <==> names.contains(name)
    &&& forall|i: int, j: int|
        0 <= i < j < names.len() ==> graphs::comes_first(
            encode_utf8(#[trigger] names[i]),
            encode_utf8(#[trigger] names[j]),
        )
    &&& forall|i: int|
        0 <= i < names.len() ==> is_run_as(
            routes[names[i]],
            state.devices()[routes[names[i]].source@],
            state.devices()[routes[names[i]].sink@],
            #[trigger] audio[i],
        )
}

/// The names by which routes are run.
pub proof fn lemma_run(state: DaemonState, audio: Seq<AudioRoute>) -> (names: Seq<Seq<char>>)
    requires
        daemon::are_audio_routes(state.graph().routes, state.devices(), audio),
    ensures
        are_run(state, names, audio),
{
    let routes = state.graph().routes;
    let listed = choose|listed: Seq<Route>|
        {
            &&& #[trigger] routing::lists_routes(listed, routes)
            &&& audio.len() == listed.len()
            &&& forall|i: int|
                0 <= i < audio.len() ==> daemon::is_audio_route(
                    listed[i],
                    state.devices(),
                    #[trigger] audio[i],
                )
        };
    let names = listed.map_values(|route: Route| route.id@);
    assert forall|name: Seq<char>| #[trigger] routes.contains_key(name) <==> names.contains(
        name,
    ) by {
        if routes.contains_key(name) {
            let i = choose|i: int| 0 <= i < listed.len() && (#[trigger] listed[i]).id@ == name;
            assert(names[i] == name);
        }
        if names.contains(name) {
            let i = choose|i: int| 0 <= i < names.len() && names[i] == name;
            assert(listed[i].id@ == name);
        }
    }
    assert forall|i: int, j: int| 0 <= i < j < names.len() implies graphs::comes_first(
        encode_utf8(#[trigger] names[i]),
        encode_utf8(#[trigger] names[j]),
    ) by {
        assert(crate::text::text_before(listed[i].id@, listed[j].id@));
        graphs::lemma_comes_first(encode_utf8(names[i]), encode_utf8(names[j]));
    }
    assert forall|i: int| 0 <= i < names.len() implies is_run_as(
        routes[names[i]],
        state.devices()[routes[names[i]].source@],
        state.devices()[routes[names[i]].sink@],
        #[trigger] audio[i],
    ) by {
        assert(routes[listed[i].id@] == listed[i]);
    }
    names
}

/// The router runs every route of the graph: from the device of its source, with that device's
/// input channels and rate, to the device of its sink, with that one's output channels and rate, and
/// with the route's matrix and gain.
pub proof fn routes_are_run_between_their_devices(state: DaemonState, audio: Vec<AudioRoute>)
    requires
        call_ensures(DaemonState::audio_routes, (&state,), audio),
    ensures
        exists|names: Seq<Seq<char>>| #[trigger] are_run(state, names, audio@),
{
    let names = lemma_run(state, audio@);
}

/// The router is started where there are routes, and with all of them.
pub proof fn routers_are_started_for_routes(state: DaemonState, plan: Option<Vec<AudioRoute>>)
    requires
        call_ensures(DaemonState::restart_router, (&state,), plan),
    ensures
        plan is Some <==> exists|name: Seq<char>| #[trigger]
            state.graph().routes.contains_key(name),
        plan matches Some(audio) ==> exists|names: Seq<Seq<char>>| #[trigger]
            are_run(state, names, audio@),
{
    if let Some(audio) = plan {
        let names = lemma_run(state, audio@);
        assert(names.contains(names[0]));
        assert(state.graph().routes.contains_key(names[0]));
    }
}

} // verus!
