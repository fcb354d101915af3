//! The daemon's state, and what it does on request.
use vstd::prelude::*;
use vstd::slice::slice_to_vec;
use vstd::string::StringExecFns;
use vstd::utf8::*;
use crate::device;
use crate::device::{AudioDevice, AudioRoute, CoreAudioError, CoreAudioErrorView};
use crate::endpoints;
use crate::endpoints::{collect_endpoints, valid_device_id};
use crate::float::{Float32, FloatMath};
use crate::graph;
use crate::graph::{
    EndpointDescriptor, EndpointDirection, EndpointId, GraphError, GraphErrorView, Route, RouteId,
};
use crate::matrix;
use crate::matrix::{ChannelMatrix, MatrixError};
use crate::protocol::Response;
use crate::router::RouterMetrics;
use crate::routing;
use crate::routing::{GraphView, RoutingGraph};
use crate::saved;
use crate::saved::{load_routes, save_routes, SavedRoute, SavedRouteView};
use crate::text;
use crate::text::{digits_text, joined, same_text};
use crate::textmap::TextMap;

verus! {

/// Why the daemon did not do what it was asked.
#[derive(Debug, PartialEq)]
pub enum DaemonError {
    CoreAudio(CoreAudioError),
    Graph(GraphError),
    Matrix(MatrixError),
    Io(String),
    InvalidDeviceId(String),
    DeviceInUse(String),
    RouteExists(String),
    RouteNotFound(String),
    EndpointNotFound(String),
    MatrixRequired { inputs: usize, outputs: usize },
    State(String),
}

/// A daemon error by its values.
pub enum DaemonErrorView {
    CoreAudio(CoreAudioErrorView),
    Graph(GraphErrorView),
    Matrix(MatrixError),
    Io(Seq<char>),
    InvalidDeviceId(Seq<char>),
    DeviceInUse(Seq<char>),
    RouteExists(Seq<char>),
    RouteNotFound(Seq<char>),
    EndpointNotFound(Seq<char>),
    MatrixRequired { inputs: usize, outputs: usize },
    State(Seq<char>),
}

impl View for DaemonError {
    type V = DaemonErrorView;

    open spec fn view(&self) -> DaemonErrorView {
        match self {
            DaemonError::CoreAudio(error) => DaemonErrorView::CoreAudio(error@),
            DaemonError::Graph(error) => DaemonErrorView::Graph(error@),
            DaemonError::Matrix(error) => DaemonErrorView::Matrix(*error),
            DaemonError::Io(message) => DaemonErrorView::Io(message@),
            DaemonError::InvalidDeviceId(id) => DaemonErrorView::InvalidDeviceId(id@),
            DaemonError::DeviceInUse(id) => DaemonErrorView::DeviceInUse(id@),
            DaemonError::RouteExists(id) => DaemonErrorView::RouteExists(id@),
            DaemonError::RouteNotFound(id) => DaemonErrorView::RouteNotFound(id@),
            DaemonError::EndpointNotFound(id) => DaemonErrorView::EndpointNotFound(id@),
            DaemonError::MatrixRequired { inputs, outputs } => DaemonErrorView::MatrixRequired {
                inputs: *inputs,
                outputs: *outputs,
            },
            DaemonError::State(message) => DaemonErrorView::State(message@),
        }
    }
}

impl DaemonErrorView {
    /// The word by which a program tells the error.
    pub open spec fn code(self) -> Seq<char> {
        match self {
            DaemonErrorView::CoreAudio(_) => "core_audio"@,
            DaemonErrorView::Graph(_) => "invalid_graph"@,
            DaemonErrorView::Matrix(_) => "invalid_matrix"@,
            DaemonErrorView::MatrixRequired { .. } => "invalid_matrix"@,
            DaemonErrorView::Io(_) => "state_io"@,
            DaemonErrorView::State(_) => "state_io"@,
            DaemonErrorView::InvalidDeviceId(_) => "invalid_device_id"@,
            DaemonErrorView::DeviceInUse(_) => "device_in_use"@,
            DaemonErrorView::RouteExists(_) => "route_exists"@,
            DaemonErrorView::RouteNotFound(_) => "route_not_found"@,
            DaemonErrorView::EndpointNotFound(_) => "endpoint_not_found"@,
        }
    }

    /// The message that a person reads.
    pub open spec fn text(self) -> Seq<char> {
        match self {
            DaemonErrorView::CoreAudio(error) => error.text(),
            DaemonErrorView::Graph(error) => error.text(),
            DaemonErrorView::Matrix(error) => error.message(),
            DaemonErrorView::Io(message) => message,
            DaemonErrorView::InvalidDeviceId(id) => "invalid device id: "@ + id,
            DaemonErrorView::DeviceInUse(id) => "device is referenced by a route: "@ + id,
            DaemonErrorView::RouteExists(id) => "route already exists: "@ + id,
            DaemonErrorView::RouteNotFound(id) => "route not found: "@ + id,
            DaemonErrorView::EndpointNotFound(id) => "endpoint not found: "@ + id,
            DaemonErrorView::MatrixRequired { inputs, outputs } => "an explicit "@ + text::digits(
                outputs as nat,
            ) + "x"@ + text::digits(inputs as nat) + " channel matrix is required"@,
            DaemonErrorView::State(message) => message,
        }
    }
}

impl DaemonError {
    /// The word by which a program tells the error.
    pub fn code(&self) -> (code: &'static str)
        ensures
            code@ == self@.code(),
    {
        match self {
            DaemonError::CoreAudio(_) => "core_audio",
            DaemonError::Graph(_) => "invalid_graph",
            DaemonError::Matrix(_) => "invalid_matrix",
            DaemonError::MatrixRequired { .. } => "invalid_matrix",
            DaemonError::Io(_) => "state_io",
            DaemonError::State(_) => "state_io",
            DaemonError::InvalidDeviceId(_) => "invalid_device_id",
            DaemonError::DeviceInUse(_) => "device_in_use",
            DaemonError::RouteExists(_) => "route_exists",
            DaemonError::RouteNotFound(_) => "route_not_found",
            DaemonError::EndpointNotFound(_) => "endpoint_not_found",
        }
    }

    /// The message that a person reads.
    pub fn text(&self) -> (message: String)
        ensures
            message@ == self@.text(),
    {
        match self {
            DaemonError::CoreAudio(error) => error.text(),
            DaemonError::Graph(error) => error.text(),
            DaemonError::Matrix(error) => error.text(),
            DaemonError::Io(message) => message.clone(),
            DaemonError::InvalidDeviceId(id) => joined("invalid device id: ", id.as_str()),
            DaemonError::DeviceInUse(id) => joined("device is referenced by a route: ", id.as_str()),
            DaemonError::RouteExists(id) => joined("route already exists: ", id.as_str()),
            DaemonError::RouteNotFound(id) => joined("route not found: ", id.as_str()),
            DaemonError::EndpointNotFound(id) => joined("endpoint not found: ", id.as_str()),
            DaemonError::MatrixRequired { inputs, outputs } => {
                let mut message = joined("an explicit ", digits_text(*outputs as u64).as_str());
                message.append("x");
                message.append(digits_text(*inputs as u64).as_str());
                message.append(" channel matrix is required");
                message
            },
            DaemonError::State(message) => message.clone(),
        }
    }
}

/// What the daemon answers where it has done, or not done, what it was asked.
pub fn respond(result: &Result<String, DaemonError>) -> (response: Response)
    ensures
        match result {
            Ok(message) => response@ == crate::protocol::ResponseView::Accepted(message@),
            Err(error) => response@ == (crate::protocol::ResponseView::Error {
                code: error@.code(),
                message: error@.text(),
            }),
        },
{
    match result {
        Ok(message) => Response::Accepted(message.clone()),
        Err(error) => Response::Error { code: error.code().to_owned(), message: error.text() },
    }
}

/// Checks that a text can be the id of a virtual device.
pub fn validate_device_id(id: &str) -> (result: Result<(), DaemonError>)
    ensures
        match result {
            Ok(()) => endpoints::is_device_id(id@),
            Err(error) => !endpoints::is_device_id(id@) && error@
                == DaemonErrorView::InvalidDeviceId(id@),
        },
{
    if valid_device_id(id) {
        Ok(())
    } else {
        Err(DaemonError::InvalidDeviceId(id.to_owned()))
    }
}

impl vstd::std_specs::convert::FromSpecImpl<CoreAudioError> for DaemonError {
    open spec fn obeys_from_spec() -> bool {
        true
    }

    open spec fn from_spec(value: CoreAudioError) -> Self {
        DaemonError::CoreAudio(value)
    }
}

impl From<CoreAudioError> for DaemonError {
    fn from(value: CoreAudioError) -> Self {
        DaemonError::CoreAudio(value)
    }
}

impl vstd::std_specs::convert::FromSpecImpl<GraphError> for DaemonError {
    open spec fn obeys_from_spec() -> bool {
        true
    }

    open spec fn from_spec(value: GraphError) -> Self {
        DaemonError::Graph(value)
    }
}

impl From<GraphError> for DaemonError {
    fn from(value: GraphError) -> Self {
        DaemonError::Graph(value)
    }
}

impl vstd::std_specs::convert::FromSpecImpl<MatrixError> for DaemonError {
    open spec fn obeys_from_spec() -> bool {
        true
    }

    open spec fn from_spec(value: MatrixError) -> Self {
        DaemonError::Matrix(value)
    }
}

impl From<MatrixError> for DaemonError {
    fn from(value: MatrixError) -> Self {
        DaemonError::Matrix(value)
    }
}

/// What the daemon knows: the routing graph, the routes as they were asked for, and the device of
/// each endpoint.
pub struct DaemonState {
    graph: RoutingGraph,
    routes: TextMap<SavedRoute>,
    endpoint_devices: TextMap<AudioDevice>,
}

/// A matrix of the coefficients that were asked for in millionths.
pub open spec fn are_coefficients<M: FloatMath>(
    millionths: Seq<i32>,
    coefficients: Seq<Float32>,
) -> bool {
    &&& coefficients.len() == millionths.len()
    &&& forall|i: int|
        0 <= i < millionths.len() ==> call_ensures(
            M::coefficient,
            (millionths[i],),
            #[trigger] coefficients[i],
        )
}

/// The route, or why it cannot be named, where its matrix is known.
pub open spec fn finishes<M: FloatMath>(
    saved: SavedRouteView,
    outputs: usize,
    inputs: usize,
    coefficients: Seq<Float32>,
    outcome: Result<Route, DaemonErrorView>,
) -> bool {
    if !graph::is_identifier(saved.id) {
        outcome == Err::<Route, DaemonErrorView>(
            DaemonErrorView::Graph(GraphErrorView::InvalidIdentifier(saved.id)),
        )
    } else {
        outcome matches Ok(route) && {
            &&& route.id@ == saved.id
            &&& route.source@ == saved.source
            &&& route.sink@ == saved.sink
            &&& call_ensures(M::gain, (saved.gain_millidb,), route.gain)
            &&& route.matrix.outputs() == outputs
            &&& route.matrix.inputs() == inputs
            &&& route.matrix.values() == coefficients
        }
    }
}

/// The route, or why it cannot be made, where coefficients were asked for.
pub open spec fn builds_matrix<M: FloatMath>(
    saved: SavedRouteView,
    outputs: usize,
    inputs: usize,
    outcome: Result<Route, DaemonErrorView>,
) -> bool {
    exists|coefficients: Seq<Float32>|
        {
            &&& #[trigger] are_coefficients::<M>(saved.matrix_millionths, coefficients)
            &&& if matrix::valid_shape(outputs, inputs, coefficients) {
                finishes::<M>(saved, outputs, inputs, coefficients, outcome)
            } else {
                outcome matches Err(DaemonErrorView::Matrix(error)) && matrix::shape_error(
                    outputs,
                    inputs,
                    coefficients,
                    error,
                )
            }
        }
}

/// What building a saved route gives: the route, or why it cannot be built.
///
/// Without coefficients the route passes each channel through, which takes as many channels on both
/// sides.
pub open spec fn builds<M: FloatMath>(
    graph: GraphView,
    saved: SavedRouteView,
    outcome: Result<Route, DaemonErrorView>,
) -> bool {
    let source = graph.endpoints[saved.source];
    let sink = graph.endpoints[saved.sink];
    if !graph::is_identifier(saved.source) {
        outcome == Err::<Route, DaemonErrorView>(
            DaemonErrorView::Graph(GraphErrorView::InvalidIdentifier(saved.source)),
        )
    } else if !graph::is_identifier(saved.sink) {
        outcome == Err::<Route, DaemonErrorView>(
            DaemonErrorView::Graph(GraphErrorView::InvalidIdentifier(saved.sink)),
        )
    } else if !graph.endpoints.contains_key(saved.source) {
        outcome == Err::<Route, DaemonErrorView>(DaemonErrorView::EndpointNotFound(saved.source))
    } else if !graph.endpoints.contains_key(saved.sink) {
        outcome == Err::<Route, DaemonErrorView>(DaemonErrorView::EndpointNotFound(saved.sink))
    } else if saved.matrix_millionths.len() > 0 {
        builds_matrix::<M>(saved, sink.channels, source.channels, outcome)
    } else if source.channels != sink.channels {
        outcome == Err::<Route, DaemonErrorView>(
            DaemonErrorView::MatrixRequired { inputs: source.channels, outputs: sink.channels },
        )
    } else if source.channels * source.channels > usize::MAX {
        outcome == Err::<Route, DaemonErrorView>(
            DaemonErrorView::Matrix(MatrixError::FrameCountOverflow),
        )
    } else {
        finishes::<M>(
            saved,
            source.channels,
            source.channels,
            matrix::identity_values(source.channels as nat),
            outcome,
        )
    }
}

/// `after` is the graph once the first `n` saved routes are added, one after the other.
pub open spec fn restored<M: FloatMath>(
    before: GraphView,
    saved: Seq<SavedRouteView>,
    n: nat,
    after: GraphView,
) -> bool
    decreases n,
{
    if n == 0 {
        after == before
    } else {
        exists|middle: GraphView, route: Route|
            {
                &&& restored::<M>(before, saved, (n - 1) as nat, middle)
                &&& builds::<M>(middle, saved[n - 1], Ok(route))
                &&& middle.route_refusal(route) is None
                &&& after == #[trigger] middle.with_route(route)
            }
    }
}

/// The saved route cannot be added to the graph.
pub open spec fn is_refused<M: FloatMath>(
    graph: GraphView,
    saved: SavedRouteView,
    error: DaemonErrorView,
) -> bool {
    ||| builds::<M>(graph, saved, Err(error))
    ||| exists|route: Route|
        {
            &&& #[trigger] builds::<M>(graph, saved, Ok(route))
            &&& error matches DaemonErrorView::Graph(refusal) && graph.route_refusal(route)
                == Some(refusal)
        }
}

/// What adding all saved routes does: they are all added, or the ones before the first that is
/// refused.
pub open spec fn restores<M: FloatMath>(
    before: GraphView,
    saved: Seq<SavedRouteView>,
    after: GraphView,
    error: Option<DaemonErrorView>,
) -> bool {
    match error {
        None => restored::<M>(before, saved, saved.len(), after),
        Some(error) => exists|n: nat|
            {
                &&& n < saved.len()
                &&& #[trigger] restored::<M>(before, saved, n, after)
                &&& is_refused::<M>(after, saved[n as int], error)
            },
    }
}

/// `audio` is the route between the devices of its endpoints.
pub open spec fn is_audio_route(
    route: Route,
    devices: Map<Seq<char>, AudioDevice>,
    audio: AudioRoute,
) -> bool {
    let source = devices[route.source@];
    let sink = devices[route.sink@];
    &&& audio.source_device_id == source.object_id
    &&& audio.sink_device_id == sink.object_id
    &&& audio.source_channels == source.input_channels
    &&& audio.sink_channels == sink.output_channels
    &&& audio.source_sample_rate == source.sample_rate
    &&& audio.sink_sample_rate == sink.sample_rate
    &&& audio.matrix@ == route.matrix.values()
    &&& audio.gain == route.gain
}

/// The routes of the graph, in the order of their names, as the router runs them.
pub open spec fn are_audio_routes(
    routes: Map<Seq<char>, Route>,
    devices: Map<Seq<char>, AudioDevice>,
    audio: Seq<AudioRoute>,
) -> bool {
    exists|listed: Seq<Route>|
        {
            &&& #[trigger] routing::lists_routes(listed, routes)
            &&& audio.len() == listed.len()
            &&& forall|i: int|
                0 <= i < audio.len() ==> is_audio_route(listed[i], devices, #[trigger] audio[i])
        }
}

/// What the router is started with: the routes of the graph, or nothing where it has none.
pub open spec fn is_router_plan(
    routes: Map<Seq<char>, Route>,
    devices: Map<Seq<char>, AudioDevice>,
    plan: Option<Vec<AudioRoute>>,
) -> bool {
    match plan {
        Some(audio) => audio@.len() > 0 && are_audio_routes(routes, devices, audio@),
        None => routes == Map::<Seq<char>, Route>::empty(),
    }
}

/// What taking the endpoints from listed devices does: the graph holds them and no routes, or
/// nothing has changed and the error tells why.
pub open spec fn refreshes(
    graph_before: GraphView,
    devices_before: Map<Seq<char>, AudioDevice>,
    listing: Result<Vec<AudioDevice>, CoreAudioError>,
    graph: GraphView,
    devices: Map<Seq<char>, AudioDevice>,
    error: Option<DaemonErrorView>,
) -> bool {
    match error {
        None => listing matches Ok(listed) && {
            let sides = endpoints::sides(listed@);
            &&& forall|i: int|
                0 <= i < sides.len() ==> #[trigger] endpoints::side_error(sides, i) is None
            &&& endpoints::holds_sides(graph, devices, sides, sides.len() as int)
        },
        Some(error) => {
            &&& graph == graph_before
            &&& devices == devices_before
            &&& match listing {
                Ok(listed) => error matches DaemonErrorView::Graph(refusal)
                    && endpoints::is_first_side_error(endpoints::sides(listed@), refusal),
                Err(failure) => error == DaemonErrorView::CoreAudio(failure@),
            }
        },
    }
}

/// The error of a result, by its values.
pub open spec fn failure<T>(result: Result<T, DaemonError>) -> Option<DaemonErrorView> {
    match result {
        Ok(_) => None,
        Err(error) => Some(error@),
    }
}

/// The saved routes stand in the list in the order of their names, each of them once.
pub open spec fn lists_saved(
    listed: Seq<SavedRouteView>,
    routes: Map<Seq<char>, SavedRoute>,
) -> bool {
    &&& forall|i: int|
        0 <= i < listed.len() ==> routes.contains_key((#[trigger] listed[i]).id)
            && routes[listed[i].id]@ == listed[i]
    &&& forall|name: Seq<char>| #[trigger]
        routes.contains_key(name) ==> exists|i: int|
            0 <= i < listed.len() && (#[trigger] listed[i]).id == name
    &&& forall|i: int, j: int|
        0 <= i < j < listed.len() ==> text::text_before(
            (#[trigger] listed[i]).id,
            (#[trigger] listed[j]).id,
        )
}

impl DaemonState {
    /// The routing graph.
    pub closed spec fn graph(self) -> GraphView {
        self.graph@
    }

    /// The saved routes by their names.
    pub closed spec fn saved(self) -> Map<Seq<char>, SavedRoute> {
        self.routes@
    }

    /// The saved routes in the order of their names.
    pub closed spec fn listed(self) -> Seq<SavedRouteView> {
        saved::saved_views(self.routes.entries())
    }

    /// The device of each endpoint.
    pub closed spec fn devices(self) -> Map<Seq<char>, AudioDevice> {
        self.endpoint_devices@
    }

    /// The graph is well-formed, every saved route stands under its own name, and exactly the
    /// endpoints of the graph have a device.
    pub closed spec fn wf(self) -> bool {
        &&& self.graph.wf()
        &&& self.routes.wf()
        &&& self.endpoint_devices.wf()
        &&& saved::self_named(self.routes@)
        &&& forall|name: Seq<char>| #[trigger]
            self.graph@.endpoints.contains_key(name) == self.endpoint_devices@.contains_key(name)
    }

    /// The parts of a well-formed state fit together: the graph is well-formed, every saved route
    /// stands under its own name and is listed in the order of the names, and exactly the endpoints
    /// of the graph have a device.
    pub proof fn parts_fit_together(self)
        requires
            self.wf(),
        ensures
            self.graph().wf(),
            saved::self_named(self.saved()),
            lists_saved(self.listed(), self.saved()),
            forall|name: Seq<char>| #[trigger]
                self.graph().endpoints.contains_key(name) == self.devices().contains_key(name),
    {
        self.graph.lemma_wf();
        let listed = self.listed();
        assert forall|i: int| 0 <= i < listed.len() implies self.saved().contains_key(
            (#[trigger] listed[i]).id,
        ) && self.saved()[listed[i].id]@ == listed[i] && listed[i].id == self.routes.names()[i] by {
            self.routes.lemma_entry(i);
        }
        assert forall|name: Seq<char>| #[trigger] self.saved().contains_key(name) implies exists|
            i: int,
        |
            0 <= i < listed.len() && (#[trigger] listed[i]).id == name by {
            let i = self.routes.lemma_place(name);
            assert(listed[i].id == name);
        }
    }

    /// Loading the lines that the routes of a state are saved as gives those routes back.
    pub proof fn saved_routes_survive(self, path: Seq<char>)
        requires
            self.wf(),
        ensures
            saved::loaded(path, saved::saved_lines(self.listed())) == Ok::<
                Map<Seq<char>, SavedRouteView>,
                Seq<char>,
            >(saved::named_views(self.saved())),
    {
        saved::saved_state_loads_back(path, self.routes);
    }

    /// Saves a route under its name. What comes back tells whether there was one with the name.
    pub(crate) fn remember(&mut self, route: SavedRoute) -> (replaced: bool)
        requires
            old(self).wf(),
        ensures
            final(self).wf(),
            final(self).graph() == old(self).graph(),
            final(self).devices() == old(self).devices(),
            final(self).saved() == old(self).saved().insert(route@.id, route),
            replaced == old(self).saved().contains_key(route@.id),
    {
        let id = route.id.clone();
        self.routes.insert(id, route).is_some()
    }

    /// Takes a saved route out.
    pub(crate) fn forget(&mut self, id: &str) -> (previous: Option<SavedRoute>)
        requires
            old(self).wf(),
        ensures
            final(self).wf(),
            final(self).graph() == old(self).graph(),
            final(self).devices() == old(self).devices(),
            final(self).saved() == old(self).saved().remove(id@),
            !old(self).saved().contains_key(id@) ==> final(self).listed() == old(self).listed(),
            previous == (if old(self).saved().contains_key(id@) {
                Some(old(self).saved()[id@])
            } else {
                None
            }),
    {
        let previous = self.routes.remove(id);
        proof {
            if previous is None {
                assert(self.routes@ =~= old(self).routes@);
                crate::textmap::order_follows_contents(self.routes, old(self).routes);
            }
        }
        previous
    }

    /// Adds a route to the graph.
    pub(crate) fn add_route(&mut self, route: Route) -> (result: Result<(), GraphError>)
        requires
            old(self).wf(),
        ensures
            final(self).wf(),
            final(self).devices() == old(self).devices(),
            final(self).saved() == old(self).saved(),
            final(self).listed() == old(self).listed(),
            match result {
                Ok(()) => {
                    &&& old(self).graph().route_refusal(route) is None
                    &&& final(self).graph() == old(self).graph().with_route(route)
                },
                Err(error) => {
                    &&& old(self).graph().route_refusal(route) == Some(error@)
                    &&& final(self).graph() == old(self).graph()
                },
            },
    {
        self.graph.add_route(route)
    }

    /// A state with the routes that were saved. `path` is the name of the file that the lines come
    /// from.
    pub fn load(path: &str, lines: &Vec<String>) -> (result: Result<Self, String>)
        ensures
            match result {
                Ok(state) => {
                    &&& state.wf()
                    &&& state.graph() == GraphView::empty()
                    &&& state.devices() == Map::<Seq<char>, AudioDevice>::empty()
                    &&& saved::loaded(path@, saved::texts(lines@)) == Ok::<
                        Map<Seq<char>, SavedRouteView>,
                        Seq<char>,
                    >(saved::named_views(state.saved()))
                },
                Err(message) => saved::loaded(path@, saved::texts(lines@)) == Err::<
                    Map<Seq<char>, SavedRouteView>,
                    Seq<char>,
                >(message@),
            },
    {
        match load_routes(path, lines) {
            Ok(routes) => Ok(
                DaemonState {
                    graph: RoutingGraph::default(),
                    routes,
                    endpoint_devices: TextMap::new(),
                },
            ),
            Err(message) => Err(message),
        }
    }

    /// The lines that the routes are saved as.
    pub fn save_routes(&self) -> (lines: Vec<String>)
        ensures
            saved::texts(lines@) == saved::saved_lines(self.listed()),
    {
        save_routes(&self.routes)
    }

    /// Takes the endpoints from the devices as they were listed. The graph has no routes then.
    pub fn refresh_endpoints(&mut self, devices: Result<Vec<AudioDevice>, CoreAudioError>) -> (result:
        Result<(), DaemonError>)
        requires
            old(self).wf(),
        ensures
            final(self).wf(),
            final(self).saved() == old(self).saved(),
            final(self).listed() == old(self).listed(),
            refreshes(
                old(self).graph(),
                old(self).devices(),
                devices,
                final(self).graph(),
                final(self).devices(),
                failure(result),
            ),
    {
        let listed = match devices {
            Ok(listed) => listed,
            Err(error) => {
                return Err(DaemonError::CoreAudio(error));
            },
        };
        match collect_endpoints(&listed) {
            Ok((graph, endpoint_devices)) => {
                self.graph = graph;
                self.endpoint_devices = endpoint_devices;
                Ok(())
            },
            Err(error) => Err(DaemonError::Graph(error)),
        }
    }

    /// The matrix of the coefficients that were asked for.
    fn build_matrix<M: FloatMath>(
        millionths: &Vec<i32>,
        outputs: usize,
        inputs: usize,
    ) -> (result: Result<ChannelMatrix, MatrixError>)
        ensures
            exists|coefficients: Seq<Float32>|
                {
                    &&& #[trigger] are_coefficients::<M>(millionths@, coefficients)
                    &&& match result {
                        Ok(made) => {
                            &&& matrix::valid_shape(outputs, inputs, coefficients)
                            &&& made.outputs() == outputs
                            &&& made.inputs() == inputs
                            &&& made.values() == coefficients
                        },
                        Err(error) => {
                            &&& !matrix::valid_shape(outputs, inputs, coefficients)
                            &&& matrix::shape_error(outputs, inputs, coefficients, error)
                        },
                    }
                },
    {
        let mut coefficients: Vec<Float32> = Vec::new();
        let mut i: usize = 0;
        while i < millionths.len()
            invariant
                i <= millionths@.len(),
                coefficients@.len() == i,
                forall|k: int|
                    0 <= k < i ==> call_ensures(
                        M::coefficient,
                        (millionths@[k],),
                        #[trigger] coefficients@[k],
                    ),
            decreases millionths.len() - i,
        {
            coefficients.push(M::coefficient(millionths[i]));
            i = i + 1;
        }
        assert(are_coefficients::<M>(millionths@, coefficients@));
        ChannelMatrix::new(outputs, inputs, coefficients)
    }

    /// Builds a saved route on the endpoints of the graph.
    pub fn build_route<M: FloatMath>(&self, saved: &SavedRoute) -> (result: Result<
        Route,
        DaemonError,
    >)
        requires
            self.wf(),
        ensures
            builds::<M>(
                self.graph(),
                saved@,
                match result {
                    Ok(route) => Ok(route),
                    Err(error) => Err(error@),
                },
            ),
    {
        proof {
            self.graph.lemma_wf();
        }
        let source_id = match EndpointId::new(saved.source.clone()) {
            Ok(id) => id,
            Err(error) => {
                return Err(DaemonError::Graph(error));
            },
        };
        let sink_id = match EndpointId::new(saved.sink.clone()) {
            Ok(id) => id,
            Err(error) => {
                return Err(DaemonError::Graph(error));
            },
        };
        let source = match self.graph.endpoint(&source_id) {
            Some(source) => source,
            None => {
                return Err(DaemonError::EndpointNotFound(saved.source.clone()));
            },
        };
        let sink = match self.graph.endpoint(&sink_id) {
            Some(sink) => sink,
            None => {
                return Err(DaemonError::EndpointNotFound(saved.sink.clone()));
            },
        };
        assert(routing::endpoint_defect(*source) is None);
        let made = if saved.matrix_millionths.len() == 0 {
            if source.channels != sink.channels {
                return Err(
                    DaemonError::MatrixRequired { inputs: source.channels, outputs: sink.channels },
                );
            }
            if source.channels.checked_mul(source.channels).is_none() {
                return Err(DaemonError::Matrix(MatrixError::FrameCountOverflow));
            }
            ChannelMatrix::identity(source.channels)
        } else {
            Self::build_matrix::<M>(&saved.matrix_millionths, sink.channels, source.channels)
        };
        let made = match made {
            Ok(made) => made,
            Err(error) => {
                return Err(DaemonError::Matrix(error));
            },
        };
        let id = match RouteId::new(saved.id.clone()) {
            Ok(id) => id,
            Err(error) => {
                return Err(DaemonError::Graph(error));
            },
        };
        let gain = M::gain(saved.gain_millidb);
        Ok(Route { id, source: source_id, sink: sink_id, gain, matrix: made })
    }

    /// Adds the saved routes to the graph, in the order of their names.
    pub fn restore_routes<M: FloatMath>(&mut self) -> (result: Result<(), DaemonError>)
        requires
            old(self).wf(),
        ensures
            final(self).wf(),
            final(self).saved() == old(self).saved(),
            final(self).listed() == old(self).listed(),
            final(self).devices() == old(self).devices(),
            restores::<M>(
                old(self).graph(),
                old(self).listed(),
                final(self).graph(),
                failure(result),
            ),
    {
        let ghost before = self.graph();
        let ghost listed = self.listed();
        let mut i: usize = 0;
        while i < self.routes.values().len()
            invariant
                self.wf(),
                self.routes == old(self).routes,
                self.endpoint_devices == old(self).endpoint_devices,
                before == old(self).graph(),
                listed == old(self).listed(),
                listed.len() == self.routes.entries().len(),
                i <= listed.len(),
                restored::<M>(before, listed, i as nat, self.graph()),
            decreases self.routes.entries().len() - i,
        {
            let ghost middle = self.graph();
            let route = match self.build_route::<M>(&self.routes.values()[i]) {
                Ok(route) => route,
                Err(error) => {
                    assert(is_refused::<M>(middle, listed[i as int], error@));
                    return Err(error);
                },
            };
            assert(builds::<M>(middle, listed[i as int], Ok(route)));
            if let Err(error) = self.graph.add_route(route) {
                proof {
                    let failure = DaemonErrorView::Graph(error@);
                    assert(is_refused::<M>(middle, listed[i as int], failure));
                }
                return Err(DaemonError::Graph(error));
            }
            proof {
                let n = (i + 1) as nat;
                assert(restored::<M>(before, listed, (n - 1) as nat, middle));
                assert(self.graph() == middle.with_route(route));
                assert(restored::<M>(before, listed, n, self.graph()));
            }
            i = i + 1;
        }
        Ok(())
    }

    /// The routes of the graph as the router runs them.
    pub fn audio_routes(&self) -> (audio: Vec<AudioRoute>)
        requires
            self.wf(),
        ensures
            are_audio_routes(self.graph().routes, self.devices(), audio@),
    {
        proof {
            self.graph.lemma_wf();
        }
        let listed = self.graph.routes();
        let mut audio: Vec<AudioRoute> = Vec::new();
        let mut i: usize = 0;
        while i < listed.len()
            invariant
                self.wf(),
                self.graph@.wf(),
                routing::lists_routes(listed@, self.graph@.routes),
                i <= listed@.len(),
                audio@.len() == i,
                forall|k: int|
                    0 <= k < i ==> is_audio_route(
                        listed@[k],
                        self.devices(),
                        #[trigger] audio@[k],
                    ),
            decreases listed.len() - i,
        {
            let route = &listed[i];
            proof {
                assert(self.graph@.routes.contains_key(listed@[i as int].id@));
                assert(self.graph@.fits(*route));
                assert(self.graph@.endpoints.contains_key(route.source@));
                assert(self.graph@.endpoints.contains_key(route.sink@));
            }
            if let Some(source) = self.endpoint_devices.get(route.source.as_str()) {
                if let Some(sink) = self.endpoint_devices.get(route.sink.as_str()) {
                    let coefficients = slice_to_vec(route.matrix.coefficients());
                    assert(coefficients@ =~= route.matrix.values());
                    audio.push(
                        AudioRoute {
                            source_device_id: source.object_id,
                            sink_device_id: sink.object_id,
                            source_channels: source.input_channels,
                            sink_channels: sink.output_channels,
                            source_sample_rate: source.sample_rate,
                            sink_sample_rate: sink.sample_rate,
                            matrix: coefficients,
                            gain: route.gain,
                        },
                    );
                }
            }
            i = i + 1;
        }
        audio
    }

    /// What the router is to be restarted with. Nothing comes back where there are no routes and it
    /// is only to be stopped.
    pub fn restart_router(&self) -> (plan: Option<Vec<AudioRoute>>)
        requires
            self.wf(),
        ensures
            is_router_plan(self.graph().routes, self.devices(), plan),
    {
        let audio = self.audio_routes();
        if audio.len() == 0 {
            proof {
                let routes = self.graph().routes;
                let listed = choose|listed: Seq<Route>| #[trigger]
                    routing::lists_routes(listed, routes) && listed.len() == 0;
                assert(routes =~= Map::<Seq<char>, Route>::empty());
            }
            None
        } else {
            Some(audio)
        }
    }

    /// Tells whether a saved route starts or ends at the device with a unique name.
    pub(crate) fn is_referenced(&self, uid: &str) -> (referenced: bool)
        requires
            self.wf(),
        ensures
            referenced == references(self.saved(), self.devices(), uid@),
    {
        let listed = self.routes.values();
        let mut i: usize = 0;
        while i < listed.len()
            invariant
                self.wf(),
                listed@ == self.routes.entries(),
                i <= listed@.len(),
                forall|k: int|
                    0 <= k < i ==> !touches(self.devices(), (#[trigger] listed@[k])@, uid@),
            decreases listed.len() - i,
        {
            let route = &listed[i];
            let mut touched = false;
            if let Some(device) = self.endpoint_devices.get(route.source.as_str()) {
                if same_text(device.uid.as_str(), uid) {
                    touched = true;
                }
            }
            if let Some(device) = self.endpoint_devices.get(route.sink.as_str()) {
                if same_text(device.uid.as_str(), uid) {
                    touched = true;
                }
            }
            if touched {
                proof {
                    self.routes.lemma_entry(i as int);
                    assert(self.saved().contains_key(self.routes.names()[i as int]));
                }
                return true;
            }
            i = i + 1;
        }
        proof {
            if references(self.saved(), self.devices(), uid@) {
                let name = choose|name: Seq<char>| #[trigger]
                    self.saved().contains_key(name) && touches(
                        self.devices(),
                        self.saved()[name]@,
                        uid@,
                    );
                let k = self.routes.lemma_place(name);
                assert(!touches(self.devices(), listed@[k]@, uid@));
            }
        }
        false
    }
}

/// The route starts or ends at the device with a unique name.
pub open spec fn touches(
    devices: Map<Seq<char>, AudioDevice>,
    route: SavedRouteView,
    uid: Seq<char>,
) -> bool {
    ||| devices.contains_key(route.source) && devices[route.source].uid@ == uid
    ||| devices.contains_key(route.sink) && devices[route.sink].uid@ == uid
}

/// Some saved route starts or ends at the device with a unique name.
pub open spec fn references(
    routes: Map<Seq<char>, SavedRoute>,
    devices: Map<Seq<char>, AudioDevice>,
    uid: Seq<char>,
) -> bool {
    exists|name: Seq<char>| #[trigger]
        routes.contains_key(name) && touches(devices, routes[name]@, uid)
}

/// Lines with a line break between any two of them.
pub open spec fn join_lines(lines: Seq<Seq<char>>) -> Seq<char>
    decreases lines.len(),
{
    if lines.len() == 0 {
        Seq::empty()
    } else if lines.len() == 1 {
        lines[0]
    } else {
        join_lines(lines.drop_last()) + "\n"@ + lines.last()
    }
}

/// The line of the status that describes an endpoint.
pub open spec fn endpoint_line(endpoint: EndpointDescriptor) -> Seq<char> {
    "endpoint\t"@ + endpoint.id@ + "\t"@ + (match endpoint.direction {
        EndpointDirection::Source => "Source"@,
        EndpointDirection::Sink => "Sink"@,
    }) + "\t"@ + text::digits(endpoint.channels as nat) + "ch\t"@ + text::digits(
        endpoint.sample_rate as nat,
    ) + "Hz\t"@ + endpoint.clock_domain@
}

/// The line of the status that describes a route, with its gain in words.
pub open spec fn route_line(route: Route, gain: Seq<char>) -> Seq<char> {
    "route\t"@ + route.id@ + "\t"@ + route.source@ + "\t"@ + route.sink@ + "\t"@ + gain
}

/// The line of the status that tells what the router has counted.
pub open spec fn metrics_line(metrics: RouterMetrics) -> Seq<char> {
    "metrics\tunderruns="@ + text::digits(metrics.underruns as nat) + "\toverruns="@
        + text::digits(metrics.overruns as nat) + "\tformat_errors="@ + text::digits(
        metrics.format_errors as nat,
    )
}

/// The lines of the status: endpoints and routes in the order of their names, and what the router
/// has counted where it runs.
pub open spec fn status_lines(
    endpoints: Seq<EndpointDescriptor>,
    routes: Seq<Route>,
    gains: Seq<String>,
    metrics: Option<RouterMetrics>,
) -> Seq<Seq<char>> {
    Seq::new(endpoints.len(), |i: int| endpoint_line(endpoints[i])) + Seq::new(
        routes.len(),
        |i: int| route_line(routes[i], gains[i]@),
    ) + match metrics {
        Some(metrics) => seq![metrics_line(metrics)],
        None => Seq::empty(),
    }
}

/// The gains in words.
pub open spec fn are_gains<M: FloatMath>(routes: Seq<Route>, gains: Seq<String>) -> bool {
    &&& gains.len() == routes.len()
    &&& forall|i: int|
        0 <= i < routes.len() ==> call_ensures(
            M::six_decimals,
            (routes[i].gain,),
            #[trigger] gains[i],
        )
}

/// `status` describes the graph and what the router has counted.
pub open spec fn is_status<M: FloatMath>(
    graph: GraphView,
    metrics: Option<RouterMetrics>,
    status: Seq<char>,
) -> bool {
    exists|endpoints: Seq<EndpointDescriptor>, routes: Seq<Route>, gains: Seq<String>|
        {
            &&& #[trigger] routing::lists_endpoints(endpoints, graph.endpoints)
            &&& #[trigger] routing::lists_routes(routes, graph.routes)
            &&& #[trigger] are_gains::<M>(routes, gains)
            &&& status == join_lines(status_lines(endpoints, routes, gains, metrics))
        }
}

/// Joins lines with a line break between any two of them.
fn join_text(lines: &Vec<String>) -> (joined: String)
    ensures
        joined@ == join_lines(saved::texts(lines@)),
{
    let ghost all = saved::texts(lines@);
    let mut joined = String::new();
    let mut i: usize = 0;
    assert(all.take(0) =~= Seq::<Seq<char>>::empty());
    assert(joined@ =~= join_lines(all.take(0)));
    while i < lines.len()
        invariant
            i <= lines@.len(),
            all == saved::texts(lines@),
            joined@ == join_lines(all.take(i as int)),
        decreases lines.len() - i,
    {
        proof {
            assert(all.take(i + 1).drop_last() =~= all.take(i as int));
            assert(all.take(i + 1).last() == lines@[i as int]@);
        }
        if i > 0 {
            joined.append("\n");
        }
        joined.append(lines[i].as_str());
        i = i + 1;
        assert(joined@ =~= join_lines(all.take(i as int)));
    }
    assert(all.take(i as int) =~= all);
    joined
}

fn endpoint_text(endpoint: &EndpointDescriptor) -> (line: String)
    ensures
        line@ == endpoint_line(*endpoint),
{
    let mut line = joined("endpoint\t", endpoint.id.as_str());
    line.append("\t");
    line.append(
        match endpoint.direction {
            EndpointDirection::Source => "Source",
            EndpointDirection::Sink => "Sink",
        },
    );
    line.append("\t");
    line.append(digits_text(endpoint.channels as u64).as_str());
    line.append("ch\t");
    line.append(digits_text(endpoint.sample_rate as u64).as_str());
    line.append("Hz\t");
    line.append(endpoint.clock_domain.as_str());
    line
}

fn route_text(route: &Route, gain: &str) -> (line: String)
    ensures
        line@ == route_line(*route, gain@),
{
    let mut line = joined("route\t", route.id.as_str());
    line.append("\t");
    line.append(route.source.as_str());
    line.append("\t");
    line.append(route.sink.as_str());
    line.append("\t");
    line.append(gain);
    line
}

fn metrics_text(metrics: RouterMetrics) -> (line: String)
    ensures
        line@ == metrics_line(metrics),
{
    let mut line = joined("metrics\tunderruns=", digits_text(metrics.underruns).as_str());
    line.append("\toverruns=");
    line.append(digits_text(metrics.overruns).as_str());
    line.append("\tformat_errors=");
    line.append(digits_text(metrics.format_errors).as_str());
    line
}

impl DaemonState {
    /// Describes the graph, and what the router has counted where it runs.
    pub fn status<M: FloatMath>(&self, metrics: Option<RouterMetrics>) -> (status: String)
        requires
            self.wf(),
        ensures
            is_status::<M>(self.graph(), metrics, status@),
    {
        let endpoints = self.graph.endpoints();
        let routes = self.graph.routes();
        let mut lines: Vec<String> = Vec::new();
        let mut i: usize = 0;
        while i < endpoints.len()
            invariant
                i <= endpoints@.len(),
                lines@.len() == i,
                forall|k: int|
                    0 <= k < i ==> (#[trigger] lines@[k])@ == endpoint_line(endpoints@[k]),
            decreases endpoints.len() - i,
        {
            lines.push(endpoint_text(&endpoints[i]));
            i = i + 1;
        }
        let ghost count = lines@.len();
        let ghost mut gains: Seq<String> = Seq::empty();
        let mut j: usize = 0;
        while j < routes.len()
            invariant
                j <= routes@.len(),
                count == endpoints@.len(),
                lines@.len() == count + j,
                gains.len() == j,
                forall|k: int|
                    0 <= k < count ==> (#[trigger] lines@[k])@ == endpoint_line(endpoints@[k]),
                forall|k: int|
                    0 <= k < j ==> call_ensures(
                        M::six_decimals,
                        (routes@[k].gain,),
                        #[trigger] gains[k],
                    ),
                forall|k: int|
                    count <= k < count + j ==> (#[trigger] lines@[k])@ == route_line(
                        routes@[k - count],
                        gains[k - count]@,
                    ),
            decreases routes.len() - j,
        {
            let gain = M::six_decimals(routes[j].gain);
            lines.push(route_text(&routes[j], gain.as_str()));
            proof {
                gains = gains.push(gain);
            }
            j = j + 1;
        }
        if let Some(metrics) = metrics {
            lines.push(metrics_text(metrics));
        }
        proof {
            assert(are_gains::<M>(routes@, gains));
            assert(saved::texts(lines@) =~= status_lines(endpoints@, routes@, gains, metrics));
        }
        join_text(&lines)
    }
}

} // verus!
