//! How the daemon carries a request out: step by step, with work outside between the steps.
use vstd::prelude::*;
use vstd::string::StringExecFns;
use crate::daemon;
use crate::daemon::{validate_device_id, DaemonError, DaemonErrorView, DaemonState};
use crate::device;
use crate::device::{AudioDevice, AudioRoute, CoreAudioError, UID_PREFIX};
use crate::endpoints;
use crate::float::FloatMath;
use crate::graph::Route;
use crate::protocol::{Request, RequestView};
use crate::router::RouterMetrics;
use crate::routing;
use crate::routing::GraphView;
use crate::saved;
use crate::saved::{SavedRoute, SavedRouteView};
use crate::text;
use crate::text::joined;

verus! {

/// Work that is done outside.
#[derive(Debug, PartialEq)]
pub enum Action {
    CreateDevice {
        id: String,
        name: String,
        input_channels: u32,
        output_channels: u32,
        sample_rate: u32,
    },
    DeleteDevice { id: String },
    ListDevices,
    SaveRoutes(Vec<String>),
    /// Stops the router, and starts it anew with the routes that are given.
    RestartRouter(Option<Vec<AudioRoute>>),
    StopRouter,
}

/// What work outside has given.
#[derive(Debug, PartialEq)]
pub enum Event {
    DeviceChanged(Result<(), CoreAudioError>),
    Devices(Result<Vec<AudioDevice>, CoreAudioError>),
    Saved(Result<(), DaemonError>),
    RouterRestarted(Result<(), CoreAudioError>),
    RouterStopped,
}

/// What is to be done once work outside is done.
#[derive(Debug, PartialEq)]
pub enum Task {
    Shutdown,
    Create { id: String },
    CreateList { id: String },
    Delete { id: String },
    DeleteList { id: String },
    ConnectSave { id: String },
    ConnectRouter { id: String },
    DisconnectSave { previous: SavedRoute },
    DisconnectList { previous: SavedRoute },
    DisconnectRouter { previous: SavedRoute },
    UndoSave { error: DaemonError },
    UndoList { error: DaemonError },
    UndoRouter { error: DaemonError },
}

/// What comes next: an answer, or work outside.
#[derive(Debug, PartialEq)]
pub enum Step {
    Reply(Result<String, DaemonError>),
    Ask(Action, Task),
}

impl Task {
    /// The event is of the kind that the task waits for.
    pub open spec fn awaits(self, event: Event) -> bool {
        match self {
            Task::Shutdown => event is RouterStopped,
            Task::Create { .. } | Task::Delete { .. } => event is DeviceChanged,
            Task::CreateList { .. } | Task::DeleteList { .. } | Task::DisconnectList { .. }
            | Task::UndoList { .. } => event is Devices,
            Task::ConnectSave { .. } | Task::DisconnectSave { .. } | Task::UndoSave { .. } => {
                event is Saved
            },
            Task::ConnectRouter { .. } | Task::DisconnectRouter { .. } | Task::UndoRouter {
                ..
            } => { event is RouterRestarted },
        }
    }
}

impl Task {
    /// How often work outside is done at most before the request is answered, counting that which
    /// the task waits for.
    pub open spec fn remaining(self) -> nat {
        match self {
            Task::Shutdown | Task::CreateList { .. } | Task::DeleteList { .. } | Task::UndoRouter {
                ..
            } => 1,
            Task::Create { .. } | Task::Delete { .. } | Task::UndoList { .. } => 2,
            Task::UndoSave { .. } => 3,
            Task::ConnectRouter { .. } | Task::DisconnectRouter { .. } => 4,
            Task::ConnectSave { .. } | Task::DisconnectList { .. } => 5,
            Task::DisconnectSave { .. } => 6,
        }
    }
}

impl Action {
    /// The event is of the kind that the action gives.
    pub open spec fn gives(self, event: Event) -> bool {
        match self {
            Action::CreateDevice { .. } | Action::DeleteDevice { .. } => event is DeviceChanged,
            Action::ListDevices => event is Devices,
            Action::SaveRoutes(_) => event is Saved,
            Action::RestartRouter(_) => event is RouterRestarted,
            Action::StopRouter => event is RouterStopped,
        }
    }
}

/// A task waits for what its action gives.
pub open spec fn is_answerable(step: Step) -> bool {
    step matches Step::Ask(action, task) ==> forall|event: Event| #[trigger]
        action.gives(event) ==> task.awaits(event)
}

/// The states agree.
pub open spec fn unchanged(before: DaemonState, after: DaemonState) -> bool {
    &&& after.graph() == before.graph()
    &&& after.saved() == before.saved()
    &&& after.devices() == before.devices()
    &&& after.listed() == before.listed()
}

/// The states agree but for the saved routes.
pub open spec fn saves(
    before: DaemonState,
    routes: Map<Seq<char>, SavedRoute>,
    after: DaemonState,
) -> bool {
    &&& after.graph() == before.graph()
    &&& after.devices() == before.devices()
    &&& after.saved() == routes
}

/// The step answers that all went well.
pub open spec fn replies(step: Step, message: Seq<char>) -> bool {
    step matches Step::Reply(Ok(text)) && text@ == message
}

/// The step answers with an error.
pub open spec fn fails(step: Step, error: DaemonErrorView) -> bool {
    step matches Step::Reply(Err(failure)) && failure@ == error
}

/// The step asks for the routes to be saved as they are, and the rest is `task`.
pub open spec fn asks_to_save(step: Step, state: DaemonState, task: spec_fn(Task) -> bool) -> bool {
    step matches Step::Ask(Action::SaveRoutes(lines), next) && saved::texts(lines@)
        == saved::saved_lines(state.listed()) && task(next)
}

/// The step asks for the devices to be listed, and the rest is `task`.
pub open spec fn asks_to_list(step: Step, task: spec_fn(Task) -> bool) -> bool {
    step matches Step::Ask(Action::ListDevices, next) && task(next)
}

/// The step asks for the router to be restarted with the routes of the graph, and the rest is
/// `task`.
pub open spec fn asks_to_route(
    step: Step,
    state: DaemonState,
    task: spec_fn(Task) -> bool,
) -> bool {
    step matches Step::Ask(Action::RestartRouter(plan), next) && daemon::is_router_plan(
        state.graph().routes,
        state.devices(),
        plan,
    ) && task(next)
}

/// What a request for a route does first.
///
/// A route that cannot be built, or that the graph refuses, changes nothing. Where a route was saved
/// under the name and the graph does not know it, the new one takes its place and the request fails.
pub open spec fn begins_connect<M: FloatMath>(
    before: DaemonState,
    route: SavedRouteView,
    after: DaemonState,
    step: Step,
) -> bool {
    ||| exists|error: DaemonErrorView|
        {
            &&& #[trigger] daemon::builds::<M>(before.graph(), route, Err(error))
            &&& unchanged(before, after)
            &&& fails(step, error)
        }
    ||| exists|built: Route|
        {
            &&& #[trigger] daemon::builds::<M>(before.graph(), route, Ok(built))
            &&& match before.graph().route_refusal(built) {
                Some(refusal) => unchanged(before, after) && fails(
                    step,
                    DaemonErrorView::Graph(refusal),
                ),
                None => connects::<M>(before, route, built, after, step),
            }
        }
}

/// What a request does for a route that the graph accepts.
pub open spec fn connects<M: FloatMath>(
    before: DaemonState,
    route: SavedRouteView,
    built: Route,
    after: DaemonState,
    step: Step,
) -> bool {
    let graph = before.graph().with_route(built);
    &&& after.devices() == before.devices()
    &&& after.saved().contains_key(route.id)
    &&& after.saved()[route.id]@ == route
    &&& after.saved() == before.saved().insert(route.id, after.saved()[route.id])
    &&& if before.saved().contains_key(route.id) {
        exists|error: Option<DaemonErrorView>|
            {
                &&& #[trigger] daemon::restores::<M>(graph, after.listed(), after.graph(), error)
                &&& fails(
                    step,
                    match error {
                        Some(error) => error,
                        None => DaemonErrorView::RouteExists(route.id),
                    },
                )
            }
    } else {
        &&& after.graph() == graph
        &&& asks_to_save(
            step,
            after,
            |task: Task| task matches Task::ConnectSave { id } && id@ == route.id,
        )
    }
}

/// What a request does first.
pub open spec fn handles<M: FloatMath>(
    before: DaemonState,
    request: RequestView,
    metrics: Option<RouterMetrics>,
    after: DaemonState,
    step: Step,
) -> bool {
    match request {
        RequestView::Ping => unchanged(before, after) && replies(step, "pong"@),
        RequestView::Status => {
            &&& unchanged(before, after)
            &&& step matches Step::Reply(Ok(status)) && daemon::is_status::<M>(
                before.graph(),
                metrics,
                status@,
            )
        },
        RequestView::Shutdown => {
            &&& unchanged(before, after)
            &&& step == Step::Ask(Action::StopRouter, Task::Shutdown)
        },
        RequestView::CreateDevice { id, name, input_channels, output_channels, sample_rate } => {
            &&& unchanged(before, after)
            &&& if !endpoints::is_device_id(id) {
                fails(step, DaemonErrorView::InvalidDeviceId(id))
            } else {
                step matches Step::Ask(
                    Action::CreateDevice {
                        id: device_id,
                        name: device_name,
                        input_channels: inputs,
                        output_channels: outputs,
                        sample_rate: rate,
                    },
                    Task::Create { id: created },
                ) && {
                    &&& device_id@ == id
                    &&& device_name@ == name
                    &&& inputs == input_channels
                    &&& outputs == output_channels
                    &&& rate == sample_rate
                    &&& created@ == id
                }
            }
        },
        RequestView::DeleteDevice { id } => {
            &&& unchanged(before, after)
            &&& if !endpoints::is_device_id(id) {
                fails(step, DaemonErrorView::InvalidDeviceId(id))
            } else if daemon::references(before.saved(), before.devices(), UID_PREFIX@ + id) {
                fails(step, DaemonErrorView::DeviceInUse(id))
            } else {
                step matches Step::Ask(
                    Action::DeleteDevice { id: device_id },
                    Task::Delete { id: deleted },
                ) && device_id@ == id && deleted@ == id
            }
        },
        RequestView::Connect { id, source, sink, gain_millidb, matrix_millionths } => {
            begins_connect::<M>(
                before,
                SavedRouteView { id, source, sink, gain_millidb, matrix_millionths },
                after,
                step,
            )
        },
        RequestView::Disconnect { id } => if before.saved().contains_key(id) {
            &&& saves(before, before.saved().remove(id), after)
            &&& asks_to_save(
                step,
                after,
                |task: Task|
                    task == Task::DisconnectSave { previous: before.saved()[id] },
            )
        } else {
            unchanged(before, after) && fails(step, DaemonErrorView::RouteNotFound(id))
        },
    }
}

/// What taking the endpoints anew and adding the saved routes to them does.
pub open spec fn rebuilds<M: FloatMath>(
    before: DaemonState,
    listing: Result<Vec<AudioDevice>, CoreAudioError>,
    after: DaemonState,
    error: Option<DaemonErrorView>,
) -> bool {
    &&& after.saved() == before.saved()
    &&& after.listed() == before.listed()
    &&& {
        ||| error is Some && daemon::refreshes(
            before.graph(),
            before.devices(),
            listing,
            after.graph(),
            after.devices(),
            error,
        )
        ||| exists|fresh: GraphView|
            {
                &&& #[trigger] daemon::refreshes(
                    before.graph(),
                    before.devices(),
                    listing,
                    fresh,
                    after.devices(),
                    None,
                )
                &&& daemon::restores::<M>(fresh, after.listed(), after.graph(), error)
            }
    }
}

/// The devices were listed for a task: the endpoints are taken anew, and `next` comes where that
/// goes well.
pub open spec fn relists<M: FloatMath>(
    before: DaemonState,
    listing: Result<Vec<AudioDevice>, CoreAudioError>,
    after: DaemonState,
    step: Step,
    next: spec_fn(Step) -> bool,
) -> bool {
    exists|error: Option<DaemonErrorView>|
        {
            &&& #[trigger] rebuilds::<M>(before, listing, after, error)
            &&& match error {
                Some(error) => fails(step, error),
                None => next(step),
            }
        }
}

/// What comes once work outside is done.
pub open spec fn resumes<M: FloatMath>(
    before: DaemonState,
    task: Task,
    event: Event,
    after: DaemonState,
    step: Step,
) -> bool {
    match (task, event) {
        (Task::Shutdown, Event::RouterStopped) => {
            unchanged(before, after) && replies(step, "shutting down"@)
        },
        (Task::Create { id }, Event::DeviceChanged(result)) => {
            &&& unchanged(before, after)
            &&& match result {
                Ok(()) => asks_to_list(step, |next: Task| next == Task::CreateList { id }),
                Err(error) => fails(step, DaemonErrorView::CoreAudio(error@)),
            }
        },
        (Task::CreateList { id }, Event::Devices(listing)) => relists::<M>(
            before,
            listing,
            after,
            step,
            |step: Step| replies(step, "created "@ + id@),
        ),
        (Task::Delete { id }, Event::DeviceChanged(result)) => {
            &&& unchanged(before, after)
            &&& match result {
                Ok(()) => asks_to_list(step, |next: Task| next == Task::DeleteList { id }),
                Err(error) => fails(step, DaemonErrorView::CoreAudio(error@)),
            }
        },
        (Task::DeleteList { id }, Event::Devices(listing)) => relists::<M>(
            before,
            listing,
            after,
            step,
            |step: Step| replies(step, "deleted "@ + id@),
        ),
        (Task::ConnectSave { id }, Event::Saved(result)) => match result {
            Ok(()) => {
                &&& unchanged(before, after)
                &&& asks_to_route(step, after, |next: Task| next == Task::ConnectRouter { id })
            },
            Err(failure) => {
                &&& after.saved() == before.saved().remove(id@)
                &&& after.devices() == before.devices()
                &&& exists|error: Option<DaemonErrorView>|
                    {
                        &&& #[trigger] daemon::restores::<M>(
                            before.graph(),
                            after.listed(),
                            after.graph(),
                            error,
                        )
                        &&& fails(
                            step,
                            match error {
                                Some(error) => error,
                                None => failure@,
                            },
                        )
                    }
            },
        },
        (Task::ConnectRouter { id }, Event::RouterRestarted(result)) => match result {
            Ok(()) => unchanged(before, after) && replies(step, "connected "@ + id@),
            Err(failure) => {
                &&& saves(before, before.saved().remove(id@), after)
                &&& asks_to_save(
                    step,
                    after,
                    |next: Task|
                        next == Task::UndoSave { error: DaemonError::CoreAudio(failure) },
                )
            },
        },
        (Task::DisconnectSave { previous }, Event::Saved(result)) => match result {
            Ok(()) => {
                &&& unchanged(before, after)
                &&& asks_to_list(step, |next: Task| next == Task::DisconnectList { previous })
            },
            Err(failure) => {
                &&& saves(before, before.saved().insert(previous@.id, previous), after)
                &&& fails(step, failure@)
            },
        },
        (Task::DisconnectList { previous }, Event::Devices(listing)) => relists::<M>(
            before,
            listing,
            after,
            step,
            |step: Step|
                asks_to_route(
                    step,
                    after,
                    |next: Task| next == Task::DisconnectRouter { previous },
                ),
        ),
        (Task::DisconnectRouter { previous }, Event::RouterRestarted(result)) => match result {
            Ok(()) => unchanged(before, after) && replies(step, "disconnected "@ + previous@.id),
            Err(failure) => {
                &&& saves(before, before.saved().insert(previous@.id, previous), after)
                &&& asks_to_save(
                    step,
                    after,
                    |next: Task|
                        next == Task::UndoSave { error: DaemonError::CoreAudio(failure) },
                )
            },
        },
        (Task::UndoSave { error }, Event::Saved(result)) => {
            &&& unchanged(before, after)
            &&& match result {
                Ok(()) => asks_to_list(step, |next: Task| next == Task::UndoList { error }),
                Err(failure) => fails(step, failure@),
            }
        },
        (Task::UndoList { error }, Event::Devices(listing)) => relists::<M>(
            before,
            listing,
            after,
            step,
            |step: Step|
                asks_to_route(step, after, |next: Task| next == Task::UndoRouter { error }),
        ),
        (Task::UndoRouter { error }, Event::RouterRestarted(result)) => {
            &&& unchanged(before, after)
            &&& fails(
                step,
                match result {
                    Ok(()) => error@,
                    Err(failure) => DaemonErrorView::CoreAudio(failure@),
                },
            )
        },
        _ => true,
    }
}

impl DaemonState {
    /// Starts to carry a request out. `metrics` is what the router has counted, where it runs.
    pub fn handle<M: FloatMath>(&mut self, request: Request, metrics: Option<RouterMetrics>) -> (step:
        Step)
        requires
            old(self).wf(),
        ensures
            final(self).wf(),
            is_answerable(step),
            handles::<M>(*old(self), request@, metrics, *final(self), step),
    {
        match request {
            Request::Ping => Step::Reply(Ok("pong".to_owned())),
            Request::Status => Step::Reply(Ok(self.status::<M>(metrics))),
            Request::Shutdown => Step::Ask(Action::StopRouter, Task::Shutdown),
            Request::CreateDevice { id, name, input_channels, output_channels, sample_rate } => {
                if let Err(error) = validate_device_id(id.as_str()) {
                    return Step::Reply(Err(error));
                }
                let task = Task::Create { id: id.clone() };
                Step::Ask(
                    Action::CreateDevice { id, name, input_channels, output_channels, sample_rate },
                    task,
                )
            },
            Request::DeleteDevice { id } => {
                if let Err(error) = validate_device_id(id.as_str()) {
                    return Step::Reply(Err(error));
                }
                let node = joined(UID_PREFIX, id.as_str());
                if self.is_referenced(node.as_str()) {
                    return Step::Reply(Err(DaemonError::DeviceInUse(id)));
                }
                let task = Task::Delete { id: id.clone() };
                Step::Ask(Action::DeleteDevice { id }, task)
            },
            Request::Connect { id, source, sink, gain_millidb, matrix_millionths } => {
                let route = SavedRoute { id, source, sink, gain_millidb, matrix_millionths };
                self.begin_connect::<M>(route)
            },
            Request::Disconnect { id } => {
                match self.forget(id.as_str()) {
                    Some(previous) => {
                        Step::Ask(
                            Action::SaveRoutes(self.save_routes()),
                            Task::DisconnectSave { previous },
                        )
                    },
                    None => {
                        assert(self.saved() =~= old(self).saved());
                        Step::Reply(Err(DaemonError::RouteNotFound(id)))
                    },
                }
            },
        }
    }

    /// Starts to connect a route.
    fn begin_connect<M: FloatMath>(&mut self, route: SavedRoute) -> (step: Step)
        requires
            old(self).wf(),
        ensures
            final(self).wf(),
            is_answerable(step),
            begins_connect::<M>(*old(self), route@, *final(self), step),
    {
        let ghost before = *self;
        let built = match self.build_route::<M>(&route) {
            Ok(built) => built,
            Err(error) => {
                assert(daemon::builds::<M>(before.graph(), route@, Err(error@)));
                return Step::Reply(Err(error));
            },
        };
        assert(daemon::builds::<M>(before.graph(), route@, Ok(built)));
        if let Err(error) = self.add_route(built) {
            return Step::Reply(Err(DaemonError::Graph(error)));
        }
        let id = route.id.clone();
        let ghost kept = route;
        if self.remember(route) {
            let ghost middle = self.graph();
            let restored = self.restore_routes::<M>();
            assert(daemon::restores::<M>(
                middle,
                self.listed(),
                self.graph(),
                daemon::failure(restored),
            ));
            if let Err(error) = restored {
                let step = Step::Reply(Err(error));
                assert(connects::<M>(before, kept@, built, *self, step));
                return step;
            }
            let step = Step::Reply(Err(DaemonError::RouteExists(id)));
            assert(connects::<M>(before, kept@, built, *self, step));
            return step;
        }
        let step = Step::Ask(Action::SaveRoutes(self.save_routes()), Task::ConnectSave { id });
        assert(connects::<M>(before, kept@, built, *self, step));
        step
    }

    /// Takes the endpoints anew, and adds the saved routes to them.
    fn rebuild<M: FloatMath>(&mut self, listing: Result<Vec<AudioDevice>, CoreAudioError>) -> (result:
        Result<(), DaemonError>)
        requires
            old(self).wf(),
        ensures
            final(self).wf(),
            rebuilds::<M>(*old(self), listing, *final(self), daemon::failure(result)),
    {
        let refreshed = self.refresh_endpoints(listing);
        if refreshed.is_err() {
            return refreshed;
        }
        let ghost fresh = self.graph();
        assert(daemon::refreshes(
            old(self).graph(),
            old(self).devices(),
            listing,
            fresh,
            self.devices(),
            None,
        ));
        self.restore_routes::<M>()
    }

    /// Goes on with a request once work outside is done.
    pub fn resume<M: FloatMath>(&mut self, task: Task, event: Event) -> (step: Step)
        requires
            old(self).wf(),
            task.awaits(event),
        ensures
            final(self).wf(),
            is_answerable(step),
            resumes::<M>(*old(self), task, event, *final(self), step),
    {
        match (task, event) {
            (Task::Shutdown, Event::RouterStopped) => {
                Step::Reply(Ok("shutting down".to_owned()))
            },
            (Task::Create { id }, Event::DeviceChanged(result)) => match result {
                Ok(()) => Step::Ask(Action::ListDevices, Task::CreateList { id }),
                Err(error) => Step::Reply(Err(DaemonError::CoreAudio(error))),
            },
            (Task::CreateList { id }, Event::Devices(listing)) => {
                match self.rebuild::<M>(listing) {
                    Ok(()) => Step::Reply(Ok(joined("created ", id.as_str()))),
                    Err(error) => Step::Reply(Err(error)),
                }
            },
            (Task::Delete { id }, Event::DeviceChanged(result)) => match result {
                Ok(()) => Step::Ask(Action::ListDevices, Task::DeleteList { id }),
                Err(error) => Step::Reply(Err(DaemonError::CoreAudio(error))),
            },
            (Task::DeleteList { id }, Event::Devices(listing)) => {
                match self.rebuild::<M>(listing) {
                    Ok(()) => Step::Reply(Ok(joined("deleted ", id.as_str()))),
                    Err(error) => Step::Reply(Err(error)),
                }
            },
            (Task::ConnectSave { id }, Event::Saved(result)) => match result {
                Ok(()) => Step::Ask(
                    Action::RestartRouter(self.restart_router()),
                    Task::ConnectRouter { id },
                ),
                Err(failure) => {
                    let _ = self.forget(id.as_str());
                    let restored = self.restore_routes::<M>();
                    assert(daemon::restores::<M>(
                        old(self).graph(),
                        self.listed(),
                        self.graph(),
                        daemon::failure(restored),
                    ));
                    match restored {
                        Ok(()) => Step::Reply(Err(failure)),
                        Err(error) => Step::Reply(Err(error)),
                    }
                },
            },
            (Task::ConnectRouter { id }, Event::RouterRestarted(result)) => match result {
                Ok(()) => Step::Reply(Ok(joined("connected ", id.as_str()))),
                Err(failure) => {
                    let _ = self.forget(id.as_str());
                    Step::Ask(
                        Action::SaveRoutes(self.save_routes()),
                        Task::UndoSave { error: DaemonError::CoreAudio(failure) },
                    )
                },
            },
            (Task::DisconnectSave { previous }, Event::Saved(result)) => match result {
                Ok(()) => Step::Ask(Action::ListDevices, Task::DisconnectList { previous }),
                Err(failure) => {
                    self.remember(previous);
                    Step::Reply(Err(failure))
                },
            },
            (Task::DisconnectList { previous }, Event::Devices(listing)) => {
                match self.rebuild::<M>(listing) {
                    Ok(()) => Step::Ask(
                        Action::RestartRouter(self.restart_router()),
                        Task::DisconnectRouter { previous },
                    ),
                    Err(error) => Step::Reply(Err(error)),
                }
            },
            (Task::DisconnectRouter { previous }, Event::RouterRestarted(result)) => match result {
                Ok(()) => Step::Reply(Ok(joined("disconnected ", previous.id.as_str()))),
                Err(failure) => {
                    self.remember(previous);
                    Step::Ask(
                        Action::SaveRoutes(self.save_routes()),
                        Task::UndoSave { error: DaemonError::CoreAudio(failure) },
                    )
                },
            },
            (Task::UndoSave { error }, Event::Saved(result)) => match result {
                Ok(()) => Step::Ask(Action::ListDevices, Task::UndoList { error }),
                Err(failure) => Step::Reply(Err(failure)),
            },
            (Task::UndoList { error }, Event::Devices(listing)) => {
                match self.rebuild::<M>(listing) {
                    Ok(()) => Step::Ask(
                        Action::RestartRouter(self.restart_router()),
                        Task::UndoRouter { error },
                    ),
                    Err(failure) => Step::Reply(Err(failure)),
                }
            },
            (Task::UndoRouter { error }, Event::RouterRestarted(result)) => match result {
                Ok(()) => Step::Reply(Err(error)),
                Err(failure) => Step::Reply(Err(DaemonError::CoreAudio(failure))),
            },
            _ => Step::Reply(Ok(String::new())),
        }
    }
}

/// A route that cannot be written down, or with which the router does not start, is not kept among
/// the saved routes.
pub proof fn failed_connections_are_not_kept<M: FloatMath>(
    before: DaemonState,
    route: SavedRouteView,
    middle: DaemonState,
    asked: Step,
    task: Task,
    event: Event,
    after: DaemonState,
    step: Step,
)
    requires
        begins_connect::<M>(before, route, middle, asked),
        asked is Ask,
        ({
            ||| (task matches Task::ConnectSave { id } && id@ == route.id && event
                matches Event::Saved(Err(_)))
            ||| (task matches Task::ConnectRouter { id } && id@ == route.id && event
                matches Event::RouterRestarted(Err(_)))
        }),
        resumes::<M>(middle, task, event, after, step),
    ensures
        after.saved() == before.saved(),
{
    assert(middle.saved().remove(route.id) =~= before.saved());
}

/// A route whose removal cannot be written down, or without which the router does not start, stays
/// among the saved routes.
pub proof fn failed_disconnections_keep_the_route<M: FloatMath>(
    before: DaemonState,
    id: Seq<char>,
    event: Event,
    task: Task,
    middle: DaemonState,
    after: DaemonState,
    step: Step,
)
    requires
        before.wf(),
        before.saved().contains_key(id),
        middle.saved() == before.saved().remove(id),
        ({
            let previous = before.saved()[id];
            ||| task == (Task::DisconnectSave { previous }) && event matches Event::Saved(Err(_))
            ||| task == (Task::DisconnectRouter { previous }) && event
                matches Event::RouterRestarted(Err(_))
        }),
        resumes::<M>(middle, task, event, after, step),
    ensures
        after.saved() == before.saved(),
{
    before.parts_fit_together();
    assert(before.saved()[id]@.id == id);
    assert(middle.saved().insert(id, before.saved()[id]) =~= before.saved());
}

/// Every request is answered: each time work outside is done, less of it remains to be asked for.
pub proof fn requests_are_answered<M: FloatMath>(
    before: DaemonState,
    task: Task,
    event: Event,
    after: DaemonState,
    step: Step,
)
    requires
        task.awaits(event),
        resumes::<M>(before, task, event, after, step),
    ensures
        step matches Step::Ask(_, next) ==> next.remaining() < task.remaining(),
        task.remaining() == 1 ==> step is Reply,
{
}

/// A device at which a saved route starts or ends is not deleted.
pub proof fn devices_in_use_are_not_deleted<M: FloatMath>(
    before: DaemonState,
    id: Seq<char>,
    metrics: Option<RouterMetrics>,
    after: DaemonState,
    step: Step,
)
    requires
        daemon::references(before.saved(), before.devices(), UID_PREFIX@ + id),
        handles::<M>(before, RequestView::DeleteDevice { id }, metrics, after, step),
    ensures
        step matches Step::Reply(Err(_)),
        unchanged(before, after),
{
}

/// Adding saved routes to a graph without feedback makes none.
proof fn lemma_restored<M: FloatMath>(
    before: GraphView,
    saved: Seq<SavedRouteView>,
    n: nat,
    after: GraphView,
)
    requires
        before.free_of_feedback(),
        daemon::restored::<M>(before, saved, n, after),
    ensures
        after.free_of_feedback(),
    decreases n,
{
    if n > 0 {
        let (middle, route) = choose|middle: GraphView, route: Route|
            {
                &&& daemon::restored::<M>(before, saved, (n - 1) as nat, middle)
                &&& daemon::builds::<M>(middle, saved[n - 1], Ok(route))
                &&& middle.route_refusal(route) is None
                &&& after == #[trigger] middle.with_route(route)
            };
        lemma_restored::<M>(before, saved, (n - 1) as nat, middle);
        routing::accepted_routes_make_no_feedback(middle, route);
    }
}

/// Adding saved routes to a graph without feedback makes none, whether or not one is refused.
proof fn lemma_restores<M: FloatMath>(
    before: GraphView,
    saved: Seq<SavedRouteView>,
    after: GraphView,
    error: Option<DaemonErrorView>,
)
    requires
        before.free_of_feedback(),
        daemon::restores::<M>(before, saved, after, error),
    ensures
        after.free_of_feedback(),
{
    match error {
        None => {
            lemma_restored::<M>(before, saved, saved.len(), after);
        },
        Some(error) => {
            let n = choose|n: nat|
                {
                    &&& n < saved.len()
                    &&& #[trigger] daemon::restored::<M>(before, saved, n, after)
                    &&& daemon::is_refused::<M>(after, saved[n as int], error)
                };
            lemma_restored::<M>(before, saved, n, after);
        },
    }
}

proof fn lemma_rebuilds<M: FloatMath>(
    before: DaemonState,
    listing: Result<Vec<AudioDevice>, CoreAudioError>,
    after: DaemonState,
    error: Option<DaemonErrorView>,
)
    requires
        before.graph().free_of_feedback(),
        rebuilds::<M>(before, listing, after, error),
    ensures
        after.graph().free_of_feedback(),
{
    let kept = error is Some && daemon::refreshes(
        before.graph(),
        before.devices(),
        listing,
        after.graph(),
        after.devices(),
        error,
    );
    if !kept {
        let fresh = choose|fresh: GraphView|
            {
                &&& #[trigger] daemon::refreshes(
                    before.graph(),
                    before.devices(),
                    listing,
                    fresh,
                    after.devices(),
                    None,
                )
                &&& daemon::restores::<M>(fresh, after.listed(), after.graph(), error)
            };
        routing::graphs_without_routes_have_no_feedback(fresh);
        lemma_restores::<M>(fresh, after.listed(), after.graph(), error);
    }
}

/// No request makes a node's audio come back to it.
pub proof fn requests_make_no_feedback<M: FloatMath>(
    before: DaemonState,
    request: RequestView,
    metrics: Option<RouterMetrics>,
    after: DaemonState,
    step: Step,
)
    requires
        before.graph().free_of_feedback(),
        handles::<M>(before, request, metrics, after, step),
    ensures
        after.graph().free_of_feedback(),
{
    if let RequestView::Connect { id, source, sink, gain_millidb, matrix_millionths } = request {
        let route = SavedRouteView { id, source, sink, gain_millidb, matrix_millionths };
        if !unchanged(before, after) {
            let built = choose|built: Route|
                {
                    &&& #[trigger] daemon::builds::<M>(before.graph(), route, Ok(built))
                    &&& match before.graph().route_refusal(built) {
                        Some(refusal) => unchanged(before, after) && fails(
                            step,
                            DaemonErrorView::Graph(refusal),
                        ),
                        None => connects::<M>(before, route, built, after, step),
                    }
                };
            routing::accepted_routes_make_no_feedback(before.graph(), built);
            let graph = before.graph().with_route(built);
            if before.saved().contains_key(route.id) {
                let error = choose|error: Option<DaemonErrorView>|
                    {
                        &&& #[trigger] daemon::restores::<M>(
                            graph,
                            after.listed(),
                            after.graph(),
                            error,
                        )
                        &&& fails(
                            step,
                            match error {
                                Some(error) => error,
                                None => DaemonErrorView::RouteExists(route.id),
                            },
                        )
                    };
                lemma_restores::<M>(graph, after.listed(), after.graph(), error);
            }
        }
    }
}

/// Nothing that is done after work outside makes a node's audio come back to it.
pub proof fn later_steps_make_no_feedback<M: FloatMath>(
    before: DaemonState,
    task: Task,
    event: Event,
    after: DaemonState,
    step: Step,
)
    requires
        before.graph().free_of_feedback(),
        task.awaits(event),
        resumes::<M>(before, task, event, after, step),
    ensures
        after.graph().free_of_feedback(),
{
    match (task, event) {
        (Task::ConnectSave { id }, Event::Saved(Err(failure))) => {
            let error = choose|error: Option<DaemonErrorView>|
                {
                    &&& #[trigger] daemon::restores::<M>(
                        before.graph(),
                        after.listed(),
                        after.graph(),
                        error,
                    )
                    &&& fails(
                        step,
                        match error {
                            Some(error) => error,
                            None => failure@,
                        },
                    )
                };
            lemma_restores::<M>(before.graph(), after.listed(), after.graph(), error);
        },
        (_, Event::Devices(listing)) => {
            assert(exists|error: Option<DaemonErrorView>|
                #[trigger] rebuilds::<M>(before, listing, after, error));
            let error = choose|error: Option<DaemonErrorView>|
                #[trigger] rebuilds::<M>(before, listing, after, error);
            lemma_rebuilds::<M>(before, listing, after, error);
        },
        _ => {},
    }
}

} // verus!
