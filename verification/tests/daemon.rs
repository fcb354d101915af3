use vcable::daemon::validate_device_id;
use vcable::endpoints::endpoint_id;
use vcable::{
    respond, Action, AudioDevice, CoreAudioError, DaemonError, DaemonState, Event, Float32, Float64,
    FloatMath, GraphError, MatrixError, Request, Response, RouterMetrics, Step, Task,
};

struct Hardware;

fn sample(value: f32) -> Float32 {
    Float32 { bits: value.to_bits() }
}

fn value(sample: Float32) -> f32 {
    f32::from_bits(sample.bits)
}

fn double(value: f64) -> Float64 {
    Float64 { bits: value.to_bits() }
}

fn wide(value: Float64) -> f64 {
    f64::from_bits(value.bits)
}

fn values(samples: &[Float32]) -> Vec<f32> {
    samples.iter().map(|sample| value(*sample)).collect()
}

impl FloatMath for Hardware {
    fn empty_sum() -> Float32 {
        sample(std::iter::empty::<f32>().sum())
    }

    fn add(left: Float32, right: Float32) -> Float32 {
        sample(value(left) + value(right))
    }

    fn mul(left: Float32, right: Float32) -> Float32 {
        sample(value(left) * value(right))
    }

    fn interpolate(current: Float32, next: Float32, phase: Float64) -> Float32 {
        let (current, next) = (value(current), value(next));
        sample(current + (next - current) * wide(phase) as f32)
    }

    fn rate_ratio(numerator: u32, denominator: u32) -> Float64 {
        double(f64::from(numerator) / f64::from(denominator))
    }

    fn whole_hertz(rate: Float64) -> u32 {
        wide(rate).round() as u32
    }

    fn parts_per_million(ppm: u32) -> Float64 {
        double(f64::from(ppm) / 1_000_000.0)
    }

    fn drift_correction(fill: usize, target: usize, span: usize, limit: Float64) -> Float64 {
        let limit = wide(limit);
        let error = fill as f64 - target as f64;
        double((error / span as f64 * limit).clamp(-limit, limit))
    }

    fn fill_correction(available: usize, startup: usize) -> Float64 {
        let target = startup as f64;
        let error = (available as f64 - target) / target;
        double((error * 0.0005).clamp(-0.001, 0.001))
    }

    fn advance_phase(phase: Float64, step: Float64, correction: Float64) -> Float64 {
        double(wide(phase) + wide(step) * (1.0 + wide(correction)))
    }

    fn has_whole_frame(phase: Float64) -> bool {
        wide(phase) >= 1.0
    }

    fn without_whole_frame(phase: Float64) -> Float64 {
        double(wide(phase) - 1.0)
    }

    fn coefficient(millionths: i32) -> Float32 {
        sample(millionths as f32 / 1_000_000.0)
    }

    fn gain(millidb: i32) -> Float32 {
        let gain_db = millidb as f32 / 1_000.0;
        sample(10.0_f32.powf(gain_db / 20.0))
    }

    fn six_decimals(gain: Float32) -> String {
        format!("{:.6}", value(gain))
    }
}

fn device(object_id: u32, uid: &str, is_virtual: bool) -> AudioDevice {
    AudioDevice {
        object_id,
        uid: uid.to_owned(),
        name: String::new(),
        input_channels: 2,
        output_channels: 2,
        sample_rate: 48_000,
        is_vcable: is_virtual,
        is_virtual,
    }
}

fn devices() -> Vec<AudioDevice> {
    vec![
        device(1, "dev.vcable.device.a", true),
        device(2, "dev.vcable.device.b", true),
        device(3, "Built In", false),
    ]
}

const A_IN: &str = "audio:dev.vcable.device.a:input";
const A_OUT: &str = "audio:dev.vcable.device.a:output";
const B_IN: &str = "audio:dev.vcable.device.b:input";
const B_OUT: &str = "audio:dev.vcable.device.b:output";

fn connect(id: &str, source: &str, sink: &str, matrix: &[i32]) -> Request {
    Request::Connect {
        id: id.to_owned(),
        source: source.to_owned(),
        sink: sink.to_owned(),
        gain_millidb: -20_000,
        matrix_millionths: matrix.to_vec(),
    }
}

struct Outside {
    devices: Vec<AudioDevice>,
    lines: Vec<String>,
    running: usize,
    save_fails: bool,
    router_fails: bool,
    asked: Vec<&'static str>,
}

impl Outside {
    fn new() -> Self {
        Outside {
            devices: devices(),
            lines: Vec::new(),
            running: 0,
            save_fails: false,
            router_fails: false,
            asked: Vec::new(),
        }
    }

    fn perform(&mut self, action: Action) -> Event {
        match action {
            Action::CreateDevice { id, input_channels, output_channels, sample_rate, .. } => {
                self.asked.push("create");
                let mut made = device(9, &format!("dev.vcable.device.{id}"), true);
                made.input_channels = input_channels;
                made.output_channels = output_channels;
                made.sample_rate = sample_rate;
                self.devices.push(made);
                Event::DeviceChanged(Ok(()))
            }
            Action::DeleteDevice { id } => {
                self.asked.push("delete");
                let uid = format!("dev.vcable.device.{id}");
                self.devices.retain(|device| device.uid != uid);
                Event::DeviceChanged(Ok(()))
            }
            Action::ListDevices => {
                self.asked.push("list");
                Event::Devices(Ok(self.devices.clone()))
            }
            Action::SaveRoutes(lines) => {
                self.asked.push("save");
                if self.save_fails {
                    return Event::Saved(Err(DaemonError::Io("disk full".to_owned())));
                }
                self.lines = lines;
                Event::Saved(Ok(()))
            }
            Action::RestartRouter(routes) => {
                self.asked.push("route");
                self.running = 0;
                if self.router_fails {
                    self.router_fails = false;
                    return Event::RouterRestarted(Err(CoreAudioError::OsStatus(5)));
                }
                self.running = routes.map_or(0, |routes| routes.len());
                Event::RouterRestarted(Ok(()))
            }
            Action::StopRouter => {
                self.asked.push("stop");
                self.running = 0;
                Event::RouterStopped
            }
        }
    }

    fn run(&mut self, state: &mut DaemonState, request: Request) -> Result<String, DaemonError> {
        self.asked.clear();
        let mut step = state.handle::<Hardware>(request, None);
        loop {
            match step {
                Step::Reply(result) => return result,
                Step::Ask(action, task) => {
                    let event = self.perform(action);
                    step = state.resume::<Hardware>(task, event);
                }
            }
        }
    }
}

fn started(lines: &[&str]) -> DaemonState {
    let lines: Vec<String> = lines.iter().map(|line| (*line).to_owned()).collect();
    let mut state = DaemonState::load("routes.state", &lines).unwrap();
    state.refresh_endpoints(Ok(devices())).unwrap();
    state.restore_routes::<Hardware>().unwrap();
    state
}

#[test]
fn routes_are_connected_saved_and_run() {
    let mut outside = Outside::new();
    let mut state = started(&[]);
    let result = outside.run(&mut state, connect("r", A_IN, B_OUT, &[]));
    assert_eq!(result.unwrap(), "connected r");
    assert_eq!(outside.asked, ["save", "route"]);
    assert_eq!(outside.running, 1);
    assert_eq!(
        outside.lines,
        [format!("connect\tr\t{A_IN}\t{B_OUT}\t-20000\t")]
    );
    let audio = state.audio_routes();
    assert_eq!(state.restart_router(), Some(audio.clone()));
    assert_eq!((audio[0].source_device_id, audio[0].sink_device_id), (1, 2));
    assert_eq!(values(&audio[0].matrix), [1.0, 0.0, 0.0, 1.0]);
    assert_eq!(value(audio[0].gain), 0.1);
    let result = outside.run(&mut state, Request::Disconnect { id: "r".to_owned() });
    assert_eq!(result.unwrap(), "disconnected r");
    assert_eq!(outside.asked, ["save", "list", "route"]);
    assert_eq!(outside.running, 0);
    assert!(outside.lines.is_empty());
    assert_eq!(state.restart_router(), None);
}

#[test]
fn saved_state_loads_back() {
    let mut outside = Outside::new();
    let mut state = started(&[]);
    outside
        .run(&mut state, connect("z", A_IN, B_OUT, &[1_000_000, 0, -500_000, 7]))
        .unwrap();
    outside.run(&mut state, connect("a", A_IN, "audio:Built_20In:output", &[])).unwrap();
    let lines = outside.lines.clone();
    assert!(lines[0].starts_with("connect\ta\t"));
    let text: Vec<&str> = lines.iter().map(String::as_str).collect();
    let again = started(&text);
    assert_eq!(again.save_routes(), lines);
    assert_eq!(again.audio_routes(), state.audio_routes());
    assert_eq!(values(&again.audio_routes()[1].matrix), [1.0, 0.0, -0.5, 0.000007]);
}

#[test]
fn states_that_cannot_be_loaded_are_refused() {
    let load = |lines: &[&str]| {
        let lines: Vec<String> = lines.iter().map(|line| (*line).to_owned()).collect();
        DaemonState::load("/x/routes.state", &lines).err()
    };
    assert_eq!(load(&["", ""]), None);
    assert_eq!(
        load(&["", "ping"]).unwrap(),
        "/x/routes.state:2: state contains a non-route command"
    );
    assert_eq!(
        load(&["what"]).unwrap(),
        "/x/routes.state:1: invalid message: what"
    );
    assert_eq!(
        load(&["connect\tr\ta\tb\t0\t", "", "connect\tr\tc\td\t1\t"]).unwrap(),
        "/x/routes.state:3: duplicate route r"
    );
}

#[test]
fn feedback_is_refused_and_changes_nothing() {
    let mut outside = Outside::new();
    let mut state = started(&[]);
    outside.run(&mut state, connect("ab", A_IN, B_OUT, &[])).unwrap();
    let error = outside
        .run(&mut state, connect("ba", B_IN, A_OUT, &[]))
        .unwrap_err();
    assert_eq!(
        error.text(),
        "route from dev.vcable.device.b to dev.vcable.device.a creates a cycle"
    );
    assert_eq!(error.code(), "invalid_graph");
    assert!(outside.asked.is_empty());
    assert_eq!(state.save_routes(), outside.lines);
    outside
        .run(&mut state, connect("io", "audio:Built_20In:input", "audio:Built_20In:output", &[]))
        .unwrap();
}

#[test]
fn connections_that_cannot_be_saved_are_forgotten() {
    let mut outside = Outside::new();
    let mut state = started(&[]);
    outside.save_fails = true;
    let error = outside.run(&mut state, connect("r", A_IN, B_OUT, &[])).unwrap_err();
    assert_eq!((error.code(), error.text()), ("state_io", "disk full".to_owned()));
    assert!(state.save_routes().is_empty());
}

#[test]
fn connections_that_do_not_run_are_undone() {
    let mut outside = Outside::new();
    let mut state = started(&[]);
    outside.run(&mut state, connect("keep", A_IN, B_OUT, &[])).unwrap();
    let kept = outside.lines.clone();
    outside.router_fails = true;
    let error = outside
        .run(&mut state, connect("r", A_IN, "audio:Built_20In:output", &[]))
        .unwrap_err();
    assert_eq!(error, DaemonError::CoreAudio(CoreAudioError::OsStatus(5)));
    assert_eq!(outside.asked, ["save", "route", "save", "list", "route"]);
    assert_eq!(outside.lines, kept);
    assert_eq!(state.save_routes(), kept);
    assert_eq!(outside.running, 1);
    outside.run(&mut state, connect("r", A_IN, "audio:Built_20In:output", &[])).unwrap();
}

#[test]
fn disconnections_that_fail_keep_the_route() {
    let mut outside = Outside::new();
    let mut state = started(&[]);
    outside.run(&mut state, connect("r", A_IN, B_OUT, &[])).unwrap();
    let kept = outside.lines.clone();
    let disconnect = || Request::Disconnect { id: "r".to_owned() };
    outside.save_fails = true;
    assert!(outside.run(&mut state, disconnect()).is_err());
    assert_eq!(state.save_routes(), kept);
    outside.save_fails = false;
    outside.router_fails = true;
    let error = outside.run(&mut state, disconnect()).unwrap_err();
    assert_eq!(error.code(), "core_audio");
    assert_eq!(outside.lines, kept);
    assert_eq!(outside.running, 1);
    assert_eq!(
        outside.run(&mut state, Request::Disconnect { id: "x".to_owned() }).unwrap_err().text(),
        "route not found: x"
    );
}

#[test]
fn devices_are_created_and_deleted() {
    let mut outside = Outside::new();
    let mut state = started(&[]);
    let create = |id: &str| Request::CreateDevice {
        id: id.to_owned(),
        name: "New".to_owned(),
        input_channels: 1,
        output_channels: 3,
        sample_rate: 44_100,
    };
    assert_eq!(outside.run(&mut state, create("new")).unwrap(), "created new");
    assert_eq!(outside.asked, ["create", "list"]);
    let status = outside.run(&mut state, Request::Status).unwrap();
    assert!(status.contains(
        "endpoint\taudio:dev.vcable.device.new:output\tSink\t3ch\t44100Hz\tcoreaudio:9"
    ));
    let delete = |id: &str| Request::DeleteDevice { id: id.to_owned() };
    assert_eq!(outside.run(&mut state, delete("new")).unwrap(), "deleted new");
    assert_eq!(outside.asked, ["delete", "list"]);
    for id in ["", "a:b", "a b", "é"] {
        assert_eq!(
            outside.run(&mut state, create(id)).unwrap_err().text(),
            format!("invalid device id: {id}")
        );
        assert!(outside.asked.is_empty());
    }
    assert!(validate_device_id(&"a".repeat(128)).is_ok());
    assert!(validate_device_id(&"a".repeat(129)).is_err());
}

#[test]
fn devices_in_use_are_not_deleted() {
    let mut outside = Outside::new();
    let mut state = started(&[]);
    outside.run(&mut state, connect("r", A_IN, B_OUT, &[])).unwrap();
    for id in ["a", "b"] {
        let error = outside
            .run(&mut state, Request::DeleteDevice { id: id.to_owned() })
            .unwrap_err();
        assert_eq!(error, DaemonError::DeviceInUse(id.to_owned()));
        assert_eq!(error.text(), format!("device is referenced by a route: {id}"));
        assert!(outside.asked.is_empty());
    }
}

#[test]
fn failures_of_the_system_are_passed_on() {
    let mut state = started(&[]);
    let step = state.resume::<Hardware>(
        Task::Create { id: "x".to_owned() },
        Event::DeviceChanged(Err(CoreAudioError::DriverNotInstalled)),
    );
    assert_eq!(
        step,
        Step::Reply(Err(DaemonError::CoreAudio(CoreAudioError::DriverNotInstalled)))
    );
    let step = state.resume::<Hardware>(
        Task::DeleteList { id: "x".to_owned() },
        Event::Devices(Err(CoreAudioError::InvalidUtf8)),
    );
    assert_eq!(
        step,
        Step::Reply(Err(DaemonError::CoreAudio(CoreAudioError::InvalidUtf8)))
    );
    let undo = || DaemonError::State("first".to_owned());
    let step = state.resume::<Hardware>(
        Task::UndoSave { error: undo() },
        Event::Saved(Err(DaemonError::Io("second".to_owned()))),
    );
    assert_eq!(step, Step::Reply(Err(DaemonError::Io("second".to_owned()))));
    let step = state.resume::<Hardware>(
        Task::UndoRouter { error: undo() },
        Event::RouterRestarted(Ok(())),
    );
    assert_eq!(step, Step::Reply(Err(undo())));
    let step = state.resume::<Hardware>(
        Task::UndoRouter { error: undo() },
        Event::RouterRestarted(Err(CoreAudioError::OsStatus(2))),
    );
    assert_eq!(
        step,
        Step::Reply(Err(DaemonError::CoreAudio(CoreAudioError::OsStatus(2))))
    );
}

#[test]
fn endpoints_that_cannot_be_added_leave_the_state_alone() {
    let mut state = started(&[]);
    let before = state.status::<Hardware>(None);
    let mut slow = device(4, "slow", false);
    slow.sample_rate = 4_000;
    assert_eq!(
        state.refresh_endpoints(Ok(vec![slow])).unwrap_err(),
        DaemonError::Graph(GraphError::InvalidSampleRate(4_000))
    );
    let twins = vec![device(4, "twin", false), device(5, "twin", false)];
    assert_eq!(
        state.refresh_endpoints(Ok(twins)).unwrap_err().text(),
        "endpoint already exists: audio:twin:input"
    );
    let long = "x".repeat(244);
    let error = state.refresh_endpoints(Ok(vec![device(4, &long, false)])).unwrap_err();
    assert_eq!(error.text(), format!("invalid identifier: audio:{long}:input"));
    assert_eq!(state.status::<Hardware>(None), before);
}

#[test]
fn routes_that_cannot_be_built_are_refused() {
    let mut outside = Outside::new();
    let mut state = started(&[]);
    let mut mono = device(6, "mono", false);
    mono.input_channels = 1;
    mono.output_channels = 0;
    let mut all = devices();
    all.push(mono);
    state.refresh_endpoints(Ok(all)).unwrap();
    let mut refused = |request| {
        let error = outside.run(&mut state, request).unwrap_err();
        (error.code(), error.text())
    };
    assert_eq!(
        refused(connect("r", "no name", B_OUT, &[])),
        ("invalid_graph", "invalid identifier: no name".to_owned())
    );
    assert_eq!(
        refused(connect("r", A_IN, "a b", &[])),
        ("invalid_graph", "invalid identifier: a b".to_owned())
    );
    assert_eq!(
        refused(connect("r", "audio:x:input", B_OUT, &[])),
        ("endpoint_not_found", "endpoint not found: audio:x:input".to_owned())
    );
    assert_eq!(
        refused(connect("r", A_IN, "audio:x:output", &[])),
        ("endpoint_not_found", "endpoint not found: audio:x:output".to_owned())
    );
    assert_eq!(
        refused(connect("r", "audio:mono:input", B_OUT, &[])),
        ("invalid_matrix", "an explicit 2x1 channel matrix is required".to_owned())
    );
    assert_eq!(
        refused(connect("r", A_IN, B_OUT, &[1, 2, 3])),
        ("invalid_matrix", "expected 4 coefficients, received 3".to_owned())
    );
    assert_eq!(
        refused(connect("r r", A_IN, B_OUT, &[])),
        ("invalid_graph", "invalid identifier: r r".to_owned())
    );
    assert_eq!(
        refused(connect("r", A_OUT, B_OUT, &[])),
        ("invalid_graph", format!("endpoint is not a source: {A_OUT}"))
    );
}

#[test]
fn a_name_that_is_only_saved_fails_as_a_route_that_exists() {
    let line = format!("connect\tr\t{A_IN}\t{B_OUT}\t0\t");
    let mut state = DaemonState::load("s", &vec![line]).unwrap();
    state.refresh_endpoints(Ok(devices())).unwrap();
    let step = state.handle::<Hardware>(connect("r", A_IN, B_OUT, &[]), None);
    assert_eq!(
        match step {
            Step::Reply(Err(error)) => error.text(),
            _ => String::new(),
        },
        "route already exists: r"
    );
}

#[test]
fn status_describes_endpoints_routes_and_metrics() {
    let mut state = DaemonState::load("s", &vec![]).unwrap();
    assert_eq!(state.status::<Hardware>(None), "");
    let mut left = device(1, "l", false);
    left.output_channels = 0;
    let mut right = device(2, "r", false);
    right.input_channels = 0;
    state.refresh_endpoints(Ok(vec![left, right])).unwrap();
    let step =
        state.handle::<Hardware>(connect("x", "audio:l:input", "audio:r:output", &[]), None);
    assert!(matches!(step, Step::Ask(Action::SaveRoutes(_), Task::ConnectSave { .. })));
    let metrics = RouterMetrics { underruns: 1, overruns: 2, format_errors: 3 };
    assert_eq!(
        state.status::<Hardware>(Some(metrics)),
        "endpoint\taudio:l:input\tSource\t2ch\t48000Hz\tcoreaudio:1\n\
         endpoint\taudio:r:output\tSink\t2ch\t48000Hz\tcoreaudio:2\n\
         route\tx\taudio:l:input\taudio:r:output\t0.100000\n\
         metrics\tunderruns=1\toverruns=2\tformat_errors=3"
    );
}

#[test]
fn simple_requests_are_answered() {
    let mut outside = Outside::new();
    let mut state = started(&[]);
    assert_eq!(outside.run(&mut state, Request::Ping).unwrap(), "pong");
    outside.running = 3;
    assert_eq!(outside.run(&mut state, Request::Shutdown).unwrap(), "shutting down");
    assert_eq!((outside.running, outside.asked.as_slice()), (0, ["stop"].as_slice()));
}

#[test]
fn endpoint_names_escape_what_names_cannot_hold() {
    assert_eq!(endpoint_id("a.b_c:d-E9", "input"), "audio:a.b_c:d-E9:input");
    assert_eq!(endpoint_id("é /", "output"), "audio:_c3_a9_20_2f:output");
    assert_eq!(endpoint_id("", "input"), "audio::input");
}

#[test]
fn answers_carry_the_code_and_the_message() {
    assert_eq!(
        respond(&Ok("fine".to_owned())),
        Response::Accepted("fine".to_owned())
    );
    for (error, code, message) in [
        (
            DaemonError::from(MatrixError::BufferLengthMismatch),
            "invalid_matrix",
            "audio buffer length does not match the matrix",
        ),
        (
            DaemonError::from(GraphError::GainNotFinite),
            "invalid_graph",
            "route gain must be finite",
        ),
        (
            DaemonError::from(CoreAudioError::InvalidUtf8),
            "core_audio",
            "Core Audio returned a non-UTF-8 string",
        ),
        (DaemonError::RouteExists("r".to_owned()), "route_exists", "route already exists: r"),
        (DaemonError::RouteNotFound("r".to_owned()), "route_not_found", "route not found: r"),
        (
            DaemonError::InvalidDeviceId("i".to_owned()),
            "invalid_device_id",
            "invalid device id: i",
        ),
        (DaemonError::State("s".to_owned()), "state_io", "s"),
        (DaemonError::DeviceInUse("d".to_owned()), "device_in_use", "device is referenced by a route: d"),
    ] {
        assert_eq!(
            respond(&Err(error)),
            Response::Error { code: code.to_owned(), message: message.to_owned() }
        );
    }
}
