use vcable::{
    spsc_ring_buffer, ChannelMatrix, ClockDomain, EndpointDescriptor, EndpointDirection,
    EndpointId, Float32, Float64, FloatMath, GraphError, MatrixError, RingBufferError, Route,
    RouteId, RoutingGraph,
};

struct Hardware;

fn sample(value: f32) -> Float32 {
    Float32 { bits: value.to_bits() }
}

fn value(sample: Float32) -> f32 {
    f32::from_bits(sample.bits)
}

fn double(value: f64) -> Float64 {
    Float64 { bits: value.to_bits() }
}

fn wide(value: Float64) -> f64 {
    f64::from_bits(value.bits)
}

fn samples(values: &[f32]) -> Vec<Float32> {
    values.iter().map(|value| sample(*value)).collect()
}

fn values(samples: &[Float32]) -> Vec<f32> {
    samples.iter().map(|sample| value(*sample)).collect()
}

impl FloatMath for Hardware {
    fn empty_sum() -> Float32 {
        sample(std::iter::empty::<f32>().sum())
    }

    fn add(left: Float32, right: Float32) -> Float32 {
        sample(value(left) + value(right))
    }

    fn mul(left: Float32, right: Float32) -> Float32 {
        sample(value(left) * value(right))
    }

    fn interpolate(current: Float32, next: Float32, phase: Float64) -> Float32 {
        let (current, next) = (value(current), value(next));
        sample(current + (next - current) * wide(phase) as f32)
    }

    fn rate_ratio(numerator: u32, denominator: u32) -> Float64 {
        double(f64::from(numerator) / f64::from(denominator))
    }

    fn whole_hertz(rate: Float64) -> u32 {
        wide(rate).round() as u32
    }

    fn parts_per_million(ppm: u32) -> Float64 {
        double(f64::from(ppm) / 1_000_000.0)
    }

    fn drift_correction(fill: usize, target: usize, span: usize, limit: Float64) -> Float64 {
        let limit = wide(limit);
        let error = fill as f64 - target as f64;
        double((error / span as f64 * limit).clamp(-limit, limit))
    }

    fn fill_correction(available: usize, startup: usize) -> Float64 {
        let target = startup as f64;
        let error = (available as f64 - target) / target;
        double((error * 0.0005).clamp(-0.001, 0.001))
    }

    fn advance_phase(phase: Float64, step: Float64, correction: Float64) -> Float64 {
        double(wide(phase) + wide(step) * (1.0 + wide(correction)))
    }

    fn has_whole_frame(phase: Float64) -> bool {
        wide(phase) >= 1.0
    }

    fn without_whole_frame(phase: Float64) -> Float64 {
        double(wide(phase) - 1.0)
    }

    fn coefficient(millionths: i32) -> Float32 {
        sample(millionths as f32 / 1_000_000.0)
    }

    fn gain(millidb: i32) -> Float32 {
        let gain_db = millidb as f32 / 1_000.0;
        sample(10.0_f32.powf(gain_db / 20.0))
    }

    fn six_decimals(gain: Float32) -> String {
        format!("{:.6}", value(gain))
    }
}

fn endpoint_id(id: &str) -> EndpointId {
    EndpointId::new(id.to_owned()).unwrap()
}

fn endpoint(id: &str, node: &str, direction: EndpointDirection) -> EndpointDescriptor {
    EndpointDescriptor {
        id: endpoint_id(id),
        node: node.to_owned(),
        direction,
        channels: 2,
        sample_rate: 48_000,
        clock_domain: ClockDomain::new(node.to_owned()).unwrap(),
        is_loopback: true,
    }
}

fn route(id: &str, source: &str, sink: &str) -> Route {
    Route {
        id: RouteId::new(id.to_owned()).unwrap(),
        source: endpoint_id(source),
        sink: endpoint_id(sink),
        gain: sample(1.0),
        matrix: ChannelMatrix::identity(2).unwrap(),
    }
}

fn loops() -> RoutingGraph {
    let mut graph = RoutingGraph::default();
    for item in [
        endpoint("a.in", "a", EndpointDirection::Source),
        endpoint("a.out", "a", EndpointDirection::Sink),
        endpoint("b.in", "b", EndpointDirection::Source),
        endpoint("b.out", "b", EndpointDirection::Sink),
        endpoint("c.in", "c", EndpointDirection::Source),
        endpoint("c.out", "c", EndpointDirection::Sink),
    ] {
        graph.add_endpoint(item).unwrap();
    }
    graph
}

#[test]
fn rejects_feedback_cycles() {
    let mut graph = RoutingGraph::default();
    for item in [
        endpoint("a.in", "a", EndpointDirection::Source),
        endpoint("a.out", "a", EndpointDirection::Sink),
        endpoint("b.in", "b", EndpointDirection::Source),
        endpoint("b.out", "b", EndpointDirection::Sink),
    ] {
        graph.add_endpoint(item).unwrap();
    }
    graph.add_route(route("a-to-b", "a.in", "b.out")).unwrap();
    assert!(matches!(
        graph.add_route(route("b-to-a", "b.in", "a.out")),
        Err(GraphError::CycleDetected { .. })
    ));
}

#[test]
fn refuses_to_remove_an_endpoint_used_by_a_route() {
    let mut graph = RoutingGraph::default();
    graph
        .add_endpoint(endpoint("a.in", "a", EndpointDirection::Source))
        .unwrap();
    graph
        .add_endpoint(endpoint("b.out", "b", EndpointDirection::Sink))
        .unwrap();
    graph.add_route(route("route", "a.in", "b.out")).unwrap();
    assert!(matches!(
        graph.remove_endpoint(&endpoint_id("a.in")),
        Err(GraphError::EndpointInUse(_))
    ));
}

#[test]
fn allows_input_to_output_on_a_non_loopback_device() {
    let mut graph = RoutingGraph::default();
    let mut input = endpoint("physical.in", "physical", EndpointDirection::Source);
    input.is_loopback = false;
    let mut output = endpoint("physical.out", "physical", EndpointDirection::Sink);
    output.is_loopback = false;
    graph.add_endpoint(input).unwrap();
    graph.add_endpoint(output).unwrap();
    graph
        .add_route(route("monitor", "physical.in", "physical.out"))
        .unwrap();
}

#[test]
fn rejects_longer_feedback_and_a_loop_on_one_node() {
    let mut graph = loops();
    graph.add_route(route("a-to-b", "a.in", "b.out")).unwrap();
    graph.add_route(route("b-to-c", "b.in", "c.out")).unwrap();
    let error = graph.add_route(route("c-to-a", "c.in", "a.out")).unwrap_err();
    assert_eq!(error.text(), "route from c to a creates a cycle");
    assert!(matches!(
        graph.add_route(route("a-to-a", "a.in", "a.out")),
        Err(GraphError::CycleDetected { .. })
    ));
    graph.add_route(route("a-to-c", "a.in", "c.out")).unwrap();
    assert_eq!(graph.routes().len(), 3);
}

#[test]
fn an_endpoint_can_make_a_node_loop_back() {
    let mut graph = RoutingGraph::default();
    for (id, node, direction, is_loopback) in [
        ("a.in", "a", EndpointDirection::Source, true),
        ("b.in", "b", EndpointDirection::Source, false),
        ("b.out", "b", EndpointDirection::Sink, false),
        ("c.out", "c", EndpointDirection::Sink, true),
    ] {
        let mut item = endpoint(id, node, direction);
        item.is_loopback = is_loopback;
        graph.add_endpoint(item).unwrap();
    }
    graph.add_route(route("a-to-b", "a.in", "b.out")).unwrap();
    graph.add_endpoint(endpoint("b.loop", "b", EndpointDirection::Source)).unwrap();
    graph.add_route(route("b-to-c", "b.in", "c.out")).unwrap();
    graph.add_endpoint(endpoint("a.out", "a", EndpointDirection::Sink)).unwrap();
    assert!(matches!(
        graph.add_route(route("b-to-a", "b.in", "a.out")),
        Err(GraphError::CycleDetected { .. })
    ));
}

#[test]
fn removing_a_route_opens_the_way_back() {
    let mut graph = loops();
    graph.add_route(route("a-to-b", "a.in", "b.out")).unwrap();
    let removed = graph
        .remove_route(&RouteId::new("a-to-b".to_owned()).unwrap())
        .unwrap();
    assert_eq!(removed.source.as_str(), "a.in");
    graph.add_route(route("b-to-a", "b.in", "a.out")).unwrap();
    let error = graph
        .remove_route(&RouteId::new("a-to-b".to_owned()).unwrap())
        .unwrap_err();
    assert_eq!(error.text(), "route not found: a-to-b");
}

#[test]
fn removing_an_endpoint_undoes_adding_it() {
    let mut graph = loops();
    let removed = graph.remove_endpoint(&endpoint_id("c.in")).unwrap();
    assert_eq!(removed.node, "c");
    assert!(graph.endpoint(&endpoint_id("c.in")).is_none());
    assert_eq!(
        graph.remove_endpoint(&endpoint_id("c.in")).unwrap_err().text(),
        "endpoint not found: c.in"
    );
    graph.add_endpoint(removed).unwrap();
    assert_eq!(graph.endpoint(&endpoint_id("c.in")).unwrap().channels, 2);
}

#[test]
fn endpoints_and_routes_come_in_the_order_of_their_names() {
    let mut graph = loops();
    graph.add_route(route("z", "a.in", "b.out")).unwrap();
    graph.add_route(route("B", "a.in", "c.out")).unwrap();
    graph.add_route(route("a", "b.in", "c.out")).unwrap();
    let names: Vec<&str> = graph.endpoints().iter().map(|item| item.id.as_str()).collect();
    assert_eq!(names, ["a.in", "a.out", "b.in", "b.out", "c.in", "c.out"]);
    let names: Vec<&str> = graph.routes().iter().map(|item| item.id.as_str()).collect();
    assert_eq!(names, ["B", "a", "z"]);
}

#[test]
fn endpoints_are_refused_with_the_reason() {
    let mut graph = loops();
    let mut item = endpoint("d.in", "d", EndpointDirection::Source);
    item.channels = 0;
    assert_eq!(
        graph.add_endpoint(item).unwrap_err().text(),
        "endpoint channel count must be greater than zero"
    );
    for rate in [7_999, 768_001] {
        let mut item = endpoint("d.in", "d", EndpointDirection::Source);
        item.sample_rate = rate;
        assert_eq!(
            graph.add_endpoint(item).unwrap_err(),
            GraphError::InvalidSampleRate(rate)
        );
    }
    let mut item = endpoint("d.in", "d", EndpointDirection::Source);
    item.node = String::new();
    assert_eq!(graph.add_endpoint(item).unwrap_err().text(), "invalid identifier: ");
    let item = endpoint("a.in", "d", EndpointDirection::Source);
    assert_eq!(
        graph.add_endpoint(item).unwrap_err().text(),
        "endpoint already exists: a.in"
    );
    let mut item = endpoint("d.in", "d", EndpointDirection::Source);
    item.sample_rate = 768_000;
    graph.add_endpoint(item).unwrap();
}

#[test]
fn routes_are_refused_with_the_reason() {
    let mut graph = loops();
    let mut three = endpoint("d.out", "d", EndpointDirection::Sink);
    three.channels = 3;
    graph.add_endpoint(three).unwrap();
    let mut one = endpoint("e.in", "e", EndpointDirection::Source);
    one.channels = 1;
    graph.add_endpoint(one).unwrap();
    graph.add_route(route("r", "a.in", "b.out")).unwrap();
    let mut refused = |id: &str, source: &str, sink: &str| -> String {
        graph.add_route(route(id, source, sink)).unwrap_err().text()
    };
    assert_eq!(refused("r", "a.in", "b.out"), "route already exists: r");
    assert_eq!(refused("s", "x.in", "b.out"), "endpoint not found: x.in");
    assert_eq!(refused("s", "a.in", "x.out"), "endpoint not found: x.out");
    assert_eq!(refused("s", "a.out", "b.out"), "endpoint is not a source: a.out");
    assert_eq!(refused("s", "a.in", "b.in"), "endpoint is not a sink: b.in");
    assert_eq!(refused("s", "e.in", "b.out"), "matrix has 2 inputs; source has 1");
    assert_eq!(refused("s", "a.in", "d.out"), "matrix has 2 outputs; sink has 3");
    let mut loud = route("s", "a.in", "c.out");
    loud.gain = sample(f32::INFINITY);
    assert_eq!(graph.add_route(loud).unwrap_err(), GraphError::GainNotFinite);
}

#[test]
fn names_are_checked() {
    assert_eq!(endpoint_id("Az09._:-").as_str(), "Az09._:-");
    for name in ["", "a b", "ä", "a/b"] {
        let error = EndpointId::new(name.to_owned()).unwrap_err();
        assert_eq!(error, GraphError::InvalidIdentifier(name.to_owned()));
    }
    assert!(RouteId::new("r".repeat(255)).is_ok());
    assert!(RouteId::new("r".repeat(256)).is_err());
    assert_eq!(ClockDomain::new("clock".to_owned()).unwrap().as_str(), "clock");
    let error: GraphError = GraphError::from(MatrixError::ZeroChannels);
    assert_eq!(error.text(), "channel counts must be greater than zero");
}

#[test]
fn identity_preserves_interleaved_audio() {
    let matrix = ChannelMatrix::identity(2).unwrap();
    let input = [1.0, 2.0, 3.0, 4.0];
    let mut output = samples(&[0.0; 4]);
    matrix
        .mix_interleaved::<Hardware>(2, &samples(&input), &mut output, sample(1.0))
        .unwrap();
    assert_eq!(values(&output), input);
}

#[test]
fn matrix_downmixes_stereo_to_mono() {
    let matrix = ChannelMatrix::new(1, 2, samples(&[0.5, 0.5])).unwrap();
    let input = [1.0, 3.0, 2.0, 6.0];
    let mut output = samples(&[0.0; 2]);
    matrix
        .mix_interleaved::<Hardware>(2, &samples(&input), &mut output, sample(1.0))
        .unwrap();
    assert_eq!(values(&output), [2.0, 4.0]);
}

#[test]
fn mixing_adds_to_what_is_there_and_applies_the_gain() {
    let matrix = ChannelMatrix::new(2, 1, samples(&[1.0, -0.5])).unwrap();
    let mut output = samples(&[10.0, 20.0, 30.0, 40.0]);
    matrix
        .mix_interleaved::<Hardware>(2, &samples(&[4.0, 8.0]), &mut output, sample(0.5))
        .unwrap();
    assert_eq!(values(&output), [12.0, 19.0, 34.0, 38.0]);
}

#[test]
fn matrices_are_refused_with_the_reason() {
    let new = |outputs, inputs, values: &[f32]| {
        ChannelMatrix::new(outputs, inputs, samples(values)).unwrap_err()
    };
    assert_eq!(new(0, 2, &[]), MatrixError::ZeroChannels);
    assert_eq!(new(usize::MAX, 2, &[]), MatrixError::FrameCountOverflow);
    let error = new(2, 2, &[1.0]);
    assert_eq!(error.text(), "expected 4 coefficients, received 1");
    let error = new(1, 3, &[1.0, f32::NAN, f32::INFINITY]);
    assert_eq!(error, MatrixError::NonFiniteCoefficient { index: 1 });
    assert_eq!(error.text(), "coefficient 1 is not finite");
    assert_eq!(ChannelMatrix::identity(0).unwrap_err(), MatrixError::ZeroChannels);
    let identity = ChannelMatrix::identity(3).unwrap();
    assert_eq!((identity.output_channels(), identity.input_channels()), (3, 3));
    assert_eq!(
        values(identity.coefficients()),
        [1.0, 0.0, 0.0, 0.0, 1.0, 0.0, 0.0, 0.0, 1.0]
    );
}

#[test]
fn mixing_refuses_buffers_that_do_not_fit() {
    let matrix = ChannelMatrix::identity(2).unwrap();
    let mut output = samples(&[7.0; 4]);
    let result =
        matrix.mix_interleaved::<Hardware>(2, &samples(&[1.0; 3]), &mut output, sample(1.0));
    assert_eq!(result, Err(MatrixError::BufferLengthMismatch));
    let result =
        matrix.mix_interleaved::<Hardware>(2, &samples(&[1.0; 4]), &mut output, sample(f32::NAN));
    assert_eq!(result, Err(MatrixError::BufferLengthMismatch));
    let result =
        matrix.mix_interleaved::<Hardware>(usize::MAX, &[], &mut output, sample(1.0));
    assert_eq!(result, Err(MatrixError::FrameCountOverflow));
    assert_eq!(values(&output), [7.0; 4]);
}

#[test]
fn wraps_without_overwriting_unread_samples() {
    let (mut producer, mut consumer, mut ring) = spsc_ring_buffer(4).unwrap();
    assert_eq!(producer.push_slice(&mut ring, &samples(&[1.0, 2.0, 3.0])), 3);
    let mut first = samples(&[0.0; 2]);
    assert_eq!(consumer.pop_slice(&mut ring, &mut first), 2);
    assert_eq!(values(&first), [1.0, 2.0]);
    assert_eq!(producer.push_slice(&mut ring, &samples(&[4.0, 5.0, 6.0, 7.0])), 3);
    let mut second = samples(&[0.0; 4]);
    assert_eq!(consumer.pop_slice(&mut ring, &mut second), 4);
    assert_eq!(values(&second), [3.0, 4.0, 5.0, 6.0]);
}

#[test]
fn single_samples_go_through_in_order() {
    let (mut producer, mut consumer, mut ring) = spsc_ring_buffer(2).unwrap();
    assert_eq!((producer.capacity(), consumer.capacity()), (2, 2));
    assert_eq!(consumer.pop(&mut ring), None);
    for round in 0..5 {
        let (first, second) = (sample(round as f32), sample(-1.0));
        assert!(producer.push(&mut ring, first));
        assert!(producer.push(&mut ring, second));
        assert!(!producer.push(&mut ring, sample(9.0)));
        assert_eq!(producer.available(&ring), 0);
        assert_eq!(consumer.available(&ring), 2);
        assert_eq!(consumer.pop(&mut ring), Some(first));
        assert_eq!(consumer.pop(&mut ring), Some(second));
        assert_eq!(producer.available(&ring), 2);
    }
}

#[test]
fn queued_samples_can_be_looked_at() {
    let (mut producer, mut consumer, mut ring) = spsc_ring_buffer(2).unwrap();
    assert_eq!(ring.peek(0), None);
    for round in 0..3 {
        let (first, second) = (sample(round as f32), sample(-1.0));
        producer.push(&mut ring, first);
        producer.push(&mut ring, second);
        assert_eq!(ring.peek(0), Some(first));
        assert_eq!(ring.peek(1), Some(second));
        assert_eq!(ring.peek(2), None);
        assert_eq!(consumer.pop(&mut ring), Some(first));
        assert_eq!(ring.peek(0), Some(second));
        assert_eq!(consumer.pop(&mut ring), Some(second));
    }
}

#[test]
fn popping_leaves_the_rest_of_the_output_alone() {
    let (mut producer, mut consumer, mut ring) = spsc_ring_buffer(8).unwrap();
    producer.push_slice(&mut ring, &samples(&[1.0, 2.0]));
    let mut output = samples(&[5.0; 4]);
    assert_eq!(consumer.pop_slice(&mut ring, &mut output), 2);
    assert_eq!(values(&output), [1.0, 2.0, 5.0, 5.0]);
}

#[test]
fn ring_capacities_are_checked() {
    let error = |capacity| spsc_ring_buffer(capacity).err().unwrap();
    assert_eq!(error(0), RingBufferError::CapacityTooSmall);
    assert_eq!(error(1).text(), "ring-buffer capacity must be at least two");
    assert_eq!(error(6), RingBufferError::CapacityNotPowerOfTwo);
    assert_eq!(error(6).text(), "ring-buffer capacity must be a power of two");
    assert!(spsc_ring_buffer(1024).is_ok());
}

#[test]
fn values_are_compared_as_numbers() {
    let nan = sample(f32::NAN);
    assert!(sample(0.0) == sample(-0.0));
    assert!(nan != nan);
    assert!(sample(1.0) != nan && nan != sample(1.0));
    assert!(sample(1.0) == sample(1.0));
    assert!(sample(1.0) != sample(-1.0));
    assert!(sample(f32::INFINITY) == sample(f32::INFINITY));
    assert!(sample(f32::INFINITY) != sample(f32::NEG_INFINITY));
    let wide_nan = double(f64::NAN);
    assert!(double(0.0) == double(-0.0));
    assert!(wide_nan != wide_nan);
    assert!(double(2.5) == double(2.5));
    assert!(double(2.5) != double(-2.5));
    assert!(double(f64::INFINITY) == double(f64::INFINITY));
    let matrix = |zero: f32| ChannelMatrix::new(1, 2, samples(&[1.0, zero])).unwrap();
    assert_eq!(matrix(0.0), matrix(-0.0));
    assert_ne!(matrix(0.0), matrix(0.5));
}

#[test]
fn copies_agree_and_stand_alone() {
    let mut graph = loops();
    graph.add_route(route("a-to-b", "a.in", "b.out")).unwrap();
    let mut copy = graph.clone();
    assert_eq!(copy.endpoints(), graph.endpoints());
    assert_eq!(copy.routes(), graph.routes());
    let error = copy.add_route(route("b-to-a", "b.in", "a.out")).unwrap_err();
    assert_eq!(error.clone(), error);
    copy.remove_route(&RouteId::new("a-to-b".to_owned()).unwrap()).unwrap();
    assert_eq!(graph.routes()[0], graph.routes()[0].clone());
    assert!(copy.routes().is_empty());
    assert!(format!("{graph:?}").contains("a-to-b"));
}

#[test]
fn finite_values_are_told_from_the_others() {
    for number in [0.0, -0.0, 1.0, f32::MAX, f32::MIN_POSITIVE, 1.0e-45] {
        assert!(sample(number).is_finite());
    }
    for number in [f32::NAN, f32::INFINITY, f32::NEG_INFINITY] {
        assert!(!sample(number).is_finite());
    }
    assert_eq!(value(Float32::one()), 1.0);
    assert_eq!(wide(Float64::zero()), 0.0);
}
