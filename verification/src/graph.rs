//! Endpoints, routes between them, and the graph that they make.
use vstd::prelude::*;
use vstd::string::StringExecFns;
use vstd::utf8::*;
use crate::float::Float32;
use crate::matrix::{ChannelMatrix, MatrixError};
use crate::text;
use crate::text::{alphanumeric, digits_text, joined};

verus! {

/// The name of an endpoint.
#[derive(Debug, Eq, Ord, PartialEq, PartialOrd)]
pub struct EndpointId(String);

/// The name of a route.
#[derive(Debug, Eq, Ord, PartialEq, PartialOrd)]
pub struct RouteId(String);

/// The name of the clock that an endpoint runs by.
#[derive(Debug, Eq, Ord, PartialEq, PartialOrd)]
pub struct ClockDomain(String);

/// Whether audio comes from an endpoint or goes to it.
#[derive(Clone, Copy, Debug, Eq, PartialEq, Structural)]
pub enum EndpointDirection {
    Source,
    Sink,
}

/// One side of a device.
#[derive(Debug, Eq, PartialEq)]
pub struct EndpointDescriptor {
    pub id: EndpointId,
    pub node: String,
    pub direction: EndpointDirection,
    pub channels: usize,
    pub sample_rate: u32,
    pub clock_domain: ClockDomain,
    /// Whether this device inherently feeds its sink back to its source.
    pub is_loopback: bool,
}

/// A connection from a source to a sink.
#[derive(Debug, PartialEq)]
pub struct Route {
    pub id: RouteId,
    pub source: EndpointId,
    pub sink: EndpointId,
    pub gain: Float32,
    pub matrix: ChannelMatrix,
}

/// Why the graph refused a change.
#[derive(Debug, PartialEq)]
pub enum GraphError {
    InvalidIdentifier(String),
    ZeroChannels,
    InvalidSampleRate(u32),
    EndpointExists(EndpointId),
    EndpointNotFound(EndpointId),
    EndpointInUse(EndpointId),
    RouteExists(RouteId),
    RouteNotFound(RouteId),
    SourceDirectionRequired(EndpointId),
    SinkDirectionRequired(EndpointId),
    MatrixInputMismatch { expected: usize, actual: usize },
    MatrixOutputMismatch { expected: usize, actual: usize },
    GainNotFinite,
    CycleDetected { source_node: String, sink_node: String },
    Matrix(MatrixError),
}

/// A graph error by its values.
pub enum GraphErrorView {
    InvalidIdentifier(Seq<char>),
    ZeroChannels,
    InvalidSampleRate(u32),
    EndpointExists(Seq<char>),
    EndpointNotFound(Seq<char>),
    EndpointInUse(Seq<char>),
    RouteExists(Seq<char>),
    RouteNotFound(Seq<char>),
    SourceDirectionRequired(Seq<char>),
    SinkDirectionRequired(Seq<char>),
    MatrixInputMismatch { expected: usize, actual: usize },
    MatrixOutputMismatch { expected: usize, actual: usize },
    GainNotFinite,
    CycleDetected { source_node: Seq<char>, sink_node: Seq<char> },
    Matrix(MatrixError),
}

impl View for EndpointId {
    type V = Seq<char>;

    closed spec fn view(&self) -> Seq<char> {
        self.0@
    }
}

impl View for RouteId {
    type V = Seq<char>;

    closed spec fn view(&self) -> Seq<char> {
        self.0@
    }
}

impl View for ClockDomain {
    type V = Seq<char>;

    closed spec fn view(&self) -> Seq<char> {
        self.0@
    }
}

impl View for GraphError {
    type V = GraphErrorView;

    open spec fn view(&self) -> GraphErrorView {
        match self {
            GraphError::InvalidIdentifier(value) => GraphErrorView::InvalidIdentifier(value@),
            GraphError::ZeroChannels => GraphErrorView::ZeroChannels,
            GraphError::InvalidSampleRate(rate) => GraphErrorView::InvalidSampleRate(*rate),
            GraphError::EndpointExists(id) => GraphErrorView::EndpointExists(id@),
            GraphError::EndpointNotFound(id) => GraphErrorView::EndpointNotFound(id@),
            GraphError::EndpointInUse(id) => GraphErrorView::EndpointInUse(id@),
            GraphError::RouteExists(id) => GraphErrorView::RouteExists(id@),
            GraphError::RouteNotFound(id) => GraphErrorView::RouteNotFound(id@),
            GraphError::SourceDirectionRequired(id) => GraphErrorView::SourceDirectionRequired(id@),
            GraphError::SinkDirectionRequired(id) => GraphErrorView::SinkDirectionRequired(id@),
            GraphError::MatrixInputMismatch { expected, actual } =>
                GraphErrorView::MatrixInputMismatch { expected: *expected, actual: *actual },
            GraphError::MatrixOutputMismatch { expected, actual } =>
                GraphErrorView::MatrixOutputMismatch { expected: *expected, actual: *actual },
            GraphError::GainNotFinite => GraphErrorView::GainNotFinite,
            GraphError::CycleDetected { source_node, sink_node } => GraphErrorView::CycleDetected {
                source_node: source_node@,
                sink_node: sink_node@,
            },
            GraphError::Matrix(error) => GraphErrorView::Matrix(*error),
        }
    }
}

impl GraphErrorView {
    /// The message that a person reads.
    pub open spec fn text(self) -> Seq<char> {
        match self {
            GraphErrorView::InvalidIdentifier(value) => "invalid identifier: "@ + value,
            GraphErrorView::ZeroChannels => "endpoint channel count must be greater than zero"@,
            GraphErrorView::InvalidSampleRate(rate) => "invalid sample rate: "@ + text::digits(
                rate as nat,
            ),
            GraphErrorView::EndpointExists(id) => "endpoint already exists: "@ + id,
            GraphErrorView::EndpointNotFound(id) => "endpoint not found: "@ + id,
            GraphErrorView::EndpointInUse(id) => "endpoint is referenced by a route: "@ + id,
            GraphErrorView::RouteExists(id) => "route already exists: "@ + id,
            GraphErrorView::RouteNotFound(id) => "route not found: "@ + id,
            GraphErrorView::SourceDirectionRequired(id) => "endpoint is not a source: "@ + id,
            GraphErrorView::SinkDirectionRequired(id) => "endpoint is not a sink: "@ + id,
            GraphErrorView::MatrixInputMismatch { expected, actual } => "matrix has "@
                + text::digits(actual as nat) + " inputs; source has "@ + text::digits(
                expected as nat,
            ),
            GraphErrorView::MatrixOutputMismatch { expected, actual } => "matrix has "@
                + text::digits(actual as nat) + " outputs; sink has "@ + text::digits(
                expected as nat,
            ),
            GraphErrorView::GainNotFinite => "route gain must be finite"@,
            GraphErrorView::CycleDetected { source_node, sink_node } => "route from "@ + source_node
                + " to "@ + sink_node + " creates a cycle"@,
            GraphErrorView::Matrix(error) => error.message(),
        }
    }
}

impl GraphError {
    /// The message that a person reads.
    pub fn text(&self) -> (message: String)
        ensures
            message@ == self@.text(),
    {
        match self {
            GraphError::InvalidIdentifier(value) => joined("invalid identifier: ", value.as_str()),
            GraphError::ZeroChannels => {
                "endpoint channel count must be greater than zero".to_owned()
            },
            GraphError::InvalidSampleRate(rate) => {
                joined("invalid sample rate: ", digits_text(*rate as u64).as_str())
            },
            GraphError::EndpointExists(id) => joined("endpoint already exists: ", id.as_str()),
            GraphError::EndpointNotFound(id) => joined("endpoint not found: ", id.as_str()),
            GraphError::EndpointInUse(id) => {
                joined("endpoint is referenced by a route: ", id.as_str())
            },
            GraphError::RouteExists(id) => joined("route already exists: ", id.as_str()),
            GraphError::RouteNotFound(id) => joined("route not found: ", id.as_str()),
            GraphError::SourceDirectionRequired(id) => {
                joined("endpoint is not a source: ", id.as_str())
            },
            GraphError::SinkDirectionRequired(id) => joined("endpoint is not a sink: ", id.as_str()),
            GraphError::MatrixInputMismatch { expected, actual } => {
                let mut message = joined("matrix has ", digits_text(*actual as u64).as_str());
                message.append(" inputs; source has ");
                message.append(digits_text(*expected as u64).as_str());
                message
            },
            GraphError::MatrixOutputMismatch { expected, actual } => {
                let mut message = joined("matrix has ", digits_text(*actual as u64).as_str());
                message.append(" outputs; sink has ");
                message.append(digits_text(*expected as u64).as_str());
                message
            },
            GraphError::GainNotFinite => "route gain must be finite".to_owned(),
            GraphError::CycleDetected { source_node, sink_node } => {
                let mut message = joined("route from ", source_node.as_str());
                message.append(" to ");
                message.append(sink_node.as_str());
                message.append(" creates a cycle");
                message
            },
            GraphError::Matrix(error) => error.text(),
        }
    }
}

impl vstd::std_specs::convert::FromSpecImpl<MatrixError> for GraphError {
    open spec fn obeys_from_spec() -> bool {
        true
    }

    open spec fn from_spec(value: MatrixError) -> Self {
        GraphError::Matrix(value)
    }
}

impl From<MatrixError> for GraphError {
    fn from(value: MatrixError) -> Self {
        GraphError::Matrix(value)
    }
}

/// A byte that a name may hold: a letter, a digit, or one of `. _ : -`.
pub open spec fn is_identifier_byte(byte: u8) -> bool {
    text::is_alphanumeric(byte) || byte == 0x2e || byte == 0x5f || byte == 0x3a || byte == 0x2d
}

/// A name: 1 to 255 bytes, each of which a name may hold.
pub open spec fn is_identifier(name: Seq<char>) -> bool {
    let bytes = encode_utf8(name);
    &&& 1 <= bytes.len() <= 255
    &&& forall|i: int| 0 <= i < bytes.len() ==> is_identifier_byte(#[trigger] bytes[i])
}

/// A text of 1 to 255 bytes.
pub open spec fn is_short(name: Seq<char>) -> bool {
    1 <= encode_utf8(name).len() <= 255
}

/// Tells whether a text is a name.
fn valid_identifier(name: &str) -> (valid: bool)
    ensures
        valid == is_identifier(name@),
{
    let bytes = name.as_bytes();
    if bytes.len() == 0 || bytes.len() > 255 {
        return false;
    }
    let mut i: usize = 0;
    while i < bytes.len()
        invariant
            i <= bytes@.len(),
            bytes@ == encode_utf8(name@),
            forall|k: int| 0 <= k < i ==> is_identifier_byte(#[trigger] bytes@[k]),
        decreases bytes.len() - i,
    {
        let byte = bytes[i];
        if !(alphanumeric(byte) || byte == 0x2e || byte == 0x5f || byte == 0x3a || byte == 0x2d) {
            return false;
        }
        i = i + 1;
    }
    true
}

/// Tells whether a text has 1 to 255 bytes.
fn short(name: &str) -> (yes: bool)
    ensures
        yes == is_short(name@),
{
    let bytes = name.as_bytes();
    bytes.len() > 0 && bytes.len() <= 255
}

impl EndpointId {
    /// Every endpoint's name is a name.
    #[verifier::type_invariant]
    pub closed spec fn wf(self) -> bool {
        is_identifier(self.0@)
    }

    /// Takes a text as the name of an endpoint.
    pub fn new(value: String) -> (result: Result<Self, GraphError>)
        ensures
            match result {
                Ok(id) => is_identifier(value@) && id@ == value@,
                Err(error) => !is_identifier(value@) && error@ == GraphErrorView::InvalidIdentifier(
                    value@,
                ),
            },
    {
        if valid_identifier(value.as_str()) {
            Ok(EndpointId(value))
        } else {
            Err(GraphError::InvalidIdentifier(value))
        }
    }

    /// The name as text.
    pub fn as_str(&self) -> (name: &str)
        ensures
            name@ == self@,
            is_identifier(name@),
    {
        proof {
            use_type_invariant(self);
        }
        self.0.as_str()
    }
}

impl Clone for EndpointId {
    fn clone(&self) -> (copy: Self)
        ensures
            copy == *self,
    {
        proof {
            use_type_invariant(self);
        }
        EndpointId(self.0.clone())
    }
}

impl RouteId {
    /// Every route's name is a name.
    #[verifier::type_invariant]
    pub closed spec fn wf(self) -> bool {
        is_identifier(self.0@)
    }

    /// Takes a text as the name of a route.
    pub fn new(value: String) -> (result: Result<Self, GraphError>)
        ensures
            match result {
                Ok(id) => is_identifier(value@) && id@ == value@,
                Err(error) => !is_identifier(value@) && error@ == GraphErrorView::InvalidIdentifier(
                    value@,
                ),
            },
    {
        if valid_identifier(value.as_str()) {
            Ok(RouteId(value))
        } else {
            Err(GraphError::InvalidIdentifier(value))
        }
    }

    /// The name as text.
    pub fn as_str(&self) -> (name: &str)
        ensures
            name@ == self@,
            is_identifier(name@),
    {
        proof {
            use_type_invariant(self);
        }
        self.0.as_str()
    }
}

impl Clone for RouteId {
    fn clone(&self) -> (copy: Self)
        ensures
            copy == *self,
    {
        proof {
            use_type_invariant(self);
        }
        RouteId(self.0.clone())
    }
}

impl ClockDomain {
    /// Every clock's name has 1 to 255 bytes.
    #[verifier::type_invariant]
    pub closed spec fn wf(self) -> bool {
        is_short(self.0@)
    }

    /// Takes a text as the name of a clock.
    pub fn new(value: String) -> (result: Result<Self, GraphError>)
        ensures
            match result {
                Ok(domain) => is_short(value@) && domain@ == value@,
                Err(error) => !is_short(value@) && error@ == GraphErrorView::InvalidIdentifier(
                    value@,
                ),
            },
    {
        if short(value.as_str()) {
            Ok(ClockDomain(value))
        } else {
            Err(GraphError::InvalidIdentifier(value))
        }
    }

    /// The name as text.
    pub fn as_str(&self) -> (name: &str)
        ensures
            name@ == self@,
            is_short(name@),
    {
        proof {
            use_type_invariant(self);
        }
        self.0.as_str()
    }
}

impl Clone for ClockDomain {
    fn clone(&self) -> (copy: Self)
        ensures
            copy == *self,
    {
        proof {
            use_type_invariant(self);
        }
        ClockDomain(self.0.clone())
    }
}

impl Clone for EndpointDescriptor {
    fn clone(&self) -> (copy: Self)
        ensures
            copy == *self,
    {
        EndpointDescriptor {
            id: self.id.clone(),
            node: self.node.clone(),
            direction: self.direction,
            channels: self.channels,
            sample_rate: self.sample_rate,
            clock_domain: self.clock_domain.clone(),
            is_loopback: self.is_loopback,
        }
    }
}

impl Route {
    /// The routes agree in everything, their matrices by their coefficients.
    pub open spec fn agrees(self, other: Route) -> bool {
        &&& self.id == other.id
        &&& self.source == other.source
        &&& self.sink == other.sink
        &&& self.gain == other.gain
        &&& self.matrix.outputs() == other.matrix.outputs()
        &&& self.matrix.inputs() == other.matrix.inputs()
        &&& self.matrix.values() == other.matrix.values()
    }
}

impl Clone for Route {
    fn clone(&self) -> (copy: Self)
        ensures
            copy.agrees(*self),
    {
        Route {
            id: self.id.clone(),
            source: self.source.clone(),
            sink: self.sink.clone(),
            gain: self.gain,
            matrix: self.matrix.clone(),
        }
    }
}

impl Clone for GraphError {
    fn clone(&self) -> (copy: Self)
        ensures
            copy == *self,
    {
        match self {
            GraphError::InvalidIdentifier(value) => GraphError::InvalidIdentifier(value.clone()),
            GraphError::ZeroChannels => GraphError::ZeroChannels,
            GraphError::InvalidSampleRate(rate) => GraphError::InvalidSampleRate(*rate),
            GraphError::EndpointExists(id) => GraphError::EndpointExists(id.clone()),
            GraphError::EndpointNotFound(id) => GraphError::EndpointNotFound(id.clone()),
            GraphError::EndpointInUse(id) => GraphError::EndpointInUse(id.clone()),
            GraphError::RouteExists(id) => GraphError::RouteExists(id.clone()),
            GraphError::RouteNotFound(id) => GraphError::RouteNotFound(id.clone()),
            GraphError::SourceDirectionRequired(id) => GraphError::SourceDirectionRequired(
                id.clone(),
            ),
            GraphError::SinkDirectionRequired(id) => GraphError::SinkDirectionRequired(id.clone()),
            GraphError::MatrixInputMismatch { expected, actual } => {
                GraphError::MatrixInputMismatch { expected: *expected, actual: *actual }
            },
            GraphError::MatrixOutputMismatch { expected, actual } => {
                GraphError::MatrixOutputMismatch { expected: *expected, actual: *actual }
            },
            GraphError::GainNotFinite => GraphError::GainNotFinite,
            GraphError::CycleDetected { source_node, sink_node } => GraphError::CycleDetected {
                source_node: source_node.clone(),
                sink_node: sink_node.clone(),
            },
            GraphError::Matrix(error) => GraphError::Matrix(error.clone()),
        }
    }
}

} // verus!
