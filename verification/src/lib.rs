//! Virtual audio cables: routing, mixing, streaming and control.
//!
//! Endpoints and the routes between them make a graph that admits no feedback. Samples wait in ring
//! buffers between devices, are resampled to the clock of the device that plays them, and are mixed
//! through channel matrices. A daemon keeps the graph and the routes, and answers requests.
pub mod buffers;
pub mod cli;
pub mod daemon;
pub mod device;
pub mod endpoints;
pub mod fields;
pub mod float;
pub mod graph;
pub mod incoming;
pub mod io;
pub mod laws;
pub mod matrix;
pub mod pcm;
pub mod protocol;
pub mod requests;
pub mod resampler;
pub mod ring;
pub mod router;
pub mod routing;
pub mod saved;
pub mod text;
pub mod textmap;

pub use buffers::AudioBuffer;
pub use cli::{parse_invocation, report, usage, Invocation, Options};
pub use daemon::{respond, DaemonError, DaemonState};
pub use device::{
    create_virtual_device, delete_virtual_device, list_devices, AudioDevice, AudioRoute,
    CoreAudioError, DeviceProperties, DriverRequest,
};
pub use float::{Float32, Float64, FloatMath};
pub use graph::{
    ClockDomain, EndpointDescriptor, EndpointDirection, EndpointId, GraphError, Route, RouteId,
};
pub use matrix::{ChannelMatrix, MatrixError};
pub use pcm::{
    PcmCaptureStream, PcmFormat, PcmPlaybackStream, PcmReader, PcmStreamConfig, PcmStreamDirection,
    PcmStreamError, PcmStreamMetrics, PcmStreamState, PcmWriter,
};
pub use protocol::{
    read_message, write_message, Message, ProtocolError, Request, Response, MAX_MESSAGE_BYTES,
};
pub use requests::{Action, Event, Step, Task};
pub use ring::{spsc_ring_buffer, Consumer, Producer, RingBuffer, RingBufferError};
pub use router::{AudioRouter, RouterMetrics};
pub use routing::RoutingGraph;
pub use saved::SavedRoute;
