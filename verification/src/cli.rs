//! Command lines.
use vstd::prelude::*;
use vstd::string::StringExecFns;
use vstd::utf8::*;
use crate::fields;
use crate::fields::COMMA;
use crate::protocol;
use crate::protocol::{
    read_coefficients, read_i32, read_u32, ProtocolError, ProtocolErrorView, Request, RequestView,
    Response,
};
use crate::saved;
use crate::text::{joined, same_text};

verus! {

/// What a client is asked to do.
#[derive(Debug, Eq, PartialEq)]
pub enum Invocation {
    Help,
    Send { socket: String, request: Request },
}

/// An invocation by its values.
pub enum InvocationView {
    Help,
    Send { socket: Seq<char>, request: RequestView },
}

impl View for Invocation {
    type V = InvocationView;

    open spec fn view(&self) -> InvocationView {
        match self {
            Invocation::Help => InvocationView::Help,
            Invocation::Send { socket, request } => InvocationView::Send {
                socket: socket@,
                request: request@,
            },
        }
    }
}

/// How the client is used.
pub const USAGE: &'static str =
    "usage:\n  vcablectl --socket PATH ping\n  vcablectl --socket PATH status\n  vcablectl --socket PATH shutdown\n  vcablectl --socket PATH create ID NAME INPUTS OUTPUTS RATE\n  vcablectl --socket PATH delete ID\n  vcablectl --socket PATH connect ID SOURCE SINK GAIN_MILLIDB [MATRIX_MILLIONTHS]\n  vcablectl --socket PATH disconnect ID";

/// How the client is used.
pub fn usage() -> (text: String)
    ensures
        text@ == USAGE@,
{
    USAGE.to_owned()
}

/// What is wrong, without the words that say that a message is meant.
pub open spec fn complaint(error: ProtocolErrorView) -> Seq<char> {
    match error {
        ProtocolErrorView::InvalidMessage(message) => message,
        _ => error.text(),
    }
}

/// What is wrong, without the words that say that a message is meant.
fn complain(error: ProtocolError) -> (message: String)
    ensures
        message@ == complaint(error@),
{
    match error {
        ProtocolError::InvalidMessage(message) => message,
        other => other.text(),
    }
}

/// The argument at a place.
pub open spec fn required_at(args: Seq<Seq<char>>, at: int, name: Seq<char>) -> Result<
    Seq<char>,
    Seq<char>,
> {
    if at < args.len() {
        Ok(args[at])
    } else {
        Err("missing "@ + name)
    }
}

/// The unsigned number at a place.
pub open spec fn unsigned_at(args: Seq<Seq<char>>, at: int, name: Seq<char>) -> Result<
    u32,
    Seq<char>,
> {
    match required_at(args, at, name) {
        Err(message) => Err(message),
        Ok(value) => match protocol::field_u32(encode_utf8(value), name) {
            Ok(number) => Ok(number),
            Err(error) => Err(complaint(error)),
        },
    }
}

/// The signed number at a place.
pub open spec fn signed_at(args: Seq<Seq<char>>, at: int, name: Seq<char>) -> Result<
    i32,
    Seq<char>,
> {
    match required_at(args, at, name) {
        Err(message) => Err(message),
        Ok(value) => match protocol::field_i32(encode_utf8(value), name) {
            Ok(number) => Ok(number),
            Err(error) => Err(complaint(error)),
        },
    }
}

/// The coefficients at a place, of which there are none where there is no argument.
pub open spec fn coefficients_at(args: Seq<Seq<char>>, at: int) -> Result<Seq<i32>, Seq<char>> {
    if at < args.len() {
        match protocol::coefficients(fields::split(encode_utf8(args[at]), COMMA)) {
            Ok(values) => Ok(values),
            Err(error) => Err(complaint(error)),
        }
    } else {
        Ok(seq![])
    }
}

/// The request to create a device.
pub open spec fn create_request(args: Seq<Seq<char>>) -> Result<RequestView, Seq<char>> {
    match required_at(args, 3, "device id"@) {
        Err(message) => Err(message),
        Ok(id) => match required_at(args, 4, "device name"@) {
            Err(message) => Err(message),
            Ok(name) => match unsigned_at(args, 5, "input channels"@) {
                Err(message) => Err(message),
                Ok(input_channels) => match unsigned_at(args, 6, "output channels"@) {
                    Err(message) => Err(message),
                    Ok(output_channels) => match unsigned_at(args, 7, "sample rate"@) {
                        Err(message) => Err(message),
                        Ok(sample_rate) => Ok(
                            RequestView::CreateDevice {
                                id,
                                name,
                                input_channels,
                                output_channels,
                                sample_rate,
                            },
                        ),
                    },
                },
            },
        },
    }
}

/// The request to connect a route.
pub open spec fn connect_request(args: Seq<Seq<char>>) -> Result<RequestView, Seq<char>> {
    match required_at(args, 3, "route id"@) {
        Err(message) => Err(message),
        Ok(id) => match required_at(args, 4, "source endpoint"@) {
            Err(message) => Err(message),
            Ok(source) => match required_at(args, 5, "sink endpoint"@) {
                Err(message) => Err(message),
                Ok(sink) => match signed_at(args, 6, "gain in 0.001 dB"@) {
                    Err(message) => Err(message),
                    Ok(gain_millidb) => match coefficients_at(args, 7) {
                        Err(message) => Err(message),
                        Ok(matrix_millionths) => Ok(
                            RequestView::Connect {
                                id,
                                source,
                                sink,
                                gain_millidb,
                                matrix_millionths,
                            },
                        ),
                    },
                },
            },
        },
    }
}

/// The request that a command stands for, and the number of arguments that it takes at most.
pub open spec fn command_request(args: Seq<Seq<char>>) -> Result<(RequestView, int), Seq<char>> {
    let command = args[2];
    if command == "ping"@ {
        Ok((RequestView::Ping, 3))
    } else if command == "status"@ {
        Ok((RequestView::Status, 3))
    } else if command == "shutdown"@ {
        Ok((RequestView::Shutdown, 3))
    } else if command == "create"@ {
        match create_request(args) {
            Ok(request) => Ok((request, 8)),
            Err(message) => Err(message),
        }
    } else if command == "delete"@ {
        match required_at(args, 3, "device id"@) {
            Ok(id) => Ok((RequestView::DeleteDevice { id }, 4)),
            Err(message) => Err(message),
        }
    } else if command == "connect"@ {
        match connect_request(args) {
            Ok(request) => Ok((request, 8)),
            Err(message) => Err(message),
        }
    } else if command == "disconnect"@ {
        match required_at(args, 3, "route id"@) {
            Ok(id) => Ok((RequestView::Disconnect { id }, 4)),
            Err(message) => Err(message),
        }
    } else {
        Err("unknown command: "@ + command + "\n"@ + USAGE@)
    }
}

/// What the arguments ask the client to do, or what is wrong with them.
pub open spec fn invocation(args: Seq<Seq<char>>) -> Result<InvocationView, Seq<char>> {
    if args.len() == 0 {
        Err(USAGE@)
    } else if args[0] == "--help"@ || args[0] == "-h"@ {
        Ok(InvocationView::Help)
    } else if args[0] != "--socket"@ {
        Err("the first argument must be --socket PATH"@)
    } else if args.len() < 2 {
        Err("--socket requires a path"@)
    } else if args.len() < 3 {
        Err(USAGE@)
    } else {
        match command_request(args) {
            Err(message) => Err(message),
            Ok((request, used)) => if used < args.len() {
                Err("unexpected argument: "@ + args[used])
            } else {
                Ok(InvocationView::Send { socket: args[1], request })
            },
        }
    }
}

fn required(args: &Vec<String>, at: usize, name: &str) -> (result: Result<String, String>)
    ensures
        match result {
            Ok(value) => required_at(saved::texts(args@), at as int, name@) == Ok::<
                Seq<char>,
                Seq<char>,
            >(value@),
            Err(message) => required_at(saved::texts(args@), at as int, name@) == Err::<
                Seq<char>,
                Seq<char>,
            >(message@),
        },
{
    if at < args.len() {
        Ok(args[at].clone())
    } else {
        Err(joined("missing ", name))
    }
}

fn unsigned(args: &Vec<String>, at: usize, name: &str) -> (result: Result<u32, String>)
    ensures
        match result {
            Ok(value) => unsigned_at(saved::texts(args@), at as int, name@) == Ok::<
                u32,
                Seq<char>,
            >(value),
            Err(message) => unsigned_at(saved::texts(args@), at as int, name@) == Err::<
                u32,
                Seq<char>,
            >(message@),
        },
{
    let value = match required(args, at, name) {
        Ok(value) => value,
        Err(message) => {
            return Err(message);
        },
    };
    proof {
        encode_utf8_valid_utf8(value@);
    }
    match read_u32(value.as_str().as_bytes(), name) {
        Ok(number) => Ok(number),
        Err(error) => Err(complain(error)),
    }
}

fn signed(args: &Vec<String>, at: usize, name: &str) -> (result: Result<i32, String>)
    ensures
        match result {
            Ok(value) => signed_at(saved::texts(args@), at as int, name@) == Ok::<i32, Seq<char>>(
                value,
            ),
            Err(message) => signed_at(saved::texts(args@), at as int, name@) == Err::<
                i32,
                Seq<char>,
            >(message@),
        },
{
    let value = match required(args, at, name) {
        Ok(value) => value,
        Err(message) => {
            return Err(message);
        },
    };
    proof {
        encode_utf8_valid_utf8(value@);
    }
    match read_i32(value.as_str().as_bytes(), name) {
        Ok(number) => Ok(number),
        Err(error) => Err(complain(error)),
    }
}

fn coefficient_list(args: &Vec<String>, at: usize) -> (result: Result<Vec<i32>, String>)
    ensures
        match result {
            Ok(values) => coefficients_at(saved::texts(args@), at as int) == Ok::<
                Seq<i32>,
                Seq<char>,
            >(values@),
            Err(message) => coefficients_at(saved::texts(args@), at as int) == Err::<
                Seq<i32>,
                Seq<char>,
            >(message@),
        },
{
    if at >= args.len() {
        let values: Vec<i32> = Vec::new();
        assert(values@ =~= seq![]);
        return Ok(values);
    }
    proof {
        encode_utf8_valid_utf8(args@[at as int]@);
    }
    match read_coefficients(args[at].as_str().as_bytes()) {
        Ok(values) => Ok(values),
        Err(error) => Err(complain(error)),
    }
}

fn create(args: &Vec<String>) -> (result: Result<Request, String>)
    ensures
        match result {
            Ok(request) => create_request(saved::texts(args@)) == Ok::<RequestView, Seq<char>>(
                request@,
            ),
            Err(message) => create_request(saved::texts(args@)) == Err::<RequestView, Seq<char>>(
                message@,
            ),
        },
{
    let id = match required(args, 3, "device id") {
        Ok(id) => id,
        Err(message) => {
            return Err(message);
        },
    };
    let name = match required(args, 4, "device name") {
        Ok(name) => name,
        Err(message) => {
            return Err(message);
        },
    };
    let input_channels = match unsigned(args, 5, "input channels") {
        Ok(channels) => channels,
        Err(message) => {
            return Err(message);
        },
    };
    let output_channels = match unsigned(args, 6, "output channels") {
        Ok(channels) => channels,
        Err(message) => {
            return Err(message);
        },
    };
    let sample_rate = match unsigned(args, 7, "sample rate") {
        Ok(rate) => rate,
        Err(message) => {
            return Err(message);
        },
    };
    Ok(Request::CreateDevice { id, name, input_channels, output_channels, sample_rate })
}

fn connect(args: &Vec<String>) -> (result: Result<Request, String>)
    ensures
        match result {
            Ok(request) => connect_request(saved::texts(args@)) == Ok::<RequestView, Seq<char>>(
                request@,
            ),
            Err(message) => connect_request(saved::texts(args@)) == Err::<RequestView, Seq<char>>(
                message@,
            ),
        },
{
    let id = match required(args, 3, "route id") {
        Ok(id) => id,
        Err(message) => {
            return Err(message);
        },
    };
    let source = match required(args, 4, "source endpoint") {
        Ok(source) => source,
        Err(message) => {
            return Err(message);
        },
    };
    let sink = match required(args, 5, "sink endpoint") {
        Ok(sink) => sink,
        Err(message) => {
            return Err(message);
        },
    };
    let gain_millidb = match signed(args, 6, "gain in 0.001 dB") {
        Ok(gain) => gain,
        Err(message) => {
            return Err(message);
        },
    };
    let matrix_millionths = match coefficient_list(args, 7) {
        Ok(values) => values,
        Err(message) => {
            return Err(message);
        },
    };
    Ok(Request::Connect { id, source, sink, gain_millidb, matrix_millionths })
}

/// The request that a command stands for, and the number of arguments that it takes at most.
fn command(args: &Vec<String>) -> (result: Result<(Request, usize), String>)
    requires
        args@.len() >= 3,
    ensures
        match result {
            Ok((request, used)) => command_request(saved::texts(args@)) == Ok::<
                (RequestView, int),
                Seq<char>,
            >((request@, used as int)),
            Err(message) => command_request(saved::texts(args@)) == Err::<
                (RequestView, int),
                Seq<char>,
            >(message@),
        },
{
    let name = args[2].as_str();
    if same_text(name, "ping") {
        Ok((Request::Ping, 3))
    } else if same_text(name, "status") {
        Ok((Request::Status, 3))
    } else if same_text(name, "shutdown") {
        Ok((Request::Shutdown, 3))
    } else if same_text(name, "create") {
        match create(args) {
            Ok(request) => Ok((request, 8)),
            Err(message) => Err(message),
        }
    } else if same_text(name, "delete") {
        match required(args, 3, "device id") {
            Ok(id) => Ok((Request::DeleteDevice { id }, 4)),
            Err(message) => Err(message),
        }
    } else if same_text(name, "connect") {
        match connect(args) {
            Ok(request) => Ok((request, 8)),
            Err(message) => Err(message),
        }
    } else if same_text(name, "disconnect") {
        match required(args, 3, "route id") {
            Ok(id) => Ok((Request::Disconnect { id }, 4)),
            Err(message) => Err(message),
        }
    } else {
        let mut message = joined("unknown command: ", name);
        message.append("\n");
        message.append(USAGE);
        Err(message)
    }
}

/// Reads the arguments of the client, without the name of the program.
pub fn parse_invocation(args: &Vec<String>) -> (result: Result<Invocation, String>)
    ensures
        match result {
            Ok(parsed) => invocation(saved::texts(args@)) == Ok::<InvocationView, Seq<char>>(
                parsed@,
            ),
            Err(message) => invocation(saved::texts(args@)) == Err::<InvocationView, Seq<char>>(
                message@,
            ),
        },
{
    if args.len() == 0 {
        return Err(usage());
    }
    let flag = args[0].as_str();
    if same_text(flag, "--help") || same_text(flag, "-h") {
        return Ok(Invocation::Help);
    }
    if !same_text(flag, "--socket") {
        return Err("the first argument must be --socket PATH".to_owned());
    }
    if args.len() < 2 {
        return Err("--socket requires a path".to_owned());
    }
    if args.len() < 3 {
        return Err(usage());
    }
    let (request, used) = match command(args) {
        Ok(parsed) => parsed,
        Err(message) => {
            return Err(message);
        },
    };
    if used < args.len() {
        return Err(joined("unexpected argument: ", args[used].as_str()));
    }
    Ok(Invocation::Send { socket: args[1].clone(), request })
}

/// What the client prints for an answer, or the error that it ends with.
pub fn report(response: Response) -> (result: Result<String, String>)
    ensures
        match response@ {
            protocol::ResponseView::Accepted(message) => result matches Ok(text) && text@
                == message,
            protocol::ResponseView::Error { code, message } => result matches Err(text) && text@
                == code + ": "@ + message,
        },
{
    match response {
        Response::Accepted(message) => Ok(message),
        Response::Error { code, message } => {
            let mut text = joined(code.as_str(), ": ");
            text.append(message.as_str());
            Err(text)
        },
    }
}

/// Where the daemon listens, and where it keeps its routes.
#[derive(Debug, Eq, PartialEq)]
pub struct Options {
    pub socket: String,
    pub state: String,
}

/// What the daemon's arguments ask for.
pub enum OptionsView {
    Help,
    Run { socket: Seq<char>, state: Seq<char> },
}

/// What the daemon's arguments ask for, or what is wrong with them. A later path takes the place of
/// an earlier one.
pub open spec fn daemon_options(
    args: Seq<Seq<char>>,
    socket: Option<Seq<char>>,
    state: Option<Seq<char>>,
) -> Result<OptionsView, Seq<char>>
    decreases args.len(),
{
    if args.len() == 0 {
        match (socket, state) {
            (None, _) => Err("--socket is required"@),
            (_, None) => Err("--state is required"@),
            (Some(socket), Some(state)) => Ok(OptionsView::Run { socket, state }),
        }
    } else if args[0] == "--help"@ || args[0] == "-h"@ {
        Ok(OptionsView::Help)
    } else if args[0] != "--socket"@ && args[0] != "--state"@ {
        Err("unknown argument: "@ + args[0])
    } else if args.len() < 2 {
        Err(args[0] + " requires a path"@)
    } else if args[0] == "--socket"@ {
        daemon_options(args.skip(2), Some(args[1]), state)
    } else {
        daemon_options(args.skip(2), socket, Some(args[1]))
    }
}

/// A text that may be missing, by its characters.
pub open spec fn optional(text: Option<String>) -> Option<Seq<char>> {
    match text {
        Some(text) => Some(text@),
        None => None,
    }
}

/// How the daemon is used.
pub const DAEMON_USAGE: &'static str = "usage: vcabled --socket PATH --state PATH";

impl Options {
    /// Reads the arguments of the daemon, without the name of the program. Nothing comes back where
    /// help was asked for.
    pub fn parse(args: &Vec<String>) -> (result: Result<Option<Self>, String>)
        ensures
            daemon_options(saved::texts(args@), None, None) == match result {
                Ok(Some(options)) => Ok::<OptionsView, Seq<char>>(
                    OptionsView::Run { socket: options.socket@, state: options.state@ },
                ),
                Ok(None) => Ok(OptionsView::Help),
                Err(message) => Err(message@),
            },
    {
        let ghost all = saved::texts(args@);
        let mut socket: Option<String> = None;
        let mut state: Option<String> = None;
        let mut at: usize = 0;
        assert(all.skip(0) =~= all);
        while at < args.len()
            invariant
                at <= args@.len(),
                all == saved::texts(args@),
                daemon_options(all, None, None) == daemon_options(
                    all.skip(at as int),
                    optional(socket),
                    optional(state),
                ),
            decreases args.len() - at,
        {
            let argument = args[at].as_str();
            assert(all.skip(at as int)[0] == argument@);
            if same_text(argument, "--help") || same_text(argument, "-h") {
                return Ok(None);
            }
            let is_socket = same_text(argument, "--socket");
            if !is_socket && !same_text(argument, "--state") {
                return Err(joined("unknown argument: ", argument));
            }
            if args.len() - at < 2 {
                return Err(joined(argument, " requires a path"));
            }
            let path = args[at + 1].clone();
            proof {
                assert(all.skip(at as int)[1] == path@);
                assert(all.skip(at as int).skip(2) =~= all.skip(at + 2));
            }
            if is_socket {
                socket = Some(path);
            } else {
                state = Some(path);
            }
            at = at + 2;
        }
        match (socket, state) {
            (None, _) => Err("--socket is required".to_owned()),
            (_, None) => Err("--state is required".to_owned()),
            (Some(socket), Some(state)) => Ok(Some(Options { socket, state })),
        }
    }
}

} // verus!
