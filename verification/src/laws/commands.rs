//! Laws of command lines.
use vstd::prelude::*;
use vstd::utf8::*;
use crate::cli;
use crate::cli::{parse_invocation, report, Invocation, Options, OptionsView};
use crate::daemon::{DaemonError, DaemonState};
use crate::fields;
use crate::float::FloatMath;
use crate::laws::requests;
use crate::laws::wire;
use crate::protocol;
use crate::protocol::{Message, ProtocolError, ProtocolErrorView, Request, Response};
use crate::requests::{Action, Step, Task};
use crate::router::RouterMetrics;
use crate::saved;

verus! {

/// The text is read as a number: digits, with a plus sign allowed in front.
pub open spec fn is_read_as(chars: Seq<char>, number: int) -> bool {
    let digits = wire::without_plus(encode_utf8(chars));
    wire::are_digits(digits) && wire::value_of(digits) == number
}

/// The bytes are read as a signed number: digits, with a plus or a minus sign allowed in front.
pub open spec fn is_signed_as(bytes: Seq<u8>, number: int) -> bool {
    if bytes.len() > 0 && bytes[0] == '-' as u8 {
        wire::are_digits(bytes.skip(1)) && -wire::value_of(bytes.skip(1)) == number
    } else {
        let digits = wire::without_plus(bytes);
        wire::are_digits(digits) && wire::value_of(digits) == number
    }
}

/// The bytes are not read as a signed number of 32 bits.
pub open spec fn is_no_number(bytes: Seq<u8>) -> bool {
    forall|value: i32| !#[trigger] is_signed_as(bytes, value as int)
}

/// The bytes are read as signed numbers with a comma between any two of them.
pub open spec fn is_list_of(bytes: Seq<u8>, numbers: Seq<i32>) -> bool {
    exists|parts: Seq<Seq<u8>>|
        {
            &&& parts.len() == numbers.len()
            &&& forall|i: int|
                0 <= i < parts.len() ==> is_signed_as(#[trigger] parts[i], numbers[i] as int)
            &&& bytes == #[trigger] wire::with_commas(parts)
        }
}

proof fn lemma_unsigned(chars: Seq<char>, name: Seq<char>)
    ensures
        match protocol::field_u32(encode_utf8(chars), name) {
            Ok(value) => is_read_as(chars, value as int),
            Err(_) => forall|value: u32| !#[trigger] is_read_as(chars, value as int),
        },
        forall|a: u32, b: u32| #[trigger]
            is_read_as(chars, a as int) && #[trigger] is_read_as(chars, b as int) ==> a == b,
{
    wire::lemma_value(wire::without_plus(encode_utf8(chars)));
}

proof fn lemma_signed(bytes: Seq<u8>, name: Seq<char>)
    ensures
        match protocol::field_i32(bytes, name) {
            Ok(value) => is_signed_as(bytes, value as int),
            Err(_) => is_no_number(bytes),
        },
        forall|a: i32, b: i32| #[trigger]
            is_signed_as(bytes, a as int) && #[trigger] is_signed_as(bytes, b as int) ==> a == b,
{
    wire::lemma_value(wire::without_plus(bytes));
    wire::lemma_value(bytes.skip(1));
}

/// The pieces between commas have commas between them, and none in them.
proof fn lemma_pieces(bytes: Seq<u8>)
    ensures
        ({
            let parts = fields::split(bytes, fields::COMMA);
            &&& parts.len() > 0
            &&& wire::with_commas(parts) == bytes
        }),
    decreases bytes.len(),
{
    let parts = fields::split(bytes, fields::COMMA);
    if bytes.len() == 0 {
        assert(wire::with_commas(parts) =~= bytes);
    } else {
        let shorter = bytes.drop_last();
        let before = fields::split(shorter, fields::COMMA);
        lemma_pieces(shorter);
        if bytes.last() == fields::COMMA {
            assert(parts.drop_last() =~= before);
            assert(wire::with_commas(parts) =~= shorter + seq![',' as u8]);
            assert(shorter + seq![',' as u8] =~= bytes);
        } else {
            assert(parts.drop_last() =~= before.drop_last());
            assert(wire::with_commas(parts) =~= wire::with_commas(before).push(bytes.last()));
            assert(shorter.push(bytes.last()) =~= bytes);
        }
    }
}

/// Coefficients are read one by one.
proof fn lemma_coefficients(parts: Seq<Seq<u8>>)
    ensures
        match protocol::coefficients(parts) {
            Ok(values) => {
                &&& values.len() == parts.len()
                &&& forall|i: int|
                    0 <= i < parts.len() ==> is_signed_as(#[trigger] parts[i], values[i] as int)
            },
            Err(_) => exists|i: int|
                0 <= i < parts.len() && is_no_number(#[trigger] parts[i]),
        },
    decreases parts.len(),
{
    if parts.len() > 0 {
        let shorter = parts.drop_last();
        lemma_coefficients(shorter);
        lemma_signed(parts.last(), "matrix coefficient"@);
        match protocol::coefficients(shorter) {
            Ok(before) => {
                if let Ok(values) = protocol::coefficients(parts) {
                    assert forall|i: int| 0 <= i < parts.len() implies is_signed_as(
                        #[trigger] parts[i],
                        values[i] as int,
                    ) by {
                        if i < shorter.len() {
                            assert(is_signed_as(shorter[i], before[i] as int));
                        }
                    }
                }
            },
            Err(_) => {
                let i = choose|i: int|
                    0 <= i < shorter.len() && is_no_number(#[trigger] shorter[i]);
                assert(parts[i] == shorter[i]);
            },
        }
    }
}

/// A list of numbers is read as these numbers.
proof fn lemma_list_of(bytes: Seq<u8>, numbers: Seq<i32>)
    requires
        numbers.len() > 0,
        is_list_of(bytes, numbers),
    ensures
        protocol::coefficients(fields::split(bytes, fields::COMMA)) == Ok::<
            Seq<i32>,
            ProtocolErrorView,
        >(numbers),
{
    let parts = choose|parts: Seq<Seq<u8>>|
        {
            &&& parts.len() == numbers.len()
            &&& forall|i: int|
                0 <= i < parts.len() ==> is_signed_as(#[trigger] parts[i], numbers[i] as int)
            &&& bytes == #[trigger] wire::with_commas(parts)
        };
    assert forall|i: int| 0 <= i < parts.len() implies !(#[trigger] parts[i]).contains(
        fields::COMMA,
    ) by {
        let part = parts[i];
        assert(is_signed_as(part, numbers[i] as int));
        assert forall|k: int| 0 <= k < part.len() implies part[k] != fields::COMMA by {
            if part[0] == '-' as u8 || part[0] == '+' as u8 {
                if k > 0 {
                    assert(part.skip(1)[k - 1] == part[k]);
                }
            }
        }
    }
    wire::lemma_commas(parts);
    fields::split_inverts_join(parts, fields::COMMA);
    lemma_coefficients(parts);
    match protocol::coefficients(parts) {
        Ok(values) => {
            assert forall|i: int| 0 <= i < values.len() implies values[i] == numbers[i] by {
                assert(is_signed_as(parts[i], values[i] as int));
                assert(is_signed_as(parts[i], numbers[i] as int));
                lemma_signed(parts[i], "matrix coefficient"@);
            }
            assert(values =~= numbers);
        },
        Err(_) => {
            let i = choose|i: int| 0 <= i < parts.len() && is_no_number(#[trigger] parts[i]);
            assert(is_signed_as(parts[i], numbers[i] as int));
        },
    }
}

/// What the client sends is what its command line names: the command behind the socket, and the
/// arguments in their places.
pub proof fn commands_send_what_they_name(
    args: Vec<String>,
    socket: String,
    request: Request,
)
    requires
        call_ensures(
            parse_invocation,
            (&args,),
            Ok::<Invocation, String>(Invocation::Send { socket, request }),
        ),
    ensures
        args@.len() >= 3,
        args@[0]@ == "--socket"@,
        socket@ == args@[1]@,
        match request {
            Request::Ping => args@.len() == 3 && args@[2]@ == "ping"@,
            Request::Status => args@.len() == 3 && args@[2]@ == "status"@,
            Request::Shutdown => args@.len() == 3 && args@[2]@ == "shutdown"@,
            Request::CreateDevice { id, name, input_channels, output_channels, sample_rate } => {
                &&& args@.len() == 8
                &&& args@[2]@ == "create"@
                &&& id@ == args@[3]@
                &&& name@ == args@[4]@
                &&& is_read_as(args@[5]@, input_channels as int)
                &&& is_read_as(args@[6]@, output_channels as int)
                &&& is_read_as(args@[7]@, sample_rate as int)
            },
            Request::DeleteDevice { id } => {
                &&& args@.len() == 4
                &&& args@[2]@ == "delete"@
                &&& id@ == args@[3]@
            },
            Request::Connect { id, source, sink, gain_millidb, matrix_millionths } => {
                &&& 7 <= args@.len() <= 8
                &&& args@[2]@ == "connect"@
                &&& id@ == args@[3]@
                &&& source@ == args@[4]@
                &&& sink@ == args@[5]@
                &&& is_signed_as(encode_utf8(args@[6]@), gain_millidb as int)
                &&& args@.len() == 7 ==> matrix_millionths@.len() == 0
                &&& args@.len() == 8 ==> is_list_of(encode_utf8(args@[7]@), matrix_millionths@)
            },
            Request::Disconnect { id } => {
                &&& args@.len() == 4
                &&& args@[2]@ == "disconnect"@
                &&& id@ == args@[3]@
            },
        },
{
    let all = saved::texts(args@);
    if all.len() >= 8 {
        lemma_unsigned(all[5], "input channels"@);
        lemma_unsigned(all[6], "output channels"@);
        lemma_unsigned(all[7], "sample rate"@);
    }
    if all.len() >= 7 {
        lemma_signed(encode_utf8(all[6]), "gain in 0.001 dB"@);
    }
    if all.len() == 8 {
        let parts = fields::split(encode_utf8(all[7]), fields::COMMA);
        lemma_pieces(encode_utf8(all[7]));
        lemma_coefficients(parts);
    }
    lemma_words();
}

/// The commands are different words.
proof fn lemma_words()
    ensures
        "ping"@ != "status"@,
        "ping"@ != "shutdown"@,
        "status"@ != "shutdown"@,
        "create"@ != "delete"@,
        "connect"@ != "disconnect"@,
        "create"@ != "connect"@,
        "create"@ != "disconnect"@,
        "delete"@ != "connect"@,
        "delete"@ != "disconnect"@,
        "create"@ != "ping"@,
        "create"@ != "status"@,
        "create"@ != "shutdown"@,
        "delete"@ != "ping"@,
        "delete"@ != "status"@,
        "delete"@ != "shutdown"@,
        "connect"@ != "ping"@,
        "connect"@ != "status"@,
        "connect"@ != "shutdown"@,
        "disconnect"@ != "ping"@,
        "disconnect"@ != "status"@,
        "disconnect"@ != "shutdown"@,
{
    reveal_strlit("ping");
    reveal_strlit("status");
    reveal_strlit("shutdown");
    reveal_strlit("create");
    reveal_strlit("delete");
    reveal_strlit("connect");
    reveal_strlit("disconnect");
    assert("ping"@.len() == 4 && "status"@.len() == 6 && "shutdown"@.len() == 8);
    assert("create"@.len() == 6 && "create"@[0] == 'c' && "status"@[0] == 's');
    assert("delete"@.len() == 6 && "delete"@[0] == 'd');
    assert("connect"@.len() == 7 && "disconnect"@.len() == 10);
}

/// A whole command line is understood: one for a device, with an id, a name and three numbers.
pub proof fn create_commands_are_understood(
    args: Vec<String>,
    result: Result<Invocation, String>,
    inputs: u32,
    outputs: u32,
    rate: u32,
)
    requires
        call_ensures(parse_invocation, (&args,), result),
        args@.len() == 8,
        args@[0]@ == "--socket"@,
        args@[2]@ == "create"@,
        is_read_as(args@[5]@, inputs as int),
        is_read_as(args@[6]@, outputs as int),
        is_read_as(args@[7]@, rate as int),
    ensures
        result matches Ok(Invocation::Send { socket, request }) && socket@ == args@[1]@ && (request
            matches Request::CreateDevice {
            id,
            name,
            input_channels,
            output_channels,
            sample_rate,
        } && id@ == args@[3]@ && name@ == args@[4]@ && input_channels == inputs && output_channels
            == outputs && sample_rate == rate),
{
    let all = saved::texts(args@);
    reveal_strlit("--socket");
    reveal_strlit("--help");
    reveal_strlit("-h");
    assert("--socket"@.len() == 8 && "--help"@.len() == 6 && "-h"@.len() == 2);
    lemma_unsigned(all[5], "input channels"@);
    lemma_unsigned(all[6], "output channels"@);
    lemma_unsigned(all[7], "sample rate"@);
    lemma_words();
}

/// A whole command line is understood: one for a route, with an id, a source, a sink, a gain, and
/// coefficients where there are any.
pub proof fn connect_commands_are_understood(
    args: Vec<String>,
    result: Result<Invocation, String>,
    gain: i32,
    numbers: Seq<i32>,
)
    requires
        call_ensures(parse_invocation, (&args,), result),
        7 <= args@.len() <= 8,
        args@[0]@ == "--socket"@,
        args@[2]@ == "connect"@,
        is_signed_as(encode_utf8(args@[6]@), gain as int),
        args@.len() == 8 ==> numbers.len() > 0 && is_list_of(encode_utf8(args@[7]@), numbers),
        args@.len() == 7 ==> numbers.len() == 0,
    ensures
        result matches Ok(Invocation::Send { socket, request }) && socket@ == args@[1]@ && (request
            matches Request::Connect { id, source, sink, gain_millidb, matrix_millionths } && id@
            == args@[3]@ && source@ == args@[4]@ && sink@ == args@[5]@ && gain_millidb == gain
            && matrix_millionths@ == numbers),
{
    let all = saved::texts(args@);
    reveal_strlit("--socket");
    reveal_strlit("--help");
    reveal_strlit("-h");
    assert("--socket"@.len() == 8 && "--help"@.len() == 6 && "-h"@.len() == 2);
    lemma_signed(encode_utf8(all[6]), "gain in 0.001 dB"@);
    if all.len() == 8 {
        lemma_list_of(encode_utf8(all[7]), numbers);
    }
    lemma_words();
}

/// A whole command line is understood: a word alone, or a word and an id.
pub proof fn short_commands_are_understood(args: Vec<String>, result: Result<Invocation, String>)
    requires
        call_ensures(parse_invocation, (&args,), result),
        args@.len() >= 3,
        args@[0]@ == "--socket"@,
    ensures
        args@.len() == 3 && args@[2]@ == "ping"@ ==> (result matches Ok(Invocation::Send {
            socket,
            request,
        }) && socket@ == args@[1]@ && request is Ping),
        args@.len() == 3 && args@[2]@ == "status"@ ==> (result matches Ok(Invocation::Send {
            socket,
            request,
        }) && socket@ == args@[1]@ && request is Status),
        args@.len() == 3 && args@[2]@ == "shutdown"@ ==> (result matches Ok(Invocation::Send {
            socket,
            request,
        }) && socket@ == args@[1]@ && request is Shutdown),
        args@.len() == 4 && args@[2]@ == "delete"@ ==> (result matches Ok(Invocation::Send {
            socket,
            request,
        }) && socket@ == args@[1]@ && (request matches Request::DeleteDevice { id } && id@
            == args@[3]@)),
        args@.len() == 4 && args@[2]@ == "disconnect"@ ==> (result matches Ok(Invocation::Send {
            socket,
            request,
        }) && socket@ == args@[1]@ && (request matches Request::Disconnect { id } && id@
            == args@[3]@)),
{
    let all = saved::texts(args@);
    reveal_strlit("--socket");
    reveal_strlit("--help");
    reveal_strlit("-h");
    assert("--socket"@.len() == 8 && "--help"@.len() == 6 && "-h"@.len() == 2);
    lemma_words();
}

/// What is missing from a command line, or too much in it, is named.
pub proof fn faults_of_command_lines_are_named(args: Vec<String>, message: String)
    requires
        call_ensures(parse_invocation, (&args,), Err::<Invocation, String>(message)),
        args@.len() >= 3,
        args@[0]@ == "--socket"@,
    ensures
        args@[2]@ == "create"@ && args@.len() == 3 ==> message@ == "missing "@ + "device id"@,
        args@[2]@ == "create"@ && args@.len() == 4 ==> message@ == "missing "@ + "device name"@,
        args@[2]@ == "create"@ && args@.len() == 5 ==> message@ == "missing "@ + "input channels"@,
        args@[2]@ == "delete"@ && args@.len() == 3 ==> message@ == "missing "@ + "device id"@,
        args@[2]@ == "connect"@ && args@.len() == 3 ==> message@ == "missing "@ + "route id"@,
        args@[2]@ == "connect"@ && args@.len() == 4 ==> message@ == "missing "@
            + "source endpoint"@,
        args@[2]@ == "connect"@ && args@.len() == 5 ==> message@ == "missing "@ + "sink endpoint"@,
        args@[2]@ == "connect"@ && args@.len() == 6 ==> message@ == "missing "@
            + "gain in 0.001 dB"@,
        args@[2]@ == "disconnect"@ && args@.len() == 3 ==> message@ == "missing "@ + "route id"@,
        args@[2]@ == "ping"@ || args@[2]@ == "status"@ || args@[2]@ == "shutdown"@ ==> args@.len()
            > 3 && message@ == "unexpected argument: "@ + args@[3]@,
        (args@[2]@ == "delete"@ || args@[2]@ == "disconnect"@) && args@.len() > 4 ==> message@
            == "unexpected argument: "@ + args@[4]@,
{
    let all = saved::texts(args@);
    reveal_strlit("--socket");
    reveal_strlit("--help");
    reveal_strlit("-h");
    assert("--socket"@.len() == 8 && "--help"@.len() == 6 && "-h"@.len() == 2);
    lemma_words();
}

/// Help is given where it is asked for first, and only there.
pub proof fn help_is_given_on_request(args: Vec<String>, result: Result<Invocation, String>)
    requires
        call_ensures(parse_invocation, (&args,), result),
    ensures
        result matches Ok(Invocation::Help) <==> args@.len() > 0 && (args@[0]@ == "--help"@
            || args@[0]@ == "-h"@),
{
}

/// The client prints the daemon's message, and ends with its error.
pub proof fn answers_are_reported(response: Response, result: Result<String, String>)
    requires
        call_ensures(report, (response,), result),
    ensures
        match response {
            Response::Accepted(message) => result matches Ok(printed) && printed@ == message@,
            Response::Error { code, message } => result matches Err(printed) && printed@ == code@
                + ": "@ + message@,
        },
{
}

/// Every other argument, from the first on, is a flag that takes a path.
pub open spec fn are_flags(args: Seq<Seq<char>>) -> bool {
    &&& args.len() % 2 == 0
    &&& forall|i: int|
        0 <= i < args.len() && i % 2 == 0 ==> #[trigger] args[i] == "--socket"@ || args[i]
            == "--state"@
}

/// The path is the one behind the last of the flags with a name.
pub open spec fn is_last_path(args: Seq<Seq<char>>, flag: Seq<char>, path: Seq<char>) -> bool {
    exists|i: int|
        {
            &&& 0 <= i
            &&& i + 1 < args.len()
            &&& i % 2 == 0
            &&& #[trigger] args[i] == flag
            &&& args[i + 1] == path
            &&& forall|j: int| i < j < args.len() && j % 2 == 0 ==> #[trigger] args[j] != flag
        }
}

/// None of the flags has the name.
pub open spec fn is_without(args: Seq<Seq<char>>, flag: Seq<char>) -> bool {
    forall|i: int| 0 <= i < args.len() && i % 2 == 0 ==> #[trigger] args[i] != flag
}

/// The path of the last of the flags, or the one that was given before.
spec fn is_chosen(
    args: Seq<Seq<char>>,
    flag: Seq<char>,
    before: Option<Seq<char>>,
    path: Seq<char>,
) -> bool {
    ||| is_last_path(args, flag, path)
    ||| is_without(args, flag) && before == Some(path)
}

/// What is chosen among later arguments is chosen among all of them.
proof fn lemma_chosen(
    args: Seq<Seq<char>>,
    flag: Seq<char>,
    before: Option<Seq<char>>,
    path: Seq<char>,
)
    requires
        args.len() >= 2,
        is_chosen(
            args.skip(2),
            flag,
            if args[0] == flag {
                Some(args[1])
            } else {
                before
            },
            path,
        ),
    ensures
        is_chosen(args, flag, before, path),
{
    let rest = args.skip(2);
    if is_last_path(rest, flag, path) {
        let i = choose|i: int|
            {
                &&& 0 <= i
                &&& i + 1 < rest.len()
                &&& i % 2 == 0
                &&& #[trigger] rest[i] == flag
                &&& rest[i + 1] == path
                &&& forall|j: int| i < j < rest.len() && j % 2 == 0 ==> #[trigger] rest[j] != flag
            };
        assert(args[i + 2] == flag);
        assert forall|j: int| i + 2 < j < args.len() && j % 2 == 0 implies #[trigger] args[j]
            != flag by {
            assert(rest[j - 2] != flag);
        }
        assert(is_last_path(args, flag, path));
    } else {
        assert forall|j: int| 0 < j < args.len() && j % 2 == 0 implies #[trigger] args[j]
            != flag by {
            assert(rest[j - 2] != flag);
        }
        if args[0] == flag {
            assert(is_last_path(args, flag, path));
        }
    }
}

/// What options are read from arguments.
proof fn lemma_options(
    args: Seq<Seq<char>>,
    socket: Option<Seq<char>>,
    state: Option<Seq<char>>,
)
    ensures
        match cli::daemon_options(args, socket, state) {
            Ok(OptionsView::Run { socket: s, state: t }) => {
                &&& are_flags(args)
                &&& is_chosen(args, "--socket"@, socket, s)
                &&& is_chosen(args, "--state"@, state, t)
            },
            Ok(OptionsView::Help) => exists|i: int|
                0 <= i < args.len() && i % 2 == 0 && (#[trigger] args[i] == "--help"@ || args[i]
                    == "-h"@),
            Err(_) => {
                ||| !are_flags(args)
                ||| socket is None && is_without(args, "--socket"@)
                ||| state is None && is_without(args, "--state"@)
            },
        },
    decreases args.len(),
{
    reveal_strlit("--socket");
    reveal_strlit("--state");
    assert("--socket"@.len() == 8 && "--state"@.len() == 7);
    if args.len() >= 2 && (args[0] == "--socket"@ || args[0] == "--state"@) && args[0] != "--help"@
        && args[0] != "-h"@ {
        let rest = args.skip(2);
        let new_socket = if args[0] == "--socket"@ {
            Some(args[1])
        } else {
            socket
        };
        let new_state = if args[0] == "--state"@ {
            Some(args[1])
        } else {
            state
        };
        lemma_options(rest, new_socket, new_state);
        assert(cli::daemon_options(args, socket, state) == cli::daemon_options(
            rest,
            new_socket,
            new_state,
        ));
        assert(are_flags(rest) ==> are_flags(args)) by {
            if are_flags(rest) {
                assert forall|i: int| 0 <= i < args.len() && i % 2 == 0 implies #[trigger] args[i]
                    == "--socket"@ || args[i] == "--state"@ by {
                    if i >= 2 {
                        assert(rest[i - 2] == args[i]);
                    }
                }
            }
        }
        assert(are_flags(args) ==> are_flags(rest)) by {
            if are_flags(args) {
                assert forall|i: int| 0 <= i < rest.len() && i % 2 == 0 implies #[trigger] rest[i]
                    == "--socket"@ || rest[i] == "--state"@ by {
                    assert(rest[i] == args[i + 2]);
                }
            }
        }
        match cli::daemon_options(rest, new_socket, new_state) {
            Ok(OptionsView::Run { socket: s, state: t }) => {
                lemma_chosen(args, "--socket"@, socket, s);
                lemma_chosen(args, "--state"@, state, t);
            },
            Ok(OptionsView::Help) => {
                let i = choose|i: int|
                    0 <= i < rest.len() && i % 2 == 0 && (#[trigger] rest[i] == "--help"@ || rest[i]
                        == "-h"@);
                assert(args[i + 2] == rest[i]);
            },
            Err(_) => {
                if are_flags(rest) {
                    if new_socket is None && is_without(rest, "--socket"@) {
                        assert forall|i: int|
                            0 <= i < args.len() && i % 2 == 0 implies #[trigger] args[i]
                            != "--socket"@ by {
                            if i >= 2 {
                                assert(rest[i - 2] == args[i]);
                            }
                        }
                        assert(is_without(args, "--socket"@));
                    } else {
                        assert forall|i: int|
                            0 <= i < args.len() && i % 2 == 0 implies #[trigger] args[i]
                            != "--state"@ by {
                            if i >= 2 {
                                assert(rest[i - 2] == args[i]);
                            }
                        }
                        assert(is_without(args, "--state"@));
                    }
                }
            },
        }
    } else if args.len() > 0 {
        reveal_strlit("--help");
        reveal_strlit("-h");
        assert("--help"@.len() == 6 && "-h"@.len() == 2);
        if args[0] == "--help"@ || args[0] == "-h"@ {
            assert(args[0] == args[0]);
        } else if are_flags(args) {
            assert(args[0] == "--socket"@ || args[0] == "--state"@);
        }
    }
}

/// The daemon listens at the last socket that is named, and keeps its routes in the last file that is
/// named. Both have to be named, and nothing else may be.
pub proof fn daemons_take_the_last_paths(
    args: Vec<String>,
    result: Result<Option<Options>, String>,
)
    requires
        call_ensures(Options::parse, (&args,), result),
    ensures
        ({
            let all = saved::texts(args@);
            match result {
                Ok(Some(options)) => {
                    &&& are_flags(all)
                    &&& is_last_path(all, "--socket"@, options.socket@)
                    &&& is_last_path(all, "--state"@, options.state@)
                },
                Ok(None) => exists|i: int|
                    0 <= i < all.len() && i % 2 == 0 && (#[trigger] all[i] == "--help"@ || all[i]
                        == "-h"@),
                Err(_) => !are_flags(all) || is_without(all, "--socket"@) || is_without(
                    all,
                    "--state"@,
                ),
            }
        }),
{
    lemma_options(saved::texts(args@), None, None);
}

/// A command to create a device comes to the daemon as it was typed: the device that is asked for has
/// the id, the name, the input channels, the output channels and the rate of the command line.
pub proof fn typed_devices_are_created<M: FloatMath>(
    args: Vec<String>,
    socket: String,
    request: Request,
    sent: String,
    received: &str,
    state: &mut DaemonState,
    arrived: Request,
    metrics: Option<RouterMetrics>,
    step: Step,
)
    requires
        args@.len() >= 3,
        args@[2]@ == "create"@,
        call_ensures(
            parse_invocation,
            (&args,),
            Ok::<Invocation, String>(Invocation::Send { socket, request }),
        ),
        call_ensures(Request::encode, (&request,), sent),
        received@ == sent@,
        call_ensures(Request::decode, (received,), Ok::<Request, ProtocolError>(arrived)),
        call_ensures(DaemonState::handle::<M>, (state, arrived, metrics), step),
    ensures
        args@.len() == 8,
        match step {
            Step::Ask(
                Action::CreateDevice { id, name, input_channels, output_channels, sample_rate },
                Task::Create { id: awaited },
            ) => {
                &&& id@ == args@[3]@
                &&& name@ == args@[4]@
                &&& is_read_as(args@[5]@, input_channels as int)
                &&& is_read_as(args@[6]@, output_channels as int)
                &&& is_read_as(args@[7]@, sample_rate as int)
                &&& awaited@ == args@[3]@
            },
            Step::Reply(Err(DaemonError::InvalidDeviceId(id))) => id@ == args@[3]@,
            _ => false,
        },
{
    commands_send_what_they_name(args, socket, request);
    lemma_words();
    wire::requests_are_read_back(
        request,
        sent,
        received,
        Ok::<Request, ProtocolError>(arrived),
    );
    if let Request::CreateDevice { id, name, input_channels, output_channels, sample_rate }
        = arrived {
        requests::devices_are_created_as_requested::<M>(
            state,
            id,
            name,
            input_channels,
            output_channels,
            sample_rate,
            metrics,
            step,
        );
    }
}

} // verus!
