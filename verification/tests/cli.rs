use vcable::{parse_invocation, report, usage, Invocation, Options, Request, Response};

fn words(args: &[&str]) -> Vec<String> {
    args.iter().map(|argument| (*argument).to_owned()).collect()
}

fn request(args: &[&str]) -> Result<Request, String> {
    let mut all = words(&["--socket", "/s"]);
    all.extend(words(args));
    parse_invocation(&all).map(|invocation| match invocation {
        Invocation::Send { socket, request } => {
            assert_eq!(socket, "/s");
            request
        }
        Invocation::Help => panic!("help was not asked for"),
    })
}

#[test]
fn commands_become_requests() {
    assert_eq!(request(&["ping"]), Ok(Request::Ping));
    assert_eq!(request(&["status"]), Ok(Request::Status));
    assert_eq!(request(&["shutdown"]), Ok(Request::Shutdown));
    assert_eq!(
        request(&["create", "chat", "VCable Chat", "2", "+4", "48000"]),
        Ok(Request::CreateDevice {
            id: "chat".to_owned(),
            name: "VCable Chat".to_owned(),
            input_channels: 2,
            output_channels: 4,
            sample_rate: 48_000,
        })
    );
    assert_eq!(
        request(&["delete", "chat"]),
        Ok(Request::DeleteDevice { id: "chat".to_owned() })
    );
    let connect = |gain_millidb, matrix_millionths| Request::Connect {
        id: "r".to_owned(),
        source: "a".to_owned(),
        sink: "b".to_owned(),
        gain_millidb,
        matrix_millionths,
    };
    assert_eq!(request(&["connect", "r", "a", "b", "0"]), Ok(connect(0, vec![])));
    assert_eq!(
        request(&["connect", "r", "a", "b", "-6020", "500000,-500000"]),
        Ok(connect(-6_020, vec![500_000, -500_000]))
    );
    assert_eq!(
        request(&["disconnect", "r"]),
        Ok(Request::Disconnect { id: "r".to_owned() })
    );
}

#[test]
fn help_is_found_first() {
    for flag in ["--help", "-h"] {
        assert_eq!(parse_invocation(&words(&[flag, "x"])), Ok(Invocation::Help));
        assert_eq!(Options::parse(&words(&["--state", "s", flag])), Ok(None));
    }
}

#[test]
fn arguments_that_are_wrong_are_told() {
    let told = |args: &[&str]| parse_invocation(&words(args)).unwrap_err();
    assert_eq!(told(&[]), usage());
    assert_eq!(told(&["ping"]), "the first argument must be --socket PATH");
    assert_eq!(told(&["--socket"]), "--socket requires a path");
    assert_eq!(told(&["--socket", "/s"]), usage());
    let told = |args: &[&str]| request(args).unwrap_err();
    assert_eq!(told(&["jump"]), format!("unknown command: jump\n{}", usage()));
    assert_eq!(told(&["ping", "x"]), "unexpected argument: x");
    assert_eq!(told(&["delete"]), "missing device id");
    assert_eq!(told(&["disconnect"]), "missing route id");
    assert_eq!(told(&["create", "a"]), "missing device name");
    assert_eq!(told(&["create", "a", "b", "x"]), "invalid input channels: x");
    assert_eq!(told(&["create", "a", "b", "1"]), "missing output channels");
    assert_eq!(told(&["create", "a", "b", "1", "2", ""]), "invalid sample rate: ");
    assert_eq!(
        told(&["create", "a", "b", "1", "2", "3", "4"]),
        "unexpected argument: 4"
    );
    assert_eq!(told(&["connect", "r", "a"]), "missing sink endpoint");
    assert_eq!(
        told(&["connect", "r", "a", "b", "1.5"]),
        "invalid gain in 0.001 dB: 1.5"
    );
    assert_eq!(
        told(&["connect", "r", "a", "b", "1", "1,x"]),
        "invalid matrix coefficient: x"
    );
    assert_eq!(
        told(&["connect", "r", "a", "b", "1", ""]),
        "invalid matrix coefficient: "
    );
    assert_eq!(
        told(&["connect", "r", "a", "b", "1", "1", "2"]),
        "unexpected argument: 2"
    );
}

#[test]
fn usage_names_every_command() {
    let usage = usage();
    let lines: Vec<&str> = usage.split('\n').collect();
    assert_eq!(lines.len(), 8);
    assert_eq!(lines[0], "usage:");
    assert_eq!(
        lines[6],
        "  vcablectl --socket PATH connect ID SOURCE SINK GAIN_MILLIDB [MATRIX_MILLIONTHS]"
    );
}

#[test]
fn answers_are_reported() {
    assert_eq!(report(Response::Accepted("pong".to_owned())), Ok("pong".to_owned()));
    assert_eq!(
        report(Response::Error { code: "c".to_owned(), message: "m".to_owned() }),
        Err("c: m".to_owned())
    );
}

#[test]
fn daemon_options_are_read() {
    assert_eq!(
        Options::parse(&words(&["--state", "a", "--socket", "b", "--state", "c"])),
        Ok(Some(Options { socket: "b".to_owned(), state: "c".to_owned() }))
    );
    let told = |args: &[&str]| Options::parse(&words(args)).unwrap_err();
    assert_eq!(told(&[]), "--socket is required");
    assert_eq!(told(&["--socket", "b"]), "--state is required");
    assert_eq!(told(&["--socket", "b", "--state"]), "--state requires a path");
    assert_eq!(told(&["now", "--help"]), "unknown argument: now");
}
