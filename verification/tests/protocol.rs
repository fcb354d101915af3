use vcable::{
    read_message, write_message, Message, ProtocolError, Request, Response, MAX_MESSAGE_BYTES,
};

fn connect(matrix: &[i32]) -> Request {
    Request::Connect {
        id: "r\t1".to_owned(),
        source: "audio:é:input".to_owned(),
        sink: "audio:x:output".to_owned(),
        gain_millidb: -6_020,
        matrix_millionths: matrix.to_vec(),
    }
}

#[test]
fn request_round_trips_through_framing() {
    let request = Request::CreateDevice {
        id: "chat-device".to_owned(),
        name: "Chat % Device\n".to_owned(),
        input_channels: 2,
        output_channels: 2,
        sample_rate: 48_000,
    };
    let mut bytes = Vec::new();
    write_message(&mut bytes, &request).unwrap();
    assert_eq!(
        read_message::<Request>(&mut bytes.as_slice()).unwrap(),
        request
    );
}

#[test]
fn every_request_reads_back() {
    for request in [
        Request::Ping,
        Request::Status,
        Request::Shutdown,
        Request::DeleteDevice { id: String::new() },
        connect(&[]),
        connect(&[500_000, -1, i32::MIN, i32::MAX]),
        Request::Disconnect { id: "日本".to_owned() },
    ] {
        assert_eq!(Request::decode(&request.encode()).unwrap(), request);
    }
    for response in [
        Response::Accepted("a\nb\tc".to_owned()),
        Response::Error { code: "state_io".to_owned(), message: "100%".to_owned() },
    ] {
        assert_eq!(Response::decode(&response.encode()).unwrap(), response);
    }
}

#[test]
fn encodings_are_exact() {
    assert_eq!(
        connect(&[1, -2]).encode(),
        "connect\tr%091\taudio:%C3%A9:input\taudio:x:output\t-6020\t1,-2"
    );
    assert_eq!(
        connect(&[]).encode(),
        "connect\tr%091\taudio:%C3%A9:input\taudio:x:output\t-6020\t"
    );
    assert_eq!(
        Response::Error { code: "a".to_owned(), message: "b c".to_owned() }.encode(),
        "error\ta\tb c"
    );
    assert_eq!(Response::Accepted("x/y".to_owned()).encode(), "ok\tx/y");
}

#[test]
fn frames_carry_their_length_first() {
    let mut bytes = Vec::new();
    write_message(&mut bytes, &Request::Ping).unwrap();
    write_message(&mut bytes, &Request::Status).unwrap();
    assert_eq!(&bytes[..8], b"\0\0\0\x04ping");
    let mut reader = bytes.as_slice();
    assert_eq!(read_message::<Request>(&mut reader).unwrap(), Request::Ping);
    assert_eq!(read_message::<Request>(&mut reader).unwrap(), Request::Status);
    assert!(reader.is_empty());
}

#[test]
fn frames_that_cannot_be_read_are_refused() {
    let read = |bytes: &[u8]| read_message::<Request>(&mut &bytes[..]).unwrap_err();
    assert_eq!(read(b"\0\0"), ProtocolError::Truncated);
    assert_eq!(read(b"\0\0\0\x04pin"), ProtocolError::Truncated);
    assert_eq!(read(b"\0\0\0\x02\xff\xfe"), ProtocolError::InvalidUtf8);
    assert_eq!(
        read(b"\0\x10\0\x01"),
        ProtocolError::MessageTooLarge(MAX_MESSAGE_BYTES + 1)
    );
    assert_eq!(
        read(b"\0\0\0\x04pong"),
        ProtocolError::InvalidMessage("pong".to_owned())
    );
    assert_eq!(read(b"\0\0\0\x04pong").text(), "invalid message: pong");
    assert_eq!(ProtocolError::Truncated.text(), "message is truncated");
    assert_eq!(ProtocolError::InvalidUtf8.text(), "message is not valid UTF-8");
    assert_eq!(
        ProtocolError::MessageTooLarge(7).text(),
        "message is too large: 7 bytes"
    );
    assert_eq!(ProtocolError::Io("broken pipe".to_owned()).text(), "broken pipe");
}

#[test]
fn messages_that_are_too_large_are_not_sent() {
    let request = Request::Disconnect { id: "x".repeat(MAX_MESSAGE_BYTES) };
    let mut bytes = vec![1];
    assert_eq!(
        write_message(&mut bytes, &request),
        Err(ProtocolError::MessageTooLarge(MAX_MESSAGE_BYTES + 11))
    );
    assert_eq!(bytes, [1]);
    let request = Request::Disconnect { id: "x".repeat(MAX_MESSAGE_BYTES - 11) };
    write_message(&mut bytes, &request).unwrap();
    assert_eq!(bytes.len(), 1 + 4 + MAX_MESSAGE_BYTES);
}

#[test]
fn fields_that_cannot_be_read_are_refused() {
    let read = |text: &str| Request::decode(text).unwrap_err();
    let invalid = |text: &str| ProtocolError::InvalidMessage(text.to_owned());
    assert_eq!(read("delete\ta%2"), invalid("incomplete escape"));
    assert_eq!(read("delete\ta%zz"), invalid("invalid escape"));
    assert_eq!(read("delete\t%ff"), ProtocolError::InvalidUtf8);
    assert_eq!(
        read("create\ta\tb\tx\t2\t3"),
        invalid("invalid input channel count: x")
    );
    assert_eq!(
        read("create\ta\tb\t1\t-2\t3"),
        invalid("invalid output channel count: -2")
    );
    assert_eq!(
        read("create\ta\tb\t1\t2\t4294967296"),
        invalid("invalid sample rate: 4294967296")
    );
    assert_eq!(
        read("connect\ta\tb\tc\t1.5\t"),
        invalid("invalid gain: 1.5")
    );
    assert_eq!(
        read("connect\ta\tb\tc\t1\t1,,2"),
        invalid("invalid matrix coefficient: ")
    );
    assert_eq!(read("ping\t"), invalid("ping\t"));
    assert_eq!(
        Request::decode("create\t%C3%A9\tb\t+1\t02\t3").unwrap(),
        Request::CreateDevice {
            id: "é".to_owned(),
            name: "b".to_owned(),
            input_channels: 1,
            output_channels: 2,
            sample_rate: 3,
        }
    );
    assert_eq!(
        Response::decode("fine").unwrap_err(),
        ProtocolError::InvalidMessage("fine".to_owned())
    );
}
