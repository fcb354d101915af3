//! The length-prefixed control protocol between the daemon and its clients.
use vstd::prelude::*;
use vstd::slice::{slice_subrange, slice_to_vec};
use vstd::string::StringExecFns;
use vstd::utf8::*;
use crate::fields;
use crate::fields::{COMMA, TAB, append, escape, join_fields, split_fields, unescape_bytes};
use crate::text;
use crate::text::{
    digits_text, joined, parse_i32, parse_u32, push_digits, push_signed, same_bytes,
    text_from_utf8, text_of,
};

verus! {

/// The largest message body that is sent or accepted.
pub const MAX_MESSAGE_BYTES: usize = 1_048_576;

/// What a client asks of the daemon.
#[derive(Clone, Debug, Eq, PartialEq)]
pub enum Request {
    Ping,
    Status,
    Shutdown,
    CreateDevice {
        id: String,
        name: String,
        input_channels: u32,
        output_channels: u32,
        sample_rate: u32,
    },
    DeleteDevice { id: String },
    Connect {
        id: String,
        source: String,
        sink: String,
        gain_millidb: i32,
        matrix_millionths: Vec<i32>,
    },
    Disconnect { id: String },
}

/// What the daemon answers.
#[derive(Clone, Debug, Eq, PartialEq)]
pub enum Response {
    Accepted(String),
    Error { code: String, message: String },
}

/// Why a message could not be sent or understood.
#[derive(Clone, Debug, Eq, PartialEq)]
pub enum ProtocolError {
    /// Reading or writing failed; the message is the system's.
    Io(String),
    MessageTooLarge(usize),
    Truncated,
    InvalidUtf8,
    InvalidMessage(String),
}

/// A request by its values.
pub enum RequestView {
    Ping,
    Status,
    Shutdown,
    CreateDevice {
        id: Seq<char>,
        name: Seq<char>,
        input_channels: u32,
        output_channels: u32,
        sample_rate: u32,
    },
    DeleteDevice { id: Seq<char> },
    Connect {
        id: Seq<char>,
        source: Seq<char>,
        sink: Seq<char>,
        gain_millidb: i32,
        matrix_millionths: Seq<i32>,
    },
    Disconnect { id: Seq<char> },
}

/// A response by its values.
pub enum ResponseView {
    Accepted(Seq<char>),
    Error { code: Seq<char>, message: Seq<char> },
}

/// A protocol error by its values.
pub enum ProtocolErrorView {
    Io(Seq<char>),
    MessageTooLarge(usize),
    Truncated,
    InvalidUtf8,
    InvalidMessage(Seq<char>),
}

impl View for Request {
    type V = RequestView;

    open spec fn view(&self) -> RequestView {
        match self {
            Request::Ping => RequestView::Ping,
            Request::Status => RequestView::Status,
            Request::Shutdown => RequestView::Shutdown,
            Request::CreateDevice { id, name, input_channels, output_channels, sample_rate } =>
                RequestView::CreateDevice {
                id: id@,
                name: name@,
                input_channels: *input_channels,
                output_channels: *output_channels,
                sample_rate: *sample_rate,
            },
            Request::DeleteDevice { id } => RequestView::DeleteDevice { id: id@ },
            Request::Connect { id, source, sink, gain_millidb, matrix_millionths } =>
                RequestView::Connect {
                id: id@,
                source: source@,
                sink: sink@,
                gain_millidb: *gain_millidb,
                matrix_millionths: matrix_millionths@,
            },
            Request::Disconnect { id } => RequestView::Disconnect { id: id@ },
        }
    }
}

impl View for Response {
    type V = ResponseView;

    open spec fn view(&self) -> ResponseView {
        match self {
            Response::Accepted(message) => ResponseView::Accepted(message@),
            Response::Error { code, message } => ResponseView::Error {
                code: code@,
                message: message@,
            },
        }
    }
}

impl View for ProtocolError {
    type V = ProtocolErrorView;

    open spec fn view(&self) -> ProtocolErrorView {
        match self {
            ProtocolError::Io(message) => ProtocolErrorView::Io(message@),
            ProtocolError::MessageTooLarge(size) => ProtocolErrorView::MessageTooLarge(*size),
            ProtocolError::Truncated => ProtocolErrorView::Truncated,
            ProtocolError::InvalidUtf8 => ProtocolErrorView::InvalidUtf8,
            ProtocolError::InvalidMessage(message) => ProtocolErrorView::InvalidMessage(message@),
        }
    }
}

/// The result of an operation by its values.
pub open spec fn outcome<T: View>(result: Result<T, ProtocolError>) -> Result<
    T::V,
    ProtocolErrorView,
> {
    match result {
        Ok(value) => Ok(value@),
        Err(error) => Err(error@),
    }
}

impl ProtocolErrorView {
    /// The message that a person reads.
    pub open spec fn text(self) -> Seq<char> {
        match self {
            ProtocolErrorView::Io(message) => message,
            ProtocolErrorView::MessageTooLarge(size) => "message is too large: "@ + text::digits(
                size as nat,
            ) + " bytes"@,
            ProtocolErrorView::Truncated => "message is truncated"@,
            ProtocolErrorView::InvalidUtf8 => "message is not valid UTF-8"@,
            ProtocolErrorView::InvalidMessage(message) => "invalid message: "@ + message,
        }
    }
}

impl ProtocolError {
    /// The message that a person reads.
    pub fn text(&self) -> (message: String)
        ensures
            message@ == self@.text(),
    {
        match self {
            ProtocolError::Io(message) => message.clone(),
            ProtocolError::MessageTooLarge(size) => {
                let mut message = "message is too large: ".to_owned();
                message.append(digits_text(*size as u64).as_str());
                message.append(" bytes");
                message
            },
            ProtocolError::Truncated => "message is truncated".to_owned(),
            ProtocolError::InvalidUtf8 => "message is not valid UTF-8".to_owned(),
            ProtocolError::InvalidMessage(detail) => joined("invalid message: ", detail.as_str()),
        }
    }
}

/// Every byte is printable ASCII.
pub open spec fn printable(bytes: Seq<u8>) -> bool {
    forall|k: int| 0 <= k < bytes.len() ==> 0x20 <= #[trigger] bytes[k] < 0x7f
}

/// Every byte is printable ASCII or a tab.
pub open spec fn one_line(bytes: Seq<u8>) -> bool {
    forall|k: int|
        0 <= k < bytes.len() ==> 0x20 <= #[trigger] bytes[k] < 0x7f || bytes[k] == TAB
}

/// A value that is sent as one message.
pub trait Message: View + Sized {
    /// The body that stands for a value.
    spec fn wire(value: Self::V) -> Seq<u8>;

    /// The value that a body stands for, or why it stands for none.
    spec fn parsed(body: Seq<u8>) -> Result<Self::V, ProtocolErrorView>;

    /// Decoding gives back the value that was encoded.
    proof fn decode_inverts_encode(value: Self::V)
        ensures
            Self::parsed(Self::wire(value)) == Ok::<Self::V, ProtocolErrorView>(value),
    ;

    /// An encoded value is one line of printable ASCII and tabs.
    proof fn encoding_is_one_line(value: Self::V)
        ensures
            one_line(Self::wire(value)),
    ;

    /// The body of the message.
    fn encode(&self) -> (body: String)
        ensures
            encode_utf8(body@) == Self::wire(self@),
    ;

    /// The value that a body stands for.
    fn decode(value: &str) -> (result: Result<Self, ProtocolError>)
        ensures
            outcome(result) == Self::parsed(encode_utf8(value@)),
    ;
}

/// The text that a field stands for, or why it stands for none.
pub open spec fn field_text(field: Seq<u8>) -> Result<Seq<char>, ProtocolErrorView> {
    match fields::unescaped(field) {
        Err(message) => Err(ProtocolErrorView::InvalidMessage(message)),
        Ok(bytes) => if valid_utf8(bytes) {
            Ok(decode_utf8(bytes))
        } else {
            Err(ProtocolErrorView::InvalidUtf8)
        },
    }
}

/// The error for a field that holds no number.
pub open spec fn invalid_field(name: Seq<char>, field: Seq<u8>) -> ProtocolErrorView {
    ProtocolErrorView::InvalidMessage("invalid "@ + name + ": "@ + decode_utf8(field))
}

/// The unsigned number that a field holds.
pub open spec fn field_u32(field: Seq<u8>, name: Seq<char>) -> Result<u32, ProtocolErrorView> {
    match text::read_unsigned(field, u32::MAX as nat) {
        Some(value) => Ok(value as u32),
        None => Err(invalid_field(name, field)),
    }
}

/// The signed number that a field holds.
pub open spec fn field_i32(field: Seq<u8>, name: Seq<char>) -> Result<i32, ProtocolErrorView> {
    match text::read_signed(field) {
        Some(value) => Ok(value as i32),
        None => Err(invalid_field(name, field)),
    }
}

/// The coefficients that the parts of a list hold, or the first error among them.
pub open spec fn coefficients(parts: Seq<Seq<u8>>) -> Result<Seq<i32>, ProtocolErrorView>
    decreases parts.len(),
{
    if parts.len() == 0 {
        Ok(seq![])
    } else {
        match coefficients(parts.drop_last()) {
            Err(error) => Err(error),
            Ok(before) => match field_i32(parts.last(), "matrix coefficient"@) {
                Err(error) => Err(error),
                Ok(value) => Ok(before.push(value)),
            },
        }
    }
}

/// The coefficients that a field holds: none where it is empty, else the parts between commas.
pub open spec fn field_matrix(field: Seq<u8>) -> Result<Seq<i32>, ProtocolErrorView> {
    if field.len() == 0 {
        Ok(seq![])
    } else {
        coefficients(fields::split(field, COMMA))
    }
}

/// The first field of a message with a given name.
pub open spec fn keyword(name: Seq<char>) -> Seq<u8> {
    encode_utf8(name)
}

/// The field that stands for a text.
pub open spec fn text_field(value: Seq<char>) -> Seq<u8> {
    fields::escaped(encode_utf8(value))
}

/// The field that stands for an unsigned number.
pub open spec fn number_field(value: u32) -> Seq<u8> {
    text::ascii(text::digits(value as nat))
}

/// The field that stands for a signed number.
pub open spec fn signed_field(value: i32) -> Seq<u8> {
    text::ascii(text::signed_digits(value as int))
}

/// The field that stands for the coefficients of a matrix.
pub open spec fn matrix_field(values: Seq<i32>) -> Seq<u8> {
    fields::join(Seq::new(values.len(), |i: int| signed_field(values[i])), COMMA)
}

/// The fields of a request, in order.
pub open spec fn request_fields(request: RequestView) -> Seq<Seq<u8>> {
    match request {
        RequestView::Ping => seq![keyword("ping"@)],
        RequestView::Status => seq![keyword("status"@)],
        RequestView::Shutdown => seq![keyword("shutdown"@)],
        RequestView::CreateDevice { id, name, input_channels, output_channels, sample_rate } =>
            seq![
            keyword("create"@),
            text_field(id),
            text_field(name),
            number_field(input_channels),
            number_field(output_channels),
            number_field(sample_rate),
        ],
        RequestView::DeleteDevice { id } => seq![keyword("delete"@), text_field(id)],
        RequestView::Connect { id, source, sink, gain_millidb, matrix_millionths } => seq![
            keyword("connect"@),
            text_field(id),
            text_field(source),
            text_field(sink),
            signed_field(gain_millidb),
            matrix_field(matrix_millionths),
        ],
        RequestView::Disconnect { id } => seq![keyword("disconnect"@), text_field(id)],
    }
}

/// The fields of a response, in order.
pub open spec fn response_fields(response: ResponseView) -> Seq<Seq<u8>> {
    match response {
        ResponseView::Accepted(message) => seq![keyword("ok"@), text_field(message)],
        ResponseView::Error { code, message } => seq![
            keyword("error"@),
            text_field(code),
            text_field(message),
        ],
    }
}

/// A request to create a device, from its fields.
pub open spec fn create_request(parts: Seq<Seq<u8>>) -> Result<RequestView, ProtocolErrorView> {
    match field_text(parts[1]) {
        Err(error) => Err(error),
        Ok(id) => match field_text(parts[2]) {
            Err(error) => Err(error),
            Ok(name) => match field_u32(parts[3], "input channel count"@) {
                Err(error) => Err(error),
                Ok(input_channels) => match field_u32(parts[4], "output channel count"@) {
                    Err(error) => Err(error),
                    Ok(output_channels) => match field_u32(parts[5], "sample rate"@) {
                        Err(error) => Err(error),
                        Ok(sample_rate) => Ok(
                            RequestView::CreateDevice {
                                id,
                                name,
                                input_channels,
                                output_channels,
                                sample_rate,
                            },
                        ),
                    },
                },
            },
        },
    }
}

/// A request to connect two endpoints, from its fields.
pub open spec fn connect_request(parts: Seq<Seq<u8>>) -> Result<RequestView, ProtocolErrorView> {
    match field_text(parts[1]) {
        Err(error) => Err(error),
        Ok(id) => match field_text(parts[2]) {
            Err(error) => Err(error),
            Ok(source) => match field_text(parts[3]) {
                Err(error) => Err(error),
                Ok(sink) => match field_i32(parts[4], "gain"@) {
                    Err(error) => Err(error),
                    Ok(gain_millidb) => match field_matrix(parts[5]) {
                        Err(error) => Err(error),
                        Ok(matrix_millionths) => Ok(
                            RequestView::Connect {
                                id,
                                source,
                                sink,
                                gain_millidb,
                                matrix_millionths,
                            },
                        ),
                    },
                },
            },
        },
    }
}

/// The request that a body stands for, or why it stands for none.
pub open spec fn parsed_request(body: Seq<u8>) -> Result<RequestView, ProtocolErrorView> {
    request_from(fields::split(body, TAB), decode_utf8(body))
}

/// The request that the fields of a message stand for, or why they stand for none.
pub open spec fn request_from(parts: Seq<Seq<u8>>, message: Seq<char>) -> Result<
    RequestView,
    ProtocolErrorView,
> {
    if parts == seq![keyword("ping"@)] {
        Ok(RequestView::Ping)
    } else if parts == seq![keyword("status"@)] {
        Ok(RequestView::Status)
    } else if parts == seq![keyword("shutdown"@)] {
        Ok(RequestView::Shutdown)
    } else if parts.len() == 6 && parts[0] == keyword("create"@) {
        create_request(parts)
    } else if parts.len() == 2 && parts[0] == keyword("delete"@) {
        match field_text(parts[1]) {
            Err(error) => Err(error),
            Ok(id) => Ok(RequestView::DeleteDevice { id }),
        }
    } else if parts.len() == 6 && parts[0] == keyword("connect"@) {
        connect_request(parts)
    } else if parts.len() == 2 && parts[0] == keyword("disconnect"@) {
        match field_text(parts[1]) {
            Err(error) => Err(error),
            Ok(id) => Ok(RequestView::Disconnect { id }),
        }
    } else {
        Err(ProtocolErrorView::InvalidMessage(message))
    }
}

/// The response that a body stands for, or why it stands for none.
pub open spec fn parsed_response(body: Seq<u8>) -> Result<ResponseView, ProtocolErrorView> {
    let parts = fields::split(body, TAB);
    if parts.len() == 2 && parts[0] == keyword("ok"@) {
        match field_text(parts[1]) {
            Err(error) => Err(error),
            Ok(message) => Ok(ResponseView::Accepted(message)),
        }
    } else if parts.len() == 3 && parts[0] == keyword("error"@) {
        match field_text(parts[1]) {
            Err(error) => Err(error),
            Ok(code) => match field_text(parts[2]) {
                Err(error) => Err(error),
                Ok(message) => Ok(ResponseView::Error { code, message }),
            },
        }
    } else {
        Err(ProtocolErrorView::InvalidMessage(decode_utf8(body)))
    }
}

/// Every field is printable.
spec fn all_printable(parts: Seq<Seq<u8>>) -> bool {
    forall|i: int| 0 <= i < parts.len() ==> printable(#[trigger] parts[i])
}

proof fn lemma_keyword(name: Seq<char>)
    requires
        forall|i: int| 0 <= i < name.len() ==> 'a' <= #[trigger] name[i] <= 'z',
    ensures
        keyword(name).len() == name.len(),
        printable(keyword(name)),
{
    assert(is_ascii_chars(name));
    text::lemma_ascii(name);
    assert forall|k: int| 0 <= k < keyword(name).len() implies 0x20 <= #[trigger] keyword(name)[k]
        < 0x7f by {
        assert('a' <= name[k] <= 'z');
    }
}

proof fn lemma_keywords()
    ensures
        keyword("ping"@).len() == 4 && printable(keyword("ping"@)),
        keyword("status"@).len() == 6 && printable(keyword("status"@)),
        keyword("shutdown"@).len() == 8 && printable(keyword("shutdown"@)),
        keyword("create"@).len() == 6 && printable(keyword("create"@)),
        keyword("delete"@).len() == 6 && printable(keyword("delete"@)),
        keyword("connect"@).len() == 7 && printable(keyword("connect"@)),
        keyword("disconnect"@).len() == 10 && printable(keyword("disconnect"@)),
        keyword("ok"@).len() == 2 && printable(keyword("ok"@)),
        keyword("error"@).len() == 5 && printable(keyword("error"@)),
{
    reveal_strlit("ping");
    reveal_strlit("status");
    reveal_strlit("shutdown");
    reveal_strlit("create");
    reveal_strlit("delete");
    reveal_strlit("connect");
    reveal_strlit("disconnect");
    reveal_strlit("ok");
    reveal_strlit("error");
    lemma_keyword("ping"@);
    lemma_keyword("status"@);
    lemma_keyword("shutdown"@);
    lemma_keyword("create"@);
    lemma_keyword("delete"@);
    lemma_keyword("connect"@);
    lemma_keyword("disconnect"@);
    lemma_keyword("ok"@);
    lemma_keyword("error"@);
}

/// A field gives back the text that it was made of.
proof fn lemma_text_field(value: Seq<char>)
    ensures
        printable(text_field(value)),
        field_text(text_field(value)) == Ok::<Seq<char>, ProtocolErrorView>(value),
{
    fields::escaped_text_is_plain(encode_utf8(value));
    fields::unescape_inverts_escape(encode_utf8(value));
    encode_utf8_valid_utf8(value);
    encode_utf8_decode_utf8(value);
}

/// A field gives back the number that it was made of.
proof fn lemma_number_field(value: u32, name: Seq<char>)
    ensures
        printable(number_field(value)),
        field_u32(number_field(value), name) == Ok::<u32, ProtocolErrorView>(value),
{
    text::lemma_digits(value as nat);
    text::unsigned_digits_read_back(value as nat, u32::MAX as nat);
}

/// A field gives back the signed number that it was made of.
proof fn lemma_signed_field(value: i32, name: Seq<char>)
    ensures
        printable(signed_field(value)),
        signed_field(value).len() > 0,
        !signed_field(value).contains(COMMA),
        field_i32(signed_field(value), name) == Ok::<i32, ProtocolErrorView>(value),
{
    text::signed_digits_read_back(value as int);
    let field = signed_field(value);
    assert forall|k: int| 0 <= k < field.len() implies #[trigger] field[k] == 0x2d || 48
        <= field[k] <= 57 by {
        if value < 0 {
            let digits = text::ascii(text::digits((-value) as nat));
            text::lemma_digits((-value) as nat);
            if k > 0 {
                assert(field[k] == digits[k - 1]);
            }
        } else {
            text::lemma_digits(value as nat);
        }
    }
    text::lemma_signed_digits(value as int);
}

/// Coefficients read back from their fields.
proof fn lemma_coefficients(values: Seq<i32>)
    ensures
        coefficients(Seq::new(values.len(), |i: int| signed_field(values[i]))) == Ok::<
            Seq<i32>,
            ProtocolErrorView,
        >(values),
    decreases values.len(),
{
    let parts = Seq::new(values.len(), |i: int| signed_field(values[i]));
    if values.len() == 0 {
        assert(values =~= seq![]);
    } else {
        let before = values.drop_last();
        lemma_coefficients(before);
        assert(parts.drop_last() =~= Seq::new(before.len(), |i: int| signed_field(before[i])));
        lemma_signed_field(values.last(), "matrix coefficient"@);
        assert(before.push(values.last()) =~= values);
    }
}

/// A field gives back the coefficients that it was made of.
proof fn lemma_matrix_field(values: Seq<i32>)
    ensures
        printable(matrix_field(values)),
        field_matrix(matrix_field(values)) == Ok::<Seq<i32>, ProtocolErrorView>(values),
{
    let parts = Seq::new(values.len(), |i: int| signed_field(values[i]));
    assert forall|i: int| 0 <= i < parts.len() implies printable(#[trigger] parts[i])
        && !parts[i].contains(COMMA) && parts[i].len() > 0 by {
        lemma_signed_field(values[i], seq![]);
    }
    lemma_join_printable(parts, COMMA);
    if values.len() == 0 {
        assert(matrix_field(values) =~= seq![]);
        assert(values =~= seq![]);
    } else {
        fields::split_inverts_join(parts, COMMA);
        lemma_coefficients(values);
        assert(matrix_field(values).len() > 0) by {
            if parts.len() == 1 {
                assert(parts[0].len() > 0);
            }
        }
    }
}

/// Printable fields joined by a printable separator are printable.
proof fn lemma_join_printable(parts: Seq<Seq<u8>>, separator: u8)
    requires
        all_printable(parts),
        0x20 <= separator < 0x7f,
    ensures
        printable(fields::join(parts, separator)),
    decreases parts.len(),
{
    if parts.len() > 1 {
        let before = parts.drop_last();
        assert(all_printable(before)) by {
            assert forall|i: int| 0 <= i < before.len() implies printable(
                #[trigger] before[i],
            ) by {
                assert(before[i] == parts[i]);
            }
        }
        lemma_join_printable(before, separator);
        assert(printable(parts[parts.len() - 1]));
        assert(printable(fields::join(parts, separator)));
    } else if parts.len() == 1 {
        assert(printable(parts[0]));
    }
}

/// Printable fields joined by tabs make one line.
proof fn lemma_join_one_line(parts: Seq<Seq<u8>>)
    requires
        all_printable(parts),
    ensures
        one_line(fields::join(parts, TAB)),
    decreases parts.len(),
{
    if parts.len() > 1 {
        let before = parts.drop_last();
        assert(all_printable(before)) by {
            assert forall|i: int| 0 <= i < before.len() implies printable(
                #[trigger] before[i],
            ) by {
                assert(before[i] == parts[i]);
            }
        }
        lemma_join_one_line(before);
        assert(printable(parts[parts.len() - 1]));
        assert(one_line(fields::join(parts, TAB)));
    } else if parts.len() == 1 {
        assert(printable(parts[0]));
    }
}

/// Printable fields come back from the line that they were joined to.
proof fn lemma_fields_read_back(parts: Seq<Seq<u8>>)
    requires
        all_printable(parts),
        parts.len() > 0,
    ensures
        fields::split(fields::join(parts, TAB), TAB) == parts,
        one_line(fields::join(parts, TAB)),
        valid_utf8(fields::join(parts, TAB)),
{
    assert(fields::free_of(parts, TAB)) by {
        assert forall|i: int| 0 <= i < parts.len() implies !(#[trigger] parts[i]).contains(
            TAB,
        ) by {
            assert(printable(parts[i]));
        }
    }
    fields::split_inverts_join(parts, TAB);
    lemma_join_one_line(parts);
    text::lemma_ascii_bytes(fields::join(parts, TAB));
}

proof fn lemma_fields_printable(
    value: Seq<char>,
    number: u32,
    signed: i32,
    values: Seq<i32>,
)
    ensures
        printable(text_field(value)),
        printable(number_field(number)),
        printable(signed_field(signed)),
        printable(matrix_field(values)),
{
    lemma_text_field(value);
    lemma_number_field(number, seq![]);
    lemma_signed_field(signed, seq![]);
    lemma_matrix_field(values);
}

proof fn lemma_request_printable(request: RequestView)
    ensures
        request_fields(request).len() > 0,
        all_printable(request_fields(request)),
{
    let parts = request_fields(request);
    assert forall|i: int| 0 <= i < parts.len() implies printable(#[trigger] parts[i]) by {
        lemma_keywords();
        match request {
            RequestView::CreateDevice { id, name, input_channels, output_channels, sample_rate } => {
                lemma_fields_printable(id, input_channels, 0, seq![]);
                lemma_fields_printable(name, output_channels, 0, seq![]);
                lemma_fields_printable(name, sample_rate, 0, seq![]);
            },
            RequestView::DeleteDevice { id } => {
                lemma_fields_printable(id, 0, 0, seq![]);
            },
            RequestView::Connect { id, source, sink, gain_millidb, matrix_millionths } => {
                lemma_fields_printable(id, 0, gain_millidb, matrix_millionths);
                lemma_fields_printable(source, 0, 0, seq![]);
                lemma_fields_printable(sink, 0, 0, seq![]);
            },
            RequestView::Disconnect { id } => {
                lemma_fields_printable(id, 0, 0, seq![]);
            },
            _ => {},
        }
    }
}

/// A request to create a device comes back from its fields.
proof fn lemma_create_request(parts: Seq<Seq<u8>>, value: RequestView)
    requires
        value is CreateDevice,
        parts == request_fields(value),
    ensures
        create_request(parts) == Ok::<RequestView, ProtocolErrorView>(value),
{
    if let RequestView::CreateDevice { id, name, input_channels, output_channels, sample_rate } =
        value {
        assert(field_text(parts[1]) == Ok::<Seq<char>, ProtocolErrorView>(id)) by {
            lemma_text_field(id);
        }
        assert(field_text(parts[2]) == Ok::<Seq<char>, ProtocolErrorView>(name)) by {
            lemma_text_field(name);
        }
        let label = "input channel count"@;
        assert(field_u32(parts[3], label) == Ok::<u32, ProtocolErrorView>(input_channels)) by {
            lemma_number_field(input_channels, label);
        }
        let label = "output channel count"@;
        assert(field_u32(parts[4], label) == Ok::<u32, ProtocolErrorView>(output_channels)) by {
            lemma_number_field(output_channels, label);
        }
        let label = "sample rate"@;
        assert(field_u32(parts[5], label) == Ok::<u32, ProtocolErrorView>(sample_rate)) by {
            lemma_number_field(sample_rate, label);
        }
    }
}

/// A request to connect two endpoints comes back from its fields.
proof fn lemma_connect_request(parts: Seq<Seq<u8>>, value: RequestView)
    requires
        value is Connect,
        parts == request_fields(value),
    ensures
        connect_request(parts) == Ok::<RequestView, ProtocolErrorView>(value),
{
    if let RequestView::Connect { id, source, sink, gain_millidb, matrix_millionths } = value {
        assert(field_text(parts[1]) == Ok::<Seq<char>, ProtocolErrorView>(id)) by {
            lemma_text_field(id);
        }
        assert(field_text(parts[2]) == Ok::<Seq<char>, ProtocolErrorView>(source)) by {
            lemma_text_field(source);
        }
        assert(field_text(parts[3]) == Ok::<Seq<char>, ProtocolErrorView>(sink)) by {
            lemma_text_field(sink);
        }
        assert(field_i32(parts[4], "gain"@) == Ok::<i32, ProtocolErrorView>(gain_millidb)) by {
            lemma_signed_field(gain_millidb, "gain"@);
        }
        assert(field_matrix(parts[5]) == Ok::<Seq<i32>, ProtocolErrorView>(matrix_millionths)) by {
            lemma_matrix_field(matrix_millionths);
        }
    }
}

/// A request comes back from its fields.
proof fn lemma_request_from(value: RequestView, message: Seq<char>)
    ensures
        request_from(request_fields(value), message) == Ok::<RequestView, ProtocolErrorView>(value),
{
    let parts = request_fields(value);
    lemma_keywords();
    match value {
        RequestView::CreateDevice { .. } => {
            assert(parts.len() == 6);
            lemma_create_request(parts, value);
        },
        RequestView::DeleteDevice { id } => {
            assert(parts.len() == 2);
            lemma_text_field(id);
        },
        RequestView::Connect { .. } => {
            assert(parts.len() == 6);
            lemma_connect_request(parts, value);
        },
        RequestView::Disconnect { id } => {
            assert(parts.len() == 2);
            lemma_text_field(id);
        },
        _ => {
            assert(parts.len() == 1);
            assert(parts[0] == seq![parts[0]][0]);
        },
    }
}

proof fn lemma_response_printable(response: ResponseView)
    ensures
        response_fields(response).len() > 0,
        all_printable(response_fields(response)),
{
    let parts = response_fields(response);
    assert forall|i: int| 0 <= i < parts.len() implies printable(#[trigger] parts[i]) by {
        lemma_keywords();
        match response {
            ResponseView::Accepted(message) => {
                lemma_fields_printable(message, 0, 0, seq![]);
            },
            ResponseView::Error { code, message } => {
                lemma_fields_printable(code, 0, 0, seq![]);
                lemma_fields_printable(message, 0, 0, seq![]);
            },
        }
    }
}

/// Reads the text of a field.
fn read_text(field: &[u8]) -> (result: Result<String, ProtocolError>)
    ensures
        outcome(result) == field_text(field@),
{
    match unescape_bytes(field) {
        Err(message) => Err(ProtocolError::InvalidMessage(message)),
        Ok(bytes) => {
            let ghost plain = bytes@;
            match text_from_utf8(bytes) {
                Some(value) => {
                    proof {
                        encode_utf8_decode_utf8(value@);
                    }
                    Ok(value)
                },
                None => Err(ProtocolError::InvalidUtf8),
            }
        },
    }
}

/// The error for a field that holds no number.
fn invalid_number(name: &str, field: &[u8]) -> (error: ProtocolError)
    requires
        valid_utf8(field@),
    ensures
        error@ == invalid_field(name@, field@),
{
    let mut message = joined("invalid ", name);
    message.append(": ");
    message.append(text_of(slice_to_vec(field)).as_str());
    ProtocolError::InvalidMessage(message)
}

/// Reads the unsigned number of a field.
pub(crate) fn read_u32(field: &[u8], name: &str) -> (result: Result<u32, ProtocolError>)
    requires
        valid_utf8(field@),
    ensures
        match field_u32(field@, name@) {
            Ok(value) => result == Ok::<u32, ProtocolError>(value),
            Err(error) => result matches Err(found) && found@ == error,
        },
{
    match parse_u32(field) {
        Some(value) => Ok(value),
        None => Err(invalid_number(name, field)),
    }
}

/// Reads the signed number of a field.
pub(crate) fn read_i32(field: &[u8], name: &str) -> (result: Result<i32, ProtocolError>)
    requires
        valid_utf8(field@),
    ensures
        match field_i32(field@, name@) {
            Ok(value) => result == Ok::<i32, ProtocolError>(value),
            Err(error) => result matches Err(found) && found@ == error,
        },
{
    match parse_i32(field) {
        Some(value) => Ok(value),
        None => Err(invalid_number(name, field)),
    }
}

/// Reads the coefficients between the commas of a field.
pub(crate) fn read_coefficients(field: &[u8]) -> (result: Result<Vec<i32>, ProtocolError>)
    requires
        valid_utf8(field@),
    ensures
        outcome(result) == coefficients(fields::split(field@, COMMA)),
{
    let mut values: Vec<i32> = Vec::new();
    let parts = split_fields(field, COMMA);
    let ghost all = fields::split(field@, COMMA);
    let mut i: usize = 0;
    assert(all.take(0) =~= seq![]);
    while i < parts.len()
        invariant
            all == fields::split(field@, COMMA),
            parts@.len() == all.len(),
            forall|k: int| 0 <= k < parts@.len() ==> (#[trigger] parts@[k])@ == all[k],
            forall|k: int| 0 <= k < parts@.len() ==> valid_utf8((#[trigger] parts@[k])@),
            i <= parts@.len(),
            coefficients(all.take(i as int)) == Ok::<Seq<i32>, ProtocolErrorView>(values@),
        decreases parts.len() - i,
    {
        assert(all.take(i + 1).drop_last() =~= all.take(i as int));
        assert(all.take(i + 1).last() == parts@[i as int]@);
        match read_i32(parts[i], "matrix coefficient") {
            Ok(value) => {
                values.push(value);
            },
            Err(error) => {
                proof {
                    lemma_first_error(all, i + 1);
                }
                return Err(error);
            },
        }
        i = i + 1;
    }
    assert(all.take(i as int) =~= all);
    Ok(values)
}

/// Reads the coefficients of a field.
fn read_matrix(field: &[u8]) -> (result: Result<Vec<i32>, ProtocolError>)
    requires
        valid_utf8(field@),
    ensures
        outcome(result) == field_matrix(field@),
{
    if field.len() == 0 {
        let values: Vec<i32> = Vec::new();
        assert(values@ =~= seq![]);
        return Ok(values);
    }
    read_coefficients(field)
}

/// An error among the first parts of a list is the error of the whole list.
proof fn lemma_first_error(parts: Seq<Seq<u8>>, n: int)
    requires
        0 <= n <= parts.len(),
        coefficients(parts.take(n)) is Err,
    ensures
        coefficients(parts) == coefficients(parts.take(n)),
    decreases parts.len() - n,
{
    if n == parts.len() {
        assert(parts.take(n) =~= parts);
    } else {
        assert(parts.take(n + 1).drop_last() =~= parts.take(n));
        lemma_first_error(parts, n + 1);
    }
}

/// The field that stands for the coefficients of a matrix.
fn matrix_bytes(values: &Vec<i32>) -> (field: Vec<u8>)
    ensures
        field@ == matrix_field(values@),
{
    let mut parts: Vec<Vec<u8>> = Vec::new();
    let mut i: usize = 0;
    while i < values.len()
        invariant
            i <= values@.len(),
            parts@.len() == i,
            forall|k: int| 0 <= k < i ==> (#[trigger] parts@[k])@ == signed_field(values@[k]),
        decreases values.len() - i,
    {
        parts.push(signed_bytes(values[i]));
        i = i + 1;
    }
    assert(fields::field_bytes(parts@) =~= Seq::new(
        values@.len(),
        |k: int| signed_field(values@[k]),
    ));
    join_fields(&parts, COMMA)
}

/// The field that stands for a signed number.
fn signed_bytes(value: i32) -> (field: Vec<u8>)
    ensures
        field@ == signed_field(value),
{
    let mut field: Vec<u8> = Vec::new();
    push_signed(&mut field, value);
    assert(field@ =~= signed_field(value));
    field
}

/// The field that stands for an unsigned number.
fn number_bytes(value: u32) -> (field: Vec<u8>)
    ensures
        field@ == number_field(value),
{
    let mut field: Vec<u8> = Vec::new();
    push_digits(&mut field, value as u64);
    assert(field@ =~= number_field(value));
    field
}

/// The field that stands for a text.
fn text_bytes(value: &str) -> (field: Vec<u8>)
    ensures
        field@ == text_field(value@),
{
    escape(value.as_bytes())
}

/// The first field of a message with a given name.
fn keyword_bytes(name: &str) -> (field: Vec<u8>)
    ensures
        field@ == keyword(name@),
{
    slice_to_vec(name.as_bytes())
}

/// Tells whether `field` is the keyword `name`.
fn is_keyword(field: &[u8], name: &str) -> (yes: bool)
    ensures
        yes == (field@ == keyword(name@)),
{
    same_bytes(field, name.as_bytes())
}

/// Every split part, as the fields of a line.
spec fn parts_match(parts: Seq<&[u8]>, body: Seq<u8>) -> bool {
    &&& parts.len() == fields::split(body, TAB).len()
    &&& forall|i: int|
        0 <= i < parts.len() ==> (#[trigger] parts[i])@ == fields::split(body, TAB)[i]
    &&& forall|i: int| 0 <= i < parts.len() ==> valid_utf8((#[trigger] parts[i])@)
}

/// Reads a request to create a device.
fn decode_create(parts: &Vec<&[u8]>, Ghost(body): Ghost<Seq<u8>>) -> (result: Result<
    Request,
    ProtocolError,
>)
    requires
        parts_match(parts@, body),
        parts@.len() == 6,
    ensures
        outcome(result) == create_request(fields::split(body, TAB)),
{
    let id = match read_text(parts[1]) {
        Ok(value) => value,
        Err(error) => {
            return Err(error);
        },
    };
    let name = match read_text(parts[2]) {
        Ok(value) => value,
        Err(error) => {
            return Err(error);
        },
    };
    let input_channels = match read_u32(parts[3], "input channel count") {
        Ok(value) => value,
        Err(error) => {
            return Err(error);
        },
    };
    let output_channels = match read_u32(parts[4], "output channel count") {
        Ok(value) => value,
        Err(error) => {
            return Err(error);
        },
    };
    let sample_rate = match read_u32(parts[5], "sample rate") {
        Ok(value) => value,
        Err(error) => {
            return Err(error);
        },
    };
    Ok(Request::CreateDevice { id, name, input_channels, output_channels, sample_rate })
}

/// Reads a request to connect two endpoints.
fn decode_connect(parts: &Vec<&[u8]>, Ghost(body): Ghost<Seq<u8>>) -> (result: Result<
    Request,
    ProtocolError,
>)
    requires
        parts_match(parts@, body),
        parts@.len() == 6,
    ensures
        outcome(result) == connect_request(fields::split(body, TAB)),
{
    let id = match read_text(parts[1]) {
        Ok(value) => value,
        Err(error) => {
            return Err(error);
        },
    };
    let source = match read_text(parts[2]) {
        Ok(value) => value,
        Err(error) => {
            return Err(error);
        },
    };
    let sink = match read_text(parts[3]) {
        Ok(value) => value,
        Err(error) => {
            return Err(error);
        },
    };
    let gain_millidb = match read_i32(parts[4], "gain") {
        Ok(value) => value,
        Err(error) => {
            return Err(error);
        },
    };
    let matrix_millionths = match read_matrix(parts[5]) {
        Ok(value) => value,
        Err(error) => {
            return Err(error);
        },
    };
    Ok(Request::Connect { id, source, sink, gain_millidb, matrix_millionths })
}

impl Message for Request {
    open spec fn wire(value: RequestView) -> Seq<u8> {
        fields::join(request_fields(value), TAB)
    }

    open spec fn parsed(body: Seq<u8>) -> Result<RequestView, ProtocolErrorView> {
        parsed_request(body)
    }

    proof fn decode_inverts_encode(value: RequestView) {
        lemma_request_printable(value);
        lemma_fields_read_back(request_fields(value));
        lemma_request_from(value, decode_utf8(fields::join(request_fields(value), TAB)));
    }

    proof fn encoding_is_one_line(value: RequestView) {
        lemma_request_printable(value);
        lemma_fields_read_back(request_fields(value));
    }

    fn encode(&self) -> (body: String) {
        let parts: Vec<Vec<u8>> = match self {
            Request::Ping => vec![keyword_bytes("ping")],
            Request::Status => vec![keyword_bytes("status")],
            Request::Shutdown => vec![keyword_bytes("shutdown")],
            Request::CreateDevice { id, name, input_channels, output_channels, sample_rate } =>
                vec![
                keyword_bytes("create"),
                text_bytes(id.as_str()),
                text_bytes(name.as_str()),
                number_bytes(*input_channels),
                number_bytes(*output_channels),
                number_bytes(*sample_rate),
            ],
            Request::DeleteDevice { id } => vec![
                keyword_bytes("delete"),
                text_bytes(id.as_str()),
            ],
            Request::Connect { id, source, sink, gain_millidb, matrix_millionths } => vec![
                keyword_bytes("connect"),
                text_bytes(id.as_str()),
                text_bytes(source.as_str()),
                text_bytes(sink.as_str()),
                signed_bytes(*gain_millidb),
                matrix_bytes(matrix_millionths),
            ],
            Request::Disconnect { id } => vec![
                keyword_bytes("disconnect"),
                text_bytes(id.as_str()),
            ],
        };
        proof {
            assert(fields::field_bytes(parts@) =~= request_fields(self@));
            lemma_request_printable(self@);
            lemma_fields_read_back(request_fields(self@));
        }
        text_of(join_fields(&parts, TAB))
    }

    fn decode(value: &str) -> (result: Result<Self, ProtocolError>) {
        let body = value.as_bytes();
        let ghost all = fields::split(body@, TAB);
        proof {
            encode_utf8_valid_utf8(value@);
            encode_utf8_decode_utf8(value@);
        }
        let parts = split_fields(body, TAB);
        assert(parts_match(parts@, body@));
        if parts.len() == 1 {
            if is_keyword(parts[0], "ping") {
                assert(all =~= seq![keyword("ping"@)]);
                return Ok(Request::Ping);
            }
            assert(all != seq![keyword("ping"@)]) by {
                assert(all[0] != seq![keyword("ping"@)][0]);
            }
            if is_keyword(parts[0], "status") {
                assert(all =~= seq![keyword("status"@)]);
                return Ok(Request::Status);
            }
            assert(all != seq![keyword("status"@)]) by {
                assert(all[0] != seq![keyword("status"@)][0]);
            }
            if is_keyword(parts[0], "shutdown") {
                assert(all =~= seq![keyword("shutdown"@)]);
                return Ok(Request::Shutdown);
            }
            assert(all != seq![keyword("shutdown"@)]) by {
                assert(all[0] != seq![keyword("shutdown"@)][0]);
            }
        } else if parts.len() == 6 {
            if is_keyword(parts[0], "create") {
                return decode_create(&parts, Ghost(body@));
            }
            if is_keyword(parts[0], "connect") {
                return decode_connect(&parts, Ghost(body@));
            }
        } else if parts.len() == 2 {
            proof {
                lemma_keywords();
            }
            if is_keyword(parts[0], "delete") {
                return match read_text(parts[1]) {
                    Ok(id) => Ok(Request::DeleteDevice { id }),
                    Err(error) => Err(error),
                };
            }
            if is_keyword(parts[0], "disconnect") {
                return match read_text(parts[1]) {
                    Ok(id) => Ok(Request::Disconnect { id }),
                    Err(error) => Err(error),
                };
            }
        }
        Err(ProtocolError::InvalidMessage(value.to_owned()))
    }
}

impl Message for Response {
    open spec fn wire(value: ResponseView) -> Seq<u8> {
        fields::join(response_fields(value), TAB)
    }

    open spec fn parsed(body: Seq<u8>) -> Result<ResponseView, ProtocolErrorView> {
        parsed_response(body)
    }

    proof fn decode_inverts_encode(value: ResponseView) {
        lemma_response_printable(value);
        lemma_fields_read_back(response_fields(value));
        lemma_keywords();
        let parts = response_fields(value);
        match value {
            ResponseView::Accepted(message) => {
                lemma_text_field(message);
                assert(parts.len() == 2);
            },
            ResponseView::Error { code, message } => {
                lemma_text_field(code);
                lemma_text_field(message);
                assert(parts.len() == 3);
            },
        }
    }

    proof fn encoding_is_one_line(value: ResponseView) {
        lemma_response_printable(value);
        lemma_fields_read_back(response_fields(value));
    }

    fn encode(&self) -> (body: String) {
        let parts: Vec<Vec<u8>> = match self {
            Response::Accepted(message) => vec![
                keyword_bytes("ok"),
                text_bytes(message.as_str()),
            ],
            Response::Error { code, message } => vec![
                keyword_bytes("error"),
                text_bytes(code.as_str()),
                text_bytes(message.as_str()),
            ],
        };
        proof {
            assert(fields::field_bytes(parts@) =~= response_fields(self@));
            lemma_response_printable(self@);
            lemma_fields_read_back(response_fields(self@));
        }
        text_of(join_fields(&parts, TAB))
    }

    fn decode(value: &str) -> (result: Result<Self, ProtocolError>) {
        let body = value.as_bytes();
        proof {
            encode_utf8_valid_utf8(value@);
            encode_utf8_decode_utf8(value@);
        }
        let parts = split_fields(body, TAB);
        if parts.len() == 2 && is_keyword(parts[0], "ok") {
            match read_text(parts[1]) {
                Ok(message) => Ok(Response::Accepted(message)),
                Err(error) => Err(error),
            }
        } else if parts.len() == 3 && is_keyword(parts[0], "error") {
            let code = match read_text(parts[1]) {
                Ok(code) => code,
                Err(error) => {
                    return Err(error);
                },
            };
            match read_text(parts[2]) {
                Ok(message) => Ok(Response::Error { code, message }),
                Err(error) => Err(error),
            }
        } else {
            Err(ProtocolError::InvalidMessage(value.to_owned()))
        }
    }
}

/// A length as four bytes, the most significant first.
pub open spec fn length_prefix(length: nat) -> Seq<u8> {
    seq![
        (length / 0x100_0000 % 0x100) as u8,
        (length / 0x1_0000 % 0x100) as u8,
        (length / 0x100 % 0x100) as u8,
        (length % 0x100) as u8,
    ]
}

/// The length that four bytes stand for.
pub open spec fn prefix_length(prefix: Seq<u8>) -> nat {
    (prefix[0] * 0x100_0000 + prefix[1] * 0x1_0000 + prefix[2] * 0x100 + prefix[3]) as nat
}

/// A body behind its length.
pub open spec fn frame(body: Seq<u8>) -> Seq<u8> {
    length_prefix(body.len()) + body
}

/// The value of a body that came over the wire.
pub open spec fn parsed_body<M: Message>(body: Seq<u8>) -> Result<M::V, ProtocolErrorView> {
    if valid_utf8(body) {
        M::parsed(body)
    } else {
        Err(ProtocolErrorView::InvalidUtf8)
    }
}

/// The first message in a stream of bytes, or why there is none.
pub open spec fn received<M: Message>(stream: Seq<u8>) -> Result<M::V, ProtocolErrorView> {
    if stream.len() < 4 {
        Err(ProtocolErrorView::Truncated)
    } else {
        let length = prefix_length(stream) as int;
        if length > MAX_MESSAGE_BYTES {
            Err(ProtocolErrorView::MessageTooLarge(length as usize))
        } else if stream.len() < 4 + length {
            Err(ProtocolErrorView::Truncated)
        } else {
            parsed_body::<M>(stream.subrange(4, 4 + length))
        }
    }
}

/// What is left of a stream after its first message was taken, or refused.
pub open spec fn remaining(stream: Seq<u8>) -> Seq<u8> {
    if stream.len() < 4 {
        seq![]
    } else {
        let length = prefix_length(stream) as int;
        if length > MAX_MESSAGE_BYTES {
            stream.skip(4)
        } else if stream.len() < 4 + length {
            seq![]
        } else {
            stream.skip(4 + length)
        }
    }
}

/// Appends a message behind its length; a body over the limit is refused and nothing is written.
pub fn write_message<M: Message>(writer: &mut Vec<u8>, message: &M) -> (result: Result<
    (),
    ProtocolError,
>)
    ensures
        match result {
            Ok(()) => M::wire(message@).len() <= MAX_MESSAGE_BYTES && final(writer)@
                == old(writer)@ + frame(M::wire(message@)),
            Err(error) => M::wire(message@).len() > MAX_MESSAGE_BYTES && error@
                == ProtocolErrorView::MessageTooLarge(M::wire(message@).len() as usize) && final(writer)@
                == old(writer)@,
        },
{
    let body = message.encode();
    let bytes = body.as_str().as_bytes();
    let length = bytes.len();
    if length > MAX_MESSAGE_BYTES {
        return Err(ProtocolError::MessageTooLarge(length));
    }
    writer.push((length / 0x100_0000 % 0x100) as u8);
    writer.push((length / 0x1_0000 % 0x100) as u8);
    writer.push((length / 0x100 % 0x100) as u8);
    writer.push((length % 0x100) as u8);
    assert(writer@ =~= old(writer)@ + length_prefix(length as nat));
    append(writer, bytes);
    assert(writer@ =~= old(writer)@ + frame(bytes@));
    Ok(())
}

/// Reads the length in front of a message body; a length over the limit is refused.
pub fn read_length(header: &[u8]) -> (result: Result<usize, ProtocolError>)
    ensures
        header@.len() < 4 ==> (result matches Err(error) && error@ == ProtocolErrorView::Truncated),
        header@.len() >= 4 ==> match result {
            Ok(length) => length == prefix_length(header@) && length <= MAX_MESSAGE_BYTES,
            Err(error) => prefix_length(header@) > MAX_MESSAGE_BYTES && error@
                == ProtocolErrorView::MessageTooLarge(prefix_length(header@) as usize),
        },
{
    if header.len() < 4 {
        return Err(ProtocolError::Truncated);
    }
    let length: u32 = header[0] as u32 * 0x100_0000 + header[1] as u32 * 0x1_0000 + header[2] as u32
        * 0x100 + header[3] as u32;
    let length: usize = length as usize;
    if length > MAX_MESSAGE_BYTES {
        return Err(ProtocolError::MessageTooLarge(length));
    }
    Ok(length)
}

/// Reads the value of a message body.
pub fn read_body<M: Message>(body: &[u8]) -> (result: Result<M, ProtocolError>)
    ensures
        outcome(result) == parsed_body::<M>(body@),
{
    match text_from_utf8(slice_to_vec(body)) {
        Some(text) => M::decode(text.as_str()),
        None => Err(ProtocolError::InvalidUtf8),
    }
}

/// Takes the first message from a stream of bytes.
pub fn read_message<M: Message>(reader: &mut &[u8]) -> (result: Result<M, ProtocolError>)
    ensures
        outcome(result) == received::<M>(old(reader)@),
        final(reader)@ == remaining(old(reader)@),
{
    let stream: &[u8] = *reader;
    let end = stream.len();
    let length = match read_length(stream) {
        Ok(length) => length,
        Err(error) => {
            let start: usize = if end < 4 {
                end
            } else {
                4
            };
            *reader = slice_subrange(stream, start, end);
            assert(reader@ =~= remaining(stream@));
            return Err(error);
        },
    };
    if end - 4 < length {
        *reader = slice_subrange(stream, end, end);
        assert(reader@ =~= remaining(stream@));
        return Err(ProtocolError::Truncated);
    }
    let body = slice_subrange(stream, 4, 4 + length);
    *reader = slice_subrange(stream, 4 + length, end);
    assert(reader@ =~= remaining(stream@));
    read_body(body)
}

/// Reading gives back the message that was written, and leaves what follows it.
pub proof fn read_inverts_write<M: Message>(value: M::V, rest: Seq<u8>)
    requires
        M::wire(value).len() <= MAX_MESSAGE_BYTES,
    ensures
        received::<M>(frame(M::wire(value)) + rest) == Ok::<M::V, ProtocolErrorView>(value),
        remaining(frame(M::wire(value)) + rest) == rest,
{
    let body = M::wire(value);
    let stream = frame(body) + rest;
    let length = body.len() as int;
    assert(prefix_length(stream) == length);
    assert(stream.subrange(4, 4 + length) =~= body);
    assert(stream.skip(4 + length) =~= rest);
    M::encoding_is_one_line(value);
    text::lemma_ascii_bytes(body);
    M::decode_inverts_encode(value);
}

/// A stream of two messages gives back both, in the order in which they were written.
pub proof fn messages_keep_their_order<M: Message>(first: M::V, second: M::V)
    requires
        M::wire(first).len() <= MAX_MESSAGE_BYTES,
        M::wire(second).len() <= MAX_MESSAGE_BYTES,
    ensures
        ({
            let stream = frame(M::wire(first)) + frame(M::wire(second));
            &&& received::<M>(stream) == Ok::<M::V, ProtocolErrorView>(first)
            &&& received::<M>(remaining(stream)) == Ok::<M::V, ProtocolErrorView>(second)
            &&& remaining(remaining(stream)) == Seq::<u8>::empty()
        }),
{
    read_inverts_write::<M>(first, frame(M::wire(second)));
    read_inverts_write::<M>(second, seq![]);
    assert(frame(M::wire(second)) + seq![] =~= frame(M::wire(second)));
}

} // verus!
