//! Laws of what is written to the wire, and read from it.
use vstd::prelude::*;
use vstd::utf8::*;
use crate::fields;
use crate::laws::graphs;
use crate::protocol;
use crate::protocol::{
    read_length, read_message, write_message, Message, ProtocolError, Request, Response,
};
use crate::text;
use crate::text::{digits_text, parse_i32, parse_u32, signed_text};

verus! {

/// The number that decimal digits stand for.
pub open spec fn value_of(digits: Seq<u8>) -> int
    decreases digits.len(),
{
    if digits.len() == 0 {
        0
    } else {
        value_of(digits.drop_last()) * 10 + (digits.last() - '0' as u8)
    }
}

/// One or more decimal digits.
pub open spec fn are_digits(digits: Seq<u8>) -> bool {
    &&& digits.len() > 0
    &&& forall|i: int| 0 <= i < digits.len() ==> '0' as u8 <= #[trigger] digits[i] <= '9' as u8
}

/// The decimal digits of a number, without leading zeros.
pub open spec fn is_numeral(digits: Seq<u8>, n: int) -> bool {
    &&& are_digits(digits)
    &&& value_of(digits) == n
    &&& digits.len() > 1 ==> digits[0] != '0' as u8
}

/// The decimal digits of a number, with a minus sign in front where it is negative.
pub open spec fn is_signed_numeral(digits: Seq<u8>, n: int) -> bool {
    if n < 0 {
        digits.len() > 0 && digits[0] == '-' as u8 && is_numeral(digits.skip(1), -n)
    } else {
        is_numeral(digits, n)
    }
}

/// Digits stand for a number.
pub proof fn lemma_value(digits: Seq<u8>)
    ensures
        text::all_digits(digits) ==> text::digits_value(digits) == value_of(digits),
    decreases digits.len(),
{
    if digits.len() > 0 && text::all_digits(digits) {
        assert forall|i: int| 0 <= i < digits.drop_last().len() implies 48
            <= #[trigger] digits.drop_last()[i] <= 57 by {
            assert(digits.drop_last()[i] == digits[i]);
        }
        lemma_value(digits.drop_last());
    }
}

/// The digits of a number do not start with a zero, unless it is the only one.
proof fn lemma_leading(n: nat)
    ensures
        n > 0 ==> text::ascii(text::digits(n))[0] != 48,
        text::digits(n).len() > 0,
    decreases n,
{
    if n >= 10 {
        lemma_leading(n / 10);
        assert(text::digits(n)[0] == text::digits(n / 10)[0]);
    }
}

/// The digits of a number are its numeral.
pub proof fn lemma_numeral(n: nat)
    ensures
        is_numeral(text::ascii(text::digits(n)), n as int),
        encode_utf8(text::digits(n)) == text::ascii(text::digits(n)),
{
    text::lemma_digits(n);
    text::lemma_ascii(text::digits(n));
    lemma_value(text::ascii(text::digits(n)));
    lemma_leading(n);
}

/// The digits of a signed number are its numeral.
proof fn lemma_signed_numeral(n: int)
    ensures
        is_signed_numeral(text::ascii(text::signed_digits(n)), n),
        encode_utf8(text::signed_digits(n)) == text::ascii(text::signed_digits(n)),
{
    text::lemma_signed_digits(n);
    text::lemma_ascii(text::signed_digits(n));
    if n < 0 {
        lemma_numeral((-n) as nat);
        let whole = text::ascii(text::signed_digits(n));
        assert(whole.skip(1) =~= text::ascii(text::digits((-n) as nat)));
        assert(whole[0] == '-' as u8);
    } else {
        lemma_numeral(n as nat);
    }
}

/// Numbers are written in decimal digits, without leading zeros.
pub proof fn numbers_are_written_in_digits(n: u64, written: String)
    requires
        call_ensures(digits_text, (n,), written),
    ensures
        is_numeral(encode_utf8(written@), n as int),
{
    lemma_numeral(n as nat);
}

/// Signed numbers are written in decimal digits, with a minus sign in front where they are negative.
pub proof fn signed_numbers_are_written_in_digits(n: i32, written: String)
    requires
        call_ensures(signed_text, (n,), written),
    ensures
        is_signed_numeral(encode_utf8(written@), n as int),
{
    lemma_signed_numeral(n as int);
}

/// What stands behind a plus sign, where there is one.
pub open spec fn without_plus(bytes: Seq<u8>) -> Seq<u8> {
    if bytes.len() > 0 && bytes[0] == '+' as u8 {
        bytes.skip(1)
    } else {
        bytes
    }
}

/// A number is read from digits, with a plus sign allowed in front, where it fits in 32 bits.
pub proof fn numbers_are_read_from_digits(bytes: &[u8], number: Option<u32>)
    requires
        call_ensures(parse_u32, (bytes,), number),
    ensures
        ({
            let digits = without_plus(bytes@);
            match number {
                Some(n) => are_digits(digits) && value_of(digits) == n,
                None => !are_digits(digits) || value_of(digits) > u32::MAX,
            }
        }),
{
    let digits = without_plus(bytes@);
    lemma_value(digits);
}

/// A signed number is read from digits, with a plus or a minus sign allowed in front, where it fits
/// in 32 bits.
pub proof fn signed_numbers_are_read_from_digits(bytes: &[u8], number: Option<i32>)
    requires
        call_ensures(parse_i32, (bytes,), number),
    ensures
        if bytes@.len() > 0 && bytes@[0] == '-' as u8 {
            let digits = bytes@.skip(1);
            match number {
                Some(n) => are_digits(digits) && -value_of(digits) == n,
                None => !are_digits(digits) || -value_of(digits) < i32::MIN,
            }
        } else {
            let digits = without_plus(bytes@);
            match number {
                Some(n) => are_digits(digits) && value_of(digits) == n,
                None => !are_digits(digits) || value_of(digits) > i32::MAX,
            }
        },
{
    lemma_value(bytes@.skip(1));
    lemma_value(without_plus(bytes@));
}

/// A letter, a digit, a space, or one of `.`, `_`, `:`, `-` and `/`.
pub open spec fn stands_for_itself(byte: u8) -> bool {
    graphs::is_name_byte(byte) || byte == '/' as u8 || byte == ' ' as u8
}

/// The value of a hexadecimal digit in capitals.
pub open spec fn capital_of(digit: u8) -> int {
    if '0' as u8 <= digit <= '9' as u8 {
        digit - '0' as u8
    } else if 'A' as u8 <= digit <= 'F' as u8 {
        digit - 'A' as u8 + 10
    } else {
        -1
    }
}

/// What stands for a byte: the byte itself, or a percent sign and its two hexadecimal digits.
pub open spec fn escapes(spelling: Seq<u8>, byte: u8) -> bool {
    if stands_for_itself(byte) {
        spelling == seq![byte]
    } else {
        &&& spelling.len() == 3
        &&& spelling[0] == '%' as u8
        &&& capital_of(spelling[1]) >= 0
        &&& capital_of(spelling[2]) >= 0
        &&& capital_of(spelling[1]) * 16 + capital_of(spelling[2]) == byte
    }
}

/// The spellings of bytes, one after the other.
pub open spec fn is_escaped(field: Seq<u8>, bytes: Seq<u8>) -> bool {
    exists|spellings: Seq<Seq<u8>>|
        {
            &&& spellings.len() == bytes.len()
            &&& forall|i: int| 0 <= i < bytes.len() ==> escapes(#[trigger] spellings[i], bytes[i])
            &&& field == #[trigger] spellings.flatten()
        }
}

/// Escaped bytes are spelled one after the other.
proof fn lemma_escaped(bytes: Seq<u8>) -> (spellings: Seq<Seq<u8>>)
    ensures
        spellings.len() == bytes.len(),
        forall|i: int| 0 <= i < bytes.len() ==> escapes(#[trigger] spellings[i], bytes[i]),
        fields::escaped(bytes) == spellings.flatten(),
        is_escaped(fields::escaped(bytes), bytes),
    decreases bytes.len(),
{
    if bytes.len() == 0 {
        let none = Seq::<Seq<u8>>::empty();
        assert(none.flatten() =~= Seq::<u8>::empty());
        none
    } else {
        let rest = bytes.skip(1);
        let others = lemma_escaped(rest);
        let byte = bytes[0];
        let first = fields::escaped_byte(byte);
        let spellings = seq![first] + others;
        assert(spellings.drop_first() =~= others);
        assert(spellings.first() == first);
        assert(escapes(first, byte)) by {
            let high = byte as int / 16;
            let low = byte as int % 16;
            assert(0 <= high < 16 && 0 <= low < 16 && high * 16 + low == byte);
        }
        assert forall|i: int| 0 <= i < bytes.len() implies escapes(
            #[trigger] spellings[i],
            bytes[i],
        ) by {
            if i > 0 {
                assert(escapes(others[i - 1], rest[i - 1]));
            }
        }
        assert(fields::escaped(bytes) =~= spellings.flatten());
        spellings
    }
}

/// The parts with a comma between any two of them.
pub open spec fn with_commas(parts: Seq<Seq<u8>>) -> Seq<u8>
    decreases parts.len(),
{
    if parts.len() == 0 {
        Seq::empty()
    } else if parts.len() == 1 {
        parts[0]
    } else {
        with_commas(parts.drop_last()) + seq![',' as u8] + parts.last()
    }
}

/// The numerals of numbers, with a comma between any two of them.
pub open spec fn is_list(field: Seq<u8>, numbers: Seq<i32>) -> bool {
    exists|parts: Seq<Seq<u8>>|
        {
            &&& parts.len() == numbers.len()
            &&& forall|i: int|
                0 <= i < parts.len() ==> is_signed_numeral(
                    #[trigger] parts[i],
                    numbers[i] as int,
                )
            &&& field == #[trigger] with_commas(parts)
        }
}

pub proof fn lemma_commas(parts: Seq<Seq<u8>>)
    ensures
        fields::join(parts, fields::COMMA) == with_commas(parts),
    decreases parts.len(),
{
    if parts.len() > 1 {
        lemma_commas(parts.drop_last());
        assert(fields::join(parts, fields::COMMA) =~= with_commas(parts));
    }
}

proof fn lemma_list(numbers: Seq<i32>)
    ensures
        is_list(protocol::matrix_field(numbers), numbers),
{
    let parts = Seq::new(numbers.len(), |i: int| protocol::signed_field(numbers[i]));
    lemma_commas(parts);
    assert forall|i: int| 0 <= i < parts.len() implies is_signed_numeral(
        #[trigger] parts[i],
        numbers[i] as int,
    ) by {
        lemma_signed_numeral(numbers[i] as int);
    }
}

/// A tab.
pub open spec fn tab() -> Seq<u8> {
    seq!['\t' as u8]
}

proof fn lemma_join_more(parts: Seq<Seq<u8>>, last: Seq<u8>)
    requires
        parts.len() > 0,
    ensures
        fields::join(parts.push(last), fields::TAB) == fields::join(parts, fields::TAB) + tab()
            + last,
{
    assert(parts.push(last).drop_last() =~= parts);
    assert(fields::join(parts.push(last), fields::TAB) =~= fields::join(parts, fields::TAB) + tab()
        + last);
}

proof fn lemma_join_two(a: Seq<u8>, b: Seq<u8>)
    ensures
        fields::join(seq![a, b], fields::TAB) == a + tab() + b,
{
    lemma_join_more(seq![a], b);
    assert(seq![a].push(b) =~= seq![a, b]);
}

proof fn lemma_join_six(
    a: Seq<u8>,
    b: Seq<u8>,
    c: Seq<u8>,
    d: Seq<u8>,
    e: Seq<u8>,
    f: Seq<u8>,
)
    ensures
        fields::join(seq![a, b, c], fields::TAB) == a + tab() + b + tab() + c,
        fields::join(seq![a, b, c, d, e, f], fields::TAB) == a + tab() + b + tab() + c + tab() + d
            + tab() + e + tab() + f,
{
    lemma_join_two(a, b);
    lemma_join_more(seq![a, b], c);
    assert(seq![a, b].push(c) =~= seq![a, b, c]);
    lemma_join_more(seq![a, b, c], d);
    assert(seq![a, b, c].push(d) =~= seq![a, b, c, d]);
    lemma_join_more(seq![a, b, c, d], e);
    assert(seq![a, b, c, d].push(e) =~= seq![a, b, c, d, e]);
    lemma_join_more(seq![a, b, c, d, e], f);
    assert(seq![a, b, c, d, e].push(f) =~= seq![a, b, c, d, e, f]);
}

/// A request to create a device is the word, the escaped id, the escaped name, and the numbers of
/// input channels, of output channels and of the rate, with tabs between them.
pub proof fn create_requests_are_written_in_order(
    id: String,
    name: String,
    input_channels: u32,
    output_channels: u32,
    sample_rate: u32,
    body: String,
)
    requires
        call_ensures(
            Request::encode,
            (&Request::CreateDevice { id, name, input_channels, output_channels, sample_rate },),
            body,
        ),
    ensures
        exists|a: Seq<u8>, b: Seq<u8>, c: Seq<u8>, d: Seq<u8>, e: Seq<u8>|
            {
                &&& #[trigger] is_escaped(a, encode_utf8(id@))
                &&& #[trigger] is_escaped(b, encode_utf8(name@))
                &&& #[trigger] is_numeral(c, input_channels as int)
                &&& #[trigger] is_numeral(d, output_channels as int)
                &&& #[trigger] is_numeral(e, sample_rate as int)
                &&& encode_utf8(body@) == encode_utf8("create"@) + tab() + a + tab() + b + tab() + c
                    + tab() + d + tab() + e
            },
{
    let a = protocol::text_field(id@);
    let b = protocol::text_field(name@);
    let c = protocol::number_field(input_channels);
    let d = protocol::number_field(output_channels);
    let e = protocol::number_field(sample_rate);
    lemma_escaped(encode_utf8(id@));
    lemma_escaped(encode_utf8(name@));
    lemma_numeral(input_channels as nat);
    lemma_numeral(output_channels as nat);
    lemma_numeral(sample_rate as nat);
    lemma_join_six(encode_utf8("create"@), a, b, c, d, e);
    assert(is_escaped(a, encode_utf8(id@)) && is_escaped(b, encode_utf8(name@)));
    assert(is_numeral(c, input_channels as int) && is_numeral(d, output_channels as int));
    assert(is_numeral(e, sample_rate as int));
}

/// A request for a route is the word, the escaped id, the escaped source, the escaped sink, the gain
/// and the coefficients with commas between them, with tabs between all of these.
pub proof fn connect_requests_are_written_in_order(
    id: String,
    source: String,
    sink: String,
    gain_millidb: i32,
    matrix_millionths: Vec<i32>,
    body: String,
)
    requires
        call_ensures(
            Request::encode,
            (&Request::Connect { id, source, sink, gain_millidb, matrix_millionths },),
            body,
        ),
    ensures
        exists|a: Seq<u8>, b: Seq<u8>, c: Seq<u8>, d: Seq<u8>, e: Seq<u8>|
            {
                &&& #[trigger] is_escaped(a, encode_utf8(id@))
                &&& #[trigger] is_escaped(b, encode_utf8(source@))
                &&& #[trigger] is_escaped(c, encode_utf8(sink@))
                &&& #[trigger] is_signed_numeral(d, gain_millidb as int)
                &&& #[trigger] is_list(e, matrix_millionths@)
                &&& encode_utf8(body@) == encode_utf8("connect"@) + tab() + a + tab() + b + tab()
                    + c + tab() + d + tab() + e
            },
{
    let a = protocol::text_field(id@);
    let b = protocol::text_field(source@);
    let c = protocol::text_field(sink@);
    let d = protocol::signed_field(gain_millidb);
    let e = protocol::matrix_field(matrix_millionths@);
    lemma_escaped(encode_utf8(id@));
    lemma_escaped(encode_utf8(source@));
    lemma_escaped(encode_utf8(sink@));
    lemma_signed_numeral(gain_millidb as int);
    lemma_list(matrix_millionths@);
    lemma_join_six(encode_utf8("connect"@), a, b, c, d, e);
    assert(is_escaped(a, encode_utf8(id@)) && is_escaped(b, encode_utf8(source@)));
    assert(is_escaped(c, encode_utf8(sink@)) && is_signed_numeral(d, gain_millidb as int));
    assert(is_list(e, matrix_millionths@));
}

/// The other requests are their word, with the escaped id behind a tab where they have one.
pub proof fn short_requests_are_written_in_order(request: Request, body: String)
    requires
        call_ensures(Request::encode, (&request,), body),
    ensures
        match request {
            Request::Ping => encode_utf8(body@) == encode_utf8("ping"@),
            Request::Status => encode_utf8(body@) == encode_utf8("status"@),
            Request::Shutdown => encode_utf8(body@) == encode_utf8("shutdown"@),
            Request::DeleteDevice { id } => exists|a: Seq<u8>| #[trigger]
                is_escaped(a, encode_utf8(id@)) && encode_utf8(body@) == encode_utf8("delete"@)
                    + tab() + a,
            Request::Disconnect { id } => exists|a: Seq<u8>| #[trigger]
                is_escaped(a, encode_utf8(id@)) && encode_utf8(body@) == encode_utf8("disconnect"@)
                    + tab() + a,
            _ => true,
        },
{
    match request {
        Request::DeleteDevice { id } => {
            let a = protocol::text_field(id@);
            lemma_escaped(encode_utf8(id@));
            lemma_join_two(encode_utf8("delete"@), a);
            assert(is_escaped(a, encode_utf8(id@)));
        },
        Request::Disconnect { id } => {
            let a = protocol::text_field(id@);
            lemma_escaped(encode_utf8(id@));
            lemma_join_two(encode_utf8("disconnect"@), a);
            assert(is_escaped(a, encode_utf8(id@)));
        },
        _ => {},
    }
}

/// A response is `ok` and the escaped message, or `error`, the escaped code and the escaped message,
/// with tabs between them.
pub proof fn responses_are_written_in_order(response: Response, body: String)
    requires
        call_ensures(Response::encode, (&response,), body),
    ensures
        match response {
            Response::Accepted(message) => exists|a: Seq<u8>| #[trigger]
                is_escaped(a, encode_utf8(message@)) && encode_utf8(body@) == encode_utf8("ok"@)
                    + tab() + a,
            Response::Error { code, message } => exists|a: Seq<u8>, b: Seq<u8>|
                {
                    &&& #[trigger] is_escaped(a, encode_utf8(code@))
                    &&& #[trigger] is_escaped(b, encode_utf8(message@))
                    &&& encode_utf8(body@) == encode_utf8("error"@) + tab() + a + tab() + b
                },
        },
{
    match response {
        Response::Accepted(message) => {
            let a = protocol::text_field(message@);
            lemma_escaped(encode_utf8(message@));
            lemma_join_two(encode_utf8("ok"@), a);
            assert(is_escaped(a, encode_utf8(message@)));
        },
        Response::Error { code, message } => {
            let a = protocol::text_field(code@);
            let b = protocol::text_field(message@);
            lemma_escaped(encode_utf8(code@));
            lemma_escaped(encode_utf8(message@));
            lemma_join_six(encode_utf8("error"@), a, b, a, a, a);
            assert(is_escaped(a, encode_utf8(code@)) && is_escaped(b, encode_utf8(message@)));
        },
    }
}

/// The requests ask for the same.
pub open spec fn are_same_requests(left: Request, right: Request) -> bool {
    match (left, right) {
        (Request::Ping, Request::Ping) => true,
        (Request::Status, Request::Status) => true,
        (Request::Shutdown, Request::Shutdown) => true,
        (
            Request::CreateDevice { id, name, input_channels, output_channels, sample_rate },
            Request::CreateDevice {
                id: other_id,
                name: other_name,
                input_channels: other_inputs,
                output_channels: other_outputs,
                sample_rate: other_rate,
            },
        ) => {
            &&& id@ == other_id@
            &&& name@ == other_name@
            &&& input_channels == other_inputs
            &&& output_channels == other_outputs
            &&& sample_rate == other_rate
        },
        (Request::DeleteDevice { id }, Request::DeleteDevice { id: other_id }) => {
            id@ == other_id@
        },
        (
            Request::Connect { id, source, sink, gain_millidb, matrix_millionths },
            Request::Connect {
                id: other_id,
                source: other_source,
                sink: other_sink,
                gain_millidb: other_gain,
                matrix_millionths: other_matrix,
            },
        ) => {
            &&& id@ == other_id@
            &&& source@ == other_source@
            &&& sink@ == other_sink@
            &&& gain_millidb == other_gain
            &&& matrix_millionths@ == other_matrix@
        },
        (Request::Disconnect { id }, Request::Disconnect { id: other_id }) => id@ == other_id@,
        _ => false,
    }
}

/// A request that is written is read back as the same request.
pub proof fn requests_are_read_back(
    request: Request,
    body: String,
    text: &str,
    result: Result<Request, ProtocolError>,
)
    requires
        call_ensures(Request::encode, (&request,), body),
        text@ == body@,
        call_ensures(Request::decode, (text,), result),
    ensures
        result matches Ok(back) && are_same_requests(back, request),
{
    Request::decode_inverts_encode(request@);
}

/// A response that is written is read back as the same response.
pub proof fn responses_are_read_back(
    response: Response,
    body: String,
    text: &str,
    result: Result<Response, ProtocolError>,
)
    requires
        call_ensures(Response::encode, (&response,), body),
        text@ == body@,
        call_ensures(Response::decode, (text,), result),
    ensures
        result matches Ok(back) && match (back, response) {
            (Response::Accepted(message), Response::Accepted(other)) => message@ == other@,
            (
                Response::Error { code, message },
                Response::Error { code: other_code, message: other_message },
            ) => code@ == other_code@ && message@ == other_message@,
            _ => false,
        },
{
    Response::decode_inverts_encode(response@);
}

/// What is read is sent again as a message that is read as the same.
pub proof fn requests_that_are_read_are_written_alike(
    first: &str,
    request: Request,
    body: String,
    second: &str,
    result: Result<Request, ProtocolError>,
)
    requires
        call_ensures(Request::decode, (first,), Ok::<Request, ProtocolError>(request)),
        call_ensures(Request::encode, (&request,), body),
        second@ == body@,
        call_ensures(Request::decode, (second,), result),
    ensures
        result matches Ok(back) && are_same_requests(back, request),
{
    requests_are_read_back(request, body, second, result);
}

/// The number that four bytes stand for, the most significant first.
pub open spec fn big_endian(bytes: Seq<u8>) -> int {
    ((bytes[0] * 256 + bytes[1]) * 256 + bytes[2]) * 256 + bytes[3]
}

/// A message of up to 1048576 bytes is written behind its length, which stands in four bytes with the
/// most significant first. A longer one is refused, and nothing is written.
pub proof fn messages_are_written_behind_their_length<M: Message>(
    writer: &mut Vec<u8>,
    message: M,
    result: Result<(), ProtocolError>,
    body: String,
)
    requires
        call_ensures(write_message::<M>, (writer, &message), result),
        call_ensures(M::encode, (&message,), body),
    ensures
        ({
            let bytes = encode_utf8(body@);
            let start = old(writer)@.len() as int;
            match result {
                Ok(()) => {
                    &&& bytes.len() <= 1_048_576
                    &&& final(writer)@.len() == start + 4 + bytes.len()
                    &&& final(writer)@.take(start) == old(writer)@
                    &&& big_endian(final(writer)@.skip(start)) == bytes.len()
                    &&& final(writer)@.skip(start + 4) == bytes
                },
                Err(error) => {
                    &&& bytes.len() > 1_048_576
                    &&& final(writer)@ == old(writer)@
                    &&& error is MessageTooLarge
                },
            }
        }),
{
    let bytes = encode_utf8(body@);
    let start = old(writer)@.len() as int;
    if result is Ok {
        assert(final(writer)@.take(start) =~= old(writer)@);
        assert(final(writer)@.skip(start + 4) =~= bytes);
        let length = bytes.len();
        let prefix = protocol::length_prefix(length);
        assert(final(writer)@.skip(start).take(4) =~= prefix);
        assert(final(writer)@.skip(start)[0] == prefix[0]);
        assert(final(writer)@.skip(start)[1] == prefix[1]);
        assert(final(writer)@.skip(start)[2] == prefix[2]);
        assert(final(writer)@.skip(start)[3] == prefix[3]);
    }
}

/// A length of up to 1048576 is read from four bytes, the most significant first.
pub proof fn lengths_are_read_from_four_bytes(header: &[u8], result: Result<usize, ProtocolError>)
    requires
        call_ensures(read_length, (header,), result),
    ensures
        match result {
            Ok(length) => header@.len() >= 4 && length == big_endian(header@) && length
                <= 1_048_576,
            Err(ProtocolError::Truncated) => header@.len() < 4,
            Err(ProtocolError::MessageTooLarge(_)) => header@.len() >= 4 && big_endian(header@)
                > 1_048_576,
            Err(_) => false,
        },
{
}

/// A message that is written is read back, whatever follows it, and what follows it is left.
pub proof fn messages_are_read_back<M: Message>(
    writer: &mut Vec<u8>,
    message: M,
    reader: &mut &[u8],
    rest: Seq<u8>,
    result: Result<M, ProtocolError>,
)
    requires
        old(writer)@.len() == 0,
        call_ensures(write_message::<M>, (writer, &message), Ok::<(), ProtocolError>(())),
        old(reader)@ == final(writer)@ + rest,
        call_ensures(read_message::<M>, (reader,), result),
    ensures
        result matches Ok(back) && back@ == message@,
        final(reader)@ == rest,
{
    protocol::read_inverts_write::<M>(message@, rest);
    assert(old(writer)@ + protocol::frame(M::wire(message@)) =~= protocol::frame(
        M::wire(message@),
    ));
}

/// A stream that ends before its first message does is truncated, and one whose first message is too
/// long is refused without that message being read.
pub proof fn broken_streams_are_refused<M: Message>(
    reader: &mut &[u8],
    result: Result<M, ProtocolError>,
)
    requires
        call_ensures(read_message::<M>, (reader,), result),
    ensures
        ({
            let stream = old(reader)@;
            let length = big_endian(stream);
            if stream.len() < 4 {
                result matches Err(ProtocolError::Truncated) && final(reader)@.len() == 0
            } else if length > 1_048_576 {
                result matches Err(ProtocolError::MessageTooLarge(_)) && final(reader)@
                    == stream.skip(4)
            } else if stream.len() < 4 + length {
                result matches Err(ProtocolError::Truncated) && final(reader)@.len() == 0
            } else {
                final(reader)@ == stream.skip(4 + length)
            }
        }),
{
}

/// The value of a hexadecimal digit, in either case.
pub open spec fn digit_of(digit: u8) -> int {
    if 'a' as u8 <= digit <= 'f' as u8 {
        digit - 'a' as u8 + 10
    } else {
        capital_of(digit)
    }
}

/// A way to write a byte: as itself, unless it is a tab or a percent sign, or as a percent sign and
/// two hexadecimal digits in either case.
pub open spec fn spells(spelling: Seq<u8>, byte: u8) -> bool {
    ||| spelling == seq![byte] && byte != '%' as u8 && byte != '\t' as u8
    ||| {
        &&& spelling.len() == 3
        &&& spelling[0] == '%' as u8
        &&& digit_of(spelling[1]) >= 0
        &&& digit_of(spelling[2]) >= 0
        &&& digit_of(spelling[1]) * 16 + digit_of(spelling[2]) == byte
    }
}

/// Bytes are read back however they are spelled.
proof fn lemma_unescaped(spellings: Seq<Seq<u8>>, bytes: Seq<u8>)
    requires
        spellings.len() == bytes.len(),
        forall|i: int| 0 <= i < bytes.len() ==> spells(#[trigger] spellings[i], bytes[i]),
    ensures
        fields::unescaped(spellings.flatten()) == Ok::<Seq<u8>, Seq<char>>(bytes),
        !spellings.flatten().contains(fields::TAB),
    decreases bytes.len(),
{
    let field = spellings.flatten();
    if bytes.len() == 0 {
        assert(field =~= Seq::<u8>::empty());
        assert(bytes =~= Seq::<u8>::empty());
    } else {
        let first = spellings.first();
        let others = spellings.drop_first();
        let rest = bytes.skip(1);
        let byte = bytes[0];
        assert(spells(spellings[0], byte));
        assert forall|i: int| 0 <= i < rest.len() implies spells(
            #[trigger] others[i],
            rest[i],
        ) by {
            assert(spells(spellings[i + 1], bytes[i + 1]));
        }
        lemma_unescaped(others, rest);
        assert(field == first + others.flatten());
        assert(seq![byte] + rest =~= bytes);
        if first.len() == 1 {
            assert(field[0] == byte);
            assert(field.skip(1) =~= others.flatten());
        } else {
            assert(field[0] == 0x25 && field[1] == first[1] && field[2] == first[2]);
            assert(field.skip(3) =~= others.flatten());
        }
        assert forall|k: int| 0 <= k < field.len() implies field[k] != fields::TAB by {
            if k >= first.len() {
                assert(others.flatten()[k - first.len()] == field[k]);
                assert(others.flatten().contains(field[k]));
            }
        }
    }
}

/// The id of a request is read from its field byte by byte, however the bytes are spelled.
pub proof fn spelled_ids_are_read(
    body: &str,
    spellings: Seq<Seq<u8>>,
    bytes: Seq<u8>,
    result: Result<Request, ProtocolError>,
)
    requires
        spellings.len() == bytes.len(),
        forall|i: int| 0 <= i < bytes.len() ==> spells(#[trigger] spellings[i], bytes[i]),
        valid_utf8(bytes),
        call_ensures(Request::decode, (body,), result),
    ensures
        encode_utf8(body@) == encode_utf8("delete"@) + tab() + spellings.flatten() ==> (result
            matches Ok(Request::DeleteDevice { id }) && encode_utf8(id@) == bytes),
        encode_utf8(body@) == encode_utf8("disconnect"@) + tab() + spellings.flatten() ==> (result
            matches Ok(Request::Disconnect { id }) && encode_utf8(id@) == bytes),
{
    let field = spellings.flatten();
    lemma_unescaped(spellings, bytes);
    decode_utf8_encode_utf8(bytes);
    lemma_two_fields("delete"@, field);
    lemma_two_fields("disconnect"@, field);
    reveal_strlit("delete");
    reveal_strlit("disconnect");
    let first = encode_utf8("delete"@);
    let second = encode_utf8("disconnect"@);
    assert(first != second) by {
        encode_utf8_decode_utf8("delete"@);
        encode_utf8_decode_utf8("disconnect"@);
        assert("delete"@.len() == 6 && "disconnect"@.len() == 10);
    }
}

/// A word and a field are two fields.
proof fn lemma_two_fields(word: Seq<char>, field: Seq<u8>)
    requires
        word == "delete"@ || word == "disconnect"@,
        !field.contains(fields::TAB),
    ensures
        fields::split(encode_utf8(word) + tab() + field, fields::TAB) == seq![
            encode_utf8(word),
            field,
        ],
{
    reveal_strlit("delete");
    reveal_strlit("disconnect");
    assert forall|i: int| 0 <= i < word.len() implies 'a' <= #[trigger] word[i] <= 'z' by {}
    assert(is_ascii_chars(word));
    text::lemma_ascii(word);
    let keyword = encode_utf8(word);
    assert(!keyword.contains(fields::TAB)) by {
        assert forall|i: int| 0 <= i < keyword.len() implies keyword[i] != fields::TAB by {
            assert('a' <= word[i]);
        }
    }
    let parts = seq![keyword, field];
    assert forall|i: int| 0 <= i < parts.len() implies !(#[trigger] parts[i]).contains(
        fields::TAB,
    ) by {}
    lemma_join_two(keyword, field);
    fields::split_inverts_join(parts, fields::TAB);
}

/// The parts with a tab between any two of them.
pub open spec fn with_tabs(parts: Seq<Seq<u8>>) -> Seq<u8>
    decreases parts.len(),
{
    if parts.len() == 0 {
        Seq::empty()
    } else if parts.len() == 1 {
        parts[0]
    } else {
        with_tabs(parts.drop_last()) + tab() + parts.last()
    }
}

/// The pieces between tabs have tabs between them.
proof fn lemma_pieces(bytes: Seq<u8>)
    ensures
        ({
            let parts = fields::split(bytes, fields::TAB);
            &&& parts.len() > 0
            &&& with_tabs(parts) == bytes
        }),
    decreases bytes.len(),
{
    let parts = fields::split(bytes, fields::TAB);
    if bytes.len() == 0 {
        assert(with_tabs(parts) =~= bytes);
    } else {
        let shorter = bytes.drop_last();
        let before = fields::split(shorter, fields::TAB);
        lemma_pieces(shorter);
        if bytes.last() == fields::TAB {
            assert(parts.drop_last() =~= before);
            assert(with_tabs(parts) =~= shorter + tab());
            assert(shorter + tab() =~= bytes);
        } else {
            assert(parts.drop_last() =~= before.drop_last());
            assert(with_tabs(parts) =~= with_tabs(before).push(bytes.last()));
            assert(shorter.push(bytes.last()) =~= bytes);
        }
    }
}

/// The field is read as a number: digits, with a plus sign allowed in front.
pub open spec fn is_number_field(field: Seq<u8>, number: int) -> bool {
    are_digits(without_plus(field)) && value_of(without_plus(field)) == number
}

/// A request to create a device is read from six fields, its numbers from the last three of them:
/// input channels, output channels and rate.
pub proof fn create_requests_are_read_in_order(
    body: &str,
    id: String,
    name: String,
    input_channels: u32,
    output_channels: u32,
    sample_rate: u32,
)
    requires
        call_ensures(
            Request::decode,
            (body,),
            Ok::<Request, ProtocolError>(
                Request::CreateDevice { id, name, input_channels, output_channels, sample_rate },
            ),
        ),
    ensures
        exists|parts: Seq<Seq<u8>>|
            {
                &&& encode_utf8(body@) == #[trigger] with_tabs(parts)
                &&& parts.len() == 6
                &&& parts[0] == encode_utf8("create"@)
                &&& is_number_field(parts[3], input_channels as int)
                &&& is_number_field(parts[4], output_channels as int)
                &&& is_number_field(parts[5], sample_rate as int)
            },
{
    let bytes = encode_utf8(body@);
    let parts = fields::split(bytes, fields::TAB);
    lemma_pieces(bytes);
    lemma_value(without_plus(parts[3]));
    lemma_value(without_plus(parts[4]));
    lemma_value(without_plus(parts[5]));
}

} // verus!
