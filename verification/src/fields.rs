//! Fields of a line: joining, splitting, and escaping.
use vstd::prelude::*;
use vstd::slice::slice_subrange;
use vstd::utf8::*;
use crate::text;
use crate::text::alphanumeric;

verus! {

/// The byte between two fields of a message.
pub const TAB: u8 = 0x09;

/// The byte between two numbers of a list.
pub const COMMA: u8 = 0x2c;

/// The fields with `separator` between any two of them.
pub open spec fn join(fields: Seq<Seq<u8>>, separator: u8) -> Seq<u8>
    decreases fields.len(),
{
    if fields.len() == 0 {
        seq![]
    } else if fields.len() == 1 {
        fields[0]
    } else {
        join(fields.drop_last(), separator).push(separator) + fields.last()
    }
}

/// The pieces between the occurrences of `separator`, of which there is one more than of those.
pub open spec fn split(bytes: Seq<u8>, separator: u8) -> Seq<Seq<u8>>
    decreases bytes.len(),
{
    if bytes.len() == 0 {
        seq![seq![]]
    } else {
        let before = split(bytes.drop_last(), separator);
        if bytes.last() == separator {
            before.push(seq![])
        } else {
            before.update(before.len() - 1, before.last().push(bytes.last()))
        }
    }
}

proof fn lemma_split_nonempty(bytes: Seq<u8>, separator: u8)
    ensures
        split(bytes, separator).len() > 0,
    decreases bytes.len(),
{
    if bytes.len() > 0 {
        lemma_split_nonempty(bytes.drop_last(), separator);
    }
}

proof fn lemma_split_single(bytes: Seq<u8>, separator: u8)
    requires
        !bytes.contains(separator),
    ensures
        split(bytes, separator) == seq![bytes],
    decreases bytes.len(),
{
    if bytes.len() == 0 {
        assert(bytes =~= seq![]);
    } else {
        let shorter = bytes.drop_last();
        assert(!shorter.contains(separator)) by {
            assert forall|i: int| 0 <= i < shorter.len() implies shorter[i] != separator by {
                assert(bytes[i] == shorter[i]);
            }
        }
        lemma_split_single(shorter, separator);
        assert(bytes.last() != separator) by {
            assert(bytes.contains(bytes.last()));
        }
        assert(shorter.push(bytes.last()) =~= bytes);
        assert(split(bytes, separator) =~= seq![bytes]);
    }
}

proof fn lemma_split_concat(left: Seq<u8>, right: Seq<u8>, separator: u8)
    ensures
        split(left.push(separator) + right, separator) == split(left, separator) + split(
            right,
            separator,
        ),
    decreases right.len(),
{
    let whole = left.push(separator) + right;
    if right.len() == 0 {
        assert(whole =~= left.push(separator));
        assert(whole.drop_last() =~= left);
        assert(split(whole, separator) =~= split(left, separator) + split(right, separator));
    } else {
        lemma_split_concat(left, right.drop_last(), separator);
        lemma_split_nonempty(right.drop_last(), separator);
        assert(whole.drop_last() =~= left.push(separator) + right.drop_last());
        assert(whole.last() == right.last());
        assert(split(whole, separator) =~= split(left, separator) + split(right, separator));
    }
}

/// No field holds the separator.
pub open spec fn free_of(fields: Seq<Seq<u8>>, separator: u8) -> bool {
    forall|i: int| 0 <= i < fields.len() ==> !(#[trigger] fields[i]).contains(separator)
}

/// Splitting gives back the fields that were joined, where none of them holds the separator.
pub proof fn split_inverts_join(fields: Seq<Seq<u8>>, separator: u8)
    requires
        fields.len() > 0,
        free_of(fields, separator),
    ensures
        split(join(fields, separator), separator) == fields,
    decreases fields.len(),
{
    if fields.len() == 1 {
        lemma_split_single(fields[0], separator);
        assert(seq![fields[0]] =~= fields);
    } else {
        let before = fields.drop_last();
        assert(free_of(before, separator)) by {
            assert forall|i: int| 0 <= i < before.len() implies !(#[trigger] before[i]).contains(
                separator,
            ) by {
                assert(before[i] == fields[i]);
            }
        }
        split_inverts_join(before, separator);
        lemma_split_concat(join(before, separator), fields.last(), separator);
        lemma_split_single(fields.last(), separator);
        assert(before + seq![fields.last()] =~= fields);
    }
}

/// The bytes of each field.
pub open spec fn field_bytes(fields: Seq<Vec<u8>>) -> Seq<Seq<u8>> {
    Seq::new(fields.len(), |i: int| fields[i]@)
}

/// Joins the fields with `separator` between any two of them.
pub(crate) fn join_fields(fields: &Vec<Vec<u8>>, separator: u8) -> (line: Vec<u8>)
    ensures
        line@ == join(field_bytes(fields@), separator),
{
    let ghost all = field_bytes(fields@);
    let mut line: Vec<u8> = Vec::new();
    let mut i: usize = 0;
    assert(all.take(0) =~= seq![]);
    while i < fields.len()
        invariant
            i <= fields@.len(),
            all == field_bytes(fields@),
            line@ == join(all.take(i as int), separator),
        decreases fields.len() - i,
    {
        if i > 0 {
            line.push(separator);
        }
        append(&mut line, fields[i].as_slice());
        proof {
            assert(all.take(i + 1).drop_last() =~= all.take(i as int));
            assert(all.take(i + 1).last() == fields@[i as int]@);
            if i == 0 {
                assert(line@ =~= fields@[0]@);
            }
        }
        i = i + 1;
    }
    assert(all.take(i as int) =~= all);
    line
}

/// Appends `bytes`.
pub(crate) fn append(out: &mut Vec<u8>, bytes: &[u8])
    ensures
        final(out)@ == old(out)@ + bytes@,
{
    let mut i: usize = 0;
    assert(out@ =~= old(out)@ + bytes@.take(0));
    while i < bytes.len()
        invariant
            i <= bytes@.len(),
            out@ == old(out)@ + bytes@.take(i as int),
        decreases bytes.len() - i,
    {
        out.push(bytes[i]);
        i = i + 1;
        assert(bytes@.take(i as int) =~= bytes@.take(i - 1).push(bytes@[i - 1]));
        assert(out@ =~= old(out)@ + bytes@.take(i as int));
    }
    assert(bytes@.take(i as int) =~= bytes@);
}

/// A piece of valid UTF-8 between two ASCII separators is valid UTF-8.
proof fn lemma_piece_valid(bytes: Seq<u8>, start: int, end: int)
    requires
        valid_utf8(bytes),
        0 <= start <= end <= bytes.len(),
        start == 0 || bytes[start - 1] < 128,
        end == bytes.len() || bytes[end] < 128,
    ensures
        valid_utf8(bytes.subrange(start, end)),
{
    let len = bytes.len() as int;
    assert(valid_utf8(bytes.subrange(start, len))) by {
        if start == 0 {
            assert(bytes.subrange(0, len) =~= bytes);
        } else {
            assert(is_leading_byte_width_1(bytes[start - 1]));
            is_char_boundary_iff_is_leading_byte(bytes, start - 1);
            valid_utf8_split(bytes, start - 1);
            let tail = bytes.subrange(start - 1, len);
            assert(tail[0] == bytes[start - 1]);
            assert(pop_first_scalar(tail) =~= bytes.subrange(start, len));
        }
    }
    let rest = bytes.subrange(start, len);
    if end < len {
        assert(rest[end - start] == bytes[end]);
        assert(is_leading_byte_width_1(rest[end - start]));
        is_char_boundary_iff_is_leading_byte(rest, end - start);
        valid_utf8_split(rest, end - start);
        assert(rest.subrange(0, end - start) =~= bytes.subrange(start, end));
    }
}

/// Splits the bytes at each `separator`.
pub(crate) fn split_fields<'a>(bytes: &'a [u8], separator: u8) -> (fields: Vec<&'a [u8]>)
    requires
        separator < 128,
    ensures
        fields@.len() == split(bytes@, separator).len(),
        forall|i: int|
            0 <= i < fields@.len() ==> (#[trigger] fields@[i])@ == split(bytes@, separator)[i],
        valid_utf8(bytes@) ==> forall|i: int|
            0 <= i < fields@.len() ==> valid_utf8((#[trigger] fields@[i])@),
{
    let mut fields: Vec<&'a [u8]> = Vec::new();
    let mut start: usize = 0;
    let mut i: usize = 0;
    assert(bytes@.take(0) =~= seq![]);
    assert(bytes@.subrange(0, 0) =~= seq![]);
    while i < bytes.len()
        invariant
            start <= i <= bytes@.len(),
            separator < 128,
            start == 0 || bytes@[start - 1] == separator,
            split(bytes@.take(i as int), separator).len() == fields@.len() + 1,
            forall|k: int|
                0 <= k < fields@.len() ==> (#[trigger] fields@[k])@ == split(
                    bytes@.take(i as int),
                    separator,
                )[k],
            split(bytes@.take(i as int), separator).last() == bytes@.subrange(
                start as int,
                i as int,
            ),
            valid_utf8(bytes@) ==> forall|k: int|
                0 <= k < fields@.len() ==> valid_utf8((#[trigger] fields@[k])@),
        decreases bytes.len() - i,
    {
        let ghost before = split(bytes@.take(i as int), separator);
        let ghost longer = bytes@.take(i + 1);
        assert(longer.drop_last() =~= bytes@.take(i as int));
        assert(longer.last() == bytes@[i as int]);
        if bytes[i] == separator {
            proof {
                if valid_utf8(bytes@) {
                    lemma_piece_valid(bytes@, start as int, i as int);
                }
            }
            fields.push(slice_subrange(bytes, start, i));
            start = i + 1;
            assert(bytes@.subrange(start as int, i + 1) =~= seq![]);
        } else {
            assert(bytes@.subrange(start as int, i + 1) =~= bytes@.subrange(
                start as int,
                i as int,
            ).push(bytes@[i as int]));
        }
        i = i + 1;
    }
    assert(bytes@.take(i as int) =~= bytes@);
    proof {
        if valid_utf8(bytes@) {
            lemma_piece_valid(bytes@, start as int, i as int);
        }
    }
    fields.push(slice_subrange(bytes, start, bytes.len()));
    fields
}

/// A byte that an escaped text holds as itself: a letter, a digit, or one of `. _ : - /` and space.
pub open spec fn is_plain(byte: u8) -> bool {
    text::is_alphanumeric(byte) || byte == 0x2e || byte == 0x5f || byte == 0x3a || byte == 0x2d || byte
        == 0x2f || byte == 0x20
}

/// The hexadecimal digit, in capitals.
pub open spec fn hex_digit(value: int) -> u8 {
    (if value < 10 {
        48 + value
    } else {
        55 + value
    }) as u8
}

/// One byte escaped: itself, or a percent sign and two hexadecimal digits.
pub open spec fn escaped_byte(byte: u8) -> Seq<u8> {
    if is_plain(byte) {
        seq![byte]
    } else {
        seq![0x25u8, hex_digit(byte as int / 16), hex_digit(byte as int % 16)]
    }
}

/// Each byte escaped.
pub open spec fn escaped(bytes: Seq<u8>) -> Seq<u8>
    decreases bytes.len(),
{
    if bytes.len() == 0 {
        seq![]
    } else {
        escaped_byte(bytes[0]) + escaped(bytes.skip(1))
    }
}

/// The value of a hexadecimal digit, in either case.
pub open spec fn hex_value(byte: u8) -> Option<int> {
    if 48 <= byte <= 57 {
        Some(byte - 48)
    } else if 65 <= byte <= 70 {
        Some(byte - 55)
    } else if 97 <= byte <= 102 {
        Some(byte - 87)
    } else {
        None
    }
}

/// The byte that the two characters after a percent sign stand for: two hexadecimal digits, or a
/// plus sign and one.
pub open spec fn escape_value(first: u8, second: u8) -> Option<u8> {
    match (hex_value(first), hex_value(second)) {
        (Some(high), Some(low)) => Some((high * 16 + low) as u8),
        (None, Some(low)) if first == 0x2b => Some(low as u8),
        _ => None,
    }
}

/// `prefix` in front of the bytes, where there are any.
pub open spec fn with_prefix(
    prefix: Seq<u8>,
    rest: Result<Seq<u8>, Seq<char>>,
) -> Result<Seq<u8>, Seq<char>> {
    match rest {
        Ok(bytes) => Ok(prefix + bytes),
        Err(message) => Err(message),
    }
}

/// The bytes that an escaped text stands for, or what is wrong with it.
pub open spec fn unescaped(bytes: Seq<u8>) -> Result<Seq<u8>, Seq<char>>
    decreases bytes.len(),
{
    if bytes.len() == 0 {
        Ok(seq![])
    } else if bytes[0] != 0x25 {
        with_prefix(seq![bytes[0]], unescaped(bytes.skip(1)))
    } else if bytes.len() < 3 {
        Err("incomplete escape"@)
    } else {
        match escape_value(bytes[1], bytes[2]) {
            None => Err("invalid escape"@),
            Some(byte) => with_prefix(seq![byte], unescaped(bytes.skip(3))),
        }
    }
}

/// Unescaping gives back the bytes that were escaped.
pub proof fn unescape_inverts_escape(bytes: Seq<u8>)
    ensures
        unescaped(escaped(bytes)) == Ok::<Seq<u8>, Seq<char>>(bytes),
    decreases bytes.len(),
{
    if bytes.len() == 0 {
        assert(bytes =~= seq![]);
    } else {
        let byte = bytes[0];
        let rest = bytes.skip(1);
        unescape_inverts_escape(rest);
        let whole = escaped(bytes);
        assert(seq![byte] + rest =~= bytes);
        if is_plain(byte) {
            assert(whole[0] == byte);
            assert(whole.skip(1) =~= escaped(rest));
        } else {
            assert(whole[0] == 0x25);
            assert(whole[1] == hex_digit(byte as int / 16));
            assert(whole[2] == hex_digit(byte as int % 16));
            assert(whole.skip(3) =~= escaped(rest));
            assert(escape_value(whole[1], whole[2]) == Some(byte));
        }
    }
}

/// Escaped text holds plain bytes and percent signs alone.
pub proof fn escaped_text_is_plain(bytes: Seq<u8>)
    ensures
        forall|k: int|
            0 <= k < escaped(bytes).len() ==> is_plain(#[trigger] escaped(bytes)[k]) || escaped(
                bytes,
            )[k] == 0x25,
    decreases bytes.len(),
{
    if bytes.len() > 0 {
        let rest = bytes.skip(1);
        escaped_text_is_plain(rest);
        let head = escaped_byte(bytes[0]);
        assert forall|k: int| 0 <= k < escaped(bytes).len() implies is_plain(
            #[trigger] escaped(bytes)[k],
        ) || escaped(bytes)[k] == 0x25 by {
            if k >= head.len() {
                assert(escaped(bytes)[k] == escaped(rest)[k - head.len()]);
            } else {
                assert(escaped(bytes)[k] == head[k]);
            }
        }
    }
}

/// The hexadecimal digit, in capitals.
fn hex_byte(value: u8) -> (digit: u8)
    requires
        value < 16,
    ensures
        digit == hex_digit(value as int),
{
    if value < 10 {
        48 + value
    } else {
        55 + value
    }
}

/// Tells whether an escaped text holds `byte` as itself.
fn plain(byte: u8) -> (yes: bool)
    ensures
        yes == is_plain(byte),
{
    alphanumeric(byte) || byte == 0x2e || byte == 0x5f || byte == 0x3a || byte == 0x2d || byte
        == 0x2f || byte == 0x20
}

/// Escapes each byte.
pub(crate) fn escape(bytes: &[u8]) -> (result: Vec<u8>)
    ensures
        result@ == escaped(bytes@),
{
    let mut result: Vec<u8> = Vec::new();
    let mut i: usize = 0;
    assert(bytes@.skip(0) =~= bytes@);
    assert(escaped(bytes@) =~= result@ + escaped(bytes@.skip(0)));
    while i < bytes.len()
        invariant
            i <= bytes@.len(),
            escaped(bytes@) == result@ + escaped(bytes@.skip(i as int)),
        decreases bytes.len() - i,
    {
        let byte = bytes[i];
        let ghost before = result@;
        let ghost rest = bytes@.skip(i as int);
        assert(rest.skip(1) =~= bytes@.skip(i + 1));
        if plain(byte) {
            result.push(byte);
        } else {
            result.push(0x25);
            result.push(hex_byte(byte / 16));
            result.push(hex_byte(byte % 16));
        }
        assert(result@ =~= before + escaped_byte(byte));
        assert(escaped(bytes@) =~= result@ + escaped(bytes@.skip(i + 1)));
        i = i + 1;
    }
    assert(bytes@.skip(i as int) =~= seq![]);
    assert(result@ =~= escaped(bytes@));
    result
}

/// The value of a hexadecimal digit, in either case.
fn hex_digit_value(byte: u8) -> (value: Option<u8>)
    ensures
        match hex_value(byte) {
            Some(v) => value == Some(v as u8) && v < 16,
            None => value is None,
        },
{
    if 48 <= byte && byte <= 57 {
        Some(byte - 48)
    } else if 65 <= byte && byte <= 70 {
        Some(byte - 55)
    } else if 97 <= byte && byte <= 102 {
        Some(byte - 87)
    } else {
        None
    }
}

/// Undoes escaping, or says what is wrong with the escaped text.
pub(crate) fn unescape_bytes(bytes: &[u8]) -> (result: Result<Vec<u8>, String>)
    ensures
        match unescaped(bytes@) {
            Ok(plain) => result matches Ok(found) && found@ == plain,
            Err(message) => result matches Err(found) && found@ == message,
        },
{
    let mut result: Vec<u8> = Vec::new();
    let mut i: usize = 0;
    proof {
        assert(bytes@.skip(0) =~= bytes@);
        match unescaped(bytes@) {
            Ok(rest) => {
                assert(seq![] + rest =~= rest);
            },
            Err(_) => {},
        }
    }
    while i < bytes.len()
        invariant
            i <= bytes@.len(),
            unescaped(bytes@) == with_prefix(result@, unescaped(bytes@.skip(i as int))),
        decreases bytes.len() - i,
    {
        let ghost before = result@;
        let ghost rest = bytes@.skip(i as int);
        if bytes[i] != 0x25 {
            result.push(bytes[i]);
            proof {
                assert(rest.skip(1) =~= bytes@.skip(i + 1));
                match unescaped(bytes@.skip(i + 1)) {
                    Ok(tail) => {
                        assert(before + (seq![rest[0]] + tail) =~= result@ + tail);
                    },
                    Err(_) => {},
                }
            }
            i = i + 1;
        } else if bytes.len() - i < 3 {
            return Err("incomplete escape".to_owned());
        } else {
            let first = bytes[i + 1];
            let second = bytes[i + 2];
            assert(rest[1] == first && rest[2] == second);
            let value: u8 = match (hex_digit_value(first), hex_digit_value(second)) {
                (Some(high), Some(low)) => high * 16 + low,
                (None, Some(low)) => {
                    if first != 0x2b {
                        return Err("invalid escape".to_owned());
                    }
                    low
                },
                _ => {
                    return Err("invalid escape".to_owned());
                },
            };
            result.push(value);
            proof {
                assert(escape_value(first, second) == Some(value));
                assert(rest.skip(3) =~= bytes@.skip(i + 3));
                match unescaped(bytes@.skip(i + 3)) {
                    Ok(tail) => {
                        assert(before + (seq![value] + tail) =~= result@ + tail);
                    },
                    Err(_) => {},
                }
            }
            i = i + 3;
        }
    }
    assert(bytes@.skip(i as int) =~= seq![]);
    assert(result@ + seq![] =~= result@);
    Ok(result)
}

} // verus!
