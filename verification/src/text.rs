//! Text, numbers in text, and byte classes.
//!
//! Text is modelled by its characters (`text@`), and on the wire by its UTF-8 bytes
//! (`encode_utf8(text@)`).
use vstd::prelude::*;
use vstd::string::StringExecFns;
use vstd::utf8::*;

verus! {

/// The bytes of ASCII characters, one each.
pub open spec fn ascii(chars: Seq<char>) -> Seq<u8> {
    Seq::new(chars.len(), |i: int| chars[i] as u8)
}

/// ASCII characters encode to one byte each.
pub proof fn lemma_ascii(chars: Seq<char>)
    requires
        is_ascii_chars(chars),
    ensures
        encode_utf8(chars) == ascii(chars),
{
    is_ascii_chars_encode_utf8(chars);
    assert(encode_utf8(chars) =~= ascii(chars));
}

/// Bytes below 128 are the UTF-8 encoding of the characters with the same codes.
pub proof fn lemma_ascii_bytes(bytes: Seq<u8>)
    requires
        forall|i: int| 0 <= i < bytes.len() ==> #[trigger] bytes[i] < 128,
    ensures
        valid_utf8(bytes),
        is_ascii_chars(decode_utf8(bytes)),
        ascii(decode_utf8(bytes)) == bytes,
{
    let chars = Seq::new(bytes.len(), |i: int| bytes[i] as char);
    assert(is_ascii_chars(chars)) by {
        assert forall|i: int| 0 <= i < chars.len() implies '\0' <= #[trigger] chars[i]
            <= '\u{7f}' by {
            assert(bytes[i] < 128);
        }
    }
    lemma_ascii(chars);
    assert(ascii(chars) =~= bytes) by {
        assert forall|i: int| 0 <= i < bytes.len() implies ascii(chars)[i] == bytes[i] by {
            assert(bytes[i] < 128);
        }
    }
    encode_utf8_valid_utf8(chars);
    encode_utf8_decode_utf8(chars);
}

/// The encoding of a concatenation is the concatenation of the encodings.
pub proof fn lemma_encode_concat(left: Seq<char>, right: Seq<char>)
    ensures
        encode_utf8(left + right) == encode_utf8(left) + encode_utf8(right),
    decreases left.len(),
{
    if left.len() == 0 {
        assert(left + right =~= right);
        assert(encode_utf8(left) + encode_utf8(right) =~= encode_utf8(right));
    } else {
        lemma_encode_concat(left.drop_first(), right);
        assert((left + right).drop_first() =~= left.drop_first() + right);
        assert(encode_utf8(left + right) =~= encode_utf8(left) + encode_utf8(right));
    }
}

/// Text with the same encoding is the same text.
pub proof fn lemma_encode_injective(left: Seq<char>, right: Seq<char>)
    requires
        encode_utf8(left) == encode_utf8(right),
    ensures
        left == right,
{
    encode_utf8_decode_utf8(left);
    encode_utf8_decode_utf8(right);
}

/// Calls [`String::from_utf8`]: the text whose UTF-8 encoding is `bytes`, or nothing where `bytes`
/// is not valid UTF-8.
#[verifier::external_body]
pub(crate) fn text_from_utf8(bytes: Vec<u8>) -> (text: Option<String>)
    ensures
        match text {
            Some(text) => valid_utf8(bytes@) && encode_utf8(text@) == bytes@,
            None => !valid_utf8(bytes@),
        },
{
    String::from_utf8(bytes).ok()
}

/// Turns bytes that are known to be valid UTF-8 into text.
pub(crate) fn text_of(bytes: Vec<u8>) -> (text: String)
    requires
        valid_utf8(bytes@),
    ensures
        encode_utf8(text@) == bytes@,
        text@ == decode_utf8(bytes@),
{
    match text_from_utf8(bytes) {
        Some(text) => {
            proof {
                encode_utf8_decode_utf8(text@);
            }
            text
        },
        None => String::new(),
    }
}

/// Compares two byte strings.
pub(crate) fn same_bytes(left: &[u8], right: &[u8]) -> (same: bool)
    ensures
        same == (left@ == right@),
{
    if left.len() != right.len() {
        return false;
    }
    let mut i: usize = 0;
    while i < left.len()
        invariant
            i <= left@.len(),
            left@.len() == right@.len(),
            forall|k: int| 0 <= k < i ==> left@[k] == right@[k],
        decreases left.len() - i,
    {
        if left[i] != right[i] {
            return false;
        }
        i = i + 1;
    }
    assert(left@ =~= right@);
    true
}

/// Compares two texts.
pub(crate) fn same_text(left: &str, right: &str) -> (same: bool)
    ensures
        same == (left@ == right@),
{
    let same = same_bytes(left.as_bytes(), right.as_bytes());
    proof {
        if same {
            lemma_encode_injective(left@, right@);
        }
    }
    same
}

/// `left` comes before `right` in dictionary order: it is a proper prefix of `right`, or smaller at
/// the first place where the two differ.
pub open spec fn bytes_before(left: Seq<u8>, right: Seq<u8>) -> bool
    decreases left.len(),
{
    if right.len() == 0 {
        false
    } else if left.len() == 0 {
        true
    } else if left[0] != right[0] {
        left[0] < right[0]
    } else {
        bytes_before(left.drop_first(), right.drop_first())
    }
}

/// The dictionary order is a strict total order.
pub proof fn lemma_bytes_before_total(left: Seq<u8>, right: Seq<u8>)
    ensures
        !bytes_before(left, left),
        bytes_before(left, right) ==> !bytes_before(right, left),
        left != right ==> bytes_before(left, right) || bytes_before(right, left),
    decreases left.len(),
{
    if left.len() > 0 {
        lemma_bytes_before_total(left.drop_first(), left.drop_first());
        if right.len() > 0 {
            lemma_bytes_before_total(left.drop_first(), right.drop_first());
            if left[0] == right[0] && left.drop_first() == right.drop_first() {
                assert(left =~= seq![left[0]] + left.drop_first());
                assert(right =~= seq![right[0]] + right.drop_first());
            }
        }
    } else if right.len() == 0 {
        assert(left =~= right);
    }
}

/// The dictionary order is transitive.
pub proof fn lemma_bytes_before_transitive(a: Seq<u8>, b: Seq<u8>, c: Seq<u8>)
    requires
        bytes_before(a, b),
        bytes_before(b, c),
    ensures
        bytes_before(a, c),
    decreases a.len(),
{
    if a.len() > 0 && a[0] == b[0] && b[0] == c[0] {
        lemma_bytes_before_transitive(a.drop_first(), b.drop_first(), c.drop_first());
    }
}

/// Two texts in dictionary order of their bytes.
pub open spec fn text_before(left: Seq<char>, right: Seq<char>) -> bool {
    bytes_before(encode_utf8(left), encode_utf8(right))
}

/// Tells whether `left` comes before `right` in dictionary order of their bytes.
pub(crate) fn is_text_before(left: &str, right: &str) -> (before: bool)
    ensures
        before == text_before(left@, right@),
{
    let a = left.as_bytes();
    let b = right.as_bytes();
    let mut i: usize = 0;
    assert(a@.skip(0) =~= a@);
    assert(b@.skip(0) =~= b@);
    while i < a.len() && i < b.len()
        invariant
            a@ == encode_utf8(left@),
            b@ == encode_utf8(right@),
            i <= a@.len(),
            i <= b@.len(),
            bytes_before(a@, b@) == bytes_before(a@.skip(i as int), b@.skip(i as int)),
        decreases a.len() - i,
    {
        if a[i] != b[i] {
            return a[i] < b[i];
        }
        assert(a@.skip(i as int).drop_first() =~= a@.skip(i + 1));
        assert(b@.skip(i as int).drop_first() =~= b@.skip(i + 1));
        i = i + 1;
    }
    i < b.len()
}

/// A letter or digit of ASCII.
pub open spec fn is_alphanumeric(byte: u8) -> bool {
    0x30 <= byte <= 0x39 || 0x41 <= byte <= 0x5a || 0x61 <= byte <= 0x7a
}

/// Tells whether `byte` is a letter or digit of ASCII.
pub(crate) fn alphanumeric(byte: u8) -> (yes: bool)
    ensures
        yes == is_alphanumeric(byte),
{
    (0x30 <= byte && byte <= 0x39) || (0x41 <= byte && byte <= 0x5a) || (0x61 <= byte && byte
        <= 0x7a)
}

/// The decimal digits of `n`, without leading zeros.
pub open spec fn digits(n: nat) -> Seq<char>
    decreases n,
{
    if n < 10 {
        seq![(48 + n) as char]
    } else {
        digits(n / 10).push((48 + n % 10) as char)
    }
}

/// The decimal digits of `n`, with a minus sign in front where it is negative.
pub open spec fn signed_digits(n: int) -> Seq<char> {
    if n < 0 {
        seq!['-'] + digits((-n) as nat)
    } else {
        digits(n as nat)
    }
}

/// Every byte is a decimal digit.
pub open spec fn all_digits(bytes: Seq<u8>) -> bool {
    forall|i: int| 0 <= i < bytes.len() ==> 48 <= #[trigger] bytes[i] <= 57
}

/// The number that decimal digits stand for.
pub open spec fn digits_value(bytes: Seq<u8>) -> nat
    decreases bytes.len(),
{
    if bytes.len() == 0 {
        0
    } else {
        (digits_value(bytes.drop_last()) * 10 + (bytes.last() - 48)) as nat
    }
}

/// The digits of a number are digits, and stand for it.
pub proof fn lemma_digits(n: nat)
    ensures
        digits(n).len() > 0,
        is_ascii_chars(digits(n)),
        all_digits(ascii(digits(n))),
        digits_value(ascii(digits(n))) == n,
    decreases n,
{
    let bytes = ascii(digits(n));
    if n < 10 {
        assert(bytes =~= seq![(48 + n) as u8]);
        assert(bytes.drop_last() =~= seq![]);
        assert(digits_value(bytes.drop_last()) == 0);
    } else {
        lemma_digits(n / 10);
        assert(bytes =~= ascii(digits(n / 10)).push((48 + n % 10) as u8));
        assert(bytes.drop_last() =~= ascii(digits(n / 10)));
    }
}

/// A longer run of digits does not stand for a smaller number than its beginning does.
proof fn lemma_digits_value_grows(bytes: Seq<u8>, n: int)
    requires
        all_digits(bytes),
        0 <= n <= bytes.len(),
    ensures
        digits_value(bytes.take(n)) <= digits_value(bytes),
    decreases bytes.len() - n,
{
    if n < bytes.len() {
        lemma_digits_value_grows(bytes, n + 1);
        assert(bytes.take(n + 1).drop_last() =~= bytes.take(n));
        assert(bytes.take(n + 1).last() == bytes[n]);
    } else {
        assert(bytes.take(n) =~= bytes);
    }
}

/// Appends the decimal digits of `n`.
pub(crate) fn push_digits(out: &mut Vec<u8>, n: u64)
    ensures
        final(out)@ == old(out)@ + ascii(digits(n as nat)),
    decreases n,
{
    if n < 10 {
        out.push(48 + n as u8);
        assert(out@ =~= old(out)@ + ascii(digits(n as nat)));
    } else {
        push_digits(out, n / 10);
        out.push(48 + (n % 10) as u8);
        assert(out@ =~= old(out)@ + ascii(digits(n as nat)));
    }
}

/// Appends the digits of `n`, with a minus sign in front where it is negative.
pub(crate) fn push_signed(out: &mut Vec<u8>, n: i32)
    ensures
        final(out)@ == old(out)@ + ascii(signed_digits(n as int)),
{
    if n < 0 {
        out.push(0x2d);
        let magnitude: u64 = (-(n as i64)) as u64;
        push_digits(out, magnitude);
        assert(out@ =~= old(out)@ + ascii(signed_digits(n as int)));
    } else {
        push_digits(out, n as u64);
    }
}

/// The digits of a signed number are ASCII.
pub proof fn lemma_signed_digits(n: int)
    ensures
        is_ascii_chars(signed_digits(n)),
        signed_digits(n).len() > 0,
{
    if n < 0 {
        lemma_digits((-n) as nat);
    } else {
        lemma_digits(n as nat);
    }
}

/// The decimal digits of `n` as text.
pub fn digits_text(n: u64) -> (text: String)
    ensures
        text@ == digits(n as nat),
{
    let mut bytes: Vec<u8> = Vec::new();
    push_digits(&mut bytes, n);
    proof {
        lemma_digits(n as nat);
        lemma_ascii(digits(n as nat));
        assert(bytes@ =~= encode_utf8(digits(n as nat)));
        encode_utf8_valid_utf8(digits(n as nat));
        encode_utf8_decode_utf8(digits(n as nat));
    }
    text_of(bytes)
}

/// The digits of `n` as text, with a minus sign in front where it is negative.
pub fn signed_text(n: i32) -> (text: String)
    ensures
        text@ == signed_digits(n as int),
{
    let mut bytes: Vec<u8> = Vec::new();
    push_signed(&mut bytes, n);
    proof {
        lemma_signed_digits(n as int);
        lemma_ascii(signed_digits(n as int));
        assert(bytes@ =~= encode_utf8(signed_digits(n as int)));
        encode_utf8_valid_utf8(signed_digits(n as int));
        encode_utf8_decode_utf8(signed_digits(n as int));
    }
    text_of(bytes)
}

/// The natural number that a run of one or more digits stands for.
pub open spec fn read_digits(bytes: Seq<u8>) -> Option<nat> {
    if bytes.len() > 0 && all_digits(bytes) {
        Some(digits_value(bytes))
    } else {
        None
    }
}

/// The number in `bytes`: digits, with a plus sign allowed in front, up to `max`.
pub open spec fn read_unsigned(bytes: Seq<u8>, max: nat) -> Option<nat> {
    let number = if bytes.len() > 0 && bytes[0] == 0x2b {
        bytes.skip(1)
    } else {
        bytes
    };
    match read_digits(number) {
        Some(value) if value <= max => Some(value),
        _ => None,
    }
}

/// The number in `bytes`: digits, with a plus or minus sign allowed in front, in the range of
/// 32 bits.
pub open spec fn read_signed(bytes: Seq<u8>) -> Option<int> {
    if bytes.len() > 0 && bytes[0] == 0x2d {
        match read_digits(bytes.skip(1)) {
            Some(value) if -value >= i32::MIN => Some(-value),
            _ => None,
        }
    } else {
        match read_unsigned(bytes, i32::MAX as nat) {
            Some(value) => Some(value as int),
            None => None,
        }
    }
}

/// Reads the digits from `start` to the end, up to `max`.
fn parse_digits(bytes: &[u8], start: usize, max: u64) -> (value: Option<u64>)
    requires
        start <= bytes@.len(),
        max <= 0xffff_ffff,
    ensures
        match read_digits(bytes@.skip(start as int)) {
            Some(n) => value == (if n <= max {
                Some(n as u64)
            } else {
                None
            }),
            None => value is None,
        },
{
    let ghost number = bytes@.skip(start as int);
    if start == bytes.len() {
        return None;
    }
    let mut value: u64 = 0;
    let mut i: usize = start;
    assert(number.take(0) =~= seq![]);
    while i < bytes.len()
        invariant
            start <= i <= bytes@.len(),
            max <= 0xffff_ffff,
            number == bytes@.skip(start as int),
            value <= max,
            all_digits(number.take(i - start)),
            value == digits_value(number.take(i - start)),
        decreases bytes.len() - i,
    {
        let byte = bytes[i];
        assert(number[i - start] == byte);
        if byte < 48 || byte > 57 {
            return None;
        }
        assert(number.take(i + 1 - start).drop_last() =~= number.take(i - start));
        assert(number.take(i + 1 - start) =~= number.take(i - start).push(byte));
        value = value * 10 + (byte - 48) as u64;
        assert(value == digits_value(number.take(i + 1 - start)));
        if value > max {
            proof {
                if all_digits(number) {
                    lemma_digits_value_grows(number, i + 1 - start);
                }
            }
            return None;
        }
        i = i + 1;
    }
    assert(number.take(i - start) =~= number);
    Some(value)
}

/// Reads an unsigned 32-bit number.
pub fn parse_u32(bytes: &[u8]) -> (value: Option<u32>)
    ensures
        match read_unsigned(bytes@, u32::MAX as nat) {
            Some(n) => value == Some(n as u32),
            None => value is None,
        },
{
    let start: usize = if bytes.len() > 0 && bytes[0] == 0x2b {
        1
    } else {
        0
    };
    assert(bytes@.skip(0) =~= bytes@);
    match parse_digits(bytes, start, 0xffff_ffff) {
        Some(value) => Some(value as u32),
        None => None,
    }
}

/// Reads a signed 32-bit number.
pub fn parse_i32(bytes: &[u8]) -> (value: Option<i32>)
    ensures
        match read_signed(bytes@) {
            Some(n) => value == Some(n as i32),
            None => value is None,
        },
{
    assert(bytes@.skip(0) =~= bytes@);
    if bytes.len() > 0 && bytes[0] == 0x2d {
        match parse_digits(bytes, 1, 0x8000_0000) {
            Some(value) => Some((-(value as i64)) as i32),
            None => None,
        }
    } else {
        let start: usize = if bytes.len() > 0 && bytes[0] == 0x2b {
            1
        } else {
            0
        };
        match parse_digits(bytes, start, 0x7fff_ffff) {
            Some(value) => Some(value as i32),
            None => None,
        }
    }
}

/// Reading the digits of an unsigned number gives the number back.
pub proof fn unsigned_digits_read_back(n: nat, max: nat)
    requires
        n <= max,
    ensures
        read_unsigned(ascii(digits(n)), max) == Some(n),
{
    lemma_digits(n);
    let bytes = ascii(digits(n));
    assert(48 <= bytes[0] <= 57);
}

/// Reading the digits of a signed 32-bit number gives the number back.
pub proof fn signed_digits_read_back(n: int)
    requires
        i32::MIN <= n <= i32::MAX,
    ensures
        read_signed(ascii(signed_digits(n))) == Some(n),
{
    let bytes = ascii(signed_digits(n));
    if n < 0 {
        lemma_digits((-n) as nat);
        assert(bytes[0] == 0x2d);
        assert(bytes.skip(1) =~= ascii(digits((-n) as nat)));
    } else {
        lemma_digits(n as nat);
        assert(48 <= bytes[0] <= 57);
        unsigned_digits_read_back(n as nat, i32::MAX as nat);
    }
}

/// Joins two pieces of text.
pub(crate) fn joined(first: &str, second: &str) -> (text: String)
    ensures
        text@ == first@ + second@,
{
    let mut text = first.to_owned();
    text.append(second);
    text
}

} // verus!
