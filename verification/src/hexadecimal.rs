//! Hexadecimal text: full commit ids and prefixes of them.
use crate::commit::CommitId;
use crate::text::characters;
use vstd::prelude::*;

verus! {

/// Whether `c` is a hexadecimal digit, of either case.
pub open spec fn is_hex(c: char) -> bool {
    ||| '0' <= c <= '9'
    ||| 'a' <= c <= 'f'
    ||| 'A' <= c <= 'F'
}

/// Whether `c` is a hexadecimal digit as hexadecimal text is written, in lower case.
pub open spec fn is_lower_hex(c: char) -> bool {
    ||| '0' <= c <= '9'
    ||| 'a' <= c <= 'f'
}

/// The value of a hexadecimal digit.
pub open spec fn hex_value(c: char) -> int
    recommends
        is_hex(c),
{
    if '0' <= c <= '9' {
        c as int - '0' as int
    } else if 'a' <= c <= 'f' {
        c as int - 'a' as int + 10
    } else {
        c as int - 'A' as int + 10
    }
}

/// The lower-case hexadecimal digit of value `n`.
pub open spec fn hex_digit(n: int) -> char
    recommends
        0 <= n < 16,
{
    if n < 10 {
        ('0' as int + n) as char
    } else {
        ('a' as int + n - 10) as char
    }
}

/// Whether `s` is the text of whole bytes.
pub open spec fn is_hex_bytes(s: Seq<char>) -> bool {
    &&& s.len() % 2 == 0
    &&& forall|i: int| 0 <= i < s.len() ==> is_hex(#[trigger] s[i])
}

/// The bytes that `s` is the text of, two digits for each.
pub open spec fn hex_bytes(s: Seq<char>) -> Seq<u8>
    recommends
        is_hex_bytes(s),
{
    Seq::new(
        s.len() / 2,
        |i: int| (16 * hex_value(s[2 * i]) + hex_value(s[2 * i + 1])) as u8,
    )
}

/// The `k`th hexadecimal digit of `bytes`.
pub open spec fn nth_digit(bytes: Seq<u8>, k: int) -> char {
    if k % 2 == 0 {
        hex_digit(bytes[k / 2] as int / 16)
    } else {
        hex_digit(bytes[k / 2] as int % 16)
    }
}

/// The text of `bytes`, in lower case.
pub open spec fn hex_text(bytes: Seq<u8>) -> Seq<char> {
    Seq::new(2 * bytes.len(), |k: int| nth_digit(bytes, k))
}

/// The text of bytes is read back as those bytes.
pub proof fn hex_text_is_read_back(bytes: Seq<u8>)
    ensures
        is_hex_bytes(hex_text(bytes)),
        hex_bytes(hex_text(bytes)) == bytes,
{
    let s = hex_text(bytes);
    assert forall|k: int| 0 <= k < s.len() implies is_hex(#[trigger] s[k]) by {
        let b = bytes[k / 2];
        assert(0 <= b as int / 16 < 16);
    }
    assert forall|i: int| 0 <= i < bytes.len() implies hex_bytes(s)[i] == bytes[i] by {
        let b = bytes[i];
        assert((2 * i) / 2 == i && (2 * i) % 2 == 0);
        assert((2 * i + 1) / 2 == i && (2 * i + 1) % 2 == 1);
        assert(s[2 * i] == hex_digit(b as int / 16));
        assert(s[2 * i + 1] == hex_digit(b as int % 16));
        assert(0 <= b as int / 16 < 16);
        assert(hex_value(s[2 * i]) == b as int / 16);
        assert(hex_value(s[2 * i + 1]) == b as int % 16);
    }
    assert(hex_bytes(s) =~= bytes);
}

/// The error of `hex::decode`.
#[verifier::external_type_specification]
#[verifier::external_body]
pub struct ExFromHexError(hex::FromHexError);

/// Calls `hex::decode`, which accepts an even number of hexadecimal digits of
/// either case and nothing else, and gives the byte that each pair of digits
/// writes, the more significant digit first. Which error comes for other texts
/// is left unsaid.
#[verifier::external_body]
pub(crate) fn decode_hex(s: &str) -> (r: Result<Vec<u8>, hex::FromHexError>)
    ensures
        r is Ok <==> is_hex_bytes(s@),
        r matches Ok(bytes) ==> bytes@ == hex_bytes(s@),
{
    hex::decode(s)
}

/// The first hexadecimal digits of a commit id.
#[derive(Debug)]
pub struct HexPrefix(String);

impl View for HexPrefix {
    type V = Seq<char>;

    closed spec fn view(&self) -> Seq<char> {
        self.0@
    }
}

/// Whether `s` can be the beginning of hexadecimal text.
pub open spec fn is_hex_prefix(s: Seq<char>) -> bool {
    forall|i: int| 0 <= i < s.len() ==> is_lower_hex(#[trigger] s[i])
}

/// Whether the text of `bytes` begins with `prefix`.
pub open spec fn begins_with(bytes: Seq<u8>, prefix: Seq<char>) -> bool {
    &&& prefix.len() <= 2 * bytes.len()
    &&& forall|k: int| 0 <= k < prefix.len() ==> #[trigger] prefix[k] == nth_digit(bytes, k)
}

fn lower_hex_digit(n: u8) -> (c: char)
    requires
        n < 16,
    ensures
        c == hex_digit(n as int),
{
    if n < 10 {
        (48u8 + n) as char
    } else {
        (87u8 + n) as char
    }
}

impl HexPrefix {
    /// The prefix that `prefix` writes, if all of it is lower-case hexadecimal digits.
    pub fn new(prefix: String) -> (r: Option<HexPrefix>)
        ensures
            r is Some <==> is_hex_prefix(prefix@),
            r matches Some(p) ==> p@ == prefix@,
    {
        let chars = characters(&prefix);
        for i in 0..chars.len()
            invariant
                chars@ == prefix@,
                forall|k: int| 0 <= k < i ==> is_lower_hex(#[trigger] prefix@[k]),
        {
            let c = chars[i];
            if !(('0' <= c && c <= '9') || ('a' <= c && c <= 'f')) {
                assert(!is_lower_hex(prefix@[i as int]));
                return None;
            }
        }
        Some(HexPrefix(prefix))
    }

    /// Whether the text of `id` begins with the prefix.
    pub fn matches(&self, id: &CommitId) -> (r: bool)
        ensures
            r == begins_with(id@, self@),
    {
        let chars = characters(&self.0);
        let bytes = &id.0;
        for k in 0..chars.len()
            invariant
                chars@ == self@,
                bytes@ == id@,
                k <= 2 * bytes@.len(),
                forall|j: int| 0 <= j < k ==> #[trigger] self@[j] == nth_digit(id@, j),
        {
            if k / 2 >= bytes.len() {
                return false;
            }
            let b = bytes[k / 2];
            let digit = if k % 2 == 0 {
                lower_hex_digit(b / 16)
            } else {
                lower_hex_digit(b % 16)
            };
            if chars[k] != digit {
                assert(self@[k as int] != nth_digit(id@, k as int));
                return false;
            }
        }
        true
    }
}

} // verus!
