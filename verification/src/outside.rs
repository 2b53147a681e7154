//! The calls into the `md-5`, `hex` and `uuid` crates and into the parts of std that carry no
//! specification. Every contract in this file is taken on trust.

use md5::Digest;
use vstd::prelude::*;

verus! {

/// The hasher of the `md-5` crate.
#[verifier::external_type_specification]
#[verifier::external_body]
pub struct ExMd5(md5::Md5);

/// The bytes that a hasher has taken in so far.
pub uninterp spec fn md5_absorbed(hasher: md5::Md5) -> Seq<u8>;

/// The MD5 digest of `data`.
pub uninterp spec fn md5_of(data: Seq<u8>) -> Seq<u8>;

/// `md5::Md5::new`: a hasher that has taken in nothing.
#[verifier::external_body]
pub(crate) fn md5_new() -> (hasher: md5::Md5)
    ensures
        md5_absorbed(hasher) == Seq::<u8>::empty(),
{
    md5::Md5::new()
}

/// `md5::Md5::update`: the hasher takes in `data` behind what it had.
#[verifier::external_body]
pub(crate) fn md5_update(hasher: &mut md5::Md5, data: &[u8])
    ensures
        md5_absorbed(*final(hasher)) == md5_absorbed(*old(hasher)) + data@,
{
    hasher.update(data);
}

/// `md5::Md5::finalize`: the digest of all that was taken in, which is 16 bytes long.
#[verifier::external_body]
pub(crate) fn md5_finalize(hasher: md5::Md5) -> (digest: Vec<u8>)
    ensures
        digest@ == md5_of(md5_absorbed(hasher)),
        digest@.len() == 16,
{
    hasher.finalize().to_vec()
}

/// The lower-case hexadecimal digit of a number below sixteen.
pub open spec fn hex_digit(n: int) -> char {
    if n < 10 {
        ('0' as int + n) as char
    } else {
        ('a' as int + n - 10) as char
    }
}

/// The lower-case hexadecimal text of `data`, two digits for a byte.
pub open spec fn hex_text(data: Seq<u8>) -> Seq<char> {
    Seq::new(
        2 * data.len(),
        |i: int| hex_digit(if i % 2 == 0 { data[i / 2] as int / 16 } else { data[i / 2] as int % 16 }),
    )
}

/// The value of a hexadecimal digit of either case.
pub open spec fn hex_value(c: char) -> Option<int> {
    if '0' <= c && c <= '9' {
        Some(c as int - '0' as int)
    } else if 'a' <= c && c <= 'f' {
        Some(c as int - 'a' as int + 10)
    } else if 'A' <= c && c <= 'F' {
        Some(c as int - 'A' as int + 10)
    } else {
        None
    }
}

pub open spec fn is_hex(c: char) -> bool {
    hex_value(c) is Some
}

/// `s` is an even number of hexadecimal digits.
pub open spec fn is_hex_text(s: Seq<char>) -> bool {
    s.len() % 2 == 0 && forall|i: int| 0 <= i < s.len() ==> is_hex(#[trigger] s[i])
}

/// The bytes that hexadecimal text stands for.
pub open spec fn hex_bytes(s: Seq<char>) -> Seq<u8> {
    Seq::new(
        s.len() / 2,
        |i: int| (hex_value(s[2 * i])->0 * 16 + hex_value(s[2 * i + 1])->0) as u8,
    )
}

/// `hex::encode`: every byte becomes two lower-case digits, the high half first.
#[verifier::external_body]
pub(crate) fn hex_encode(data: &[u8]) -> (text: String)
    ensures
        text@ == hex_text(data@),
{
    hex::encode(data)
}

/// `hex::decode`: the bytes of an even number of digits of either case; any other text is refused.
#[verifier::external_body]
pub(crate) fn hex_decode(text: &str) -> (bytes: Option<Vec<u8>>)
    ensures
        match bytes {
            Some(b) => is_hex_text(text@) && b@ == hex_bytes(text@),
            None => !is_hex_text(text@),
        },
{
    hex::decode(text).ok()
}

/// Position `i` of a hyphenated UUID holds a hyphen.
pub open spec fn is_hyphen_position(i: int) -> bool {
    i == 8 || i == 13 || i == 18 || i == 23
}

/// 8-4-4-4-12 hexadecimal digits of either case with hyphens between the groups.
pub open spec fn is_hyphenated(s: Seq<char>) -> bool {
    s.len() == 36 && forall|i: int|
        0 <= i < 36 ==> if is_hyphen_position(i) {
            #[trigger] s[i] == '-'
        } else {
            is_hex(s[i])
        }
}

/// `s` is `urn:uuid:` in letters of either case.
pub open spec fn is_urn_prefix(s: Seq<char>) -> bool {
    &&& s.len() == 9
    &&& s[0] == 'u' || s[0] == 'U'
    &&& s[1] == 'r' || s[1] == 'R'
    &&& s[2] == 'n' || s[2] == 'N'
    &&& s[3] == ':'
    &&& s[4] == 'u' || s[4] == 'U'
    &&& s[5] == 'u' || s[5] == 'U'
    &&& s[6] == 'i' || s[6] == 'I'
    &&& s[7] == 'd' || s[7] == 'D'
    &&& s[8] == ':'
}

/// The spellings of a UUID: bare digits, hyphenated, in braces, or as a URN.
pub open spec fn is_uuid_text(s: Seq<char>) -> bool {
    ||| s.len() == 32 && forall|i: int| 0 <= i < 32 ==> is_hex(#[trigger] s[i])
    ||| is_hyphenated(s)
    ||| s.len() == 38 && s[0] == '{' && s[37] == '}' && is_hyphenated(s.subrange(1, 37))
    ||| s.len() == 45 && is_urn_prefix(s.take(9)) && is_hyphenated(s.skip(9))
}

/// The spelling that this store writes: hyphenated, in lower case.
pub open spec fn is_canonical_uuid(s: Seq<char>) -> bool {
    is_hyphenated(s) && forall|i: int| 0 <= i < 36 ==> !('A' <= #[trigger] s[i] && s[i] <= 'F')
}

/// `uuid::Uuid::parse_str`: accepts the four spellings and nothing else.
#[verifier::external_body]
pub(crate) fn uuid_parses(text: &str) -> (accepted: bool)
    ensures
        accepted == is_uuid_text(text@),
{
    uuid::Uuid::parse_str(text).is_ok()
}

/// `uuid::Uuid::new_v4`, written with its `Display`: hyphenated lower-case text whose version
/// digit is 4 and whose variant digit is 8, 9, a or b. The other digits are random, so nothing
/// more is said of them.
#[verifier::external_body]
pub(crate) fn uuid_v4() -> (text: String)
    ensures
        is_canonical_uuid(text@),
        text@[14] == '4',
        text@[19] == '8' || text@[19] == '9' || text@[19] == 'a' || text@[19] == 'b',
{
    uuid::Uuid::new_v4().to_string()
}

/// `Vec::as_ptr`: where the elements of `data` begin in memory. The address rests with the
/// allocator, so nothing is said of it.
#[verifier::external_body]
pub(crate) fn start_address(data: &Vec<u8>) -> (address: usize) {
    data.as_ptr() as usize
}

} // verus!
