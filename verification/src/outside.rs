//! The outside functions that the library computes with, and what it takes for
//! granted about each of them.
use vstd::prelude::*;
use vstd::string::*;
use vstd::utf8::*;

use crate::double::finite_double;
use sha2::Digest;

verus! {

/// The CRC-32 (IEEE) checksum of a byte string.
pub uninterp spec fn crc32(bytes: Seq<u8>) -> u32;

/// `crc32fast::hash`: the checksum depends on the bytes alone. Nothing is
/// claimed about which changes to the bytes it detects.
#[verifier::external_body]
pub(crate) fn checksum(bytes: &[u8]) -> (sum: u32)
    ensures
        sum == crc32(bytes@),
{
    crc32fast::hash(bytes)
}

/// The SHA-256 digest of a byte string.
pub uninterp spec fn sha256(bytes: Seq<u8>) -> Seq<u8>;

/// `sha2::Sha256::digest`: 32 bytes that depend on the input alone. Nothing is
/// claimed about collisions.
#[verifier::external_body]
pub(crate) fn sha256_bytes(bytes: &[u8]) -> (hash: Vec<u8>)
    ensures
        hash@ == sha256(bytes@),
        hash@.len() == 32,
{
    sha2::Sha256::digest(bytes).to_vec()
}

/// The double nearest to an integer, as its IEEE-754 bits.
pub uninterp spec fn integer_double(n: int) -> Option<u64>;

/// `serde_json::Number::as_f64` of the integer `n`: every integer that a JSON
/// number holds, from the least `i64` to the greatest `u64`, has a finite
/// double, which depends on the integer alone.
#[verifier::external_body]
pub(crate) fn integer_as_double(n: i128) -> (bits: Option<u64>)
    requires
        i64::MIN <= n <= u64::MAX,
    ensures
        bits == integer_double(n as int),
        bits is Some,
        finite_double(bits->0),
{
    serde_json::Number::from_i128(n)?.as_f64().map(|value| value.to_bits())
}

/// Unicode alphanumeric characters.
pub uninterp spec fn alphanumeric(c: char) -> bool;

/// `char::is_alphanumeric` depends on the character alone.
pub assume_specification[ char::is_alphanumeric ](c: char) -> (found: bool)
    ensures
        found == alphanumeric(c),
;

/// The lower-case form of a text.
pub uninterp spec fn lowercase(text: Seq<char>) -> Seq<char>;

/// `str::to_lowercase` depends on the text alone.
pub assume_specification[ str::to_lowercase ](text: &str) -> (lower: String)
    ensures
        lower@ == lowercase(text@),
;

/// `String::from_utf8` accepts exactly the well-formed encodings and yields
/// the text that is encoded.
#[verifier::external_body]
pub(crate) fn decode_text(bytes: Vec<u8>) -> (text: Option<String>)
    ensures
        match text {
            Some(t) => valid_utf8(bytes@) && encode_utf8(t@) == bytes@,
            None => !valid_utf8(bytes@),
        },
{
    String::from_utf8(bytes).ok()
}

/// `slatedb::WriteBatch`: operations that SlateDB commits together.
#[verifier::external_type_specification]
#[verifier::external_body]
pub struct ExWriteBatch(slatedb::WriteBatch);

/// Per key the value to store, or nothing to remove the key.
pub type BatchOps = Map<Seq<u8>, Option<Seq<u8>>>;

/// The operations that a batch holds.
pub uninterp spec fn batch_ops(batch: slatedb::WriteBatch) -> BatchOps;

/// `WriteBatch::new` holds no operation.
#[verifier::external_body]
pub(crate) fn batch_new() -> (batch: slatedb::WriteBatch)
    ensures
        batch_ops(batch) == BatchOps::empty(),
{
    slatedb::WriteBatch::new()
}

/// `WriteBatch::put` replaces any earlier operation on the key. It panics on an
/// empty key, on a key over 65535 bytes and on a value over 4294967295 bytes.
#[verifier::external_body]
pub(crate) fn batch_put(batch: &mut slatedb::WriteBatch, key: &[u8], value: &[u8])
    requires
        0 < key@.len() <= u16::MAX,
        value@.len() <= u32::MAX,
    ensures
        batch_ops(*final(batch)) == batch_ops(*old(batch)).insert(key@, Some(value@)),
{
    batch.put(key, value)
}

/// `WriteBatch::delete` replaces any earlier operation on the key. It panics on
/// an empty key and on a key over 65535 bytes.
#[verifier::external_body]
pub(crate) fn batch_delete(batch: &mut slatedb::WriteBatch, key: &[u8])
    requires
        0 < key@.len() <= u16::MAX,
    ensures
        batch_ops(*final(batch)) == batch_ops(*old(batch)).insert(key@, None),
{
    batch.delete(key)
}

/// The parts of a URL that the library looks at.
pub struct UrlParts {
    pub scheme: String,
    pub path: String,
    pub query: Option<String>,
    pub fragment: Option<String>,
    pub username: String,
    pub password: Option<String>,
}

pub struct UrlView {
    pub scheme: Seq<char>,
    pub path: Seq<char>,
    pub query: Option<Seq<char>>,
    pub fragment: Option<Seq<char>>,
    pub username: Seq<char>,
    pub password: Option<Seq<char>>,
}

pub open spec fn optional_text(text: Option<String>) -> Option<Seq<char>> {
    match text {
        Some(t) => Some(t@),
        None => None,
    }
}

impl View for UrlParts {
    type V = UrlView;

    open spec fn view(&self) -> UrlView {
        UrlView {
            scheme: self.scheme@,
            path: self.path@,
            query: optional_text(self.query),
            fragment: optional_text(self.fragment),
            username: self.username@,
            password: optional_text(self.password),
        }
    }
}

/// The parts of the URL that a text spells, or why it spells none.
pub uninterp spec fn parsed_url(text: Seq<char>) -> std::result::Result<UrlView, Seq<char>>;

/// `reqwest::Url::parse` and the accessors of the parsed URL depend on the text
/// alone, and so does the message of the error.
#[verifier::external_body]
pub(crate) fn parse_url(text: &str) -> (parts: std::result::Result<UrlParts, String>)
    ensures
        match parts {
            Ok(url) => parsed_url(text@) == Ok::<UrlView, Seq<char>>(url@),
            Err(message) => parsed_url(text@) == Err::<UrlView, Seq<char>>(message@),
        },
{
    let url = reqwest::Url::parse(text).map_err(|error| error.to_string())?;
    Ok(UrlParts {
        scheme: url.scheme().to_string(),
        path: url.path().to_string(),
        query: url.query().map(|part| part.to_string()),
        fragment: url.fragment().map(|part| part.to_string()),
        username: url.username().to_string(),
        password: url.password().map(|part| part.to_string()),
    })
}

/// `uuid::Uuid::new_v4`: the 16 bytes of a random identifier. Nothing is
/// claimed about their values.
#[verifier::external_body]
pub(crate) fn fresh_uuid() -> (bytes: Vec<u8>)
    ensures
        bytes@.len() == 16,
{
    uuid::Uuid::new_v4().as_bytes().to_vec()
}

/// A `sha2::Sha256` in progress: it holds the bytes that it has taken in, and
/// nothing else can be asked of it but their digest.
#[verifier::external_body]
pub struct Hasher {
    inner: sha2::Sha256,
}

/// The bytes that a digest in progress has taken in.
pub uninterp spec fn absorbed(hasher: Hasher) -> Seq<u8>;

/// `sha2::Sha256::new` has taken in nothing.
#[verifier::external_body]
pub(crate) fn hasher_new() -> (hasher: Hasher)
    ensures
        absorbed(hasher) == Seq::<u8>::empty(),
{
    Hasher { inner: sha2::Sha256::new() }
}

/// `Digest::update` takes in further bytes.
#[verifier::external_body]
pub(crate) fn hasher_update(hasher: &mut Hasher, bytes: &[u8])
    ensures
        absorbed(*final(hasher)) == absorbed(*old(hasher)) + bytes@,
{
    hasher.inner.update(bytes)
}

/// `Digest::finalize` yields the digest of all bytes that were taken in, 32
/// bytes as `Sha256::digest` yields for them at once.
#[verifier::external_body]
pub(crate) fn hasher_finish(hasher: Hasher) -> (hash: Vec<u8>)
    ensures
        hash@ == sha256(absorbed(hasher)),
        hash@.len() == 32,
{
    hasher.inner.finalize().to_vec()
}

} // verus!
