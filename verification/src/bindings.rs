//! Trusted bindings: the system clock, chrono's RFC 3339 formatter, sha2's
//! SHA-256 digest, and a few `std` string primitives that vstd does not
//! specify. Every contract here is believed, not proved; each doc comment
//! names the outside function relied on.

use vstd::prelude::*;

verus! {

/// Seconds since the Unix epoch, as reported by the system clock.
/// Nothing can be promised of the value: it depends on the machine's clock.
///
/// Relies on std::time::SystemTime::now and duration_since: seconds since
/// the Unix epoch, or zero should the clock sit before the epoch.
#[verifier::external_body]
pub fn current_timestamp_secs() -> u64 {
    std::time::SystemTime::now()
        .duration_since(std::time::UNIX_EPOCH)
        .unwrap_or_default()
        .as_secs()
}

/// The RFC 3339 rendering of a Unix timestamp in UTC. The result depends on
/// the argument alone, so it carries a name rather than a written-out format.
pub uninterp spec fn rfc3339_of(secs: u64) -> Seq<char>;

/// Relies on chrono's DateTime::from_timestamp and DateTime::to_rfc3339:
/// a fixed UTC rendering, a function of the timestamp alone. Timestamps
/// beyond chrono's representable range render as the empty string.
#[verifier::external_body]
pub fn rfc3339_utc(secs: u64) -> (r: String)
    ensures
        r@ == rfc3339_of(secs),
{
    match chrono::DateTime::<chrono::Utc>::from_timestamp(secs as i64, 0) {
        Some(d) => d.to_rfc3339(),
        None => String::new(),
    }
}

/// The lower-case hexadecimal rendering of the SHA-256 digest of a byte
/// sequence. A digest takes pages to state, so its result carries a name.
pub uninterp spec fn sha256_hex_of(bytes: Seq<u8>) -> Seq<char>;

/// Relies on sha2::Sha256::digest: a 32-byte digest of the input alone,
/// rendered here as 64 lower-case hexadecimal characters.
#[verifier::external_body]
pub fn sha256_hex(bytes: &[u8]) -> (r: String)
    ensures
        r@ == sha256_hex_of(bytes@),
        r@.len() == 64,
{
    format!("{:x}", <sha2::Sha256 as sha2::Digest>::digest(bytes))
}

/// Relies on std::str::from_utf8: `Some` exactly on valid UTF-8, and the
/// returned slice holds the decoded characters of those bytes.
#[verifier::external_body]
pub fn utf8_to_str(v: &[u8]) -> (r: Option<&str>)
    ensures
        match r {
            Some(s) => vstd::utf8::valid_utf8(v@) && s@ == vstd::utf8::decode_utf8(v@),
            None => !vstd::utf8::valid_utf8(v@),
        },
{
    std::str::from_utf8(v).ok()
}

/// Relies on str::chars: yields the characters of the string in order.
#[verifier::external_body]
pub fn str_to_chars(s: &str) -> (r: Vec<char>)
    ensures
        r@ == s@,
{
    s.chars().collect()
}

/// Relies on String::push: appends one character.
#[verifier::external_body]
pub fn push_char(s: &mut String, c: char)
    ensures
        final(s)@ == old(s)@.push(c),
{
    s.push(c);
}

/// Relies on char::from_u32: `Some` exactly on Unicode scalar values, and
/// the returned character has the given scalar value.
#[verifier::external_body]
pub fn char_from_u32(u: u32) -> (r: char)
    requires
        vstd::utf8::is_scalar(u),
    ensures
        r as u32 == u,
{
    char::from_u32(u).unwrap()
}

} // verus!
