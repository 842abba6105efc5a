//! Pairing payloads and PIN primitives.
//!
//! A pairing payload carries a device identifier, its certificate in PEM
//! form, and an issue timestamp, as a base64-encoded JSON object. It is
//! delivered either behind a short-lived six-digit PIN or directly as a
//! long-lived pairing code for QR or manual transfer.

use vstd::prelude::*;
use base64::Engine;

verus! {

/// How long a pairing PIN lives, in seconds.
pub const PIN_LIFETIME_SECONDS: i64 = 600;

/// The lowest clock reading the engine accepts, in Unix seconds; far below
/// any date chrono can represent.
pub const MIN_CLOCK: i64 = -10000000000000;

/// The highest clock reading the engine accepts, in Unix seconds; far
/// above any date chrono can represent.
pub const MAX_CLOCK: i64 = 10000000000000;

/// What base64 decoding returns on a character sequence: the byte sequence
/// it canonically encodes, if any.
pub uninterp spec fn base64_decoded(s: Seq<char>) -> Option<Seq<u8>>;

/// What parsing a pairing payload returns on a byte sequence: the device
/// identifier, certificate and timestamp fields of the JSON object it
/// spells, if it spells one.
pub uninterp spec fn payload_fields_of(b: Seq<u8>) -> Option<(Seq<char>, Seq<char>, i64)>;

/// What decoding a pairing code yields: base64, then the payload fields.
pub open spec fn decode_pairing(code: Seq<char>) -> Option<(Seq<char>, Seq<char>, i64)> {
    match base64_decoded(code) {
        Some(b) => payload_fields_of(b),
        None => None,
    }
}

/// Relies on base64's standard alphabet with padding: `encode` emits the
/// canonical form, which `decode` inverts.
#[verifier::external_body]
pub fn b64_encode(b: &[u8]) -> (r: String)
    ensures
        base64_decoded(r@) == Some(b@),
{
    base64::engine::general_purpose::STANDARD.encode(b)
}

/// Relies on base64's standard engine: `decode` accepts exactly the
/// canonically padded encodings and returns the encoded bytes.
#[verifier::external_body]
pub fn b64_decode(s: &str) -> (r: Option<Vec<u8>>)
    ensures
        match r {
            Some(v) => base64_decoded(s@) == Some(v@),
            None => base64_decoded(s@) is None,
        },
{
    base64::engine::general_purpose::STANDARD.decode(s).ok()
}

/// A pairing payload: who is pairing, with which certificate, and when the
/// payload was issued.
pub struct PairingPayload {
    pub device_id: String,
    pub certificate: String,
    pub timestamp: i64,
}

/// Relies on serde_json: a JSON object built from the three fields parses
/// back to exactly those fields.
#[verifier::external_body]
fn encode_payload(device_id: &str, certificate: &str, timestamp: i64) -> (r: Vec<u8>)
    ensures
        payload_fields_of(r@) == Some((device_id@, certificate@, timestamp)),
{
    let mut obj = serde_json::Map::new();
    obj.insert("device_id".to_string(), serde_json::Value::String(device_id.to_string()));
    obj.insert("certificate".to_string(), serde_json::Value::String(certificate.to_string()));
    obj.insert("timestamp".to_string(), serde_json::Value::from(timestamp));
    serde_json::Value::Object(obj).to_string().into_bytes()
}

/// Relies on serde_json's `from_slice`: reads the JSON object's
/// `device_id` and `certificate` strings and `timestamp` integer.
#[verifier::external_body]
fn parse_payload(b: &[u8]) -> (r: Option<PairingPayload>)
    ensures
        match r {
            Some(p) => payload_fields_of(b@) == Some((p.device_id@, p.certificate@, p.timestamp)),
            None => payload_fields_of(b@) is None,
        },
{
    let v: serde_json::Value = serde_json::from_slice(b).ok()?;
    let device_id = v.get("device_id")?.as_str()?.to_string();
    let certificate = v.get("certificate")?.as_str()?.to_string();
    let timestamp = v.get("timestamp")?.as_i64()?;
    Some(PairingPayload { device_id, certificate, timestamp })
}

/// Builds the pairing code for an identity: the base64 of the JSON payload.
pub fn build_pairing_code(device_id: &str, certificate: &str, timestamp: i64) -> (r: String)
    ensures
        decode_pairing(r@) == Some((device_id@, certificate@, timestamp)),
{
    let payload = encode_payload(device_id, certificate, timestamp);
    b64_encode(payload.as_slice())
}

/// Decodes a pairing code back into its payload, if it is one.
pub fn decode_pairing_code(code: &str) -> (r: Option<PairingPayload>)
    ensures
        match r {
            Some(p) => decode_pairing(code@) == Some((p.device_id@, p.certificate@, p.timestamp)),
            None => decode_pairing(code@) is None,
        },
{
    match b64_decode(code) {
        Some(bytes) => parse_payload(bytes.as_slice()),
        None => None,
    }
}

/// Relies on rand's `thread_rng` and `gen_range`: a number in the six-digit
/// range; nothing else is promised of a random draw.
#[verifier::external_body]
pub fn random_pin_number() -> (r: u64)
    ensures
        100000 <= r < 1000000,
{
    rand::Rng::gen_range(&mut rand::thread_rng(), 100000..1000000)
}

/// Relies on chrono's `Utc::now`: a Unix timestamp in seconds, which
/// chrono keeps between its minimum and maximum representable dates.
#[verifier::external_body]
pub fn now_timestamp() -> (r: i64)
    ensures
        MIN_CLOCK <= r <= MAX_CLOCK,
{
    chrono::Utc::now().timestamp()
}

/// One entry of the PIN cache: the pairing code a PIN dereferences to, the
/// issuing device, and the moment the PIN stops being valid.
pub struct PinData {
    pub pairing_code: String,
    pub device_id: String,
    pub expires_at: i64,
}

/// The mathematical value of a [`PinData`].
pub struct PinDataV {
    pub pairing_code: Seq<char>,
    pub device_id: Seq<char>,
    pub expires_at: int,
}

impl View for PinData {
    type V = PinDataV;

    open spec fn view(&self) -> PinDataV {
        PinDataV {
            pairing_code: self.pairing_code@,
            device_id: self.device_id@,
            expires_at: self.expires_at as int,
        }
    }
}

/// A PIN as shown to the user: the digits, when it expires, and how many
/// seconds it has left.
pub struct ActivePin {
    pub pin: String,
    pub expires_at: i64,
    pub expires_in_seconds: i64,
}

} // verus!
