//! The frame codec: records, their wire format, and the pure
//! encode/decode pair between them.
//!
//! A frame is laid out as `[marker, len_hi, len_lo, kind, severity]`
//! followed by `len` bytes of UTF-8 payload, where `len` is the big-endian
//! 16-bit payload byte length.

use vstd::prelude::*;
use vstd::utf8::{
    decode_utf8, encode_utf8, encode_utf8_decode_utf8, encode_utf8_valid_utf8, valid_utf8,
};

verus! {

/// First byte of every frame.
pub const START_MARKER: u8 = 0x1A;

/// Kind/version marker, at offset 3 of every frame.
pub const KIND_MARKER: u8 = 0x01;

/// Largest payload byte length that the 16-bit length field can carry.
pub const MAX_PAYLOAD_LEN: usize = 65535;

/// Severity classification carried by a record. `Unknown` is a decode-only
/// catch-all for unrecognised severity codes and can never be encoded.
#[derive(Debug, PartialEq, Eq, Structural, Clone, Copy, Hash)]
pub enum PayloadType {
    Debug,
    Warning,
    Error,
    Unknown,
}

/// Why a record could not be encoded into a frame.
#[derive(Debug, PartialEq, Eq, Structural, Clone, Copy)]
pub enum EncodeError {
    /// The payload is longer than 65535 bytes.
    PayloadTooLarge,
    /// The severity is `Unknown`, which has no wire code.
    UnsupportedSeverity,
}

/// Why a byte buffer could not be decoded into a record.
#[derive(Debug, PartialEq, Eq, Structural, Clone, Copy)]
pub enum DecodeError {
    /// The input held no bytes at all.
    EmptyInput,
    /// The start marker or the kind/version marker does not match.
    MalformedHeader,
    /// The input length does not equal 5 plus the declared payload length.
    LengthMismatch,
    /// The payload bytes are not valid UTF-8.
    InvalidEncoding,
}

/// One log record: a severity and a UTF-8 text payload.
#[derive(Debug, Clone, Hash)]
pub struct TLog {
    pub payload_type: PayloadType,
    pub payload: String,
}

impl Eq for TLog {

}

impl PartialEq for TLog {
    fn eq(&self, other: &TLog) -> (r: bool) {
        self.payload_type == other.payload_type && self.payload == other.payload
    }
}

impl vstd::std_specs::cmp::PartialEqSpecImpl for TLog {
    open spec fn obeys_eq_spec() -> bool {
        true
    }

    open spec fn eq_spec(&self, other: &TLog) -> bool {
        self.payload_type == other.payload_type && self.payload@ == other.payload@
    }
}

/// Wire code of a severity; `Unknown` has none and is mapped to a value
/// outside the recognised range.
pub open spec fn severity_code(t: PayloadType) -> u8 {
    match t {
        PayloadType::Debug => 0,
        PayloadType::Warning => 1,
        PayloadType::Error => 2,
        PayloadType::Unknown => 3,
    }
}

/// Severity decoded from a wire code; every unrecognised code is `Unknown`.
pub open spec fn severity_of_code(code: u8) -> PayloadType {
    if code == 0 {
        PayloadType::Debug
    } else if code == 1 {
        PayloadType::Warning
    } else if code == 2 {
        PayloadType::Error
    } else {
        PayloadType::Unknown
    }
}

/// Payload length declared by a frame header: bytes 1 and 2, big endian.
pub open spec fn declared_len(b: Seq<u8>) -> int
    recommends
        b.len() >= 3,
{
    b[1] as int * 256 + b[2] as int
}

impl TLog {
    /// The UTF-8 bytes of the payload.
    pub open spec fn payload_bytes(self) -> Seq<u8> {
        encode_utf8(self.payload@)
    }

    /// True when the record has a wire representation: an encodable severity
    /// and a payload that fits the 16-bit length field.
    pub open spec fn encodable(self) -> bool {
        &&& self.payload_type != PayloadType::Unknown
        &&& self.payload_bytes().len() <= MAX_PAYLOAD_LEN
    }

    /// The frame bytes of an encodable record.
    pub open spec fn wire_bytes(self) -> Seq<u8>
        recommends
            self.encodable(),
    {
        let n = self.payload_bytes().len() as int;
        seq![
            START_MARKER,
            (n / 256) as u8,
            (n % 256) as u8,
            KIND_MARKER,
            severity_code(self.payload_type),
        ] + self.payload_bytes()
    }
}

/// Decode at the specification level: the severity and payload characters of
/// a byte-exact frame, or the error that rejects it.
pub open spec fn spec_decode(b: Seq<u8>) -> Result<(PayloadType, Seq<char>), DecodeError> {
    if b.len() == 0 {
        Err(DecodeError::EmptyInput)
    } else if b[0] != START_MARKER {
        Err(DecodeError::MalformedHeader)
    } else if b.len() < 5 {
        Err(DecodeError::LengthMismatch)
    } else if b[3] != KIND_MARKER {
        Err(DecodeError::MalformedHeader)
    } else if b.len() != 5 + declared_len(b) {
        Err(DecodeError::LengthMismatch)
    } else if !valid_utf8(b.skip(5)) {
        Err(DecodeError::InvalidEncoding)
    } else {
        Ok((severity_of_code(b[4]), decode_utf8(b.skip(5))))
    }
}

/// Relies on `std::str::from_utf8`: it succeeds exactly on valid UTF-8 input
/// and returns the string slice whose bytes are the input, here copied into
/// an owned `String`.
#[verifier::external_body]
pub(crate) fn bytes_to_string(bytes: &[u8]) -> (r: Option<String>)
    ensures
        match r {
            Some(s) => valid_utf8(bytes@) && s@ == decode_utf8(bytes@),
            None => !valid_utf8(bytes@),
        },
{
    match std::str::from_utf8(bytes) {
        Ok(s) => Some(s.to_owned()),
        Err(_) => None,
    }
}

fn severity_from_code(code: u8) -> (t: PayloadType)
    ensures
        t == severity_of_code(code),
{
    match code {
        0 => PayloadType::Debug,
        1 => PayloadType::Warning,
        2 => PayloadType::Error,
        _ => PayloadType::Unknown,
    }
}

impl TLog {
    /// A record with the given payload and severity.
    pub fn new(payload: String, payload_type: PayloadType) -> (r: Self)
        ensures
            r.payload == payload,
            r.payload_type == payload_type,
    {
        Self { payload, payload_type }
    }

    /// Encode this record into its frame bytes; fails exactly when the
    /// payload does not fit the length field or the severity is `Unknown`.
    pub fn to_packet(&self) -> (r: Result<Vec<u8>, EncodeError>)
        ensures
            match r {
                Ok(bytes) => self.encodable() && bytes@ == self.wire_bytes(),
                Err(e) => !self.encodable() && e == (if self.payload_bytes().len()
                    > MAX_PAYLOAD_LEN {
                    EncodeError::PayloadTooLarge
                } else {
                    EncodeError::UnsupportedSeverity
                }),
            },
    {
        let payload_bytes: &[u8] = self.payload.as_str().as_bytes();
        if payload_bytes.len() > MAX_PAYLOAD_LEN {
            return Err(EncodeError::PayloadTooLarge);
        }
        let p_type: u8 = match self.payload_type {
            PayloadType::Debug => 0,
            PayloadType::Warning => 1,
            PayloadType::Error => 2,
            PayloadType::Unknown => {
                return Err(EncodeError::UnsupportedSeverity);
            },
        };
        let n: usize = payload_bytes.len();
        let mut out: Vec<u8> = Vec::new();
        out.push(START_MARKER);
        out.push((n / 256) as u8);
        out.push((n % 256) as u8);
        out.push(KIND_MARKER);
        out.push(p_type);
        out.extend_from_slice(payload_bytes);
        proof {
            assert(out@ =~= self.wire_bytes());
        }
        Ok(out)
    }

    /// Decode a byte-exact frame into a record. The result matches
    /// [`spec_decode`] clause by clause; unrecognised severity codes decode
    /// to `Unknown` rather than failing.
    pub fn from_be_bytes(data_packet: Vec<u8>) -> (r: Result<Self, DecodeError>)
        ensures
            match r {
                Ok(t) => spec_decode(data_packet@) == Ok::<(PayloadType, Seq<char>), DecodeError>(
                    (t.payload_type, t.payload@),
                ),
                Err(e) => spec_decode(data_packet@) == Err::<(PayloadType, Seq<char>), DecodeError>(
                    e,
                ),
            },
    {
        if data_packet.len() == 0 {
            return Err(DecodeError::EmptyInput);
        }
        if data_packet[0] != START_MARKER {
            return Err(DecodeError::MalformedHeader);
        }
        if data_packet.len() < 5 {
            return Err(DecodeError::LengthMismatch);
        }
        if data_packet[3] != KIND_MARKER {
            return Err(DecodeError::MalformedHeader);
        }
        let payload_len: usize = (data_packet[1] as usize) * 256 + (data_packet[2] as usize);
        if data_packet.len() != 5 + payload_len {
            return Err(DecodeError::LengthMismatch);
        }
        let payload_slice: &[u8] = vstd::slice::slice_subrange(
            data_packet.as_slice(),
            5,
            data_packet.len(),
        );
        match bytes_to_string(payload_slice) {
            Some(payload) => Ok(
                Self { payload_type: severity_from_code(data_packet[4]), payload },
            ),
            None => Err(DecodeError::InvalidEncoding),
        }
    }
}

/// UTF-8 encoding is injective: equal encodings come from equal texts.
pub proof fn lemma_encode_utf8_injective(a: Seq<char>, b: Seq<char>)
    requires
        encode_utf8(a) == encode_utf8(b),
    ensures
        a == b,
{
    encode_utf8_decode_utf8(a);
    encode_utf8_decode_utf8(b);
}

/// Round trip: decoding the frame of any encodable record yields exactly
/// that record's severity and payload.
pub proof fn lemma_round_trip(t: TLog)
    requires
        t.encodable(),
    ensures
        spec_decode(t.wire_bytes()) == Ok::<(PayloadType, Seq<char>), DecodeError>(
            (t.payload_type, t.payload@),
        ),
{
    let w = t.wire_bytes();
    let p = t.payload_bytes();
    let n = p.len() as int;
    assert(0 <= n / 256 < 256 && 0 <= n % 256 < 256);
    assert(declared_len(w) == (n / 256) * 256 + n % 256);
    assert((n / 256) * 256 + n % 256 == n) by {
        vstd::arithmetic::div_mod::lemma_fundamental_div_mod(n, 256);
    }
    assert(w.skip(5) =~= p);
    encode_utf8_valid_utf8(t.payload@);
    encode_utf8_decode_utf8(t.payload@);
    assert(severity_of_code(severity_code(t.payload_type)) == t.payload_type);
}

} // verus!
