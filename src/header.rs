use vstd::prelude::*;

use headers::HeaderValue;

use vstd::string::StringSliceAdditionalSpecFns;

use crate::address::IpAddress;
use crate::format::{address_to_string, address_text, ascii_chars};
use crate::parse::{parse_address, parse_address_exec};
use crate::round_trip::{lemma_address_text_ascii, lemma_parse_of_format};

verus! {

#[verifier::external_type_specification]
#[verifier::external_body]
pub struct ExHeaderValue(HeaderValue);

/// The bytes that a raw header field value holds.
pub uninterp spec fn value_bytes(v: HeaderValue) -> Seq<u8>;

/// Relies on `HeaderValue::as_bytes`: the value's bytes, as they are held.
pub assume_specification[ HeaderValue::as_bytes ](v: &HeaderValue) -> (r: &[u8])
    ensures
        r@ == value_bytes(*v),
;

/// Relies on `HeaderValue::is_empty`: whether the value holds no byte.
pub assume_specification[ HeaderValue::is_empty ](v: &HeaderValue) -> (r: bool)
    ensures
        r == (value_bytes(*v).len() == 0),
;

/// The lowercase name of the header.
pub const HEADER_NAME: &'static str = "x-real-ip";

/// The text is not an IP address literal.
#[derive(Clone, Copy, Debug, PartialEq, Eq)]
pub struct AddrParseError;

/// The header is absent, empty, not visible ASCII text, or not an IP address.
/// These causes are deliberately not told apart.
#[derive(Clone, Copy, Debug, PartialEq, Eq)]
pub struct InvalidHeader;

/// The value of the `x-real-ip` header: the client's IP address as a proxy saw it.
#[derive(Clone, Copy, Debug, PartialEq, Eq, Structural)]
pub struct XRealIP(pub IpAddress);

/// A byte that a header value may hold as text: visible ASCII or a tab.
pub open spec fn is_visible_ascii(b: u8) -> bool {
    (32 <= b && b < 127) || b == 9
}

/// The address that one raw field value gives: it must be non-empty visible
/// ASCII text that spells an address.
pub open spec fn decode_value(b: Seq<u8>) -> Option<IpAddress> {
    if b.len() == 0 {
        None
    } else if !(forall|i: int| 0 <= i < b.len() ==> is_visible_ascii(#[trigger] b[i])) {
        None
    } else {
        parse_address(b)
    }
}

/// The address that a sequence of field values gives: the first one alone
/// decides; there must be one.
pub open spec fn decode_values(values: Seq<HeaderValue>) -> Option<IpAddress> {
    if values.len() == 0 {
        None
    } else {
        decode_value(value_bytes(values[0]))
    }
}

/// Only the first field value decides what decoding gives: the values after
/// it are ignored, whatever they hold.
pub proof fn lemma_decode_reads_first_only(values: Seq<HeaderValue>)
    requires
        values.len() > 0,
    ensures
        decode_values(values) == decode_values(values.take(1)),
{
    assert(values.take(1)[0] == values[0]);
}

/// A first field value that holds the canonical text of an address decodes
/// to that address.
pub proof fn lemma_decode_of_format(values: Seq<HeaderValue>, a: IpAddress)
    requires
        values.len() > 0,
        value_bytes(values[0]) == address_text(a),
    ensures
        decode_values(values) == Some(a),
{
    lemma_address_text_ascii(a);
    lemma_parse_of_format(a);
    let b = value_bytes(values[0]);
    assert forall|i: int| 0 <= i < b.len() implies is_visible_ascii(#[trigger] b[i]) by {
        assert(46 <= address_text(a)[i] <= 102);
    }
}

impl XRealIP {
    /// Wraps an address.
    pub fn new(ip: IpAddress) -> (r: Self)
        ensures
            r == XRealIP(ip),
    {
        XRealIP(ip)
    }

    /// The address in its canonical text form.
    pub fn to_string(&self) -> (r: String)
        ensures
            r@ == ascii_chars(address_text(self.0)),
    {
        address_to_string(self.0)
    }

    /// Parses a bare IPv4 or IPv6 address literal; nothing is trimmed.
    pub fn from_str(s: &str) -> (r: Result<XRealIP, AddrParseError>)
        ensures
            match r {
                Ok(x) => parse_address(s.spec_bytes()) == Some(x.0),
                Err(_) => parse_address(s.spec_bytes()) is None,
            },
    {
        match parse_address_exec(s.as_bytes()) {
            Some(a) => Ok(XRealIP(a)),
            None => Err(AddrParseError),
        }
    }

    /// The name of the header this value belongs to.
    pub fn name() -> (r: &'static str)
        ensures
            r@ == HEADER_NAME@,
    {
        HEADER_NAME
    }

    /// Decodes the header from its field values: only the first is read, and
    /// any failure is the one `InvalidHeader`.
    pub fn decode(values: &[HeaderValue]) -> (r: Result<XRealIP, InvalidHeader>)
        ensures
            match r {
                Ok(x) => decode_values(values@) == Some(x.0),
                Err(_) => decode_values(values@) is None,
            },
    {
        if values.len() == 0 {
            return Err(InvalidHeader);
        }
        let value = &values[0];
        if value.is_empty() {
            return Err(InvalidHeader);
        }
        let bytes = value.as_bytes();
        let mut i: usize = 0;
        while i < bytes.len()
            invariant
                i <= bytes@.len(),
                values@.len() > 0,
                bytes@ == value_bytes(values@[0]),
                bytes@.len() > 0,
                forall|k: int| 0 <= k < i ==> is_visible_ascii(#[trigger] bytes@[k]),
            decreases bytes@.len() - i,
        {
            let b = bytes[i];
            if !((32 <= b && b < 127) || b == 9) {
                assert(!is_visible_ascii(bytes@[i as int]));
                return Err(InvalidHeader);
            }
            i = i + 1;
        }
        match parse_address_exec(bytes) {
            Some(a) => Ok(XRealIP(a)),
            None => Err(InvalidHeader),
        }
    }

    /// Writes nothing: this header is only ever read, never emitted.
    pub fn encode(&self, values: &mut Vec<HeaderValue>)
        ensures
            final(values)@ == old(values)@,
    {
    }
}

impl core::str::FromStr for XRealIP {
    type Err = AddrParseError;

    fn from_str(s: &str) -> Result<XRealIP, AddrParseError> {
        XRealIP::from_str(s)
    }
}

impl From<IpAddress> for XRealIP {
    fn from(ip: IpAddress) -> (r: XRealIP) {
        XRealIP::new(ip)
    }
}

impl vstd::std_specs::convert::FromSpecImpl<IpAddress> for XRealIP {
    open spec fn obeys_from_spec() -> bool {
        true
    }

    open spec fn from_spec(ip: IpAddress) -> XRealIP {
        XRealIP(ip)
    }
}

} // verus!
