use vstd::prelude::*;

verus! {

/// Number of bytes in an identifier of the legacy hash scheme.
pub const OID_LEN: usize = 20;

/// Whether `c` is a hexadecimal digit, in either case.
pub open spec fn is_hex_digit(c: char) -> bool {
    ('0' <= c && c <= '9') || ('a' <= c && c <= 'f') || ('A' <= c && c <= 'F')
}

/// The value of a hexadecimal digit.
pub open spec fn hex_value(c: char) -> int {
    if '0' <= c && c <= '9' {
        c as int - '0' as int
    } else if 'a' <= c && c <= 'f' {
        c as int - 'a' as int + 10
    } else {
        c as int - 'A' as int + 10
    }
}

/// The lowercase digit for a value below sixteen.
pub open spec fn hex_digit(v: int) -> char {
    if v < 10 {
        (v + '0' as int) as char
    } else {
        (v - 10 + 'a' as int) as char
    }
}

/// Whether `s` is a well-formed hexadecimal text: an even number of digits.
pub open spec fn is_hex_text(s: Seq<char>) -> bool {
    s.len() % 2 == 0 && forall|i: int| 0 <= i < s.len() ==> is_hex_digit(#[trigger] s[i])
}

/// The bytes that a well-formed hexadecimal text denotes, two digits per byte.
pub open spec fn hex_bytes(s: Seq<char>) -> Seq<u8> {
    Seq::new(
        s.len() / 2,
        |i: int| (hex_value(s[2 * i]) * 16 + hex_value(s[2 * i + 1])) as u8,
    )
}

/// The lowercase hexadecimal rendering of `b`, two digits per byte.
pub open spec fn hex_text(b: Seq<u8>) -> Seq<char> {
    Seq::new(
        2 * b.len(),
        |i: int| if i % 2 == 0 { hex_digit(b[i / 2] as int / 16) } else { hex_digit(b[i / 2] as int % 16) },
    )
}

/// Relies on `hex::decode`: it accepts exactly the texts of an even number of
/// digits (either case), and returns the bytes that each pair of digits denotes.
#[verifier::external_body]
fn decode_hex(s: &str) -> (r: Option<Vec<u8>>)
    ensures
        r.is_some() == is_hex_text(s@),
        r matches Some(v) ==> v@ == hex_bytes(s@),
{
    hex::decode(s).ok()
}

/// Relies on `hex::encode`: two lowercase digits for each byte, high nibble first.
#[verifier::external_body]
pub(crate) fn encode_hex(b: &[u8]) -> (r: String)
    ensures
        r@ == hex_text(b@),
{
    hex::encode(b)
}

/// Why a text or a byte string is not an identifier.
#[derive(Debug, Clone, Copy, PartialEq, Eq, Structural)]
pub enum OidError {
    /// The input does not hold exactly one identifier's worth of bytes.
    InvalidLength,
    /// The text holds a character that is not a hexadecimal digit.
    InvalidHex,
}

/// A content identifier: the fixed-width hash that names an immutable object.
#[derive(Debug, Clone, Copy, PartialEq, Eq, PartialOrd, Ord, Hash)]
pub struct ObjectId {
    pub bytes: [u8; 20],
}

impl View for ObjectId {
    type V = Seq<u8>;

    open spec fn view(&self) -> Seq<u8> {
        self.bytes@
    }
}

impl ObjectId {
    /// The identifier made of exactly these bytes.
    pub fn from_bytes(b: &[u8]) -> (r: Result<ObjectId, OidError>)
        ensures
            b@.len() == OID_LEN ==> (r matches Ok(id) && id@ == b@),
            b@.len() != OID_LEN ==> r == Err::<ObjectId, OidError>(OidError::InvalidLength),
    {
        if b.len() != OID_LEN {
            return Err(OidError::InvalidLength);
        }
        let mut bytes = [0u8; 20];
        let mut i: usize = 0;
        while i < OID_LEN
            invariant
                b@.len() == OID_LEN,
                i <= OID_LEN,
                bytes@.len() == OID_LEN,
                forall|j: int| 0 <= j < i ==> bytes@[j] == b@[j],
            decreases OID_LEN - i,
        {
            bytes[i] = b[i];
            i = i + 1;
        }
        assert(bytes@ =~= b@);
        Ok(ObjectId { bytes })
    }

    /// The identifier that a hexadecimal text of 40 digits denotes (either case).
    pub fn from_hex(s: &str) -> (r: Result<ObjectId, OidError>)
        ensures
            is_hex_text(s@) && s@.len() == 2 * OID_LEN ==> (r matches Ok(id) && id@ == hex_bytes(s@)),
            !is_hex_text(s@) ==> r == Err::<ObjectId, OidError>(OidError::InvalidHex),
            is_hex_text(s@) && s@.len() != 2 * OID_LEN ==> r == Err::<ObjectId, OidError>(
                OidError::InvalidLength,
            ),
    {
        match decode_hex(s) {
            None => Err(OidError::InvalidHex),
            Some(v) => ObjectId::from_bytes(v.as_slice()),
        }
    }

    /// The raw bytes of this identifier.
    pub fn as_bytes(&self) -> (r: &[u8])
        ensures
            r@ == self@,
    {
        self.bytes.as_slice()
    }

    /// The lowercase hexadecimal form of this identifier.
    pub fn to_hex(&self) -> (r: String)
        ensures
            r@ == hex_text(self@),
            r@.len() == 2 * OID_LEN,
    {
        encode_hex(self.bytes.as_slice())
    }

    /// Whether two identifiers name the same bytes.
    pub fn same_as(&self, other: &ObjectId) -> (r: bool)
        ensures
            r == (self@ == other@),
    {
        let mut i: usize = 0;
        while i < OID_LEN
            invariant
                self@.len() == OID_LEN,
                other@.len() == OID_LEN,
                i <= OID_LEN,
                forall|j: int| 0 <= j < i ==> self@[j] == other@[j],
            decreases OID_LEN - i,
        {
            if self.bytes[i] != other.bytes[i] {
                return false;
            }
            i = i + 1;
        }
        assert(self@ =~= other@);
        true
    }
}

} // verus!
