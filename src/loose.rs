//! The loose-object codec: where an object's file lives, and how its
//! compressed bytes become a typed, length-checked payload.
use vstd::prelude::*;
use vstd::slice::slice_subrange;
use vstd::string::StringExecFns;
use crate::error::{Error, ObjectKind};
use crate::oid::{encode_hex, hex_text, ObjectId, OID_LEN};
use crate::tree::{copy_range, find_byte, first_index};

verus! {

/// What inflating a zlib stream yields: the inflated bytes, or nothing where the
/// stream is invalid or truncated.
pub uninterp spec fn zlib_inflated(c: Seq<u8>) -> Option<Seq<u8>>;

/// Relies on `miniz_oxide::inflate::decompress_to_vec_zlib`: it inflates a whole
/// zlib stream, or fails where the stream is invalid or truncated; the outcome
/// depends on the input bytes alone.
#[verifier::external_body]
fn inflate(c: &[u8]) -> (r: Option<Vec<u8>>)
    ensures
        r matches Some(v) ==> zlib_inflated(c@) == Some(v@),
        r is None ==> zlib_inflated(c@) is None,
{
    miniz_oxide::inflate::decompress_to_vec_zlib(c).ok()
}

/// The object kind that a header token names.
pub open spec fn kind_of_token(t: Seq<u8>) -> Option<ObjectKind> {
    if t =~= seq![98u8, 108u8, 111u8, 98u8] {
        Some(ObjectKind::Blob)
    } else if t =~= seq![116u8, 114u8, 101u8, 101u8] {
        Some(ObjectKind::Tree)
    } else if t =~= seq![99u8, 111u8, 109u8, 109u8, 105u8, 116u8] {
        Some(ObjectKind::Commit)
    } else if t =~= seq![116u8, 97u8, 103u8] {
        Some(ObjectKind::Tag)
    } else {
        None
    }
}

/// Whether every byte of `t` is a decimal digit.
pub open spec fn all_digits(t: Seq<u8>) -> bool {
    forall|i: int| 0 <= i < t.len() ==> 48u8 <= #[trigger] t[i] <= 57u8
}

/// The number that a string of decimal digits denotes.
pub open spec fn decimal_value(t: Seq<u8>) -> nat
    decreases t.len(),
{
    if t.len() == 0 {
        0
    } else {
        decimal_value(t.drop_last()) * 10 + (t.last() - 48) as nat
    }
}

/// A decoded object: its kind and its payload.
#[derive(Debug, Clone, PartialEq, Eq)]
pub struct DecodedObject {
    pub kind: ObjectKind,
    pub data: Vec<u8>,
}

impl View for DecodedObject {
    type V = (ObjectKind, Seq<u8>);

    open spec fn view(&self) -> (ObjectKind, Seq<u8>) {
        (self.kind, self.data@)
    }
}

/// What an inflated loose object `<kind> <size>\0<payload>` holds: its kind and
/// payload, where the kind is known, the size is a decimal number and the
/// payload has exactly that many bytes.
pub open spec fn parse_header(d: Seq<u8>) -> Result<(ObjectKind, Seq<u8>), Error> {
    match first_index(d, 32u8, 0) {
        None => Err(Error::MalformedHeader),
        Some(sp) => match kind_of_token(d.subrange(0, sp)) {
            None => Err(Error::MalformedHeader),
            Some(kind) => match first_index(d, 0u8, sp + 1) {
                None => Err(Error::MalformedHeader),
                Some(nul) => {
                    let size = d.subrange(sp + 1, nul);
                    let payload = d.subrange(nul + 1, d.len() as int);
                    if size.len() > 0 && all_digits(size) && decimal_value(size) == payload.len() {
                        Ok((kind, payload))
                    } else {
                        Err(Error::MalformedHeader)
                    }
                },
            },
        },
    }
}

/// What decoding the file bytes of a loose object gives.
pub open spec fn decode_loose_spec(c: Seq<u8>) -> Result<(ObjectKind, Seq<u8>), Error> {
    match zlib_inflated(c) {
        None => Err(Error::CorruptZlib),
        Some(d) => parse_header(d),
    }
}

/// The view of a decoding result.
pub open spec fn decoded_view(r: Result<DecodedObject, Error>) -> Result<(ObjectKind, Seq<u8>), Error> {
    match r {
        Ok(o) => Ok(o@),
        Err(e) => Err(e),
    }
}

/// A prefix of a string of digits never denotes more than the whole.
proof fn lemma_decimal_prefix(t: Seq<u8>, i: int)
    requires
        all_digits(t),
        0 <= i <= t.len(),
    ensures
        decimal_value(t.subrange(0, i)) <= decimal_value(t),
    decreases t.len(),
{
    if i < t.len() {
        let u = t.drop_last();
        assert(u.subrange(0, i) =~= t.subrange(0, i));
        lemma_decimal_prefix(u, i);
    } else {
        assert(t.subrange(0, i) =~= t);
    }
}

/// The object kind named by the token `d[0..end]`.
fn kind_at(d: &[u8], end: usize) -> (r: Option<ObjectKind>)
    requires
        end <= d@.len(),
    ensures
        r == kind_of_token(d@.subrange(0, end as int)),
{
    let ghost t = d@.subrange(0, end as int);
    if end == 4 {
        if d[0] == 98 && d[1] == 108 && d[2] == 111 && d[3] == 98 {
            assert(t =~= seq![98u8, 108u8, 111u8, 98u8]);
            return Some(ObjectKind::Blob);
        }
        if d[0] == 116 && d[1] == 114 && d[2] == 101 && d[3] == 101 {
            assert(t =~= seq![116u8, 114u8, 101u8, 101u8]);
            return Some(ObjectKind::Tree);
        }
        return None;
    }
    if end == 6 {
        if d[0] == 99 && d[1] == 111 && d[2] == 109 && d[3] == 109 && d[4] == 105 && d[5] == 116 {
            assert(t =~= seq![99u8, 111u8, 109u8, 109u8, 105u8, 116u8]);
            return Some(ObjectKind::Commit);
        }
        return None;
    }
    if end == 3 {
        if d[0] == 116 && d[1] == 97 && d[2] == 103 {
            assert(t =~= seq![116u8, 97u8, 103u8]);
            return Some(ObjectKind::Tag);
        }
        return None;
    }
    None
}

/// Parses an inflated loose object `<kind> <size>\0<payload>` and checks that
/// the payload has the declared size.
pub fn parse_loose(d: &[u8]) -> (r: Result<DecodedObject, Error>)
    ensures
        decoded_view(r) == parse_header(d@),
{
    let len = d.len();
    let sp = match find_byte(d, 32, 0) {
        None => return Err(Error::MalformedHeader),
        Some(p) => p,
    };
    let kind = match kind_at(d, sp) {
        None => return Err(Error::MalformedHeader),
        Some(k) => k,
    };
    let nul = match find_byte(d, 0, sp + 1) {
        None => return Err(Error::MalformedHeader),
        Some(p) => p,
    };
    let start = sp + 1;
    let ghost size = d@.subrange(start as int, nul as int);
    if nul == start {
        return Err(Error::MalformedHeader);
    }
    let limit: usize = len - (nul + 1);
    let mut acc: u128 = 0;
    let mut i: usize = start;
    while i < nul
        invariant
            start <= i <= nul < len,
            len == d@.len(),
            start == sp + 1,
            limit == len - (nul + 1),
            first_index(d@, 32u8, 0) == Some(sp as int),
            kind_of_token(d@.subrange(0, sp as int)) == Some(kind),
            first_index(d@, 0u8, sp + 1) == Some(nul as int),
            size == d@.subrange(start as int, nul as int),
            acc == decimal_value(d@.subrange(start as int, i as int)),
            all_digits(d@.subrange(start as int, i as int)),
            acc <= limit,
        decreases nul - i,
    {
        let c = d[i];
        if c < 48 || c > 57 {
            assert(size[i - start] == c);
            return Err(Error::MalformedHeader);
        }
        acc = acc * 10 + (c - 48) as u128;
        assert(d@.subrange(start as int, i + 1).drop_last() =~= d@.subrange(start as int, i as int));
        i = i + 1;
        if acc > limit as u128 {
            proof {
                if all_digits(size) {
                    assert(size.subrange(0, i - start) =~= d@.subrange(start as int, i as int));
                    lemma_decimal_prefix(size, i - start);
                }
            }
            return Err(Error::MalformedHeader);
        }
    }
    assert(size =~= d@.subrange(start as int, i as int));
    if acc != limit as u128 {
        return Err(Error::MalformedHeader);
    }
    let data = copy_range(d, nul + 1, len);
    Ok(DecodedObject { kind, data })
}

/// Decodes the file bytes of a loose object: inflates them, then parses the header.
pub fn decode_loose(c: &[u8]) -> (r: Result<DecodedObject, Error>)
    ensures
        decoded_view(r) == decode_loose_spec(c@),
{
    match inflate(c) {
        None => Err(Error::CorruptZlib),
        Some(d) => parse_loose(d.as_slice()),
    }
}

/// Where the loose object `id` lives under the objects directory `root`:
/// `<root>/<first two hex digits>/<remaining hex digits>`.
pub fn loose_path(root: &str, id: &ObjectId) -> (r: String)
    ensures
        r@ == root@ + seq!['/'] + hex_text(id@).subrange(0, 2) + seq!['/'] + hex_text(id@).subrange(
            2,
            2 * OID_LEN,
        ),
{
    let bytes = id.as_bytes();
    let head = encode_hex(slice_subrange(bytes, 0, 1));
    let tail = encode_hex(slice_subrange(bytes, 1, OID_LEN));
    let mut p = String::from_str(root);
    proof {
        reveal_strlit("/");
    }
    p.append("/");
    p.append(head.as_str());
    p.append("/");
    p.append(tail.as_str());
    let ghost full = hex_text(id@);
    assert(head@ =~= full.subrange(0, 2));
    assert forall|i: int| 0 <= i < 2 * OID_LEN - 2 implies #[trigger] tail@[i] == full[i + 2] by {
        assert((i + 2) / 2 == i / 2 + 1);
        assert((i + 2) % 2 == i % 2);
    }
    assert(tail@ =~= full.subrange(2, 2 * OID_LEN));
    p
}

/// Decoding is a function of the file's bytes alone: two decodes of the same
/// bytes, concurrent or not, give identical objects.
pub proof fn lemma_decode_loose_deterministic(a: Seq<u8>, b: Seq<u8>)
    requires
        a == b,
    ensures
        decode_loose_spec(a) == decode_loose_spec(b),
{
}

} // verus!
