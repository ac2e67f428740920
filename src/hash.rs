use vstd::prelude::*;
use bitcoin::hashes::sha256;
use bitcoin::hex::DisplayHex;
use bitcoin::hex::FromHex;

verus! {

/// A 256-bit digest, the output of SHA-256.
#[derive(Clone, Copy, Debug)]
pub struct NodeHash(pub [u8; 32]);

impl View for NodeHash {
    type V = Seq<u8>;

    open spec fn view(&self) -> Seq<u8> {
        self.0@
    }
}

/// The error returned when a digest is read from malformed hex text.
#[derive(Debug)]
pub struct FormatError;

/// The SHA-256 digest of a byte string.
pub uninterp spec fn sha256_of(data: Seq<u8>) -> Seq<u8>;

/// Relies on `bitcoin::hashes::sha256::Hash::hash`: the SHA-256 digest of the
/// bytes, which depends on the bytes alone.
#[verifier::external_body]
pub(crate) fn sha256(data: &Vec<u8>) -> (r: [u8; 32])
    ensures
        r@ == sha256_of(data@),
{
    let digest = <sha256::Hash as bitcoin::hashes::Hash>::hash(data.as_slice());
    <sha256::Hash as bitcoin::hashes::Hash>::to_byte_array(digest)
}

/// The eight bytes of `x`, most significant first.
pub open spec fn be64(x: u64) -> Seq<u8> {
    seq![
        (x >> 56u64) as u8,
        (x >> 48u64) as u8,
        (x >> 40u64) as u8,
        (x >> 32u64) as u8,
        (x >> 24u64) as u8,
        (x >> 16u64) as u8,
        (x >> 8u64) as u8,
        x as u8,
    ]
}

/// Appends the big-endian encoding of `x` to `out`.
pub fn push_be64(out: &mut Vec<u8>, x: u64)
    ensures
        final(out)@ == old(out)@ + be64(x),
{
    out.push((x >> 56u64) as u8);
    out.push((x >> 48u64) as u8);
    out.push((x >> 40u64) as u8);
    out.push((x >> 32u64) as u8);
    out.push((x >> 24u64) as u8);
    out.push((x >> 16u64) as u8);
    out.push((x >> 8u64) as u8);
    out.push(x as u8);
    assert(final(out)@ =~= old(out)@ + be64(x));
}

/// Appends the 32 bytes of `b` to `out`.
pub fn push_bytes(out: &mut Vec<u8>, b: &[u8; 32])
    ensures
        final(out)@ == old(out)@ + b@,
{
    let ghost start = out@;
    let mut i: usize = 0;
    while i < 32
        invariant
            0 <= i <= 32,
            b@.len() == 32,
            out@ == start + b@.subrange(0, i as int),
        decreases 32 - i,
    {
        out.push(b[i]);
        i = i + 1;
        assert(out@ =~= start + b@.subrange(0, i as int));
    }
    assert(b@.subrange(0, 32) =~= b@);
}


/// The lowercase hex digit for a value below 16.
pub open spec fn hex_digit(n: int) -> char {
    seq!['0', '1', '2', '3', '4', '5', '6', '7', '8', '9', 'a', 'b', 'c', 'd', 'e', 'f'][n]
}

/// Whether `c` is a hex digit, in either case.
pub open spec fn is_hex_digit(c: char) -> bool {
    ('0' <= c && c <= '9') || ('a' <= c && c <= 'f') || ('A' <= c && c <= 'F')
}

/// The value of a hex digit.
pub open spec fn hex_value(c: char) -> int {
    if '0' <= c && c <= '9' {
        c as int - '0' as int
    } else if 'a' <= c && c <= 'f' {
        c as int - 'a' as int + 10
    } else {
        c as int - 'A' as int + 10
    }
}

/// Lowercase hex text of a byte string: two digits per byte, high half first.
pub open spec fn hex_of(b: Seq<u8>) -> Seq<char> {
    Seq::new(2 * b.len(), |i: int| if i % 2 == 0 { hex_digit(b[i / 2] as int / 16) } else { hex_digit(b[i / 2] as int % 16) })
}

/// Whether `s` is the hex text of a 32-byte string.
pub open spec fn is_hex32(s: Seq<char>) -> bool {
    s.len() == 64 && forall|i: int| 0 <= i < 64 ==> is_hex_digit(#[trigger] s[i])
}

/// The bytes that hex text `s` stands for.
pub open spec fn bytes_of_hex(s: Seq<char>) -> Seq<u8> {
    Seq::new(s.len() / 2, |i: int| (16 * hex_value(s[2 * i]) + hex_value(s[2 * i + 1])) as u8)
}

/// Relies on `DisplayHex::as_hex` of bitcoin's hex crate: lowercase digits,
/// two per byte, high half first.
#[verifier::external_body]
fn hex_lower(b: &[u8; 32]) -> (r: String)
    ensures
        r@ == hex_of(b@),
{
    b.as_hex().to_string()
}

/// Relies on `FromHex::from_hex` for `[u8; 32]` of bitcoin's hex crate: it
/// succeeds exactly on 64 hex digits of either case, each pair giving a byte.
#[verifier::external_body]
fn decode_hex32(s: &str) -> (r: Option<[u8; 32]>)
    ensures
        r.is_some() == is_hex32(s@),
        r.is_some() ==> r.unwrap()@ == bytes_of_hex(s@),
{
    <[u8; 32] as FromHex>::from_hex(s).ok()
}

impl NodeHash {
    /// Wraps 32 bytes as a digest.
    pub fn new(b: [u8; 32]) -> (r: NodeHash)
        ensures
            r@ == b@,
    {
        NodeHash(b)
    }

    /// Reads a digest from 64 hex digits.
    pub fn parse(s: &str) -> (r: Result<NodeHash, FormatError>)
        ensures
            r.is_ok() == is_hex32(s@),
            r.is_ok() ==> r.unwrap()@ == bytes_of_hex(s@),
    {
        match decode_hex32(s) {
            Some(b) => Ok(NodeHash(b)),
            None => Err(FormatError),
        }
    }

    /// The digest as 64 lowercase hex digits.
    pub fn to_hex(&self) -> (r: String)
        ensures
            r@ == hex_of(self@),
    {
        hex_lower(&self.0)
    }

    /// Whether two digests hold the same bytes.
    pub fn same_as(&self, other: &NodeHash) -> (r: bool)
        ensures
            r == (self@ == other@),
    {
        let mut i: usize = 0;
        while i < 32
            invariant
                0 <= i <= 32,
                self@.len() == 32,
                other@.len() == 32,
                forall|j: int| 0 <= j < i ==> self@[j] == other@[j],
            decreases 32 - i,
        {
            if self.0[i] != other.0[i] {
                return false;
            }
            i = i + 1;
        }
        assert(self@ =~= other@);
        true
    }
}

impl Default for NodeHash {
    /// The all-zero digest, used only as a placeholder.
    fn default() -> (r: NodeHash)
        ensures
            r@ == Seq::new(32, |i: int| 0u8),
    {
        let r = NodeHash([0u8; 32]);
        assert(r@ =~= Seq::new(32, |i: int| 0u8));
        r
    }
}

proof fn lemma_hex_digit_value(n: int)
    requires
        0 <= n < 16,
    ensures
        is_hex_digit(hex_digit(n)),
        hex_value(hex_digit(n)) == n,
{
}

/// Reading back the hex text of a digest gives the digest: the text is valid
/// and decodes to the same 32 bytes.
pub proof fn lemma_hex_round_trip(h: NodeHash)
    ensures
        is_hex32(hex_of(h@)),
        bytes_of_hex(hex_of(h@)) == h@,
{
    let s = hex_of(h@);
    assert forall|i: int| 0 <= i < 64 implies is_hex_digit(#[trigger] s[i]) by {
        if i % 2 == 0 {
            lemma_hex_digit_value(h@[i / 2] as int / 16);
        } else {
            lemma_hex_digit_value(h@[i / 2] as int % 16);
        }
    }
    assert forall|i: int| 0 <= i < 32 implies #[trigger] bytes_of_hex(s)[i] == h@[i] by {
        let b = h@[i] as int;
        assert((2 * i) / 2 == i);
        assert((2 * i + 1) / 2 == i);
        assert((2 * i) % 2 == 0);
        assert((2 * i + 1) % 2 == 1);
        lemma_hex_digit_value(b / 16);
        lemma_hex_digit_value(b % 16);
        assert(16 * (b / 16) + b % 16 == b);
    }
    assert(bytes_of_hex(s) =~= h@);
}

} // verus!
