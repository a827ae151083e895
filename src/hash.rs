use vstd::prelude::*;
use sha1::Digest;
use vstd::string::StringSliceAdditionalSpecFns;

verus! {

/// A 160-bit object identifier.
#[derive(Debug, Clone, Copy)]
pub struct Hash {
    pub bytes: [u8; 20],
}

impl View for Hash {
    type V = Seq<u8>;

    open spec fn view(&self) -> Seq<u8> {
        self.bytes@
    }
}

impl PartialEq for Hash {
    fn eq(&self, other: &Hash) -> (r: bool)
        ensures
            r == (self@ == other@),
    {
        bytes_equal(self.bytes.as_slice(), other.bytes.as_slice())
    }
}

impl vstd::std_specs::cmp::PartialEqSpecImpl for Hash {
    open spec fn obeys_eq_spec() -> bool {
        true
    }

    open spec fn eq_spec(&self, other: &Hash) -> bool {
        self@ == other@
    }
}

impl Eq for Hash {}

/// Compares two byte strings.
pub fn bytes_equal(a: &[u8], b: &[u8]) -> (r: bool)
    ensures
        r == (a@ == b@),
{
    if a.len() != b.len() {
        return false;
    }
    let mut i: usize = 0;
    while i < a.len()
        invariant
            a@.len() == b@.len(),
            0 <= i <= a@.len(),
            forall|j: int| 0 <= j < i ==> a@[j] == b@[j],
        decreases a@.len() - i,
    {
        if a[i] != b[i] {
            return false;
        }
        i += 1;
    }
    assert(a@ =~= b@);
    true
}

/// The all-zero identifier, the sentinel for "absent".
pub open spec fn zero_id() -> Seq<u8> {
    Seq::new(20, |_i: int| 0u8)
}

/// The lowercase hexadecimal digit for a value below 16.
pub open spec fn hex_digit(v: u8) -> u8 {
    if v < 10 {
        (48 + v) as u8
    } else {
        (87 + v) as u8
    }
}

/// The value of a hexadecimal digit of either case, if `c` is one.
pub open spec fn hex_value(c: u8) -> Option<u8> {
    if 48 <= c <= 57 {
        Some((c - 48) as u8)
    } else if 97 <= c <= 102 {
        Some((c - 87) as u8)
    } else if 65 <= c <= 70 {
        Some((c - 55) as u8)
    } else {
        None
    }
}

/// Two lowercase hexadecimal digits per byte, high nibble first.
pub open spec fn hex_of(b: Seq<u8>) -> Seq<u8> {
    Seq::new(
        2 * b.len(),
        |i: int|
            if i % 2 == 0 {
                hex_digit(b[i / 2] / 16)
            } else {
                hex_digit(b[i / 2] % 16)
            },
    )
}

/// Forty hexadecimal digits.
pub open spec fn is_hex_id(s: Seq<u8>) -> bool {
    s.len() == 40 && forall|i: int| 0 <= i < 40 ==> (#[trigger] hex_value(s[i])).is_some()
}

/// The twenty bytes spelled by forty hexadecimal digits.
pub open spec fn parse_hex_id(s: Seq<u8>) -> Seq<u8> {
    Seq::new(
        20,
        |i: int| (hex_value(s[2 * i]).unwrap() * 16 + hex_value(s[2 * i + 1]).unwrap()) as u8,
    )
}

/// Formatting then parsing an identifier gives it back, and the text is valid.
pub proof fn lemma_hex_round_trip(h: Seq<u8>)
    requires
        h.len() == 20,
    ensures
        is_hex_id(hex_of(h)),
        parse_hex_id(hex_of(h)) == h,
{
    let s = hex_of(h);
    assert forall|i: int| 0 <= i < 40 implies (#[trigger] hex_value(s[i])).is_some() by {
        let b = h[i / 2];
        assert(b / 16 < 16 && b % 16 < 16);
    }
    assert forall|i: int| 0 <= i < 20 implies parse_hex_id(s)[i] == h[i] by {
        let b = h[i];
        assert((2 * i) / 2 == i && (2 * i + 1) / 2 == i);
        assert((2 * i) % 2 == 0 && (2 * i + 1) % 2 == 1);
        assert(hex_value(hex_digit(b / 16)) == Some(b / 16));
        assert(hex_value(hex_digit(b % 16)) == Some(b % 16));
        assert((b / 16) * 16 + b % 16 == b);
    }
    assert(parse_hex_id(s) =~= h);
}

/// Forty lowercase hexadecimal digits.
pub open spec fn is_lower_hex_id(s: Seq<u8>) -> bool {
    s.len() == 40 && forall|i: int| 0 <= i < 40 ==> (48 <= #[trigger] s[i] <= 57 || 97 <= s[i] <= 102)
}

/// Parsing forty lowercase hexadecimal digits and formatting the result gives the same
/// text back.
pub proof fn lemma_hex_text_round_trip(s: Seq<u8>)
    requires
        is_lower_hex_id(s),
    ensures
        is_hex_id(s),
        hex_of(parse_hex_id(s)) == s,
{
    assert forall|i: int| 0 <= i < 40 implies (#[trigger] hex_value(s[i])).is_some() by {}
    let h = parse_hex_id(s);
    assert forall|i: int| 0 <= i < 40 implies #[trigger] hex_of(h)[i] == s[i] by {
        let k = i / 2;
        let hi = hex_value(s[2 * k]).unwrap();
        let lo = hex_value(s[2 * k + 1]).unwrap();
        assert(hi < 16 && lo < 16);
        assert(h[k] == (hi * 16 + lo) as u8);
        assert((hi * 16 + lo) / 16 == hi && (hi * 16 + lo) % 16 == lo) by (nonlinear_arith)
            requires
                hi < 16,
                lo < 16,
        ;
        assert(hex_digit(hi) == s[2 * k]);
        assert(hex_digit(lo) == s[2 * k + 1]);
        if i % 2 == 0 {
            assert(i == 2 * k);
        } else {
            assert(i == 2 * k + 1);
        }
    }
    assert(hex_of(h) =~= s);
}

pub fn hex_digit_value(c: u8) -> (r: Option<u8>)
    ensures
        r == hex_value(c),
{
    if 48 <= c && c <= 57 {
        Some(c - 48)
    } else if 97 <= c && c <= 102 {
        Some(c - 87)
    } else if 65 <= c && c <= 70 {
        Some(c - 55)
    } else {
        None
    }
}

pub fn nibble_digit(v: u8) -> (r: u8)
    requires
        v < 16,
    ensures
        r == hex_digit(v),
{
    if v < 10 {
        48 + v
    } else {
        87 + v
    }
}

impl Hash {
    pub fn new(bytes: [u8; 20]) -> (r: Hash)
        ensures
            r@ == bytes@,
    {
        Hash { bytes }
    }

    /// Takes the identifier held by a 20-byte slice.
    pub fn from_slice(b: &[u8]) -> (r: Hash)
        requires
            b@.len() == 20,
        ensures
            r@ == b@,
    {
        let mut bytes = [0u8; 20];
        let mut i: usize = 0;
        while i < 20
            invariant
                0 <= i <= 20,
                b@.len() == 20,
                bytes@.len() == 20,
                forall|j: int| 0 <= j < i ==> bytes@[j] == b@[j],
            decreases 20 - i,
        {
            bytes[i] = b[i];
            i += 1;
        }
        assert(bytes@ =~= b@);
        Hash { bytes }
    }

    pub fn zero() -> (r: Hash)
        ensures
            r@ == zero_id(),
    {
        let r = Hash { bytes: [0u8; 20] };
        assert(r@ =~= zero_id());
        r
    }

    pub fn is_zero(&self) -> (r: bool)
        ensures
            r == (self@ == zero_id()),
    {
        let z = Hash::zero();
        *self == z
    }

    /// Parses forty hexadecimal digits; any other text is refused.
    pub fn from_hex(hex: &str) -> (r: Option<Hash>)
        ensures
            r.is_some() == is_hex_id(hex.spec_bytes()),
            r.is_some() ==> r.unwrap()@ == parse_hex_id(hex.spec_bytes()),
    {
        Hash::from_hex_bytes(hex.as_bytes())
    }

    /// Parses forty hexadecimal digits given as bytes.
    pub fn from_hex_bytes(s: &[u8]) -> (r: Option<Hash>)
        ensures
            r.is_some() == is_hex_id(s@),
            r.is_some() ==> r.unwrap()@ == parse_hex_id(s@),
    {
        if s.len() != 40 {
            return None;
        }
        let mut bytes = [0u8; 20];
        let mut i: usize = 0;
        while i < 20
            invariant
                0 <= i <= 20,
                s@.len() == 40,
                bytes@.len() == 20,
                forall|j: int| 0 <= j < 2 * i ==> (#[trigger] hex_value(s@[j])).is_some(),
                forall|j: int| 0 <= j < i ==> bytes@[j] == parse_hex_id(s@)[j],
            decreases 20 - i,
        {
            let hi = hex_digit_value(s[2 * i]);
            let lo = hex_digit_value(s[2 * i + 1]);
            match (hi, lo) {
                (Some(h), Some(l)) => {
                    assert(h < 16 && l < 16);
                    bytes[i] = h * 16 + l;
                },
                _ => {
                    assert(!is_hex_id(s@));
                    return None;
                },
            }
            i += 1;
        }
        assert(bytes@ =~= parse_hex_id(s@));
        Some(Hash { bytes })
    }

    pub fn to_bytes(&self) -> (r: [u8; 20])
        ensures
            r@ == self@,
    {
        self.bytes
    }

    /// The first byte, which picks the shard of an object store.
    pub fn first_byte(&self) -> (r: usize)
        ensures
            r == self@[0] as usize,
    {
        self.bytes[0] as usize
    }

    /// Appends the forty lowercase hexadecimal digits of the identifier.
    pub fn write_hex(&self, out: &mut Vec<u8>)
        ensures
            final(out)@ == old(out)@ + hex_of(self@),
    {
        let ghost start = out@;
        let mut i: usize = 0;
        while i < 20
            invariant
                0 <= i <= 20,
                self@.len() == 20,
                out@ == start + hex_of(self@.subrange(0, i as int)),
            decreases 20 - i,
        {
            let b = self.bytes[i];
            out.push(nibble_digit(b / 16));
            out.push(nibble_digit(b % 16));
            proof {
                assert(hex_of(self@.subrange(0, i + 1)) =~= hex_of(self@.subrange(0, i as int)).push(
                    hex_digit(b / 16)).push(hex_digit(b % 16)));
            }
            i += 1;
        }
        assert(self@.subrange(0, 20) =~= self@);
    }

    /// The forty lowercase hexadecimal digits of the identifier.
    pub fn to_hex(&self) -> (r: Vec<u8>)
        ensures
            r@ == hex_of(self@),
    {
        let mut out: Vec<u8> = Vec::new();
        self.write_hex(&mut out);
        assert(out@ =~= hex_of(self@));
        out
    }
}

/// The SHA-1 digest of a byte string.
pub uninterp spec fn sha1_of(data: Seq<u8>) -> Seq<u8>;

/// Relies on sha1's `Sha1::digest`: the 20-byte SHA-1 digest of its input.
#[verifier::external_body]
pub(crate) fn sha1_digest(data: &[u8]) -> (r: [u8; 20])
    ensures
        r@ == sha1_of(data@),
{
    sha1::Sha1::digest(data).into()
}

} // verus!
