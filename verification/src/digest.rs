//! The 256-bit content fingerprint of a bundle.
//!
//! A digest is computed out-of-band by the bundle's producer and never
//! recomputed by this layer; here it is only decoded from and encoded to
//! lowercase hexadecimal text, carried as ASCII bytes.

use vstd::prelude::*;

verus! {

/// The number of bytes in a digest.
pub const DIGEST_LEN: usize = 32;

/// A lowercase hexadecimal digit, as an ASCII byte.
pub open spec fn is_lower_hex(b: u8) -> bool {
    (0x30 <= b <= 0x39) || (0x61 <= b <= 0x66)
}

/// The value of a lowercase hexadecimal digit.
pub open spec fn hex_val(b: u8) -> nat
    recommends
        is_lower_hex(b),
{
    if b <= 0x39 {
        (b - 0x30) as nat
    } else {
        (b - 0x57) as nat
    }
}

/// Text that encodes a whole digest: exactly 64 lowercase hexadecimal
/// digits.
pub open spec fn is_hex_digest(text: Seq<u8>) -> bool {
    text.len() == 64 && forall|i: int| 0 <= i < text.len() ==> is_lower_hex(#[trigger] text[i])
}

/// The bytes a run of hexadecimal digit pairs encodes.
pub open spec fn decode_hex(text: Seq<u8>) -> Seq<u8> {
    Seq::new((text.len() / 2) as nat, |i: int| ((hex_val(text[2 * i]) * 16 + hex_val(
        text[2 * i + 1],
    )) % 256) as u8)
}

/// The ASCII byte of a lowercase hexadecimal digit.
pub open spec fn hex_byte(v: nat) -> u8
    recommends
        v < 16,
{
    if v < 10 {
        (0x30 + v) as u8
    } else {
        (0x57 + v) as u8
    }
}

/// The lowercase hexadecimal text that encodes the given bytes.
pub open spec fn encode_hex(bytes: Seq<u8>) -> Seq<u8> {
    Seq::new((bytes.len() * 2) as nat, |i: int| if i % 2 == 0 {
        hex_byte(bytes[i / 2] as nat / 16)
    } else {
        hex_byte(bytes[i / 2] as nat % 16)
    })
}

/// A 256-bit content fingerprint: 32 bytes, equality-comparable,
/// encodable to and decodable from lowercase hexadecimal.
#[derive(Debug, PartialEq, Eq)]
pub struct DigestData {
    bytes: Vec<u8>,
}

impl View for DigestData {
    type V = Seq<u8>;

    closed spec fn view(&self) -> Seq<u8> {
        self.bytes@
    }
}

impl DigestData {
    /// Every digest holds exactly `DIGEST_LEN` bytes.
    pub open spec fn wf(&self) -> bool {
        self@.len() == DIGEST_LEN
    }

    /// Wrap raw digest bytes.
    pub fn new(bytes: Vec<u8>) -> (d: DigestData)
        requires
            bytes@.len() == DIGEST_LEN,
        ensures
            d@ == bytes@,
            d.wf(),
    {
        DigestData { bytes }
    }

    /// The raw digest bytes.
    pub fn bytes(&self) -> (r: &Vec<u8>)
        ensures
            r@ == self@,
    {
        &self.bytes
    }

    /// Decode a digest from text: accepted exactly when the text is 64
    /// lowercase hexadecimal digits.
    pub fn from_hex(text: &Vec<u8>) -> (r: Option<DigestData>)
        ensures
            r is Some <==> is_hex_digest(text@),
            r matches Some(d) ==> d@ == decode_hex(text@) && d.wf(),
    {
        if text.len() != 64 {
            return None;
        }
        let mut out: Vec<u8> = Vec::new();
        let mut i: usize = 0;
        while i < 32
            invariant
                i <= 32,
                text@.len() == 64,
                out@.len() == i,
                forall|j: int| 0 <= j < 2 * i ==> is_lower_hex(#[trigger] text@[j]),
                forall|j: int| 0 <= j < i ==> out@[j] == decode_hex(text@)[j],
            decreases 32 - i,
        {
            let hi = text[2 * i];
            let lo = text[2 * i + 1];
            let hv = if 0x30 <= hi && hi <= 0x39 {
                hi - 0x30
            } else if 0x61 <= hi && hi <= 0x66 {
                hi - 0x57
            } else {
                return None;
            };
            let lv = if 0x30 <= lo && lo <= 0x39 {
                lo - 0x30
            } else if 0x61 <= lo && lo <= 0x66 {
                lo - 0x57
            } else {
                return None;
            };
            out.push(hv * 16 + lv);
            i += 1;
        }
        proof {
            assert(out@ =~= decode_hex(text@));
        }
        Some(DigestData { bytes: out })
    }

    /// Encode the digest as 64 bytes of lowercase hexadecimal text.
    pub fn to_hex(&self) -> (r: Vec<u8>)
        ensures
            r@ == encode_hex(self@),
    {
        let mut out: Vec<u8> = Vec::new();
        let mut i: usize = 0;
        while i < self.bytes.len()
            invariant
                i <= self@.len(),
                out@.len() == 2 * i,
                forall|j: int| 0 <= j < 2 * i ==> out@[j] == encode_hex(self@)[j],
            decreases self@.len() - i,
        {
            let b = self.bytes[i];
            let hv = b / 16;
            let lv = b % 16;
            let hc = if hv < 10 {
                0x30 + hv
            } else {
                0x57 + hv
            };
            let lc = if lv < 10 {
                0x30 + lv
            } else {
                0x57 + lv
            };
            out.push(hc);
            out.push(lc);
            proof {
                assert(encode_hex(self@)[2 * i] == hex_byte(self@[i as int] as nat / 16));
                assert(encode_hex(self@)[2 * i + 1] == hex_byte(self@[i as int] as nat % 16));
            }
            i += 1;
        }
        proof {
            assert(out@ =~= encode_hex(self@));
        }
        out
    }
}

/// Decoding inverts encoding: a digest survives a round trip through its
/// hexadecimal text form.
pub proof fn lemma_hex_round_trip(bytes: Seq<u8>)
    ensures
        is_hex_digest(encode_hex(bytes)) <== bytes.len() == 32,
        decode_hex(encode_hex(bytes)) == bytes,
{
    let text = encode_hex(bytes);
    assert forall|i: int| 0 <= i < text.len() implies is_lower_hex(#[trigger] text[i]) by {
        if i % 2 == 0 {
            assert(text[i] == hex_byte(bytes[i / 2] as nat / 16));
        } else {
            assert(text[i] == hex_byte(bytes[i / 2] as nat % 16));
        }
    }
    assert forall|i: int| 0 <= i < bytes.len() implies decode_hex(text)[i] == bytes[i] by {
        assert(text[2 * i] == hex_byte(bytes[i] as nat / 16));
        assert(text[2 * i + 1] == hex_byte(bytes[i] as nat % 16));
        assert(hex_val(hex_byte(bytes[i] as nat / 16)) == bytes[i] as nat / 16);
        assert(hex_val(hex_byte(bytes[i] as nat % 16)) == bytes[i] as nat % 16);
    }
    assert(decode_hex(text) =~= bytes);
}

} // verus!
