//! Content addresses: BLAKE3 digests of byte strings.

use vstd::prelude::*;
use vstd::utf8::encode_utf8;

use crate::text::{hex_lower, push_hex};

verus! {

/// The BLAKE3 digest of a byte string (32 bytes).
pub uninterp spec fn blake3_digest(data: Seq<u8>) -> Seq<u8>;

/// A content address: the 32-byte BLAKE3 digest of some byte string.
#[derive(Clone, Copy, Debug, Hash)]
pub struct UorAddress {
    pub bytes: [u8; 32],
}

impl View for UorAddress {
    type V = Seq<u8>;

    open spec fn view(&self) -> Seq<u8> {
        self.bytes@
    }
}

/// Calls `blake3::hash` and keeps the raw digest bytes.
/// Trusted: the returned bytes are the BLAKE3 digest of `data`; nothing else is claimed.
#[verifier::external_body]
pub fn address_of(data: &[u8]) -> (addr: UorAddress)
    ensures
        addr@ == blake3_digest(data@),
{
    UorAddress { bytes: *blake3::hash(data).as_bytes() }
}

impl PartialEq for UorAddress {
    fn eq(&self, other: &Self) -> (r: bool) {
        let mut i: usize = 0;
        while i < 32
            invariant
                i <= 32,
                forall|j: int| 0 <= j < i ==> self.bytes@[j] == other.bytes@[j],
            decreases 32 - i,
        {
            if self.bytes[i] != other.bytes[i] {
                return false;
            }
            i = i + 1;
        }
        assert(self.bytes@ =~= other.bytes@);
        true
    }
}

impl Eq for UorAddress {}

impl vstd::std_specs::cmp::PartialEqSpecImpl for UorAddress {
    open spec fn obeys_eq_spec() -> bool {
        true
    }

    open spec fn eq_spec(&self, other: &Self) -> bool {
        self@ == other@
    }
}

/// The address of a string: the digest of its UTF-8 bytes.
pub fn address_of_str(s: &str) -> (addr: UorAddress)
    ensures
        addr@ == blake3_digest(encode_utf8(s@)),
{
    address_of(s.as_bytes())
}

impl UorAddress {
    /// Lowercase hexadecimal form of the digest (64 characters).
    pub fn to_hex(&self) -> (r: String)
        ensures
            r@ == hex_lower(self@),
    {
        let mut s = String::new();
        push_hex(&mut s, self.bytes.as_slice());
        s
    }

    /// Lowercase hexadecimal form of the first four digest bytes (8 characters).
    pub fn short_hex(&self) -> (r: String)
        ensures
            r@ == hex_lower(self@.take(4)),
    {
        let mut s = String::new();
        let head: [u8; 4] = [self.bytes[0], self.bytes[1], self.bytes[2], self.bytes[3]];
        assert(head@ =~= self@.take(4));
        push_hex(&mut s, head.as_slice());
        s
    }
}

} // verus!
