//! Caller identities: opaque, externally verified principals held in their
//! canonical byte form.

use vstd::prelude::*;

verus! {

/// The byte form of the anonymous principal: the single byte 0x04. A caller
/// with this identity is never an authenticated caller.
pub open spec fn anonymous_bytes() -> Seq<u8> {
    seq![4u8]
}

/// The identity of a caller: an opaque identifier, already verified by the
/// hosting environment, held as its canonical byte form. Identities are
/// compared by their bytes.
#[derive(Debug)]
pub struct CallerId {
    bytes: Vec<u8>,
}

impl View for CallerId {
    type V = Seq<u8>;

    closed spec fn view(&self) -> Seq<u8> {
        self.bytes@
    }
}

impl Clone for CallerId {
    fn clone(&self) -> (r: Self)
        ensures
            r@ == self@,
    {
        let mut out: Vec<u8> = Vec::new();
        let mut i: usize = 0;
        while i < self.bytes.len()
            invariant
                i <= self.bytes.len(),
                out@.len() == i,
                forall|j: int| 0 <= j < i ==> out@[j] == self.bytes@[j],
            decreases self.bytes.len() - i,
        {
            out.push(self.bytes[i]);
            i = i + 1;
        }
        proof {
            assert(out@ =~= self.bytes@);
        }
        CallerId { bytes: out }
    }
}

impl CallerId {
    /// Builds an identity from its canonical byte form.
    pub fn from_bytes(bytes: Vec<u8>) -> (r: CallerId)
        ensures
            r@ == bytes@,
    {
        CallerId { bytes }
    }

    /// Hands the canonical byte form back.
    pub fn into_bytes(self) -> (r: Vec<u8>)
        ensures
            r@ == self@,
    {
        self.bytes
    }

    /// The anonymous sentinel identity.
    pub fn anonymous() -> (r: CallerId)
        ensures
            r@ == anonymous_bytes(),
    {
        let mut bytes: Vec<u8> = Vec::new();
        bytes.push(4u8);
        proof {
            assert(bytes@ =~= anonymous_bytes());
        }
        CallerId { bytes }
    }

    /// Byte-for-byte equality of two identities.
    pub fn equals(&self, other: &CallerId) -> (b: bool)
        ensures
            b == (self@ == other@),
    {
        if self.bytes.len() != other.bytes.len() {
            return false;
        }
        let n = self.bytes.len();
        let mut i: usize = 0;
        while i < n
            invariant
                i <= n,
                n == self.bytes.len(),
                n == other.bytes.len(),
                forall|j: int| 0 <= j < i ==> self.bytes@[j] == other.bytes@[j],
            decreases n - i,
        {
            if self.bytes[i] != other.bytes[i] {
                return false;
            }
            i = i + 1;
        }
        proof {
            assert(self@ =~= other@);
        }
        true
    }

    /// True exactly when this identity is the anonymous sentinel.
    pub fn is_anonymous(&self) -> (b: bool)
        ensures
            b == (self@ == anonymous_bytes()),
    {
        let anon = CallerId::anonymous();
        self.equals(&anon)
    }
}

} // verus!
