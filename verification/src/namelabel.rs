//! Privacy-preserving name labels. A label accumulates path segments by
//! hashing, so deriving a child label from a parent label and a segment is
//! deterministic and one-way: the stored digests leak nothing usable about
//! the segments that produced them.

use crate::crypto::{digest_of, sha256, DIGEST_LEN};
use crate::util::{append_bytes, copy_bytes};
use vstd::prelude::*;
use vstd::string::*;

verus! {

/// Hash-combining a 32-byte accumulator state with a byte string: the single
/// derivation step shared by name labels and the capability key chain.
pub open spec fn spec_combine(acc: Seq<u8>, data: Seq<u8>) -> Seq<u8> {
    digest_of(acc + data)
}

/// An accumulator value standing for a path position.
pub struct Name {
    pub(crate) acc: Vec<u8>,
}

impl View for Name {
    type V = Seq<u8>;

    closed spec fn view(&self) -> Seq<u8> {
        self.acc@
    }
}

impl Name {
    pub open spec fn wf(self) -> bool {
        self@.len() == DIGEST_LEN
    }

    /// The child label of this label under a path segment: deterministic,
    /// and infeasible to invert back to the segment.
    pub fn derive(&self, segment: &str) -> (r: Name)
        requires
            self.wf(),
        ensures
            r.wf(),
            r@ == spec_combine(self@, segment.spec_bytes()),
    {
        let mut material = copy_bytes(self.acc.as_slice());
        append_bytes(&mut material, segment.as_bytes());
        Name { acc: sha256(material.as_slice()) }
    }

    /// The fixed-width forest lookup key of this label.
    pub fn digest(&self) -> (r: Vec<u8>)
        requires
            self.wf(),
        ensures
            r@ == digest_of(self@),
            r@.len() == DIGEST_LEN,
    {
        sha256(self.acc.as_slice())
    }

    pub fn duplicate(&self) -> (r: Name)
        ensures
            r@ == self@,
    {
        Name { acc: copy_bytes(self.acc.as_slice()) }
    }

    pub(crate) fn from_acc(acc: Vec<u8>) -> (r: Name)
        ensures
            r@ == acc@,
    {
        Name { acc }
    }
}

/// One step of the capability key chain: the key of a child node is derived
/// from its parent's key and its entry name, so holding a directory's key
/// grants decryption of everything linked beneath it.
pub fn derive_key(parent_key: &[u8], segment: &str) -> (r: Vec<u8>)
    ensures
        r@ == spec_combine(parent_key@, segment.spec_bytes()),
        r@.len() == DIGEST_LEN,
{
    let mut material = copy_bytes(parent_key);
    append_bytes(&mut material, segment.as_bytes());
    sha256(material.as_slice())
}

} // verus!
