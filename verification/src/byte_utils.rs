//! Turning values into the bytes the heap stores for them.

use vstd::prelude::*;
use vstd::slice::slice_to_vec;
use vstd::string::StrSliceExecFns;
use vstd::utf8::encode_utf8;

verus! {

/// A value that can be laid out as a sequence of bytes.
pub trait BytesConverter {
    /// The byte image of this value.
    spec fn bytes_spec(&self) -> Seq<u8>;

    /// Lays the value out as bytes.
    fn to_bytes(&self) -> (r: Vec<u8>)
        ensures
            r@ == self.bytes_spec(),
    ;
}

impl BytesConverter for String {
    open spec fn bytes_spec(&self) -> Seq<u8> {
        encode_utf8(self@)
    }

    fn to_bytes(&self) -> (r: Vec<u8>)
        ensures
            r@ == self.bytes_spec(),
    {
        self.as_str().as_bytes_vec()
    }
}

impl BytesConverter for u8 {
    open spec fn bytes_spec(&self) -> Seq<u8> {
        seq![*self]
    }

    fn to_bytes(&self) -> (r: Vec<u8>)
        ensures
            r@ == self.bytes_spec(),
    {
        let mut v: Vec<u8> = Vec::new();
        v.push(*self);
        proof {
            assert(v@ =~= seq![*self]);
        }
        v
    }
}

impl BytesConverter for &str {
    open spec fn bytes_spec(&self) -> Seq<u8> {
        encode_utf8((*self)@)
    }

    fn to_bytes(&self) -> (r: Vec<u8>)
        ensures
            r@ == self.bytes_spec(),
    {
        self.as_bytes_vec()
    }
}

impl BytesConverter for Vec<u8> {
    open spec fn bytes_spec(&self) -> Seq<u8> {
        self@
    }

    fn to_bytes(&self) -> (r: Vec<u8>)
        ensures
            r@ == self.bytes_spec(),
    {
        slice_to_vec(self.as_slice())
    }
}

} // verus!
