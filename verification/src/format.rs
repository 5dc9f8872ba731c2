use vstd::bytes::*;
use vstd::prelude::*;
use vstd::slice::*;

use crate::error::{EngineError, Result};

verus! {

/// Little-endian `u32` held by the four bytes of `s` at `pos`.
pub open spec fn u32_at(s: Seq<u8>, pos: int) -> u32 {
    spec_u32_from_le_bytes(s.subrange(pos, pos + 4))
}

/// Little-endian `u64` held by the eight bytes of `s` at `pos`.
pub open spec fn u64_at(s: Seq<u8>, pos: int) -> u64 {
    spec_u64_from_le_bytes(s.subrange(pos, pos + 8))
}

/// Little-endian bytes of a `u32`.
pub open spec fn u32_le(v: u32) -> Seq<u8> {
    spec_u32_to_le_bytes(v)
}

/// Little-endian bytes of a `u64`.
pub open spec fn u64_le(v: u64) -> Seq<u8> {
    spec_u64_to_le_bytes(v)
}

/// The error a decoder reports when `n` bytes cannot be taken at `pos`
/// from an input of `len` bytes.
pub open spec fn take_error(pos: int, n: int) -> EngineError {
    if pos + n > usize::MAX {
        EngineError::CorruptFormat("decoder cursor overflow")
    } else {
        EngineError::CorruptFormat("truncated bytes")
    }
}

/// The little-endian encodings of integers have the announced lengths and
/// decode back to the integers they encode.
pub proof fn lemma_le_round_trip()
    ensures
        forall|v: u32| #[trigger] u32_le(v).len() == 4 && u32_at(u32_le(v), 0) == v,
        forall|v: u64| #[trigger] u64_le(v).len() == 8 && u64_at(u64_le(v), 0) == v,
{
    lemma_auto_spec_u32_to_from_le_bytes();
    lemma_auto_spec_u64_to_from_le_bytes();
    assert forall|v: u32| #[trigger] u32_le(v).len() == 4 && u32_at(u32_le(v), 0) == v by {
        assert(u32_le(v).subrange(0, 4) =~= u32_le(v));
    }
    assert forall|v: u64| #[trigger] u64_le(v).len() == 8 && u64_at(u64_le(v), 0) == v by {
        assert(u64_le(v).subrange(0, 8) =~= u64_le(v));
    }
}

/// Appends the bytes of `s` to `v`.
pub fn push_bytes(v: &mut Vec<u8>, s: &[u8])
    ensures
        final(v)@ == old(v)@ + s@,
{
    let mut i: usize = 0;
    while i < s.len()
        invariant
            0 <= i <= s@.len(),
            v@ == old(v)@ + s@.subrange(0, i as int),
        decreases s@.len() - i,
    {
        v.push(s[i]);
        i = i + 1;
        assert(v@ =~= old(v)@ + s@.subrange(0, i as int));
    }
    assert(s@.subrange(0, s@.len() as int) =~= s@);
}

/// A copy of a byte slice as an owned vector.
pub fn copy_bytes(s: &[u8]) -> (r: Vec<u8>)
    ensures
        r@ == s@,
{
    slice_to_vec(s)
}

/// Builds a byte string by appending integers and byte runs.
pub struct Encoder {
    bytes: Vec<u8>,
}

impl View for Encoder {
    type V = Seq<u8>;

    closed spec fn view(&self) -> Seq<u8> {
        self.bytes@
    }
}

impl Encoder {
    /// An encoder that holds no bytes.
    pub fn new() -> (e: Self)
        ensures
            e@ == Seq::<u8>::empty(),
    {
        Encoder { bytes: Vec::new() }
    }

    /// An encoder that holds no bytes, with room reserved for `capacity`.
    pub fn with_capacity(capacity: usize) -> (e: Self)
        ensures
            e@ == Seq::<u8>::empty(),
    {
        Encoder { bytes: Vec::with_capacity(capacity) }
    }

    /// Appends one byte.
    pub fn write_u8(&mut self, value: u8)
        ensures
            final(self)@ == old(self)@.push(value),
    {
        self.bytes.push(value);
    }

    /// Appends the four little-endian bytes of `value`.
    pub fn write_u32(&mut self, value: u32)
        ensures
            final(self)@ == old(self)@ + u32_le(value),
    {
        let b = u32_to_le_bytes(value);
        push_bytes(&mut self.bytes, b.as_slice());
    }

    /// Appends the eight little-endian bytes of `value`.
    pub fn write_u64(&mut self, value: u64)
        ensures
            final(self)@ == old(self)@ + u64_le(value),
    {
        let b = u64_to_le_bytes(value);
        push_bytes(&mut self.bytes, b.as_slice());
    }

    /// Appends `bytes` as they are.
    pub fn write_bytes(&mut self, bytes: &[u8])
        ensures
            final(self)@ == old(self)@ + bytes@,
    {
        push_bytes(&mut self.bytes, bytes);
    }

    /// The bytes written so far.
    pub fn finish(self) -> (r: Vec<u8>)
        ensures
            r@ == self@,
    {
        self.bytes
    }
}

/// Reads integers and byte runs from a byte slice, front to back.
pub struct Decoder<'a> {
    bytes: &'a [u8],
    position: usize,
}

impl<'a> Decoder<'a> {
    #[verifier::type_invariant]
    closed spec fn inv(self) -> bool {
        self.position <= self.bytes@.len()
    }

    /// The whole input.
    pub closed spec fn data(&self) -> Seq<u8> {
        self.bytes@
    }

    /// The cursor: how many bytes have been consumed.
    pub closed spec fn pos(&self) -> int {
        self.position as int
    }

    /// The bytes not yet consumed.
    pub open spec fn rest(&self) -> Seq<u8> {
        self.data().subrange(self.pos(), self.data().len() as int)
    }

    /// A decoder at the start of `bytes`.
    pub fn new(bytes: &'a [u8]) -> (d: Self)
        ensures
            d.data() == bytes@,
            d.pos() == 0,
    {
        Decoder { bytes, position: 0 }
    }

    /// The number of bytes consumed.
    pub fn position(&self) -> (r: usize)
        ensures
            r == self.pos(),
    {
        self.position
    }

    /// The number of bytes not yet consumed.
    pub fn remaining(&self) -> (r: usize)
        ensures
            r == self.data().len() - self.pos(),
    {
        proof {
            use_type_invariant(self);
        }
        self.bytes.len() - self.position
    }

    /// Whether every byte has been consumed.
    pub fn is_finished(&self) -> (r: bool)
        ensures
            r == (self.pos() == self.data().len()),
    {
        self.remaining() == 0
    }

    /// Consumes one byte.
    pub fn read_u8(&mut self) -> (r: Result<u8>)
        ensures
            final(self).data() == old(self).data(),
            0 <= old(self).pos() <= old(self).data().len(),
            final(self).pos() <= final(self).data().len(),
            old(self).pos() < old(self).data().len() ==> {
                &&& r == Ok::<u8, EngineError>(old(self).data()[old(self).pos()])
                &&& final(self).pos() == old(self).pos() + 1
            },
            old(self).pos() == old(self).data().len() ==> {
                &&& r == Err::<u8, EngineError>(EngineError::CorruptFormat("truncated u8"))
                &&& final(self).pos() == old(self).pos()
            },
    {
        proof {
            use_type_invariant(&*self);
        }
        if self.position < self.bytes.len() {
            let value = self.bytes[self.position];
            self.position = self.position + 1;
            Ok(value)
        } else {
            Err(EngineError::CorruptFormat("truncated u8"))
        }
    }

    /// Consumes `len` bytes and returns them.
    pub fn read_bytes(&mut self, len: usize) -> (r: Result<&'a [u8]>)
        ensures
            final(self).data() == old(self).data(),
            0 <= old(self).pos() <= old(self).data().len(),
            final(self).pos() <= final(self).data().len(),
            old(self).pos() + len <= old(self).data().len() ==> {
                &&& r matches Ok(s) && s@ == old(self).data().subrange(
                    old(self).pos(),
                    old(self).pos() + len,
                )
                &&& final(self).pos() == old(self).pos() + len
            },
            old(self).pos() + len > old(self).data().len() ==> {
                &&& r == Err::<&'a [u8], EngineError>(take_error(old(self).pos(), len as int))
                &&& final(self).pos() == old(self).pos()
            },
    {
        proof {
            use_type_invariant(&*self);
        }
        let total = self.bytes.len();
        let end = match self.position.checked_add(len) {
            Some(end) => end,
            None => {
                return Err(EngineError::CorruptFormat("decoder cursor overflow"));
            },
        };
        if end > total {
            return Err(EngineError::CorruptFormat("truncated bytes"));
        }
        let slice = slice_subrange(self.bytes, self.position, end);
        self.position = end;
        Ok(slice)
    }

    /// Consumes four bytes and reads them as a little-endian `u32`.
    pub fn read_u32(&mut self) -> (r: Result<u32>)
        ensures
            final(self).data() == old(self).data(),
            0 <= old(self).pos() <= old(self).data().len(),
            final(self).pos() <= final(self).data().len(),
            old(self).pos() + 4 <= old(self).data().len() ==> {
                &&& r == Ok::<u32, EngineError>(u32_at(old(self).data(), old(self).pos()))
                &&& final(self).pos() == old(self).pos() + 4
            },
            old(self).pos() + 4 > old(self).data().len() ==> {
                &&& r == Err::<u32, EngineError>(take_error(old(self).pos(), 4))
                &&& final(self).pos() == old(self).pos()
            },
    {
        let bytes = self.read_bytes(4)?;
        Ok(u32_from_le_bytes(bytes))
    }

    /// Consumes eight bytes and reads them as a little-endian `u64`.
    pub fn read_u64(&mut self) -> (r: Result<u64>)
        ensures
            final(self).data() == old(self).data(),
            0 <= old(self).pos() <= old(self).data().len(),
            final(self).pos() <= final(self).data().len(),
            old(self).pos() + 8 <= old(self).data().len() ==> {
                &&& r == Ok::<u64, EngineError>(u64_at(old(self).data(), old(self).pos()))
                &&& final(self).pos() == old(self).pos() + 8
            },
            old(self).pos() + 8 > old(self).data().len() ==> {
                &&& r == Err::<u64, EngineError>(take_error(old(self).pos(), 8))
                &&& final(self).pos() == old(self).pos()
            },
    {
        let bytes = self.read_bytes(8)?;
        Ok(u64_from_le_bytes(bytes))
    }

    /// Consumes a record framed by its little-endian `u32` length and
    /// returns the record's bytes.
    pub fn read_record(&mut self) -> (r: Result<&'a [u8]>)
        ensures
            final(self).data() == old(self).data(),
            final(self).pos() <= final(self).data().len(),
            ({
                let d = old(self).data();
                let p = old(self).pos();
                if p + 4 > d.len() {
                    &&& r == Err::<&'a [u8], EngineError>(take_error(p, 4))
                    &&& final(self).pos() == p
                } else if p + 4 + u32_at(d, p) > d.len() {
                    &&& r == Err::<&'a [u8], EngineError>(take_error(p + 4, u32_at(d, p) as int))
                    &&& final(self).pos() == p + 4
                } else {
                    &&& r matches Ok(s) && s@ == d.subrange(p + 4, p + 4 + u32_at(d, p))
                    &&& final(self).pos() == p + 4 + u32_at(d, p)
                }
            }),
    {
        let record_len = self.read_u32()? as usize;
        self.read_bytes(record_len)
    }
}

} // verus!
