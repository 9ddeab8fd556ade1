//! A forward-only cursor over a byte buffer, and text out of bytes.

use vstd::prelude::*;

verus! {

/// Bytes that are consumed from the front, the in-memory counterpart of a
/// readable stream.
pub struct ByteReader {
    data: Vec<u8>,
    pos: usize,
}

impl View for ByteReader {
    type V = Seq<u8>;

    /// The bytes that have not been consumed yet.
    closed spec fn view(&self) -> Seq<u8> {
        self.data@.skip(self.pos as int)
    }
}

impl ByteReader {
    #[verifier::type_invariant]
    spec fn well_formed(&self) -> bool {
        self.pos <= self.data@.len()
    }

    /// A reader positioned at the first byte of `data`.
    pub fn new(data: Vec<u8>) -> (reader: Self)
        ensures
            reader@ == data@,
    {
        ByteReader { data, pos: 0 }
    }

    /// The number of bytes left.
    pub fn remaining(&self) -> (n: usize)
        ensures
            n == self@.len(),
    {
        proof {
            use_type_invariant(self);
        }
        self.data.len() - self.pos
    }

    /// Consumes one byte; at the end of the data nothing is consumed.
    pub fn read_u8(&mut self) -> (byte: Option<u8>)
        ensures
            old(self)@.len() == 0 ==> byte.is_none() && final(self)@ == old(self)@,
            old(self)@.len() > 0 ==> byte == Some(old(self)@[0]) && final(self)@ == old(self)@.skip(1),
    {
        proof {
            use_type_invariant(&*self);
        }
        if self.pos < self.data.len() {
            let byte = self.data[self.pos];
            self.pos = self.pos + 1;
            assert(self.data@.skip(self.pos as int) =~= self.data@.skip(self.pos - 1).skip(1));
            Some(byte)
        } else {
            None
        }
    }

    /// Consumes exactly `count` bytes, or nothing when fewer are left.
    pub fn read_exact(&mut self, count: usize) -> (bytes: Option<Vec<u8>>)
        ensures
            count <= old(self)@.len() ==> bytes.is_some() && bytes.unwrap()@ == old(self)@.take(
                count as int,
            ) && final(self)@ == old(self)@.skip(count as int),
            count > old(self)@.len() ==> bytes.is_none() && final(self)@ == old(self)@,
    {
        proof {
            use_type_invariant(&*self);
        }
        if count > self.data.len() - self.pos {
            return None;
        }
        let ghost before = self@;
        let mut out: Vec<u8> = Vec::with_capacity(count);
        let mut i: usize = 0;
        while i < count
            invariant
                i <= count,
                self.pos + count <= self.data@.len() <= usize::MAX,
                out@ == self.data@.subrange(self.pos as int, self.pos + i),
            decreases count - i,
        {
            out.push(self.data[self.pos + i]);
            i = i + 1;
            assert(out@ =~= self.data@.subrange(self.pos as int, self.pos + i));
        }
        assert(out@ =~= before.take(count as int));
        self.pos = self.pos + count;
        assert(self.data@.skip(self.pos as int) =~= before.skip(count as int));
        Some(out)
    }
}

/// Calls `String::from_utf8`, which gives the text that the bytes encode
/// where they are valid UTF-8 and an error where they are not.
#[verifier::external_body]
pub(crate) fn string_from_utf8(bytes: Vec<u8>) -> (text: Option<String>)
    ensures
        text.is_some() == vstd::utf8::valid_utf8(bytes@),
        text.is_some() ==> text.unwrap()@ == vstd::utf8::decode_utf8(bytes@),
{
    String::from_utf8(bytes).ok()
}

} // verus!
