use vstd::prelude::*;
use crate::coder::{deep, Buffer, Decoder, Encoder, View, MAX_VECTORED_CHUNK};
use crate::cow::CowSlice;
use crate::error::Error;
use crate::vec::wild_copy;
use vstd::view::View as _;

verus! {

/// Encodes bytes as themselves, one byte each.
pub struct U8Encoder {
    bytes: Vec<u8>,
    room: Ghost<nat>,
}

impl Buffer for U8Encoder {
    closed spec fn wf(&self) -> bool {
        true
    }

    closed spec fn pending(&self) -> Seq<u8> {
        self.bytes@
    }

    closed spec fn room(&self) -> nat {
        self.room@
    }

    closed spec fn same_items(&self, other: &Self) -> bool {
        self.bytes@ == other.bytes@
    }

    closed spec fn is_clear(&self) -> bool {
        self.bytes@.len() == 0
    }

    fn new() -> (r: Self) {
        U8Encoder { bytes: Vec::new(), room: Ghost(0) }
    }

    fn collect_into(&mut self, out: &mut Vec<u8>) {
        out.append(&mut self.bytes);
    }

    fn reserve(&mut self, additional: usize) {
        self.bytes.reserve(additional);
        self.room = Ghost(if self.room@ >= additional { self.room@ } else { additional as nat });
    }
}

impl Encoder<u8> for U8Encoder {
    closed spec fn values(&self) -> Seq<u8> {
        self.bytes@
    }

    open spec fn encoding(values: Seq<u8>) -> Seq<u8> {
        values
    }

    open spec fn encodable(values: Seq<u8>) -> bool {
        true
    }

    proof fn lemma_encoding_empty() {
    }

    proof fn lemma_model(&self) {
    }

    proof fn lemma_same_items(&self, other: &Self) {
    }

    proof fn lemma_clear(&self) {
        assert(self.bytes@ =~= Seq::<u8>::empty());
    }

    open spec fn flat_size() -> Option<usize> {
        Some(1usize)
    }

    fn primitive_size(&self) -> (r: Option<usize>) {
        Some(1)
    }

    fn encode(&mut self, t: &u8) {
        self.bytes.push(*t);
        self.room = Ghost((self.room@ - 1) as nat);
    }

    fn encode_slice(&mut self, items: &[u8]) {
        self.bytes.extend_from_slice(items);
        assert(deep(items@) =~= items@);
    }

    fn encode_block(&mut self, src: &[u8], block: usize) {
        let at = self.bytes.len();
        let n = src.len();
        let mut k: usize = 0;
        while k < block
            invariant
                k <= block,
                self.bytes@.len() == at + k,
                self.bytes@.take(at as int) == old(self).bytes@,
            decreases block - k,
        {
            self.bytes.push(0u8);
            assert(self.bytes@.take(at as int) =~= old(self).bytes@);
            k = k + 1;
        }
        wild_copy(src, &mut self.bytes, at, n, block);
        let total = self.bytes.len();
        assert(at + n <= total);
        assert(src@.take(n as int) =~= src@);
        let ghost copied = self.bytes@;
        self.bytes.truncate(at + n);
        assert(self.bytes@.subrange(at as int, at + n) =~= copied.subrange(at as int, at + n));
        assert(self.bytes@.take(at as int) =~= copied.take(at as int));
        assert(deep(src@) =~= src@);
        assert(self.bytes@ =~= self.bytes@.take(at as int) + self.bytes@.subrange(at as int, at + n));
    }
}

/// Hands out bytes read straight from the input, without copying them.
pub struct U8Decoder<'a> {
    data: CowSlice<'a, u8>,
    pos: usize,
}

impl<'a> View<'a> for U8Decoder<'a> {
    closed spec fn inv(&self) -> bool {
        self.pos <= self.data@.len()
    }

    open spec fn parse_len(input: Seq<u8>, length: nat) -> Option<nat> {
        if length <= input.len() { Some(length) } else { None }
    }

    closed spec fn loaded(&self, input: Seq<u8>, length: nat) -> bool {
        self.data@ == input.take(length as int) && self.pos == 0
    }

    fn new() -> (r: Self) {
        U8Decoder { data: CowSlice::Owned(Vec::new()), pos: 0 }
    }

    fn populate(&mut self, input: &mut &'a [u8], length: usize) -> (r: Result<(), Error>)
        ensures
            length > old(input)@.len() ==> r == Err::<(), Error>(Error::Eof),
    {
        let bytes: &'a [u8] = *input;
        if length > bytes.len() {
            return Err(Error::Eof);
        }
        self.data = CowSlice::Borrowed(vstd::slice::slice_subrange(bytes, 0, length));
        self.pos = 0;
        *input = vstd::slice::slice_subrange(bytes, length, bytes.len());
        assert(input@ =~= old(input)@.skip(length as int));
        Ok(())
    }
}

impl<'a> Decoder<'a, u8> for U8Decoder<'a> {
    closed spec fn remaining(&self) -> Seq<u8> {
        self.data@.skip(self.pos as int)
    }

    open spec fn decoding(input: Seq<u8>, length: nat) -> Seq<u8> {
        input.take(length as int)
    }

    proof fn lemma_loaded(&self, input: Seq<u8>, length: nat) {
        assert(self.data@.skip(0) =~= self.data@);
    }

    fn decode(&mut self) -> (r: u8) {
        let r = self.data.as_slice()[self.pos];
        self.pos = self.pos + 1;
        assert(self.remaining() =~= old(self).remaining().drop_first());
        r
    }

    fn decode_many(&mut self, n: usize) -> (r: Vec<u8>) {
        let s = self.data.as_slice();
        let slen = s.len();
        assert(self.pos + n <= slen);
        let mut out: Vec<u8> = Vec::new();
        out.extend_from_slice(vstd::slice::slice_subrange(s, self.pos, self.pos + n));
        self.pos = self.pos + n;
        assert(deep(out@) =~= old(self).remaining().take(n as int));
        assert(self.remaining() =~= old(self).remaining().skip(n as int));
        out
    }
}

impl Default for U8Encoder {
    fn default() -> (r: Self)
        ensures
            r.wf(),
            r.is_clear(),
            r.pending().len() == 0,
    {
        <Self as Buffer>::new()
    }
}

impl<'a> Default for U8Decoder<'a> {
    fn default() -> (r: Self)
        ensures
            r.inv(),
    {
        <Self as View<'a>>::new()
    }
}

} // verus!
