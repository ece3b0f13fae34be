use vstd::prelude::*;
use crate::coder::{deep, Buffer, Decoder, Encoder, View};
use crate::cow::CowSlice;
use crate::error::Error;
use crate::pack::{pack_bools, packed, packed_len, unpack_bools, unpacked};
use vstd::view::View as _;

verus! {

/// Encodes booleans packed eight to a byte. Keeps them unpacked until they
/// are collected.
pub struct BoolEncoder {
    bools: Vec<bool>,
    room: Ghost<nat>,
}

impl Buffer for BoolEncoder {
    closed spec fn wf(&self) -> bool {
        true
    }

    closed spec fn pending(&self) -> Seq<u8> {
        packed(self.bools@)
    }

    closed spec fn room(&self) -> nat {
        self.room@
    }

    closed spec fn same_items(&self, other: &Self) -> bool {
        self.bools@ == other.bools@
    }

    closed spec fn is_clear(&self) -> bool {
        self.bools@.len() == 0
    }

    fn new() -> (r: Self) {
        BoolEncoder { bools: Vec::new(), room: Ghost(0) }
    }

    fn collect_into(&mut self, out: &mut Vec<u8>) {
        pack_bools(self.bools.as_slice(), out);
        self.bools.clear();
    }

    fn reserve(&mut self, additional: usize) {
        self.bools.reserve(additional);
        self.room = Ghost(if self.room@ >= additional { self.room@ } else { additional as nat });
    }
}

impl Encoder<bool> for BoolEncoder {
    closed spec fn values(&self) -> Seq<bool> {
        self.bools@
    }

    open spec fn encoding(values: Seq<bool>) -> Seq<u8> {
        packed(values)
    }

    open spec fn encodable(values: Seq<bool>) -> bool {
        true
    }

    proof fn lemma_encoding_empty() {
        assert(crate::pack::packed(Seq::<bool>::empty()) =~= Seq::<u8>::empty());
    }

    proof fn lemma_model(&self) {
    }

    proof fn lemma_same_items(&self, other: &Self) {
    }

    proof fn lemma_clear(&self) {
        assert(self.bools@ =~= Seq::<bool>::empty());
    }

    open spec fn flat_size() -> Option<usize> {
        Some(1usize)
    }

    fn primitive_size(&self) -> (r: Option<usize>) {
        Some(1)
    }

    fn encode(&mut self, t: &bool) {
        self.bools.push(*t);
        self.room = Ghost((self.room@ - 1) as nat);
    }

    fn encode_slice(&mut self, items: &[bool]) {
        self.bools.extend_from_slice(items);
        assert(deep(items@) =~= items@);
    }
}

/// Hands out booleans unpacked from the input into a buffer of its own.
pub struct BoolDecoder<'a> {
    data: CowSlice<'a, bool>,
    pos: usize,
}

impl<'a> View<'a> for BoolDecoder<'a> {
    closed spec fn inv(&self) -> bool {
        self.pos <= self.data@.len()
    }

    open spec fn parse_len(input: Seq<u8>, length: nat) -> Option<nat> {
        if packed_len(length) <= input.len() { Some(packed_len(length)) } else { None }
    }

    closed spec fn loaded(&self, input: Seq<u8>, length: nat) -> bool {
        self.data@ == unpacked(input, length) && self.pos == 0
    }

    fn new() -> (r: Self) {
        BoolDecoder { data: CowSlice::Owned(Vec::new()), pos: 0 }
    }

    fn populate(&mut self, input: &mut &'a [u8], length: usize) -> (r: Result<(), Error>)
        ensures
            packed_len(length as nat) > old(input)@.len() ==> r == Err::<(), Error>(Error::Eof),
    {
        let r = unpack_bools(input, length, &mut self.data);
        self.pos = 0;
        r
    }
}

impl<'a> Decoder<'a, bool> for BoolDecoder<'a> {
    closed spec fn remaining(&self) -> Seq<bool> {
        self.data@.skip(self.pos as int)
    }

    open spec fn decoding(input: Seq<u8>, length: nat) -> Seq<bool> {
        unpacked(input, length)
    }

    proof fn lemma_loaded(&self, input: Seq<u8>, length: nat) {
        assert(self.data@.skip(0) =~= self.data@);
    }

    fn decode(&mut self) -> (r: bool) {
        let r = self.data.as_slice()[self.pos];
        self.pos = self.pos + 1;
        assert(self.remaining() =~= old(self).remaining().drop_first());
        r
    }

    fn decode_many(&mut self, n: usize) -> (r: Vec<bool>) {
        let s = self.data.as_slice();
        let slen = s.len();
        assert(self.pos + n <= slen);
        let mut out: Vec<bool> = Vec::new();
        out.extend_from_slice(vstd::slice::slice_subrange(s, self.pos, self.pos + n));
        self.pos = self.pos + n;
        assert(deep(out@) =~= old(self).remaining().take(n as int));
        assert(self.remaining() =~= old(self).remaining().skip(n as int));
        out
    }
}

impl Default for BoolEncoder {
    fn default() -> (r: Self)
        ensures
            r.wf(),
            r.is_clear(),
            r.pending().len() == 0,
    {
        <Self as Buffer>::new()
    }
}

impl<'a> Default for BoolDecoder<'a> {
    fn default() -> (r: Self)
        ensures
            r.inv(),
    {
        <Self as View<'a>>::new()
    }
}

} // verus!
