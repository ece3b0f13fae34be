use vstd::prelude::*;
use crate::error::Error;
use vstd::view::View as _;

verus! {

/// Batches handed to [`Encoder::encode_vectored`] hold at most this many items.
pub const MAX_VECTORED_CHUNK: usize = 64;

/// The deep views of the items of `s`: what a `Vec` of them deep-views to.
pub open spec fn deep<T: DeepView>(s: Seq<T>) -> Seq<T::V> {
    Seq::new(s.len(), |i: int| s[i].deep_view())
}

/// Accumulates encoded bytes until they are collected.
pub trait Buffer: Sized {
    /// The internal invariant of the buffer.
    spec fn wf(&self) -> bool;

    /// The bytes that a collect would emit now.
    spec fn pending(&self) -> Seq<u8>;

    /// How many more single-item encodes the last reservation allows.
    spec fn room(&self) -> nat;

    /// The two buffers hold the same items.
    spec fn same_items(&self, other: &Self) -> bool;

    /// The buffer holds no items.
    spec fn is_clear(&self) -> bool;

    /// An empty buffer.
    fn new() -> (r: Self)
        ensures
            r.wf(),
            r.is_clear(),
            r.pending().len() == 0,
    ;

    /// Collects the buffer into a fresh `Vec<u8>`, clearing it.
    fn collect(&mut self) -> (r: Vec<u8>)
        requires
            old(self).wf(),
        ensures
            final(self).wf(),
            r@ == old(self).pending(),
            final(self).is_clear(),
            final(self).pending().len() == 0,
    {
        let mut out: Vec<u8> = Vec::new();
        self.collect_into(&mut out);
        out
    }

    /// Appends the pending bytes to `out` and clears the buffer.
    fn collect_into(&mut self, out: &mut Vec<u8>)
        requires
            old(self).wf(),
        ensures
            final(self).wf(),
            final(out)@ == old(out)@ + old(self).pending(),
            final(self).is_clear(),
            final(self).pending().len() == 0,
    ;

    /// Makes room for `additional` more calls of `encode`.
    fn reserve(&mut self, additional: usize)
        requires
            old(self).wf(),
            additional > 0,
        ensures
            final(self).wf(),
            final(self).same_items(old(self)),
            final(self).pending() == old(self).pending(),
            final(self).room() >= additional,
    ;
}

/// Encodes values of type `T` into a [`Buffer`].
pub trait Encoder<T: DeepView>: Buffer {
    /// The values encoded since the buffer was last cleared.
    spec fn values(&self) -> Seq<T::V>;

    /// The bytes that stand for `values` on the wire.
    spec fn encoding(values: Seq<T::V>) -> Seq<u8>;

    /// The values fit the limits of the wire format (counts that fit a `usize`).
    spec fn encodable(values: Seq<T::V>) -> bool;

    /// No values take no bytes.
    proof fn lemma_encoding_empty()
        ensures
            Self::encoding(Seq::empty()) == Seq::<u8>::empty(),
    ;

    /// The pending bytes are the encoding of the values held.
    proof fn lemma_model(&self)
        requires
            self.wf(),
        ensures
            self.pending() == Self::encoding(self.values()),
    ;

    /// Buffers that hold the same items hold the same values.
    proof fn lemma_same_items(&self, other: &Self)
        requires
            self.wf(),
            other.wf(),
            self.same_items(other),
        ensures
            self.values() == other.values(),
    ;

    /// A clear buffer holds no values.
    proof fn lemma_clear(&self)
        requires
            self.wf(),
            self.is_clear(),
        ensures
            self.values() == Seq::<T::V>::empty(),
    ;

    /// Size in bytes of one item when the encoder stores its items as a flat
    /// array that can be block-copied, else `None`.
    spec fn flat_size() -> Option<usize>;

    /// Size in bytes of one item when the encoder stores its items as a flat
    /// array that can be block-copied, else `None`.
    fn primitive_size(&self) -> (r: Option<usize>)
        ensures
            r == Self::flat_size(),
            r matches Some(s) ==> s > 0,
    ;

    /// Encodes one value. Uses one unit of the reserved room.
    fn encode(&mut self, t: &T)
        requires
            old(self).wf(),
            old(self).room() > 0,
        ensures
            final(self).wf(),
            final(self).values() == old(self).values().push(t.deep_view()),
            final(self).room() == old(self).room() - 1,
    ;

    /// Encodes every item of `items`, which is not empty and holds at most
    /// [`MAX_VECTORED_CHUNK`] items, within the reserved room.
    fn encode_vectored(&mut self, items: &[T])
        requires
            old(self).wf(),
            0 < items@.len() <= MAX_VECTORED_CHUNK,
            items@.len() <= old(self).room(),
        ensures
            final(self).wf(),
            final(self).values() == old(self).values() + deep(items@),
            final(self).room() == old(self).room() - items@.len(),
    {
        let mut i: usize = 0;
        while i < items.len()
            invariant
                self.wf(),
                i <= items@.len(),
                items@.len() <= old(self).room(),
                self.values() == old(self).values() + deep(items@).take(i as int),
                self.room() == old(self).room() - i,
            decreases items@.len() - i,
        {
            self.encode(&items[i]);
            assert(deep(items@.take(i + 1)) =~= deep(items@.take(i as int)).push(items@[i as int].deep_view()));
            i = i + 1;
        }
        assert(items@.take(i as int) =~= items@);
    }

    /// Encodes a whole run of items, reserving for them itself.
    fn encode_slice(&mut self, items: &[T])
        requires
            old(self).wf(),
        ensures
            final(self).wf(),
            final(self).values() == old(self).values() + deep(items@),
    {
        let n = items.len();
        if n == 0 {
            assert(items@ =~= Seq::<T>::empty());
            assert(old(self).values() + deep(items@) =~= old(self).values());
            return;
        }
        self.reserve(n);
        proof { self.lemma_same_items(old(self)); }
        let mut start: usize = 0;
        while start < n
            invariant
                self.wf(),
                n == items@.len(),
                start <= n,
                self.room() >= n - start,
                self.values() == old(self).values() + deep(items@).take(start as int),
            decreases n - start,
        {
            let end: usize = if n - start > MAX_VECTORED_CHUNK { start + MAX_VECTORED_CHUNK } else { n };
            let chunk = vstd::slice::slice_subrange(items, start, end);
            self.encode_vectored(chunk);
            assert(deep(items@.take(end as int)) =~= deep(items@.take(start as int)) + deep(chunk@));
            start = end;
        }
        assert(items@.take(n as int) =~= items@);
    }

    /// Encodes `src`, of at most `block` items, where the encoder may move a
    /// whole block of `block` items at once. Reserves for it itself.
    fn encode_block(&mut self, src: &[T], block: usize)
        requires
            old(self).wf(),
            0 < src@.len() <= block <= MAX_VECTORED_CHUNK,
        ensures
            final(self).wf(),
            final(self).values() == old(self).values() + deep(src@),
    {
        self.encode_slice(src);
    }
}

/// Reads the encoded form of some number of items from the front of an input.
pub trait View<'a>: Sized {
    /// The internal invariant of the view.
    spec fn inv(&self) -> bool;

    /// How many bytes `length` items take at the front of `input`, or `None`
    /// where the input cannot hold them.
    spec fn parse_len(input: Seq<u8>, length: nat) -> Option<nat>;

    /// The view holds what `populate` read from `input` for `length` items.
    spec fn loaded(&self, input: Seq<u8>, length: nat) -> bool;

    /// An empty view.
    fn new() -> (r: Self)
        ensures
            r.inv(),
    ;

    /// Reads `length` items out of `input`, advancing it past them.
    fn populate(&mut self, input: &mut &'a [u8], length: usize) -> (r: Result<(), Error>)
        ensures
            match Self::parse_len(old(input)@, length as nat) {
                Some(used) => {
                    &&& r is Ok
                    &&& used <= old(input)@.len()
                    &&& final(input)@ == old(input)@.skip(used as int)
                    &&& final(self).inv()
                    &&& final(self).loaded(old(input)@, length as nat)
                },
                None => r is Err,
            },
    ;
}

/// Hands out decoded values of type `T`, one by one or in runs.
pub trait Decoder<'a, T: DeepView>: View<'a> {
    /// The values still to be decoded.
    spec fn remaining(&self) -> Seq<T::V>;

    /// The values that `length` items at the front of `input` stand for.
    spec fn decoding(input: Seq<u8>, length: nat) -> Seq<T::V>;

    /// After a successful `populate`, the view holds the decoded values.
    proof fn lemma_loaded(&self, input: Seq<u8>, length: nat)
        requires
            self.inv(),
            self.loaded(input, length),
            Self::parse_len(input, length) is Some,
        ensures
            self.remaining() == Self::decoding(input, length),
            self.remaining().len() == length,
    ;

    /// Decodes the next value.
    fn decode(&mut self) -> (r: T)
        requires
            old(self).inv(),
            old(self).remaining().len() > 0,
        ensures
            final(self).inv(),
            r.deep_view() == old(self).remaining()[0],
            final(self).remaining() == old(self).remaining().drop_first(),
    ;

    /// Decodes the next `n` values into a `Vec`.
    fn decode_many(&mut self, n: usize) -> (r: Vec<T>)
        requires
            old(self).inv(),
            n <= old(self).remaining().len(),
        ensures
            final(self).inv(),
            deep(r@) == old(self).remaining().take(n as int),
            final(self).remaining() == old(self).remaining().skip(n as int),
    {
        let mut out: Vec<T> = Vec::with_capacity(n);
        let mut i: usize = 0;
        while i < n
            invariant
                self.inv(),
                i <= n,
                n <= old(self).remaining().len(),
                deep(out@) == old(self).remaining().take(i as int),
                self.remaining() == old(self).remaining().skip(i as int),
            decreases n - i,
        {
            let ghost before = self.remaining();
            let ghost prev = out@;
            let v = self.decode();
            assert(before[0] == old(self).remaining()[i as int]);
            out.push(v);
            assert(deep(out@) =~= deep(prev).push(v.deep_view()));
            assert(deep(out@) =~= old(self).remaining().take(i + 1));
            assert(self.remaining() =~= old(self).remaining().skip(i + 1));
            i = i + 1;
        }
        out
    }
}

} // verus!
