use vstd::prelude::*;
use crate::bool::{BoolDecoder, BoolEncoder};
use crate::coder::{Decoder, Encoder, View};
use crate::length::{length_bytes, lemma_parse_many, lengths_bytes};
use crate::pack::{lemma_unpack_packed, packed, packed_len};
use crate::primitive::{U8Decoder, U8Encoder};
use crate::vec::{lemma_split_flatten, lens_of, VecDecoder, VecEncoder};

verus! {

/// Decoding with `D` what `E` encoded gives the values back and uses exactly
/// the encoded bytes, whatever follows them in the input.
pub open spec fn round_trips<'a, T: DeepView, E: Encoder<T>, D: Decoder<'a, T>>() -> bool {
    forall|xs: Seq<T::V>, rest: Seq<u8>|
        E::encodable(xs) ==> {
            &&& D::parse_len(#[trigger] (E::encoding(xs) + rest), xs.len()) == Some(E::encoding(xs).len())
            &&& D::decoding(E::encoding(xs) + rest, xs.len()) == xs
        }
}

/// Bytes round-trip.
pub proof fn lemma_u8_round_trip<'a>()
    ensures
        round_trips::<'a, u8, U8Encoder, U8Decoder<'a>>(),
{
    assert forall|xs: Seq<u8>, rest: Seq<u8>| U8Encoder::encodable(xs) implies {
        &&& U8Decoder::<'a>::parse_len(#[trigger] (U8Encoder::encoding(xs) + rest), xs.len()) == Some(U8Encoder::encoding(xs).len())
        &&& U8Decoder::<'a>::decoding(U8Encoder::encoding(xs) + rest, xs.len()) == xs
    } by {
        assert((xs + rest).take(xs.len() as int) =~= xs);
    }
}

/// Booleans round-trip, packed into `ceil(n / 8)` bytes.
pub proof fn lemma_bool_round_trip<'a>()
    ensures
        round_trips::<'a, bool, BoolEncoder, BoolDecoder<'a>>(),
        forall|bs: Seq<bool>| #[trigger] BoolEncoder::encoding(bs).len() == (bs.len() + 7) / 8,
{
    assert forall|xs: Seq<bool>, rest: Seq<u8>| BoolEncoder::encodable(xs) implies {
        &&& BoolDecoder::<'a>::parse_len(#[trigger] (BoolEncoder::encoding(xs) + rest), xs.len()) == Some(BoolEncoder::encoding(xs).len())
        &&& BoolDecoder::<'a>::decoding(BoolEncoder::encoding(xs) + rest, xs.len()) == xs
    } by {
        lemma_unpack_packed(xs, rest);
    }
    assert forall|bs: Seq<bool>| #[trigger] BoolEncoder::encoding(bs).len() == (bs.len() + 7) / 8 by {
        lemma_unpack_packed(bs, Seq::empty());
    }
}

/// Where the items of a sequence round-trip, sequences of them round-trip
/// too, as their lengths followed by all their items.
pub proof fn lemma_vec_round_trip<'a, T: DeepView, E: Encoder<T>, D: Decoder<'a, T>>()
    requires
        round_trips::<'a, T, E, D>(),
    ensures
        round_trips::<'a, Vec<T>, VecEncoder<T, E>, VecDecoder<'a, T, D>>(),
{
    assert forall|vss: Seq<Seq<T::V>>, rest: Seq<u8>| VecEncoder::<T, E>::encodable(vss) implies {
        &&& VecDecoder::<'a, T, D>::parse_len(#[trigger] (VecEncoder::<T, E>::encoding(vss) + rest), vss.len())
            == Some(VecEncoder::<T, E>::encoding(vss).len())
        &&& VecDecoder::<'a, T, D>::decoding(VecEncoder::<T, E>::encoding(vss) + rest, vss.len()) == vss
    } by {
        let lens = lens_of(vss);
        let flat = vss.flatten();
        let tail = E::encoding(flat) + rest;
        let input = VecEncoder::<T, E>::encoding(vss) + rest;
        assert(input =~= lengths_bytes(lens) + tail);
        lemma_parse_many(lens, tail);
        lemma_split_flatten(vss);
        assert(input.skip(lengths_bytes(lens).len() as int) =~= tail);
        assert(E::encoding(flat) + rest == tail);
    }
}

/// A single empty sequence encodes as the one byte of the length zero.
pub proof fn lemma_empty_sequence<T: DeepView, E: Encoder<T>>()
    ensures
        VecEncoder::<T, E>::encoding(seq![Seq::<T::V>::empty()]) == seq![0u8],
{
    let vss = seq![Seq::<T::V>::empty()];
    E::lemma_encoding_empty();
    assert(lens_of(vss) =~= seq![0usize]);
    assert(vss.flatten() =~= Seq::<T::V>::empty()) by {
        vss.lemma_flatten_one_element();
    }
    assert(lens_of(vss).skip(1) =~= Seq::<usize>::empty());
    assert(lengths_bytes(Seq::<usize>::empty()) == Seq::<u8>::empty());
    assert(lens_of(vss)[0] == 0usize);
    assert(length_bytes(0usize) + Seq::<u8>::empty() =~= length_bytes(0usize));
    assert(lengths_bytes(lens_of(vss)) =~= length_bytes(0usize));
    assert(lengths_bytes(lens_of(vss)) + Seq::<u8>::empty() =~= seq![0u8]);
}

} // verus!
