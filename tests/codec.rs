use std::collections::{BTreeSet, BinaryHeap, HashSet, LinkedList, VecDeque};
use bitcode::vec::{escalate, initial_strategy, wild_copy, Strategy};
use bitcode::{
    copy_nonoverlapping_unaligned, BoolDecoder, BoolEncoder, Buffer, Decoder, Encoder, Error,
    LengthDecoder, LengthEncoder, U8Decoder, U8Encoder, VecDecoder, VecEncoder, View,
    MAX_VECTORED_CHUNK,
};

type BytesEnc = VecEncoder<u8, U8Encoder>;
type BoolsEnc = VecEncoder<bool, BoolEncoder>;
type NestedEnc = VecEncoder<Vec<u8>, VecEncoder<u8, U8Encoder>>;

fn encode_one_bytes(v: &Vec<u8>) -> Vec<u8> {
    let mut enc = BytesEnc::new();
    enc.reserve(1);
    enc.encode(v);
    enc.collect()
}

fn decode_one_bytes(bytes: &[u8]) -> Result<Vec<u8>, Error> {
    let mut dec: VecDecoder<u8, U8Decoder> = VecDecoder::new();
    let mut input: &[u8] = bytes;
    dec.populate(&mut input, 1)?;
    assert!(input.is_empty());
    Ok(dec.decode())
}

fn encode_one_bools(v: &Vec<bool>) -> Vec<u8> {
    let mut enc = BoolsEnc::new();
    enc.reserve(1);
    enc.encode(v);
    enc.collect()
}

fn decode_one_bools(bytes: &[u8]) -> Result<Vec<bool>, Error> {
    let mut dec: VecDecoder<bool, BoolDecoder> = VecDecoder::new();
    let mut input: &[u8] = bytes;
    dec.populate(&mut input, 1)?;
    assert!(input.is_empty());
    Ok(dec.decode())
}

#[test]
fn three_bytes_scenario() {
    let bytes = encode_one_bytes(&vec![1, 2, 3]);
    assert_eq!(bytes, vec![3, 1, 2, 3]);
    assert_eq!(decode_one_bytes(&bytes).unwrap(), vec![1, 2, 3]);
}

#[test]
fn bytes_round_trip() {
    for n in [0usize, 1, 7, 64, 254, 255, 256, 1000] {
        let v: Vec<u8> = (0..n).map(|i| (i * 7 % 256) as u8).collect();
        let bytes = encode_one_bytes(&v);
        assert_eq!(decode_one_bytes(&bytes).unwrap(), v);
    }
}

#[test]
fn long_length_takes_marker_and_eight_bytes() {
    let v: Vec<u8> = vec![9; 300];
    let bytes = encode_one_bytes(&v);
    assert_eq!(&bytes[..9], &[255, 44, 1, 0, 0, 0, 0, 0, 0]);
    assert_eq!(bytes.len(), 9 + 300);
    assert_eq!(decode_one_bytes(&bytes).unwrap(), v);
}

#[test]
fn empty_collection() {
    let bytes = encode_one_bytes(&vec![]);
    assert_eq!(bytes, vec![0]);
    assert_eq!(decode_one_bytes(&bytes).unwrap(), Vec::<u8>::new());
    let bytes = encode_one_bools(&vec![]);
    assert_eq!(bytes, vec![0]);
    assert_eq!(decode_one_bools(&bytes).unwrap(), Vec::<bool>::new());
}

#[test]
fn bools_round_trip_all_lengths() {
    for n in 0..=1000usize {
        let v: Vec<bool> = (0..n).map(|i| i % 3 == 0 || i % 5 == 1).collect();
        let mut enc = BoolEncoder::new();
        enc.encode_slice(&v);
        let packed = enc.collect();
        assert_eq!(packed.len(), (n + 7) / 8);
        let mut dec = BoolDecoder::new();
        let mut input: &[u8] = &packed;
        dec.populate(&mut input, n).unwrap();
        assert!(input.is_empty());
        assert_eq!(dec.decode_many(n), v);
    }
}

#[test]
fn thousand_bools_take_125_bytes() {
    let v: Vec<bool> = vec![false; 1000];
    let bytes = encode_one_bools(&v);
    // one byte for the length 1000 would not do: marker and eight bytes, then the bits
    assert_eq!(bytes.len(), 9 + 125);
    assert_eq!(decode_one_bools(&bytes).unwrap(), v);
}

#[test]
fn bool_bits_least_significant_first() {
    let mut enc = BoolEncoder::new();
    enc.encode_slice(&[true, false, true, true, false, false, false, false, true]);
    assert_eq!(enc.collect(), vec![0b0000_1101, 0b0000_0001]);
}

#[test]
fn bool_single_decode() {
    let mut dec = BoolDecoder::new();
    let bytes = [0b0000_0110u8];
    let mut input: &[u8] = &bytes;
    dec.populate(&mut input, 3).unwrap();
    assert!(!dec.decode());
    assert!(dec.decode());
    assert!(dec.decode());
}

#[test]
fn nested_round_trip() {
    let data: Vec<Vec<Vec<u8>>> = vec![vec![], vec![vec![1], vec![]], vec![vec![2, 3], vec![4, 5, 6]]];
    let mut enc = NestedEnc::new();
    enc.reserve(data.len());
    for v in &data {
        enc.encode(v);
    }
    let bytes = enc.collect();
    let mut dec: VecDecoder<Vec<u8>, VecDecoder<u8, U8Decoder>> = VecDecoder::new();
    let mut input: &[u8] = &bytes;
    dec.populate(&mut input, data.len()).unwrap();
    assert!(input.is_empty());
    for v in &data {
        assert_eq!(&dec.decode(), v);
    }
}

#[test]
fn columnar_layout() {
    let mut enc = BytesEnc::new();
    enc.reserve(2);
    enc.encode(&vec![7, 8]);
    enc.encode(&vec![9]);
    assert_eq!(enc.collect(), vec![2, 1, 7, 8, 9]);
}

#[test]
fn idempotent_drain() {
    let mut enc = BytesEnc::new();
    enc.reserve(1);
    enc.encode(&vec![5, 6]);
    assert_eq!(enc.collect(), vec![2, 5, 6]);
    assert_eq!(enc.collect(), Vec::<u8>::new());
    let mut out = vec![1u8];
    enc.collect_into(&mut out);
    assert_eq!(out, vec![1]);
    let mut bools = BoolEncoder::new();
    bools.reserve(1);
    bools.encode(&true);
    assert_eq!(bools.collect(), vec![1]);
    assert_eq!(bools.collect(), Vec::<u8>::new());
}

#[test]
fn reserve_boundaries() {
    for n in [1usize, 64, 65] {
        let mut enc = U8Encoder::new();
        enc.reserve(n);
        for i in 0..n {
            enc.encode(&(i as u8));
        }
        let bytes = enc.collect();
        assert_eq!(bytes, (0..n).map(|i| i as u8).collect::<Vec<u8>>());

        let mut lens = LengthEncoder::new();
        lens.reserve(n);
        for i in 0..n {
            lens.encode(&(i * 100));
        }
        let bytes = lens.collect();
        let mut dec = LengthDecoder::new();
        let mut input: &[u8] = &bytes;
        dec.populate(&mut input, n).unwrap();
        assert_eq!(dec.length(), (0..n).map(|i| i * 100).sum::<usize>());
        for i in 0..n {
            assert_eq!(dec.decode(), i * 100);
        }
    }
}

#[test]
fn vectored_batch_boundary() {
    let data: Vec<Vec<u8>> = (0..200usize)
        .map(|i| {
            let len = 1 + (i * 37) % 130;
            (0..len).map(|j| (i + j) as u8).collect()
        })
        .collect();
    assert!(data.iter().any(|v| v.len() > 64));
    let mut enc = BytesEnc::new();
    for chunk in data.chunks(MAX_VECTORED_CHUNK) {
        enc.reserve(chunk.len());
        enc.encode_vectored(chunk);
    }
    let bytes = enc.collect();
    assert_eq!(bytes, {
        let mut plain = BytesEnc::new();
        plain.reserve(data.len());
        for v in &data {
            plain.encode(v);
        }
        plain.collect()
    });
    let mut dec: VecDecoder<u8, U8Decoder> = VecDecoder::new();
    let mut input: &[u8] = &bytes;
    dec.populate(&mut input, data.len()).unwrap();
    assert!(input.is_empty());
    for v in &data {
        assert_eq!(&dec.decode(), v);
    }
}

#[test]
fn vectored_small_runs_and_bools() {
    let data: Vec<Vec<bool>> = (0..125usize).map(|n| vec![n % 2 == 0; 1 + n / 16]).collect();
    let mut enc = BoolsEnc::new();
    for chunk in data.chunks(MAX_VECTORED_CHUNK) {
        enc.reserve(chunk.len());
        enc.encode_vectored(chunk);
    }
    let bytes = enc.collect();
    let mut dec: VecDecoder<bool, BoolDecoder> = VecDecoder::new();
    let mut input: &[u8] = &bytes;
    dec.populate(&mut input, data.len()).unwrap();
    assert!(input.is_empty());
    for v in &data {
        assert_eq!(&dec.decode(), v);
    }
}

#[test]
fn strategy_widths() {
    assert_eq!(initial_strategy(1), Strategy::Width(8));
    assert_eq!(initial_strategy(2), Strategy::Width(4));
    assert_eq!(initial_strategy(3), Strategy::Width(2));
    assert_eq!(initial_strategy(4), Strategy::Width(2));
    assert_eq!(initial_strategy(5), Strategy::Width(1));
    assert_eq!(initial_strategy(6), Strategy::Width(1));
    assert_eq!(initial_strategy(7), Strategy::Width(1));
    assert_eq!(initial_strategy(8), Strategy::Width(1));
    assert_eq!(initial_strategy(100), Strategy::Width(1));
    assert_eq!(escalate(8, 1), Strategy::Width(16));
    assert_eq!(escalate(32, 1), Strategy::Width(64));
    assert_eq!(escalate(64, 1), Strategy::Precise);
    assert_eq!(escalate(8, 4), Strategy::Width(16));
    assert_eq!(escalate(8, 5), Strategy::Precise);
    assert_eq!(escalate(1, 32), Strategy::Width(2));
    assert_eq!(escalate(1, 33), Strategy::Precise);
}

#[test]
fn copies() {
    let src = [1u8, 2, 3, 4, 5];
    let mut dst = vec![0u8; 6];
    copy_nonoverlapping_unaligned(&src, &mut dst, 1, 3);
    assert_eq!(dst, vec![0, 1, 2, 3, 0, 0]);
    let mut dst = vec![9u8; 8];
    wild_copy(&src, &mut dst, 2, 2, 4);
    assert_eq!(&dst[..4], &[9, 9, 1, 2]);
    let mut dst = vec![9u8; 8];
    wild_copy(&src[..2], &mut dst, 0, 2, 8);
    assert_eq!(dst, vec![1, 2, 9, 9, 9, 9, 9, 9]);
}

#[test]
fn block_encode_keeps_only_the_run() {
    let mut enc = U8Encoder::new();
    enc.encode_block(&[4, 5], 8);
    enc.encode_block(&[6], 1);
    assert_eq!(enc.collect(), vec![4, 5, 6]);
}

#[test]
fn short_input_is_eof() {
    assert_eq!(decode_one_bytes(&[3, 1, 2]), Err(Error::Eof));
    assert_eq!(decode_one_bytes(&[]), Err(Error::Eof));
    assert_eq!(decode_one_bytes(&[255, 1, 0]), Err(Error::Eof));
    let mut dec = BoolDecoder::new();
    let bytes = [0u8];
    let mut input: &[u8] = &bytes;
    assert_eq!(dec.populate(&mut input, 9), Err(Error::Eof));
    let mut dec = U8Decoder::new();
    let mut input: &[u8] = &bytes;
    assert_eq!(dec.populate(&mut input, 2), Err(Error::Eof));
}

#[test]
fn overflowing_total_is_invalid() {
    let mut bytes = vec![255u8];
    bytes.extend_from_slice(&(usize::MAX as u64).to_le_bytes());
    bytes.push(1);
    let mut dec = LengthDecoder::new();
    let mut input: &[u8] = &bytes;
    assert_eq!(dec.populate(&mut input, 2), Err(Error::Invalid));
}

#[test]
fn byte_decoder_borrows_input() {
    let bytes = [10u8, 20, 30, 40];
    let mut dec = U8Decoder::new();
    let mut input: &[u8] = &bytes;
    dec.populate(&mut input, 3).unwrap();
    assert_eq!(input, &[40]);
    assert_eq!(dec.decode(), 10);
    assert_eq!(dec.decode_many(2), vec![20, 30]);
}

fn round_trip_items(items: Vec<u8>) -> Vec<u8> {
    decode_one_bytes(&encode_one_bytes(&items)).unwrap()
}

#[test]
fn other_collections_rebuild_from_decoded_items() {
    let set: HashSet<u8> = (0..=255).collect();
    let back: HashSet<u8> = round_trip_items(set.iter().copied().collect()).into_iter().collect();
    assert_eq!(back, set);
    let tree: BTreeSet<u8> = (0..=255).rev().collect();
    let back: BTreeSet<u8> = round_trip_items(tree.iter().copied().collect()).into_iter().collect();
    assert_eq!(back, tree);
    let deque: VecDeque<u8> = (0..=255).collect();
    let back: VecDeque<u8> = round_trip_items(deque.iter().copied().collect()).into();
    assert_eq!(back, deque);
    let list: LinkedList<u8> = (0..=255).collect();
    let back: LinkedList<u8> = round_trip_items(list.iter().copied().collect()).into_iter().collect();
    assert_eq!(back, list);
    let heap: BinaryHeap<u8> = (0..=255).map(|i: u8| i.wrapping_mul(31)).collect();
    let back: BinaryHeap<u8> = round_trip_items(heap.iter().copied().collect()).into();
    assert_eq!(back.into_sorted_vec(), heap.into_sorted_vec());
}

#[test]
fn strategy_is_cached_and_escalates() {
    let mut enc = BytesEnc::new();
    assert_eq!(enc.cached_strategy(), None);
    let small: Vec<Vec<u8>> = vec![vec![1; 3], vec![2; 8]];
    enc.reserve(small.len());
    enc.encode_vectored(&small);
    assert_eq!(enc.cached_strategy(), Some(Strategy::Width(8)));
    let medium: Vec<Vec<u8>> = vec![vec![3; 20], vec![4; 1]];
    enc.reserve(medium.len());
    enc.encode_vectored(&medium);
    assert_eq!(enc.cached_strategy(), Some(Strategy::Width(32)));
    enc.reserve(small.len());
    enc.encode_vectored(&small);
    assert_eq!(enc.cached_strategy(), Some(Strategy::Width(32)));
    let long: Vec<Vec<u8>> = vec![vec![5; 100]];
    enc.reserve(1);
    enc.encode_vectored(&long);
    assert_eq!(enc.cached_strategy(), Some(Strategy::Precise));
    enc.reserve(small.len());
    enc.encode_vectored(&small);
    assert_eq!(enc.cached_strategy(), Some(Strategy::Precise));
    let bytes = enc.collect();
    let mut dec: VecDecoder<u8, U8Decoder> = VecDecoder::new();
    let mut input: &[u8] = &bytes;
    dec.populate(&mut input, 9).unwrap();
    assert!(input.is_empty());
    for v in small.iter().chain(&medium).chain(&small).chain(&long).chain(&small) {
        assert_eq!(&dec.decode(), v);
    }
}

#[test]
fn default_encoder_has_no_cached_strategy() {
    let enc: BytesEnc = Default::default();
    assert_eq!(enc.cached_strategy(), None);
}

#[test]
fn nested_runs_have_no_fast_path() {
    let mut nested = NestedEnc::new();
    let data: Vec<Vec<Vec<u8>>> = vec![vec![vec![1, 2]], vec![]];
    nested.reserve(data.len());
    nested.encode_vectored(&data);
    assert_eq!(nested.cached_strategy(), None);
    assert_eq!(BytesEnc::new().primitive_size(), None);
    assert_eq!(LengthEncoder::new().primitive_size(), None);
    assert_eq!(U8Encoder::new().primitive_size(), Some(1));
    assert_eq!(BoolEncoder::new().primitive_size(), Some(1));
}

#[test]
fn sequence_decoder_passes_errors_on() {
    let mut dec: VecDecoder<u8, U8Decoder> = VecDecoder::new();
    let bytes = [255u8, 1];
    let mut input: &[u8] = &bytes;
    assert_eq!(dec.populate(&mut input, 1), Err(Error::Eof));
    let mut bytes = vec![255u8];
    bytes.extend_from_slice(&(usize::MAX as u64).to_le_bytes());
    bytes.push(1);
    let mut input: &[u8] = &bytes;
    assert_eq!(dec.populate(&mut input, 2), Err(Error::Invalid));
    let bytes = [2u8, 9];
    let mut input: &[u8] = &bytes;
    assert_eq!(dec.populate(&mut input, 1), Err(Error::Eof));
}
