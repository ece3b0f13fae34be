use vstd::prelude::*;
use crate::cow::CowSlice;
use crate::error::Error;

verus! {

/// The bit that boolean `i` of `bs` stands for, as 0 or 1 (0 past the end).
pub open spec fn bit(bs: Seq<bool>, i: int) -> u8 {
    if 0 <= i < bs.len() && bs[i] { 1u8 } else { 0u8 }
}

/// One byte from eight bits, the first in the least significant position.
pub open spec fn pack_byte(b0: u8, b1: u8, b2: u8, b3: u8, b4: u8, b5: u8, b6: u8, b7: u8) -> u8 {
    b0 | (b1 << 1u8) | (b2 << 2u8) | (b3 << 3u8) | (b4 << 4u8) | (b5 << 5u8) | (b6 << 6u8) | (b7 << 7u8)
}

/// Byte `j` of the packed form of `bs`.
pub open spec fn packed_byte(bs: Seq<bool>, j: int) -> u8 {
    pack_byte(
        bit(bs, 8 * j), bit(bs, 8 * j + 1), bit(bs, 8 * j + 2), bit(bs, 8 * j + 3),
        bit(bs, 8 * j + 4), bit(bs, 8 * j + 5), bit(bs, 8 * j + 6), bit(bs, 8 * j + 7),
    )
}

/// Bytes needed for `n` packed booleans: `ceil(n / 8)`.
pub open spec fn packed_len(n: nat) -> nat {
    (n + 7) / 8
}

/// `bs` packed eight to a byte; boolean `i` is bit `i % 8` of byte `i / 8`.
pub open spec fn packed(bs: Seq<bool>) -> Seq<u8> {
    Seq::new(packed_len(bs.len()), |j: int| packed_byte(bs, j))
}

/// Whether bit `i` of the packed `bytes` is set.
pub open spec fn bit_at(bytes: Seq<u8>, i: int) -> bool {
    (bytes[i / 8] >> ((i % 8) as u8)) & 1u8 == 1u8
}

/// The first `n` booleans that the packed `bytes` hold.
pub open spec fn unpacked(bytes: Seq<u8>, n: nat) -> Seq<bool> {
    Seq::new(n, |i: int| bit_at(bytes, i))
}

proof fn lemma_pack_byte(b0: u8, b1: u8, b2: u8, b3: u8, b4: u8, b5: u8, b6: u8, b7: u8)
    requires
        b0 <= 1, b1 <= 1, b2 <= 1, b3 <= 1, b4 <= 1, b5 <= 1, b6 <= 1, b7 <= 1,
    ensures
        (pack_byte(b0, b1, b2, b3, b4, b5, b6, b7) >> 0u8) & 1u8 == b0,
        (pack_byte(b0, b1, b2, b3, b4, b5, b6, b7) >> 1u8) & 1u8 == b1,
        (pack_byte(b0, b1, b2, b3, b4, b5, b6, b7) >> 2u8) & 1u8 == b2,
        (pack_byte(b0, b1, b2, b3, b4, b5, b6, b7) >> 3u8) & 1u8 == b3,
        (pack_byte(b0, b1, b2, b3, b4, b5, b6, b7) >> 4u8) & 1u8 == b4,
        (pack_byte(b0, b1, b2, b3, b4, b5, b6, b7) >> 5u8) & 1u8 == b5,
        (pack_byte(b0, b1, b2, b3, b4, b5, b6, b7) >> 6u8) & 1u8 == b6,
        (pack_byte(b0, b1, b2, b3, b4, b5, b6, b7) >> 7u8) & 1u8 == b7,
{
    assert(
        (b0 | (b1 << 1u8) | (b2 << 2u8) | (b3 << 3u8) | (b4 << 4u8) | (b5 << 5u8) | (b6 << 6u8) | (b7 << 7u8)) >> 0u8 & 1u8 == b0 &&
        ((b0 | (b1 << 1u8) | (b2 << 2u8) | (b3 << 3u8) | (b4 << 4u8) | (b5 << 5u8) | (b6 << 6u8) | (b7 << 7u8)) >> 1u8) & 1u8 == b1 &&
        ((b0 | (b1 << 1u8) | (b2 << 2u8) | (b3 << 3u8) | (b4 << 4u8) | (b5 << 5u8) | (b6 << 6u8) | (b7 << 7u8)) >> 2u8) & 1u8 == b2 &&
        ((b0 | (b1 << 1u8) | (b2 << 2u8) | (b3 << 3u8) | (b4 << 4u8) | (b5 << 5u8) | (b6 << 6u8) | (b7 << 7u8)) >> 3u8) & 1u8 == b3 &&
        ((b0 | (b1 << 1u8) | (b2 << 2u8) | (b3 << 3u8) | (b4 << 4u8) | (b5 << 5u8) | (b6 << 6u8) | (b7 << 7u8)) >> 4u8) & 1u8 == b4 &&
        ((b0 | (b1 << 1u8) | (b2 << 2u8) | (b3 << 3u8) | (b4 << 4u8) | (b5 << 5u8) | (b6 << 6u8) | (b7 << 7u8)) >> 5u8) & 1u8 == b5 &&
        ((b0 | (b1 << 1u8) | (b2 << 2u8) | (b3 << 3u8) | (b4 << 4u8) | (b5 << 5u8) | (b6 << 6u8) | (b7 << 7u8)) >> 6u8) & 1u8 == b6 &&
        ((b0 | (b1 << 1u8) | (b2 << 2u8) | (b3 << 3u8) | (b4 << 4u8) | (b5 << 5u8) | (b6 << 6u8) | (b7 << 7u8)) >> 7u8) & 1u8 == b7
    ) by (bit_vector)
        requires
            b0 <= 1, b1 <= 1, b2 <= 1, b3 <= 1, b4 <= 1, b5 <= 1, b6 <= 1, b7 <= 1,
    ;
}

/// Unpacking the packed form of `bs` gives `bs` back, whatever follows it.
pub proof fn lemma_unpack_packed(bs: Seq<bool>, rest: Seq<u8>)
    ensures
        unpacked(packed(bs) + rest, bs.len()) == bs,
        packed(bs).len() == packed_len(bs.len()),
{
    let p = packed(bs) + rest;
    assert forall|i: int| 0 <= i < bs.len() implies bit_at(p, i) == bs[i] by {
        let j = i / 8;
        let k = i % 8;
        assert(0 <= j < packed_len(bs.len()));
        assert(p[j] == packed_byte(bs, j));
        assert(i == 8 * j + k);
        lemma_pack_byte(
            bit(bs, 8 * j), bit(bs, 8 * j + 1), bit(bs, 8 * j + 2), bit(bs, 8 * j + 3),
            bit(bs, 8 * j + 4), bit(bs, 8 * j + 5), bit(bs, 8 * j + 6), bit(bs, 8 * j + 7),
        );
        if k == 0 {} else if k == 1 {} else if k == 2 {} else if k == 3 {}
        else if k == 4 {} else if k == 5 {} else if k == 6 {} else {}
    }
    assert(unpacked(p, bs.len()) =~= bs);
}

/// Bytes needed for `n` packed booleans, computed without overflow.
pub fn packed_len_exec(n: usize) -> (r: usize)
    ensures
        r == packed_len(n as nat),
{
    n / 8 + if n % 8 != 0 { 1usize } else { 0usize }
}

fn bit_of(bs: &[bool], base: usize, k: usize) -> (r: u8)
    requires
        base <= bs@.len(),
        k < 8,
    ensures
        r == bit(bs@, base + k),
{
    if k < bs.len() - base && bs[base + k] { 1u8 } else { 0u8 }
}

/// Appends the packed form of `bs` to `out`.
pub fn pack_bools(bs: &[bool], out: &mut Vec<u8>)
    ensures
        final(out)@ == old(out)@ + packed(bs@),
{
    let n = bs.len();
    let nbytes = packed_len_exec(n);
    let mut j: usize = 0;
    while j < nbytes
        invariant
            n == bs@.len(),
            nbytes == packed_len(n as nat),
            j <= nbytes,
            out@ == old(out)@ + packed(bs@).take(j as int),
        decreases nbytes - j,
    {
        assert(8 * j <= n);
        let base = 8 * j;
        let byte = bit_of(bs, base, 0) | (bit_of(bs, base, 1) << 1u8) | (bit_of(bs, base, 2) << 2u8)
            | (bit_of(bs, base, 3) << 3u8) | (bit_of(bs, base, 4) << 4u8) | (bit_of(bs, base, 5) << 5u8)
            | (bit_of(bs, base, 6) << 6u8) | (bit_of(bs, base, 7) << 7u8);
        assert(byte == packed_byte(bs@, j as int));
        out.push(byte);
        assert(packed(bs@).take(j + 1) =~= packed(bs@).take(j as int).push(byte));
        j = j + 1;
    }
    assert(packed(bs@).take(j as int) =~= packed(bs@));
}

/// Reads `length` packed booleans from the front of `input` into `out`,
/// advancing `input` past their bytes. Fails with `Eof` where the input is
/// too short.
pub fn unpack_bools<'a, 'b>(input: &mut &'a [u8], length: usize, out: &mut CowSlice<'b, bool>) -> (r: Result<(), Error>)
    ensures
        packed_len(length as nat) <= old(input)@.len() ==> {
            &&& r is Ok
            &&& final(input)@ == old(input)@.skip(packed_len(length as nat) as int)
            &&& final(out)@ == unpacked(old(input)@, length as nat)
        },
        packed_len(length as nat) > old(input)@.len() ==> r == Err::<(), Error>(Error::Eof),
{
    let nbytes = packed_len_exec(length);
    let bytes: &[u8] = *input;
    if nbytes > bytes.len() {
        return Err(Error::Eof);
    }
    let mut bools: Vec<bool> = Vec::with_capacity(length);
    let mut i: usize = 0;
    while i < length
        invariant
            bytes@ == old(input)@,
            nbytes == packed_len(length as nat),
            nbytes <= bytes@.len(),
            i <= length,
            bools@ == unpacked(bytes@, length as nat).take(i as int),
        decreases length - i,
    {
        assert(i / 8 < nbytes);
        let b = (bytes[i / 8] >> ((i % 8) as u8)) & 1u8 == 1u8;
        bools.push(b);
        assert(bools@ =~= unpacked(bytes@, length as nat).take(i + 1));
        i = i + 1;
    }
    assert(bools@ =~= unpacked(bytes@, length as nat));
    *out = CowSlice::Owned(bools);
    *input = vstd::slice::slice_subrange(bytes, nbytes, bytes.len());
    assert(input@ =~= old(input)@.skip(nbytes as int));
    Ok(())
}

} // verus!
