use vstd::prelude::*;
use crate::coder::{Buffer, Decoder, Encoder, View};
use crate::error::Error;
use vstd::view::View as _;

verus! {

/// The marker byte that announces a length stored in eight bytes.
pub const LONG_MARKER: u8 = 255;

/// `x` as eight little-endian bytes.
pub open spec fn le8(x: u64) -> Seq<u8> {
    seq![x as u8, (x >> 8u64) as u8, (x >> 16u64) as u8, (x >> 24u64) as u8,
        (x >> 32u64) as u8, (x >> 40u64) as u8, (x >> 48u64) as u8, (x >> 56u64) as u8]
}

/// The number that eight little-endian bytes stand for.
pub open spec fn from_le8(b0: u8, b1: u8, b2: u8, b3: u8, b4: u8, b5: u8, b6: u8, b7: u8) -> u64 {
    b0 as u64 | (b1 as u64) << 8u64 | (b2 as u64) << 16u64 | (b3 as u64) << 24u64
        | (b4 as u64) << 32u64 | (b5 as u64) << 40u64 | (b6 as u64) << 48u64 | (b7 as u64) << 56u64
}

/// The bytes that stand for one length.
pub open spec fn length_bytes(n: usize) -> Seq<u8> {
    if n < 255 {
        seq![n as u8]
    } else {
        seq![LONG_MARKER] + le8(n as u64)
    }
}

/// The bytes that stand for a run of lengths, one after the other.
pub open spec fn lengths_bytes(ns: Seq<usize>) -> Seq<u8>
    decreases ns.len(),
{
    if ns.len() == 0 {
        Seq::empty()
    } else {
        length_bytes(ns[0]) + lengths_bytes(ns.skip(1))
    }
}

/// The length at the front of `input` and how many bytes it takes.
pub open spec fn parse_one(input: Seq<u8>) -> Option<(usize, nat)> {
    if input.len() == 0 {
        None
    } else if input[0] < 255 {
        Some((input[0] as usize, 1nat))
    } else if input.len() < 9 {
        None
    } else {
        let v = from_le8(input[1], input[2], input[3], input[4], input[5], input[6], input[7], input[8]);
        if v > usize::MAX { None } else { Some((v as usize, 9nat)) }
    }
}

/// Puts `vs`, of `c` bytes, in front of a parse result.
pub open spec fn prepend(vs: Seq<usize>, c: nat, r: Option<(Seq<usize>, nat)>) -> Option<(Seq<usize>, nat)> {
    match r {
        Some((ws, d)) => Some((vs + ws, c + d)),
        None => None,
    }
}

/// The first `count` lengths of `input` and how many bytes they take.
pub open spec fn parse_many(input: Seq<u8>, count: nat) -> Option<(Seq<usize>, nat)>
    decreases count,
{
    if count == 0 {
        Some((Seq::empty(), 0nat))
    } else {
        match parse_one(input) {
            None => None,
            Some((v, c)) => prepend(seq![v], c, parse_many(input.skip(c as int), (count - 1) as nat)),
        }
    }
}

/// The sum of a run of lengths.
pub open spec fn sum(ns: Seq<usize>) -> nat
    decreases ns.len(),
{
    if ns.len() == 0 {
        0
    } else {
        sum(ns.drop_last()) + ns.last() as nat
    }
}

proof fn lemma_le8(x: u64)
    ensures
        from_le8(x as u8, (x >> 8u64) as u8, (x >> 16u64) as u8, (x >> 24u64) as u8,
            (x >> 32u64) as u8, (x >> 40u64) as u8, (x >> 48u64) as u8, (x >> 56u64) as u8) == x,
{
    assert(
        (x as u8) as u64 | (((x >> 8u64) as u8) as u64) << 8u64 | (((x >> 16u64) as u8) as u64) << 16u64
        | (((x >> 24u64) as u8) as u64) << 24u64 | (((x >> 32u64) as u8) as u64) << 32u64
        | (((x >> 40u64) as u8) as u64) << 40u64 | (((x >> 48u64) as u8) as u64) << 48u64
        | (((x >> 56u64) as u8) as u64) << 56u64 == x
    ) by (bit_vector);
}

/// Parsing the bytes of one length gives it back, whatever follows.
proof fn lemma_parse_one(n: usize, rest: Seq<u8>)
    ensures
        parse_one(length_bytes(n) + rest) == Some((n, length_bytes(n).len())),
{
    let s = length_bytes(n) + rest;
    if n >= 255 {
        let x = n as u64;
        lemma_le8(x);
        assert(s[1] == x as u8 && s[2] == (x >> 8u64) as u8 && s[8] == (x >> 56u64) as u8);
    }
}

/// Parsing the bytes of a run of lengths gives it back, whatever follows.
pub proof fn lemma_parse_many(ns: Seq<usize>, rest: Seq<u8>)
    ensures
        parse_many(lengths_bytes(ns) + rest, ns.len()) == Some((ns, lengths_bytes(ns).len())),
    decreases ns.len(),
{
    if ns.len() > 0 {
        let tail = lengths_bytes(ns.skip(1)) + rest;
        let s = lengths_bytes(ns) + rest;
        assert(s =~= length_bytes(ns[0]) + tail);
        lemma_parse_one(ns[0], tail);
        assert(s.skip(length_bytes(ns[0]).len() as int) =~= tail);
        lemma_parse_many(ns.skip(1), rest);
        assert(seq![ns[0]] + ns.skip(1) =~= ns);
    }
}

proof fn lemma_lengths_bytes_push(ns: Seq<usize>, n: usize)
    ensures
        lengths_bytes(ns.push(n)) == lengths_bytes(ns) + length_bytes(n),
    decreases ns.len(),
{
    if ns.len() == 0 {
        assert(ns.push(n).skip(1) =~= Seq::<usize>::empty());
        assert(lengths_bytes(ns.push(n).skip(1)) == Seq::<u8>::empty());
        assert(lengths_bytes(ns.push(n)) =~= length_bytes(n));
        assert(lengths_bytes(ns) =~= Seq::<u8>::empty());
    } else {
        assert(ns.push(n).skip(1) =~= ns.skip(1).push(n));
        lemma_lengths_bytes_push(ns.skip(1), n);
    }
}

proof fn lemma_prepend_step(vs: Seq<usize>, c: nat, v: usize, d: nat, r: Option<(Seq<usize>, nat)>)
    ensures
        prepend(vs, c, prepend(seq![v], d, r)) == prepend(vs.push(v), c + d, r),
{
    if let Some((ws, e)) = r {
        assert(vs + (seq![v] + ws) =~= vs.push(v) + ws);
    }
}

/// Writes lengths.
pub struct LengthEncoder {
    bytes: Vec<u8>,
    lens: Ghost<Seq<usize>>,
    room: Ghost<nat>,
}

impl Buffer for LengthEncoder {
    closed spec fn wf(&self) -> bool {
        self.bytes@ == lengths_bytes(self.lens@)
    }

    closed spec fn pending(&self) -> Seq<u8> {
        self.bytes@
    }

    closed spec fn room(&self) -> nat {
        self.room@
    }

    closed spec fn same_items(&self, other: &Self) -> bool {
        self.lens@ == other.lens@
    }

    closed spec fn is_clear(&self) -> bool {
        self.lens@.len() == 0
    }

    fn new() -> (r: Self) {
        LengthEncoder { bytes: Vec::new(), lens: Ghost(Seq::empty()), room: Ghost(0) }
    }

    fn collect_into(&mut self, out: &mut Vec<u8>) {
        out.append(&mut self.bytes);
        self.lens = Ghost(Seq::empty());
    }

    fn reserve(&mut self, additional: usize) {
        self.bytes.reserve(additional);
        self.room = Ghost(if self.room@ >= additional { self.room@ } else { additional as nat });
    }
}

impl Encoder<usize> for LengthEncoder {
    closed spec fn values(&self) -> Seq<usize> {
        self.lens@
    }

    open spec fn encoding(values: Seq<usize>) -> Seq<u8> {
        lengths_bytes(values)
    }

    open spec fn encodable(values: Seq<usize>) -> bool {
        true
    }

    proof fn lemma_encoding_empty() {
    }

    proof fn lemma_model(&self) {
    }

    proof fn lemma_same_items(&self, other: &Self) {
    }

    proof fn lemma_clear(&self) {
        assert(self.lens@ =~= Seq::<usize>::empty());
    }

    open spec fn flat_size() -> Option<usize> {
        None
    }

    fn primitive_size(&self) -> (r: Option<usize>) {
        None
    }

    fn encode(&mut self, t: &usize) {
        let n = *t;
        if n < 255 {
            self.bytes.push(n as u8);
        } else {
            let x = n as u64;
            self.bytes.push(LONG_MARKER);
            self.bytes.push(x as u8);
            self.bytes.push((x >> 8u64) as u8);
            self.bytes.push((x >> 16u64) as u8);
            self.bytes.push((x >> 24u64) as u8);
            self.bytes.push((x >> 32u64) as u8);
            self.bytes.push((x >> 40u64) as u8);
            self.bytes.push((x >> 48u64) as u8);
            self.bytes.push((x >> 56u64) as u8);
        }
        proof {
            lemma_lengths_bytes_push(self.lens@, n);
            assert(self.bytes@ =~= old(self).bytes@ + length_bytes(n));
        }
        self.lens = Ghost(self.lens@.push(n));
        self.room = Ghost((self.room@ - 1) as nat);
    }
}

/// Reads the length at `at` in `bytes`.
fn parse_one_exec(bytes: &[u8], at: usize) -> (r: Option<(usize, usize)>)
    requires
        at <= bytes@.len(),
    ensures
        r matches Some((v, c)) ==> parse_one(bytes@.skip(at as int)) == Some((v, c as nat)) && at + c <= bytes@.len(),
        r is None ==> parse_one(bytes@.skip(at as int)) is None,
{
    let ghost s = bytes@.skip(at as int);
    if at >= bytes.len() {
        return None;
    }
    let b = bytes[at];
    if b < 255 {
        return Some((b as usize, 1));
    }
    if bytes.len() - at < 9 {
        return None;
    }
    let v = bytes[at + 1] as u64 | (bytes[at + 2] as u64) << 8u64 | (bytes[at + 3] as u64) << 16u64
        | (bytes[at + 4] as u64) << 24u64 | (bytes[at + 5] as u64) << 32u64
        | (bytes[at + 6] as u64) << 40u64 | (bytes[at + 7] as u64) << 48u64
        | (bytes[at + 8] as u64) << 56u64;
    assert(v == from_le8(s[1], s[2], s[3], s[4], s[5], s[6], s[7], s[8]));
    if v > usize::MAX as u64 {
        return None;
    }
    Some((v as usize, 9))
}

/// Reads lengths and hands them out one by one.
pub struct LengthDecoder {
    lens: Vec<usize>,
    pos: usize,
    total: usize,
}

impl LengthDecoder {
    /// The sum of the lengths read by the last `populate`.
    pub closed spec fn total(&self) -> nat {
        self.total as nat
    }

    /// The sum of the lengths read by the last `populate`.
    pub fn length(&self) -> (r: usize)
        ensures
            r == self.total(),
    {
        self.total
    }
}

impl<'a> View<'a> for LengthDecoder {
    closed spec fn inv(&self) -> bool {
        self.pos <= self.lens@.len() <= usize::MAX
    }

    open spec fn parse_len(input: Seq<u8>, length: nat) -> Option<nat> {
        match parse_many(input, length) {
            Some((vs, c)) => if sum(vs) <= usize::MAX { Some(c) } else { None },
            None => None,
        }
    }

    closed spec fn loaded(&self, input: Seq<u8>, length: nat) -> bool {
        &&& parse_many(input, length) matches Some((vs, c))
        &&& self.lens@ == vs
        &&& self.pos == 0
        &&& self.total == sum(vs)
    }

    fn new() -> (r: Self) {
        LengthDecoder { lens: Vec::new(), pos: 0, total: 0 }
    }

    fn populate(&mut self, input: &mut &'a [u8], length: usize) -> (r: Result<(), Error>)
        ensures
            r is Ok ==> final(self).total() == sum(final(self).remaining()),
            parse_many(old(input)@, length as nat) is None ==> r == Err::<(), Error>(Error::Eof),
            parse_many(old(input)@, length as nat) matches Some((vs, c)) && sum(vs) > usize::MAX
                ==> r == Err::<(), Error>(Error::Invalid),
    {
        let bytes: &'a [u8] = *input;
        let ghost whole = bytes@;
        let mut lens: Vec<usize> = Vec::new();
        let mut at: usize = 0;
        let mut total: usize = 0;
        let mut too_big = false;
        let blen = bytes.len();
        let mut i: usize = 0;
        proof {
            assert(whole.skip(0) =~= whole);
            if let Some((ws, d)) = parse_many(whole, length as nat) {
                assert(Seq::<usize>::empty() + ws =~= ws);
            }
        }
        while i < length
            invariant
                bytes@ == whole,
                whole == old(input)@,
                blen == whole.len(),
                i <= length,
                at <= whole.len(),
                lens@.len() == i,
                !too_big ==> total == sum(lens@),
                too_big ==> sum(lens@) > usize::MAX,
                parse_many(whole, length as nat) == prepend(lens@, at as nat, parse_many(whole.skip(at as int), (length - i) as nat)),
            decreases length - i,
        {
            match parse_one_exec(bytes, at) {
                None => {
                    assert(parse_many(whole, length as nat) is None);
                    return Err(Error::Eof);
                },
                Some((v, c)) => {
                    proof {
                        let rest = whole.skip(at as int);
                        assert(rest.skip(c as int) =~= whole.skip(at + c));
                        lemma_prepend_step(lens@, at as nat, v, c as nat, parse_many(whole.skip(at + c), (length - i - 1) as nat));
                    }
                    assert(lens@.push(v).drop_last() =~= lens@);
                    if !too_big && total <= usize::MAX - v {
                        total = total + v;
                    } else {
                        too_big = true;
                    }
                    lens.push(v);
                    at = at + c;
                    i = i + 1;
                },
            }
        }
        assert(lens@ + Seq::<usize>::empty() =~= lens@);
        if too_big {
            return Err(Error::Invalid);
        }
        self.lens = lens;
        self.pos = 0;
        self.total = total;
        *input = vstd::slice::slice_subrange(bytes, at, bytes.len());
        assert(input@ =~= whole.skip(at as int));
        assert(self.lens@.skip(0) =~= self.lens@);
        Ok(())
    }
}

impl<'a> Decoder<'a, usize> for LengthDecoder {
    closed spec fn remaining(&self) -> Seq<usize> {
        self.lens@.skip(self.pos as int)
    }

    open spec fn decoding(input: Seq<u8>, length: nat) -> Seq<usize> {
        match parse_many(input, length) {
            Some((vs, c)) => vs,
            None => Seq::empty(),
        }
    }

    proof fn lemma_loaded(&self, input: Seq<u8>, length: nat) {
        assert(self.lens@.skip(0) =~= self.lens@);
        lemma_parse_count(input, length);
    }

    fn decode(&mut self) -> (r: usize) {
        let r = self.lens[self.pos];
        self.pos = self.pos + 1;
        assert(self.remaining() =~= old(self).remaining().drop_first());
        r
    }
}

/// A successful parse of `count` lengths yields `count` of them.
proof fn lemma_parse_count(input: Seq<u8>, count: nat)
    ensures
        parse_many(input, count) matches Some((vs, c)) ==> vs.len() == count && c <= input.len(),
    decreases count,
{
    if count > 0 {
        if let Some((v, c)) = parse_one(input) {
            lemma_parse_count(input.skip(c as int), (count - 1) as nat);
        }
    }
}

impl Default for LengthEncoder {
    fn default() -> (r: Self)
        ensures
            r.wf(),
            r.is_clear(),
            r.pending().len() == 0,
    {
        <Self as Buffer>::new()
    }
}

impl Default for LengthDecoder {
    fn default() -> (r: Self)
        ensures
            r.inv(),
    {
        <Self as View<'static>>::new()
    }
}

} // verus!
