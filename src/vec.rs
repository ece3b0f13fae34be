use vstd::prelude::*;
use crate::coder::{deep, Buffer, Decoder, Encoder, View, MAX_VECTORED_CHUNK};
use crate::error::Error;
use crate::length::{lengths_bytes, parse_many, sum, LengthDecoder, LengthEncoder};
use vstd::view::View as _;

verus! {

broadcast use vstd::seq_lib::group_seq_properties;

/// The lengths of a run of sequences.
pub open spec fn lens_of<A>(vss: Seq<Seq<A>>) -> Seq<usize> {
    Seq::new(vss.len(), |i: int| vss[i].len() as usize)
}

/// Cuts `items` into consecutive runs of the given lengths.
pub open spec fn split<A>(items: Seq<A>, lens: Seq<usize>) -> Seq<Seq<A>>
    decreases lens.len(),
{
    if lens.len() == 0 {
        Seq::empty()
    } else {
        seq![items.take(lens[0] as int)] + split(items.skip(lens[0] as int), lens.skip(1))
    }
}

/// Every sequence of `vss` has a length that fits a `usize`, and so do all
/// of them together.
pub open spec fn lens_fit<A>(vss: Seq<Seq<A>>) -> bool {
    &&& forall|i: int| 0 <= i < vss.len() ==> #[trigger] vss[i].len() <= usize::MAX
    &&& vss.flatten().len() <= usize::MAX
}

/// How a batch of runs is copied when the element encoder stores a flat array.
#[derive(Clone, Copy, Debug, PartialEq, Eq, Structural)]
pub enum Strategy {
    /// Every run is at most this many items and is moved as a whole block.
    Width(usize),
    /// Runs are copied item-exactly, whatever their length.
    Precise,
}

/// The strategy is one that the encoder can carry out.
pub open spec fn strategy_ok(s: Strategy) -> bool {
    s matches Strategy::Width(w) ==> 1 <= w <= MAX_VECTORED_CHUNK
}

/// A measure that escalation strictly lowers.
pub open spec fn strategy_rank(s: Strategy) -> nat {
    match s {
        Strategy::Width(w) => if w <= MAX_VECTORED_CHUNK { (1 + MAX_VECTORED_CHUNK - w) as nat } else { 0 },
        Strategy::Precise => 0,
    }
}

/// The first width for items of `size` bytes: `max(8 / size, 1)`, a block of
/// about one machine word.
pub open spec fn initial_width(size: nat) -> nat {
    if size >= 5 { 1 } else if size >= 3 { 2 } else if size == 2 { 4 } else { 8 }
}

/// The strategy that follows `Width(w)` for items of `size` bytes: twice the
/// width while a block stays within 64 bytes, else exact copies.
pub open spec fn escalated(w: nat, size: nat) -> Strategy {
    if w < 64 && w * size <= 32 { Strategy::Width((2 * w) as usize) } else { Strategy::Precise }
}

/// The lengths of the runs of a batch.
pub open spec fn run_lens<T>(items: Seq<Vec<T>>) -> Seq<usize> {
    Seq::new(items.len(), |k: int| items[k]@.len() as usize)
}

/// No run of the batch is longer than `w`.
pub open spec fn all_within(lens: Seq<usize>, w: nat) -> bool {
    forall|k: int| 0 <= k < lens.len() ==> lens[k] <= w
}

/// The strategy a batch with runs of lengths `lens` is encoded with,
/// starting from `s`: the first on the chain of escalations from `s` whose
/// width fits every run, or exact copies.
pub open spec fn settle(s: Strategy, size: nat, lens: Seq<usize>) -> Strategy
    decreases strategy_rank(s),
{
    match s {
        Strategy::Width(w) => if 1 <= w <= MAX_VECTORED_CHUNK && !all_within(lens, w as nat) {
            settle(escalated(w as nat, size), size, lens)
        } else {
            s
        },
        Strategy::Precise => s,
    }
}

/// Where a batch starts: the cached strategy, or the first width for items
/// of `size` bytes.
pub open spec fn start(cached: Option<Strategy>, size: nat) -> Strategy {
    match cached {
        Some(s) => s,
        None => Strategy::Width(initial_width(size) as usize),
    }
}

/// The strategy that a fresh encoder starts from.
pub fn initial_strategy(size: usize) -> (r: Strategy)
    requires
        size > 0,
    ensures
        r == Strategy::Width(initial_width(size as nat) as usize),
        strategy_ok(r),
{
    let w: usize = if size >= 5 { 1 } else if size >= 3 { 2 } else if size == 2 { 4 } else { 8 };
    Strategy::Width(w)
}

/// The strategy to take when some run of a batch is longer than `w`.
pub fn escalate(w: usize, size: usize) -> (r: Strategy)
    requires
        1 <= w <= MAX_VECTORED_CHUNK,
        size > 0,
    ensures
        r == escalated(w as nat, size as nat),
        strategy_ok(r),
        strategy_rank(r) < strategy_rank(Strategy::Width(w)),
{
    if w < 64 && size <= 32 / w {
        assert(w * size <= 32 && w <= 32) by (nonlinear_arith)
            requires size <= 32usize / w, w >= 1usize, size >= 1usize;
        Strategy::Width(2 * w)
    } else {
        proof {
            if w < 64 && w * size <= 32 {
                assert(size <= 32usize / w) by (nonlinear_arith)
                    requires w * size <= 32, w >= 1usize;
            }
        }
        Strategy::Precise
    }
}

/// Encodes runs of items as all their lengths, then all their items.
pub struct VecEncoder<T: DeepView, E: Encoder<T>> {
    lengths: LengthEncoder,
    elements: E,
    vectored: Option<Strategy>,
    values: Ghost<Seq<Seq<T::V>>>,
    marker: std::marker::PhantomData<T>,
}

impl<T: DeepView, E: Encoder<T>> VecEncoder<T, E> {
    /// The strategy cached for batches, if one was chosen yet.
    pub closed spec fn strategy(&self) -> Option<Strategy> {
        self.vectored
    }

    /// The strategy cached for batches, if one was chosen yet.
    pub fn cached_strategy(&self) -> (r: Option<Strategy>)
        ensures
            r == self.strategy(),
    {
        self.vectored
    }

    /// Encodes each run of `items` on its own.
    fn encode_each(&mut self, items: &[Vec<T>])
        requires
            old(self).wf(),
            items@.len() <= old(self).room(),
        ensures
            final(self).wf(),
            final(self).values() == old(self).values() + deep(items@),
            final(self).room() == old(self).room() - items@.len(),
            final(self).strategy() == old(self).strategy(),
    {
        let mut i: usize = 0;
        while i < items.len()
            invariant
                self.wf(),
                i <= items@.len(),
                items@.len() <= old(self).room(),
                self.values() == old(self).values() + deep(items@.take(i as int)),
                self.room() == old(self).room() - i,
                self.strategy() == old(self).strategy(),
            decreases items@.len() - i,
        {
            self.encode(&items[i]);
            assert(deep(items@.take(i + 1)) =~= deep(items@.take(i as int)).push(items@[i as int].deep_view()));
            i = i + 1;
        }
        assert(items@.take(i as int) =~= items@);
    }

    /// Encodes each run of `items`, none longer than `w`, moving whole blocks
    /// of `w` items.
    fn encode_blocks(&mut self, items: &[Vec<T>], w: usize)
        requires
            old(self).wf(),
            items@.len() <= old(self).room(),
            1 <= w <= MAX_VECTORED_CHUNK,
            forall|j: int| 0 <= j < items@.len() ==> (#[trigger] items@[j])@.len() <= w,
        ensures
            final(self).wf(),
            final(self).values() == old(self).values() + deep(items@),
            final(self).room() == old(self).room() - items@.len(),
            final(self).strategy() == old(self).strategy(),
    {
        let mut i: usize = 0;
        while i < items.len()
            invariant
                self.wf(),
                i <= items@.len(),
                items@.len() <= old(self).room(),
                1 <= w <= MAX_VECTORED_CHUNK,
                forall|j: int| 0 <= j < items@.len() ==> (#[trigger] items@[j])@.len() <= w,
                self.values() == old(self).values() + deep(items@.take(i as int)),
                self.room() == old(self).room() - i,
                self.strategy() == old(self).strategy(),
            decreases items@.len() - i,
        {
            let v = &items[i];
            let n = v.len();
            let ghost before = self.values@;
            self.lengths.encode(&n);
            if n > 0 {
                self.elements.encode_block(v.as_slice(), w);
            } else {
                assert(deep(v@) =~= Seq::<T::V>::empty());
                assert(self.elements.values() =~= self.elements.values() + deep(v@));
            }
            self.values = Ghost(before.push(v.deep_view()));
            proof {
                before.lemma_flatten_push(v.deep_view());
                assert(v.deep_view() =~= deep(v@));
                assert(lens_of(self.values@) =~= lens_of(before).push(n));
            }
            assert(deep(items@.take(i + 1)) =~= deep(items@.take(i as int)).push(items@[i as int].deep_view()));
            i = i + 1;
        }
        assert(items@.take(i as int) =~= items@);
    }
}

impl<T: DeepView, E: Encoder<T>> Buffer for VecEncoder<T, E> {
    closed spec fn wf(&self) -> bool {
        &&& self.lengths.wf()
        &&& self.elements.wf()
        &&& self.lengths.values() == lens_of(self.values@)
        &&& self.elements.values() == self.values@.flatten()
        &&& (self.vectored matches Some(s) ==> strategy_ok(s))
    }

    closed spec fn pending(&self) -> Seq<u8> {
        self.lengths.pending() + self.elements.pending()
    }

    closed spec fn room(&self) -> nat {
        self.lengths.room()
    }

    closed spec fn same_items(&self, other: &Self) -> bool {
        self.values@ == other.values@
    }

    closed spec fn is_clear(&self) -> bool {
        self.values@.len() == 0
    }

    fn new() -> (r: Self)
        ensures
            r.strategy() is None,
    {
        let lengths = LengthEncoder::new();
        let elements = E::new();
        proof {
            lengths.lemma_clear();
            elements.lemma_clear();
        }
        let r = VecEncoder {
            lengths,
            elements,
            vectored: None,
            values: Ghost(Seq::empty()),
            marker: std::marker::PhantomData,
        };
        assert(lens_of(r.values@) =~= Seq::<usize>::empty());
        assert(r.values@.flatten() =~= Seq::<T::V>::empty());
        proof {
            r.lengths.lemma_model();
            r.elements.lemma_model();
        }
        r
    }

    fn collect_into(&mut self, out: &mut Vec<u8>) {
        self.lengths.collect_into(out);
        self.elements.collect_into(out);
        self.values = Ghost(Seq::empty());
        proof {
            self.lengths.lemma_clear();
            self.elements.lemma_clear();
            assert(lens_of(self.values@) =~= Seq::<usize>::empty());
            assert(self.values@.flatten() =~= Seq::<T::V>::empty());
        }
        assert(out@ =~= old(out)@ + old(self).pending());
    }

    fn reserve(&mut self, additional: usize) {
        // The lengths of the runs are not known yet, so only the lengths are reserved.
        self.lengths.reserve(additional);
        proof { self.lengths.lemma_same_items(&old(self).lengths); }
    }
}

impl<T: DeepView, E: Encoder<T>> Encoder<Vec<T>> for VecEncoder<T, E> {
    closed spec fn values(&self) -> Seq<Seq<T::V>> {
        self.values@
    }

    open spec fn encoding(values: Seq<Seq<T::V>>) -> Seq<u8> {
        lengths_bytes(lens_of(values)) + E::encoding(values.flatten())
    }

    open spec fn encodable(values: Seq<Seq<T::V>>) -> bool {
        lens_fit(values) && E::encodable(values.flatten())
    }

    proof fn lemma_encoding_empty() {
        E::lemma_encoding_empty();
        assert(lens_of(Seq::<Seq<T::V>>::empty()) =~= Seq::<usize>::empty());
        assert(Seq::<Seq<T::V>>::empty().flatten() =~= Seq::<T::V>::empty());
        assert(Seq::<u8>::empty() + Seq::<u8>::empty() =~= Seq::<u8>::empty());
    }

    proof fn lemma_model(&self) {
        self.lengths.lemma_model();
        self.elements.lemma_model();
    }

    proof fn lemma_same_items(&self, other: &Self) {
    }

    proof fn lemma_clear(&self) {
    }

    open spec fn flat_size() -> Option<usize> {
        None
    }

    fn primitive_size(&self) -> (r: Option<usize>) {
        None
    }

    fn encode(&mut self, t: &Vec<T>)
        ensures
            final(self).strategy() == old(self).strategy(),
    {
        let n = t.len();
        let ghost before = self.values@;
        self.lengths.encode(&n);
        self.elements.encode_slice(t.as_slice());
        self.values = Ghost(before.push(t.deep_view()));
        proof {
            before.lemma_flatten_push(t.deep_view());
            assert(t.deep_view() =~= deep(t@));
            assert(lens_of(self.values@) =~= lens_of(before).push(n));
        }
    }

    fn encode_vectored(&mut self, items: &[Vec<T>])
        ensures
            E::flat_size() is None ==> final(self).strategy() == old(self).strategy(),
            E::flat_size() matches Some(size) ==> final(self).strategy() == Some(
                settle(start(old(self).strategy(), size as nat), size as nat, run_lens(items@)),
            ),
    {
        match self.elements.primitive_size() {
            None => self.encode_each(items),
            Some(size) => {
                let ghost lens = run_lens(items@);
                let ghost goal = settle(start(old(self).strategy(), size as nat), size as nat, lens);
                if self.vectored.is_none() {
                    self.vectored = Some(initial_strategy(size));
                }
                loop
                    invariant_except_break
                        self.values() == old(self).values(),
                        self.room() == old(self).room(),
                        self.vectored matches Some(s) && settle(s, size as nat, lens) == goal,
                    invariant
                        self.wf(),
                        self.vectored is Some,
                        size > 0,
                        0 < items@.len() <= MAX_VECTORED_CHUNK,
                        items@.len() <= old(self).room(),
                        lens == run_lens(items@),
                    ensures
                        self.wf(),
                        self.values() == old(self).values() + deep(items@),
                        self.room() == old(self).room() - items@.len(),
                        self.vectored == Some(goal),
                    decreases strategy_rank(self.vectored->0),
                {
                    match self.vectored {
                        Some(Strategy::Width(w)) => {
                            let mut longest: usize = 0;
                            let mut j: usize = 0;
                            while j < items.len()
                                invariant
                                    j <= items@.len(),
                                    forall|k: int| 0 <= k < j ==> (#[trigger] items@[k])@.len() <= longest,
                                    longest > 0 ==> exists|k: int| 0 <= k < j && (#[trigger] items@[k])@.len() == longest,
                                decreases items@.len() - j,
                            {
                                if items[j].len() > longest {
                                    longest = items[j].len();
                                }
                                j = j + 1;
                            }
                            if longest <= w {
                                assert(all_within(lens, w as nat)) by {
                                    assert forall|k: int| 0 <= k < lens.len() implies lens[k] <= w by {
                                        assert(items@[k]@.len() <= longest);
                                    }
                                }
                                self.encode_blocks(items, w);
                                break;
                            }
                            proof {
                                let k = choose|k: int| 0 <= k < j && (#[trigger] items@[k])@.len() == longest;
                                assert(lens[k] > w);
                                assert(!all_within(lens, w as nat));
                            }
                            self.vectored = Some(escalate(w, size));
                        },
                        _ => {
                            self.encode_each(items);
                            break;
                        },
                    }
                }
            },
        }
    }
}

proof fn lemma_split_len<A>(items: Seq<A>, lens: Seq<usize>)
    ensures
        split(items, lens).len() == lens.len(),
    decreases lens.len(),
{
    if lens.len() > 0 {
        lemma_split_len(items.skip(lens[0] as int), lens.skip(1));
    }
}

proof fn lemma_sum_front(ls: Seq<usize>)
    requires
        ls.len() > 0,
    ensures
        sum(ls) == ls[0] + sum(ls.skip(1)),
    decreases ls.len(),
{
    if ls.len() > 1 {
        lemma_sum_front(ls.drop_last());
        assert(ls.drop_last().skip(1) =~= ls.skip(1).drop_last());
    } else {
        assert(ls.drop_last() =~= Seq::<usize>::empty());
        assert(ls.skip(1) =~= Seq::<usize>::empty());
    }
}

/// The lengths of runs add up to the number of their items, and cutting the
/// items by those lengths gives the runs back.
pub proof fn lemma_split_flatten<A>(vss: Seq<Seq<A>>)
    requires
        forall|i: int| 0 <= i < vss.len() ==> #[trigger] vss[i].len() <= usize::MAX,
    ensures
        sum(lens_of(vss)) == vss.flatten().len(),
        split(vss.flatten(), lens_of(vss)) == vss,
    decreases vss.len(),
{
    if vss.len() > 0 {
        let rest = vss.drop_first();
        assert forall|i: int| 0 <= i < rest.len() implies #[trigger] rest[i].len() <= usize::MAX by {
            assert(rest[i] == vss[i + 1]);
        }
        lemma_split_flatten(rest);
        assert(lens_of(vss).skip(1) =~= lens_of(rest));
        lemma_sum_front(lens_of(vss));
        let flat = vss.flatten();
        assert(flat == vss[0] + rest.flatten());
        assert(flat.take(vss[0].len() as int) =~= vss[0]);
        assert(flat.skip(vss[0].len() as int) =~= rest.flatten());
        assert(split(flat, lens_of(vss)) =~= seq![vss[0]] + rest);
        assert(seq![vss[0]] + rest =~= vss);
    } else {
        assert(split(vss.flatten(), lens_of(vss)) =~= vss);
    }
}

/// Decodes runs of items: all their lengths first, then all their items.
pub struct VecDecoder<'a, T: DeepView, D: Decoder<'a, T>> {
    lengths: LengthDecoder,
    elements: D,
    ready: bool,
    marker: std::marker::PhantomData<(&'a [u8], T)>,
}

impl<'a, T: DeepView, D: Decoder<'a, T>> View<'a> for VecDecoder<'a, T, D> {
    closed spec fn inv(&self) -> bool {
        &&& self.lengths.inv()
        &&& self.elements.inv()
        &&& self.ready ==> sum(self.lengths.remaining()) == self.elements.remaining().len()
    }

    open spec fn parse_len(input: Seq<u8>, length: nat) -> Option<nat> {
        match parse_many(input, length) {
            Some((ls, c)) => if sum(ls) <= usize::MAX {
                match D::parse_len(input.skip(c as int), sum(ls)) {
                    Some(d) => Some(c + d),
                    None => None,
                }
            } else {
                None
            },
            None => None,
        }
    }

    closed spec fn loaded(&self, input: Seq<u8>, length: nat) -> bool {
        &&& parse_many(input, length) matches Some((ls, c))
        &&& self.ready
        &&& self.lengths.loaded(input, length)
        &&& self.elements.loaded(input.skip(c as int), sum(ls))
    }

    fn new() -> (r: Self) {
        let r = VecDecoder { lengths: LengthDecoder::new(), elements: D::new(), ready: false, marker: std::marker::PhantomData };
        r
    }

    fn populate(&mut self, input: &mut &'a [u8], length: usize) -> (r: Result<(), Error>)
        ensures
            parse_many(old(input)@, length as nat) is None ==> r == Err::<(), Error>(Error::Eof),
            parse_many(old(input)@, length as nat) matches Some((ls, c)) && sum(ls) > usize::MAX
                ==> r == Err::<(), Error>(Error::Invalid),
            r is Err ==> final(self).remaining().len() == 0,
    {
        let ghost whole = input@;
        self.ready = false;
        match self.lengths.populate(input, length) {
            Err(e) => return Err(e),
            Ok(()) => {},
        }
        let total = self.lengths.length();
        let ghost after_lengths = input@;
        proof {
            self.lengths.lemma_loaded(whole, length as nat);
        }
        let r = self.elements.populate(input, total);
        self.ready = r.is_ok();
        proof {
            if let Some((ls, c)) = parse_many(whole, length as nat) {
                assert(after_lengths == whole.skip(c as int));
                if r is Ok {
                    let d = D::parse_len(after_lengths, total as nat)->0;
                    assert(input@ =~= whole.skip((c + d) as int));
                    self.elements.lemma_loaded(after_lengths, total as nat);
                }
            }
        }
        r
    }
}

impl<'a, T: DeepView, D: Decoder<'a, T>> Decoder<'a, Vec<T>> for VecDecoder<'a, T, D> {
    closed spec fn remaining(&self) -> Seq<Seq<T::V>> {
        if self.ready { split(self.elements.remaining(), self.lengths.remaining()) } else { Seq::empty() }
    }

    open spec fn decoding(input: Seq<u8>, length: nat) -> Seq<Seq<T::V>> {
        match parse_many(input, length) {
            Some((ls, c)) => split(D::decoding(input.skip(c as int), sum(ls)), ls),
            None => Seq::empty(),
        }
    }

    proof fn lemma_loaded(&self, input: Seq<u8>, length: nat) {
        let (ls, c) = parse_many(input, length)->0;
        self.lengths.lemma_loaded(input, length);
        self.elements.lemma_loaded(input.skip(c as int), sum(ls));
        lemma_split_len(self.elements.remaining(), self.lengths.remaining());
    }

    fn decode(&mut self) -> (r: Vec<T>) {
        let ghost ls = self.lengths.remaining();
        let ghost items = self.elements.remaining();
        proof { lemma_sum_front(ls); }
        let n = self.lengths.decode();
        let r = if n == 0 {
            assert(items.take(0) =~= Seq::<T::V>::empty());
            assert(items.skip(0) =~= items);
            Vec::new()
        } else {
            self.elements.decode_many(n)
        };
        assert(r.deep_view() =~= deep(r@));
        assert(ls.drop_first() =~= ls.skip(1));
        r
    }
}

/// Copies the first `n` items of `src` over `dst` from position `at` on.
pub fn copy_nonoverlapping_unaligned<T: Copy>(src: &[T], dst: &mut Vec<T>, at: usize, n: usize)
    requires
        n <= src@.len(),
        at + n <= old(dst)@.len(),
    ensures
        final(dst)@ == old(dst)@.take(at as int) + src@.take(n as int) + old(dst)@.skip(at + n),
{
    let len = dst.len();
    let mut i: usize = 0;
    while i < n
        invariant
            len == old(dst)@.len(),
            n <= src@.len(),
            at + n <= old(dst)@.len(),
            i <= n,
            dst@.len() == old(dst)@.len(),
            dst@ == old(dst)@.take(at as int) + src@.take(i as int) + old(dst)@.skip(at + i),
        decreases n - i,
    {
        dst.set(at + i, src[i]);
        assert(dst@ =~= old(dst)@.take(at as int) + src@.take(i + 1) + old(dst)@.skip(at + i + 1));
        i = i + 1;
    }
}

/// Copies the first `n` items of `src` to `dst` at `at`, moving a whole block
/// of `block` items where `src` holds that many, and exactly `n` otherwise.
/// `dst` has room for a whole block at `at`; past the `n` items it may hold
/// anything afterwards.
pub fn wild_copy<T: Copy>(src: &[T], dst: &mut Vec<T>, at: usize, n: usize, block: usize)
    requires
        0 < n <= block,
        n <= src@.len(),
        at + block <= old(dst)@.len(),
    ensures
        final(dst)@.len() == old(dst)@.len(),
        final(dst)@.take(at as int) == old(dst)@.take(at as int),
        final(dst)@.subrange(at as int, at + n) == src@.take(n as int),
{
    if block <= src.len() {
        copy_nonoverlapping_unaligned(src, dst, at, block);
        assert(dst@.subrange(at as int, at + n) =~= src@.take(n as int));
    } else {
        copy_nonoverlapping_unaligned(src, dst, at, n);
        assert(dst@.subrange(at as int, at + n) =~= src@.take(n as int));
    }
    assert(dst@.take(at as int) =~= old(dst)@.take(at as int));
}

impl<T: DeepView, E: Encoder<T>> Default for VecEncoder<T, E> {
    fn default() -> (r: Self)
        ensures
            r.strategy() is None,
            r.wf(),
            r.is_clear(),
            r.pending().len() == 0,
    {
        <Self as Buffer>::new()
    }
}

impl<'a, T: DeepView, D: Decoder<'a, T>> Default for VecDecoder<'a, T, D> {
    fn default() -> (r: Self)
        ensures
            r.inv(),
    {
        <Self as View<'a>>::new()
    }
}

} // verus!
