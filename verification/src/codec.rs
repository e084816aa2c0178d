//! The striping codec: data is framed, cut into stripes of `k` words, and each stripe
//! is spread over `n` shards, any `k` of which give it back.
use vstd::prelude::*;
use crate::coefficients::{canonical, eval, lemma_span_le_len, lemma_trim};
use crate::framing::{
    byte_or_zero, bytes_of, framed, framed_len, le_value, lemma_frame_len, lemma_word_bytes,
    length_prefix, padding, stripe_count, unframed, word_at, word_bytes, word_count, words_of,
};
use crate::gf232::GF232;
use crate::interpolation::{
    basis_upto, distinct_nodes, interpolation, interpolation_upto, lemma_basis_len,
    lemma_eval_linear, lemma_interpolation, lemma_points_differ, node, nodes,
};
use crate::polygf232::PolyGF232;
use vstd::pervasive::runtime_assert;
use vstd::std_specs::ops::AddSpec;

verus! {

/// Shifting right by one byte after `i` bytes is shifting right by `i + 1` bytes.
proof fn lemma_prefix_shifts(x: u64, i: u64)
    by (bit_vector)
    ensures
        x >> 0 == x,
        i < 7 ==> (x >> ((8 * i) as u64)) >> 8 == x >> ((8 * (i + 1)) as u64),
{
}

/// The eight bytes of `x`, lowest first.
pub fn as_bytes(x: u64) -> (result: Vec<u8>)
    ensures
        result@ == length_prefix(x),
{
    let mut x = x;
    let ghost whole = x;
    let mut result: Vec<u8> = Vec::new();
    let mut i: usize = 0;
    proof {
        lemma_prefix_shifts(whole, 0);
    }
    while i < 8
        invariant
            i <= 8,
            i < 8 ==> x == whole >> ((8 * i) as u64),
            result@ == length_prefix(whole).take(i as int),
        decreases 8 - i,
    {
        proof {
            lemma_prefix_shifts(whole, i as u64);
        }
        result.push((x & 0xFF) as u8);
        x >>= 8;
        i += 1;
        assert(result@ =~= length_prefix(whole).take(i as int));
    }
    assert(length_prefix(whole).take(8) =~= length_prefix(whole));
    result
}

/// The number that the first eight of the bytes hold, lowest byte first.
pub fn as_u64(bytes: &[u8]) -> (result: u64)
    requires
        bytes@.len() >= 8,
    ensures
        result == le_value(bytes@, 8),
{
    let mut result: u64 = 0;
    let mut i: usize = 0;
    while i < 8
        invariant
            i <= 8,
            bytes@.len() >= 8,
            result == le_value(bytes@, i as nat),
        decreases 8 - i,
    {
        result |= (bytes[i] as u64) << (i * 8);
        i += 1;
    }
    result
}

/// What is left of the bytes after one word is taken from their front.
pub open spec fn after_word(bytes: Seq<u8>) -> Seq<u8> {
    if bytes.len() >= 4 {
        bytes.skip(4)
    } else {
        Seq::empty()
    }
}

/// What is left of the bytes after `t` words are taken from their front.
pub open spec fn after_words(bytes: Seq<u8>, t: nat) -> Seq<u8> {
    if bytes.len() >= 4 * t {
        bytes.skip(4 * t as int)
    } else {
        Seq::empty()
    }
}

/// A reader of little-endian 32-bit words from bytes. Its view is the bytes not yet
/// read.
#[derive(Debug)]
pub struct IterU32<'a> {
    inner: &'a [u8],
    pos: usize,
}

impl<'a> View for IterU32<'a> {
    type V = Seq<u8>;

    closed spec fn view(&self) -> Seq<u8> {
        if self.pos <= self.inner@.len() {
            self.inner@.skip(self.pos as int)
        } else {
            Seq::empty()
        }
    }
}

impl<'a> IterU32<'a> {
    /// A reader at the front of `inner`.
    pub fn new(inner: &'a [u8]) -> (result: IterU32<'a>)
        ensures
            result@ == inner@,
    {
        assert(inner@.skip(0) =~= inner@);
        IterU32 { inner, pos: 0 }
    }

    /// The next word, or `None` where no byte is left. A last word of fewer than four
    /// bytes is filled up with zero bytes.
    pub fn next(&mut self) -> (result: Option<u32>)
        ensures
            old(self)@.len() == 0 ==> result is None && final(self)@ == old(self)@,
            old(self)@.len() > 0 ==> result == Some(word_at(old(self)@, 0)) && final(self)@
                == after_word(old(self)@),
    {
        let ghost left = self@;
        let len = self.inner.len();
        let mut result: u32;
        if self.pos < len {
            result = self.inner[self.pos] as u32;
            self.pos += 1;
        } else {
            return None;
        }
        proof {
            lemma_word_bytes(
                0,
                byte_or_zero(left, 0),
                byte_or_zero(left, 1),
                byte_or_zero(left, 2),
                byte_or_zero(left, 3),
            );
        }
        if self.pos < len {
            result += (self.inner[self.pos] as u32) << 8;
            self.pos += 1;
        }
        if self.pos < len {
            result += (self.inner[self.pos] as u32) << 16;
            self.pos += 1;
        }
        if self.pos < len {
            result += (self.inner[self.pos] as u32) << 24;
            self.pos += 1;
        }
        assert(self@ =~= after_word(left));
        Some(result)
    }
}

/// Taking `t` words and then one more is taking `t + 1` words, and the next word after
/// `t` words is word `t`.
pub proof fn lemma_after_words(bytes: Seq<u8>, t: nat)
    ensures
        after_words(bytes, 0) == bytes,
        after_word(after_words(bytes, t)) == after_words(bytes, t + 1),
        word_at(after_words(bytes, t), 0) == word_at(bytes, t as int),
        after_words(bytes, t).len() > 0 <==> t < word_count(bytes.len()),
{
    assert(after_words(bytes, 0) =~= bytes);
    assert(after_word(after_words(bytes, t)) =~= after_words(bytes, t + 1));
}

/// The smaller of two numbers.
pub open spec fn lesser(a: nat, b: nat) -> nat {
    if a <= b {
        a
    } else {
        b
    }
}

/// A reader of groups of `n` words. Its view is the bytes not yet read.
#[derive(Debug)]
pub struct TakeN<'a> {
    n: usize,
    inner: IterU32<'a>,
}

impl<'a> View for TakeN<'a> {
    type V = Seq<u8>;

    closed spec fn view(&self) -> Seq<u8> {
        self.inner@
    }
}

impl<'a> TakeN<'a> {
    /// The number of words in a group.
    pub closed spec fn width(&self) -> nat {
        self.n as nat
    }

    /// A reader of groups of `n` words from `inner`.
    pub fn new(inner: IterU32<'a>, n: usize) -> (result: TakeN<'a>)
        ensures
            result@ == inner@,
            result.width() == n,
    {
        TakeN { n, inner }
    }

    /// The next group: `n` words, or as many as are left, or `None` where none is
    /// left or `n` is 0.
    pub fn next(&mut self) -> (result: Option<Vec<u32>>)
        ensures
            final(self).width() == old(self).width(),
            final(self)@ == after_words(
                old(self)@,
                lesser(old(self).width(), word_count(old(self)@.len())),
            ),
            match result {
                Some(group) => group@.len() > 0 && group@ == words_of(old(self)@).take(
                    lesser(old(self).width(), word_count(old(self)@.len())) as int,
                ),
                None => lesser(old(self).width(), word_count(old(self)@.len())) == 0,
            },
    {
        let ghost left = self@;
        let mut result: Vec<u32> = Vec::new();
        let mut i: usize = 0;
        proof {
            lemma_after_words(left, 0);
        }
        while i < self.n
            invariant
                i <= self.n,
                self.n == old(self).n,
                i <= word_count(left.len()),
                result@ == words_of(left).take(i as int),
                self.inner@ == after_words(left, i as nat),
                i < self.n ==> i == lesser(self.n as nat, word_count(left.len())) || i
                    < word_count(left.len()),
            ensures
                i == lesser(self.n as nat, word_count(left.len())),
                result@ == words_of(left).take(i as int),
                self.inner@ == after_words(left, i as nat),
                self.n == old(self).n,
            decreases self.n - i,
        {
            proof {
                lemma_after_words(left, i as nat);
            }
            match self.inner.next() {
                Some(x) => {
                    result.push(x);
                    i += 1;
                    assert(result@ =~= words_of(left).take(i as int));
                },
                None => {
                    break ;
                },
            }
        }
        if result.is_empty() {
            None
        } else {
            Some(result)
        }
    }
}

/// The index and the unread bytes of each reader.
pub open spec fn stream_views(streams: Seq<(usize, IterU32)>) -> Seq<(usize, Seq<u8>)> {
    Seq::new(streams.len(), |j: int| (streams[j].0, streams[j].1@))
}

/// The number of streams at the front that have bytes left.
pub open spec fn live_prefix(streams: Seq<(usize, Seq<u8>)>) -> nat
    decreases streams.len(),
{
    if streams.len() == 0 {
        0
    } else {
        let before = live_prefix(streams.drop_last());
        if before == streams.len() - 1 && streams.last().1.len() > 0 {
            streams.len()
        } else {
            before
        }
    }
}

/// The streams after a word is taken from each of the first `e`.
pub open spec fn advanced(streams: Seq<(usize, Seq<u8>)>, e: nat) -> Seq<(usize, Seq<u8>)> {
    Seq::new(
        streams.len(),
        |j: int|
            if j < e {
                (streams[j].0, after_word(streams[j].1))
            } else {
                streams[j]
            },
    )
}

/// The index and the next word of each stream.
pub open spec fn heads(streams: Seq<(usize, Seq<u8>)>) -> Seq<(usize, u32)> {
    Seq::new(streams.len(), |j: int| (streams[j].0, word_at(streams[j].1, 0)))
}

/// The number of live streams at the front is at most the number of streams, each
/// of them has bytes left, and the one after them, if there is one, has none.
pub proof fn lemma_live_prefix(streams: Seq<(usize, Seq<u8>)>)
    ensures
        live_prefix(streams) <= streams.len(),
        forall|j: int| 0 <= j < live_prefix(streams) ==> streams[j].1.len() > 0,
        live_prefix(streams) < streams.len() ==> streams[live_prefix(streams) as int].1.len()
            == 0,
    decreases streams.len(),
{
    if streams.len() > 0 {
        let front = streams.drop_last();
        lemma_live_prefix(front);
        assert forall|j: int| 0 <= j < live_prefix(streams) implies streams[j].1.len() > 0 by {
            if j < front.len() {
                assert(front[j] == streams[j]);
            }
        }
        if live_prefix(streams) < streams.len() && live_prefix(front) < front.len() {
            assert(front[live_prefix(front) as int] == streams[live_prefix(front) as int]);
        }
    }
}

/// A reader of several word streams at once, each with the index of its shard. Its
/// view is the index and the unread bytes of each stream.
#[derive(Debug)]
pub struct DecodeIter<'a> {
    inner: Vec<(usize, IterU32<'a>)>,
}

impl<'a> View for DecodeIter<'a> {
    type V = Seq<(usize, Seq<u8>)>;

    closed spec fn view(&self) -> Seq<(usize, Seq<u8>)> {
        stream_views(self.inner@)
    }
}

impl<'a> DecodeIter<'a> {
    /// A reader of the streams `inner`.
    pub fn new(inner: Vec<(usize, IterU32<'a>)>) -> (result: DecodeIter<'a>)
        ensures
            result@ == stream_views(inner@),
    {
        DecodeIter { inner }
    }

    /// The next word of each stream with the stream's index, or `None` where a stream
    /// has no byte left; the streams before that one have then given a word.
    pub fn next(&mut self) -> (result: Option<Vec<(usize, u32)>>)
        ensures
            final(self)@ == advanced(old(self)@, live_prefix(old(self)@)),
            match result {
                Some(group) => live_prefix(old(self)@) == old(self)@.len() && group@ == heads(
                    old(self)@,
                ),
                None => live_prefix(old(self)@) < old(self)@.len(),
            },
            result is Some <==> forall|j: int|
                0 <= j < old(self)@.len() ==> (#[trigger] old(self)@[j]).1.len() > 0,
    {
        let ghost before = self@;
        proof {
            lemma_live_prefix(before);
        }
        let mut result: Vec<(usize, u32)> = Vec::new();
        let mut i: usize = 0;
        let len = self.inner.len();
        while i < len
            invariant
                i <= len,
                before == old(self)@,
                len == before.len(),
                self.inner@.len() == len,
                live_prefix(before.take(i as int)) == i,
                self@ == advanced(before, i as nat),
                result@ == heads(before).take(i as int),
            decreases len - i,
        {
            let ghost streams = self.inner@;
            let ghost unread = streams[i as int].1@;
            proof {
                assert(before.take(i + 1).drop_last() =~= before.take(i as int));
                assert(self@[i as int] == before[i as int]);
                assert(before[i as int] == (streams[i as int].0, unread));
            }
            let idx = self.inner[i].0;
            match self.inner[i].1.next() {
                Some(x) => {
                    result.push((idx, x));
                    i += 1;
                    proof {
                        assert forall|j: int| 0 <= j < len implies self@[j] == advanced(
                            before,
                            i as nat,
                        )[j] by {
                            if j != i - 1 {
                                assert(self.inner@[j] == streams[j]);
                                assert(stream_views(streams)[j] == advanced(
                                    before,
                                    (i - 1) as nat,
                                )[j]);
                            }
                        }
                        assert(self@ =~= advanced(before, i as nat));
                        assert(result@ =~= heads(before).take(i as int));
                    }
                },
                None => {
                    proof {
                        lemma_live_prefix_stops(before, i as nat);
                    }
                    return None;
                },
            }
        }
        proof {
            assert(before.take(i as int) =~= before);
            assert(heads(before).take(i as int) =~= heads(before));
        }
        Some(result)
    }
}

/// Where the first `i` streams have bytes left and the next has none, `i` streams at
/// the front are live.
pub proof fn lemma_live_prefix_stops(streams: Seq<(usize, Seq<u8>)>, i: nat)
    requires
        i < streams.len(),
        live_prefix(streams.take(i as int)) == i,
        streams[i as int].1.len() == 0,
    ensures
        live_prefix(streams) == i,
    decreases streams.len() - i,
{
    lemma_live_prefix_holds(streams, i, streams.len());
    assert(streams.take(streams.len() as int) =~= streams);
}

/// Streams after one that has run out do not count as live.
proof fn lemma_live_prefix_holds(streams: Seq<(usize, Seq<u8>)>, i: nat, n: nat)
    requires
        i < n <= streams.len(),
        live_prefix(streams.take(i as int)) == i,
        streams[i as int].1.len() == 0,
    ensures
        live_prefix(streams.take(n as int)) == i,
    decreases n,
{
    assert(streams.take(n as int).drop_last() =~= streams.take(n - 1));
    if n > i + 1 {
        lemma_live_prefix_holds(streams, i, (n - 1) as nat);
    }
}

/// The polynomial through the given points, by Lagrange's formula: the one of degree
/// below the number of points that has at each point's place the point's value. The
/// points lie at the field elements whose bits are their indices; no two may lie at
/// the same, and the indices are below 2^32.
pub fn interpolate(points: Vec<(usize, GF232)>) -> (result: PolyGF232)
    requires
        distinct_nodes(points@),
        points@.len() + 3 <= usize::MAX,
    ensures
        result@ == interpolation(points@),
        canonical(result@),
        result@.len() <= points@.len(),
        forall|i: int|
            0 <= i < points@.len() ==> eval(result@, #[trigger] node(points@[i])) == points@[i].1,
{
    proof {
        lemma_interpolation(points@);
    }
    let mut result = PolyGF232::new(Vec::new());
    let mut x_coefficients: Vec<GF232> = Vec::new();
    x_coefficients.push(GF232(0));
    x_coefficients.push(GF232(1));
    let x = PolyGF232::new(x_coefficients);
    assert(x@ == seq![GF232(0), GF232(1)]) by {
        assert(x_coefficients@ =~= seq![GF232(0), GF232(1)]);
        lemma_trim(x_coefficients@);
    }
    let mut a: usize = 0;
    let n = points.len();
    assert(result@ =~= interpolation_upto(points@, 0)) by {
        lemma_span_le_len(Seq::<GF232>::empty());
    }
    while a < n
        invariant
            a <= n,
            n == points@.len(),
            n + 3 <= usize::MAX,
            distinct_nodes(points@),
            x@ == seq![GF232(0), GF232(1)],
            result@ == interpolation_upto(points@, a as nat),
            canonical(result@),
        decreases n - a,
    {
        let p = points[a];
        let mut one: Vec<GF232> = Vec::new();
        one.push(GF232(1));
        let mut coefficient = PolyGF232::new(one);
        assert(one@ =~= seq![GF232(1)]);
        let mut b: usize = 0;
        while b < n
            invariant
                b <= n,
                a < n,
                n == points@.len(),
                n + 3 <= usize::MAX,
                distinct_nodes(points@),
                p == points@[a as int],
                x@ == seq![GF232(0), GF232(1)],
                coefficient@ == basis_upto(points@, a as int, b as nat),
            decreases n - b,
        {
            let p2 = points[b];
            proof {
                lemma_points_differ(points@, b as int, a as int);
                lemma_basis_len(points@, a as int, b as nat);
            }
            if !(p2.0 == p.0 && p2.1 == p.1) {
                let l = GF232(p2.0 as u32);
                let j = GF232(p.0 as u32);
                let factor = x.clone().add_scalar(l);
                proof {
                    lemma_eval_linear(l, l);
                    lemma_points_differ(points@, a as int, b as int);
                }
                coefficient = coefficient.mul(&factor).div_scalar(j + l);
            }
            b += 1;
        }
        result = result.add(&coefficient.mul_scalar(p.1));
        a += 1;
    }
    result
}

/// The points of a stripe: word `i` is the value at the field element with the bits
/// of `i`.
pub open spec fn stripe_points(words: Seq<u32>) -> Seq<(usize, GF232)> {
    Seq::new(words.len(), |i: int| (i as usize, GF232(words[i])))
}

/// The points that indexed words stand for.
pub open spec fn sample_points(samples: Seq<(usize, u32)>) -> Seq<(usize, GF232)> {
    Seq::new(samples.len(), |i: int| (samples[i].0, GF232(samples[i].1)))
}

/// The values of the polynomial through the points at the field elements with the
/// bits of `0`, `1`, and so on below `n`.
pub open spec fn values(points: Seq<(usize, GF232)>, n: nat) -> Seq<u32> {
    Seq::new(n, |i: int| eval(interpolation(points), GF232(i as u32)).0)
}

/// The points of a stripe of at most 2^32 words lie at different field elements.
pub proof fn lemma_stripe_points_distinct(words: Seq<u32>)
    requires
        words.len() <= 0x1_0000_0000,
    ensures
        distinct_nodes(stripe_points(words)),
{
    let points = stripe_points(words);
    let s = nodes(points);
    assert forall|i: int, j: int| 0 <= i < j < s.len() implies s[i] != s[j] by {
        assert(s[i] == node(points[i]));
        assert(s[j] == node(points[j]));
    }
}

/// The words of the `n` shards for one stripe of `k` words: the values at the points
/// `0` to `n - 1` of the polynomial that has the stripe's words as its values at the
/// points `0` to `k - 1`.
pub fn encode_stripe(data: &[u32], n: usize, k: usize) -> (result: Vec<u32>)
    requires
        data@.len() == k,
        k <= 0x1_0000_0000,
        n <= 0x1_0000_0000,
        k + 3 <= usize::MAX,
    ensures
        result@ == values(stripe_points(data@), n as nat),
        forall|i: int| 0 <= i < k && i < n ==> result@[i] == data@[i],
{
    runtime_assert(data.len() == k);
    let mut points: Vec<(usize, GF232)> = Vec::new();
    let mut j: usize = 0;
    while j < k
        invariant
            j <= k,
            data@.len() == k,
            points@ == stripe_points(data@).take(j as int),
        decreases k - j,
    {
        points.push((j, GF232(data[j])));
        j += 1;
        assert(points@ =~= stripe_points(data@).take(j as int));
    }
    proof {
        assert(stripe_points(data@).take(k as int) =~= stripe_points(data@));
        lemma_stripe_points_distinct(data@);
    }
    let interpolated = interpolate(points);
    let mut result: Vec<u32> = Vec::new();
    let mut i: usize = 0;
    while i < n
        invariant
            i <= n,
            n <= 0x1_0000_0000,
            interpolated@ == interpolation(stripe_points(data@)),
            result@ == values(stripe_points(data@), n as nat).take(i as int),
        decreases n - i,
    {
        let point = interpolated.apply(GF232(i as u32));
        result.push(point.0);
        i += 1;
        assert(result@ =~= values(stripe_points(data@), n as nat).take(i as int));
    }
    proof {
        assert(values(stripe_points(data@), n as nat).take(n as int) =~= values(
            stripe_points(data@),
            n as nat,
        ));
        assert forall|i: int| 0 <= i < k && i < n implies result@[i] == data@[i] by {
            assert(node(stripe_points(data@)[i]) == GF232(i as u32));
        }
    }
    result
}

/// The `k` words of a stripe from one word of each of `k` shards, given with the
/// shards' indices: the values at the points `0` to `k - 1` of the polynomial through
/// the first `k` samples. Further samples are not looked at.
pub fn decode_stripe(data: &[(usize, u32)], k: usize) -> (result: Vec<u32>)
    requires
        data@.len() >= k,
        k <= 0x1_0000_0000,
        k + 3 <= usize::MAX,
        distinct_nodes(sample_points(data@.take(k as int))),
    ensures
        result@ == values(sample_points(data@.take(k as int)), k as nat),
{
    runtime_assert(data.len() >= k);
    let ghost samples = sample_points(data@.take(k as int));
    let mut points: Vec<(usize, GF232)> = Vec::new();
    let mut j: usize = 0;
    while j < k
        invariant
            j <= k,
            data@.len() >= k,
            samples == sample_points(data@.take(k as int)),
            points@ == samples.take(j as int),
        decreases k - j,
    {
        let (x, y) = data[j];
        points.push((x, GF232(y)));
        j += 1;
        assert(points@ =~= samples.take(j as int));
    }
    proof {
        assert(samples.take(k as int) =~= samples);
    }
    let interpolated = interpolate(points);
    let mut result: Vec<u32> = Vec::new();
    let mut i: usize = 0;
    while i < k
        invariant
            i <= k,
            k <= 0x1_0000_0000,
            interpolated@ == interpolation(samples),
            result@ == values(samples, k as nat).take(i as int),
        decreases k - i,
    {
        result.push(interpolated.apply(GF232(i as u32)).0);
        i += 1;
        assert(result@ =~= values(samples, k as nat).take(i as int));
    }
    assert(values(samples, k as nat).take(k as int) =~= values(samples, k as nat));
    result
}

/// Stripe `s` of the words: `k` words from word `s * k` on.
pub open spec fn stripe(words: Seq<u32>, s: int, k: nat) -> Seq<u32> {
    words.subrange(s * k, s * k + k)
}

/// The word that stripe `s` of the framed data gives to shard `i`.
pub open spec fn shard_word(data: Seq<u8>, k: nat, s: int, i: int) -> u32 {
    eval(
        interpolation(stripe_points(stripe(words_of(framed(data, k)), s, k))),
        GF232(i as u32),
    ).0
}

/// The first `count` words of shard `i`.
pub open spec fn shard_words(data: Seq<u8>, k: nat, i: int, count: nat) -> Seq<u32> {
    Seq::new(count, |s: int| shard_word(data, k, s, i))
}

/// Shard `i` of the data: for each stripe of the framed data, in order, the four
/// bytes of the word that the stripe gives to the shard.
pub open spec fn shard(data: Seq<u8>, k: nat, i: int) -> Seq<u8> {
    bytes_of(shard_words(data, k, i, stripe_count(data.len(), k)))
}

/// The bytes of words with one more word are the bytes of the words and then the
/// bytes of that word.
pub proof fn lemma_bytes_of_push(words: Seq<u32>, w: u32)
    ensures
        bytes_of(words.push(w)) == bytes_of(words) + word_bytes(w),
{
    let a = bytes_of(words.push(w));
    let b = bytes_of(words) + word_bytes(w);
    assert forall|i: int| 0 <= i < a.len() implies a[i] == b[i] by {
        if i < 4 * words.len() {
            assert(words.push(w)[i / 4] == words[i / 4]);
        } else {
            assert(i / 4 == words.len());
            assert(i % 4 == i - 4 * words.len());
        }
    }
    assert(a =~= b);
}

/// Word `j` of the bytes after `m` words is word `m + j` of the bytes.
pub proof fn lemma_word_at_skip(bytes: Seq<u8>, m: nat, j: int)
    requires
        0 <= j,
    ensures
        word_at(after_words(bytes, m), j) == word_at(bytes, m + j),
{
    let rest = after_words(bytes, m);
    assert(byte_or_zero(rest, 4 * j) == byte_or_zero(bytes, 4 * (m + j)));
    assert(byte_or_zero(rest, 4 * j + 1) == byte_or_zero(bytes, 4 * (m + j) + 1));
    assert(byte_or_zero(rest, 4 * j + 2) == byte_or_zero(bytes, 4 * (m + j) + 2));
    assert(byte_or_zero(rest, 4 * j + 3) == byte_or_zero(bytes, 4 * (m + j) + 3));
}

/// The next `k` words of a whole number of stripes, after `s` stripes, are stripe
/// `s`; and then `s + 1` stripes are taken.
pub proof fn lemma_next_stripe(bytes: Seq<u8>, k: nat, count: nat, s: nat)
    requires
        k > 0,
        bytes.len() == count * (4 * k),
        s <= count,
    ensures
        word_count(after_words(bytes, s * k).len()) == (count - s) * k,
        s < count ==> lesser(k, word_count(after_words(bytes, s * k).len())) == k,
        s == count ==> lesser(k, word_count(after_words(bytes, s * k).len())) == 0,
        s < count ==> words_of(after_words(bytes, s * k)).take(k as int) == stripe(
            words_of(bytes),
            s as int,
            k,
        ),
        s < count ==> after_words(after_words(bytes, s * k), k) == after_words(
            bytes,
            (s + 1) * k,
        ),
{
    let rest = after_words(bytes, s * k);
    assert(4 * (s * k) + (count - s) * (4 * k) == count * (4 * k)) by (nonlinear_arith);
    assert((count - s) * (4 * k) == 4 * ((count - s) * k)) by (nonlinear_arith);
    assert((count - s) * (4 * k) >= 0) by (nonlinear_arith)
        requires
            s <= count,
    ;
    assert(rest.len() == (count - s) * (4 * k));
    if s < count {
        assert((count - s) * k >= k) by (nonlinear_arith)
            requires
                s < count,
        ;
        assert((s + 1) * k == s * k + k) by (nonlinear_arith);
        assert(count * k >= s * k + k) by (nonlinear_arith)
            requires
                s < count,
        ;
        assert(count * (4 * k) == 4 * (count * k)) by (nonlinear_arith);
        let a = words_of(rest).take(k as int);
        let b = stripe(words_of(bytes), s as int, k);
        assert forall|j: int| 0 <= j < k implies a[j] == b[j] by {
            lemma_word_at_skip(bytes, s * k, j);
        }
        assert(a =~= b);
        assert(after_words(rest, k) =~= after_words(bytes, (s + 1) * k));
    } else {
        assert((count - s) * k == 0) by (nonlinear_arith)
            requires
                s == count,
        ;
    }
}

/// Encodes the data into `n` shards, any `k` of which give the data back. The length
/// of the data is put before it in eight bytes and between 1 and `4 * k` zero bytes
/// after it, to fill a whole number of stripes of `k` words; each stripe gives one word
/// to each shard.
pub fn encode(data: &[u8], n: usize, k: usize) -> (result: Vec<Vec<u8>>)
    requires
        0 < k <= n,
        n <= 0x1_0000_0000,
        8 + data@.len() + 4 * k <= usize::MAX,
    ensures
        result@.len() == n,
        forall|i: int| 0 <= i < n ==> (#[trigger] result@[i])@ == shard(data@, k as nat, i),
        forall|i: int|
            0 <= i < n ==> (#[trigger] result@[i])@.len() == 4 * stripe_count(
                data@.len(),
                k as nat,
            ),
{
    let stripe_size = k * 4;
    let padding = stripe_size - (8 + data.len()) % stripe_size;
    let length = 8 + data.len() + padding;
    let mut buffer = as_bytes(data.len() as u64);
    let mut j: usize = 0;
    while j < data.len()
        invariant
            j <= data@.len(),
            buffer@ == length_prefix(data@.len() as u64) + data@.take(j as int),
        decreases data@.len() - j,
    {
        buffer.push(data[j]);
        j += 1;
        assert(buffer@ =~= length_prefix(data@.len() as u64) + data@.take(j as int));
    }
    assert(data@.take(j as int) =~= data@);
    while buffer.len() < length
        invariant
            length == framed_len(data@.len(), k as nat),
            8 + data@.len() <= buffer@.len() <= length,
            buffer@ == length_prefix(data@.len() as u64) + data@ + Seq::new(
                (buffer@.len() - 8 - data@.len()) as nat,
                |i: int| 0u8,
            ),
        decreases length - buffer@.len(),
    {
        buffer.push(0);
        assert(buffer@ =~= length_prefix(data@.len() as u64) + data@ + Seq::new(
            (buffer@.len() - 8 - data@.len()) as nat,
            |i: int| 0u8,
        ));
    }
    let ghost count = stripe_count(data@.len(), k as nat);
    proof {
        lemma_frame_len(data@.len(), k as nat);
        assert(buffer@ =~= framed(data@, k as nat));
    }
    let data_stream = IterU32::new(buffer.as_slice());
    let mut stripes = TakeN::new(data_stream, k);
    let mut result: Vec<Vec<u8>> = Vec::new();
    let mut i: usize = 0;
    while i < n
        invariant
            i <= n,
            result@.len() == i,
            forall|t: int| 0 <= t < i ==> (#[trigger] result@[t])@ == Seq::<u8>::empty(),
        decreases n - i,
    {
        result.push(Vec::new());
        i += 1;
    }
    let ghost done: nat = 0;
    proof {
        lemma_after_words(buffer@, 0);
        assert(0 * (k as nat) == 0) by (nonlinear_arith);
        assert forall|t: int| 0 <= t < n implies (#[trigger] result@[t])@ == bytes_of(
            shard_words(data@, k as nat, t, 0),
        ) by {
            assert(bytes_of(shard_words(data@, k as nat, t, 0)) =~= Seq::<u8>::empty());
        }
    }
    loop
        invariant
            0 < k <= n,
            n <= 0x1_0000_0000,
            k + 3 <= usize::MAX,
            buffer@ == framed(data@, k as nat),
            buffer@.len() == count * (4 * k),
            done <= count,
            stripes.width() == k,
            stripes@ == after_words(buffer@, done * (k as nat)),
            result@.len() == n,
            forall|t: int|
                0 <= t < n ==> (#[trigger] result@[t])@ == bytes_of(
                    shard_words(data@, k as nat, t, done),
                ),
        ensures
            done == count,
            result@.len() == n,
            forall|t: int|
                0 <= t < n ==> (#[trigger] result@[t])@ == bytes_of(
                    shard_words(data@, k as nat, t, count),
                ),
        decreases count - done,
    {
        proof {
            lemma_next_stripe(buffer@, k as nat, count, done);
        }
        match stripes.next() {
            None => {
                break ;
            },
            Some(stripe) => {
                let encoded = encode_stripe(stripe.as_slice(), n, k);
                let mut i: usize = 0;
                while i < n
                    invariant
                        i <= n,
                        result@.len() == n,
                        encoded@.len() == n,
                        forall|t: int|
                            0 <= t < n ==> #[trigger] encoded@[t] == shard_word(
                                data@,
                                k as nat,
                                done as int,
                                t,
                            ),
                        forall|t: int|
                            0 <= t < i ==> (#[trigger] result@[t])@ == bytes_of(
                                shard_words(data@, k as nat, t, done + 1),
                            ),
                        forall|t: int|
                            i <= t < n ==> (#[trigger] result@[t])@ == bytes_of(
                                shard_words(data@, k as nat, t, done),
                            ),
                    decreases n - i,
                {
                    let val = encoded[i];
                    let ghost before = result@[i as int]@;
                    let ghost shards = result@;
                    let v = &mut result[i];
                    v.push((val & 0xFF) as u8);
                    v.push(((val >> 8) & 0xFF) as u8);
                    v.push(((val >> 16) & 0xFF) as u8);
                    v.push(((val >> 24) & 0xFF) as u8);
                    proof {
                        let words = shard_words(data@, k as nat, i as int, done);
                        lemma_bytes_of_push(words, val);
                        assert(words.push(val) =~= shard_words(
                            data@,
                            k as nat,
                            i as int,
                            done + 1,
                        ));
                        assert(result@[i as int]@ =~= before + word_bytes(val));
                        assert forall|t: int| 0 <= t < n && t != i implies result@[t]
                            == shards[t] by {}
                    }
                    i += 1;
                }
                proof {
                    done = done + 1;
                }
            },
        }
    }
    result
}

/// The index and the bytes of each pair.
pub open spec fn pair_views(pairs: Seq<(usize, &[u8])>) -> Seq<(usize, Seq<u8>)> {
    Seq::new(pairs.len(), |j: int| (pairs[j].0, pairs[j].1@))
}

/// Word `s` of each of the first `k` shards, with the shard's index.
pub open spec fn samples(pairs: Seq<(usize, Seq<u8>)>, s: int, k: nat) -> Seq<(usize, u32)> {
    Seq::new(k, |j: int| (pairs[j].0, word_at(pairs[j].1, s)))
}

/// Word `i` of the decoded frame: word `i % k` of stripe `i / k`.
pub open spec fn decoded_word(pairs: Seq<(usize, Seq<u8>)>, k: nat, i: int) -> u32 {
    values(sample_points(samples(pairs, i / (k as int), k)), k)[i % (k as int)]
}

/// The first `count` words of the decoded frame.
pub open spec fn decoded_words(pairs: Seq<(usize, Seq<u8>)>, k: nat, count: nat) -> Seq<u32> {
    Seq::new(count, |i: int| decoded_word(pairs, k, i))
}

/// The frame that the first `k` shards decode to: `k` words for each word of a
/// shard.
pub open spec fn decoded_frame(pairs: Seq<(usize, Seq<u8>)>, k: nat) -> Seq<u8> {
    bytes_of(decoded_words(pairs, k, word_count(pairs[0].1.len()) * k))
}

/// The data that the first `k` shards decode to.
pub open spec fn decoded(pairs: Seq<(usize, Seq<u8>)>, k: nat) -> Seq<u8> {
    unframed(decoded_frame(pairs, k))
}

/// Whether the shards can be decoded: there are at least `k` of them, all of one
/// length that is a whole number of words, with room in `k` of them for the length
/// prefix, and the first `k` have different indices below 2^32.
pub open spec fn decodable(pairs: Seq<(usize, Seq<u8>)>, k: nat) -> bool {
    &&& 0 < k <= pairs.len()
    &&& k <= 0x1_0000_0000
    &&& forall|j: int| 0 <= j < pairs.len() ==> (#[trigger] pairs[j]).1.len() == pairs[0].1.len()
    &&& pairs[0].1.len() % 4 == 0
    &&& k * pairs[0].1.len() >= 8
    &&& forall|j: int| 0 <= j < k ==> (#[trigger] pairs[j]).0 <= u32::MAX
    &&& forall|i: int, j: int| 0 <= i < j < k ==> (#[trigger] pairs[i]).0 != (#[trigger] pairs[j]).0
}

/// The samples of decodable shards lie at different field elements.
pub proof fn lemma_samples_distinct(pairs: Seq<(usize, Seq<u8>)>, s: int, k: nat)
    requires
        decodable(pairs, k),
    ensures
        distinct_nodes(sample_points(samples(pairs, s, k))),
{
    let points = sample_points(samples(pairs, s, k));
    let at = nodes(points);
    assert forall|i: int| 0 <= i < points.len() implies points[i].0 <= u32::MAX by {
        assert(points[i].0 == pairs[i].0);
    }
    assert forall|i: int, j: int| 0 <= i < j < at.len() implies at[i] != at[j] by {
        assert(at[i] == node(points[i]));
        assert(at[j] == node(points[j]));
        assert(points[i].0 == pairs[i].0);
        assert(points[j].0 == pairs[j].0);
    }
}

/// The streams of shards of one length, after `s` words of each, are all live while
/// `s` is below the number of words of a shard, and the first has run out at that
/// number.
pub proof fn lemma_streams_live(streams: Seq<(usize, Seq<u8>)>, len: nat, s: nat)
    requires
        streams.len() > 0,
        len % 4 == 0,
        s <= len / 4,
        forall|j: int| 0 <= j < streams.len() ==> (#[trigger] streams[j]).1.len() == len - 4 * s,
    ensures
        s < len / 4 ==> live_prefix(streams) == streams.len(),
        s == len / 4 ==> live_prefix(streams) == 0,
    decreases streams.len(),
{
    let front = streams.drop_last();
    if front.len() > 0 {
        assert forall|j: int| 0 <= j < front.len() implies (#[trigger] front[j]).1.len() == len
            - 4 * s by {
            assert(front[j] == streams[j]);
        }
        lemma_streams_live(front, len, s);
    } else {
        assert(live_prefix(front) == 0);
    }
    assert(streams.last() == streams[streams.len() - 1]);
    assert(streams[streams.len() - 1].1.len() == len - 4 * s);
}

/// Decodes shards, given with their indices, into the data they were encoded from.
/// The first `k` pairs are used; they have different indices below 2^32, and all shards
/// are of one length, a whole number of words, so that `k` of them hold at least the
/// eight bytes of the length.
pub fn decode(data: &[(usize, &[u8])], k: usize) -> (result: Vec<u8>)
    requires
        decodable(pair_views(data@), k as nat),
        k + 3 <= usize::MAX,
    ensures
        result@ == decoded(pair_views(data@), k as nat),
{
    runtime_assert(data.len() >= k);
    let ghost pairs = pair_views(data@);
    let ghost len = pairs[0].1.len();
    let ghost count = len / 4;
    let mut streams: Vec<(usize, IterU32)> = Vec::new();
    let mut j: usize = 0;
    while j < data.len()
        invariant
            j <= data@.len(),
            pairs == pair_views(data@),
            streams@.len() == j,
            stream_views(streams@) == pairs.take(j as int),
        decreases data@.len() - j,
    {
        let (idx, bytes) = data[j];
        let ghost earlier = streams@;
        streams.push((idx, IterU32::new(bytes)));
        j += 1;
        proof {
            assert forall|t: int| 0 <= t < j implies stream_views(streams@)[t] == pairs.take(
                j as int,
            )[t] by {
                if t < j - 1 {
                    assert(streams@[t] == earlier[t]);
                    assert(stream_views(earlier)[t] == pairs.take(j - 1)[t]);
                }
            }
            assert(stream_views(streams@) =~= pairs.take(j as int));
        }
    }
    assert(pairs.take(j as int) =~= pairs);
    let mut decode_iter = DecodeIter::new(streams);
    let mut result: Vec<u8> = Vec::new();
    let ghost done: nat = 0;
    proof {
        assert(0 * (k as nat) == 0) by (nonlinear_arith);
        assert(result@ =~= bytes_of(decoded_words(pairs, k as nat, 0)));
        assert forall|j: int| 0 <= j < pairs.len() implies (#[trigger] decode_iter@[j])
            == (pairs[j].0, after_words(pairs[j].1, 0)) by {
            lemma_after_words(pairs[j].1, 0);
        }
    }
    loop
        invariant
            decodable(pairs, k as nat),
            k + 3 <= usize::MAX,
            len == pairs[0].1.len(),
            count == len / 4,
            done <= count,
            decode_iter@.len() == pairs.len(),
            forall|j: int|
                0 <= j < pairs.len() ==> (#[trigger] decode_iter@[j]) == (
                    pairs[j].0,
                    after_words(pairs[j].1, done),
                ),
            result@ == bytes_of(decoded_words(pairs, k as nat, done * (k as nat))),
        ensures
            done == count,
            result@ == bytes_of(decoded_words(pairs, k as nat, count * (k as nat))),
        decreases count - done,
    {
        let ghost streams = decode_iter@;
        proof {
            assert forall|j: int| 0 <= j < streams.len() implies (#[trigger] streams[j]).1.len()
                == len - 4 * done by {
                assert(pairs[j].1.len() == len);
            }
            lemma_streams_live(streams, len, done);
            lemma_samples_distinct(pairs, done as int, k as nat);
        }
        match decode_iter.next() {
            None => {
                break ;
            },
            Some(stripe) => {
                proof {
                    assert(stripe@.take(k as int) =~= samples(pairs, done as int, k as nat)) by {
                        assert forall|j: int| 0 <= j < k implies stripe@.take(k as int)[j]
                            == samples(pairs, done as int, k as nat)[j] by {
                            lemma_after_words(pairs[j].1, done);
                            assert(streams[j] == (pairs[j].0, after_words(pairs[j].1, done)));
                        }
                    }
                    assert forall|j: int| 0 <= j < pairs.len() implies (#[trigger] decode_iter@[j])
                        == (pairs[j].0, after_words(pairs[j].1, done + 1)) by {
                        lemma_after_words(pairs[j].1, done);
                        assert(streams[j] == (pairs[j].0, after_words(pairs[j].1, done)));
                    }
                }
                let decoded = decode_stripe(stripe.as_slice(), k);
                let mut m: usize = 0;
                while m < k
                    invariant
                        m <= k,
                        0 < k,
                        decoded@ == values(
                            sample_points(samples(pairs, done as int, k as nat)),
                            k as nat,
                        ),
                        result@ == bytes_of(
                            decoded_words(pairs, k as nat, (done * (k as nat) + m) as nat),
                        ),
                    decreases k - m,
                {
                    let x = decoded[m];
                    proof {
                        let at = (done * (k as nat) + m) as nat;
                        let words = decoded_words(pairs, k as nat, at);
                        assert((at as int) / (k as int) == done && (at as int) % (k as int) == m) by {
                            vstd::arithmetic::div_mod::lemma_fundamental_div_mod_converse(
                                at as int,
                                k as int,
                                done as int,
                                m as int,
                            );
                        }
                        assert(words.push(x) =~= decoded_words(pairs, k as nat, (at + 1) as nat));
                        lemma_bytes_of_push(words, x);
                    }
                    let ghost before = result@;
                    result.push((x & 0xFF) as u8);
                    result.push(((x >> 8) & 0xFF) as u8);
                    result.push(((x >> 16) & 0xFF) as u8);
                    result.push(((x >> 24) & 0xFF) as u8);
                    assert(result@ =~= before + word_bytes(x));
                    m += 1;
                }
                proof {
                    assert((done + 1) * (k as nat) == done * (k as nat) + k) by (nonlinear_arith);
                    done = done + 1;
                }
            },
        }
    }
    proof {
        assert(count * (k as nat) == word_count(len) * (k as nat));
        assert(4 * (count * (k as nat)) >= 8) by (nonlinear_arith)
            requires
                k * len >= 8,
                len % 4 == 0,
                count == len / 4,
        ;
    }
    let size = as_u64(result.as_slice());
    let mut data_out: Vec<u8> = Vec::new();
    let mut i: usize = 8;
    while i < result.len() && ((i - 8) as u64) < size
        invariant
            8 <= i <= result@.len(),
            i - 8 <= size,
            data_out@ == result@.subrange(8, i as int),
        decreases result@.len() - i,
    {
        data_out.push(result[i]);
        i += 1;
        assert(data_out@ =~= result@.subrange(8, i as int));
    }
    proof {
        assert(result@.skip(8) =~= result@.subrange(8, result@.len() as int));
    }
    data_out
}

} // verus!
