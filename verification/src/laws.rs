//! What holds of the codec as a whole: the lengths of the shards, and that the data
//! comes back from any `k` of them, in any order.
use vstd::prelude::*;
use crate::codec::{
    decodable, decoded, decoded_frame, decoded_word, decoded_words, lemma_samples_distinct,
    lemma_stripe_points_distinct, sample_points, samples, shard, shard_word, shard_words, stripe,
    stripe_points, values,
};
use crate::coefficients::eval;
use crate::framing::{
    bytes_of, framed, framed_len, lemma_bytes_of_words_of, lemma_frame_len, lemma_length_prefix,
    lemma_words_of_bytes_of, length_prefix, padding, stripe_count, unframed, word_at, word_count,
    words_of,
};
use crate::gf232::GF232;
use crate::interpolation::{interpolation, lemma_interpolation, lemma_interpolation_unique, node};

verus! {

/// All shards have the same length: four bytes for each stripe.
pub proof fn lemma_shard_len(data: Seq<u8>, k: nat, i: int)
    ensures
        shard(data, k, i).len() == 4 * stripe_count(data.len(), k),
{
}

/// The number of stripes is the length of prefix, data and padding, divided by the
/// `4 * k` bytes of a stripe; the padding is between 1 and `4 * k` bytes and fills the
/// last stripe, so there are as many stripes as `len + 9` bytes begin.
pub proof fn lemma_stripe_count(len: nat, k: nat)
    requires
        k > 0,
    ensures
        stripe_count(len, k) == (8 + len + padding(len, k)) / (4 * k),
        1 <= padding(len, k) <= 4 * k,
        (8 + len + padding(len, k)) % (4 * k) == 0,
        stripe_count(len, k) == (len + 8 + 4 * k) / (4 * k),
        (8 + len) % (4 * k) == 0 ==> padding(len, k) == 4 * k,
{
    lemma_frame_len(len, k);
    let m = (4 * k) as int;
    let c = stripe_count(len, k) as int;
    let f = framed_len(len, k) as int;
    assert(f == c * m);
    vstd::arithmetic::div_mod::lemma_fundamental_div_mod_converse(f, m, c, 0);
    // `len + 8 + 4 * k` is the length of the frame and what the padding lacks of a stripe
    let top = len + 8 + m;
    let r = m - padding(len, k);
    assert(top == c * m + r);
    vstd::arithmetic::div_mod::lemma_fundamental_div_mod_converse(top, m, c, r);
}

/// With stripes of one word, a shard is as long as the framed data: the multiple of
/// four next above `len + 8`.
pub proof fn lemma_shard_len_one_word(data: Seq<u8>, i: int)
    ensures
        shard(data, 1, i).len() == 4 * ((data.len() + 12) / 4),
        shard(data, 1, i).len() == framed(data, 1).len(),
{
    lemma_stripe_count(data.len(), 1);
    lemma_frame_len(data.len(), 1);
}

/// Each of the first `k` shards holds the framed data's words itself: shard `i` has
/// word `i` of every stripe.
pub proof fn lemma_systematic(data: Seq<u8>, k: nat, s: int, i: int)
    requires
        0 < k <= 0x1_0000_0000,
        0 <= s < stripe_count(data.len(), k),
        0 <= i < k,
    ensures
        shard_word(data, k, s, i) == words_of(framed(data, k))[s * k + i],
        0 <= s * k + i < words_of(framed(data, k)).len(),
{
    lemma_stripe_words(data, k, s);
    let words = stripe(words_of(framed(data, k)), s, k);
    let points = stripe_points(words);
    lemma_stripe_points_distinct(words);
    lemma_interpolation(points);
    assert(node(points[i]) == GF232(i as u32));
    assert(points[i].1 == GF232(words[i]));
}

/// Stripe `s` of the framed data has `k` words, which lie within the frame's words.
pub proof fn lemma_stripe_words(data: Seq<u8>, k: nat, s: int)
    requires
        0 < k,
        0 <= s < stripe_count(data.len(), k),
    ensures
        words_of(framed(data, k)).len() == stripe_count(data.len(), k) * k,
        0 <= s * k,
        s * k + k <= stripe_count(data.len(), k) * k,
        stripe(words_of(framed(data, k)), s, k).len() == k,
        forall|i: int|
            0 <= i < k ==> stripe(words_of(framed(data, k)), s, k)[i] == words_of(
                framed(data, k),
            )[s * k + i],
{
    let count = stripe_count(data.len(), k);
    lemma_frame_len(data.len(), k);
    assert(framed(data, k).len() == framed_len(data.len(), k));
    assert(count * (4 * k) == 4 * (count * k)) by (nonlinear_arith);
    assert(0 <= s * k && s * k + k <= count * k) by (nonlinear_arith)
        requires
            0 <= s < count,
            k > 0,
    ;
}

/// With one shard and stripes of one word, the shard is the framed data.
pub proof fn lemma_single_shard(data: Seq<u8>)
    ensures
        shard(data, 1, 0) == framed(data, 1),
{
    let count = stripe_count(data.len(), 1);
    let f = framed(data, 1);
    let words = shard_words(data, 1, 0, count);
    lemma_frame_len(data.len(), 1);
    assert(f.len() == framed_len(data.len(), 1));
    assert forall|s: int| 0 <= s < count implies words[s] == words_of(f)[s] by {
        lemma_systematic(data, 1, s, 0);
        assert(s * 1 + 0 == s);
    }
    assert(words =~= words_of(f));
    lemma_bytes_of_words_of(f);
}

/// The shards with the given indices, each with its index.
pub open spec fn chosen_shards(data: Seq<u8>, k: nat, indices: Seq<usize>) -> Seq<
    (usize, Seq<u8>),
> {
    Seq::new(indices.len(), |j: int| (indices[j], shard(data, k, indices[j] as int)))
}

/// Whether the indices pick shards of `n` that can be decoded: at least `k` indices,
/// all below `n`, the first `k` of them different.
pub open spec fn choice(indices: Seq<usize>, n: nat, k: nat) -> bool {
    &&& 0 < k <= n <= 0x1_0000_0000
    &&& indices.len() >= k
    &&& forall|j: int| 0 <= j < indices.len() ==> indices[j] < n
    &&& forall|i: int, j: int| 0 <= i < j < k ==> indices[i] != indices[j]
}

/// Chosen shards of the data can be decoded, and each has one word for each stripe.
pub proof fn lemma_chosen_decodable(data: Seq<u8>, n: nat, k: nat, indices: Seq<usize>)
    requires
        choice(indices, n, k),
    ensures
        decodable(chosen_shards(data, k, indices), k),
        word_count(chosen_shards(data, k, indices)[0].1.len()) == stripe_count(data.len(), k),
        words_of(framed(data, k)).len() == stripe_count(data.len(), k) * k,
        framed(data, k).len() % 4 == 0,
{
    let pairs = chosen_shards(data, k, indices);
    let count = stripe_count(data.len(), k);
    lemma_frame_len(data.len(), k);
    assert(framed(data, k).len() == framed_len(data.len(), k));
    assert(count * (4 * k) == 4 * (count * k)) by (nonlinear_arith);
    assert(count * (4 * k) == k * (4 * count)) by (nonlinear_arith);
    assert forall|j: int| 0 <= j < pairs.len() implies (#[trigger] pairs[j]).1.len() == 4
        * count by {}
    assert(pairs[0].1.len() == 4 * count);
}

/// Word `s` of a shard of the data is the value, at the shard's index, of the
/// polynomial of stripe `s`.
proof fn lemma_sample_value(data: Seq<u8>, k: nat, indices: Seq<usize>, s: int, j: int)
    requires
        0 <= s < stripe_count(data.len(), k),
        0 <= j < indices.len(),
    ensures
        word_at(chosen_shards(data, k, indices)[j].1, s) == shard_word(
            data,
            k,
            s,
            indices[j] as int,
        ),
{
    let count = stripe_count(data.len(), k);
    let words = shard_words(data, k, indices[j] as int, count);
    lemma_words_of_bytes_of(words);
    assert(chosen_shards(data, k, indices)[j].1 == bytes_of(words));
    assert(words_of(bytes_of(words))[s] == word_at(bytes_of(words), s));
    assert(words[s] == shard_word(data, k, s, indices[j] as int));
}

/// A word decoded from chosen shards of the data is the word of the framed data at
/// its place.
proof fn lemma_decoded_word(
    data: Seq<u8>,
    n: nat,
    k: nat,
    indices: Seq<usize>,
    s: int,
    m: int,
)
    requires
        choice(indices, n, k),
        0 <= s < stripe_count(data.len(), k),
        0 <= m < k,
    ensures
        values(sample_points(samples(chosen_shards(data, k, indices), s, k)), k)[m] == words_of(
            framed(data, k),
        )[s * k + m],
{
    let pairs = chosen_shards(data, k, indices);
    let words = stripe(words_of(framed(data, k)), s, k);
    let p = interpolation(stripe_points(words));
    lemma_chosen_decodable(data, n, k, indices);
    lemma_stripe_words(data, k, s);
    lemma_stripe_points_distinct(words);
    lemma_interpolation(stripe_points(words));
    let points = sample_points(samples(pairs, s, k));
    lemma_samples_distinct(pairs, s, k);
    assert forall|j: int| 0 <= j < points.len() implies eval(p, node(points[j]))
        == points[j].1 by {
        lemma_sample_value(data, k, indices, s, j);
        assert(points[j] == (indices[j], GF232(word_at(pairs[j].1, s))));
        assert(node(points[j]) == GF232(indices[j] as u32));
    }
    lemma_interpolation_unique(points, p);
    lemma_systematic(data, k, s, m);
    assert(eval(interpolation(points), GF232(m as u32)) == eval(p, GF232(m as u32)));
}

/// The frame decoded from chosen shards of the data is the framed data.
pub proof fn lemma_decoded_frame(data: Seq<u8>, n: nat, k: nat, indices: Seq<usize>)
    requires
        choice(indices, n, k),
    ensures
        decoded_frame(chosen_shards(data, k, indices), k) == framed(data, k),
{
    let pairs = chosen_shards(data, k, indices);
    let count = stripe_count(data.len(), k);
    let w = words_of(framed(data, k));
    lemma_chosen_decodable(data, n, k, indices);
    let got = decoded_words(pairs, k, count * k);
    assert forall|i: int| 0 <= i < count * k implies got[i] == w[i] by {
        let s = i / (k as int);
        let m = i % (k as int);
        vstd::arithmetic::div_mod::lemma_fundamental_div_mod(i, k as int);
        vstd::arithmetic::div_mod::lemma_mod_bound(i, k as int);
        assert(0 <= s < count) by (nonlinear_arith)
            requires
                0 <= i < count * k,
                i == k * s + m,
                0 <= m < k,
        ;
        assert(k * s == s * k) by (nonlinear_arith);
        lemma_decoded_word(data, n, k, indices, s, m);
        assert(got[i] == decoded_word(pairs, k, i));
    }
    assert(got =~= w);
    lemma_bytes_of_words_of(framed(data, k));
}

/// The data in a frame that was made from a length prefix, the data and anything
/// after it is the data.
pub proof fn lemma_unframed(data: Seq<u8>, tail: Seq<u8>)
    requires
        data.len() <= u64::MAX,
    ensures
        unframed(length_prefix(data.len() as u64) + data + tail) == data,
{
    let f = length_prefix(data.len() as u64) + data + tail;
    assert(f =~= length_prefix(data.len() as u64) + (data + tail));
    lemma_length_prefix(data.len() as u64, data + tail);
    assert(f.subrange(8, 8 + data.len() as int) =~= data);
}

/// Decoding gives the data back from any shards of it, the first `k` of which have
/// different indices.
pub proof fn lemma_round_trip(data: Seq<u8>, n: nat, k: nat, indices: Seq<usize>)
    requires
        choice(indices, n, k),
        data.len() <= u64::MAX,
    ensures
        decodable(chosen_shards(data, k, indices), k),
        decoded(chosen_shards(data, k, indices), k) == data,
{
    lemma_chosen_decodable(data, n, k, indices);
    lemma_decoded_frame(data, n, k, indices);
    lemma_unframed(data, Seq::new(padding(data.len(), k), |i: int| 0u8));
}

/// The first `k` shards, in order, give the data back.
pub proof fn lemma_first_shards(data: Seq<u8>, n: nat, k: nat)
    requires
        0 < k <= n <= 0x1_0000_0000,
        n <= usize::MAX,
        data.len() <= u64::MAX,
    ensures
        decoded(chosen_shards(data, k, Seq::new(k, |j: int| j as usize)), k) == data,
{
    let indices = Seq::new(k, |j: int| j as usize);
    assert(choice(indices, n, k));
    lemma_round_trip(data, n, k, indices);
}

/// Decoding gives the same in any order of the shards: what it gives depends only on
/// which pairs are the first `k`, not on their order.
pub proof fn lemma_decode_any_order(
    pairs: Seq<(usize, Seq<u8>)>,
    other: Seq<(usize, Seq<u8>)>,
    k: nat,
)
    requires
        decodable(pairs, k),
        decodable(other, k),
        other.take(k as int).to_multiset() == pairs.take(k as int).to_multiset(),
    ensures
        decoded(other, k) == decoded(pairs, k),
{
    let front = pairs.take(k as int);
    let other_front = other.take(k as int);
    front.to_multiset_ensures();
    other_front.to_multiset_ensures();
    assert forall|j: int| 0 <= j < k implies exists|i: int|
        0 <= i < k && pairs[i] == #[trigger] other[j] by {
        assert(other_front[j] == other[j]);
        assert(other_front.contains(other[j]));
        assert(other_front.to_multiset().count(other[j]) > 0);
        assert(front.to_multiset().count(other[j]) > 0);
        assert(front.contains(other[j]));
        let i = choose|i: int| 0 <= i < front.len() && front[i] == other[j];
        assert(pairs[i] == front[i]);
    }
    let first = choose|i: int| 0 <= i < k && pairs[i] == other[0];
    assert(other[0].1.len() == pairs[0].1.len()) by {
        assert(pairs[first].1.len() == pairs[0].1.len());
    }
    let count = (word_count(pairs[0].1.len()) * k) as nat;
    let a = decoded_words(pairs, k, count);
    let b = decoded_words(other, k, count);
    assert forall|i: int| 0 <= i < count implies a[i] == b[i] by {
        let s = i / (k as int);
        let m = i % (k as int);
        vstd::arithmetic::div_mod::lemma_mod_bound(i, k as int);
        lemma_same_stripe(pairs, other, k, s);
        assert(a[i] == values(sample_points(samples(pairs, s, k)), k)[m]);
        assert(b[i] == values(sample_points(samples(other, s, k)), k)[m]);
    }
    assert(a =~= b);
}

/// Where each of the first `k` pairs of `other` is among the first `k` of `pairs`,
/// both give the same polynomial for a stripe.
proof fn lemma_same_stripe(
    pairs: Seq<(usize, Seq<u8>)>,
    other: Seq<(usize, Seq<u8>)>,
    k: nat,
    s: int,
)
    requires
        decodable(pairs, k),
        decodable(other, k),
        forall|j: int| 0 <= j < k ==> exists|i: int| 0 <= i < k && pairs[i] == #[trigger] other[j],
    ensures
        forall|x: GF232|
            eval(interpolation(sample_points(samples(other, s, k))), x) == eval(
                interpolation(sample_points(samples(pairs, s, k))),
                x,
            ),
{
    let points = sample_points(samples(pairs, s, k));
    let others = sample_points(samples(other, s, k));
    let p = interpolation(points);
    lemma_samples_distinct(pairs, s, k);
    lemma_samples_distinct(other, s, k);
    lemma_interpolation(points);
    assert forall|j: int| 0 <= j < others.len() implies eval(p, node(others[j]))
        == others[j].1 by {
        let t = choose|t: int| 0 <= t < k && pairs[t] == other[j];
        assert(points[t] == others[j]);
    }
    lemma_interpolation_unique(others, p);
}

} // verus!
