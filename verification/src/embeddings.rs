//! The hashing-trick embedder: every lowercased whitespace-separated token
//! of a text is hashed (64-bit FNV-1a over its UTF-8 bytes) to a bucket and
//! a sign, and the signed counts per bucket, L2-normalised, make the
//! vector. This module computes the integer counts; normalising them into
//! floating-point components happens where floats are handled.
use vstd::prelude::*;
use vstd::utf8::encode_utf8;

use crate::text::{chars_of, lowercase, split_whitespace, string_of, to_lowercase, words};

verus! {

/// Errors of an embedding model.
#[derive(Debug)]
pub enum EmbedError {
    Model(String),
    InvalidInput(String),
}

/// The FNV-1a offset basis for 64 bits.
pub const FNV_OFFSET: u64 = 0xcbf29ce484222325;

/// The FNV-1a prime for 64 bits.
pub const FNV_PRIME: u64 = 0x100000001b3;

/// One FNV-1a step: xor in the byte, then multiply modulo 2^64.
pub open spec fn fnv_step(h: u64, b: u8) -> u64 {
    (h ^ (b as u64)).wrapping_mul(FNV_PRIME)
}

/// The 64-bit FNV-1a hash of `bytes`.
pub open spec fn fnv1a(bytes: Seq<u8>) -> u64
    decreases bytes.len(),
{
    if bytes.len() == 0 {
        FNV_OFFSET
    } else {
        fnv_step(fnv1a(bytes.drop_last()), bytes.last())
    }
}

/// The hash of a token: FNV-1a of the UTF-8 bytes of its lowercased form.
pub open spec fn token_hash(token: Seq<char>) -> u64 {
    fnv1a(encode_utf8(lowercase(token)))
}

/// The bucket of a hash among `dim` buckets.
pub open spec fn bucket_of(h: u64, dim: nat) -> int {
    ((h as usize) % (dim as usize)) as int
}

/// The sign of a hash: `+1` when its top bit is clear, `-1` otherwise.
pub open spec fn sign_of(h: u64) -> int {
    if h < 0x8000_0000_0000_0000 {
        1
    } else {
        -1
    }
}

/// The signed bucket counts of `tokens` over `dim` buckets: each token
/// whose lowercased form is non-empty adds its sign to its bucket.
pub open spec fn bucket_counts(tokens: Seq<Seq<char>>, dim: nat) -> Seq<int>
    decreases tokens.len(),
{
    if tokens.len() == 0 {
        Seq::new(dim, |i: int| 0)
    } else {
        let c = bucket_counts(tokens.drop_last(), dim);
        let t = tokens.last();
        if lowercase(t).len() == 0 {
            c
        } else {
            let h = token_hash(t);
            let b = bucket_of(h, dim);
            c.update(b, c[b] + sign_of(h))
        }
    }
}

/// The counts have one entry per bucket, and a text without tokens has
/// all counts zero (so its embedding is the zero vector).
pub proof fn lemma_bucket_counts_shape(tokens: Seq<Seq<char>>, dim: nat)
    requires
        dim <= usize::MAX,
        dim > 0 || tokens.len() == 0,
    ensures
        bucket_counts(tokens, dim).len() == dim,
        tokens.len() == 0 ==> forall|i: int| 0 <= i < dim ==> #[trigger] bucket_counts(tokens, dim)[i] == 0,
    decreases tokens.len(),
{
    if tokens.len() > 0 {
        lemma_bucket_counts_shape(tokens.drop_last(), dim);
        let t = tokens.last();
        if lowercase(t).len() > 0 {
            let h = token_hash(t);
            let b = bucket_of(h, dim);
            let x = h as usize;
            let d = dim as usize;
            assert(d == dim);
            assert(0 <= x % d < d) by (nonlinear_arith)
                requires
                    d > 0,
            ;
            assert(0 <= b < dim);
        }
    }
}

/// The tokens, each lowercased: all that the counts depend on.
pub open spec fn lowered(tokens: Seq<Seq<char>>) -> Seq<Seq<char>> {
    tokens.map_values(|t: Seq<char>| lowercase(t))
}

/// What a lowercased token `l` adds to bucket `i` of `dim`: its sign where
/// it is non-empty and hashes to `i`, else nothing.
pub open spec fn lowered_contribution(l: Seq<char>, i: int, dim: nat) -> int {
    let h = fnv1a(encode_utf8(l));
    if l.len() > 0 && bucket_of(h, dim) == i {
        sign_of(h)
    } else {
        0
    }
}

/// The sum of what the lowercased tokens `ls` add to bucket `i`.
pub open spec fn contribution_sum(ls: Seq<Seq<char>>, i: int, dim: nat) -> int
    decreases ls.len(),
{
    if ls.len() == 0 {
        0
    } else {
        contribution_sum(ls.drop_last(), i, dim) + lowered_contribution(ls.last(), i, dim)
    }
}

proof fn lemma_counts_are_sums(tokens: Seq<Seq<char>>, dim: nat)
    requires
        0 < dim <= usize::MAX,
    ensures
        forall|i: int| 0 <= i < dim ==> #[trigger] bucket_counts(tokens, dim)[i] == contribution_sum(
            lowered(tokens),
            i,
            dim,
        ),
    decreases tokens.len(),
{
    lemma_bucket_counts_shape(tokens, dim);
    if tokens.len() > 0 {
        let rest = tokens.drop_last();
        lemma_counts_are_sums(rest, dim);
        lemma_bucket_counts_shape(rest, dim);
        assert(lowered(tokens).drop_last() =~= lowered(rest));
        assert(lowered(tokens).last() == lowercase(tokens.last()));
        let t = tokens.last();
        if lowercase(t).len() > 0 {
            let h = token_hash(t);
            let x = h as usize;
            let d = dim as usize;
            assert(0 <= x % d < d) by (nonlinear_arith)
                requires
                    d > 0,
            ;
        }
    }
}

proof fn lemma_contribution_sum_remove(ls: Seq<Seq<char>>, j: int, i: int, dim: nat)
    requires
        0 <= j < ls.len(),
    ensures
        contribution_sum(ls, i, dim) == contribution_sum(ls.remove(j), i, dim) + lowered_contribution(
            ls[j],
            i,
            dim,
        ),
    decreases ls.len(),
{
    if j == ls.len() - 1 {
        assert(ls.remove(j) =~= ls.drop_last());
    } else {
        lemma_contribution_sum_remove(ls.drop_last(), j, i, dim);
        assert(ls.remove(j).drop_last() =~= ls.drop_last().remove(j));
        assert(ls.remove(j).last() == ls.last());
    }
}

proof fn lemma_contribution_sum_permutation(a: Seq<Seq<char>>, b: Seq<Seq<char>>, i: int, dim: nat)
    requires
        a.to_multiset() == b.to_multiset(),
    ensures
        contribution_sum(a, i, dim) == contribution_sum(b, i, dim),
    decreases a.len(),
{
    broadcast use vstd::seq_lib::group_to_multiset_ensures;

    if a.len() == 0 {
        assert(b.to_multiset().len() == 0);
        assert(b.len() == 0);
    } else {
        let x = a.last();
        let rest = a.drop_last();
        assert(rest.push(x) =~= a);
        assert(a.to_multiset() =~= rest.to_multiset().insert(x));
        assert(b.to_multiset().count(x) > 0);
        assert(b.contains(x));
        let j = choose|j: int| 0 <= j < b.len() && b[j] == x;
        assert(b.remove(j).to_multiset() =~= b.to_multiset().remove(x));
        assert(rest.to_multiset() =~= rest.to_multiset().insert(x).remove(x));
        lemma_contribution_sum_permutation(rest, b.remove(j), i, dim);
        lemma_contribution_sum_remove(b, j, i, dim);
    }
}

/// The counts depend only on which lowercased tokens occur and how often,
/// not on their order: two token lists whose lowercased tokens are
/// permutations of each other give the same counts (so the same
/// embedding), for every dimension that counting tokens admits.
pub proof fn lemma_bucket_counts_order_free(t1: Seq<Seq<char>>, t2: Seq<Seq<char>>, dim: nat)
    requires
        lowered(t1).to_multiset() == lowered(t2).to_multiset(),
        dim <= usize::MAX,
        dim > 0 || t1.len() == 0,
    ensures
        bucket_counts(t1, dim) == bucket_counts(t2, dim),
{
    assert(lowered(t1).len() == t1.len());
    assert(lowered(t2).len() == t2.len());
    lowered(t1).to_multiset_ensures();
    lowered(t2).to_multiset_ensures();
    assert(t1.len() == t2.len());
    lemma_bucket_counts_shape(t1, dim);
    lemma_bucket_counts_shape(t2, dim);
    if dim > 0 {
        lemma_counts_are_sums(t1, dim);
        lemma_counts_are_sums(t2, dim);
        assert forall|i: int| 0 <= i < dim implies bucket_counts(t1, dim)[i] == bucket_counts(
            t2,
            dim,
        )[i] by {
            lemma_contribution_sum_permutation(lowered(t1), lowered(t2), i, dim);
        }
    }
    assert(bucket_counts(t1, dim) =~= bucket_counts(t2, dim));
}

/// A deterministic, dependency-free embedder built on the hashing trick.
/// It captures lexical overlap, not meaning, but it is fast, local and
/// stable.
pub struct HashingEmbedder {
    dimension: usize,
    model_version: String,
}

/// The FNV-1a hash of `bytes`.
fn fnv1a_exec(bytes: &[u8]) -> (h: u64)
    ensures
        h == fnv1a(bytes@),
{
    let mut h: u64 = FNV_OFFSET;
    let mut i: usize = 0;
    while i < bytes.len()
        invariant
            i <= bytes.len(),
            h == fnv1a(bytes@.take(i as int)),
        decreases bytes.len() - i,
    {
        proof {
            assert(bytes@.take(i + 1).drop_last() == bytes@.take(i as int));
            assert(bytes@.take(i + 1).last() == bytes@[i as int]);
        }
        h = (h ^ (bytes[i] as u64)).wrapping_mul(FNV_PRIME);
        i += 1;
    }
    assert(bytes@.take(bytes.len() as int) == bytes@);
    h
}

impl HashingEmbedder {
    /// The dimension the embedder was made with.
    pub closed spec fn configured_dimension(&self) -> nat {
        self.dimension as nat
    }

    /// The model version the embedder records.
    pub closed spec fn version(&self) -> Seq<char> {
        self.model_version@
    }

    /// A hashing embedder with the given output dimension, model version
    /// `0.1.0`.
    pub fn new(dimension: usize) -> (e: Self)
        ensures
            e.configured_dimension() == dimension,
            e.version() == "0.1.0"@,
    {
        HashingEmbedder { dimension, model_version: String::from_str("0.1.0") }
    }

    /// A hashing embedder of dimension 384, a common small-model dimension.
    pub fn default_dim() -> (e: Self)
        ensures
            e.configured_dimension() == 384,
            e.version() == "0.1.0"@,
    {
        Self::new(384)
    }

    /// The model name, `hashing`.
    pub fn model_name(&self) -> (r: &'static str)
        ensures
            r@ == "hashing"@,
    {
        "hashing"
    }

    /// The model version, recorded beside every embedding so that
    /// incompatible vectors can be detected.
    pub fn model_version(&self) -> (r: &str)
        ensures
            r@ == self.version(),
    {
        self.model_version.as_str()
    }

    /// The output dimension.
    pub fn dimension(&self) -> (r: usize)
        ensures
            r == self.configured_dimension(),
    {
        self.dimension
    }

    /// The signed bucket counts of `text`: for each whitespace-separated
    /// token, lowercased, its FNV-1a hash picks a bucket (the hash modulo
    /// the dimension) and a sign (its top bit), and the sign is added to
    /// the bucket. The embedding is these counts, L2-normalised. A text
    /// with tokens needs a positive dimension.
    pub fn token_counts(&self, text: &str) -> (r: Vec<i128>)
        requires
            self.configured_dimension() > 0 || words(text@).len() == 0,
        ensures
            r@.map_values(|x: i128| x as int) == bucket_counts(words(text@), self.configured_dimension()),
    {
        let dim = self.dimension;
        let mut counts: Vec<i128> = Vec::new();
        let mut j: usize = 0;
        while j < dim
            invariant
                j <= dim,
                counts@.map_values(|x: i128| x as int) == Seq::new(j as nat, |i: int| 0int),
            decreases dim - j,
        {
            let ghost before = counts@;
            counts.push(0);
            assert(counts@.map_values(|x: i128| x as int) =~= before.map_values(|x: i128| x as int).push(0int));
            assert(counts@.map_values(|x: i128| x as int) =~= Seq::new((j + 1) as nat, |i: int| 0int));
            j += 1;
        }
        let v = chars_of(text);
        let toks = split_whitespace(&v);
        let ghost tv = toks@.map_values(|w: Vec<char>| w@);
        proof {
            assert(tv.take(0) =~= Seq::<Seq<char>>::empty());
            assert(bucket_counts(tv.take(0), dim as nat) =~= Seq::new(dim as nat, |i: int| 0int));
            assert forall|k: int| 0 <= k < counts.len() implies #[trigger] counts@[k] == 0 by {
                assert(counts@.map_values(|x: i128| x as int)[k] == 0);
            }
        }
        let mut i: usize = 0;
        while i < toks.len()
            invariant
                i <= toks.len(),
                dim == self.configured_dimension(),
                tv == toks@.map_values(|w: Vec<char>| w@),
                tv == words(text@),
                dim > 0 || tv.len() == 0,
                counts.len() == dim,
                counts@.map_values(|x: i128| x as int) == bucket_counts(tv.take(i as int), dim as nat),
                forall|k: int| 0 <= k < counts.len() ==> -(i as int) <= #[trigger] counts@[k] <= i,
            decreases toks.len() - i,
        {
            let low = to_lowercase(&toks[i]);
            proof {
                assert(tv.take(i + 1).drop_last() == tv.take(i as int));
                assert(tv.take(i + 1).last() == tv[i as int]);
            }
            if low.len() > 0 {
                let s = string_of(&low);
                let bytes = s.as_str().as_bytes();
                let h = fnv1a_exec(bytes);
                let b = ((h as usize) % dim) as usize;
                let top_clear = (h >> 63u64) & 1 == 0;
                assert(top_clear == (h < 0x8000_0000_0000_0000u64)) by (bit_vector)
                    requires
                        top_clear == ((h >> 63u64) & 1 == 0),
                ;
                let old_c = counts[b];
                let ghost before = counts@;
                if top_clear {
                    counts.set(b, old_c + 1);
                } else {
                    counts.set(b, old_c - 1);
                }
                proof {
                    assert(h == token_hash(tv[i as int]));
                    assert(counts@.map_values(|x: i128| x as int) =~= before.map_values(|x: i128| x as int).update(
                        b as int,
                        before[b as int] + sign_of(h),
                    ));
                }
            }
            i += 1;
        }
        assert(tv.take(toks.len() as int) == tv);
        counts
    }
}

impl Default for HashingEmbedder {
    /// The embedder of [`HashingEmbedder::default_dim`].
    fn default() -> (e: Self)
        ensures
            e.configured_dimension() == 384,
            e.version() == "0.1.0"@,
    {
        Self::default_dim()
    }
}

} // verus!
