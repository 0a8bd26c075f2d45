use vstd::prelude::*;
use std::hash::BuildHasher;

verus! {

/// The 64-bit hash that foldhash's fixed-seed hasher gives the pair `(a, b)`.
pub uninterp spec fn fold_mix(a: u64, b: u64) -> u64;

/// The bytes of a value in bincode's standard configuration.
pub uninterp spec fn bincode_of(v: u64) -> Seq<u8>;

/// Relies on `foldhash::fast::FixedState::hash_one` with the default seed, on a
/// pair of `u64`s: the seed is a constant and each number is fed to the hasher
/// as a number, so the hash depends on the pair alone, in every process.
#[verifier::external_body]
fn mix(a: u64, b: u64) -> (r: u64)
    ensures
        r == fold_mix(a, b),
{
    foldhash::fast::FixedState::default().hash_one((a, b))
}

/// Relies on `bincode::encode_to_vec` with `bincode::config::standard()`: the
/// encoding of `v`. The encoder writes into a growable vector, which never
/// reports an error, and the standard configuration sets no size limit, so the
/// result is always there.
#[verifier::external_body]
fn encode_value(v: u64) -> (r: Option<Vec<u8>>)
    ensures
        r.is_some(),
        r.is_some() ==> r.unwrap()@ == bincode_of(v),
{
    bincode::encode_to_vec(v, bincode::config::standard()).ok()
}

/// `seed` with each word folded in, in order.
pub open spec fn chain(seed: u64, words: Seq<u64>) -> u64
    decreases words.len(),
{
    if words.len() == 0 {
        seed
    } else {
        fold_mix(chain(seed, words.drop_last()), words.last())
    }
}

/// Bytes as words, one each.
pub open spec fn widen(bytes: Seq<u8>) -> Seq<u64> {
    bytes.map_values(|b: u8| b as u64)
}

/// Folds `words` into `seed`, in order.
pub fn chain_words(seed: u64, words: &Vec<u64>) -> (r: u64)
    ensures
        r == chain(seed, words@),
{
    let mut acc = seed;
    let mut i: usize = 0;
    while i < words.len()
        invariant
            i <= words@.len(),
            acc == chain(seed, words@.take(i as int)),
        decreases words@.len() - i,
    {
        assert(words@.take(i + 1).drop_last() == words@.take(i as int));
        acc = mix(acc, words[i]);
        i = i + 1;
    }
    assert(words@.take(i as int) == words@);
    acc
}

/// The structural hash of a node of `kind` that read values with the given
/// hashes: the kind with each read's hash folded in, in order.
pub fn structural_hash(kind: u64, read_hashes: &Vec<u64>) -> (r: u64)
    ensures
        r == chain(kind, read_hashes@),
{
    chain_words(kind, read_hashes)
}

/// The hash of an initial value: the bytes of its encoding folded into zero.
pub fn initial_value_hash(v: u64) -> (r: u64)
    ensures
        r == chain(0, widen(bincode_of(v))),
{
    match encode_value(v) {
        Some(bytes) => {
            let mut words: Vec<u64> = Vec::new();
            let mut i: usize = 0;
            while i < bytes.len()
                invariant
                    i <= bytes@.len(),
                    bytes@ == bincode_of(v),
                    words@ == widen(bytes@.take(i as int)),
                decreases bytes@.len() - i,
            {
                words.push(bytes[i] as u64);
                i = i + 1;
                assert(words@ =~= widen(bytes@.take(i as int)));
            }
            assert(bytes@.take(i as int) == bytes@);
            chain_words(0, &words)
        },
        None => 0,
    }
}

} // verus!
