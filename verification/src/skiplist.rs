//! The concurrent workload, seen from one worker: a private stream, a shared
//! ordered set, and a fixed sequence of insertions and removals.

use crate::stream::{
    draw_usize, lemma_words_step, seed_stream, seeded_state, state_after_words, stream_state, words,
};
use crossbeam_skiplist::SkipSet;
use vstd::prelude::*;

verus! {

/// The concurrent ordered set of `crossbeam_skiplist`. Other workers change
/// it between any two calls, so nothing is stated of what it holds.
#[verifier::external_type_specification]
#[verifier::external_body]
#[verifier::reject_recursive_types(T)]
pub struct ExSkipSet<T>(SkipSet<T>);

/// One worker's hold on the shared set, with the record of the calls that
/// the worker made on the set through it: for each call, whether it was an
/// insertion, and the key.
pub struct Shared<'a> {
    set: &'a SkipSet<usize>,
    calls: Ghost<Seq<(bool, usize)>>,
}

impl<'a> Shared<'a> {
    /// The calls made through this hold so far, oldest first.
    pub closed spec fn calls(&self) -> Seq<(bool, usize)> {
        self.calls@
    }
}

/// A hold on `set` through which no call was made yet.
pub fn share<'a>(set: &'a SkipSet<usize>) -> (shared: Shared<'a>)
    ensures
        shared.calls() == Seq::<(bool, usize)>::empty(),
{
    Shared { set, calls: Ghost(Seq::empty()) }
}

/// Calls `SkipSet::insert` and drops the entry. Trusted: the call is made,
/// and the record is longer by this insertion.
#[verifier::external_body]
fn shared_insert(shared: &mut Shared, key: usize)
    ensures
        final(shared).calls() == old(shared).calls().push((true, key)),
{
    shared.set.insert(key);
}

/// Calls `SkipSet::remove` and drops the entry, if there was one. Trusted:
/// the call is made, and the record is longer by this removal.
#[verifier::external_body]
fn shared_remove(shared: &mut Shared, key: usize)
    ensures
        final(shared).calls() == old(shared).calls().push((false, key)),
{
    shared.set.remove(&key);
}

/// The eighth power of a worker's index.
pub open spec fn eighth_power(index: nat) -> nat {
    index * index * index * index * index * index * index * index
}

/// The seed of the worker with the given index: the base seed, with the
/// eighth power of the index, wrapped to 64 bits, folded in by exclusive or.
pub open spec fn derived_seed(base: u64, index: nat) -> u64 {
    base ^ ((eighth_power(index) % 0x1_0000_0000_0000_0000) as u64)
}

/// What one worker did on the shared set.
#[derive(Clone, Copy, Debug, PartialEq, Eq, Structural)]
pub struct Tally {
    pub insertions: u128,
    pub removals: u128,
}

/// Derives the seed of one worker from the base seed and the worker's index.
/// Workers far enough apart may meet in one seed: the power wraps.
pub fn worker_seed(base: u64, index: usize) -> (seed: u64)
    ensures
        seed == derived_seed(base, index as nat),
{
    let first: u64 = index as u64;
    let second: u64 = first.wrapping_mul(first);
    let fourth: u64 = second.wrapping_mul(second);
    let eighth: u64 = fourth.wrapping_mul(fourth);
    proof {
        let m: int = 0x1_0000_0000_0000_0000;
        let n: int = index as int;
        let n2: int = n * n;
        let n4: int = n2 * n2;
        assert(second == n2 % m);
        vstd::arithmetic::div_mod::lemma_mul_mod_noop(n2, n2, m);
        assert(fourth == n4 % m);
        vstd::arithmetic::div_mod::lemma_mul_mod_noop(n4, n4, m);
        assert(eighth == (n4 * n4) % m);
        assert(n4 * n4 == n * n * n * n * n * n * n * n) by (nonlinear_arith)
            requires
                n2 == n * n,
                n4 == n2 * n2,
        ;
    }
    base ^ eighth
}

/// Among the first 256 workers no two share a seed.
pub proof fn lemma_worker_seeds_distinct(base: u64, first: nat, second: nat)
    requires
        first < second < 256,
    ensures
        derived_seed(base, first) != derived_seed(base, second),
{
    let a: int = first as int;
    let b: int = second as int;
    let a2: int = a * a;
    let b2: int = b * b;
    let a4: int = a2 * a2;
    let b4: int = b2 * b2;
    let a8: int = a4 * a4;
    let b8: int = b4 * b4;
    assert(0 <= a2 < b2 <= 65025) by (nonlinear_arith)
        requires
            0 <= a < b <= 255,
            a2 == a * a,
            b2 == b * b,
    ;
    assert(0 <= a4 < b4 <= 4228250625) by (nonlinear_arith)
        requires
            0 <= a2 < b2 <= 65025,
            a4 == a2 * a2,
            b4 == b2 * b2,
    ;
    assert(0 <= a8 < b8 <= 17878103347812890625) by (nonlinear_arith)
        requires
            0 <= a4 < b4 <= 4228250625,
            a8 == a4 * a4,
            b8 == b4 * b4,
    ;
    assert(a8 == eighth_power(first)) by (nonlinear_arith)
        requires
            a2 == a * a,
            a4 == a2 * a2,
            a8 == a4 * a4,
            a == first,
            eighth_power(first) == first * first * first * first * first * first * first * first,
    ;
    assert(b8 == eighth_power(second)) by (nonlinear_arith)
        requires
            b2 == b * b,
            b4 == b2 * b2,
            b8 == b4 * b4,
            b == second,
            eighth_power(second) == second * second * second * second * second * second * second
                * second,
    ;
    let x: u64 = a8 as u64;
    let y: u64 = b8 as u64;
    assert(base ^ x != base ^ y) by (bit_vector)
        requires
            x != y,
    ;
}

/// The calls of one worker that draws `keys` in this order: the first
/// `insertion` keys are inserted, the next `deletion` keys are removed, and
/// the keys after them are inserted.
pub open spec fn phases(keys: Seq<usize>, insertion: nat, deletion: nat) -> Seq<(bool, usize)> {
    Seq::new(keys.len(), |k: int| (k < insertion || k >= insertion + deletion, keys[k]))
}

/// One more key drawn and used extends the calls by one.
proof fn lemma_phases_push(keys: Seq<usize>, key: usize, insertion: nat, deletion: nat)
    ensures
        phases(keys.push(key), insertion, deletion) == phases(keys, insertion, deletion).push(
            (keys.len() < insertion || keys.len() >= insertion + deletion, key),
        ),
{
    assert(phases(keys.push(key), insertion, deletion) =~= phases(keys, insertion, deletion).push(
        (keys.len() < insertion || keys.len() >= insertion + deletion, key),
    ));
}

/// The keys of one worker: the first words of the stream that the worker's
/// own seed starts, one for each call.
pub open spec fn worker_keys(base: u64, index: nat, insertion: nat, deletion: nat) -> Seq<usize> {
    words(seeded_state(derived_seed(base, index)), 2 * insertion + deletion)
}

/// One worker of the concurrent workload. From the stream that its own seed
/// starts it draws one key for each call, and on the shared set it makes
/// `insertion` insertions, then `deletion` removals, then `insertion`
/// insertions more, in this order and nothing else. It comes back when the
/// whole sequence is done, with the count of what it did.
pub fn skiplist_worker(
    shared: &mut Shared,
    base: u64,
    index: usize,
    insertion: usize,
    deletion: usize,
) -> (tally: Tally)
    ensures
        final(shared).calls() == old(shared).calls() + phases(
            worker_keys(base, index as nat, insertion as nat, deletion as nat),
            insertion as nat,
            deletion as nat,
        ),
        tally.insertions == 2 * insertion,
        tally.removals == deletion,
{
    let ghost before = shared.calls();
    let ghost start = seeded_state(derived_seed(base, index as nat));
    let mut rng = seed_stream(worker_seed(base, index));
    let mut tally = Tally { insertions: 0, removals: 0 };
    proof {
        assert(before + phases(words(start, 0), insertion as nat, deletion as nat) =~= before);
    }
    let mut i: usize = 0;
    while i < insertion
        invariant
            i <= insertion,
            tally.insertions == i,
            tally.removals == 0,
            stream_state(rng) == state_after_words(start, i as nat),
            shared.calls() == before + phases(
                words(start, i as nat),
                insertion as nat,
                deletion as nat,
            ),
        decreases insertion - i,
    {
        proof {
            lemma_words_step(start, i as nat);
        }
        let key = draw_usize(&mut rng);
        shared_insert(shared, key);
        proof {
            lemma_phases_push(words(start, i as nat), key, insertion as nat, deletion as nat);
            assert(shared.calls() =~= before + phases(
                words(start, (i + 1) as nat),
                insertion as nat,
                deletion as nat,
            ));
        }
        tally.insertions = tally.insertions + 1;
        i += 1;
    }
    let mut j: usize = 0;
    while j < deletion
        invariant
            j <= deletion,
            tally.insertions == insertion,
            tally.removals == j,
            stream_state(rng) == state_after_words(start, (insertion + j) as nat),
            shared.calls() == before + phases(
                words(start, (insertion + j) as nat),
                insertion as nat,
                deletion as nat,
            ),
        decreases deletion - j,
    {
        proof {
            lemma_words_step(start, (insertion + j) as nat);
        }
        let key = draw_usize(&mut rng);
        shared_remove(shared, key);
        proof {
            lemma_phases_push(
                words(start, (insertion + j) as nat),
                key,
                insertion as nat,
                deletion as nat,
            );
            assert(shared.calls() =~= before + phases(
                words(start, (insertion + j + 1) as nat),
                insertion as nat,
                deletion as nat,
            ));
        }
        tally.removals = tally.removals + 1;
        j += 1;
    }
    let mut k: usize = 0;
    while k < insertion
        invariant
            k <= insertion,
            tally.insertions == insertion + k,
            tally.removals == deletion,
            stream_state(rng) == state_after_words(start, (insertion + deletion + k) as nat),
            shared.calls() == before + phases(
                words(start, (insertion + deletion + k) as nat),
                insertion as nat,
                deletion as nat,
            ),
        decreases insertion - k,
    {
        proof {
            lemma_words_step(start, (insertion + deletion + k) as nat);
        }
        let key = draw_usize(&mut rng);
        shared_insert(shared, key);
        proof {
            lemma_phases_push(
                words(start, (insertion + deletion + k) as nat),
                key,
                insertion as nat,
                deletion as nat,
            );
            assert(shared.calls() =~= before + phases(
                words(start, (insertion + deletion + k + 1) as nat),
                insertion as nat,
                deletion as nat,
            ));
        }
        tally.insertions = tally.insertions + 1;
        k += 1;
    }
    tally
}

} // verus!
