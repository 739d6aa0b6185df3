//! The deterministic random source that every workload draws its input from.

use rand::rngs::StdRng;
use vstd::prelude::*;

verus! {

/// The generator of `rand` that all streams are made of. Its fields are not
/// read here: a stream is known by its state alone.
#[verifier::external_type_specification]
#[verifier::external_body]
pub struct ExStdRng(StdRng);

/// The internal state of a stream, as the bytes that determine every later
/// draw.
pub uninterp spec fn stream_state(rng: StdRng) -> Seq<u8>;

/// The state in which `StdRng::seed_from_u64` leaves a fresh stream for the
/// given seed.
pub uninterp spec fn seeded_state(seed: u64) -> Seq<u8>;

/// What `Rng::gen::<u128>` does in a given state: the value it hands out and
/// the state it leaves behind.
pub uninterp spec fn drawn_u128(state: Seq<u8>) -> (u128, Seq<u8>);

/// The seed that every run of the harness starts from.
pub const BASE_SEED: u64 = 0xffff_1145_14ab_cdef;

/// Calls `StdRng::seed_from_u64`. Trusted: the state of the stream that comes
/// back depends on the seed alone.
#[verifier::external_body]
pub(crate) fn seed_stream(seed: u64) -> (rng: StdRng)
    ensures
        stream_state(rng) == seeded_state(seed),
{
    rand::SeedableRng::seed_from_u64(seed)
}

/// Calls `Rng::gen::<u128>`. Trusted: the value drawn and the state left
/// behind depend on the state before the call alone.
#[verifier::external_body]
pub(crate) fn draw_u128(rng: &mut StdRng) -> (key: u128)
    ensures
        key == drawn_u128(stream_state(*old(rng))).0,
        stream_state(*final(rng)) == drawn_u128(stream_state(*old(rng))).1,
{
    rand::Rng::gen(rng)
}

/// What `Rng::fill` does to an array of 64 values of 128 bits in a given
/// state: the values it writes and the state it leaves behind.
pub uninterp spec fn filled_block(state: Seq<u8>) -> (Seq<u128>, Seq<u8>);

/// Calls `Rng::fill` on an array of 64 values. Trusted: the values written
/// and the state left behind depend on the state before the call alone.
#[verifier::external_body]
pub(crate) fn fill_block(rng: &mut StdRng) -> (block: [u128; 64])
    ensures
        block@ == filled_block(stream_state(*old(rng))).0,
        stream_state(*final(rng)) == filled_block(stream_state(*old(rng))).1,
{
    let mut block = [0u128; 64];
    rand::Rng::fill(rng, &mut block);
    block
}

/// What `Rng::gen::<usize>` does in a given state on a machine whose words
/// have `bits` bits: the word it hands out and the state it leaves behind.
pub uninterp spec fn drawn_word(state: Seq<u8>, bits: nat) -> (usize, Seq<u8>);

/// Calls `Rng::gen::<usize>`. Trusted: the word drawn and the state left
/// behind depend on the state before the call and on the width of the
/// machine's words alone.
#[verifier::external_body]
pub(crate) fn draw_usize(rng: &mut StdRng) -> (key: usize)
    ensures
        key == drawn_word(stream_state(*old(rng)), usize::BITS as nat).0,
        stream_state(*final(rng)) == drawn_word(stream_state(*old(rng)), usize::BITS as nat).1,
{
    rand::Rng::gen(rng)
}

/// The first `count` words that a stream in `state` hands out on this
/// machine.
pub open spec fn words(state: Seq<u8>, count: nat) -> Seq<usize>
    decreases count,
{
    if count == 0 {
        Seq::empty()
    } else {
        seq![drawn_word(state, usize::BITS as nat).0] + words(
            drawn_word(state, usize::BITS as nat).1,
            (count - 1) as nat,
        )
    }
}

/// The state of a stream after `count` words were drawn from `state`.
pub open spec fn state_after_words(state: Seq<u8>, count: nat) -> Seq<u8>
    decreases count,
{
    if count == 0 {
        state
    } else {
        state_after_words(drawn_word(state, usize::BITS as nat).1, (count - 1) as nat)
    }
}

/// Drawing `count + 1` words is drawing `count` words and then one more.
pub proof fn lemma_words_step(state: Seq<u8>, count: nat)
    ensures
        words(state, count + 1) == words(state, count).push(
            drawn_word(state_after_words(state, count), usize::BITS as nat).0,
        ),
        state_after_words(state, count + 1) == drawn_word(
            state_after_words(state, count),
            usize::BITS as nat,
        ).1,
        words(state, count).len() == count,
    decreases count,
{
    let first = drawn_word(state, usize::BITS as nat);
    if count == 0 {
        assert(words(first.1, 0) == Seq::<usize>::empty());
        assert(words(state, 1) =~= seq![first.0]);
        assert(words(state, 0).push(first.0) =~= seq![first.0]);
        assert(state_after_words(first.1, 0) == first.1);
    } else {
        lemma_words_step(first.1, (count - 1) as nat);
        assert(words(state, count + 1) =~= words(state, count).push(
            drawn_word(state_after_words(state, count), usize::BITS as nat).0,
        ));
    }
}

/// The first `count` values that a stream in `state` hands out.
pub open spec fn draws(state: Seq<u8>, count: nat) -> Seq<u128>
    decreases count,
{
    if count == 0 {
        Seq::empty()
    } else {
        seq![drawn_u128(state).0] + draws(drawn_u128(state).1, (count - 1) as nat)
    }
}

/// The state of a stream after `count` values were drawn from `state`.
pub open spec fn state_after(state: Seq<u8>, count: nat) -> Seq<u8>
    decreases count,
{
    if count == 0 {
        state
    } else {
        state_after(drawn_u128(state).1, (count - 1) as nat)
    }
}

/// Drawing `count + 1` values is drawing `count` values and then one more.
pub proof fn lemma_draws_step(state: Seq<u8>, count: nat)
    ensures
        draws(state, count + 1) == draws(state, count).push(
            drawn_u128(state_after(state, count)).0,
        ),
        state_after(state, count + 1) == drawn_u128(state_after(state, count)).1,
    decreases count,
{
    if count == 0 {
        assert(draws(drawn_u128(state).1, 0) == Seq::<u128>::empty());
        assert(draws(state, 1) =~= seq![drawn_u128(state).0]);
        assert(draws(state, 0).push(drawn_u128(state).0) =~= seq![drawn_u128(state).0]);
        assert(state_after(drawn_u128(state).1, 0) == drawn_u128(state).1);
    } else {
        let next = drawn_u128(state).1;
        lemma_draws_step(next, (count - 1) as nat);
        assert(draws(state, count + 1) =~= draws(state, count).push(
            drawn_u128(state_after(state, count)).0,
        ));
    }
}

/// Drawing `first + second` values is drawing `first` values and then
/// `second` more from the state that they leave.
pub proof fn lemma_draws_split(state: Seq<u8>, first: nat, second: nat)
    ensures
        draws(state, first + second) == draws(state, first) + draws(
            state_after(state, first),
            second,
        ),
        state_after(state, first + second) == state_after(state_after(state, first), second),
    decreases first,
{
    if first == 0 {
        assert(draws(state, 0) + draws(state, second) =~= draws(state, second));
    } else {
        let next = drawn_u128(state).1;
        lemma_draws_split(next, (first - 1) as nat, second);
        assert(draws(state, first + second) =~= draws(state, first) + draws(
            state_after(state, first),
            second,
        ));
    }
}

/// As many values are drawn as were asked for.
pub proof fn lemma_draws_len(state: Seq<u8>, count: nat)
    ensures
        draws(state, count).len() == count,
    decreases count,
{
    if count > 0 {
        lemma_draws_len(drawn_u128(state).1, (count - 1) as nat);
    }
}

/// The input of the data-parallel workload: the first `size` values of the
/// stream that `seed` starts.
pub fn random_data(seed: u64, size: usize) -> (data: Vec<u128>)
    ensures
        data@ == draws(seeded_state(seed), size as nat),
        data@.len() == size,
{
    proof {
        lemma_draws_len(seeded_state(seed), size as nat);
    }
    let mut rng = seed_stream(seed);
    let mut data: Vec<u128> = Vec::new();
    let mut i: usize = 0;
    while i < size
        invariant
            i <= size,
            data@ == draws(seeded_state(seed), i as nat),
            stream_state(rng) == state_after(seeded_state(seed), i as nat),
        decreases size - i,
    {
        proof {
            lemma_draws_step(seeded_state(seed), i as nat);
        }
        let value = draw_u128(&mut rng);
        data.push(value);
        i += 1;
    }
    data
}

} // verus!
