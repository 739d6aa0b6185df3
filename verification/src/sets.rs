//! The two set workloads: rounds of random insertions and removals on an
//! ordered set and on a hashed set, both fed by the same stream.

use crate::stream::{
    draw_u128, drawn_u128, draws, lemma_draws_split, lemma_draws_step, state_after, stream_state,
};
use hashbrown::HashSet;
use rand::rngs::StdRng;
use std::collections::BTreeSet;
use vstd::prelude::*;

verus! {

/// A hashed set of `hashbrown`, held whole: its table is not read here, and a
/// set is known by the keys it holds.
#[verifier::external_body]
pub struct HashedKeys {
    inner: HashSet<u128>,
}

/// The keys that a hashed set holds.
pub uninterp spec fn hash_set_keys(set: HashedKeys) -> Set<u128>;

/// Calls `HashSet::new`. Trusted: the new set holds no key.
#[verifier::external_body]
fn hash_set_new() -> (set: HashedKeys)
    ensures
        hash_set_keys(set) == Set::<u128>::empty(),
{
    HashedKeys { inner: HashSet::new() }
}

/// Calls `HashSet::insert`. Trusted: the key is in the set afterwards, no
/// other key comes or goes, and the result says whether the key was new.
#[verifier::external_body]
fn hash_set_insert(set: &mut HashedKeys, key: u128) -> (fresh: bool)
    ensures
        hash_set_keys(*final(set)) == hash_set_keys(*old(set)).insert(key),
        fresh == !hash_set_keys(*old(set)).contains(key),
{
    set.inner.insert(key)
}

/// Calls `HashSet::remove`. Trusted: the key is gone afterwards, no other key
/// comes or goes, and the result says whether the key was there.
#[verifier::external_body]
fn hash_set_remove(set: &mut HashedKeys, key: u128) -> (found: bool)
    ensures
        hash_set_keys(*final(set)) == hash_set_keys(*old(set)).remove(key),
        found == hash_set_keys(*old(set)).contains(key),
{
    set.inner.remove(&key)
}

/// Calls `HashSet::contains`. Trusted: the result says whether the key is in
/// the set.
#[verifier::external_body]
fn hash_set_contains(set: &HashedKeys, key: u128) -> (found: bool)
    ensures
        found == hash_set_keys(*set).contains(key),
{
    set.inner.contains(&key)
}

/// Calls `HashSet::len`. Trusted: the result is the number of keys in the
/// set.
#[verifier::external_body]
fn hash_set_len(set: &HashedKeys) -> (count: usize)
    ensures
        count == hash_set_keys(*set).len(),
{
    set.inner.len()
}

impl View for HashedKeys {
    type V = Set<u128>;

    open spec fn view(&self) -> Set<u128> {
        hash_set_keys(*self)
    }
}

impl HashedKeys {
    /// Whether `key` is in the set.
    pub fn contains(&self, key: u128) -> (found: bool)
        ensures
            found == self@.contains(key),
    {
        hash_set_contains(self, key)
    }

    /// The number of keys in the set.
    pub fn len(&self) -> (count: usize)
        ensures
            count == self@.len(),
    {
        hash_set_len(self)
    }
}

/// The set that holds `keys` besides what `set` held.
pub open spec fn with_keys(set: Set<u128>, keys: Seq<u128>) -> Set<u128> {
    set.union(keys.to_set())
}

/// The set that holds what `set` held, `keys` left out.
pub open spec fn without_keys(set: Set<u128>, keys: Seq<u128>) -> Set<u128> {
    set.difference(keys.to_set())
}

/// One round on `set` with a stream in `state`: the first `insertion` values
/// drawn are inserted, the next `deletion` values are removed.
pub open spec fn round(state: Seq<u8>, set: Set<u128>, insertion: nat, deletion: nat) -> Set<u128> {
    without_keys(
        with_keys(set, draws(state, insertion)),
        draws(state_after(state, insertion), deletion),
    )
}

/// The set left by `iteration` rounds in a row, each one starting in the
/// state in which the round before it left the stream.
pub open spec fn rounds(
    state: Seq<u8>,
    set: Set<u128>,
    iteration: nat,
    insertion: nat,
    deletion: nat,
) -> Set<u128>
    decreases iteration,
{
    if iteration == 0 {
        set
    } else {
        rounds(
            state_after(state_after(state, insertion), deletion),
            round(state, set, insertion, deletion),
            (iteration - 1) as nat,
            insertion,
            deletion,
        )
    }
}

/// The keys of a whole run in the order in which they are drawn: round by
/// round, the insertions of a round before its removals.
pub open spec fn run_keys(state: Seq<u8>, iteration: nat, insertion: nat, deletion: nat) -> Seq<
    u128,
> {
    draws(state, iteration * (insertion + deletion))
}

/// One more key drawn and inserted extends the batch by that key.
proof fn lemma_with_one_more(set: Set<u128>, keys: Seq<u128>, key: u128)
    ensures
        with_keys(set, keys.push(key)) == with_keys(set, keys).insert(key),
{
    assert forall|k: u128| keys.push(key).to_set().contains(k) <==> keys.to_set().insert(
        key,
    ).contains(k) by {
        if keys.push(key).to_set().contains(k) {
            let i = choose|i: int| 0 <= i < keys.push(key).len() && keys.push(key)[i] == k;
            if i < keys.len() {
                assert(keys[i] == k);
            }
        }
        if keys.to_set().contains(k) {
            let i = choose|i: int| 0 <= i < keys.len() && keys[i] == k;
            assert(keys.push(key)[i] == k);
        }
        if k == key {
            assert(keys.push(key)[keys.len() as int] == k);
        }
    }
    assert(keys.push(key).to_set() =~= keys.to_set().insert(key));
    assert(with_keys(set, keys.push(key)) =~= with_keys(set, keys).insert(key));
}

/// One more key drawn and removed extends the batch by that key.
proof fn lemma_without_one_more(set: Set<u128>, keys: Seq<u128>, key: u128)
    ensures
        without_keys(set, keys.push(key)) == without_keys(set, keys).remove(key),
{
    lemma_with_one_more(Set::empty(), keys, key);
    assert(keys.push(key).to_set() =~= with_keys(Set::empty(), keys.push(key)));
    assert(keys.to_set() =~= with_keys(Set::empty(), keys));
    assert(without_keys(set, keys.push(key)) =~= without_keys(set, keys).remove(key));
}

/// A batch of no keys changes nothing.
proof fn lemma_no_keys(set: Set<u128>, state: Seq<u8>)
    ensures
        with_keys(set, draws(state, 0)) == set,
        without_keys(set, draws(state, 0)) == set,
{
    assert(draws(state, 0).to_set() =~= Set::<u128>::empty());
    assert(with_keys(set, draws(state, 0)) =~= set);
    assert(without_keys(set, draws(state, 0)) =~= set);
}

/// The hashed-set workload: `iteration` rounds, each of `insertion` random
/// insertions followed by `deletion` random removals, on a set that starts
/// empty. Removing a key that is not there changes nothing. The set that the
/// last round leaves is handed back.
pub fn hash_brown(rand: StdRng, iteration: usize, insertion: usize, deletion: usize) -> (set:
    HashedKeys)
    ensures
        hash_set_keys(set) == rounds(
            stream_state(rand),
            Set::empty(),
            iteration as nat,
            insertion as nat,
            deletion as nat,
        ),
{
    let ghost goal = rounds(
        stream_state(rand),
        Set::empty(),
        iteration as nat,
        insertion as nat,
        deletion as nat,
    );
    let mut set = hash_set_new();
    let mut rand = rand;
    let mut done: usize = 0;
    while done < iteration
        invariant
            done <= iteration,
            rounds(
                stream_state(rand),
                hash_set_keys(set),
                (iteration - done) as nat,
                insertion as nat,
                deletion as nat,
            ) == goal,
        decreases iteration - done,
    {
        let ghost state0 = stream_state(rand);
        let ghost keys0 = hash_set_keys(set);
        proof {
            lemma_no_keys(keys0, state0);
        }
        let mut i: usize = 0;
        while i < insertion
            invariant
                i <= insertion,
                stream_state(rand) == state_after(state0, i as nat),
                hash_set_keys(set) == with_keys(keys0, draws(state0, i as nat)),
            decreases insertion - i,
        {
            proof {
                lemma_draws_step(state0, i as nat);
                lemma_with_one_more(
                    keys0,
                    draws(state0, i as nat),
                    drawn_u128(state_after(state0, i as nat)).0,
                );
            }
            let key = draw_u128(&mut rand);
            hash_set_insert(&mut set, key);
            i += 1;
        }
        let ghost state1 = stream_state(rand);
        let ghost keys1 = hash_set_keys(set);
        proof {
            lemma_no_keys(keys1, state1);
        }
        let mut j: usize = 0;
        while j < deletion
            invariant
                j <= deletion,
                stream_state(rand) == state_after(state1, j as nat),
                hash_set_keys(set) == without_keys(keys1, draws(state1, j as nat)),
            decreases deletion - j,
        {
            proof {
                lemma_draws_step(state1, j as nat);
                lemma_without_one_more(
                    keys1,
                    draws(state1, j as nat),
                    drawn_u128(state_after(state1, j as nat)).0,
                );
            }
            let key = draw_u128(&mut rand);
            hash_set_remove(&mut set, key);
            j += 1;
        }
        done += 1;
    }
    set
}

/// Puts `key` into an ordered set.
fn ordered_insert(set: &mut BTreeSet<u128>, key: u128)
    ensures
        final(set)@ == old(set)@.insert(key),
{
    broadcast use vstd::std_specs::btree::group_btree_axioms;
    broadcast use vstd::laws_cmp::group_laws_cmp;

    set.insert(key);
}

/// Takes `key` out of an ordered set; a key that is not there is passed over.
fn ordered_remove(set: &mut BTreeSet<u128>, key: u128)
    ensures
        final(set)@ == old(set)@.remove(key),
{
    broadcast use vstd::std_specs::btree::group_btree_axioms;
    broadcast use vstd::laws_cmp::group_laws_cmp;

    set.remove(&key);
}

/// The ordered-set workload: the rounds of [`hash_brown`], on an ordered set.
pub fn btree_container(rand: StdRng, iteration: usize, insertion: usize, deletion: usize) -> (set:
    BTreeSet<u128>)
    ensures
        set@ == rounds(
            stream_state(rand),
            Set::empty(),
            iteration as nat,
            insertion as nat,
            deletion as nat,
        ),
{
    let ghost goal = rounds(
        stream_state(rand),
        Set::empty(),
        iteration as nat,
        insertion as nat,
        deletion as nat,
    );
    let mut set: BTreeSet<u128> = BTreeSet::new();
    let mut rand = rand;
    let mut done: usize = 0;
    while done < iteration
        invariant
            done <= iteration,
            rounds(
                stream_state(rand),
                set@,
                (iteration - done) as nat,
                insertion as nat,
                deletion as nat,
            ) == goal,
        decreases iteration - done,
    {
        let ghost state0 = stream_state(rand);
        let ghost keys0 = set@;
        proof {
            lemma_no_keys(keys0, state0);
        }
        let mut i: usize = 0;
        while i < insertion
            invariant
                i <= insertion,
                stream_state(rand) == state_after(state0, i as nat),
                set@ == with_keys(keys0, draws(state0, i as nat)),
            decreases insertion - i,
        {
            proof {
                lemma_draws_step(state0, i as nat);
                lemma_with_one_more(
                    keys0,
                    draws(state0, i as nat),
                    drawn_u128(state_after(state0, i as nat)).0,
                );
            }
            let key = draw_u128(&mut rand);
            ordered_insert(&mut set, key);
            i += 1;
        }
        let ghost state1 = stream_state(rand);
        let ghost keys1 = set@;
        proof {
            lemma_no_keys(keys1, state1);
        }
        let mut j: usize = 0;
        while j < deletion
            invariant
                j <= deletion,
                stream_state(rand) == state_after(state1, j as nat),
                set@ == without_keys(keys1, draws(state1, j as nat)),
            decreases deletion - j,
        {
            proof {
                lemma_draws_step(state1, j as nat);
                lemma_without_one_more(
                    keys1,
                    draws(state1, j as nat),
                    drawn_u128(state_after(state1, j as nat)).0,
                );
            }
            let key = draw_u128(&mut rand);
            ordered_remove(&mut set, key);
            j += 1;
        }
        done += 1;
    }
    set
}

/// Two streams in the same state perform the same run: they draw the same
/// keys in the same order, and leave the same set.
pub proof fn lemma_same_state_same_run(
    first: StdRng,
    second: StdRng,
    iteration: nat,
    insertion: nat,
    deletion: nat,
)
    requires
        stream_state(first) == stream_state(second),
    ensures
        run_keys(stream_state(first), iteration, insertion, deletion) == run_keys(
            stream_state(second),
            iteration,
            insertion,
            deletion,
        ),
        rounds(stream_state(first), Set::empty(), iteration, insertion, deletion) == rounds(
            stream_state(second),
            Set::empty(),
            iteration,
            insertion,
            deletion,
        ),
{
}

/// A run leaves no key that it did not find or draw, and a finite set stays
/// finite.
pub proof fn lemma_rounds_within_run(
    state: Seq<u8>,
    set: Set<u128>,
    iteration: nat,
    insertion: nat,
    deletion: nat,
)
    ensures
        rounds(state, set, iteration, insertion, deletion).subset_of(
            set.union(run_keys(state, iteration, insertion, deletion).to_set()),
        ),
        set.finite() ==> rounds(state, set, iteration, insertion, deletion).finite(),
    decreases iteration,
{
    if iteration > 0 {
        let per_round = insertion + deletion;
        let rest = ((iteration - 1) as nat) * per_round;
        let state1 = state_after(state, insertion);
        let state2 = state_after(state1, deletion);
        let inserted = draws(state, insertion);
        let removed = draws(state1, deletion);
        let after = round(state, set, insertion, deletion);
        let all = run_keys(state, iteration, insertion, deletion);
        let later = run_keys(state2, (iteration - 1) as nat, insertion, deletion);
        lemma_rounds_within_run(state2, after, (iteration - 1) as nat, insertion, deletion);
        assert(iteration * per_round == per_round + rest) by (nonlinear_arith)
            requires
                iteration > 0,
                rest == (iteration - 1) * per_round,
        ;
        lemma_draws_split(state, per_round, rest);
        lemma_draws_split(state, insertion, deletion);
        assert(all == inserted + removed + later);
        assert forall|k: u128| inserted.to_set().contains(k) implies all.to_set().contains(k) by {
            let i = choose|i: int| 0 <= i < inserted.len() && inserted[i] == k;
            assert(all[i] == k);
        }
        assert forall|k: u128| later.to_set().contains(k) implies all.to_set().contains(k) by {
            let i = choose|i: int| 0 <= i < later.len() && later[i] == k;
            assert(all[inserted.len() + removed.len() + i] == k);
        }
        if set.finite() {
            vstd::seq_lib::seq_to_set_is_finite(inserted);
            vstd::set_lib::lemma_set_union_finite_iff(set, inserted.to_set());
            vstd::set_lib::lemma_set_subset_finite(set.union(inserted.to_set()), after);
        }
    }
}

} // verus!
