//! The message round trip: a fresh actor per round, one block of random
//! values sent to it, and their sum awaited as the reply.

use crate::stream::{fill_block, filled_block, seed_stream, seeded_state, stream_state};
use rand::rngs::StdRng;
use vstd::prelude::*;

verus! {

/// The sum of `values`, unbounded.
pub open spec fn total(values: Seq<u128>) -> int
    decreases values.len(),
{
    if values.len() == 0 {
        0
    } else {
        total(values.drop_last()) + values.last()
    }
}

/// The sum of `values`, wrapped to 128 bits.
pub open spec fn wrapped_total(values: Seq<u128>) -> u128 {
    (total(values) % (u128::MAX + 1)) as u128
}

/// The reply to a message: the sum of its values, wrapping.
pub fn handle(message: &[u128; 64]) -> (reply: u128)
    ensures
        reply == wrapped_total(message@),
{
    let mut reply: u128 = 0;
    let mut i: usize = 0;
    while i < 64
        invariant
            i <= 64,
            message@.len() == 64,
            reply == wrapped_total(message@.take(i as int)),
        decreases 64 - i,
    {
        proof {
            let m: int = u128::MAX + 1;
            let seen = message@.take(i as int);
            let next = message@.take(i + 1);
            assert(next.drop_last() =~= seen);
            assert(next.last() == message@[i as int]);
            vstd::arithmetic::div_mod::lemma_add_mod_noop(total(seen), message@[i as int] as int, m);
            vstd::arithmetic::div_mod::lemma_small_mod(message@[i as int] as nat, m as nat);
            vstd::arithmetic::div_mod::lemma_mod_bound(total(seen), m);
            vstd::arithmetic::div_mod::lemma_fundamental_div_mod(reply + message@[i as int], m);
        }
        reply = reply.wrapping_add(message[i]);
        i += 1;
    }
    proof {
        assert(message@.take(64) =~= message@);
    }
    reply
}

/// The blocks that a stream in `state` fills, one after the other.
pub open spec fn messages(state: Seq<u8>, count: nat) -> Seq<Seq<u128>>
    decreases count,
{
    if count == 0 {
        Seq::empty()
    } else {
        seq![filled_block(state).0] + messages(filled_block(state).1, (count - 1) as nat)
    }
}

/// The state of a stream after `count` blocks were filled from `state`.
pub open spec fn state_after_blocks(state: Seq<u8>, count: nat) -> Seq<u8>
    decreases count,
{
    if count == 0 {
        state
    } else {
        state_after_blocks(filled_block(state).1, (count - 1) as nat)
    }
}

/// Filling `count + 1` blocks is filling `count` blocks and then one more.
pub proof fn lemma_messages_step(state: Seq<u8>, count: nat)
    ensures
        messages(state, count + 1) == messages(state, count).push(
            filled_block(state_after_blocks(state, count)).0,
        ),
        state_after_blocks(state, count + 1) == filled_block(state_after_blocks(state, count)).1,
        messages(state, count).len() == count,
    decreases count,
{
    if count == 0 {
        assert(messages(filled_block(state).1, 0) == Seq::<Seq<u128>>::empty());
        assert(messages(state, 1) =~= seq![filled_block(state).0]);
        assert(messages(state, 0).push(filled_block(state).0) =~= seq![filled_block(state).0]);
        assert(state_after_blocks(filled_block(state).1, 0) == filled_block(state).1);
    } else {
        let next = filled_block(state).1;
        lemma_messages_step(next, (count - 1) as nat);
        assert(messages(state, count + 1) =~= messages(state, count).push(
            filled_block(state_after_blocks(state, count)).0,
        ));
    }
}

/// What the harness does next in a run of round trips.
pub enum Action {
    /// Start a fresh actor, send it this message and await its reply.
    Send([u128; 64]),
    /// Every round trip is done: report the elapsed time.
    Report,
}

/// A run of round trips: how many were asked for, how many were started, and
/// the stream that the messages come from.
pub struct RoundTrips {
    rng: StdRng,
    asked: usize,
    started: usize,
    origin: Ghost<Seq<u8>>,
}

impl RoundTrips {
    /// The number of round trips asked for.
    pub closed spec fn asked(&self) -> nat {
        self.asked as nat
    }

    /// The number of round trips started so far.
    pub closed spec fn started(&self) -> nat {
        self.started as nat
    }

    /// The state in which the stream of this run began.
    pub closed spec fn origin(&self) -> Seq<u8> {
        self.origin@
    }

    /// No more round trips are started than were asked for, and the stream
    /// has filled one block for each.
    #[verifier::type_invariant]
    spec fn wf(self) -> bool {
        &&& self.started <= self.asked
        &&& stream_state(self.rng) == state_after_blocks(self.origin@, self.started as nat)
    }

    /// A run of `iteration` round trips on the stream that `seed` starts.
    pub fn begin(seed: u64, iteration: usize) -> (run: RoundTrips)
        ensures
            run.asked() == iteration,
            run.started() == 0,
            run.origin() == seeded_state(seed),
    {
        RoundTrips {
            rng: seed_stream(seed),
            asked: iteration,
            started: 0,
            origin: Ghost(seeded_state(seed)),
        }
    }

    /// The number of round trips started so far.
    pub fn count(&self) -> (started: usize)
        ensures
            started == self.started(),
    {
        self.started
    }

    /// Decides the next step, at the start of the run and again after each
    /// reply. While round trips are left, the next message is drawn and one
    /// more round trip counts as started; once as many were started as were
    /// asked for, the run is to be reported and nothing changes any more.
    pub fn advance(self) -> (next: (RoundTrips, Action))
        ensures
            next.0.asked() == self.asked(),
            next.0.origin() == self.origin(),
            self.started() == self.asked() ==> next.1 is Report && next.0.started()
                == self.started(),
            self.started() < self.asked() ==> next.0.started() == self.started() + 1 && (
            match next.1 {
                Action::Send(message) => message@ == messages(self.origin(), self.asked())[self.started() as int],
                Action::Report => false,
            }),
    {
        proof {
            use_type_invariant(&self);
        }
        if self.started == self.asked {
            return (self, Action::Report);
        }
        proof {
            lemma_messages_step(self.origin@, self.started as nat);
            lemma_messages_prefix(self.origin@, self.started as nat + 1, self.asked as nat);
            let short = messages(self.origin@, self.started as nat + 1);
            let long = messages(self.origin@, self.asked as nat);
            assert(short[self.started as int] == long.take(self.started + 1)[self.started as int]);
            assert(short[self.started as int] == filled_block(stream_state(self.rng)).0);
        }
        let mut rng = self.rng;
        let message = fill_block(&mut rng);
        let run = RoundTrips {
            rng,
            asked: self.asked,
            started: self.started + 1,
            origin: self.origin,
        };
        (run, Action::Send(message))
    }
}

/// The first blocks of a longer run are the blocks of the shorter run.
pub proof fn lemma_messages_prefix(state: Seq<u8>, short: nat, long: nat)
    requires
        short <= long,
    ensures
        messages(state, long).len() == long,
        messages(state, short) == messages(state, long).take(short as int),
    decreases long - short,
{
    lemma_messages_step(state, long);
    if short < long {
        lemma_messages_prefix(state, short + 1, long);
        lemma_messages_step(state, short);
        assert(messages(state, short) =~= messages(state, short + 1).take(short as int));
        assert(messages(state, short) =~= messages(state, long).take(short as int));
    } else {
        assert(messages(state, short) =~= messages(state, long).take(short as int));
    }
}

} // verus!
