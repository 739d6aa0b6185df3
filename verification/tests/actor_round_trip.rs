use rand::rngs::StdRng;
use rand::{Rng, SeedableRng};
use rust_bencher::actor::{handle, Action, RoundTrips};
use rust_bencher::stream::BASE_SEED;

#[test]
fn handle_sums_the_message() {
    assert_eq!(handle(&[0u128; 64]), 0);
    assert_eq!(handle(&[1u128; 64]), 64);
    let mut message = [0u128; 64];
    for (i, value) in message.iter_mut().enumerate() {
        *value = i as u128;
    }
    assert_eq!(handle(&message), 2016);
}

#[test]
fn handle_wraps_the_sum() {
    let mut message = [0u128; 64];
    message[0] = u128::MAX;
    message[63] = 5;
    assert_eq!(handle(&message), 4);
    assert_eq!(handle(&[u128::MAX; 64]), u128::MAX - 63);
}

#[test]
fn no_round_trip_is_reported_at_once() {
    let run = RoundTrips::begin(BASE_SEED, 0);
    assert_eq!(run.count(), 0);
    let (run, action) = run.advance();
    assert!(matches!(action, Action::Report));
    assert_eq!(run.count(), 0);
}

#[test]
fn as_many_round_trips_start_as_were_asked_for() {
    let mut run = RoundTrips::begin(BASE_SEED, 5);
    let mut sent = 0;
    loop {
        let (next, action) = run.advance();
        run = next;
        match action {
            Action::Send(_) => sent += 1,
            Action::Report => break,
        }
        assert_eq!(run.count(), sent);
    }
    assert_eq!(sent, 5);
    assert_eq!(run.count(), 5);
}

#[test]
fn a_finished_run_stays_finished() {
    let run = RoundTrips::begin(BASE_SEED, 1);
    let (run, first) = run.advance();
    assert!(matches!(first, Action::Send(_)));
    let (run, second) = run.advance();
    assert!(matches!(second, Action::Report));
    let (run, third) = run.advance();
    assert!(matches!(third, Action::Report));
    assert_eq!(run.count(), 1);
}

#[test]
fn the_messages_are_the_blocks_of_the_stream() {
    let mut rng = StdRng::seed_from_u64(BASE_SEED);
    let mut run = RoundTrips::begin(BASE_SEED, 3);
    for _ in 0..3 {
        let mut expected = [0u128; 64];
        rng.fill(&mut expected);
        let (next, action) = run.advance();
        run = next;
        match action {
            Action::Send(message) => assert_eq!(message, expected),
            Action::Report => panic!("reported before the last round trip"),
        }
    }
    assert_ne!(
        {
            let mut first = [0u128; 64];
            StdRng::seed_from_u64(BASE_SEED).fill(&mut first);
            first
        },
        [0u128; 64]
    );
}

#[test]
fn the_messages_repeat_for_one_seed() {
    let (_, first) = RoundTrips::begin(9, 1).advance();
    let (_, second) = RoundTrips::begin(9, 1).advance();
    match (first, second) {
        (Action::Send(a), Action::Send(b)) => assert_eq!(a, b),
        _ => panic!("a round trip was asked for"),
    }
}
