use hits_and_blows::game::Game;
use hits_and_blows::input::digit_of_key;
use hits_and_blows::round::{
    dashed_digits, remaining_time, Round, TickOutcome, COUNTDOWN_SECONDS,
};

fn round_with(digits: &[u8]) -> Round {
    Round::new(Game::with_secret(digits.to_vec()).unwrap())
}

#[test]
fn quick_correct_entry_wins_without_attempts() {
    let mut round = round_with(&[1, 2, 3]);
    assert_eq!(round.tick(0, Some(1)), TickOutcome::Pending);
    assert_eq!(round.tick(1, Some(2)), TickOutcome::Pending);
    assert_eq!(round.tick(2, Some(3)), TickOutcome::Won { attempts: 0 });
    assert!(round.stopped);
}

#[test]
fn wrong_guess_scores_and_resets() {
    let mut round = round_with(&[1, 2, 3]);
    assert_eq!(round.tick(0, Some(4)), TickOutcome::Pending);
    assert_eq!(round.tick(0, Some(5)), TickOutcome::Pending);
    assert_eq!(round.tick(1, Some(6)), TickOutcome::Scored { hits: 0, blows: 0 });
    assert_eq!(round.attempts, 1);
    assert!(round.buffer.is_empty());
    assert!(!round.stopped);
}

#[test]
fn reversed_guess_reports_hit_and_blows() {
    let mut round = round_with(&[1, 2, 3]);
    round.tick(0, Some(3));
    round.tick(0, Some(2));
    assert_eq!(round.tick(1, Some(1)), TickOutcome::Scored { hits: 1, blows: 2 });
    assert!(round.buffer.is_empty());
}

#[test]
fn timeout_loses_and_raises_stop() {
    let mut round = round_with(&[1, 2, 3]);
    assert_eq!(round.tick(2, Some(1)), TickOutcome::Pending);
    assert_eq!(round.tick(5, Some(2)), TickOutcome::Pending);
    assert_eq!(round.tick(10, None), TickOutcome::Lost);
    assert!(round.stopped);
    assert_eq!(round.buffer, vec![1, 2]);
    assert_eq!(round.attempts, 0);
}

#[test]
fn non_digit_keys_are_discarded() {
    assert_eq!(digit_of_key('a'), None);
    assert_eq!(digit_of_key('\n'), None);
    assert_eq!(digit_of_key(' '), None);
    assert_eq!(digit_of_key('/'), None);
    assert_eq!(digit_of_key(':'), None);
    for d in 0u8..=9 {
        assert_eq!(digit_of_key((b'0' + d) as char), Some(d));
    }

    let mut round = round_with(&[1, 2, 3]);
    for c in ['a', '\n', '\t'] {
        assert_eq!(digit_of_key(c), None);
        assert_eq!(round.tick(1, digit_of_key(c)), TickOutcome::Pending);
    }
    assert_eq!(round.tick(2, digit_of_key('1')), TickOutcome::Pending);
    assert_eq!(round.tick(2, digit_of_key('2')), TickOutcome::Pending);
    assert_eq!(round.tick(3, digit_of_key('3')), TickOutcome::Won { attempts: 0 });
}

#[test]
fn win_after_misses_reports_attempt_count() {
    let mut round = round_with(&[1, 2, 3]);
    round.tick(0, Some(4));
    round.tick(0, Some(5));
    assert_eq!(round.tick(1, Some(6)), TickOutcome::Scored { hits: 0, blows: 0 });
    round.tick(0, Some(3));
    round.tick(0, Some(2));
    assert_eq!(round.tick(1, Some(1)), TickOutcome::Scored { hits: 1, blows: 2 });
    round.tick(0, Some(1));
    round.tick(0, Some(2));
    assert_eq!(round.tick(1, Some(3)), TickOutcome::Won { attempts: 2 });
    assert!(round.stopped);
}

#[test]
fn countdown_counts_whole_seconds() {
    assert_eq!(COUNTDOWN_SECONDS, 10);
    assert_eq!(remaining_time(0), 10);
    assert_eq!(remaining_time(3), 7);
    assert_eq!(remaining_time(9), 1);
    assert_eq!(remaining_time(10), 0);
    assert_eq!(remaining_time(u64::MAX), 0);
}

#[test]
fn status_line_shows_dashed_digits() {
    assert_eq!(dashed_digits(&vec![]), Vec::<u8>::new());
    assert_eq!(dashed_digits(&vec![7]), b"7".to_vec());
    assert_eq!(dashed_digits(&vec![1, 2, 3]), b"1-2-3".to_vec());
    assert_eq!(dashed_digits(&vec![5, 0, 7, 2]), b"5-0-7-2".to_vec());

    let mut round = round_with(&[1, 2, 3]);
    round.tick(0, Some(9));
    round.tick(0, Some(0));
    assert_eq!(dashed_digits(&round.buffer), b"9-0".to_vec());
    assert_eq!(round.digits_needed(), 1);
}

#[test]
fn completing_a_guess_resets_the_entry() {
    let mut round = round_with(&[1, 2, 3]);
    round.tick(9, Some(9));
    round.tick(9, Some(8));
    assert_eq!(round.tick(9, Some(7)), TickOutcome::Scored { hits: 0, blows: 0 });
    assert!(round.buffer.is_empty());
    assert_eq!(round.tick(0, None), TickOutcome::Pending);
    assert!(!round.stopped);
}
