use hits_and_blows::game::{Game, GameError};

fn game_with(digits: &[u8]) -> Game {
    Game::with_secret(digits.to_vec()).unwrap()
}

#[test]
fn exact_guess_scores_all_hits() {
    let game = game_with(&[1, 2, 3]);
    let (hits, blows) = game.check_guess(&vec![1, 2, 3]);
    assert_eq!(hits, 3);
    assert_eq!(blows, 0);
}

#[test]
fn disjoint_guess_scores_nothing() {
    let game = game_with(&[1, 2, 3]);
    let (hits, blows) = game.check_guess(&vec![4, 5, 6]);
    assert_eq!(hits, 0);
    assert_eq!(blows, 0);
}

#[test]
fn reversed_guess_scores_one_hit_two_blows() {
    let game = game_with(&[1, 2, 3]);
    let (hits, blows) = game.check_guess(&vec![3, 2, 1]);
    assert_eq!(hits, 1);
    assert_eq!(blows, 2);
}

#[test]
fn swapped_pairs_score_two_hits_two_blows() {
    let game = game_with(&[5, 0, 7, 2]);
    let (hits, blows) = game.check_guess(&vec![5, 2, 7, 0]);
    assert_eq!(hits, 2);
    assert_eq!(blows, 2);
}

#[test]
fn hits_and_blows_never_exceed_level() {
    let game = game_with(&[1, 2, 3]);
    for guess in [
        vec![1u8, 2, 3],
        vec![3, 2, 1],
        vec![1, 1, 1],
        vec![9, 9, 9],
        vec![2, 3, 1],
        vec![0, 4, 7],
    ] {
        let (hits, blows) = game.check_guess(&guess);
        assert!(hits + blows <= 3);
        assert_eq!(hits == 3, guess == vec![1, 2, 3]);
    }
}

#[test]
fn reversed_secret_accounts_for_every_position() {
    for secret in [vec![1u8, 2, 3], vec![5, 0, 7, 2], vec![9, 4, 1, 0, 6]] {
        let game = game_with(&secret);
        let reversed: Vec<u8> = secret.iter().rev().copied().collect();
        assert_ne!(reversed, secret);
        let (hits, blows) = game.check_guess(&reversed);
        assert_eq!(hits + blows, secret.len());
    }
}

#[test]
fn generated_secret_is_well_formed() {
    for level in 3usize..=9 {
        let game = Game::new(level).unwrap();
        assert_eq!(game.level, level);
        assert_eq!(game.secret.len(), level);
        for &d in &game.secret {
            assert!(d <= 9);
        }
        for i in 0..game.secret.len() {
            for j in 0..i {
                assert_ne!(game.secret[i], game.secret[j]);
            }
        }
    }
}

#[test]
fn invalid_level_is_rejected() {
    assert_eq!(Game::new(0).unwrap_err(), GameError::InvalidLevel);
    assert_eq!(Game::new(2).unwrap_err(), GameError::InvalidLevel);
    assert_eq!(Game::new(10).unwrap_err(), GameError::InvalidLevel);
}

#[test]
fn supplied_secret_is_validated() {
    assert!(Game::with_secret(vec![1, 2, 3]).is_ok());
    assert!(Game::with_secret(vec![0, 9, 4, 7, 2, 5, 1, 3, 8]).is_ok());
    assert_eq!(Game::with_secret(vec![1, 2]).unwrap_err(), GameError::InvalidLevel);
    assert_eq!(Game::with_secret(vec![1, 2, 2]).unwrap_err(), GameError::InvalidLevel);
    assert_eq!(Game::with_secret(vec![1, 2, 13]).unwrap_err(), GameError::InvalidLevel);
    assert_eq!(
        Game::with_secret(vec![0, 1, 2, 3, 4, 5, 6, 7, 8, 9]).unwrap_err(),
        GameError::InvalidLevel
    );
}
