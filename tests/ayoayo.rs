use mancala::ayoayo::Ayoayo;
use mancala::board::{Cup, MancalaBoard};
use mancala::{GameState, MancalaError, Player};

fn three_cup_game() -> Ayoayo {
    Ayoayo {
        board: MancalaBoard::new(
            vec![
                Cup {
                    seeds: 1,
                    owner: Player::Player1,
                    pos: 0,
                },
                Cup {
                    seeds: 0,
                    owner: Player::Player1,
                    pos: 1,
                },
                Cup {
                    seeds: 1,
                    owner: Player::Player1,
                    pos: 2,
                },
                Cup {
                    seeds: 0,
                    owner: Player::Player2,
                    pos: 0,
                },
                Cup {
                    seeds: 0,
                    owner: Player::Player2,
                    pos: 1,
                },
                Cup {
                    seeds: 0,
                    owner: Player::Player2,
                    pos: 2,
                },
            ],
            &[Player::Player1, Player::Player2],
        ),
        state: GameState::InProgress(Player::Player1),
    }
}

#[test]
fn play() -> Result<(), MancalaError> {
    let mut board = Ayoayo::new();
    board.play(3)?;
    assert_eq!("0 - ①|⑥|⑥|②|⑦|①\n⑥|①|⑥|⑥|⑥|⓪ - 0", board.render());
    assert_eq!(board.state, GameState::InProgress(Player::Player2));
    println!("-- play2 --");
    board.play(0)?;
    assert_eq!("0 - ②|⑨|②|⑤|⑩|①\n②|④|⓪|①|⑨|③ - 0", board.render());
    println!("-- play3 --");
    board.play(0)?;
    assert_eq!("3 - ①|⑩|⓪|⑥|⑰|⓪\n⓪|⓪|①|②|⑩|④ - 0", board.render());
    println!("-- play4 --");
    board.play(4)?;
    assert_eq!("3 - ②|⑰|①|⑦|⓪|①\n①|①|⓪|③|①|⑤ - 12", board.render());
    println!("-- play5 --");
    board.play(2)?;
    assert_eq!("3 - ⑥|①|⓪|①|⑤|③\n①|⑤|②|⑦|②|⓪ - 12", board.render());
    println!("-- play6 --");
    board.play(1)?;
    assert_eq!("3 - ⓪|⓪|①|②|⑥|④\n②|①|③|⑧|③|① - 14", board.render());
    println!("-- play7 --");
    board.play(3)?;
    assert_eq!("8 - ⓪|②|①|①|⓪|①\n④|③|⓪|⑩|①|③ - 14", board.render());
    println!("-- play8 --");
    board.play(3)?;
    assert_eq!("8 - ①|⑤|④|⓪|①|④\n①|⓪|③|⓪|⑤|② - 14", board.render());
    println!("-- play9 --");
    board.play(1)?;
    assert_eq!("8 - ⓪|①|⓪|②|③|⑥\n①|②|①|①|⑥|③ - 14", board.render());
    println!("-- play10 --");
    board.play(1)?;
    assert_eq!("8 - ①|②|①|⓪|④|⓪\n⓪|①|⓪|①|⑧|① - 21", board.render());
    println!("-- play11 --");
    board.play(0)?;
    assert_eq!("10 - ①|①|②|①|⓪|①\n①|⓪|①|⓪|⑨|⓪ - 21", board.render());
    println!("-- play12 --");
    board.play(4)?;
    assert_eq!("10 - ②|⓪|③|②|①|②\n②|①|①|⓪|⓪|① - 23", board.render());
    println!("-- play13 --");
    board.play(2)?;
    assert_eq!("10 - ②|⓪|⓪|③|②|⓪\n③|②|⓪|①|①|① - 23", board.render());
    println!("-- play14 --");
    board.play(3)?;
    assert_eq!("10 - ⓪|①|①|⓪|⓪|①\n④|⓪|①|①|①|② - 26", board.render());
    println!("-- play15 --");
    board.play(5)?;
    assert_eq!("12 - ①|②|⓪|①|①|⓪\n⓪|①|②|②|⓪|⓪ - 26", board.render());
    println!("-- play16 --");
    board.play(2)?;
    assert_eq!("12 - ①|②|⓪|①|⓪|⓪\n⓪|①|⓪|③|①|⓪ - 27", board.render());
    println!("-- play17 --");
    board.play(3)?;
    assert_eq!("13 - ①|②|⓪|⓪|①|⓪\n⓪|①|⓪|③|⓪|⓪ - 27", board.render());
    println!("-- play18 --");
    board.play(3)?;
    assert_eq!("13 - ⓪|③|①|⓪|①|⓪\n⓪|①|⓪|⓪|①|① - 27", board.render());
    println!("-- play19 --");
    board.play(4)?;
    assert_eq!("14 - ⓪|③|①|⓪|⓪|①\n⓪|①|⓪|⓪|①|⓪ - 27", board.render());
    println!("-- play20 --");
    board.play(1)?;
    assert_eq!("14 - ⓪|③|⓪|⓪|⓪|①\n⓪|⓪|①|⓪|①|⓪ - 28", board.render());
    println!("-- play21 --");
    board.play(5)?;
    assert_eq!("14 - ⓪|③|⓪|⓪|⓪|⓪\n①|⓪|①|⓪|①|⓪ - 28", board.render());
    println!("-- play22 --");
    board.play(0)?;
    assert_eq!("14 - ⓪|⓪|⓪|⓪|⓪|⓪\n⓪|⓪|⓪|⓪|⓪|⓪ - 34", board.render());
    assert_eq!(board.state, GameState::Won(Player::Player2));
    Ok(())
}

#[test]
fn must_feed_test() {
    let mut game = three_cup_game();
    assert_eq!(Err(MancalaError::MustFeedError), game.play(0));
}

#[test]
fn no_seeds_test() {
    let mut game = three_cup_game();
    assert_eq!(Err(MancalaError::NoSeedsToSow), game.play(1));
}
