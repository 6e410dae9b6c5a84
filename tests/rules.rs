use mancala::ayoayo::{Ayoayo, BOARD_SIZE, STARTING_COUNT};
use mancala::board::{Bank, Cup, CupPos, InHand, MancalaBoard, Move, SowFilter};
use mancala::{GameState, MancalaError, Player};

fn board_of(side_one: &[usize], side_two: &[usize]) -> MancalaBoard {
    let mut cups = Vec::new();
    for (i, seeds) in side_one.iter().enumerate() {
        cups.push(Cup { owner: Player::Player1, seeds: *seeds, pos: i });
    }
    for (i, seeds) in side_two.iter().enumerate() {
        cups.push(Cup { owner: Player::Player2, seeds: *seeds, pos: i });
    }
    MancalaBoard::new(cups, &[Player::Player1, Player::Player2])
}

fn game_of(side_one: &[usize], side_two: &[usize], to_move: Player) -> Ayoayo {
    Ayoayo { board: board_of(side_one, side_two), state: GameState::InProgress(to_move) }
}

fn seeds_in_play(game: &Ayoayo) -> usize {
    let on_board: usize = game.board.cups.iter().map(|c| c.seeds).sum();
    on_board + game.board.bank.get(Player::Player1) + game.board.bank.get(Player::Player2)
}

fn cup_counts(board: &MancalaBoard) -> Vec<usize> {
    board.cups.iter().map(|c| c.seeds).collect()
}

const OPENING: [usize; 22] = [3, 0, 0, 4, 2, 1, 3, 3, 1, 1, 0, 4, 2, 3, 5, 2, 3, 3, 4, 1, 5, 0];

#[test]
fn conservation_through_a_whole_game() {
    let mut game = Ayoayo::new();
    assert_eq!(seeds_in_play(&game), BOARD_SIZE * STARTING_COUNT);
    for cup in OPENING.iter() {
        game.play(*cup).unwrap();
        assert_eq!(seeds_in_play(&game), 48);
        assert_eq!(game.board.in_hand.get(Player::Player1), 0);
        assert_eq!(game.board.in_hand.get(Player::Player2), 0);
    }
    assert_eq!(game.state, GameState::Won(Player::Player2));
    assert_eq!(game.board.bank.get(Player::Player1), 14);
    assert_eq!(game.board.bank.get(Player::Player2), 34);
}

#[test]
fn turn_alternates_on_each_move() {
    let mut game = Ayoayo::new();
    for cup in OPENING[..21].iter() {
        let before = game.state;
        game.play(*cup).unwrap();
        match (before, game.state) {
            (GameState::InProgress(p), GameState::InProgress(q)) => assert_ne!(p, q),
            other => panic!("unexpected states {:?}", other),
        }
    }
}

#[test]
fn opening_scenario() {
    let mut game = Ayoayo::new();
    assert_eq!(game.play(3), Ok(()));
    assert_eq!(game.render(), "0 - ①|⑥|⑥|②|⑦|①\n⑥|①|⑥|⑥|⑥|⓪ - 0");
    assert_eq!(game.state, GameState::InProgress(Player::Player2));
}

#[test]
fn rejected_move_leaves_game_unchanged() {
    let mut game = game_of(&[1, 0, 1], &[0, 0, 0], Player::Player1);
    let before = game.clone();
    assert_eq!(game.play(0), Err(MancalaError::MustFeedError));
    assert_eq!(game, before);
    assert_eq!(game.play(1), Err(MancalaError::NoSeedsToSow));
    assert_eq!(game, before);
    assert_eq!(game.play(3), Err(MancalaError::NoSuchCup));
    assert_eq!(game, before);
}

#[test]
fn feeding_move_is_accepted() {
    let mut game = game_of(&[1, 0, 1], &[0, 0, 0], Player::Player1);
    assert_eq!(game.play(2), Ok(()));
    assert_eq!(game.render(), "0 - ①|⓪|⓪\n①|⓪|⓪ - 0");
    assert_eq!(game.state, GameState::InProgress(Player::Player2));
}

#[test]
fn starving_move_allowed_when_nothing_feeds() {
    let mut game = game_of(&[1, 0, 0], &[0, 0, 0], Player::Player1);
    assert_eq!(game.play(0), Ok(()));
    assert_eq!(game.render(), "1 - ⓪|⓪|⓪\n⓪|⓪|⓪ - 0");
    assert_eq!(game.state, GameState::Won(Player::Player1));
}

#[test]
fn out_of_range_cup_is_refused() {
    let mut game = Ayoayo::new();
    assert_eq!(game.play(BOARD_SIZE / 2), Err(MancalaError::NoSuchCup));
    assert_eq!(game.play(usize::MAX), Err(MancalaError::NoSuchCup));
    let mut small = game_of(&[1, 1, 1], &[1, 1, 1], Player::Player2);
    assert_eq!(small.play(6), Err(MancalaError::NoSuchCup));
    assert_eq!(small.play(4), Err(MancalaError::NoSuchCup));
}

#[test]
fn finished_game_is_inert() {
    let mut game = game_of(&[1, 0, 0], &[0, 0, 0], Player::Player1);
    game.play(0).unwrap();
    let before = game.clone();
    assert_eq!(game.play(0), Ok(()));
    assert_eq!(game.play(9), Ok(()));
    assert_eq!(game, before);

    let mut drawn = game_of(&[2, 2], &[2, 2], Player::Player1);
    drawn.state = GameState::Draw;
    let before = drawn.clone();
    assert_eq!(drawn.play(1), Ok(()));
    assert_eq!(drawn, before);
}

#[test]
fn equal_banks_end_in_a_draw() {
    let mut game = game_of(&[1, 0], &[0, 0], Player::Player1);
    game.board.bank.player2 = 1;
    assert_eq!(game.play(0), Ok(()));
    assert_eq!(game.state, GameState::Draw);
    assert_eq!(game.render(), "1 - ⓪|⓪\n⓪|⓪ - 1");
}

#[test]
fn larger_bank_of_the_opponent_wins() {
    let mut game = game_of(&[1, 0], &[0, 0], Player::Player1);
    game.board.bank.player2 = 5;
    assert_eq!(game.play(0), Ok(()));
    assert_eq!(game.state, GameState::Won(Player::Player2));
}

#[test]
fn relay_continues_from_a_full_cup() {
    // Two seeds from cup 0 land in 1 (now 1) and 2 (now 2): the relay lifts
    // cup 2 and sows on into the opponent's first two cups.
    let mut game = game_of(&[2, 0, 1], &[0, 0, 0], Player::Player1);
    assert_eq!(game.play(0), Ok(()));
    assert_eq!(cup_counts(&game.board), vec![0, 1, 0, 1, 1, 0]);
    assert_eq!(game.state, GameState::InProgress(Player::Player2));
}

#[test]
fn resting_on_own_cup_captures_the_mirror() {
    let mut game = game_of(&[1, 0, 0], &[0, 3, 1], Player::Player1);
    assert_eq!(game.play(0), Ok(()));
    assert_eq!(game.render(), "3 - ⓪|①|⓪\n⓪|⓪|① - 0");
    assert_eq!(game.state, GameState::InProgress(Player::Player2));
}

#[test]
fn resting_on_opponent_cup_captures_nothing() {
    let mut game = game_of(&[0, 0, 1], &[0, 3, 1], Player::Player1);
    assert_eq!(game.play(2), Ok(()));
    assert_eq!(game.render(), "0 - ⓪|⓪|⓪\n①|③|① - 0");
}

#[test]
fn large_counts_are_drawn_in_digits() {
    let board = board_of(&[21, 11], &[20, 0]);
    assert_eq!(board.render(), "0 - 21|⑰\n⑹|⓪ - 0");
}

#[test]
fn sow_without_seeds_in_hand() {
    let mut board = board_of(&[2, 2], &[2, 2]);
    let pos = CupPos { owner: Player::Player1, pos: 0 };
    assert_eq!(board.sow(Player::Player1, pos, SowFilter::SkipStart), Err(MancalaError::NoSeedsToSow));
    assert_eq!(cup_counts(&board), vec![2, 2, 2, 2]);
}

#[test]
fn sow_from_missing_cup() {
    let mut board = board_of(&[2, 2], &[2, 2]);
    board.in_hand.take(Player::Player1, 3);
    let pos = CupPos { owner: Player::Player1, pos: 2 };
    assert_eq!(board.sow(Player::Player1, pos, SowFilter::SkipStart), Err(MancalaError::NoSuchCup));
    assert_eq!(board.in_hand.get(Player::Player1), 3);
}

#[test]
fn sow_wraps_around_and_skips_start() {
    let mut board = board_of(&[0, 0], &[0, 0]);
    board.in_hand.take(Player::Player2, 5);
    let start = CupPos { owner: Player::Player2, pos: 0 };
    let last = board.sow(Player::Player2, start, SowFilter::SkipStart).unwrap();
    assert_eq!(cup_counts(&board), vec![2, 1, 0, 2]);
    assert_eq!(last, Cup { owner: Player::Player1, seeds: 2, pos: 0 });
    assert_eq!(board.in_hand.get(Player::Player2), 0);
}

#[test]
fn pickup_replaces_hand_and_logs() {
    let mut board = board_of(&[3, 0], &[0, 4]);
    board.new_move();
    board.in_hand.take(Player::Player1, 7);
    assert_eq!(board.pickup(CupPos { owner: Player::Player2, pos: 1 }, Player::Player1), Some(()));
    assert_eq!(board.in_hand.get(Player::Player1), 4);
    assert_eq!(board.pickup(CupPos { owner: Player::Player1, pos: 1 }, Player::Player1), Some(()));
    assert_eq!(board.in_hand.get(Player::Player1), 0);
    assert_eq!(board.pickup(CupPos { owner: Player::Player1, pos: 2 }, Player::Player1), None);
    board.bank(Player::Player1);
    assert_eq!(
        board.moves,
        vec![vec![Move::Pickup(CupPos { owner: Player::Player2, pos: 1 })]]
    );
}

#[test]
fn bank_moves_hand_to_bank() {
    let mut board = board_of(&[3, 0], &[0, 4]);
    board.new_move();
    board.pickup(CupPos { owner: Player::Player1, pos: 0 }, Player::Player2);
    board.bank(Player::Player2);
    assert_eq!(board.bank.get(Player::Player2), 3);
    assert_eq!(board.bank.get(Player::Player1), 0);
    assert_eq!(board.in_hand.get(Player::Player2), 0);
    assert_eq!(board.moves[0].last(), Some(&Move::Bank(Player::Player2, 3)));
}

#[test]
fn cup_lookup_and_starving() {
    let board = board_of(&[0, 0], &[0, 5]);
    assert_eq!(
        board.get_cup(CupPos { owner: Player::Player2, pos: 1 }),
        Some(Cup { owner: Player::Player2, seeds: 5, pos: 1 })
    );
    assert_eq!(board.get_cup(CupPos { owner: Player::Player1, pos: 2 }), None);
    assert!(board.starving(Player::Player1));
    assert!(!board.starving(Player::Player2));
}

#[test]
fn stores_count_per_player() {
    let mut bank = Bank::new();
    assert_eq!(bank.deposit(Player::Player1, 4), 4);
    assert_eq!(bank.deposit(Player::Player1, 3), 7);
    assert_eq!(bank.get(Player::Player2), 0);
    let mut hand = InHand::new();
    assert_eq!(hand.take(Player::Player2, 2), 2);
    assert_eq!(hand.take(Player::Player2, 2), 4);
    assert_eq!(hand.drop(Player::Player2), 4);
    assert_eq!(hand.get(Player::Player2), 0);
    assert_eq!(Player::Player1.next_player(), Player::Player2);
    assert_eq!(Player::Player2.next_player(), Player::Player1);
}

#[test]
fn default_is_a_fresh_game() {
    let game = Ayoayo::default();
    assert_eq!(game.render(), "0 - ④|④|④|④|④|④\n④|④|④|④|④|④ - 0");
    assert_eq!(game.state, GameState::InProgress(Player::Player1));
}
