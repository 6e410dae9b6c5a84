use mancala::board::{Cup, CupPos, MancalaBoard, SowFilter};
use mancala::Player;

fn build_board(size: usize, count: usize) -> MancalaBoard {
    let mut board = Vec::new();
    for owner in [Player::Player1, Player::Player2].iter() {
        for i in 0..(size / 2) {
            board.push(Cup {
                owner: *owner,
                seeds: count,
                pos: i,
            })
        }
    }
    let mut board = MancalaBoard::new(board, &[Player::Player1, Player::Player2]);
    board.new_move();
    board
}

#[test]
fn print_board() {
    println!("{}", build_board(2, 2).render());

    assert_eq!(build_board(2, 2).render(), "0 - ②\n② - 0");
}

#[test]
fn remove() {
    let mut board = build_board(12, 4);
    board.pickup(
        CupPos {
            owner: Player::Player2,
            pos: 3,
        },
        Player::Player1,
    );
    assert_eq!("0 - ④|④|④|④|④|④\n④|④|④|⓪|④|④ - 0", board.render());
    assert_eq!(4, board.in_hand.get(Player::Player1));
}

#[test]
fn collect() {
    let mut board = build_board(12, 4);
    board.pickup(
        CupPos {
            owner: Player::Player1,
            pos: 2,
        },
        Player::Player2,
    );
    board.bank(Player::Player2);
    assert_eq!("0 - ④|④|⓪|④|④|④\n④|④|④|④|④|④ - 4", board.render());
}

#[test]
fn sow_1() {
    let mut board = build_board(4, 2);
    board.pickup(
        CupPos {
            pos: 0,
            owner: Player::Player1,
        },
        Player::Player1,
    );
    let cup = board.sow(
        Player::Player1,
        CupPos {
            pos: 0,
            owner: Player::Player1,
        },
        SowFilter::OpponentOnly,
    );
    assert_eq!(0, board.in_hand.get(Player::Player1));
    assert_eq!("0 - ⓪|②\n③|③ - 0", board.render());
    assert_eq!(
        "Cup { owner: Player2, seeds: 3, pos: 1 }",
        format!("{:?}", cup.unwrap())
    );
    assert_eq!("[[Pickup(CupPos { owner: Player1, pos: 0 }), Place(CupPos { owner: Player2, pos: 0 }), Place(CupPos { owner: Player2, pos: 1 })]]", format!("{:?}", board.moves))
}

#[test]
fn sow_2() {
    let mut board = MancalaBoard::new(
        vec![
            Cup {
                seeds: 1,
                owner: Player::Player1,
                pos: 0,
            },
            Cup {
                seeds: 0,
                owner: Player::Player1,
                pos: 1,
            },
            Cup {
                seeds: 1,
                owner: Player::Player1,
                pos: 2,
            },
            Cup {
                seeds: 0,
                owner: Player::Player2,
                pos: 0,
            },
            Cup {
                seeds: 0,
                owner: Player::Player2,
                pos: 1,
            },
            Cup {
                seeds: 0,
                owner: Player::Player2,
                pos: 2,
            },
        ],
        &[Player::Player1, Player::Player2],
    );
    board.pickup(
        CupPos {
            pos: 0,
            owner: Player::Player1,
        },
        Player::Player1,
    );
    let cup = board.sow(
        Player::Player1,
        CupPos {
            pos: 0,
            owner: Player::Player1,
        },
        SowFilter::SkipStart,
    );
    assert_eq!(0, board.in_hand.get(Player::Player1));
    assert_eq!("0 - ⓪|①|①\n⓪|⓪|⓪ - 0", board.render());
    assert_eq!(
        "Cup { owner: Player1, seeds: 1, pos: 1 }",
        format!("{:?}", cup.unwrap())
    )
}
