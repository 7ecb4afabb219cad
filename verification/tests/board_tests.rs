use tictactoe::board::Bitboard;
use tictactoe::board::Board;
use tictactoe::board::GameError;
use tictactoe::board::Move;
use tictactoe::board::Outcome;
use tictactoe::board::Player;

#[test]
fn test_board_instantiates() {
    let board = Board::from_position(
        "___
            ___
            _O_",
    )
    .unwrap();
    assert_eq!(
        board,
        Board::new(Bitboard::empty(), Bitboard::from_binary("000000010").unwrap())
    );
}

#[test]
fn test_board_determines_winner() {
    assert_eq!(
        Board::from_position(
            "XOX
            OXO
            XOX",
        )
        .unwrap()
        .get_outcome(),
        Outcome::Victory(Player::X)
    );

    assert_eq!(
        Board::from_position(
            "XOX
            OOO
            _XX",
        )
        .unwrap()
        .get_outcome(),
        Outcome::Victory(Player::O)
    );

    assert_eq!(
        Board::from_position(
            "XOX
            XXO
            OXO",
        )
        .unwrap()
        .get_outcome(),
        Outcome::Draw
    );

    assert_eq!(
        Board::from_position(
            "XOX
            ___
            ___",
        )
        .unwrap()
        .get_outcome(),
        Outcome::InProgress
    );

    assert_eq!(
        Board::from_position(
            "XXX
            ___
            OOO",
        )
        .unwrap()
        .get_outcome(),
        Outcome::Ambiguous
    );
}

#[test]
fn test_bitboard_instantiates() {
    let mut bitboard = Bitboard::empty();
    assert_eq!(bitboard, Bitboard(0));
    bitboard.set(1, 2);
    bitboard.set(2, 2);
    assert_eq!(bitboard, Bitboard::from_binary("000001001").unwrap());

    let mut bitboard_2 = Bitboard::empty();
    bitboard_2.set(2, 1);
    assert_eq!(bitboard_2, Bitboard(2));

    let other_bitboard = Bitboard::from_binary("110000001").unwrap();
    let combined_bitboard = bitboard.union(&other_bitboard);
    assert_eq!(combined_bitboard, Bitboard::from_binary("110001001").unwrap());

    let intersected_bitboard = bitboard.intersection(&other_bitboard);
    assert_eq!(intersected_bitboard, Bitboard::from_binary("000000001").unwrap());
}

#[test]
fn test_board_moves() {
    let mut board = Board::from_position(
        "___
        ___
        ___",
    )
    .unwrap();
    assert_eq!(board.make_move(Player::X, Move::new(2, 1)), Ok(()));
    assert_eq!(
        board,
        Board::from_position(
            "___
            ___
            _X_",
        )
        .unwrap()
    );
}

#[test]
fn test_board_pretty_prints() {
    let board = Board::from_position(
        "___
        ___
        ___",
    )
    .unwrap();
    assert_eq!(board.to_string(), "___\n___\n___".to_string());

    let board = Board::from_position(
        "XOX
        OXO
        XOX",
    )
    .unwrap();
    assert_eq!(board.to_string(), "XOX\nOXO\nXOX".to_string());
}

#[test]
fn test_board_gets_active_player() {
    let board = Board::from_position(
        "___
        ___
        ___",
    )
    .unwrap();
    assert_eq!(board.get_active_player(), Some(Player::X));

    let board = Board::from_position(
        "___
        ___
        _X_",
    )
    .unwrap();
    assert_eq!(board.get_active_player(), Some(Player::O));

    let board = Board::from_position(
        "XOX
        O_O
        XOX",
    )
    .unwrap();
    assert_eq!(board.get_active_player(), Some(Player::X));

    let board = Board::from_position(
        "X_X
        OOO
        X__",
    )
    .unwrap();
    assert_eq!(board.get_active_player(), None);

    let board = Board::from_position(
        "XOX
        OXO
        XOX",
    )
    .unwrap();
    assert_eq!(board.get_active_player(), None);
}

#[test]
fn test_board_gets_legal_moves() {
    let board = Board::from_position(
        "___
        ___
        ___",
    )
    .unwrap();
    assert_eq!(
        board.get_legal_moves(),
        vec![
            Move::new(0, 0),
            Move::new(0, 1),
            Move::new(0, 2),
            Move::new(1, 0),
            Move::new(1, 1),
            Move::new(1, 2),
            Move::new(2, 0),
            Move::new(2, 1),
            Move::new(2, 2)
        ]
    );

    let board = Board::from_position(
        "XOX
        OXO
        XOX",
    )
    .unwrap();
    assert_eq!(board.get_legal_moves(), vec![]);

    let board = Board::from_position(
        "XOX
        OXO
        O_X",
    )
    .unwrap();
    assert_eq!(board.get_legal_moves(), vec![Move::new(2, 1)]);

    let board = Board::from_position(
        "XOX
        _X_
        __O",
    )
    .unwrap();
    assert_eq!(
        board.get_legal_moves(),
        vec![Move::new(1, 0), Move::new(1, 2), Move::new(2, 0), Move::new(2, 1)]
    );
}

#[test]
fn test_move_instantiates() {
    let m = Move::from_string("1 2").unwrap();
    assert_eq!(m, Move::new(1, 2));
}

#[test]
fn test_board_pretty_prints_with_square_highlighted() {
    let board = Board::from_position(
        "__X
        ___
        ___",
    )
    .unwrap();
    assert_eq!(
        board.to_string_with_square_highlighted(0, 2),
        "__\u{1b}[32mX\u{1b}[0m\n___\n___".to_string()
    );
}

#[test]
fn test_move_parse_rejects_out_of_range() {
    assert_eq!(Move::from_string("3 1"), Err(GameError::ParseError));
    assert_eq!(Move::from_string(""), Err(GameError::ParseError));
    assert_eq!(Move::from_string("123"), Err(GameError::ParseError));
    assert_eq!(Move::from_string("ab"), Err(GameError::ParseError));
    assert_eq!(Move::from_string(" 2  0 "), Ok(Move::new(2, 0)));
}

#[test]
fn test_position_parse_rejects_bad_text() {
    assert_eq!(
        Board::from_position("XOXOXOXO"),
        Err(GameError::ParseError)
    );
    assert_eq!(
        Board::from_position("XOXOXOXOXO"),
        Err(GameError::ParseError)
    );
    assert_eq!(
        Board::from_position("XOXOXOXOQ"),
        Err(GameError::ParseError)
    );
    assert_eq!(
        Bitboard::from_binary("00000000"),
        Err(GameError::ParseError)
    );
    assert_eq!(
        Bitboard::from_binary("000000002"),
        Err(GameError::ParseError)
    );
}

#[test]
fn test_make_move_rejects_illegal_moves() {
    let mut board = Board::from_position(
        "X__
        ___
        ___",
    )
    .unwrap();
    // It is O's turn.
    assert_eq!(
        board.make_move(Player::X, Move::new(1, 1)),
        Err(GameError::IllegalMoveError)
    );
    // The corner is already taken.
    assert_eq!(
        board.make_move(Player::O, Move::new(0, 0)),
        Err(GameError::IllegalMoveError)
    );
    assert_eq!(board.make_move(Player::O, Move::new(1, 1)), Ok(()));
}

#[test]
fn test_legal_move_count_tracks_occupancy() {
    // Nine minus the number of occupied cells, at every step of a game.
    let mut board = Board::empty();
    let moves = [
        (Player::X, Move::new(1, 1)),
        (Player::O, Move::new(0, 0)),
        (Player::X, Move::new(0, 1)),
        (Player::O, Move::new(2, 1)),
    ];
    let mut occupied = 0;
    for (player, m) in moves {
        assert_eq!(board.get_legal_moves().len(), 9 - occupied);
        assert_eq!(board.make_move(player, m), Ok(()));
        occupied += 1;
        assert_eq!(board.get_legal_moves().len(), 9 - occupied);
    }
}

#[test]
fn test_alternating_play_never_ambiguous() {
    // A full game of alternating legal moves: no reached position is
    // ambiguous, while direct construction can be.
    let mut board = Board::empty();
    let moves = [
        Move::new(0, 0),
        Move::new(0, 1),
        Move::new(0, 2),
        Move::new(1, 1),
        Move::new(1, 0),
        Move::new(1, 2),
        Move::new(2, 1),
        Move::new(2, 0),
        Move::new(2, 2),
    ];
    for m in moves {
        let player = match board.get_active_player() {
            Some(p) => p,
            None => break,
        };
        assert_eq!(board.make_move(player, m), Ok(()));
        assert_ne!(board.get_outcome(), Outcome::Ambiguous);
    }
    assert_eq!(
        Board::from_position(
            "XXX
            ___
            OOO",
        )
        .unwrap()
        .get_outcome(),
        Outcome::Ambiguous
    );
}

#[test]
fn test_text_helpers() {
    assert_eq!(Player::X.to_string(), "X");
    assert_eq!(Player::O.to_string(), "O");
    assert_eq!(Outcome::Victory(Player::O).to_string(), "O wins");
    assert_eq!(Outcome::Draw.to_string(), "Draw");
    assert_eq!(Outcome::InProgress.to_string(), "Game in progress");
    assert_eq!(Outcome::Ambiguous.to_string(), "Ambiguous");
    assert_eq!(Move::new(1, 2).to_string(), "(1, 2)");
}

#[test]
fn test_move_renders_on_board() {
    let board = Board::from_position(
        "__X
        ___
        ___",
    )
    .unwrap();
    let rendered = Move::new(2, 0).to_string_on_board(&board).unwrap();
    assert_eq!(rendered, "__X\n___\n\u{1b}[32mO\u{1b}[0m__".to_string());

    let full = Board::from_position(
        "XOX
        OXO
        XOX",
    )
    .unwrap();
    assert_eq!(
        Move::new(0, 0).to_string_on_board(&full),
        Err(GameError::GameOverError)
    );
    assert_eq!(
        Move::new(0, 2).to_string_on_board(&board),
        Err(GameError::IllegalMoveError)
    );
}
