use tictactoe::board::Board;
use tictactoe::board::GameError;
use tictactoe::board::Move;
use tictactoe::board::Player;
use tictactoe::solver::Evaluation;
use tictactoe::solver::Solver;

#[test]
fn test_solver_gets_evaluation() {
    assert_eq!(
        Solver::from_board(
            Board::from_position(
                "XOX
                OXO
                XOX",
            )
            .unwrap()
        )
        .get_evaluation(),
        Evaluation(1)
    );

    assert_eq!(
        Solver::from_board(
            Board::from_position(
                "XOX
                O_O
                XOX",
            )
            .unwrap()
        )
        .get_evaluation(),
        Evaluation(1)
    );

    assert_eq!(
        Solver::from_board(
            Board::from_position(
                "XOX
                OO_
                XXO",
            )
            .unwrap()
        )
        .get_evaluation(),
        Evaluation(0)
    );

    assert_eq!(
        Solver::from_board(
            Board::from_position(
                "XO_
                OO_
                XXO",
            )
            .unwrap()
        )
        .get_evaluation(),
        Evaluation(-1)
    );

    assert!(
        Solver::from_board(
            Board::from_position(
                "XO_
                O__
                XXO",
            )
            .unwrap()
        )
        .get_evaluation()
            < Evaluation(1)
    );
}

#[test]
fn test_solver_gets_line() {
    let board = Board::from_position(
        "XO_
        XOX
        O__",
    )
    .unwrap();
    assert_eq!(board.get_active_player(), Some(Player::X));
    let solver = Solver::from_board(board);

    let (evaluation, line) = solver.get_evaluation_and_line();
    assert_eq!(evaluation, Evaluation(-1));
    assert_eq!(line, vec![Move { row: 2, col: 2 }, Move { row: 2, col: 1 }]);

    let board = Board::from_position(
        "XO_
        XOX
        ___",
    )
    .unwrap();
    assert_eq!(board.get_active_player(), Some(Player::O));
    let solver = Solver::from_board(board);

    let (evaluation, line) = solver.get_evaluation_and_line();
    assert_eq!(evaluation, Evaluation(-1));
    assert_eq!(line, vec![Move { row: 2, col: 1 }]);

    let (best_moves, _) = solver.get_next_moves_and_evaluation().unwrap();
    assert_eq!(best_moves, vec![Move { row: 2, col: 0 }, Move { row: 2, col: 1 }]);

    let board = Board::from_position(
        "XOO
        _X_
        ___",
    )
    .unwrap();
    assert_eq!(board.get_active_player(), Some(Player::X));
    let solver = Solver::from_board(board);
    let (evaluation, line) = solver.get_evaluation_and_line();
    assert_eq!(evaluation, Evaluation(1));
    assert_eq!(line, vec![Move::new(2, 2)]);

    let (best_moves, _) = solver.get_next_moves_and_evaluation().unwrap();
    assert_eq!(
        best_moves,
        vec![
            Move { row: 1, col: 0 },
            Move { row: 1, col: 2 },
            Move { row: 2, col: 0 },
            Move { row: 2, col: 2 }
        ]
    );
}

#[test]
fn test_solver_solves_tic_tac_toe() {
    let solver = Solver::from_board(
        Board::from_position(
            "XOX
            O_O
            XOX",
        )
        .unwrap(),
    );
    assert_eq!(solver.get_next_moves(), Ok(vec![Move::new(1, 1)]));

    let solver = Solver::from_board(
        Board::from_position(
            "X_X
            O_O
            ___",
        )
        .unwrap(),
    );
    assert_eq!(solver.get_next_moves(), Ok(vec![Move::new(0, 1), Move::new(1, 1)]));

    let solver = Solver::from_board(
        Board::from_position(
            "XO_
            _X_
            ___",
        )
        .unwrap(),
    );
    assert_eq!(solver.get_next_moves().unwrap().len(), 6);

    let solver = Solver::from_board(
        Board::from_position(
            "XO_
            _X_
            __O",
        )
        .unwrap(),
    );
    assert_eq!(
        solver.get_next_moves_and_evaluation(),
        Ok((vec![Move::new(1, 0), Move::new(2, 0)], Evaluation::new(1)))
    );

    let solver = Solver::from_board(
        Board::from_position(
            "XO_
            ___
            ___",
        )
        .unwrap(),
    );
    assert_eq!(
        solver.get_next_moves_and_evaluation(),
        Ok((
            vec![Move::new(1, 0), Move::new(1, 1), Move::new(2, 0)],
            Evaluation::new(1)
        ))
    );

    let solver = Solver::from_board(
        Board::from_position(
            "XOX
            _O_
            __X",
        )
        .unwrap(),
    );
    assert_eq!(
        solver.get_next_moves_and_evaluation(),
        Ok((vec![Move::new(1, 2), Move::new(2, 1)], Evaluation::new(-1)))
    );

    let solver = Solver::from_board(
        Board::from_position(
            "XO_
            O__
            XXO",
        )
        .unwrap(),
    );
    assert_eq!(
        solver.get_next_moves_and_evaluation(),
        Ok((
            vec![Move::new(0, 2), Move::new(1, 1), Move::new(1, 2)],
            Evaluation::new(0)
        ))
    );
}

#[test]
fn test_solver_reports_game_over() {
    let solver = Solver::from_board(
        Board::from_position(
            "XOX
            OXO
            XOX",
        )
        .unwrap(),
    );
    assert_eq!(solver.get_next_moves(), Err(GameError::GameOverError));
    assert_eq!(
        solver.get_next_moves_and_evaluation(),
        Err(GameError::GameOverError)
    );
}

#[test]
fn test_solver_evaluates_forced_win_with_label() {
    let solver = Solver::from_board(
        Board::from_position(
            "XOX
            O_O
            XOX",
        )
        .unwrap(),
    );
    assert_eq!(solver.get_next_moves(), Ok(vec![Move::new(1, 1)]));
    let evaluation = solver.get_evaluation();
    assert_eq!(evaluation.get_evaluation(), 1);
    assert_eq!(evaluation.to_string(), "X is Winning");

    let solver = Solver::from_board(
        Board::from_position(
            "XO_
            _X_
            ___",
        )
        .unwrap(),
    );
    let (best_moves, evaluation) = solver.get_next_moves_and_evaluation().unwrap();
    assert_eq!(best_moves.len(), 6);
    assert_eq!(evaluation, Evaluation(1));
}

#[test]
fn test_evaluation_labels() {
    assert_eq!(Evaluation::new(1).to_string(), "X is Winning");
    assert_eq!(Evaluation::new(-1).to_string(), "O is Winning");
    assert_eq!(Evaluation::new(0).to_string(), "Drawn");
    assert_eq!(Evaluation::new(2).get_evaluation(), 2);
}

#[test]
fn test_solver_is_idempotent() {
    // Evaluating the same tree twice yields identical results: the
    // evaluation is a pure function of the position.
    let solver = Solver::from_board(
        Board::from_position(
            "XO_
            O__
            XXO",
        )
        .unwrap(),
    );
    let first = solver.get_next_moves_and_evaluation().unwrap();
    let second = solver.get_next_moves_and_evaluation().unwrap();
    assert_eq!(first, second);
    assert_eq!(solver.get_evaluation_and_line(), solver.get_evaluation_and_line());
}
