use tictactoe::board::Board;
use tictactoe::board::GameError;
use tictactoe::board::Outcome;
use tictactoe::board::Player;
use tictactoe::tree::Tree;

#[test]
fn test_tiny_tree_builds() {
    let tree = Tree::from_board(
        Board::from_position(
            "XOX
            O_O
            XOX",
        )
        .unwrap(),
    );

    assert_eq!(
        tree.get_root().get_board(),
        Board::from_position(
            "XOX
            O_O
            XOX",
        )
        .unwrap()
    );

    assert_eq!(tree.depth(), 2);

    assert_eq!(tree.get_root().n_children(), 1);

    assert_eq!(
        tree.get_root().get_child(1, 1).unwrap().get_board(),
        Board::from_position(
            "XOX
            OXO
            XOX",
        )
        .unwrap()
    );

    assert_eq!(
        tree.get_root().get_child(1, 1).unwrap().get_outcome(),
        Outcome::Victory(Player::X)
    )
}

#[test]
fn test_small_tree_builds() {
    let tree = Tree::from_board(
        Board::from_position(
            "XOX
            O__
            XOX",
        )
        .unwrap(),
    );

    assert_eq!(
        tree.get_root().get_board(),
        Board::from_position(
            "XOX
            O__
            XOX",
        )
        .unwrap()
    );

    assert_eq!(tree.depth(), 3);

    assert_eq!(tree.get_root().n_children(), 2);

    assert_eq!(
        tree.get_root().get_child(1, 2).unwrap().get_board(),
        Board::from_position(
            "XOX
            O_O
            XOX",
        )
        .unwrap()
    );

    assert_eq!(tree.get_root().get_child(1, 2).unwrap().n_children(), 1);

    assert_eq!(tree.get_root().get_child(1, 2).unwrap().get_max_depth(), 2);
}

#[test]
fn test_full_tree_builds() {
    let tree = Tree::from_board(Board::empty());

    assert_eq!(tree.depth(), 10);
}

#[test]
fn test_get_child_rejects_bad_requests() {
    let decided = Tree::from_board(
        Board::from_position(
            "XOX
            OXO
            XOX",
        )
        .unwrap(),
    );
    assert!(matches!(
        decided.get_root().get_child(1, 1),
        Err(GameError::NoSuchChildError)
    ));

    let open = Tree::from_board(
        Board::from_position(
            "XOX
            O_O
            XOX",
        )
        .unwrap(),
    );
    // The requested cell is occupied.
    assert!(matches!(
        open.get_root().get_child(0, 0),
        Err(GameError::NoSuchChildError)
    ));
    // The requested cell is off the grid.
    assert!(matches!(
        open.get_root().get_child(7, 0),
        Err(GameError::NoSuchChildError)
    ));
}

#[test]
fn test_children_follow_move_order() {
    let tree = Tree::from_board(
        Board::from_position(
            "XOX
            _X_
            __O",
        )
        .unwrap(),
    );
    let root = tree.get_root();
    let legal_moves = root.get_legal_moves();
    assert_eq!(root.n_children(), legal_moves.len());
    let children = root.get_children();
    for (i, m) in legal_moves.iter().enumerate() {
        let child = root.get_child(m.get_row(), m.get_column()).unwrap();
        assert_eq!(child.get_board(), children[i].get_board());
    }
}
