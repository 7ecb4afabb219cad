use vstd::prelude::*;
use vstd::pervasive::unreached;
use vstd::string::StringExecFns;

use crate::board::lemma_apply_move_effect;
use crate::board::lemma_in_progress_not_full;
use crate::board::lemma_nbits_bound;
use crate::board::nbits;
use crate::board::GameError;
use crate::board::Move;
use crate::board::Outcome;
use crate::board::Player;
use crate::tree::Node;
use crate::tree::Tree;
use crate::board::Board;

verus! {

// ---------------------------------------------------------------------------
// Evaluation
// ---------------------------------------------------------------------------

/// The minimax value of a position: +1 when `X` forces a win with optimal
/// play, -1 when `O` does, 0 for a forced draw or neutral result. The value
/// is an exact ternary scalar; no tolerance is involved.
#[derive(Debug, Copy, Clone, PartialEq, Eq, PartialOrd, Structural)]
pub struct Evaluation(pub i32);

/// Label of an evaluation value.
pub open spec fn evaluation_text(v: int) -> Seq<char> {
    if v >= 1 {
        "X is Winning"@
    } else if v <= -1 {
        "O is Winning"@
    } else {
        "Drawn"@
    }
}

impl Evaluation {
    pub fn new(evaluation: i32) -> (r: Self)
        ensures
            r.0 == evaluation,
    {
        Evaluation(evaluation)
    }

    pub fn get_evaluation(&self) -> (r: i32)
        ensures
            r == self.0,
    {
        self.0
    }

    pub fn to_string(&self) -> (r: String)
        ensures
            r@ == evaluation_text(self.0 as int),
    {
        if self.0 >= 1 {
            "X is Winning".to_owned()
        } else if self.0 <= -1 {
            "O is Winning".to_owned()
        } else if self.0 == 0 {
            "Drawn".to_owned()
        } else {
            "Ambiguous".to_owned()
        }
    }
}

// ---------------------------------------------------------------------------
// Minimax over the game tree
// ---------------------------------------------------------------------------

/// Value of a terminal position.
pub open spec fn leaf_value(o: Outcome) -> int {
    match o {
        Outcome::Victory(Player::X) => 1,
        Outcome::Victory(Player::O) => -1,
        _ => 0,
    }
}

/// Seed of the fold over a node's children: the worst value for the player
/// to move.
pub open spec fn init_value(p: Player) -> int {
    match p {
        Player::X => -1,
        Player::O => 1,
    }
}

/// The player to move at `n`.
pub open spec fn active_of(n: Node) -> Player {
    n.board.spec_active().unwrap()
}

/// Minimax value of the node: the leaf value at a terminal node, else the
/// best child value for the player to move.
pub open spec fn eval_node(n: Node) -> int
    decreases n, n.children@.len() + 1,
{
    if n.children@.len() == 0 {
        leaf_value(n.board.spec_outcome())
    } else {
        best_val_upto(n, n.children@.len() as int)
    }
}

/// Best value among the first `k` children: the maximum for `X` to move,
/// the minimum for `O`, seeded with the worst value for that player.
pub open spec fn best_val_upto(n: Node, k: int) -> int
    decreases n, k,
{
    if k <= 0 || k > n.children@.len() {
        init_value(active_of(n))
    } else {
        let c = eval_node(n.children@[k - 1]);
        let prev = best_val_upto(n, k - 1);
        if active_of(n) == Player::X {
            if c >= prev {
                c
            } else {
                prev
            }
        } else {
            if c <= prev {
                c
            } else {
                prev
            }
        }
    }
}

/// Index of the child whose line is kept after scanning the first `k`
/// children: each child at least as good as the best so far overwrites the
/// recorded index, so among ties the last one in move order wins.
pub open spec fn best_index_upto(n: Node, k: int) -> int
    decreases k,
{
    if k <= 1 {
        0
    } else {
        let j = best_index_upto(n, k - 1);
        let c = eval_node(n.children@[k - 1]);
        let prev = best_val_upto(n, k - 1);
        if (active_of(n) == Player::X && c >= prev) || (active_of(n) != Player::X && c <= prev) {
            k - 1
        } else {
            j
        }
    }
}

/// The principal line from `n`: empty at a terminal node, else the move of
/// the kept child followed by that child's own line.
pub open spec fn line_of(n: Node) -> Seq<Move>
    decreases n,
{
    if n.children@.len() == 0 {
        Seq::empty()
    } else {
        let j0 = best_index_upto(n, n.children@.len() as int);
        let j = if 0 <= j0 < n.children@.len() {
            j0
        } else {
            0
        };
        seq![n.board.spec_legal_moves()[j]] + line_of(n.children@[j])
    }
}

/// The moves among the first `k` whose child evaluates to `v`, in move
/// order.
pub open spec fn tied_upto(n: Node, k: int, v: int) -> Seq<Move>
    decreases k,
{
    if k <= 0 || k > n.children@.len() {
        Seq::empty()
    } else {
        tied_upto(n, k - 1, v) + if eval_node(n.children@[k - 1]) == v {
            seq![n.board.spec_legal_moves()[k - 1]]
        } else {
            Seq::<Move>::empty()
        }
    }
}

/// All moves that achieve the node's evaluation, in move order.
pub open spec fn tied_best_moves(n: Node) -> Seq<Move> {
    tied_upto(n, n.children@.len() as int, eval_node(n))
}

// ---------------------------------------------------------------------------
// Lemmas about the minimax spec
// ---------------------------------------------------------------------------

proof fn lemma_best_val_upto_range(n: Node, k: int)
    requires
        n.wf(),
        0 <= k <= n.children@.len(),
    ensures
        -1 <= best_val_upto(n, k) <= 1,
    decreases 9 - nbits(n.board.union_bits(), 9), k,
{
    lemma_nbits_bound(n.board.union_bits(), 9);
    if k > 0 {
        let ms = n.board.spec_legal_moves();
        let child = n.children@[k - 1];
        n.board.lemma_legal_moves_membership();
        assert(ms.contains(ms[k - 1]));
        lemma_apply_move_effect(n.board, active_of(n), ms[k - 1]);
        lemma_nbits_bound(child.board.union_bits(), 9);
        lemma_eval_range(child);
        lemma_best_val_upto_range(n, k - 1);
    }
}

/// The minimax value of a well-formed node is one of -1, 0, +1.
pub proof fn lemma_eval_range(n: Node)
    requires
        n.wf(),
    ensures
        -1 <= eval_node(n) <= 1,
    decreases 9 - nbits(n.board.union_bits(), 9), 10int,
{
    lemma_nbits_bound(n.board.union_bits(), 9);
    if n.children@.len() > 0 {
        n.board.lemma_legal_moves_len();
        lemma_best_val_upto_range(n, n.children@.len() as int);
    }
}

/// The best value over a prefix dominates every child value in it.
proof fn lemma_best_val_dominates(n: Node, k: int)
    requires
        0 <= k <= n.children@.len(),
    ensures
        forall|i: int|
            0 <= i < k ==> if active_of(n) == Player::X {
                eval_node(#[trigger] n.children@[i]) <= best_val_upto(n, k)
            } else {
                eval_node(#[trigger] n.children@[i]) >= best_val_upto(n, k)
            },
    decreases k,
{
    if k > 0 {
        lemma_best_val_dominates(n, k - 1);
    }
}

proof fn lemma_best_index_range(n: Node, k: int)
    requires
        1 <= k,
    ensures
        0 <= best_index_upto(n, k) < k,
    decreases k,
{
    if k > 1 {
        lemma_best_index_range(n, k - 1);
    }
}

/// A value that no child in the prefix achieves has no tied moves there.
proof fn lemma_tied_upto_empty(n: Node, k: int, v: int)
    requires
        0 <= k <= n.children@.len(),
        forall|i: int| 0 <= i < k ==> eval_node(#[trigger] n.children@[i]) != v,
    ensures
        tied_upto(n, k, v) == Seq::<Move>::empty(),
    decreases k,
{
    if k > 0 {
        lemma_tied_upto_empty(n, k - 1, v);
        assert(tied_upto(n, k, v) =~= Seq::<Move>::empty());
    }
}

proof fn lemma_fold_eq(a: Node, b: Node, k: int)
    requires
        a.children@.len() == b.children@.len(),
        active_of(a) == active_of(b),
        a.board.spec_legal_moves() == b.board.spec_legal_moves(),
        0 <= k <= a.children@.len(),
        forall|i: int|
            0 <= i < a.children@.len() ==> eval_node(#[trigger] a.children@[i]) == eval_node(
                b.children@[i],
            ),
    ensures
        best_val_upto(a, k) == best_val_upto(b, k),
        k >= 1 ==> best_index_upto(a, k) == best_index_upto(b, k),
        forall|v: int| #[trigger] tied_upto(a, k, v) == tied_upto(b, k, v),
    decreases k,
{
    if k > 0 {
        lemma_fold_eq(a, b, k - 1);
        assert(eval_node(a.children@[k - 1]) == eval_node(b.children@[k - 1]));
        assert forall|v: int| #[trigger] tied_upto(a, k, v) == tied_upto(b, k, v) by {
            assert(tied_upto(a, k - 1, v) == tied_upto(b, k - 1, v));
        }
    } else {
        assert forall|v: int| #[trigger] tied_upto(a, k, v) == tied_upto(b, k, v) by {
            assert(tied_upto(a, k, v) =~= Seq::<Move>::empty());
            assert(tied_upto(b, k, v) =~= Seq::<Move>::empty());
        }
    }
}

/// Evaluating is a pure function of the position: two well-formed game trees
/// grown from the same board agree on the evaluation, on the principal line
/// and on the set of tied-best moves.
pub proof fn lemma_eval_determined(a: Node, b: Node)
    requires
        a.wf(),
        b.wf(),
        a.board == b.board,
    ensures
        eval_node(a) == eval_node(b),
        line_of(a) == line_of(b),
        tied_best_moves(a) == tied_best_moves(b),
    decreases 9 - nbits(a.board.union_bits(), 9),
{
    lemma_nbits_bound(a.board.union_bits(), 9);
    let ms = a.board.spec_legal_moves();
    if a.board.spec_outcome() == Outcome::InProgress {
        assert(a.children@.len() == ms.len());
        assert(b.children@.len() == ms.len());
        assert forall|i: int|
            0 <= i < ms.len() implies eval_node(#[trigger] a.children@[i]) == eval_node(
            b.children@[i],
        ) && line_of(a.children@[i]) == line_of(b.children@[i]) by {
            a.board.lemma_legal_moves_membership();
            assert(ms.contains(ms[i]));
            lemma_apply_move_effect(a.board, active_of(a), ms[i]);
            lemma_in_progress_not_full(a.board);
            lemma_eval_determined(a.children@[i], b.children@[i]);
        }
        if ms.len() == 0 {
            assert(tied_upto(a, 0, eval_node(a)) =~= Seq::<Move>::empty());
            assert(tied_upto(b, 0, eval_node(b)) =~= Seq::<Move>::empty());
        } else {
            lemma_fold_eq(a, b, ms.len() as int);
            lemma_best_index_range(a, ms.len() as int);
        }
    } else {
        assert(a.children@.len() == 0 && b.children@.len() == 0);
        assert(tied_upto(a, 0, eval_node(a)) =~= Seq::<Move>::empty());
        assert(tied_upto(b, 0, eval_node(b)) =~= Seq::<Move>::empty());
    }
}

// ---------------------------------------------------------------------------
// Solver
// ---------------------------------------------------------------------------

/// Minimax solver over a fully pre-expanded game tree.
pub struct Solver {
    pub tree: Tree,
}

impl Solver {
    /// The held tree is a well-formed game tree.
    pub open spec fn wf(self) -> bool {
        self.tree.wf()
    }

    pub fn from_board(board: Board) -> (r: Solver)
        requires
            board.wf(),
        ensures
            r.wf(),
            r.tree.root.board == board,
    {
        let tree = Tree::from_board(board);
        Solver { tree }
    }

    pub fn get_evaluation(&self) -> (r: Evaluation)
        requires
            self.wf(),
        ensures
            r.0 == eval_node(self.tree.root),
    {
        let root = self.tree.get_root();
        self.get_evaluation_and_line_for_node(root).0
    }

    fn get_evaluation_for_outcome(outcome: Outcome) -> (r: Evaluation)
        ensures
            r.0 == leaf_value(outcome),
    {
        let raw_evaluation: i32 = match outcome {
            Outcome::InProgress => 0,
            Outcome::Ambiguous => 0,
            Outcome::Draw => 0,
            Outcome::Victory(Player::X) => 1,
            Outcome::Victory(Player::O) => -1,
        };
        Evaluation(raw_evaluation)
    }

    /// The minimax walk: the node's value together with one principal line.
    /// Among equally good children the line of the last one in move order is
    /// kept, because a child as good as the best so far overwrites it.
    fn get_evaluation_and_line_for_node(&self, node: &Node) -> (r: (Evaluation, Vec<Move>))
        requires
            node.wf(),
        ensures
            r.0.0 == eval_node(*node),
            r.1@ == line_of(*node),
        decreases 9 - nbits(node.board.union_bits(), 9),
    {
        proof {
            lemma_nbits_bound(node.board.union_bits(), 9);
        }
        if node.n_children() == 0 {
            return (Solver::get_evaluation_for_outcome(node.get_outcome()), Vec::new());
        }
        let active_player = match node.get_active_player() {
            Some(player) => player,
            None => {
                proof {
                    assert(false);
                }
                unreached()
            },
        };
        let mut best_evaluation = Evaluation(
            match active_player {
                Player::X => -1,
                Player::O => 1,
            },
        );
        let mut best_move_line: Vec<Move> = Vec::new();
        let legal_moves = node.get_legal_moves();
        let ghost ms = node.board.spec_legal_moves();
        let n_moves = legal_moves.len();
        for i in 0..n_moves
            invariant
                node.wf(),
                ms == node.board.spec_legal_moves(),
                legal_moves@ == ms,
                n_moves == ms.len(),
                ms.len() == node.children@.len(),
                n_moves > 0,
                node.board.spec_outcome() == Outcome::InProgress,
                Some(active_player) == node.board.spec_active(),
                best_evaluation.0 == best_val_upto(*node, i as int),
                i == 0 ==> best_move_line@ =~= Seq::<Move>::empty(),
                i > 0 ==> best_move_line@ == seq![ms[best_index_upto(*node, i as int)]] + line_of(
                    node.children@[best_index_upto(*node, i as int)],
                ),
        {
            let child_move = legal_moves[i];
            proof {
                node.board.lemma_legal_moves_membership();
                assert(ms.contains(ms[i as int]));
                lemma_apply_move_effect(node.board, active_player, child_move);
                lemma_in_progress_not_full(node.board);
            }
            let child = match node.get_child(child_move.get_row(), child_move.get_column()) {
                Ok(c) => c,
                Err(_) => {
                    proof {
                        assert(false);
                    }
                    unreached()
                },
            };
            proof {
                assert(node.children@[i as int].board == node.board.spec_apply(
                    active_player,
                    ms[i as int],
                ));
                lemma_eval_determined(*child, node.children@[i as int]);
                lemma_eval_range(node.children@[i as int]);
                lemma_best_val_upto_range(*node, i as int);
                lemma_best_index_range(*node, i as int + 1);
            }
            let (child_evaluation, mut child_line) = self.get_evaluation_and_line_for_node(child);
            match active_player {
                Player::X => {
                    if child_evaluation.0 >= best_evaluation.0 {
                        best_evaluation = child_evaluation;
                        best_move_line = Vec::new();
                        best_move_line.push(child_move);
                        best_move_line.append(&mut child_line);
                    }
                },
                Player::O => {
                    if child_evaluation.0 <= best_evaluation.0 {
                        best_evaluation = child_evaluation;
                        best_move_line = Vec::new();
                        best_move_line.push(child_move);
                        best_move_line.append(&mut child_line);
                    }
                },
            }
            proof {
                assert(best_evaluation.0 == best_val_upto(*node, i as int + 1));
                assert(best_move_line@ == seq![ms[best_index_upto(*node, i as int + 1)]] + line_of(
                    node.children@[best_index_upto(*node, i as int + 1)],
                ));
            }
        }
        proof {
            lemma_best_index_range(*node, n_moves as int);
            assert(eval_node(*node) == best_val_upto(*node, n_moves as int));
            assert(line_of(*node) == seq![ms[best_index_upto(*node, n_moves as int)]] + line_of(
                node.children@[best_index_upto(*node, n_moves as int)],
            ));
        }
        (best_evaluation, best_move_line)
    }

    pub fn get_next_moves(&self) -> (r: Result<Vec<Move>, GameError>)
        requires
            self.wf(),
        ensures
            self.tree.root.board.spec_active() is None ==> r == Err::<Vec<Move>, GameError>(
                GameError::GameOverError,
            ),
            self.tree.root.board.spec_active() is Some ==> r is Ok && r.unwrap()@
                == tied_best_moves(self.tree.root),
    {
        match self.get_next_moves_and_evaluation() {
            Ok((next_moves, _)) => Ok(next_moves),
            Err(e) => Err(e),
        }
    }

    /// All tied-best moves from the root, in move order, with the shared
    /// evaluation; `GameOverError` when the game is already decided.
    pub fn get_next_moves_and_evaluation(&self) -> (r: Result<(Vec<Move>, Evaluation), GameError>)
        requires
            self.wf(),
        ensures
            self.tree.root.board.spec_active() is None ==> r == Err::<
                (Vec<Move>, Evaluation),
                GameError,
            >(GameError::GameOverError),
            self.tree.root.board.spec_active() is Some ==> r is Ok && r.unwrap().0@
                == tied_best_moves(self.tree.root) && r.unwrap().1.0 == eval_node(self.tree.root),
    {
        let active_player = match self.tree.get_root().get_active_player() {
            Some(player) => player,
            None => {
                return Err(GameError::GameOverError);
            },
        };
        let root = self.tree.get_root();
        let mut next_moves: Vec<Move> = Vec::new();
        let mut best_evaluation = Evaluation(
            match active_player {
                Player::X => -2,
                Player::O => 2,
            },
        );
        let legal_moves = root.get_legal_moves();
        let ghost ms = self.tree.root.board.spec_legal_moves();
        let n_moves = legal_moves.len();
        proof {
            lemma_in_progress_not_full(self.tree.root.board);
            self.tree.root.board.lemma_legal_moves_len();
        }
        for i in 0..n_moves
            invariant
                *root == self.tree.root,
                self.tree.root.wf(),
                ms == self.tree.root.board.spec_legal_moves(),
                legal_moves@ == ms,
                n_moves == ms.len(),
                ms.len() == self.tree.root.children@.len(),
                n_moves > 0,
                self.tree.root.board.spec_outcome() == Outcome::InProgress,
                Some(active_player) == self.tree.root.board.spec_active(),
                i == 0 ==> best_evaluation.0 == (if active_player == Player::X {
                    -2int
                } else {
                    2int
                }) && next_moves@ =~= Seq::<Move>::empty(),
                i > 0 ==> best_evaluation.0 == best_val_upto(self.tree.root, i as int)
                    && next_moves@ == tied_upto(
                    self.tree.root,
                    i as int,
                    best_val_upto(self.tree.root, i as int),
                ),
        {
            let m = legal_moves[i];
            proof {
                self.tree.root.board.lemma_legal_moves_membership();
                assert(ms.contains(ms[i as int]));
                lemma_apply_move_effect(self.tree.root.board, active_player, m);
                lemma_in_progress_not_full(self.tree.root.board);
                lemma_nbits_bound(self.tree.root.board.union_bits(), 9);
            }
            let child = match root.get_child(m.get_row(), m.get_column()) {
                Ok(c) => c,
                Err(_) => {
                    proof {
                        assert(false);
                    }
                    unreached()
                },
            };
            proof {
                assert(self.tree.root.children@[i as int].board == self.tree.root.board.spec_apply(
                    active_player,
                    ms[i as int],
                ));
                lemma_eval_determined(*child, self.tree.root.children@[i as int]);
                lemma_eval_range(self.tree.root.children@[i as int]);
                lemma_best_val_upto_range(self.tree.root, i as int);
                lemma_best_val_dominates(self.tree.root, i as int);
            }
            let (evaluation, _line) = self.get_evaluation_and_line_for_node(child);
            if ((evaluation.0 > best_evaluation.0) && (active_player == Player::X)) || ((
            evaluation.0 < best_evaluation.0) && (active_player == Player::O)) {
                best_evaluation = evaluation;
                next_moves.clear();
                next_moves.push(m);
                proof {
                    lemma_tied_upto_empty(self.tree.root, i as int, evaluation.0 as int);
                    assert(next_moves@ =~= tied_upto(
                        self.tree.root,
                        i as int + 1,
                        best_val_upto(self.tree.root, i as int + 1),
                    ));
                }
            } else if evaluation.0 == best_evaluation.0 {
                next_moves.push(m);
                proof {
                    assert(next_moves@ =~= tied_upto(
                        self.tree.root,
                        i as int + 1,
                        best_val_upto(self.tree.root, i as int + 1),
                    ));
                }
            } else {
                proof {
                    assert(next_moves@ =~= tied_upto(
                        self.tree.root,
                        i as int + 1,
                        best_val_upto(self.tree.root, i as int + 1),
                    ));
                }
            }
        }
        proof {
            assert(eval_node(self.tree.root) == best_val_upto(self.tree.root, n_moves as int));
        }
        return Ok((next_moves, best_evaluation));
    }

    /// The root's evaluation and one principal line realising it.
    pub fn get_evaluation_and_line(&self) -> (r: (Evaluation, Vec<Move>))
        requires
            self.wf(),
        ensures
            r.0.0 == eval_node(self.tree.root),
            r.1@ == line_of(self.tree.root),
    {
        let root = self.tree.get_root();
        self.get_evaluation_and_line_for_node(root)
    }
}

} // verus!
