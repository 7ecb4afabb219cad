use vstd::prelude::*;

use crate::board::lemma_apply_move_effect;
use crate::board::lemma_in_progress_not_full;
use crate::board::lemma_nbits_bound;
use crate::board::nbits;
use crate::board::Board;
use crate::board::GameError;
use crate::board::Move;
use crate::board::Outcome;
use crate::board::Player;

verus! {

/// A position together with all positions reachable from it: one child per
/// legal move, in row-major move order, and none once the outcome is
/// decided.
pub struct Node {
    pub board: Board,
    pub children: Vec<Node>,
}

impl Node {
    /// The node's board is well-formed and its children correspond exactly
    /// to the legal moves: one child per move, in move order, each holding
    /// the position that move produces, each well-formed in turn. A node
    /// whose outcome is decided has no children.
    pub open spec fn wf(self) -> bool
        decreases self,
    {
        &&& self.board.wf()
        &&& if self.board.spec_outcome() == Outcome::InProgress {
            let ms = self.board.spec_legal_moves();
            &&& self.children@.len() == ms.len()
            &&& forall|i: int|
                0 <= i < ms.len() ==> (#[trigger] self.children@[i]).board
                    == self.board.spec_apply(self.board.spec_active().unwrap(), ms[i])
                    && self.children@[i].wf()
        } else {
            self.children@.len() == 0
        }
    }
}

/// Height of the tree under `n`: one for a terminal node, one more than the
/// tallest child otherwise.
pub open spec fn spec_depth(n: Node) -> int
    decreases n, n.children@.len() + 1,
{
    if n.children@.len() == 0 {
        1
    } else {
        1 + depth_upto(n, n.children@.len() as int)
    }
}

/// Greatest height among the first `k` children of `n`.
pub open spec fn depth_upto(n: Node, k: int) -> int
    decreases n, k,
{
    if k <= 0 || k > n.children@.len() {
        0
    } else {
        let d = spec_depth(n.children@[k - 1]);
        let prev = depth_upto(n, k - 1);
        if d > prev {
            d
        } else {
            prev
        }
    }
}

proof fn lemma_depth_upto_bound(n: Node, k: int)
    requires
        n.wf(),
        0 <= k <= n.children@.len(),
    ensures
        0 <= depth_upto(n, k) <= 9 - nbits(n.board.union_bits(), 9),
    decreases 9 - nbits(n.board.union_bits(), 9), k,
{
    lemma_nbits_bound(n.board.union_bits(), 9);
    if k > 0 {
        let ms = n.board.spec_legal_moves();
        let child = n.children@[k - 1];
        n.board.lemma_legal_moves_membership();
        assert(ms.contains(ms[k - 1]));
        lemma_apply_move_effect(n.board, n.board.spec_active().unwrap(), ms[k - 1]);
        lemma_nbits_bound(child.board.union_bits(), 9);
        lemma_depth_bound(child);
        lemma_depth_upto_bound(n, k - 1);
    }
}

/// Invariant of every well-formed game tree: its depth is at least one and
/// at most ten, one level for the root position plus one per empty cell.
pub proof fn lemma_depth_bound(n: Node)
    requires
        n.wf(),
    ensures
        1 <= spec_depth(n),
        spec_depth(n) <= 10 - nbits(n.board.union_bits(), 9),
        spec_depth(n) <= 10,
    decreases 9 - nbits(n.board.union_bits(), 9), 10int,
{
    lemma_nbits_bound(n.board.union_bits(), 9);
    if n.children@.len() > 0 {
        n.board.lemma_legal_moves_len();
        lemma_depth_upto_bound(n, n.children@.len() as int);
    }
}

impl Node {
    /// Expands `board` into the full game tree below it.
    pub fn from_board(board: Board) -> (r: Node)
        requires
            board.wf(),
        ensures
            r.board == board,
            r.wf(),
        decreases 9 - nbits(board.union_bits(), 9),
    {
        let ghost ms = board.spec_legal_moves();
        let children = match board.get_outcome() {
            Outcome::InProgress => {
                let player = board.get_active_player().unwrap();
                let mut children: Vec<Node> = Vec::new();
                for row in 0..3usize
                    invariant
                        board.wf(),
                        board.spec_outcome() == Outcome::InProgress,
                        Some(player) == board.spec_active(),
                        ms == board.spec_legal_moves(),
                        children@.len() + board.lm_from(row as int, 0).len() == ms.len(),
                        ms =~= ms.take(children@.len() as int) + board.lm_from(row as int, 0),
                        forall|i: int|
                            0 <= i < children@.len() ==> (#[trigger] children@[i]).board
                                == board.spec_apply(player, ms[i]) && children@[i].wf(),
                {
                    for col in 0..3usize
                        invariant
                            row < 3,
                            board.wf(),
                            board.spec_outcome() == Outcome::InProgress,
                            Some(player) == board.spec_active(),
                            ms == board.spec_legal_moves(),
                            children@.len() + board.lm_from(row as int, col as int).len()
                                == ms.len(),
                            ms =~= ms.take(children@.len() as int) + board.lm_from(
                                row as int,
                                col as int,
                            ),
                            forall|i: int|
                                0 <= i < children@.len() ==> (#[trigger] children@[i]).board
                                    == board.spec_apply(player, ms[i]) && children@[i].wf(),
                    {
                        let m = Move::new(row, col);
                        match board.with_move_made(player, m) {
                            Ok(child_board) => {
                                let ghost n0 = children@.len() as int;
                                proof {
                                    lemma_apply_move_effect(board, player, m);
                                    lemma_in_progress_not_full(board);
                                    lemma_nbits_bound(board.union_bits(), 9);
                                    assert(board.lm_from(row as int, col as int) =~= seq![m]
                                        + board.lm_from(row as int, col as int + 1));
                                    assert(ms =~= (ms.take(n0) + seq![m]) + board.lm_from(
                                        row as int,
                                        col as int + 1,
                                    ));
                                    assert(ms[n0] == m);
                                    assert(ms.take(n0 + 1) =~= ms.take(n0) + seq![m]);
                                }
                                children.push(Node::from_board(child_board));
                                proof {
                                    assert(children@.len() == n0 + 1);
                                    assert(children@[n0].board == board.spec_apply(player, ms[n0]));
                                    assert(ms =~= ms.take(n0 + 1) + board.lm_from(
                                        row as int,
                                        col as int + 1,
                                    ));
                                }
                            },
                            Err(_) => {
                                proof {
                                    assert(board.lm_from(row as int, col as int) == board.lm_from(
                                        row as int,
                                        col + 1,
                                    ));
                                }
                            },
                        }
                    }
                    proof {
                        assert(board.lm_from(row as int, 3) == board.lm_from(row as int + 1, 0));
                    }
                }
                proof {
                    assert(board.lm_from(3, 0) == Seq::<Move>::empty());
                    assert(ms =~= ms.take(children@.len() as int));
                    assert(children@.len() == ms.len());
                }
                children
            },
            _ => Vec::new(),
        };
        Node { board, children }
    }

    pub fn get_board(&self) -> (r: Board)
        ensures
            r == self.board,
    {
        self.board
    }

    pub fn get_legal_moves(&self) -> (r: Vec<Move>)
        requires
            self.wf(),
        ensures
            r@ == self.board.spec_legal_moves(),
    {
        self.board.get_legal_moves()
    }

    pub fn get_active_player(&self) -> (r: Option<Player>)
        requires
            self.wf(),
        ensures
            r == self.board.spec_active(),
    {
        self.board.get_active_player()
    }

    pub fn n_children(&self) -> (r: usize)
        ensures
            r == self.children@.len(),
    {
        self.children.len()
    }

    /// Height of this subtree.
    pub fn get_max_depth(&self) -> (r: usize)
        requires
            self.wf(),
        ensures
            r == spec_depth(*self),
        decreases 9 - nbits(self.board.union_bits(), 9),
    {
        if self.children.len() == 0 {
            return 1;
        }
        let mut max: usize = 0;
        let mut i: usize = 0;
        while i < self.children.len()
            invariant
                self.wf(),
                i <= self.children@.len(),
                max == depth_upto(*self, i as int),
                max <= 9,
            decreases self.children@.len() - i,
        {
            proof {
                let ms = self.board.spec_legal_moves();
                self.board.lemma_legal_moves_membership();
                assert(ms.contains(ms[i as int]));
                lemma_apply_move_effect(self.board, self.board.spec_active().unwrap(), ms[i as int]);
                lemma_in_progress_not_full(self.board);
                lemma_nbits_bound(self.board.union_bits(), 9);
                lemma_depth_bound(self.children@[i as int]);
            }
            let d = self.children[i].get_max_depth();
            if d > max {
                max = d;
            }
            i = i + 1;
        }
        max + 1
    }

    pub fn get_children(&self) -> (r: &Vec<Node>)
        ensures
            r@ == self.children@,
    {
        &self.children
    }

    /// The child holding the position that the move `(row, col)` produces,
    /// or `NoSuchChildError` when the node is terminal or the move is not
    /// legal here.
    pub fn get_child(&self, row: usize, col: usize) -> (r: Result<&Node, GameError>)
        requires
            self.wf(),
        ensures
            (self.board.spec_outcome() == Outcome::InProgress && row < 3 && col < 3
                && !self.board.occupied(row as int, col as int)) <==> r is Ok,
            r is Ok ==> r.unwrap().wf() && r.unwrap().board == self.board.spec_apply(
                self.board.spec_active().unwrap(),
                Move { row, col },
            ),
            r is Err ==> r == Err::<&Node, GameError>(GameError::NoSuchChildError),
    {
        match self.board.get_outcome() {
            Outcome::InProgress => {},
            _ => {
                return Err(GameError::NoSuchChildError);
            },
        }
        if row > 2 || col > 2 {
            return Err(GameError::NoSuchChildError);
        }
        let player = self.board.get_active_player().unwrap();
        let m = Move::new(row, col);
        let target = match self.board.with_move_made(player, m) {
            Ok(b) => b,
            Err(_) => {
                return Err(GameError::NoSuchChildError);
            },
        };
        let ghost ms = self.board.spec_legal_moves();
        proof {
            self.board.lemma_legal_moves_membership();
            assert(ms.contains(m));
        }
        let mut i: usize = 0;
        while i < self.children.len()
            invariant
                self.wf(),
                i <= self.children@.len(),
                row < 3,
                col < 3,
                m == (Move { row, col }),
                !self.board.occupied(row as int, col as int),
                ms == self.board.spec_legal_moves(),
                ms.contains(m),
                target == self.board.spec_apply(self.board.spec_active().unwrap(), m),
                self.board.spec_outcome() == Outcome::InProgress,
                forall|j: int| 0 <= j < i ==> (#[trigger] self.children@[j]).board != target,
            decreases self.children@.len() - i,
        {
            if self.children[i].get_board() == target {
                proof {
                    assert(self.children@[i as int].wf());
                }
                return Ok(&self.children[i]);
            }
            i = i + 1;
        }
        proof {
            let j = choose|j: int| 0 <= j < ms.len() && ms[j] == m;
            assert(self.children@[j].board == target);
            assert(false);
        }
        Err(GameError::NoSuchChildError)
    }

    pub fn get_outcome(&self) -> (r: Outcome)
        ensures
            r == self.board.spec_outcome(),
    {
        self.board.get_outcome()
    }
}

/// The full game tree grown from one starting position.
pub struct Tree {
    pub root: Node,
}

impl Tree {
    /// The root node is a well-formed game tree.
    pub open spec fn wf(self) -> bool {
        self.root.wf()
    }

    pub fn from_board(board: Board) -> (r: Tree)
        requires
            board.wf(),
        ensures
            r.root.board == board,
            r.wf(),
    {
        let root = Node::from_board(board);
        Tree { root }
    }

    pub fn depth(&self) -> (r: usize)
        requires
            self.wf(),
        ensures
            r == spec_depth(self.root),
    {
        self.root.get_max_depth()
    }

    pub fn get_root(&self) -> (r: &Node)
        ensures
            *r == self.root,
    {
        &self.root
    }
}

} // verus!
