//! The search arena: every board a search discovers is a node with a link to
//! the board it was derived from and the movement that produced it. The
//! arena's invariant ties each node to its parent by a legal pour, so the
//! movement list read off any node's parent chain replays from the root to
//! that node's board.

use vstd::prelude::*;

use crate::board::Board;
use crate::board::boards_equal;
use crate::laws::lemma_replay_snoc;
use crate::model::Movement;
use crate::model::apply_move;
use crate::model::move_legal;
use crate::model::replay;
use crate::model::replay_ok;

verus! {

/// One discovered board: its contents, the node it came from, and the pour
/// that produced it. The root is its own parent.
pub struct SearchNode {
    pub(crate) board: Board,
    pub(crate) parent: usize,
    pub(crate) mv: Movement,
}

/// The arena of discovered boards; node 0 is the initial board.
pub struct Arena {
    pub(crate) nodes: Vec<SearchNode>,
}

impl Arena {
    /// How many nodes the arena holds.
    pub closed spec fn len(&self) -> nat {
        self.nodes@.len()
    }

    /// The board contents of node `i`.
    pub closed spec fn board_at(&self, i: int) -> Seq<Seq<u8>> {
        self.nodes@[i].board@
    }

    /// The common capacity of every node's board.
    pub closed spec fn cap(&self) -> nat {
        self.nodes@[0].board.cap()
    }

    /// The initial board.
    pub open spec fn root(&self) -> Seq<Seq<u8>> {
        self.board_at(0)
    }

    /// Every node's board is well formed at the common capacity, and every
    /// node but the root derives from an earlier node by a legal pour.
    pub closed spec fn wf(&self) -> bool {
        &&& self.nodes@.len() >= 1
        &&& forall|i: int|
            0 <= i < self.nodes@.len() ==> (#[trigger] self.nodes@[i]).board.inv()
                && self.nodes@[i].board.cap() == self.cap()
        &&& forall|i: int|
            1 <= i < self.nodes@.len() ==> (#[trigger] self.nodes@[i]).parent < i && move_legal(
                self.board_at(self.nodes@[i].parent as int),
                self.cap(),
                self.nodes@[i].mv,
            ) && self.board_at(i) == apply_move(
                self.board_at(self.nodes@[i].parent as int),
                self.cap(),
                self.nodes@[i].mv,
            )
    }

    /// The movements along the parent chain of node `i`, in replay order.
    pub closed spec fn node_moves(&self, i: int) -> Seq<Movement>
        decreases i,
    {
        if i <= 0 || self.nodes@[i].parent >= i {
            Seq::empty()
        } else {
            self.node_moves(self.nodes@[i].parent as int).push(self.nodes@[i].mv)
        }
    }

    /// The movements of a node's parent chain replay from the root exactly
    /// to that node's board.
    pub proof fn lemma_node_path(&self, i: int)
        requires
            self.wf(),
            0 <= i < self.len(),
        ensures
            replay_ok(self.root(), self.cap(), self.node_moves(i)),
            replay(self.root(), self.cap(), self.node_moves(i)) == self.board_at(i),
        decreases i,
    {
        if i > 0 {
            let p = self.nodes@[i].parent as int;
            self.lemma_node_path(p);
            lemma_replay_snoc(self.root(), self.cap(), self.node_moves(p), self.nodes@[i].mv);
        }
    }

    /// A fresh arena holding only the initial board.
    pub fn new(root: Board) -> (r: Arena)
        requires
            root.inv(),
        ensures
            r.wf(),
            r.len() == 1,
            r.root() == root@,
            r.cap() == root.cap(),
    {
        let mut nodes: Vec<SearchNode> = Vec::new();
        nodes.push(SearchNode { board: root, parent: 0, mv: Movement { from: 0, to: 0, amount: 0 } });
        Arena { nodes }
    }

    /// How many nodes the arena holds.
    pub fn node_count(&self) -> (r: usize)
        ensures
            r == self.len(),
    {
        self.nodes.len()
    }

    /// The board of node `i`.
    pub fn board_ref(&self, i: usize) -> (r: &Board)
        requires
            self.wf(),
            i < self.len(),
        ensures
            r@ == self.board_at(i as int),
            r.inv(),
            r.cap() == self.cap(),
    {
        &self.nodes[i].board
    }

    /// Records a board derived from node `parent` by the legal movement `m`.
    pub fn push_child(&mut self, parent: usize, m: Movement, child: Board) -> (idx: usize)
        requires
            old(self).wf(),
            parent < old(self).len(),
            child.inv(),
            child.cap() == old(self).cap(),
            move_legal(old(self).board_at(parent as int), old(self).cap(), m),
            child@ == apply_move(old(self).board_at(parent as int), old(self).cap(), m),
        ensures
            final(self).wf(),
            final(self).len() == old(self).len() + 1,
            idx == old(self).len(),
            final(self).cap() == old(self).cap(),
            final(self).board_at(idx as int) == child@,
            forall|i: int|
                0 <= i < old(self).len() ==> final(self).board_at(i) == old(self).board_at(i),
            final(self).root() == old(self).root(),
    {
        let idx = self.nodes.len();
        self.nodes.push(SearchNode { board: child, parent, mv: m });
        proof {
            assert(forall|i: int|
                0 <= i < old(self).nodes@.len() ==> self.nodes@[i] == old(self).nodes@[i]);
        }
        idx
    }

    /// Whether some node already holds this board (at the same capacity).
    pub fn contains_board(&self, b: &Board) -> (r: bool)
        requires
            self.wf(),
            b.inv(),
        ensures
            r <==> exists|i: int|
                0 <= i < self.len() && self.board_at(i) == b@ && self.cap() == b.cap(),
    {
        let mut i: usize = 0;
        while i < self.nodes.len()
            invariant
                i <= self.len(),
                forall|j: int| 0 <= j < i ==> !(self.board_at(j) == b@ && self.cap() == b.cap()),
            decreases self.len() - i,
        {
            if boards_equal(&self.nodes[i].board, b) {
                assert(self.board_at(i as int) == b@ && self.cap() == b.cap());
                return true;
            }
            i += 1;
        }
        false
    }

    /// The ordered movement list that leads from the root to node `i`,
    /// oldest move first: the replay of the parent chain.
    pub fn extract_movements(&self, i: usize) -> (r: Vec<Movement>)
        requires
            self.wf(),
            i < self.len(),
        ensures
            r@ == self.node_moves(i as int),
            replay_ok(self.root(), self.cap(), r@),
            replay(self.root(), self.cap(), r@) == self.board_at(i as int),
        decreases i,
    {
        proof {
            self.lemma_node_path(i as int);
        }
        if i == 0 {
            Vec::new()
        } else {
            let parent = self.nodes[i].parent;
            let mut v = self.extract_movements(parent);
            let node = &self.nodes[i];
            v.push(node.mv);
            v
        }
    }
}

} // verus!
