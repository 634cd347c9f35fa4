//! The search strategies: greedy pre-optimization, iterative-deepening A*
//! with a transposition table, heuristic best-first bounded breadth search,
//! and beam search.
//!
//! Every strategy returns `Some` only with a movement sequence that replays
//! legally from the initial board to a solved board, and returns the empty
//! sequence when the initial board is already solved. Exploration order,
//! pruning and budgets are heuristic choices: `None` promises nothing beyond
//! that.

use vstd::prelude::*;
use vstd::seq_lib::group_to_multiset_ensures;

use crate::arena::Arena;
use crate::board::Board;
use crate::board::boards_equal;
use crate::heuristic::calculate_heuristic;
use crate::heuristic::heuristic_score;
use crate::laws::lemma_replay_snoc;
use crate::laws::lemma_solved_no_pour_into_empty;
use crate::model::Movement;
use crate::model::board_solved;
use crate::model::move_legal;
use crate::model::pour_amount;
use crate::model::pourable;
use crate::model::replay;
use crate::model::replay_ok;
use crate::moves::assign_empty_bottles_to_colors;
use crate::moves::calculate_move_priority_with_assignments;
use crate::moves::find_shortcut_move;
use crate::moves::generate_sorted_moves_with_assignments;
use crate::moves::list_empty_bottles;
use crate::moves::move_priority_with;

verus! {

/// Most nodes one bound iteration of the depth-first search may visit. The
/// caps keep every strategy's cost bounded; the classic algorithm has no
/// such bound, so running out is treated as strategy failure.
pub const IDA_NODE_BUDGET: u64 = 1_000_000;

/// Most bound iterations the iterative deepening runs.
pub const IDA_MAX_ITERATIONS: usize = 100;

/// Most boards the bounded breadth-first search expands.
pub const BFS_MAX_EXPANSIONS: usize = 100_000;

/// Queue length that triggers truncation in the bounded breadth-first
/// search.
pub const BFS_QUEUE_LIMIT: usize = 10_000;

/// How many of the oldest queue entries a truncation keeps.
pub const BFS_QUEUE_KEPT: usize = 5_000;

/// Most rounds the beam search runs.
pub const BEAM_MAX_ROUNDS: usize = 10_000;

/// Most moves the greedy pre-optimization applies.
pub const GREEDY_MAX_MOVES: usize = 10;

/// The recorded cost of the first entry whose key is the given board, if
/// any.
spec fn table_lookup(keys: Seq<Board>, vals: Seq<i64>, bs: Seq<Seq<u8>>, cap: nat) -> Option<i64>
    decreases keys.len(),
{
    if keys.len() == 0 {
        None
    } else if keys[0]@ == bs && keys[0].cap() == cap {
        Some(vals[0])
    } else {
        table_lookup(keys.skip(1), vals.skip(1), bs, cap)
    }
}

/// A per-iteration transposition table: board contents to the best cost seen
/// for them. Lookups are specified so that the pruning they steer can be
/// stated; what `set` leaves for later lookups is not relied on.
struct TransTable {
    keys: Vec<Board>,
    vals: Vec<i64>,
}

impl TransTable {
    spec fn wf(&self) -> bool {
        &&& self.keys@.len() == self.vals@.len()
        &&& forall|i: int| 0 <= i < self.keys@.len() ==> (#[trigger] self.keys@[i]).inv()
    }

    /// The cost recorded for this board at this capacity, if any.
    spec fn lookup(&self, bs: Seq<Seq<u8>>, cap: nat) -> Option<i64> {
        table_lookup(self.keys@, self.vals@, bs, cap)
    }

    fn new() -> (r: TransTable)
        ensures
            r.wf(),
    {
        TransTable { keys: Vec::new(), vals: Vec::new() }
    }

    fn get(&self, b: &Board) -> (r: Option<i64>)
        requires
            self.wf(),
            b.inv(),
        ensures
            r == self.lookup(b@, b.cap()),
    {
        proof {
            assert(self.keys@.skip(0) =~= self.keys@);
            assert(self.vals@.skip(0) =~= self.vals@);
        }
        let mut i: usize = 0;
        while i < self.keys.len()
            invariant
                i <= self.keys@.len(),
                self.wf(),
                b.inv(),
                self.lookup(b@, b.cap()) == table_lookup(
                    self.keys@.skip(i as int),
                    self.vals@.skip(i as int),
                    b@,
                    b.cap(),
                ),
            decreases self.keys@.len() - i,
        {
            proof {
                assert(self.keys@.skip(i as int)[0] == self.keys@[i as int]);
                assert(self.vals@.skip(i as int)[0] == self.vals@[i as int]);
                assert(self.keys@.skip(i as int).skip(1) =~= self.keys@.skip(i + 1));
                assert(self.vals@.skip(i as int).skip(1) =~= self.vals@.skip(i + 1));
            }
            if boards_equal(&self.keys[i], b) {
                return Some(self.vals[i]);
            }
            i += 1;
        }
        proof {
            assert(self.keys@.skip(self.keys@.len() as int) =~= Seq::<Board>::empty());
        }
        None
    }

    fn set(&mut self, b: &Board, v: i64)
        requires
            old(self).wf(),
            b.inv(),
        ensures
            final(self).wf(),
    {
        let mut i: usize = 0;
        while i < self.keys.len()
            invariant
                i <= self.keys@.len(),
                self.wf(),
            decreases self.keys@.len() - i,
        {
            if boards_equal(&self.keys[i], b) {
                self.vals.set(i, v);
                return;
            }
            i += 1;
        }
        self.keys.push(b.duplicate());
        self.vals.push(v);
    }
}

/// Whether some board on the current depth-first path equals `b`.
fn path_contains_board(arena: &Arena, path: &Vec<usize>, b: &Board) -> (r: bool)
    requires
        arena.wf(),
        b.inv(),
        forall|i: int| 0 <= i < path@.len() ==> (#[trigger] path@[i]) < arena.len(),
{
    let mut i: usize = 0;
    while i < path.len()
        invariant
            i <= path@.len(),
        decreases path@.len() - i,
    {
        if boards_equal(arena.board_ref(path[i]), b) {
            return true;
        }
        i += 1;
    }
    false
}

/// What one bound iteration of the depth-first search reports.
enum DfsOutcome {
    /// A solved board was reached: its arena node.
    Goal(usize),
    /// The subtree was exhausted: the minimum cost among pruned branches
    /// (`i64::MAX` when nothing was pruned).
    Exhausted(i64),
    /// The node budget ran out.
    OutOfBudget,
}

/// One node of the cost-bounded depth-first search of iterative-deepening
/// A*. When `g` plus the node's heuristic exceeds the bound, the branch is
/// pruned with exactly that cost (it feeds the next iteration's bound) and
/// nothing is touched; a solved node reports the goal untouched; a
/// transposition hit whose recorded cost is at most `g` is pruned
/// immediately as dominated, with infinite cost and nothing touched.
/// Otherwise the node is recorded in the table and expanded: the shortcut
/// move first, then the priority-sorted moves, skipping boards already on
/// the current path.
fn ida_dfs(
    arena: &mut Arena,
    path: &mut Vec<usize>,
    tt: &mut TransTable,
    node: usize,
    g: i64,
    bound: i64,
    budget: u64,
) -> (r: (DfsOutcome, u64))
    requires
        old(arena).wf(),
        old(tt).wf(),
        node < old(arena).len(),
        budget >= 1,
        g >= 0,
        g + 10 * budget <= 10_000_000,
        forall|i: int| 0 <= i < old(path)@.len() ==> (#[trigger] old(path)@[i]) < old(arena).len(),
    ensures
        final(arena).wf(),
        final(tt).wf(),
        final(arena).len() >= old(arena).len(),
        final(arena).cap() == old(arena).cap(),
        final(arena).root() == old(arena).root(),
        forall|i: int|
            0 <= i < old(arena).len() ==> final(arena).board_at(i) == old(arena).board_at(i),
        forall|i: int|
            0 <= i < final(path)@.len() ==> (#[trigger] final(path)@[i]) < final(arena).len(),
        r.1 <= budget - 1,
        r.0 matches DfsOutcome::Goal(gi) ==> gi < final(arena).len() && board_solved(
            final(arena).board_at(gi as int),
        ),
        // pruned by the bound: the cost reported is exactly g plus the
        // node's heuristic, and nothing is modified
        g + heuristic_score(old(arena).board_at(node as int), old(arena).cap()) > bound ==> ({
            &&& (r.0 matches DfsOutcome::Exhausted(c) && c == g + heuristic_score(
                old(arena).board_at(node as int),
                old(arena).cap(),
            ))
            &&& *final(arena) == *old(arena)
            &&& final(path)@ == old(path)@
            &&& *final(tt) == *old(tt)
        }),
        // a solved node within the bound reports itself as the goal,
        // untouched
        (g + heuristic_score(old(arena).board_at(node as int), old(arena).cap()) <= bound
            && board_solved(old(arena).board_at(node as int))) ==> ({
            &&& r.0 == DfsOutcome::Goal(node)
            &&& *final(arena) == *old(arena)
            &&& final(path)@ == old(path)@
            &&& *final(tt) == *old(tt)
        }),
        // a revisit whose recorded cost is at most g is pruned immediately
        // as dominated: infinite cost, nothing modified
        (g + heuristic_score(old(arena).board_at(node as int), old(arena).cap()) <= bound
            && !board_solved(old(arena).board_at(node as int)) && (old(tt).lookup(
            old(arena).board_at(node as int),
            old(arena).cap(),
        ) matches Some(prev) && prev <= g)) ==> ({
            &&& r.0 == DfsOutcome::Exhausted(i64::MAX)
            &&& *final(arena) == *old(arena)
            &&& final(path)@ == old(path)@
            &&& *final(tt) == *old(tt)
        }),
    decreases budget,
{
    let mut bud: u64 = budget - 1;
    let h = calculate_heuristic(arena.board_ref(node));
    let f_cost = g + h;
    if f_cost > bound {
        return (DfsOutcome::Exhausted(f_cost), bud);
    }
    if arena.board_ref(node).is_solved_board() {
        return (DfsOutcome::Goal(node), bud);
    }
    let previous = tt.get(arena.board_ref(node));
    if let Some(prev) = previous {
        if prev <= g {
            return (DfsOutcome::Exhausted(i64::MAX), bud);
        }
    }
    tt.set(arena.board_ref(node), g);
    // the shortcut move is tried first; its pruned cost is not folded in
    if let Some(m) = find_shortcut_move(arena.board_ref(node)) {
        let child = arena.board_ref(node).apply_pour(m);
        if !path_contains_board(arena, path, &child) {
            if bud == 0 {
                return (DfsOutcome::OutOfBudget, 0);
            }
            let ci = arena.push_child(node, m, child);
            path.push(ci);
            let (res, rem) = ida_dfs(arena, path, tt, ci, g + 10, bound, bud);
            bud = rem;
            match res {
                DfsOutcome::Goal(gi) => {
                    return (DfsOutcome::Goal(gi), bud);
                },
                DfsOutcome::OutOfBudget => {
                    return (DfsOutcome::OutOfBudget, 0);
                },
                DfsOutcome::Exhausted(_) => {},
            }
            let _ = path.pop();
        }
    }
    let moves = generate_sorted_moves_with_assignments(arena.board_ref(node));
    let mut min_cost: i64 = i64::MAX;
    let mut k: usize = 0;
    while k < moves.len()
        invariant
            arena.wf(),
            tt.wf(),
            node < old(arena).len(),
            arena.len() >= old(arena).len(),
            arena.cap() == old(arena).cap(),
            arena.root() == old(arena).root(),
            forall|i: int|
                0 <= i < old(arena).len() ==> arena.board_at(i) == old(arena).board_at(i),
            forall|i: int| 0 <= i < path@.len() ==> (#[trigger] path@[i]) < arena.len(),
            forall|j: int|
                0 <= j < moves@.len() ==> move_legal(
                    arena.board_at(node as int),
                    arena.cap(),
                    #[trigger] moves@[j],
                ),
            bud <= budget - 1,
            g >= 0,
            g + 10 * budget <= 10_000_000,
            k <= moves@.len(),
        decreases moves@.len() - k,
    {
        let m = moves[k];
        let child = arena.board_ref(node).apply_pour(m);
        if !path_contains_board(arena, path, &child) {
            if bud == 0 {
                return (DfsOutcome::OutOfBudget, 0);
            }
            let ci = arena.push_child(node, m, child);
            path.push(ci);
            let (res, rem) = ida_dfs(arena, path, tt, ci, g + 10, bound, bud);
            bud = rem;
            match res {
                DfsOutcome::Goal(gi) => {
                    return (DfsOutcome::Goal(gi), bud);
                },
                DfsOutcome::Exhausted(c) => {
                    if c < min_cost {
                        min_cost = c;
                    }
                },
                DfsOutcome::OutOfBudget => {
                    return (DfsOutcome::OutOfBudget, 0);
                },
            }
            let _ = path.pop();
        }
        k += 1;
    }
    (DfsOutcome::Exhausted(min_cost), bud)
}

/// Iterative-deepening A*: the bound starts at the heuristic of the initial
/// board; each failed iteration raises it to the minimum pruned cost. A
/// returned sequence replays legally from the initial board to a solved
/// board; an already-solved board yields the empty sequence. Fails in three
/// cases: an iteration's minimum pruned cost is infinite (the move graph is
/// exhausted), `IDA_MAX_ITERATIONS` bound iterations pass without a goal,
/// or — a cap this implementation adds on top of those two — an iteration
/// exhausts its `IDA_NODE_BUDGET` of visited nodes.
pub fn ida_star_search(board: &Board) -> (r: Option<Vec<Movement>>)
    requires
        board.inv(),
    ensures
        r matches Some(ms) ==> replay_ok(board@, board.cap(), ms@) && board_solved(
            replay(board@, board.cap(), ms@),
        ),
        board_solved(board@) ==> (r matches Some(ms) && ms@.len() == 0),
{
    if board.is_solved_board() {
        let empty: Vec<Movement> = Vec::new();
        proof {
            assert(replay_ok(board@, board.cap(), empty@));
            assert(replay(board@, board.cap(), empty@) == board@);
        }
        return Some(empty);
    }
    let mut arena = Arena::new(board.duplicate());
    let mut bound = calculate_heuristic(board);
    let mut it: usize = 0;
    while it < IDA_MAX_ITERATIONS
        invariant
            arena.wf(),
            arena.len() >= 1,
            arena.root() == board@,
            arena.cap() == board.cap(),
            !board_solved(board@),
        decreases IDA_MAX_ITERATIONS - it,
    {
        let mut path: Vec<usize> = Vec::new();
        path.push(0);
        let mut tt = TransTable::new();
        let (res, _rem) = ida_dfs(&mut arena, &mut path, &mut tt, 0, 0, bound, IDA_NODE_BUDGET);
        match res {
            DfsOutcome::Goal(gi) => {
                let ms = arena.extract_movements(gi);
                return Some(ms);
            },
            DfsOutcome::Exhausted(c) => {
                if c == i64::MAX {
                    return None;
                }
                bound = c;
            },
            DfsOutcome::OutOfBudget => {
                return None;
            },
        }
        it += 1;
    }
    None
}

/// An arena node with the heuristic of its board, for best-first ordering.
struct ScoredIdx {
    idx: usize,
    h: i64,
}

/// Sorts scored nodes by ascending heuristic (insertion sort, stable: ties
/// keep their generation order).
fn sort_indices_asc(v: Vec<ScoredIdx>) -> (r: Vec<ScoredIdx>)
    ensures
        r@.to_multiset() == v@.to_multiset(),
        r@.len() == v@.len(),
        forall|i: int, j: int| 0 <= i < j < r@.len() ==> r@[i].h <= r@[j].h,
{
    proof {
        broadcast use group_to_multiset_ensures;

    }
    let mut r = v;
    let mut i: usize = 1;
    while i < r.len()
        invariant
            1 <= i,
            r@.len() == v@.len(),
            r@.to_multiset() == v@.to_multiset(),
            forall|a: int, b: int| 0 <= a < b < i && b < r@.len() ==> r@[a].h <= r@[b].h,
        decreases r@.len() - i,
    {
        proof {
            broadcast use group_to_multiset_ensures;

        }
        let ghost before = r@;
        let x = r.remove(i);
        let mut j: usize = i;
        while j > 0 && r[j - 1].h > x.h
            invariant
                j <= i,
                i < before.len(),
                r@ == before.remove(i as int),
                forall|k: int| j <= k < i ==> r@[k].h > x.h,
            decreases j,
        {
            j -= 1;
        }
        proof {
            assert(forall|k: int| 0 <= k < i ==> r@[k] == before[k]);
        }
        r.insert(j, x);
        proof {
            assert(r@.to_multiset() == v@.to_multiset());
            assert forall|a: int, b: int|
                0 <= a < b < i + 1 && b < r@.len() implies r@[a].h <= r@[b].h by {
                assert(r@ == before.remove(i as int).insert(j as int, x));
            }
        }
        i += 1;
    }
    r
}

/// Every scored node of a multiset-equal list points into the arena.
proof fn lemma_scored_elems_bounded(a: Seq<ScoredIdx>, b: Seq<ScoredIdx>, bound: int)
    requires
        a.to_multiset() == b.to_multiset(),
        forall|k: int| 0 <= k < b.len() ==> (#[trigger] b[k]).idx < bound,
    ensures
        forall|k: int| 0 <= k < a.len() ==> (#[trigger] a[k]).idx < bound,
{
    broadcast use group_to_multiset_ensures;

    assert forall|k: int| 0 <= k < a.len() implies (#[trigger] a[k]).idx < bound by {
        let x = a[k];
        assert(a.to_multiset().count(x) > 0);
        assert(b.contains(x));
        let j = choose|j: int| 0 <= j < b.len() && b[j] == x;
        assert(b[j].idx < bound);
    }
}

/// Heuristic best-first bounded breadth search: a global queue expanded in
/// breadth order, successors of each board sorted by ascending heuristic
/// before they are appended, the whole queue truncated when it outgrows its
/// limit, and a hard expansion cap. Returns a goal path or fails; the best
/// unsolved board seen is discarded, never returned.
pub fn enhanced_bfs_search(board: &Board) -> (r: Option<Vec<Movement>>)
    requires
        board.inv(),
    ensures
        r matches Some(ms) ==> replay_ok(board@, board.cap(), ms@) && board_solved(
            replay(board@, board.cap(), ms@),
        ),
        board_solved(board@) ==> (r matches Some(ms) && ms@.len() == 0),
{
    if board.is_solved_board() {
        let empty: Vec<Movement> = Vec::new();
        return Some(empty);
    }
    let mut arena = Arena::new(board.duplicate());
    let mut tt = TransTable::new();
    let mut queue: Vec<usize> = Vec::new();
    let mut head: usize = 0;
    queue.push(0);
    let mut steps: usize = 0;
    while head < queue.len() && steps < BFS_MAX_EXPANSIONS
        invariant
            arena.wf(),
            tt.wf(),
            arena.root() == board@,
            arena.cap() == board.cap(),
            head <= queue@.len(),
            forall|i: int| 0 <= i < queue@.len() ==> (#[trigger] queue@[i]) < arena.len(),
            steps <= BFS_MAX_EXPANSIONS,
        decreases BFS_MAX_EXPANSIONS - steps,
    {
        steps += 1;
        let node = queue[head];
        head += 1;
        if arena.board_ref(node).is_solved_board() {
            let ms = arena.extract_movements(node);
            return Some(ms);
        }
        let cur_depth = match tt.get(arena.board_ref(node)) {
            Some(d) => d,
            None => 0,
        };
        let next_depth = if cur_depth < i64::MAX {
            cur_depth + 1
        } else {
            cur_depth
        };
        let moves = generate_sorted_moves_with_assignments(arena.board_ref(node));
        let mut fresh: Vec<ScoredIdx> = Vec::new();
        let mut k: usize = 0;
        while k < moves.len()
            invariant
                arena.wf(),
                tt.wf(),
                arena.root() == board@,
                arena.cap() == board.cap(),
                node < arena.len(),
                k <= moves@.len(),
                forall|i: int| 0 <= i < queue@.len() ==> (#[trigger] queue@[i]) < arena.len(),
                forall|i: int| 0 <= i < fresh@.len() ==> (#[trigger] fresh@[i]).idx < arena.len(),
                forall|j: int|
                    0 <= j < moves@.len() ==> move_legal(
                        arena.board_at(node as int),
                        arena.cap(),
                        #[trigger] moves@[j],
                    ),
            decreases moves@.len() - k,
        {
            let m = moves[k];
            let child = arena.board_ref(node).apply_pour(m);
            if !arena.contains_board(&child) {
                let h = calculate_heuristic(&child);
                let ci = arena.push_child(node, m, child);
                tt.set(arena.board_ref(ci), next_depth);
                fresh.push(ScoredIdx { idx: ci, h });
            }
            k += 1;
        }
        let sorted = sort_indices_asc(fresh);
        proof {
            lemma_scored_elems_bounded(sorted@, fresh@, arena.len() as int);
        }
        let mut z: usize = 0;
        while z < sorted.len()
            invariant
                z <= sorted@.len(),
                head <= queue@.len(),
                forall|i: int| 0 <= i < sorted@.len() ==> (#[trigger] sorted@[i]).idx < arena.len(),
                forall|i: int| 0 <= i < queue@.len() ==> (#[trigger] queue@[i]) < arena.len(),
            decreases sorted@.len() - z,
        {
            queue.push(sorted[z].idx);
            z += 1;
        }
        // bound the queue: keep the oldest entries
        if queue.len() - head > BFS_QUEUE_LIMIT {
            let mut kept: Vec<usize> = Vec::new();
            let mut w: usize = head;
            while w < head + BFS_QUEUE_KEPT && w < queue.len()
                invariant
                    head <= w,
                    forall|i: int| 0 <= i < queue@.len() ==> (#[trigger] queue@[i]) < arena.len(),
                    forall|i: int| 0 <= i < kept@.len() ==> (#[trigger] kept@[i]) < arena.len(),
                decreases queue@.len() - w,
            {
                kept.push(queue[w]);
                w += 1;
            }
            queue = kept;
            head = 0;
        }
    }
    None
}

/// Beam search: a bounded set of candidate boards; each round returns any
/// solved member, else expands every member, drops boards seen before, ranks
/// the new successors by ascending heuristic and keeps the best
/// `beam_width`.
pub fn beam_search(board: &Board, beam_width: usize) -> (r: Option<Vec<Movement>>)
    requires
        board.inv(),
    ensures
        r matches Some(ms) ==> replay_ok(board@, board.cap(), ms@) && board_solved(
            replay(board@, board.cap(), ms@),
        ),
        board_solved(board@) ==> (r matches Some(ms) && ms@.len() == 0),
{
    if board.is_solved_board() {
        let empty: Vec<Movement> = Vec::new();
        return Some(empty);
    }
    let mut arena = Arena::new(board.duplicate());
    let mut beam: Vec<usize> = Vec::new();
    beam.push(0);
    let mut round: usize = 0;
    while round < BEAM_MAX_ROUNDS
        invariant
            arena.wf(),
            arena.root() == board@,
            arena.cap() == board.cap(),
            forall|i: int| 0 <= i < beam@.len() ==> (#[trigger] beam@[i]) < arena.len(),
        decreases BEAM_MAX_ROUNDS - round,
    {
        if beam.len() == 0 {
            return None;
        }
        let mut i: usize = 0;
        while i < beam.len()
            invariant
                i <= beam@.len(),
                forall|j: int| 0 <= j < beam@.len() ==> (#[trigger] beam@[j]) < arena.len(),
            decreases beam@.len() - i,
        {
            if arena.board_ref(beam[i]).is_solved_board() {
                let ms = arena.extract_movements(beam[i]);
                return Some(ms);
            }
            i += 1;
        }
        let mut successors: Vec<ScoredIdx> = Vec::new();
        let mut b: usize = 0;
        while b < beam.len()
            invariant
                arena.wf(),
                arena.root() == board@,
                arena.cap() == board.cap(),
                b <= beam@.len(),
                forall|j: int| 0 <= j < beam@.len() ==> (#[trigger] beam@[j]) < arena.len(),
                forall|j: int|
                    0 <= j < successors@.len() ==> (#[trigger] successors@[j]).idx < arena.len(),
            decreases beam@.len() - b,
        {
            let node = beam[b];
            let moves = generate_sorted_moves_with_assignments(arena.board_ref(node));
            let mut k: usize = 0;
            while k < moves.len()
                invariant
                    arena.wf(),
                    arena.root() == board@,
                    arena.cap() == board.cap(),
                    node < arena.len(),
                    k <= moves@.len(),
                    forall|j: int| 0 <= j < beam@.len() ==> (#[trigger] beam@[j]) < arena.len(),
                    forall|j: int|
                        0 <= j < successors@.len() ==> (#[trigger] successors@[j]).idx
                            < arena.len(),
                    forall|j: int|
                        0 <= j < moves@.len() ==> move_legal(
                            arena.board_at(node as int),
                            arena.cap(),
                            #[trigger] moves@[j],
                        ),
                decreases moves@.len() - k,
            {
                let m = moves[k];
                let child = arena.board_ref(node).apply_pour(m);
                if !arena.contains_board(&child) {
                    let h = calculate_heuristic(&child);
                    let ci = arena.push_child(node, m, child);
                    successors.push(ScoredIdx { idx: ci, h });
                }
                k += 1;
            }
            b += 1;
        }
        let sorted = sort_indices_asc(successors);
        proof {
            lemma_scored_elems_bounded(sorted@, successors@, arena.len() as int);
        }
        let mut next_beam: Vec<usize> = Vec::new();
        let mut z: usize = 0;
        while z < sorted.len() && z < beam_width
            invariant
                z <= sorted@.len(),
                forall|i: int| 0 <= i < sorted@.len() ==> (#[trigger] sorted@[i]).idx < arena.len(),
                forall|i: int| 0 <= i < next_beam@.len() ==> (#[trigger] next_beam@[i])
                    < arena.len(),
            decreases sorted@.len() - z,
        {
            next_beam.push(sorted[z].idx);
            z += 1;
        }
        beam = next_beam;
        round += 1;
    }
    None
}

/// The priority of the best candidate so far; no candidate ranks as -1.0
/// (scaled: -10), so only a strictly better pour is ever picked up.
pub open spec fn acc_priority(acc: Option<(Movement, int)>) -> int {
    match acc {
        None => -10,
        Some((m, p)) => p,
    }
}

/// One step of the greedy scan: the pour from `f` to `t` replaces the best
/// candidate so far when it is legal, its destination is empty, and its
/// assignment-aware priority is strictly higher.
pub open spec fn scan_step(
    bs: Seq<Seq<u8>>,
    cap: nat,
    asg: Seq<u8>,
    acc: Option<(Movement, int)>,
    f: int,
    t: int,
) -> Option<(Movement, int)> {
    let a = pour_amount(bs, cap, f, t);
    let p = move_priority_with(bs, cap, asg, f, t, a);
    if a > 0 && bs[t].len() == 0 && p > acc_priority(acc) {
        Some((Movement { from: f as usize, to: t as usize, amount: a as usize }, p))
    } else {
        acc
    }
}

/// The greedy scan over source `f` and the first `t` destinations.
pub open spec fn best_in_row(
    bs: Seq<Seq<u8>>,
    cap: nat,
    asg: Seq<u8>,
    f: int,
    t: int,
    acc: Option<(Movement, int)>,
) -> Option<(Movement, int)>
    decreases t,
{
    if t <= 0 {
        acc
    } else {
        scan_step(bs, cap, asg, best_in_row(bs, cap, asg, f, t - 1, acc), f, t - 1)
    }
}

/// The best pour into an empty bottle among the first `f` sources, scanned
/// in bottle-index order with strict improvement (the earliest maximum
/// wins).
pub open spec fn best_empty_move(bs: Seq<Seq<u8>>, cap: nat, asg: Seq<u8>, f: int) -> Option<
    (Movement, int),
>
    decreases f,
{
    if f <= 0 {
        None
    } else {
        best_in_row(bs, cap, asg, f - 1, bs.len() as int, best_empty_move(bs, cap, asg, f - 1))
    }
}

/// The moves the greedy pre-optimization applies: while fuel remains, the
/// best pour into an empty bottle, if it ranks at least 1.0 (scaled: 10),
/// stopping early when no empty bottle remains.
pub open spec fn greedy_moves(bs: Seq<Seq<u8>>, cap: nat, asg: Seq<u8>, fuel: nat) -> Seq<Movement>
    decreases fuel,
{
    if fuel == 0 {
        Seq::empty()
    } else {
        match best_empty_move(bs, cap, asg, bs.len() as int) {
            None => Seq::empty(),
            Some((m, p)) => {
                if p < 10 {
                    Seq::empty()
                } else {
                    let bs2 = crate::model::apply_move(bs, cap, m);
                    seq![m] + (if crate::moves::empty_indices(bs2).len() == 0 {
                        Seq::<Movement>::empty()
                    } else {
                        greedy_moves(bs2, cap, asg, (fuel - 1) as nat)
                    })
                }
            },
        }
    }
}

/// The best candidate held by the scan, as the specification sees it.
pub open spec fn acc_of(best: Option<Movement>, pri: i64) -> Option<(Movement, int)> {
    match best {
        None => None,
        Some(m) => Some((m, pri as int)),
    }
}

/// Greedy pre-optimization: up to `GREEDY_MAX_MOVES` times, finds the
/// highest-priority legal move into a currently empty bottle (assignments
/// fixed from the initial board), applies it when that priority is at least
/// 1.0 (scaled: 10), and stops early when no empty bottle remains or no
/// qualifying move exists. The moves are exactly `greedy_moves` of the
/// initial board under its own assignment; a solved board is returned
/// unchanged.
#[verifier::rlimit(50)]
pub fn optimize_initial_distribution(board: &Board) -> (r: (Board, Vec<Movement>))
    requires
        board.inv(),
    ensures
        r.0.inv(),
        r.0.cap() == board.cap(),
        replay_ok(board@, board.cap(), r.1@),
        replay(board@, board.cap(), r.1@) == r.0@,
        r.1@.len() <= GREEDY_MAX_MOVES,
        forall|k: int|
            0 <= k < r.1@.len() ==> replay(board@, board.cap(), r.1@.take(k))[r.1@[k].to
                as int].len() == 0,
        r.1@ == greedy_moves(
            board@,
            board.cap(),
            crate::moves::assignment_of(board@, board.cap()),
            GREEDY_MAX_MOVES as nat,
        ),
        board_solved(board@) ==> (r.1@.len() == 0 && r.0@ == board@),
{
    proof {
        board.lemma_inv_ok();
    }
    let asg = assign_empty_bottles_to_colors(board);
    proof {
        assert(Seq::<Movement>::empty() + greedy_moves(
            board@,
            board.cap(),
            asg@,
            GREEDY_MAX_MOVES as nat,
        ) =~= greedy_moves(board@, board.cap(), asg@, GREEDY_MAX_MOVES as nat));
    }
    let mut cur: Board = board.duplicate();
    let mut prefix: Vec<Movement> = Vec::new();
    let mut made: usize = 0;
    let mut go = true;
    while go && made < GREEDY_MAX_MOVES
        invariant
            cur.inv(),
            cur.cap() == board.cap(),
            cur@.len() == board@.len(),
            asg@.len() == board@.len(),
            made <= GREEDY_MAX_MOVES,
            prefix@.len() == made,
            replay_ok(board@, board.cap(), prefix@),
            replay(board@, board.cap(), prefix@) == cur@,
            forall|k: int|
                0 <= k < prefix@.len() ==> replay(board@, board.cap(), prefix@.take(k))[prefix@[k].to
                    as int].len() == 0,
            asg@ == crate::moves::assignment_of(board@, board.cap()),
            go ==> greedy_moves(board@, board.cap(), asg@, GREEDY_MAX_MOVES as nat) == prefix@
                + greedy_moves(cur@, board.cap(), asg@, (GREEDY_MAX_MOVES - made) as nat),
            !go ==> greedy_moves(board@, board.cap(), asg@, GREEDY_MAX_MOVES as nat) == prefix@,
            board_solved(board@) ==> (prefix@.len() == 0 && cur@ == board@),
        decreases GREEDY_MAX_MOVES - made, (if go {
            1int
        } else {
            0int
        }),
    {
        let n = cur.bottle_count();
        let mut best: Option<Movement> = None;
        let mut best_pri: i64 = -10;
        let mut f: usize = 0;
        while f < n
            invariant
                f <= n,
                n == cur@.len(),
                cur.inv(),
                cur.cap() == board.cap(),
                cur@.len() == board@.len(),
                asg@.len() == board@.len(),
                best matches Some(m) ==> move_legal(cur@, cur.cap(), m) && cur@[m.to as int].len()
                    == 0,
                best is None ==> best_pri == -10,
                acc_of(best, best_pri) == best_empty_move(cur@, cur.cap(), asg@, f as int),
                board_solved(cur@) ==> best is None,
            decreases n - f,
        {
            let ghost row_start = acc_of(best, best_pri);
            let mut t: usize = 0;
            while t < n
                invariant
                    t <= n,
                    f < n,
                    n == cur@.len(),
                    cur.inv(),
                    cur.cap() == board.cap(),
                    cur@.len() == board@.len(),
                    asg@.len() == board@.len(),
                    best matches Some(m) ==> move_legal(cur@, cur.cap(), m) && cur@[m.to
                        as int].len() == 0,
                    best is None ==> best_pri == -10,
                    row_start == best_empty_move(cur@, cur.cap(), asg@, f as int),
                    acc_of(best, best_pri) == best_in_row(
                        cur@,
                        cur.cap(),
                        asg@,
                        f as int,
                        t as int,
                        row_start,
                    ),
                    board_solved(cur@) ==> best is None,
                decreases n - t,
            {
                if t != f {
                    let amount = cur.pourable_amount(f, t);
                    if amount > 0 && cur.fill_of(t) == 0 {
                        proof {
                            if board_solved(cur@) {
                                lemma_solved_no_pour_into_empty(
                                    cur@,
                                    cur.cap(),
                                    f as int,
                                    t as int,
                                );
                            }
                            crate::model::lemma_top_run_char(cur@[f as int]);
                        }
                        let pri = calculate_move_priority_with_assignments(
                            &cur,
                            f,
                            t,
                            amount,
                            &asg,
                        );
                        if pri > best_pri {
                            best = Some(Movement { from: f, to: t, amount });
                            best_pri = pri;
                        }
                    }
                }
                proof {
                    if t == f {
                        assert(!pourable(cur@, cur.cap(), f as int, t as int));
                    }
                    assert(acc_of(best, best_pri) == best_in_row(
                        cur@,
                        cur.cap(),
                        asg@,
                        f as int,
                        t + 1,
                        row_start,
                    ));
                }
                t += 1;
            }
            proof {
                assert(acc_of(best, best_pri) == best_empty_move(cur@, cur.cap(), asg@, f + 1));
            }
            f += 1;
        }
        let ghost fuel = (GREEDY_MAX_MOVES - made) as nat;
        proof {
            assert(fuel >= 1);
        }
        match best {
            Some(m) => {
                if best_pri >= 10 {
                    let nb = cur.apply_pour(m);
                    let ghost pre_moves = prefix@;
                    let ghost pre_board = cur@;
                    proof {
                        lemma_replay_snoc(board@, board.cap(), prefix@, m);
                        let p2 = prefix@.push(m);
                        assert forall|k: int|
                            0 <= k < p2.len() implies replay(board@, board.cap(), p2.take(k))[p2[k].to
                            as int].len() == 0 by {
                            if k < prefix@.len() {
                                assert(p2.take(k) =~= prefix@.take(k));
                                assert(p2[k] == prefix@[k]);
                            } else {
                                assert(p2.take(k) =~= prefix@);
                            }
                        }
                    }
                    prefix.push(m);
                    cur = nb;
                    made += 1;
                    let empties = list_empty_bottles(&cur);
                    if empties.len() == 0 {
                        go = false;
                    }
                    proof {
                        let tail: Seq<Movement> = if crate::moves::empty_indices(cur@).len()
                            == 0 {
                            Seq::<Movement>::empty()
                        } else {
                            greedy_moves(cur@, board.cap(), asg@, (fuel - 1) as nat)
                        };
                        assert(best_empty_move(pre_board, board.cap(), asg@, pre_board.len() as int)
                            == Some((m, best_pri as int)));
                        assert(cur@ == crate::model::apply_move(pre_board, board.cap(), m));
                        assert(greedy_moves(pre_board, board.cap(), asg@, fuel) == seq![m] + tail);
                        assert(prefix@ =~= pre_moves + seq![m]);
                        assert(pre_moves + (seq![m] + tail) =~= prefix@ + tail);
                        if go {
                            assert(greedy_moves(board@, board.cap(), asg@, GREEDY_MAX_MOVES as nat)
                                == prefix@ + greedy_moves(
                                cur@,
                                board.cap(),
                                asg@,
                                (GREEDY_MAX_MOVES - made) as nat,
                            ));
                        } else {
                            assert(greedy_moves(board@, board.cap(), asg@, GREEDY_MAX_MOVES as nat)
                                == prefix@ + tail && tail =~= Seq::<Movement>::empty());
                            assert(prefix@ + Seq::<Movement>::empty() =~= prefix@);
                        }
                    }
                } else {
                    go = false;
                    proof {
                        assert(greedy_moves(cur@, board.cap(), asg@, fuel) =~= Seq::<
                            Movement,
                        >::empty());
                        assert(prefix@ + Seq::<Movement>::empty() =~= prefix@);
                    }
                }
            },
            None => {
                go = false;
                proof {
                    assert(greedy_moves(cur@, board.cap(), asg@, fuel) =~= Seq::<
                        Movement,
                    >::empty());
                    assert(prefix@ + Seq::<Movement>::empty() =~= prefix@);
                }
            },
        }
    }
    proof {
        if made >= GREEDY_MAX_MOVES {
            assert(greedy_moves(cur@, board.cap(), asg@, (GREEDY_MAX_MOVES - made) as nat) =~= Seq::<
                Movement,
            >::empty());
            assert(prefix@ + Seq::<Movement>::empty() =~= prefix@);
        }
    }
    (cur, prefix)
}

} // verus!
