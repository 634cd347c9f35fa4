//! The search controller: input validation, the result cache, and the
//! ordered fallback chain over the strategies. The cache maps initial board
//! contents to the movement sequence that solved them and is owned by the
//! `Solver` value, one cache per solver instance.

use vstd::prelude::*;

use crate::board::Board;
use crate::board::boards_equal;
use crate::errors::SolveError;
use crate::laws::lemma_replay_concat;
use crate::model::Movement;
use crate::model::MAX_LEVELS;
use crate::model::MAX_N_OF_BOTTLES;
use crate::model::board_of_rows;
use crate::model::board_solved;
use crate::model::config_ok;
use crate::model::has_legal_move;
use crate::model::lemma_move_legal_bounds;
use crate::model::pour_amount;
use crate::model::replay;
use crate::model::replay_ok;
use crate::model::rows_ok;
use crate::moves::list_empty_bottles;
use crate::search::beam_search;
use crate::search::enhanced_bfs_search;
use crate::search::ida_star_search;
use crate::search::optimize_initial_distribution;

verus! {

/// Width of the beam in the last fallback stage.
pub const BEAM_WIDTH: usize = 1000;

/// A cache entry — board contents, capacity, stored movement sequence — is
/// sound when the sequence replays legally to a solved board, and is empty
/// when the board was already solved.
pub open spec fn entry_sound(e: (Seq<Seq<u8>>, nat, Seq<Movement>)) -> bool {
    &&& replay_ok(e.0, e.1, e.2)
    &&& board_solved(replay(e.0, e.1, e.2))
    &&& (board_solved(e.0) ==> e.2.len() == 0)
}

/// Every cache entry stores a legal, solving sequence for its key board.
pub open spec fn cache_sound(entries: Seq<(Seq<Seq<u8>>, nat, Seq<Movement>)>) -> bool {
    forall|i: int| 0 <= i < entries.len() ==> entry_sound(#[trigger] entries[i])
}

/// The first entry whose key is the given board, if any.
pub open spec fn cache_lookup(
    entries: Seq<(Seq<Seq<u8>>, nat, Seq<Movement>)>,
    bs: Seq<Seq<u8>>,
    cap: nat,
) -> Option<Seq<Movement>>
    decreases entries.len(),
{
    if entries.len() == 0 {
        None
    } else if entries[0].0 == bs && entries[0].1 == cap {
        Some(entries[0].2)
    } else {
        cache_lookup(entries.skip(1), bs, cap)
    }
}

/// How one call to `solve` relates the cache before to the cache after: a
/// success is in the cache afterwards; a call whose board was cached returns
/// the cached sequence and changes nothing; a failure changes nothing.
pub open spec fn solve_cache_post(
    pre: Seq<(Seq<Seq<u8>>, nat, Seq<Movement>)>,
    bs: Seq<Seq<u8>>,
    cap: nat,
    ok: Option<Seq<Movement>>,
    post: Seq<(Seq<Seq<u8>>, nat, Seq<Movement>)>,
) -> bool {
    &&& (ok matches Some(ms) ==> cache_lookup(post, bs, cap) == Some(ms))
    &&& (cache_lookup(pre, bs, cap) matches Some(m0) ==> ok == Some(m0) && post == pre)
    &&& (ok is None ==> post == pre)
}

/// Cache determinism: when a call solves a board and a second call is made
/// with the identical board, the second call returns the identical movement
/// sequence and leaves the cache untouched: a direct cache hit.
pub proof fn lemma_cache_determinism(
    c0: Seq<(Seq<Seq<u8>>, nat, Seq<Movement>)>,
    c1: Seq<(Seq<Seq<u8>>, nat, Seq<Movement>)>,
    c2: Seq<(Seq<Seq<u8>>, nat, Seq<Movement>)>,
    bs: Seq<Seq<u8>>,
    cap: nat,
    m1: Seq<Movement>,
    r2: Option<Seq<Movement>>,
)
    requires
        solve_cache_post(c0, bs, cap, Some(m1), c1),
        solve_cache_post(c1, bs, cap, r2, c2),
    ensures
        r2 == Some(m1),
        c2 == c1,
{
}

/// A looked-up sequence is sound for the board it was looked up with.
proof fn lemma_lookup_sound(
    entries: Seq<(Seq<Seq<u8>>, nat, Seq<Movement>)>,
    bs: Seq<Seq<u8>>,
    cap: nat,
)
    requires
        cache_sound(entries),
        cache_lookup(entries, bs, cap) is Some,
    ensures
        replay_ok(bs, cap, cache_lookup(entries, bs, cap).unwrap()),
        board_solved(replay(bs, cap, cache_lookup(entries, bs, cap).unwrap())),
        board_solved(bs) ==> cache_lookup(entries, bs, cap).unwrap().len() == 0,
    decreases entries.len(),
{
    if entries.len() > 0 {
        if entries[0].0 == bs && entries[0].1 == cap {
            assert(entry_sound(entries[0]));
        } else {
            assert(forall|i: int|
                0 <= i < entries.skip(1).len() ==> entries.skip(1)[i] == entries[i + 1]);
            lemma_lookup_sound(entries.skip(1), bs, cap);
        }
    }
}

/// Appending a new entry makes its key found, when it was not found before.
proof fn lemma_lookup_push(
    entries: Seq<(Seq<Seq<u8>>, nat, Seq<Movement>)>,
    e: (Seq<Seq<u8>>, nat, Seq<Movement>),
)
    requires
        cache_lookup(entries, e.0, e.1) is None,
    ensures
        cache_lookup(entries.push(e), e.0, e.1) == Some(e.2),
    decreases entries.len(),
{
    if entries.len() == 0 {
        assert(entries.push(e)[0] == e);
    } else {
        assert(entries.push(e)[0] == entries[0]);
        assert(entries.push(e).skip(1) =~= entries.skip(1).push(e));
        lemma_lookup_push(entries.skip(1), e);
    }
}

/// A sound, solving sequence for an unsolved board starts with a legal move.
proof fn lemma_sound_result_has_move(bs: Seq<Seq<u8>>, cap: nat, ms: Seq<Movement>)
    requires
        replay_ok(bs, cap, ms),
        board_solved(replay(bs, cap, ms)),
        !board_solved(bs),
    ensures
        has_legal_move(bs, cap),
{
    assert(ms.len() > 0);
    lemma_move_legal_bounds(bs, cap, ms[0]);
    assert(pour_amount(bs, cap, ms[0].from as int, ms[0].to as int) > 0);
}

/// Element-for-element copy of a movement list.
fn copy_movements(v: &Vec<Movement>) -> (r: Vec<Movement>)
    ensures
        r@ == v@,
{
    let mut r: Vec<Movement> = Vec::new();
    let mut i: usize = 0;
    while i < v.len()
        invariant
            i <= v@.len(),
            r@ == v@.take(i as int),
        decreases v@.len() - i,
    {
        r.push(v[i]);
        proof {
            assert(v@.take(i + 1) =~= v@.take(i as int).push(v@[i as int]));
        }
        i += 1;
    }
    proof {
        assert(v@.take(v@.len() as int) =~= v@);
    }
    r
}

/// The solver: the fallback chain of strategies and the result cache it
/// owns. One cache per solver instance; guard the instance for concurrent
/// use.
pub struct Solver {
    keys: Vec<Board>,
    vals: Vec<Vec<Movement>>,
}

impl View for Solver {
    type V = Seq<(Seq<Seq<u8>>, nat, Seq<Movement>)>;

    closed spec fn view(&self) -> Seq<(Seq<Seq<u8>>, nat, Seq<Movement>)> {
        Seq::new(
            self.keys@.len(),
            |i: int| (self.keys@[i]@, self.keys@[i].cap(), self.vals@[i]@),
        )
    }
}

impl Solver {
    /// The cache holds one sound solution per stored board.
    pub closed spec fn wf(&self) -> bool {
        &&& self.keys@.len() == self.vals@.len()
        &&& forall|i: int| 0 <= i < self.keys@.len() ==> (#[trigger] self.keys@[i]).inv()
        &&& cache_sound(self@)
    }

    /// A solver with an empty cache.
    pub fn new() -> (r: Solver)
        ensures
            r.wf(),
            r@ == Seq::<(Seq<Seq<u8>>, nat, Seq<Movement>)>::empty(),
    {
        let r = Solver { keys: Vec::new(), vals: Vec::new() };
        proof {
            assert(r@ =~= Seq::<(Seq<Seq<u8>>, nat, Seq<Movement>)>::empty());
        }
        r
    }

    /// How many boards the cache holds.
    pub fn cache_len(&self) -> (r: usize)
        ensures
            r == self@.len(),
    {
        self.keys.len()
    }

    /// The cached movement sequence for this board, if any.
    fn cache_get(&self, b: &Board) -> (r: Option<Vec<Movement>>)
        requires
            self.wf(),
            b.inv(),
        ensures
            r matches Some(ms) ==> cache_lookup(self@, b@, b.cap()) == Some(ms@),
            r is None ==> cache_lookup(self@, b@, b.cap()) is None,
    {
        let mut i: usize = 0;
        proof {
            assert(self@.skip(0) =~= self@);
        }
        while i < self.keys.len()
            invariant
                i <= self.keys@.len(),
                self.wf(),
                b.inv(),
                cache_lookup(self@, b@, b.cap()) == cache_lookup(
                    self@.skip(i as int),
                    b@,
                    b.cap(),
                ),
            decreases self.keys@.len() - i,
        {
            proof {
                assert(self@.skip(i as int)[0] == self@[i as int]);
                assert(self@.skip(i as int).skip(1) =~= self@.skip(i + 1));
            }
            if boards_equal(&self.keys[i], b) {
                let ms = copy_movements(&self.vals[i]);
                return Some(ms);
            }
            i += 1;
        }
        proof {
            assert(self@.skip(self@.len() as int) =~= Seq::<
                (Seq<Seq<u8>>, nat, Seq<Movement>),
            >::empty());
        }
        None
    }

    /// Stores a sound solution for a board not yet cached.
    fn cache_put(&mut self, b: &Board, ms: &Vec<Movement>)
        requires
            old(self).wf(),
            b.inv(),
            replay_ok(b@, b.cap(), ms@),
            board_solved(replay(b@, b.cap(), ms@)),
            board_solved(b@) ==> ms@.len() == 0,
        ensures
            final(self).wf(),
            final(self)@ == old(self)@.push((b@, b.cap(), ms@)),
    {
        let key = b.duplicate();
        let val = copy_movements(ms);
        self.keys.push(key);
        self.vals.push(val);
        proof {
            assert(self@ =~= old(self)@.push((b@, b.cap(), ms@)));
        }
    }

    /// Solves the board given as per-bottle rows (each row top to bottom,
    /// zero-padded, 0 meaning empty). Validates the configuration and the
    /// shape, answers from the cache when the identical board was solved
    /// before, and otherwise runs the fallback chain: greedy pre-optimization
    /// plus iterative-deepening A* (when at least 3 bottles are empty),
    /// iterative-deepening A* alone, bounded best-first breadth search, and
    /// beam search. A returned sequence replays legally from the given board
    /// to a solved board; an already-solved board yields the empty sequence;
    /// a board with no legal pour that is not solved yields `NoSolutionFound`.
    pub fn solve(&mut self, levels: usize, n_of_bottles: usize, bottles: &Vec<Vec<u8>>) -> (r:
        Result<Vec<Movement>, SolveError>)
        requires
            old(self).wf(),
        ensures
            final(self).wf(),
            !config_ok(levels as int, n_of_bottles as int) ==> (r matches Err(e) && e
                == SolveError::ConfigurationError && final(self)@ == old(self)@),
            config_ok(levels as int, n_of_bottles as int) && !rows_ok(
                bottles.deep_view(),
                levels as int,
                n_of_bottles as int,
            ) ==> (r matches Err(e) && e == SolveError::InputShapeError && final(self)@ == old(
                self,
            )@),
            config_ok(levels as int, n_of_bottles as int) && rows_ok(
                bottles.deep_view(),
                levels as int,
                n_of_bottles as int,
            ) ==> {
                let bs = board_of_rows(bottles.deep_view());
                let cap = levels as nat;
                &&& (r matches Ok(ms) ==> replay_ok(bs, cap, ms@) && board_solved(
                    replay(bs, cap, ms@),
                ))
                &&& (r matches Err(e) ==> e == SolveError::NoSolutionFound && !board_solved(bs))
                &&& (board_solved(bs) ==> (r matches Ok(ms) && ms@.len() == 0))
                &&& ((!board_solved(bs) && !has_legal_move(bs, cap)) ==> (r matches Err(e) && e
                    == SolveError::NoSolutionFound))
                &&& solve_cache_post(
                    old(self)@,
                    bs,
                    cap,
                    match r {
                        Ok(ms) => Some(ms@),
                        Err(_) => None,
                    },
                    final(self)@,
                )
            },
    {
        if levels == 0 || levels > MAX_LEVELS {
            return Err(SolveError::ConfigurationError);
        }
        if n_of_bottles == 0 || n_of_bottles > MAX_N_OF_BOTTLES {
            return Err(SolveError::ConfigurationError);
        }
        let board = match Board::from_rows(bottles, levels, n_of_bottles) {
            Ok(b) => b,
            Err(e) => {
                return Err(e);
            },
        };
        let ghost bs = board_of_rows(bottles.deep_view());
        let ghost cap = levels as nat;
        if let Some(ms) = self.cache_get(&board) {
            proof {
                lemma_lookup_sound(self@, board@, board.cap());
            }
            return Ok(ms);
        }
        let empties = list_empty_bottles(&board);
        if empties.len() >= 3 {
            let (ob, prefix) = optimize_initial_distribution(&board);
            if let Some(suffix) = ida_star_search(&ob) {
                proof {
                    lemma_replay_concat(board@, board.cap(), prefix@, suffix@);
                }
                let mut ms = prefix;
                let mut suf = suffix;
                ms.append(&mut suf);
                self.cache_put(&board, &ms);
                proof {
                    lemma_lookup_push(old(self)@, (board@, board.cap(), ms@));
                    if !board_solved(bs) {
                        lemma_sound_result_has_move(bs, cap, ms@);
                    }
                }
                return Ok(ms);
            }
        }
        if let Some(ms) = ida_star_search(&board) {
            self.cache_put(&board, &ms);
            proof {
                lemma_lookup_push(old(self)@, (board@, board.cap(), ms@));
                if !board_solved(bs) {
                    lemma_sound_result_has_move(bs, cap, ms@);
                }
            }
            return Ok(ms);
        }
        if let Some(ms) = enhanced_bfs_search(&board) {
            self.cache_put(&board, &ms);
            proof {
                lemma_lookup_push(old(self)@, (board@, board.cap(), ms@));
                if !board_solved(bs) {
                    lemma_sound_result_has_move(bs, cap, ms@);
                }
            }
            return Ok(ms);
        }
        if let Some(ms) = beam_search(&board, BEAM_WIDTH) {
            self.cache_put(&board, &ms);
            proof {
                lemma_lookup_push(old(self)@, (board@, board.cap(), ms@));
                if !board_solved(bs) {
                    lemma_sound_result_has_move(bs, cap, ms@);
                }
            }
            return Ok(ms);
        }
        Err(SolveError::NoSolutionFound)
    }
}

} // verus!
