//! Mathematical model of a water-sort board.
//!
//! A bottle is modelled as the sequence of its occupied cells, bottom to top;
//! a board as the sequence of its bottles together with the common capacity
//! `cap` (the configured number of levels). All executable types in this
//! crate are specified against these functions.

use vstd::prelude::*;

verus! {

/// Most bottles a board may hold.
pub const MAX_N_OF_BOTTLES: usize = 12;

/// Most levels (cells) a bottle may hold.
pub const MAX_LEVELS: usize = 12;

/// A single pour action: move `amount` units from bottle `from` to bottle `to`.
#[derive(Clone, Copy, Debug, PartialEq, Eq, Structural)]
pub struct Movement {
    pub from: usize,
    pub to: usize,
    pub amount: usize,
}

/// A bottle holds at most `cap` units and no empty (zero) cells.
pub open spec fn bottle_ok(b: Seq<u8>, cap: nat) -> bool {
    b.len() <= cap && forall|i: int| 0 <= i < b.len() ==> b[i] != 0
}

/// A board: between 1 and `MAX_N_OF_BOTTLES` bottles, capacity between 1 and
/// `MAX_LEVELS`, every bottle well formed.
pub open spec fn board_ok(bs: Seq<Seq<u8>>, cap: nat) -> bool {
    &&& 1 <= cap <= MAX_LEVELS
    &&& 1 <= bs.len() <= MAX_N_OF_BOTTLES
    &&& forall|i: int| 0 <= i < bs.len() ==> bottle_ok(#[trigger] bs[i], cap)
}

/// Every occupied cell of the bottle holds the same color.
pub open spec fn bottle_mono(b: Seq<u8>) -> bool {
    forall|i: int| 0 <= i < b.len() ==> #[trigger] b[i] == b[0]
}

/// A bottle is solved when it is empty or holds a single color.
pub open spec fn bottle_solved(b: Seq<u8>) -> bool {
    b.len() == 0 || bottle_mono(b)
}

/// A board is solved when every bottle is solved.
pub open spec fn board_solved(bs: Seq<Seq<u8>>) -> bool {
    forall|i: int| 0 <= i < bs.len() ==> bottle_solved(#[trigger] bs[i])
}

/// The color on top of the bottle, 0 when it is empty.
pub open spec fn top_color(b: Seq<u8>) -> u8 {
    if b.len() == 0 {
        0
    } else {
        b[b.len() - 1]
    }
}

/// Length of the contiguous run of the top color, counted from the top.
pub open spec fn top_run(b: Seq<u8>) -> nat
    decreases b.len(),
{
    if b.len() == 0 {
        0
    } else if b.len() >= 2 && b[b.len() - 2] == b[b.len() - 1] {
        1 + top_run(b.drop_last())
    } else {
        1
    }
}

/// A pour from bottle `f` to bottle `t` is allowed when the source is not
/// empty, the destination is not full, the top colors agree (or the
/// destination is empty), and the pour is not a no-op shuffle of a
/// single-colored bottle into an empty one.
pub open spec fn pourable(bs: Seq<Seq<u8>>, cap: nat, f: int, t: int) -> bool {
    &&& 0 <= f < bs.len()
    &&& 0 <= t < bs.len()
    &&& f != t
    &&& bs[f].len() > 0
    &&& bs[t].len() < cap
    &&& (bs[t].len() == 0 ==> !bottle_mono(bs[f]))
    &&& (bs[t].len() > 0 ==> top_color(bs[t]) == top_color(bs[f]))
}

/// How many units a pour from `f` to `t` moves: the top run of the source,
/// capped by the free space of the destination; 0 when the pour is not allowed.
pub open spec fn pour_amount(bs: Seq<Seq<u8>>, cap: nat, f: int, t: int) -> nat {
    if pourable(bs, cap, f, t) {
        if top_run(bs[f]) <= cap - bs[t].len() {
            top_run(bs[f])
        } else {
            (cap - bs[t].len()) as nat
        }
    } else {
        0
    }
}

/// A movement is legal on a board when the pour is allowed and it moves
/// exactly the pourable amount.
pub open spec fn move_legal(bs: Seq<Seq<u8>>, cap: nat, m: Movement) -> bool {
    &&& pourable(bs, cap, m.from as int, m.to as int)
    &&& m.amount == pour_amount(bs, cap, m.from as int, m.to as int)
}

/// The board after a legal movement: the moved units leave the top of the
/// source and are appended to the destination.
pub open spec fn apply_move(bs: Seq<Seq<u8>>, cap: nat, m: Movement) -> Seq<Seq<u8>> {
    let f = m.from as int;
    let t = m.to as int;
    let src = bs[f];
    let moved = src.skip(src.len() - m.amount);
    bs.update(f, src.take(src.len() - m.amount)).update(t, bs[t] + moved)
}

/// The moves of the sequence are legal one after the other, each on the board
/// the previous moves produced.
pub open spec fn replay_ok(bs: Seq<Seq<u8>>, cap: nat, ms: Seq<Movement>) -> bool
    decreases ms.len(),
{
    ms.len() == 0 || {
        &&& move_legal(bs, cap, ms[0])
        &&& replay_ok(apply_move(bs, cap, ms[0]), cap, ms.skip(1))
    }
}

/// The board that replaying the whole sequence produces.
pub open spec fn replay(bs: Seq<Seq<u8>>, cap: nat, ms: Seq<Movement>) -> Seq<Seq<u8>>
    decreases ms.len(),
{
    if ms.len() == 0 {
        bs
    } else {
        replay(apply_move(bs, cap, ms[0]), cap, ms.skip(1))
    }
}

/// Some legal pour exists on the board.
pub open spec fn has_legal_move(bs: Seq<Seq<u8>>, cap: nat) -> bool {
    exists|f: int, t: int| pour_amount(bs, cap, f, t) > 0
}

/// How many units of color `c` the bottle holds.
pub open spec fn count_in(b: Seq<u8>, c: u8) -> nat
    decreases b.len(),
{
    if b.len() == 0 {
        0
    } else {
        count_in(b.drop_last(), c) + if b[b.len() - 1] == c {
            1nat
        } else {
            0nat
        }
    }
}

/// Units of color `c` in the first `i` bottles.
pub open spec fn color_count_upto(bs: Seq<Seq<u8>>, c: u8, i: int) -> nat
    decreases i,
{
    if i <= 0 {
        0
    } else {
        color_count_upto(bs, c, i - 1) + count_in(bs[i - 1], c)
    }
}

/// Units of color `c` on the whole board.
pub open spec fn color_count(bs: Seq<Seq<u8>>, c: u8) -> nat {
    color_count_upto(bs, c, bs.len() as int)
}

/// Bottles among the first `i` that hold at least one unit of color `c`.
pub open spec fn bottles_with_color_upto(bs: Seq<Seq<u8>>, c: u8, i: int) -> nat
    decreases i,
{
    if i <= 0 {
        0
    } else {
        bottles_with_color_upto(bs, c, i - 1) + if count_in(bs[i - 1], c) > 0 {
            1nat
        } else {
            0nat
        }
    }
}

/// Bottles that hold at least one unit of color `c`.
pub open spec fn bottles_with_color(bs: Seq<Seq<u8>>, c: u8) -> nat {
    bottles_with_color_upto(bs, c, bs.len() as int)
}

/// The configured sizes are within the fixed maximums.
pub open spec fn config_ok(levels: int, n_of_bottles: int) -> bool {
    &&& 1 <= levels <= MAX_LEVELS
    &&& 1 <= n_of_bottles <= MAX_N_OF_BOTTLES
}

/// The caller-supplied rows have the declared shape: one row per bottle, one
/// cell per level.
pub open spec fn rows_ok(rows: Seq<Seq<u8>>, levels: int, n_of_bottles: int) -> bool {
    &&& rows.len() == n_of_bottles
    &&& forall|i: int| 0 <= i < rows.len() ==> #[trigger] rows[i].len() == levels
}

/// A row lists a bottle top to bottom, zero meaning an empty cell. Its model
/// is the occupied cells bottom to top.
pub open spec fn compact(row: Seq<u8>) -> Seq<u8>
    decreases row.len(),
{
    if row.len() == 0 {
        Seq::empty()
    } else {
        (if row.last() != 0 {
            seq![row.last()]
        } else {
            Seq::empty()
        }) + compact(row.drop_last())
    }
}

/// The board model that the caller-supplied rows denote.
pub open spec fn board_of_rows(rows: Seq<Seq<u8>>) -> Seq<Seq<u8>> {
    Seq::new(rows.len(), |i: int| compact(rows[i]))
}

/// A compacted row is no longer than the row and holds no zero cell.
pub proof fn lemma_compact_ok(row: Seq<u8>)
    ensures
        compact(row).len() <= row.len(),
        forall|k: int| 0 <= k < compact(row).len() ==> compact(row)[k] != 0,
    decreases row.len(),
{
    if row.len() > 0 {
        lemma_compact_ok(row.drop_last());
    }
}

/// Compacting a row with one cell put in front: the front cell's unit, when
/// occupied, comes out on top.
pub proof fn lemma_compact_cons(x: u8, v: Seq<u8>)
    ensures
        compact(seq![x] + v) == compact(v) + (if x != 0 {
            seq![x]
        } else {
            Seq::<u8>::empty()
        }),
    decreases v.len(),
{
    let u = seq![x] + v;
    if v.len() == 0 {
        assert(compact(Seq::<u8>::empty()) == Seq::<u8>::empty());
        assert(u.len() == 1);
        assert(u.last() == x);
        assert(u.drop_last() =~= Seq::<u8>::empty());
        assert(v =~= Seq::<u8>::empty());
        assert(compact(u) =~= compact(v) + (if x != 0 {
            seq![x]
        } else {
            Seq::<u8>::empty()
        }));
    } else {
        let x_part: Seq<u8> = if x != 0 {
            seq![x]
        } else {
            Seq::<u8>::empty()
        };
        let y_part: Seq<u8> = if v.last() != 0 {
            seq![v.last()]
        } else {
            Seq::<u8>::empty()
        };
        assert(u.last() == v.last());
        assert(u.drop_last() =~= seq![x] + v.drop_last());
        lemma_compact_cons(x, v.drop_last());
        assert(compact(u) == y_part + compact(u.drop_last()));
        assert(compact(u.drop_last()) == compact(v.drop_last()) + x_part);
        assert(compact(v) == y_part + compact(v.drop_last()));
        assert(compact(u) =~= compact(v) + x_part);
    }
}

/// The top run of a nonempty bottle: its length is between 1 and the fill,
/// exactly the cells of the run hold the top color, and the cell below the
/// run (when there is one) holds another color.
pub proof fn lemma_top_run_char(b: Seq<u8>)
    requires
        b.len() > 0,
    ensures
        1 <= top_run(b) <= b.len(),
        forall|j: int| b.len() - top_run(b) <= j < b.len() ==> #[trigger] b[j] == top_color(b),
        top_run(b) < b.len() ==> b[b.len() - top_run(b) - 1] != top_color(b),
    decreases b.len(),
{
    if b.len() >= 2 && b[b.len() - 2] == b[b.len() - 1] {
        lemma_top_run_char(b.drop_last());
        assert(forall|j: int| 0 <= j < b.len() - 1 ==> b.drop_last()[j] == b[j]);
    }
}

/// Bounds a legal movement puts on its amount.
pub proof fn lemma_move_legal_bounds(bs: Seq<Seq<u8>>, cap: nat, m: Movement)
    requires
        move_legal(bs, cap, m),
    ensures
        1 <= m.amount,
        m.amount <= top_run(bs[m.from as int]),
        m.amount <= bs[m.from as int].len(),
        bs[m.to as int].len() + m.amount <= cap,
{
    lemma_top_run_char(bs[m.from as int]);
}

/// The units a legal movement takes off the source all hold the source's top
/// color.
pub proof fn lemma_moved_units_mono(bs: Seq<Seq<u8>>, cap: nat, m: Movement)
    requires
        move_legal(bs, cap, m),
    ensures
        forall|j: int|
            bs[m.from as int].len() - m.amount <= j < bs[m.from as int].len()
                ==> #[trigger] bs[m.from as int][j] == top_color(bs[m.from as int]),
{
    lemma_move_legal_bounds(bs, cap, m);
    lemma_top_run_char(bs[m.from as int]);
}

} // verus!
