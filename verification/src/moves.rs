//! Move generation: priorities, empty-bottle-to-color assignments, the
//! priority-sorted move list, and the shortcut ("obvious win") move.
//!
//! Priorities, like heuristic scores, are exact decimals with one fractional
//! digit held as integers scaled by ten.

use vstd::prelude::*;
use vstd::seq_lib::group_to_multiset_ensures;

use crate::board::Board;
use crate::model::Movement;
use crate::model::bottle_mono;
use crate::model::color_count;
use crate::model::color_count_upto;
use crate::model::count_in;
use crate::model::move_legal;
use crate::model::pour_amount;
use crate::model::pourable;
use crate::model::top_color;

verus! {

/// Every cell of the bottle holds color `c` (vacuously true when empty).
pub open spec fn seq_all_color(b: Seq<u8>, c: u8) -> bool {
    forall|i: int| 0 <= i < b.len() ==> #[trigger] b[i] == c
}

/// After taking `amount` units off the top, the source still holds more than
/// one color.
pub open spec fn mixed_below(src: Seq<u8>, amount: nat) -> bool {
    exists|i: int, j: int|
        0 <= i < src.len() - amount && 0 <= j < src.len() - amount && src[i] != src[j]
}

/// The base priority of a pour, scaled by ten: +1.0 for emptying a
/// monochrome bottle into an empty one, else -0.5 for pouring into an empty
/// one at all; +3.0 for filling the destination to capacity with a matching
/// color; +1.5 for fully draining the source; +0.1 per unit moved; -0.3 when
/// the source retains mixed colors.
pub open spec fn move_priority(bs: Seq<Seq<u8>>, cap: nat, f: int, t: int, amount: nat) -> int {
    let src = bs[f];
    let dst = bs[t];
    (if dst.len() == 0 {
        if amount == src.len() && bottle_mono(src) {
            10int
        } else {
            -5int
        }
    } else {
        0int
    }) + (if dst.len() + amount == cap && seq_all_color(dst, top_color(src)) {
        30int
    } else {
        0int
    }) + (if src.len() == amount {
        15int
    } else {
        0int
    }) + amount + (if mixed_below(src, amount) {
        -3int
    } else {
        0int
    })
}

/// The assignment-aware priority, scaled by ten: on top of the base
/// priority, +3.0 for pouring into an empty bottle assigned to the poured
/// color, -1.0 when the destination is assigned but some other bottle is
/// assigned the poured color, and +1.0 for fully draining an unassigned
/// source into an occupied bottle.
pub open spec fn move_priority_with(
    bs: Seq<Seq<u8>>,
    cap: nat,
    asg: Seq<u8>,
    f: int,
    t: int,
    amount: nat,
) -> int {
    move_priority(bs, cap, f, t, amount) + (if bs[t].len() == 0 && asg[t] != 0 {
        if top_color(bs[f]) == asg[t] {
            30int
        } else if exists|k: int| 0 <= k < asg.len() && asg[k] == top_color(bs[f]) {
            -10int
        } else {
            0int
        }
    } else {
        0int
    }) + (if bs[t].len() > 0 && bs[f].len() == amount && asg[f] == 0 {
        10int
    } else {
        0int
    })
}

/// The base priority of a pour. Exactly the specification `move_priority`.
pub fn calculate_move_priority(board: &Board, f: usize, t: usize, amount: usize) -> (r: i64)
    requires
        board.inv(),
        f < board@.len(),
        t < board@.len(),
        amount <= board@[f as int].len(),
    ensures
        r == move_priority(board@, board.cap(), f as int, t as int, amount as nat),
{
    proof {
        board.lemma_inv_ok();
    }
    let sf = board.fill_of(f);
    let df = board.fill_of(t);
    let levels = board.levels();
    let mut p: i64 = 0;
    if df == 0 {
        if amount == sf && board.is_solved_bottle(f) {
            p += 10;
        } else {
            p -= 5;
        }
    }
    if df + amount == levels {
        let tc = board.top_of(f);
        let mut ok = true;
        let mut j: usize = 0;
        while j < df
            invariant
                j <= df,
                df == board@[t as int].len(),
                ok <==> (forall|k: int| 0 <= k < j ==> #[trigger] board@[t as int][k] == tc),
            decreases df - j,
        {
            if board.cell(t, j) != tc {
                ok = false;
            }
            j += 1;
        }
        if ok {
            p += 30;
        }
    }
    if sf == amount {
        p += 15;
    }
    p += amount as i64;
    let rem = sf - amount;
    let mut mixed = false;
    if rem >= 2 {
        let c0 = board.cell(f, 0);
        let mut j: usize = 1;
        while j < rem
            invariant
                1 <= j <= rem,
                rem <= board@[f as int].len(),
                mixed <==> (exists|k: int| 1 <= k < j && #[trigger] board@[f as int][k] != board@[f as int][0]),
            decreases rem - j,
        {
            if board.cell(f, j) != c0 {
                mixed = true;
            }
            j += 1;
        }
    }
    proof {
        if mixed {
            let k = choose|k: int| 1 <= k < rem && #[trigger] board@[f as int][k] != board@[f as int][0];
            assert(board@[f as int][k] != board@[f as int][0]);
        } else {
            assert forall|i: int, j: int|
                0 <= i < rem && 0 <= j < rem implies board@[f as int][i] == board@[f as int][j] by {
                assert(forall|k: int|
                    1 <= k < rem ==> #[trigger] board@[f as int][k] == board@[f as int][0]);
            }
        }
    }
    if mixed {
        p -= 3;
    }
    p
}

/// The assignment-aware priority of a pour. Exactly the specification
/// `move_priority_with`.
pub fn calculate_move_priority_with_assignments(
    board: &Board,
    f: usize,
    t: usize,
    amount: usize,
    asg: &Vec<u8>,
) -> (r: i64)
    requires
        board.inv(),
        f < board@.len(),
        t < board@.len(),
        amount <= board@[f as int].len(),
        asg@.len() == board@.len(),
    ensures
        r == move_priority_with(board@, board.cap(), asg@, f as int, t as int, amount as nat),
{
    proof {
        board.lemma_inv_ok();
    }
    let mut p = calculate_move_priority(board, f, t, amount);
    let sf = board.fill_of(f);
    let df = board.fill_of(t);
    if df == 0 {
        let ac = asg[t];
        if ac != 0 {
            let fc = board.top_of(f);
            if fc == ac {
                p += 30;
            } else {
                let mut found = false;
                let mut k: usize = 0;
                while k < asg.len()
                    invariant
                        k <= asg@.len(),
                        found <==> (exists|l: int| 0 <= l < k && asg@[l] == fc),
                    decreases asg@.len() - k,
                {
                    if asg[k] == fc {
                        found = true;
                    }
                    k += 1;
                }
                if found {
                    p -= 10;
                }
            }
        }
    }
    if df > 0 && sf == amount && asg[f] == 0 {
        p += 10;
    }
    p
}

/// Units of color `c` on the whole board.
pub fn count_color(board: &Board, c: u8) -> (r: usize)
    requires
        board.inv(),
    ensures
        r == color_count(board@, c),
{
    proof {
        board.lemma_inv_ok();
    }
    let n = board.bottle_count();
    let mut cnt: usize = 0;
    let mut i: usize = 0;
    while i < n
        invariant
            i <= n,
            cnt == color_count_upto(board@, c, i as int),
            cnt <= i * 12,
        decreases n - i,
    {
        let fill = board.fill_of(i);
        let mut bc: usize = 0;
        let mut k: usize = 0;
        proof {
            assert(board@[i as int].take(0) =~= Seq::<u8>::empty());
        }
        while k < fill
            invariant
                k <= fill,
                i < n,
                fill == board@[i as int].len(),
                bc == count_in(board@[i as int].take(k as int), c),
                bc <= k,
            decreases fill - k,
        {
            proof {
                assert(board@[i as int].take(k + 1).drop_last() =~= board@[i as int].take(k as int));
            }
            if board.cell(i, k) == c {
                bc += 1;
            }
            k += 1;
        }
        proof {
            assert(board@[i as int].take(fill as int) =~= board@[i as int]);
            assert(board@[i as int].len() <= 12);
        }
        cnt += bc;
        i += 1;
    }
    cnt
}

/// The colors holding exactly `t` units, among color codes 1 through `c`, in
/// ascending code order.
pub open spec fn colors_with_units(bs: Seq<Seq<u8>>, t: nat, c: int) -> Seq<u8>
    decreases c,
{
    if c <= 0 {
        Seq::empty()
    } else {
        colors_with_units(bs, t, c - 1) + (if color_count(bs, c as u8) == t {
            seq![c as u8]
        } else {
            Seq::empty()
        })
    }
}

/// The colors holding between 1 and `t` units, ranked by descending unit
/// count, ties by ascending color code.
pub open spec fn ranked_from(bs: Seq<Seq<u8>>, t: nat) -> Seq<u8>
    decreases t,
{
    if t == 0 {
        Seq::empty()
    } else {
        colors_with_units(bs, t, 255) + ranked_from(bs, (t - 1) as nat)
    }
}

/// All present colors ranked by descending remaining unit count, ties by
/// ascending color code.
pub open spec fn ranked_colors(bs: Seq<Seq<u8>>, cap: nat) -> Seq<u8> {
    ranked_from(bs, bs.len() * cap)
}

/// The indices of the empty bottles among the first `i`, ascending.
pub open spec fn empty_indices_upto(bs: Seq<Seq<u8>>, i: int) -> Seq<int>
    decreases i,
{
    if i <= 0 {
        Seq::empty()
    } else {
        empty_indices_upto(bs, i - 1) + (if bs[i - 1].len() == 0 {
            seq![i - 1]
        } else {
            Seq::<int>::empty()
        })
    }
}

/// The indices of the empty bottles, ascending.
pub open spec fn empty_indices(bs: Seq<Seq<u8>>) -> Seq<int> {
    empty_indices_upto(bs, bs.len() as int)
}

/// Bottle `j` is one of the empty bottles that the ranked colors reach.
pub open spec fn assigned_slot(bs: Seq<Seq<u8>>, cap: nat, j: int) -> bool {
    exists|i: int|
        0 <= i < empty_indices(bs).len() && i < ranked_colors(bs, cap).len() && empty_indices(
            bs,
        )[i] == j
}

/// The empty-bottle-to-color assignment: the i-th empty bottle (ascending
/// index) is assigned the i-th ranked color; every other slot holds 0.
pub open spec fn assignment_of(bs: Seq<Seq<u8>>, cap: nat) -> Seq<u8> {
    Seq::new(
        bs.len(),
        |j: int|
            if assigned_slot(bs, cap, j) {
                ranked_colors(bs, cap)[choose|i: int|
                    0 <= i < empty_indices(bs).len() && i < ranked_colors(bs, cap).len()
                        && empty_indices(bs)[i] == j]
            } else {
                0u8
            },
    )
}

/// The empty indices are in range, strictly increasing, and name exactly the
/// empty bottles.
pub proof fn lemma_empty_indices_props(bs: Seq<Seq<u8>>, i: int)
    ensures
        forall|k: int|
            0 <= k < empty_indices_upto(bs, i).len() ==> 0 <= #[trigger] empty_indices_upto(
                bs,
                i,
            )[k] < i,
        forall|k1: int, k2: int|
            0 <= k1 < k2 < empty_indices_upto(bs, i).len() ==> empty_indices_upto(bs, i)[k1]
                < empty_indices_upto(bs, i)[k2],
        forall|k: int|
            0 <= k < empty_indices_upto(bs, i).len() ==> bs[empty_indices_upto(bs, i)[k]].len()
                == 0,
    decreases i,
{
    if i > 0 {
        lemma_empty_indices_props(bs, i - 1);
        let prev = empty_indices_upto(bs, i - 1);
        let cur = empty_indices_upto(bs, i);
        if bs[i - 1].len() == 0 {
            assert(forall|k: int| 0 <= k < prev.len() ==> cur[k] == prev[k]);
            assert(cur[prev.len() as int] == i - 1);
        } else {
            assert(cur =~= prev);
        }
    }
}

/// Assigns each empty bottle, in ascending index order, one ranked color:
/// the most needed colors first. Unassigned slots hold 0 (never a color).
pub fn assign_empty_bottles_to_colors(board: &Board) -> (a: Vec<u8>)
    requires
        board.inv(),
    ensures
        a@ == assignment_of(board@, board.cap()),
        a@.len() == board@.len(),
{
    proof {
        board.lemma_inv_ok();
    }
    let n = board.bottle_count();
    let levels = board.levels();
    assert(n * levels <= 144) by (nonlinear_arith)
        requires
            n <= 12,
            levels <= 12,
    ;
    // the ranked colors, highest remaining unit count first
    let mut ranked: Vec<u8> = Vec::new();
    let maxu = n * levels;
    let mut t: usize = maxu;
    while t >= 1
        invariant
            t <= maxu,
            maxu == board@.len() * board.cap(),
            ranked@ + ranked_from(board@, t as nat) == ranked_from(board@, maxu as nat),
        decreases t,
    {
        let ghost start = ranked@;
        let mut c: usize = 1;
        while c <= 255
            invariant
                1 <= c <= 256,
                t >= 1,
                ranked@ == start + colors_with_units(board@, t as nat, c - 1),
            decreases 256 - c,
        {
            let cnt = count_color(board, c as u8);
            if cnt == t {
                ranked.push(c as u8);
            }
            proof {
                if cnt == t {
                    assert(ranked@ =~= start + colors_with_units(board@, t as nat, c as int));
                } else {
                    assert(ranked@ =~= start + colors_with_units(board@, t as nat, c as int));
                }
            }
            c += 1;
        }
        proof {
            assert(ranked@ + ranked_from(board@, (t - 1) as nat) =~= start + ranked_from(
                board@,
                t as nat,
            ));
        }
        t -= 1;
    }
    proof {
        assert(ranked_from(board@, 0) =~= Seq::<u8>::empty());
        assert(ranked@ =~= ranked@ + ranked_from(board@, 0));
        assert(ranked@ == ranked_colors(board@, board.cap()));
    }
    // the empty bottles, ascending
    let mut empties: Vec<usize> = Vec::new();
    let mut i: usize = 0;
    while i < n
        invariant
            i <= n,
            empties@.len() == empty_indices_upto(board@, i as int).len(),
            forall|k: int|
                0 <= k < empties@.len() ==> empties@[k] == empty_indices_upto(board@, i as int)[k],
            forall|k: int| 0 <= k < empties@.len() ==> empties@[k] < i,
        decreases n - i,
    {
        if board.fill_of(i) == 0 {
            empties.push(i);
        }
        i += 1;
    }
    let ghost e = empty_indices(board@);
    let ghost r = ranked_colors(board@, board.cap());
    proof {
        lemma_empty_indices_props(board@, board@.len() as int);
    }
    // the assignment: slot e[i] gets color r[i]
    let mut a: Vec<u8> = Vec::new();
    let mut z: usize = 0;
    while z < n
        invariant
            z <= n,
            a@.len() == z,
            forall|k: int| 0 <= k < z ==> #[trigger] a@[k] == 0,
        decreases n - z,
    {
        a.push(0);
        z += 1;
    }
    let lim = if empties.len() < ranked.len() {
        empties.len()
    } else {
        ranked.len()
    };
    let mut i2: usize = 0;
    while i2 < lim
        invariant
            i2 <= lim,
            a@.len() == n,
            n == board@.len(),
            lim <= empties@.len(),
            lim <= ranked@.len(),
            empties@.len() == e.len(),
            ranked@ == r,
            forall|k: int| 0 <= k < e.len() ==> empties@[k] == e[k],
            forall|k: int| 0 <= k < e.len() ==> 0 <= #[trigger] e[k] < n,
            forall|k1: int, k2: int| 0 <= k1 < k2 < e.len() ==> e[k1] < e[k2],
            forall|i: int| 0 <= i < i2 ==> a@[e[i]] == r[i],
            forall|j: int|
                0 <= j < n && !(exists|k: int| 0 <= k < lim && e[k] == j) ==> a@[j] == 0,
        decreases lim - i2,
    {
        let slot = empties[i2];
        a.set(slot, ranked[i2]);
        proof {
            assert(e[i2 as int] == slot);
            assert forall|i: int| 0 <= i < i2 + 1 implies a@[e[i]] == r[i] by {
                if i < i2 {
                    assert(e[i] != e[i2 as int]);
                }
            }
        }
        i2 += 1;
    }
    proof {
        let target = assignment_of(board@, board.cap());
        assert forall|j: int| 0 <= j < a@.len() implies a@[j] == target[j] by {
            if assigned_slot(board@, board.cap(), j) {
                let i = choose|i: int|
                    0 <= i < empty_indices(board@).len() && i < ranked_colors(
                        board@,
                        board.cap(),
                    ).len() && empty_indices(board@)[i] == j;
                assert(i < lim);
                assert(a@[e[i]] == r[i]);
            } else {
                assert(!(exists|k: int| 0 <= k < lim && e[k] == j)) by {
                    if exists|k: int| 0 <= k < lim && e[k] == j {
                        let k = choose|k: int| 0 <= k < lim && e[k] == j;
                        assert(0 <= k < empty_indices(board@).len() && k < ranked_colors(
                            board@,
                            board.cap(),
                        ).len() && empty_indices(board@)[k] == j);
                    }
                }
            }
        }
        assert(a@ =~= target);
    }
    a
}

/// A candidate move with its priority, before sorting.
pub struct ScoredMove {
    pub mv: Movement,
    pub pri: i64,
}

/// The tier-1 candidates of source `f` against the first `t` destinations:
/// pours straight into a color-matched assigned empty bottle, at the flat
/// priority 10.0 (scaled: 100).
pub open spec fn tier1_row(bs: Seq<Seq<u8>>, cap: nat, asg: Seq<u8>, f: int, t: int) -> Seq<
    ScoredMove,
>
    decreases t,
{
    if t <= 0 {
        Seq::empty()
    } else {
        tier1_row(bs, cap, asg, f, t - 1) + (if bs[f].len() > 0 && asg[t - 1] != 0 && asg[t - 1]
            == top_color(bs[f]) && bs[t - 1].len() == 0 && pour_amount(bs, cap, f, t - 1) > 0 {
            seq![
                (ScoredMove {
                    mv: Movement {
                        from: f as usize,
                        to: (t - 1) as usize,
                        amount: pour_amount(bs, cap, f, t - 1) as usize,
                    },
                    pri: 100i64,
                }),
            ]
        } else {
            Seq::empty()
        })
    }
}

/// The tier-1 candidates of the first `f` sources, in generation order.
pub open spec fn tier1_upto(bs: Seq<Seq<u8>>, cap: nat, asg: Seq<u8>, f: int) -> Seq<ScoredMove>
    decreases f,
{
    if f <= 0 {
        Seq::empty()
    } else {
        tier1_upto(bs, cap, asg, f - 1) + tier1_row(bs, cap, asg, f - 1, bs.len() as int)
    }
}

/// The tier-2 candidates of source `f` against the first `t` destinations:
/// every legal pour, at its assignment-aware priority.
pub open spec fn tier2_row(bs: Seq<Seq<u8>>, cap: nat, asg: Seq<u8>, f: int, t: int) -> Seq<
    ScoredMove,
>
    decreases t,
{
    if t <= 0 {
        Seq::empty()
    } else {
        tier2_row(bs, cap, asg, f, t - 1) + (if t - 1 != f && pour_amount(bs, cap, f, t - 1)
            > 0 {
            seq![
                (ScoredMove {
                    mv: Movement {
                        from: f as usize,
                        to: (t - 1) as usize,
                        amount: pour_amount(bs, cap, f, t - 1) as usize,
                    },
                    pri: move_priority_with(
                        bs,
                        cap,
                        asg,
                        f,
                        t - 1,
                        pour_amount(bs, cap, f, t - 1),
                    ) as i64,
                }),
            ]
        } else {
            Seq::empty()
        })
    }
}

/// The tier-2 candidates of the first `f` sources, in generation order.
pub open spec fn tier2_upto(bs: Seq<Seq<u8>>, cap: nat, asg: Seq<u8>, f: int) -> Seq<ScoredMove>
    decreases f,
{
    if f <= 0 {
        Seq::empty()
    } else {
        tier2_upto(bs, cap, asg, f - 1) + tier2_row(bs, cap, asg, f - 1, bs.len() as int)
    }
}

/// All scored candidates in generation order: the tier-1 pours first, then
/// every legal pour, both under the board's own assignment.
pub open spec fn move_candidates(bs: Seq<Seq<u8>>, cap: nat) -> Seq<ScoredMove> {
    let asg = assignment_of(bs, cap);
    tier1_upto(bs, cap, asg, bs.len() as int) + tier2_upto(bs, cap, asg, bs.len() as int)
}

/// Stable insertion into a descending list: the new element goes after every
/// element of equal or higher priority.
pub open spec fn insert_desc(s: Seq<ScoredMove>, x: ScoredMove) -> Seq<ScoredMove>
    decreases s.len(),
{
    if s.len() == 0 || s.last().pri >= x.pri {
        s.push(x)
    } else {
        insert_desc(s.drop_last(), x).push(s.last())
    }
}

/// Stable sort by descending priority: each element in turn inserted after
/// its equals, so ties keep their generation order.
pub open spec fn sort_desc(s: Seq<ScoredMove>) -> Seq<ScoredMove>
    decreases s.len(),
{
    if s.len() == 0 {
        Seq::empty()
    } else {
        insert_desc(sort_desc(s.drop_last()), s.last())
    }
}

/// The movements of a scored list, priorities dropped.
pub open spec fn movements_of(s: Seq<ScoredMove>) -> Seq<Movement> {
    s.map_values(|x: ScoredMove| x.mv)
}

/// Where stable insertion puts the new element: at the unique position whose
/// whole suffix has lower priority and whose predecessor, if any, has not.
proof fn lemma_insert_desc_at(p: Seq<ScoredMove>, x: ScoredMove, j: int)
    requires
        0 <= j <= p.len(),
        forall|k: int| j <= k < p.len() ==> p[k].pri < x.pri,
        j > 0 ==> p[j - 1].pri >= x.pri,
    ensures
        insert_desc(p, x) == p.take(j) + seq![x] + p.skip(j),
    decreases p.len(),
{
    if p.len() == 0 || p.last().pri >= x.pri {
        assert(j == p.len());
        assert(insert_desc(p, x) =~= p.take(j) + seq![x] + p.skip(j));
    } else {
        assert(j < p.len());
        assert(forall|k: int| j <= k < p.drop_last().len() ==> p.drop_last()[k].pri < x.pri);
        lemma_insert_desc_at(p.drop_last(), x, j);
        assert(p.drop_last().take(j) =~= p.take(j));
        assert(insert_desc(p, x) =~= p.take(j) + seq![x] + p.skip(j));
    }
}

/// Stable insertion grows the list by one; stable sorting keeps its length.
proof fn lemma_sort_desc_len(s: Seq<ScoredMove>)
    ensures
        sort_desc(s).len() == s.len(),
    decreases s.len(),
{
    if s.len() > 0 {
        lemma_sort_desc_len(s.drop_last());
        lemma_insert_desc_len(sort_desc(s.drop_last()), s.last());
    }
}

proof fn lemma_insert_desc_len(s: Seq<ScoredMove>, x: ScoredMove)
    ensures
        insert_desc(s, x).len() == s.len() + 1,
    decreases s.len(),
{
    if !(s.len() == 0 || s.last().pri >= x.pri) {
        lemma_insert_desc_len(s.drop_last(), x);
    }
}

/// A source with an empty bottle contributes no tier-1 candidate.
proof fn lemma_tier1_row_empty(bs: Seq<Seq<u8>>, cap: nat, asg: Seq<u8>, f: int, t: int)
    requires
        bs[f].len() == 0,
    ensures
        tier1_row(bs, cap, asg, f, t).len() == 0,
    decreases t,
{
    if t > 0 {
        lemma_tier1_row_empty(bs, cap, asg, f, t - 1);
    }
}

/// Sorts candidate moves by descending priority: exactly the stable
/// insertion sort `sort_desc`, so ties keep their generation order.
fn sort_moves_desc(v: Vec<ScoredMove>) -> (r: Vec<ScoredMove>)
    ensures
        r@ == sort_desc(v@),
        r@.to_multiset() == v@.to_multiset(),
        r@.len() == v@.len(),
        forall|i: int, j: int| 0 <= i < j < r@.len() ==> r@[i].pri >= r@[j].pri,
{
    proof {
        broadcast use group_to_multiset_ensures;

    }
    let mut r = v;
    if r.len() == 0 {
        proof {
            assert(r@ == sort_desc(v@));
        }
        return r;
    }
    proof {
        assert(v@.take(1).drop_last() =~= Seq::<ScoredMove>::empty());
        assert(sort_desc(Seq::<ScoredMove>::empty()) == Seq::<ScoredMove>::empty());
        assert(insert_desc(Seq::<ScoredMove>::empty(), v@.take(1).last()) == Seq::<
            ScoredMove,
        >::empty().push(v@[0]));
        assert(sort_desc(v@.take(1)) =~= v@.take(1));
        assert(r@ =~= sort_desc(v@.take(1)) + v@.skip(1));
    }
    let mut i: usize = 1;
    while i < r.len()
        invariant
            1 <= i <= v@.len(),
            r@.len() == v@.len(),
            r@.to_multiset() == v@.to_multiset(),
            r@ == sort_desc(v@.take(i as int)) + v@.skip(i as int),
            forall|a: int, b: int| 0 <= a < b < i && b < r@.len() ==> r@[a].pri >= r@[b].pri,
        decreases r@.len() - i,
    {
        proof {
            broadcast use group_to_multiset_ensures;

            lemma_sort_desc_len(v@.take(i as int));
        }
        let ghost before = r@;
        let ghost p = sort_desc(v@.take(i as int));
        let x = r.remove(i);
        proof {
            assert(x == v@[i as int]);
        }
        let mut j: usize = i;
        while j > 0 && r[j - 1].pri < x.pri
            invariant
                j <= i,
                i < before.len(),
                r@ == before.remove(i as int),
                forall|k: int| j <= k < i ==> r@[k].pri < x.pri,
            decreases j,
        {
            j -= 1;
        }
        proof {
            assert(forall|k: int| 0 <= k < i ==> r@[k] == before[k]);
            assert(forall|k: int| 0 <= k < i ==> before[k] == p[k]);
            assert forall|k: int| j <= k < p.len() implies p[k].pri < x.pri by {
                assert(p[k] == r@[k]);
            }
            if j > 0 {
                assert(p[j - 1].pri >= x.pri);
            }
            lemma_insert_desc_at(p, x, j as int);
        }
        r.insert(j, x);
        proof {
            assert(r@.to_multiset() == v@.to_multiset());
            assert(before.remove(i as int) =~= p + v@.skip(i + 1));
            assert(r@ =~= (p.take(j as int) + seq![x] + p.skip(j as int)) + v@.skip(i + 1));
            assert(v@.take(i + 1).drop_last() =~= v@.take(i as int));
            assert(v@.take(i + 1).last() == v@[i as int]);
            assert(r@ =~= sort_desc(v@.take(i + 1)) + v@.skip(i + 1));
            assert forall|a: int, b: int|
                0 <= a < b < i + 1 && b < r@.len() implies r@[a].pri >= r@[b].pri by {
                assert(r@ == before.remove(i as int).insert(j as int, x));
            }
        }
        i += 1;
    }
    proof {
        assert(v@.take(v@.len() as int) =~= v@);
        assert(v@.skip(v@.len() as int) =~= Seq::<ScoredMove>::empty());
        assert(r@ =~= sort_desc(v@));
    }
    r
}

/// The move list names a pour from `f` to `t` somewhere.
pub open spec fn pair_listed(ms: Seq<Movement>, f: int, t: int) -> bool {
    exists|k: int| 0 <= k < ms.len() && (#[trigger] ms[k]).from == f && ms[k].to == t
}

/// As `pair_listed`, over the scored candidates.
spec fn scored_pair_listed(s: Seq<ScoredMove>, f: int, t: int) -> bool {
    exists|k: int| 0 <= k < s.len() && (#[trigger] s[k]).mv.from == f && s[k].mv.to == t
}

/// All legal moves of the board, each with its exact pourable amount: first
/// the pours into color-matched assigned empty bottles (priority 10.0), then
/// every legal pour scored by the assignment-aware priority; the whole list
/// sorted by descending priority, ties in generation order. Every legal pour
/// pair appears.
#[verifier::rlimit(50)]
pub fn generate_sorted_moves_with_assignments(board: &Board) -> (r: Vec<Movement>)
    requires
        board.inv(),
    ensures
        r@ == movements_of(sort_desc(move_candidates(board@, board.cap()))),
        forall|k: int| 0 <= k < r@.len() ==> move_legal(board@, board.cap(), #[trigger] r@[k]),
        forall|f: int, t: int|
            #[trigger] pour_amount(board@, board.cap(), f, t) > 0 ==> pair_listed(r@, f, t),
{
    proof {
        board.lemma_inv_ok();
    }
    let asg = assign_empty_bottles_to_colors(board);
    let n = board.bottle_count();
    let mut scored: Vec<ScoredMove> = Vec::new();
    // tier 1: pours straight into a color-matched assigned empty bottle
    let mut f: usize = 0;
    while f < n
        invariant
            f <= n,
            n == board@.len(),
            asg@.len() == n,
            scored@ == tier1_upto(board@, board.cap(), asg@, f as int),
            forall|k: int|
                0 <= k < scored@.len() ==> move_legal(
                    board@,
                    board.cap(),
                    (#[trigger] scored@[k]).mv,
                ),
        decreases n - f,
    {
        let ghost t1_before = scored@;
        if board.fill_of(f) > 0 {
            let fc = board.top_of(f);
            let mut t: usize = 0;
            proof {
                assert(scored@ =~= t1_before + tier1_row(board@, board.cap(), asg@, f as int, 0));
            }
            while t < n
                invariant
                    t <= n,
                    f < n,
                    n == board@.len(),
                    asg@.len() == n,
                    fc == top_color(board@[f as int]),
                    board@[f as int].len() > 0,
                    t1_before == tier1_upto(board@, board.cap(), asg@, f as int),
                    scored@ == t1_before + tier1_row(board@, board.cap(), asg@, f as int, t as int),
                    forall|k: int|
                        0 <= k < scored@.len() ==> move_legal(
                            board@,
                            board.cap(),
                            (#[trigger] scored@[k]).mv,
                        ),
                decreases n - t,
            {
                if asg[t] != 0 && asg[t] == fc && board.fill_of(t) == 0 {
                    let amount = board.pourable_amount(f, t);
                    if amount > 0 {
                        scored.push(
                            ScoredMove { mv: Movement { from: f, to: t, amount }, pri: 100 },
                        );
                    }
                }
                proof {
                    assert(scored@ =~= t1_before + tier1_row(
                        board@,
                        board.cap(),
                        asg@,
                        f as int,
                        t + 1,
                    ));
                }
                t += 1;
            }
            proof {
                assert(scored@ =~= tier1_upto(board@, board.cap(), asg@, f + 1));
            }
        } else {
            proof {
                lemma_tier1_row_empty(board@, board.cap(), asg@, f as int, board@.len() as int);
                assert(tier1_row(board@, board.cap(), asg@, f as int, board@.len() as int) =~= Seq::<
                    ScoredMove,
                >::empty());
                assert(scored@ =~= tier1_upto(board@, board.cap(), asg@, f + 1));
            }
        }
        f += 1;
    }
    let ghost t1_full = tier1_upto(board@, board.cap(), asg@, board@.len() as int);
    // tier 2: every legal pour, scored by the assignment-aware priority
    let mut f2: usize = 0;
    while f2 < n
        invariant
            f2 <= n,
            n == board@.len(),
            asg@.len() == n,
            t1_full == tier1_upto(board@, board.cap(), asg@, board@.len() as int),
            scored@ == t1_full + tier2_upto(board@, board.cap(), asg@, f2 as int),
            forall|k: int|
                0 <= k < scored@.len() ==> move_legal(
                    board@,
                    board.cap(),
                    (#[trigger] scored@[k]).mv,
                ),
            forall|f: int, t: int|
                0 <= f < f2 && 0 <= t < n && #[trigger] pour_amount(board@, board.cap(), f, t) > 0
                    ==> scored_pair_listed(scored@, f, t),
        decreases n - f2,
    {
        let mut t2: usize = 0;
        proof {
            assert(scored@ =~= t1_full + tier2_upto(board@, board.cap(), asg@, f2 as int)
                + tier2_row(board@, board.cap(), asg@, f2 as int, 0));
        }
        while t2 < n
            invariant
                t2 <= n,
                f2 < n,
                n == board@.len(),
                asg@.len() == n,
                t1_full == tier1_upto(board@, board.cap(), asg@, board@.len() as int),
                scored@ == t1_full + tier2_upto(board@, board.cap(), asg@, f2 as int) + tier2_row(
                    board@,
                    board.cap(),
                    asg@,
                    f2 as int,
                    t2 as int,
                ),
                forall|k: int|
                    0 <= k < scored@.len() ==> move_legal(
                        board@,
                        board.cap(),
                        (#[trigger] scored@[k]).mv,
                    ),
                forall|f: int, t: int|
                    0 <= f < f2 && 0 <= t < n && #[trigger] pour_amount(board@, board.cap(), f, t)
                        > 0 ==> scored_pair_listed(scored@, f, t),
                forall|t: int|
                    0 <= t < t2 && #[trigger] pour_amount(board@, board.cap(), f2 as int, t) > 0
                        ==> scored_pair_listed(scored@, f2 as int, t),
            decreases n - t2,
        {
            let ghost old_scored = scored@;
            if t2 != f2 {
                let amount = board.pourable_amount(f2, t2);
                if amount > 0 {
                    proof {
                        crate::model::lemma_top_run_char(board@[f2 as int]);
                    }
                    let pri = calculate_move_priority_with_assignments(board, f2, t2, amount, &asg);
                    scored.push(ScoredMove { mv: Movement { from: f2, to: t2, amount }, pri });
                }
            }
            proof {
                if t2 == f2 {
                    assert(!pourable(board@, board.cap(), f2 as int, t2 as int));
                }
                assert(forall|k: int| 0 <= k < old_scored.len() ==> scored@[k] == old_scored[k]);
                assert forall|f: int, t: int|
                    scored_pair_listed(old_scored, f, t) implies scored_pair_listed(
                    scored@,
                    f,
                    t,
                ) by {
                    let k = choose|k: int|
                        0 <= k < old_scored.len() && (#[trigger] old_scored[k]).mv.from == f
                            && old_scored[k].mv.to == t;
                    assert((scored@[k]).mv.from == f && scored@[k].mv.to == t);
                }
                if t2 != f2 && pour_amount(board@, board.cap(), f2 as int, t2 as int) > 0 {
                    assert((scored@[scored@.len() - 1]).mv.from == f2 && scored@[scored@.len()
                        - 1].mv.to == t2);
                }
                assert(scored@ =~= t1_full + tier2_upto(board@, board.cap(), asg@, f2 as int)
                    + tier2_row(board@, board.cap(), asg@, f2 as int, t2 + 1));
            }
            t2 += 1;
        }
        proof {
            assert(scored@ =~= t1_full + tier2_upto(board@, board.cap(), asg@, f2 + 1));
        }
        f2 += 1;
    }
    proof {
        assert(scored@ == move_candidates(board@, board.cap()));
    }
    let sorted = sort_moves_desc(scored);
    let mut out: Vec<Movement> = Vec::new();
    let mut i: usize = 0;
    while i < sorted.len()
        invariant
            i <= sorted@.len(),
            out@.len() == i,
            forall|k: int| 0 <= k < i ==> #[trigger] out@[k] == sorted@[k].mv,
        decreases sorted@.len() - i,
    {
        let m = Movement {
            from: sorted[i].mv.from,
            to: sorted[i].mv.to,
            amount: sorted[i].mv.amount,
        };
        out.push(m);
        i += 1;
    }
    proof {
        broadcast use group_to_multiset_ensures;

        // legality carries from the unsorted list through the multiset
        assert forall|k: int|
            0 <= k < out@.len() implies move_legal(board@, board.cap(), #[trigger] out@[k]) by {
            let x = sorted@[k];
            assert(sorted@.to_multiset().count(x) > 0);
            assert(scored@.to_multiset().count(x) > 0);
            assert(scored@.contains(x));
            let jj = choose|jj: int| 0 <= jj < scored@.len() && scored@[jj] == x;
            assert(move_legal(board@, board.cap(), scored@[jj].mv));
        }
        // completeness carries the same way
        assert forall|f: int, t: int|
            #[trigger] pour_amount(board@, board.cap(), f, t) > 0 implies pair_listed(
            out@,
            f,
            t,
        ) by {
            assert(0 <= f < board@.len() && 0 <= t < board@.len());
            assert(scored_pair_listed(scored@, f, t));
            let jj = choose|jj: int|
                0 <= jj < scored@.len() && (#[trigger] scored@[jj]).mv.from == f
                    && scored@[jj].mv.to == t;
            let x = scored@[jj];
            assert(scored@.contains(x));
            assert(scored@.to_multiset().count(x) > 0);
            assert(sorted@.to_multiset().count(x) > 0);
            assert(sorted@.contains(x));
            let kk = choose|kk: int| 0 <= kk < sorted@.len() && sorted@[kk] == x;
            assert(out@[kk].from == f && out@[kk].to == t);
        }
        // the output is exactly the stably sorted candidate list
        assert(out@ =~= movements_of(sort_desc(move_candidates(board@, board.cap()))));
    }
    out
}

/// A shortcut move: either it completes the destination to capacity with a
/// matching color, or it fully drains the source into a compatible
/// destination.
pub open spec fn obvious_move(bs: Seq<Seq<u8>>, cap: nat, f: int, t: int) -> bool {
    let a = pour_amount(bs, cap, f, t);
    a > 0 && {
        ||| (bs[t].len() > 0 && bs[t].len() + a == cap && seq_all_color(bs[t], top_color(bs[f])))
        ||| (bs[f].len() == a && (bs[t].len() == 0 || top_color(bs[t]) == top_color(bs[f])))
    }
}

/// The first shortcut move in bottle-index order, if any: the returned move
/// is legal and obvious, every earlier pair is not obvious, and `None` means
/// no pair is obvious.
pub fn find_shortcut_move(board: &Board) -> (r: Option<Movement>)
    requires
        board.inv(),
    ensures
        r matches Some(m) ==> {
            &&& move_legal(board@, board.cap(), m)
            &&& obvious_move(board@, board.cap(), m.from as int, m.to as int)
            &&& forall|f: int, t: int|
                0 <= f < board@.len() && 0 <= t < board@.len() && (f < m.from || (f == m.from && t
                    < m.to)) ==> !obvious_move(board@, board.cap(), f, t)
        },
        r is None ==> forall|f: int, t: int|
            0 <= f < board@.len() && 0 <= t < board@.len() ==> !obvious_move(
                board@,
                board.cap(),
                f,
                t,
            ),
{
    proof {
        board.lemma_inv_ok();
    }
    let n = board.bottle_count();
    let levels = board.levels();
    let mut f: usize = 0;
    while f < n
        invariant
            f <= n,
            n == board@.len(),
            forall|a: int, b: int|
                0 <= a < f && 0 <= b < n ==> !obvious_move(board@, board.cap(), a, b),
        decreases n - f,
    {
        let mut t: usize = 0;
        while t < n
            invariant
                t <= n,
                f < n,
                n == board@.len(),
                forall|a: int, b: int|
                    0 <= a < f && 0 <= b < n ==> !obvious_move(board@, board.cap(), a, b),
                forall|b: int| 0 <= b < t ==> !obvious_move(board@, board.cap(), f as int, b),
            decreases n - t,
        {
            if t != f {
                let amount = board.pourable_amount(f, t);
                if amount > 0 {
                    let df = board.fill_of(t);
                    let sf = board.fill_of(f);
                    let fc = board.top_of(f);
                    let mut first_cond = df > 0 && df + amount == levels;
                    if first_cond {
                        let mut j: usize = 0;
                        while j < df
                            invariant
                                j <= df,
                                t < n,
                                f < n,
                                df == board@[t as int].len(),
                                first_cond <==> (forall|k: int|
                                    0 <= k < j ==> #[trigger] board@[t as int][k] == fc),
                            decreases df - j,
                        {
                            if board.cell(t, j) != fc {
                                first_cond = false;
                            }
                            j += 1;
                        }
                    }
                    let second_cond = sf == amount && (df == 0 || board.top_of(t) == fc);
                    if first_cond || second_cond {
                        return Some(Movement { from: f, to: t, amount });
                    }
                    proof {
                        assert(!obvious_move(board@, board.cap(), f as int, t as int));
                    }
                } else {
                    proof {
                        assert(!obvious_move(board@, board.cap(), f as int, t as int));
                    }
                }
            } else {
                proof {
                    assert(!pourable(board@, board.cap(), f as int, t as int));
                    assert(!obvious_move(board@, board.cap(), f as int, t as int));
                }
            }
            t += 1;
        }
        f += 1;
    }
    None
}

/// The indices of the empty bottles, ascending.
pub fn list_empty_bottles(board: &Board) -> (r: Vec<usize>)
    requires
        board.inv(),
    ensures
        r@.len() == empty_indices(board@).len(),
        forall|k: int| 0 <= k < r@.len() ==> r@[k] == empty_indices(board@)[k],
{
    let n = board.bottle_count();
    let mut empties: Vec<usize> = Vec::new();
    let mut i: usize = 0;
    while i < n
        invariant
            i <= n,
            n == board@.len(),
            empties@.len() == empty_indices_upto(board@, i as int).len(),
            forall|k: int|
                0 <= k < empties@.len() ==> empties@[k] == empty_indices_upto(board@, i as int)[k],
        decreases n - i,
    {
        if board.fill_of(i) == 0 {
            empties.push(i);
        }
        i += 1;
    }
    empties
}

} // verus!
