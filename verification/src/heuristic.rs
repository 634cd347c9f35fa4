//! Heuristic evaluation of boards.
//!
//! Scores are exact decimal quantities with one fractional digit (0.8, 0.5,
//! 0.3, ...); they are held as integers scaled by ten so that all arithmetic
//! is exact. Lower is better.

use vstd::prelude::*;

use crate::board::Board;
use crate::model::board_ok;
use crate::model::bottle_mono;
use crate::model::bottle_ok;
use crate::model::bottle_solved;
use crate::model::bottles_with_color;
use crate::model::bottles_with_color_upto;
use crate::model::color_count;
use crate::model::color_count_upto;
use crate::model::count_in;

verus! {

/// Color changes between adjacent occupied cells, walking up the bottle.
pub open spec fn transitions(b: Seq<u8>) -> nat
    decreases b.len(),
{
    if b.len() < 2 {
        0
    } else {
        transitions(b.drop_last()) + if b[b.len() - 1] != b[b.len() - 2] {
            1nat
        } else {
            0nat
        }
    }
}

/// A board is large when it has at least 8 bottles of at least 7 levels;
/// the weighted heuristic adds extra terms there.
pub open spec fn large_board(bs: Seq<Seq<u8>>, cap: nat) -> bool {
    bs.len() >= 8 && cap >= 7
}

/// The heuristic's per-bottle contribution, scaled by ten: 1.0 for an
/// unsolved bottle, 0.3 per color change, -0.3 for a monochrome bottle that
/// is not full, and on large boards 0.2 per partially filled bottle with a
/// further -0.5 when that bottle is monochrome.
pub open spec fn bottle_term(b: Seq<u8>, cap: nat, large: bool) -> int {
    (if !bottle_solved(b) {
        10int
    } else {
        0int
    }) + 3 * transitions(b) + (if 0 < b.len() < cap && bottle_mono(b) {
        -3int
    } else {
        0int
    }) + (if large && 0 < b.len() < cap {
        2 + (if bottle_mono(b) {
            -5int
        } else {
            0int
        })
    } else {
        0int
    })
}

/// Sum of the per-bottle contributions of the first `i` bottles.
pub open spec fn sum_bottle_terms(bs: Seq<Seq<u8>>, cap: nat, large: bool, i: int) -> int
    decreases i,
{
    if i <= 0 {
        0
    } else {
        sum_bottle_terms(bs, cap, large, i - 1) + bottle_term(bs[i - 1], cap, large)
    }
}

/// The heuristic's per-color contribution, scaled by ten: 0.8 per bottle
/// beyond the first that holds the color, and another 0.5 per such bottle
/// when the color's total units would fit in a single bottle.
pub open spec fn color_term(bs: Seq<Seq<u8>>, cap: nat, c: u8) -> int {
    let cnt = color_count(bs, c);
    let bw = bottles_with_color(bs, c);
    if cnt == 0 {
        0
    } else {
        8 * (bw - 1) + (if cnt <= cap {
            5 * (bw - 1)
        } else {
            0int
        })
    }
}

/// Sum of the per-color contributions of colors 1 through `c`.
pub open spec fn sum_color_terms(bs: Seq<Seq<u8>>, cap: nat, c: int) -> int
    decreases c,
{
    if c <= 0 {
        0
    } else {
        sum_color_terms(bs, cap, c - 1) + color_term(bs, cap, c as u8)
    }
}

/// The weighted heuristic score of a board, scaled by ten.
pub open spec fn heuristic_score(bs: Seq<Seq<u8>>, cap: nat) -> int {
    sum_bottle_terms(bs, cap, large_board(bs, cap), bs.len() as int) + sum_color_terms(
        bs,
        cap,
        255,
    )
}

/// Two to the given power.
pub open spec fn pow2(n: nat) -> nat
    decreases n,
{
    if n == 0 {
        1
    } else {
        2 * pow2((n - 1) as nat)
    }
}

/// The entropy of one bottle: 0 when empty, else 1 doubled once per color
/// change up the stack.
pub open spec fn bottle_entropy(b: Seq<u8>) -> nat {
    if b.len() == 0 {
        0
    } else {
        pow2(transitions(b))
    }
}

/// Sum of the entropies of the first `i` bottles.
pub open spec fn sum_entropy(bs: Seq<Seq<u8>>, i: int) -> nat
    decreases i,
{
    if i <= 0 {
        0
    } else {
        sum_entropy(bs, i - 1) + bottle_entropy(bs[i - 1])
    }
}

/// The structural entropy score of a board.
pub open spec fn board_entropy(bs: Seq<Seq<u8>>) -> nat {
    sum_entropy(bs, bs.len() as int)
}

/// A bottle has at most one transition per cell above the bottom.
proof fn lemma_transitions_bound(b: Seq<u8>)
    ensures
        b.len() == 0 ==> transitions(b) == 0,
        b.len() > 0 ==> transitions(b) <= b.len() - 1,
    decreases b.len(),
{
    if b.len() >= 2 {
        lemma_transitions_bound(b.drop_last());
    }
}

/// Units of a color exist only where some bottle holds the color, and no
/// more bottles hold it than there are bottles.
proof fn lemma_color_counts(bs: Seq<Seq<u8>>, c: u8, i: int)
    ensures
        color_count_upto(bs, c, i) > 0 ==> bottles_with_color_upto(bs, c, i) >= 1,
        bottles_with_color_upto(bs, c, i) <= (if i >= 0 {
            i
        } else {
            0
        }),
    decreases i,
{
    if i > 0 {
        lemma_color_counts(bs, c, i - 1);
    }
}

/// Bounds of the per-bottle contribution.
proof fn lemma_bottle_term_bounds(b: Seq<u8>, cap: nat, large: bool)
    requires
        bottle_ok(b, cap),
        cap <= 12,
    ensures
        -8 <= bottle_term(b, cap, large) <= 45,
{
    lemma_transitions_bound(b);
}

/// Bounds of the sum of per-bottle contributions.
proof fn lemma_sum_bottle_bounds(bs: Seq<Seq<u8>>, cap: nat, large: bool, i: int)
    requires
        board_ok(bs, cap),
        0 <= i <= bs.len(),
    ensures
        -8 * i <= sum_bottle_terms(bs, cap, large, i) <= 45 * i,
    decreases i,
{
    if i > 0 {
        lemma_sum_bottle_bounds(bs, cap, large, i - 1);
        lemma_bottle_term_bounds(bs[i - 1], cap, large);
    }
}

/// Bounds of the per-color contribution.
proof fn lemma_color_term_bounds(bs: Seq<Seq<u8>>, cap: nat, c: u8)
    requires
        bs.len() <= 12,
    ensures
        0 <= color_term(bs, cap, c) <= 143,
{
    lemma_color_counts(bs, c, bs.len() as int);
}

/// Bounds of the sum of per-color contributions.
proof fn lemma_sum_color_bounds(bs: Seq<Seq<u8>>, cap: nat, c: int)
    requires
        bs.len() <= 12,
        c <= 255,
    ensures
        0 <= sum_color_terms(bs, cap, c) <= 143 * (if c >= 0 {
            c
        } else {
            0
        }),
    decreases c,
{
    if c > 0 {
        lemma_sum_color_bounds(bs, cap, c - 1);
        lemma_color_term_bounds(bs, cap, c as u8);
    }
}

/// The heuristic of a well-formed board lies within fixed bounds.
pub proof fn lemma_heuristic_bounds(bs: Seq<Seq<u8>>, cap: nat)
    requires
        board_ok(bs, cap),
    ensures
        -100 <= heuristic_score(bs, cap) <= 40000,
{
    lemma_sum_bottle_bounds(bs, cap, large_board(bs, cap), bs.len() as int);
    lemma_sum_color_bounds(bs, cap, 255);
}

/// The weighted heuristic score of the board, scaled by ten. Exactly the
/// specification `heuristic_score`.
pub fn calculate_heuristic(board: &Board) -> (r: i64)
    requires
        board.inv(),
    ensures
        r == heuristic_score(board@, board.cap()),
        -100 <= r <= 40000,
{
    proof {
        board.lemma_inv_ok();
        lemma_heuristic_bounds(board@, board.cap());
    }
    let n = board.bottle_count();
    let levels = board.levels();
    let large = n >= 8 && levels >= 7;
    let ghost cap = board.cap();
    let mut score: i64 = 0;
    let mut i: usize = 0;
    while i < n
        invariant
            i <= n,
            score == sum_bottle_terms(board@, cap, large, i as int),
        decreases n - i,
    {
        proof {
            lemma_sum_bottle_bounds(board@, cap, large, i as int);
            lemma_bottle_term_bounds(board@[i as int], cap, large);
        }
        let fill = board.fill_of(i);
        let solved = board.is_solved_bottle(i);
        let mut t: i64 = if !solved {
            10
        } else {
            0
        };
        let mut tr: i64 = 0;
        proof {
            assert(large == large_board(board@, cap));
        }
        if fill >= 2 {
            let mut j: usize = 1;
            while j < fill
                invariant
                    1 <= j <= fill,
                    fill == board@[i as int].len(),
                    i < n,
                    tr == transitions(board@[i as int].take(j as int)),
                    0 <= tr <= j,
                decreases fill - j,
            {
                proof {
                    assert(board@[i as int].take(j + 1).drop_last() =~= board@[i as int].take(
                        j as int,
                    ));
                }
                if board.cell(i, j) != board.cell(i, j - 1) {
                    tr += 1;
                }
                j += 1;
            }
            proof {
                assert(board@[i as int].take(fill as int) =~= board@[i as int]);
            }
        }
        proof {
            lemma_transitions_bound(board@[i as int]);
            assert(tr == transitions(board@[i as int]));
        }
        t += 3 * tr;
        if fill > 0 && fill < levels && solved {
            t -= 3;
        }
        if large && fill > 0 && fill < levels {
            t += 2;
            if solved {
                t -= 5;
            }
        }
        assert(t == bottle_term(board@[i as int], cap, large));
        score += t;
        i += 1;
    }
    assert(score == sum_bottle_terms(board@, cap, large_board(board@, cap), board@.len() as int));
    let mut c: usize = 1;
    while c <= 255
        invariant
            1 <= c <= 256,
            score == sum_bottle_terms(board@, cap, large_board(board@, cap), board@.len() as int)
                + sum_color_terms(board@, cap, c - 1),
        decreases 256 - c,
    {
        proof {
            lemma_sum_bottle_bounds(board@, cap, large_board(board@, cap), board@.len() as int);
            lemma_sum_color_bounds(board@, cap, c - 1);
            lemma_color_term_bounds(board@, cap, c as u8);
        }
        let col = c as u8;
        let mut cnt: usize = 0;
        let mut bw: usize = 0;
        let mut i2: usize = 0;
        while i2 < n
            invariant
                i2 <= n,
                cnt == color_count_upto(board@, col, i2 as int),
                bw == bottles_with_color_upto(board@, col, i2 as int),
                cnt <= i2 * 12,
                bw <= i2,
            decreases n - i2,
        {
            let fill = board.fill_of(i2);
            let mut bc: usize = 0;
            let mut k: usize = 0;
            proof {
                assert(board@[i2 as int].take(0) =~= Seq::<u8>::empty());
            }
            while k < fill
                invariant
                    k <= fill,
                    i2 < n,
                    fill == board@[i2 as int].len(),
                    bc == count_in(board@[i2 as int].take(k as int), col),
                    bc <= k,
                decreases fill - k,
            {
                proof {
                    assert(board@[i2 as int].take(k + 1).drop_last() =~= board@[i2 as int].take(
                        k as int,
                    ));
                }
                if board.cell(i2, k) == col {
                    bc += 1;
                }
                k += 1;
            }
            proof {
                assert(board@[i2 as int].take(fill as int) =~= board@[i2 as int]);
                assert(board@[i2 as int].len() <= 12);
            }
            cnt += bc;
            if bc > 0 {
                bw += 1;
            }
            i2 += 1;
        }
        if cnt > 0 {
            proof {
                lemma_color_counts(board@, col, board@.len() as int);
            }
            let mut t: i64 = 8 * (bw as i64 - 1);
            if cnt <= levels {
                t += 5 * (bw as i64 - 1);
            }
            assert(t == color_term(board@, cap, col));
            score += t;
        } else {
            assert(color_term(board@, cap, col) == 0);
        }
        c += 1;
    }
    score
}

/// Upper bound of a bottle's entropy.
proof fn lemma_bottle_entropy_bound(b: Seq<u8>, cap: nat)
    requires
        bottle_ok(b, cap),
        cap <= 12,
    ensures
        bottle_entropy(b) <= 2048,
{
    lemma_transitions_bound(b);
    lemma_pow2_small();
    if b.len() > 0 {
        lemma_pow2_le(transitions(b), 11);
    }
}

/// The powers of two a bottle can reach.
proof fn lemma_pow2_small()
    ensures
        pow2(11) == 2048,
{
    reveal_with_fuel(pow2, 13);
}

/// `pow2` is monotone.
proof fn lemma_pow2_le(a: nat, b: nat)
    requires
        a <= b,
    ensures
        pow2(a) <= pow2(b),
    decreases b,
{
    if a < b && b > 0 {
        lemma_pow2_le(a, (b - 1) as nat);
    }
}

/// Bound of the summed entropy.
proof fn lemma_sum_entropy_bound(bs: Seq<Seq<u8>>, cap: nat, i: int)
    requires
        board_ok(bs, cap),
        i <= bs.len(),
    ensures
        sum_entropy(bs, i) <= 2048 * (if i >= 0 {
            i
        } else {
            0
        }),
    decreases i,
{
    if i > 0 {
        lemma_sum_entropy_bound(bs, cap, i - 1);
        lemma_bottle_entropy_bound(bs[i - 1], cap);
    }
}

/// The structural entropy score of the board: per bottle, 1 when occupied,
/// doubled for every color change up the stack. Exactly the specification
/// `board_entropy`.
pub fn calculate_entropy(board: &Board) -> (r: u64)
    requires
        board.inv(),
    ensures
        r == board_entropy(board@),
{
    proof {
        board.lemma_inv_ok();
        lemma_sum_entropy_bound(board@, board.cap(), board@.len() as int);
    }
    let n = board.bottle_count();
    let mut score: u64 = 0;
    let mut i: usize = 0;
    while i < n
        invariant
            i <= n,
            score == sum_entropy(board@, i as int),
        decreases n - i,
    {
        proof {
            lemma_sum_entropy_bound(board@, board.cap(), i as int);
            lemma_bottle_entropy_bound(board@[i as int], board.cap());
            lemma_transitions_bound(board@[i as int]);
        }
        let fill = board.fill_of(i);
        if fill > 0 {
            let mut e: u64 = 1;
            let mut j: usize = 1;
            proof {
                assert(board@[i as int].take(1).len() == 1);
            }
            while j < fill
                invariant
                    1 <= j,
                    j <= fill || fill == 0,
                    i < n,
                    fill == board@[i as int].len(),
                    fill <= 12,
                    e == pow2(transitions(board@[i as int].take(j as int))),
                    transitions(board@[i as int].take(j as int)) <= j - 1,
                    e <= pow2((j - 1) as nat),
                decreases fill - j,
            {
                proof {
                    assert(board@[i as int].take(j + 1).drop_last() =~= board@[i as int].take(
                        j as int,
                    ));
                    lemma_transitions_bound(board@[i as int].take(j + 1));
                    lemma_pow2_le(transitions(board@[i as int].take(j + 1)), 11);
                    lemma_pow2_small();
                }
                if board.cell(i, j) != board.cell(i, j - 1) {
                    e = 2 * e;
                }
                j += 1;
            }
            proof {
                assert(board@[i as int].take(fill as int) =~= board@[i as int]);
            }
            score += e;
        }
        i += 1;
    }
    score
}

} // verus!
