//! Executable board and bottle types.
//!
//! A `Bottle` caches its fill level and top color beside the cell array, as
//! the search reads them constantly; `inv` ties the caches to the cells. The
//! view of a bottle is the sequence of its occupied cells, bottom to top, and
//! the view of a board is the sequence of its bottles' views.

use vstd::prelude::*;

use crate::errors::SolveError;
use crate::model::Movement;
use crate::model::MAX_LEVELS;
use crate::model::MAX_N_OF_BOTTLES;
use crate::model::board_of_rows;
use crate::model::board_ok;
use crate::model::board_solved;
use crate::model::bottle_mono;
use crate::model::bottle_ok;
use crate::model::bottle_solved;
use crate::model::compact;
use crate::model::config_ok;
use crate::model::lemma_compact_ok;
use crate::model::lemma_move_legal_bounds;
use crate::model::lemma_moved_units_mono;
use crate::model::lemma_top_run_char;
use crate::model::move_legal;
use crate::model::apply_move;
use crate::model::pour_amount;
use crate::model::pourable;
use crate::model::rows_ok;
use crate::model::top_color;
use crate::model::top_run;

verus! {

/// One bottle: a fixed-size cell array with its fill level and top color.
pub struct Bottle {
    pub(crate) cells: Vec<u8>,
    pub(crate) fill: usize,
    pub(crate) top: u8,
}

impl View for Bottle {
    type V = Seq<u8>;

    closed spec fn view(&self) -> Seq<u8> {
        self.cells@.take(self.fill as int)
    }
}

impl Bottle {
    /// The cell array has exactly `cap` cells, the occupied prefix holds no
    /// zero, the rest is zeroed, and the cached top color is right.
    pub closed spec fn inv(&self, cap: nat) -> bool {
        &&& self.cells@.len() == cap
        &&& self.fill <= cap
        &&& forall|i: int| 0 <= i < self.fill ==> #[trigger] self.cells@[i] != 0
        &&& forall|i: int| self.fill <= i < cap ==> #[trigger] self.cells@[i] == 0
        &&& self.top == top_color(self@)
    }
}

/// A complete board: the bottles and the configured level capacity.
pub struct Board {
    pub(crate) bottles: Vec<Bottle>,
    pub(crate) levels: usize,
}

impl View for Board {
    type V = Seq<Seq<u8>>;

    closed spec fn view(&self) -> Seq<Seq<u8>> {
        Seq::new(self.bottles@.len() as nat, |i: int| self.bottles@[i]@)
    }
}

impl Board {
    /// The configured capacity of every bottle.
    pub closed spec fn cap(&self) -> nat {
        self.levels as nat
    }

    /// Structural invariant: sizes within the fixed maximums and every
    /// bottle's caches consistent.
    pub closed spec fn inv(&self) -> bool {
        &&& 1 <= self.levels <= MAX_LEVELS
        &&& 1 <= self.bottles@.len() <= MAX_N_OF_BOTTLES
        &&& forall|i: int|
            0 <= i < self.bottles@.len() ==> (#[trigger] self.bottles@[i]).inv(self.cap())
    }

    /// The invariant implies the model-level well-formedness of the view.
    pub proof fn lemma_inv_ok(&self)
        requires
            self.inv(),
        ensures
            board_ok(self@, self.cap()),
    {
        assert forall|i: int| 0 <= i < self@.len() implies bottle_ok(#[trigger] self@[i], self.cap()) by {
            assert(self.bottles@[i].inv(self.cap()));
        }
    }

    /// The configured capacity, as a machine integer.
    pub fn levels(&self) -> (r: usize)
        ensures
            r == self.cap(),
    {
        self.levels
    }

    /// How many bottles the board holds.
    pub fn bottle_count(&self) -> (r: usize)
        ensures
            r == self@.len(),
    {
        self.bottles.len()
    }

    /// The fill level of bottle `i`.
    pub fn fill_of(&self, i: usize) -> (r: usize)
        requires
            self.inv(),
            i < self@.len(),
        ensures
            r == self@[i as int].len(),
    {
        self.bottles[i].fill
    }

    /// The cell at height `j` of bottle `i` (bottom is height 0).
    pub fn cell(&self, i: usize, j: usize) -> (r: u8)
        requires
            self.inv(),
            i < self@.len(),
            j < self@[i as int].len(),
        ensures
            r == self@[i as int][j as int],
    {
        self.bottles[i].cells[j]
    }

    /// The top color of bottle `i`, 0 when the bottle is empty.
    pub fn top_of(&self, i: usize) -> (r: u8)
        requires
            self.inv(),
            i < self@.len(),
        ensures
            r == top_color(self@[i as int]),
    {
        self.bottles[i].top
    }

    /// Whether bottle `i` is solved: empty, or a single color throughout.
    pub fn is_solved_bottle(&self, i: usize) -> (r: bool)
        requires
            self.inv(),
            i < self@.len(),
        ensures
            r == bottle_solved(self@[i as int]),
            r == bottle_mono(self@[i as int]),
    {
        let b = &self.bottles[i];
        if b.fill == 0 {
            return true;
        }
        let first = b.cells[0];
        let mut j: usize = 1;
        while j < b.fill
            invariant
                1 <= j <= b.fill,
                forall|k: int| 0 <= k < j ==> #[trigger] self@[i as int][k] == self@[i as int][0],
            decreases b.fill - j,
        {
            if b.cells[j] != first {
                assert(self@[i as int][j as int] != self@[i as int][0]);
                return false;
            }
            j += 1;
        }
        true
    }

    /// Whether the whole board is solved.
    pub fn is_solved_board(&self) -> (r: bool)
        requires
            self.inv(),
        ensures
            r == board_solved(self@),
    {
        let mut i: usize = 0;
        while i < self.bottles.len()
            invariant
                i <= self@.len(),
                forall|j: int| 0 <= j < i ==> bottle_solved(#[trigger] self@[j]),
            decreases self@.len() - i,
        {
            if !self.is_solved_bottle(i) {
                return false;
            }
            i += 1;
        }
        true
    }

    /// Whether a pour from bottle `f` to bottle `t` is allowed.
    pub fn is_pourable(&self, f: usize, t: usize) -> (r: bool)
        requires
            self.inv(),
            f < self@.len(),
            t < self@.len(),
        ensures
            r == pourable(self@, self.cap(), f as int, t as int),
    {
        if f == t {
            return false;
        }
        if self.bottles[f].fill == 0 || self.bottles[t].fill >= self.levels {
            return false;
        }
        if self.bottles[t].fill == 0 && self.is_solved_bottle(f) {
            return false;
        }
        self.bottles[t].fill == 0 || self.bottles[f].top == self.bottles[t].top
    }

    /// How many units a pour from `f` to `t` would move; 0 when not allowed.
    pub fn pourable_amount(&self, f: usize, t: usize) -> (r: usize)
        requires
            self.inv(),
            f < self@.len(),
            t < self@.len(),
        ensures
            r == pour_amount(self@, self.cap(), f as int, t as int),
    {
        if !self.is_pourable(f, t) {
            return 0;
        }
        let src = &self.bottles[f];
        let mut k: usize = src.fill;
        while k > 0 && src.cells[k - 1] == src.top
            invariant
                k <= src.fill,
                forall|j: int| k <= j < src.fill ==> #[trigger] src.cells@[j] == src.top,
            decreases k,
        {
            k -= 1;
        }
        let run = src.fill - k;
        proof {
            let b = self@[f as int];
            lemma_top_run_char(b);
            assert(forall|j: int| 0 <= j < b.len() ==> b[j] == src.cells@[j]);
            assert(top_color(b) == src.top);
            let tr = top_run(b) as int;
            if run < tr {
                assert(b[b.len() - run - 1] == top_color(b));
                assert(src.cells@[k - 1] == src.top);
            }
            if run > tr {
                assert(tr < b.len());
                assert(src.cells@[b.len() - tr - 1] == src.top);
                assert(b[b.len() - tr - 1] == top_color(b));
            }
            assert(run == tr);
        }
        let free = self.levels - self.bottles[t].fill;
        if run <= free {
            run
        } else {
            free
        }
    }
}

/// Element-for-element copy of a cell array.
fn clone_cells(v: &Vec<u8>) -> (r: Vec<u8>)
    ensures
        r@ == v@,
{
    let mut r: Vec<u8> = Vec::new();
    let mut i: usize = 0;
    while i < v.len()
        invariant
            i <= v@.len(),
            r@ == v@.take(i as int),
        decreases v@.len() - i,
    {
        r.push(v[i]);
        proof {
            assert(v@.take(i + 1) =~= v@.take(i as int).push(v@[i as int]));
        }
        i += 1;
    }
    proof {
        assert(v@.take(v@.len() as int) =~= v@);
    }
    r
}

/// Field-for-field copy of a bottle.
fn clone_bottle(b: &Bottle) -> (r: Bottle)
    ensures
        r.cells@ == b.cells@,
        r.fill == b.fill,
        r.top == b.top,
        r@ == b@,
{
    Bottle { cells: clone_cells(&b.cells), fill: b.fill, top: b.top }
}

/// The bottle after its top `amount` units are taken off.
fn pour_off(b: &Bottle, amount: usize, levels: usize) -> (r: Bottle)
    requires
        b.inv(levels as nat),
        1 <= amount <= b.fill,
    ensures
        r.inv(levels as nat),
        r@ == b@.take(b@.len() - amount),
{
    let mut cells = clone_cells(&b.cells);
    let mut k: usize = 0;
    while k < amount
        invariant
            k <= amount,
            amount <= b.fill,
            b.inv(levels as nat),
            cells@.len() == b.cells@.len(),
            forall|j: int|
                0 <= j < cells@.len() ==> #[trigger] cells@[j] == (if b.fill - k <= j < b.fill {
                    0u8
                } else {
                    b.cells@[j]
                }),
        decreases amount - k,
    {
        cells.set(b.fill - 1 - k, 0);
        k += 1;
    }
    let new_fill = b.fill - amount;
    let top = if new_fill > 0 {
        cells[new_fill - 1]
    } else {
        0
    };
    let r = Bottle { cells, fill: new_fill, top };
    proof {
        assert(r@ =~= b@.take(b@.len() - amount));
    }
    r
}

/// The bottle after `amount` units of `color` are pushed on top.
fn pour_on(b: &Bottle, color: u8, amount: usize, levels: usize) -> (r: Bottle)
    requires
        b.inv(levels as nat),
        color != 0,
        1 <= amount,
        b.fill + amount <= levels,
    ensures
        r.inv(levels as nat),
        r@ == b@ + Seq::new(amount as nat, |j: int| color),
{
    let mut cells = clone_cells(&b.cells);
    let mut k: usize = 0;
    while k < amount
        invariant
            k <= amount,
            b.fill + amount <= levels,
            b.inv(levels as nat),
            cells@.len() == b.cells@.len(),
            forall|j: int|
                0 <= j < cells@.len() ==> #[trigger] cells@[j] == (if b.fill <= j < b.fill + k {
                    color
                } else {
                    b.cells@[j]
                }),
        decreases amount - k,
    {
        cells.set(b.fill + k, color);
        k += 1;
    }
    let r = Bottle { cells, fill: b.fill + amount, top: color };
    proof {
        assert(r@ =~= b@ + Seq::new(amount as nat, |j: int| color));
        assert(top_color(r@) == color);
    }
    r
}

impl Board {
    /// The board a legal movement produces: a pure function of this board.
    pub fn apply_pour(&self, m: Movement) -> (r: Board)
        requires
            self.inv(),
            move_legal(self@, self.cap(), m),
        ensures
            r.inv(),
            r.cap() == self.cap(),
            r@ == apply_move(self@, self.cap(), m),
    {
        proof {
            lemma_move_legal_bounds(self@, self.cap(), m);
            lemma_moved_units_mono(self@, self.cap(), m);
        }
        let color = self.bottles[m.from].top;
        let ghost target = apply_move(self@, self.cap(), m);
        let mut nb: Vec<Bottle> = Vec::new();
        let mut i: usize = 0;
        while i < self.bottles.len()
            invariant
                i <= self.bottles@.len(),
                nb@.len() == i,
                self.inv(),
                m.from < self@.len(),
                m.to < self@.len(),
                move_legal(self@, self.cap(), m),
                color == top_color(self@[m.from as int]),
                target == apply_move(self@, self.cap(), m),
                forall|j: int|
                    0 <= j < i ==> (#[trigger] nb@[j]).inv(self.cap()) && nb@[j]@ == target[j],
            decreases self.bottles@.len() - i,
        {
            proof {
                lemma_move_legal_bounds(self@, self.cap(), m);
                lemma_moved_units_mono(self@, self.cap(), m);
            }
            let b: Bottle = if i == m.from {
                let nb_src = pour_off(&self.bottles[i], m.amount, self.levels);
                proof {
                    assert(nb_src@ =~= target[i as int]);
                }
                nb_src
            } else if i == m.to {
                let nb_dst = pour_on(&self.bottles[i], color, m.amount, self.levels);
                proof {
                    let src = self@[m.from as int];
                    let moved = src.skip(src.len() - m.amount);
                    assert(Seq::new(m.amount as nat, |j: int| color) =~= moved);
                    assert(nb_dst@ =~= target[i as int]);
                }
                nb_dst
            } else {
                let c = clone_bottle(&self.bottles[i]);
                proof {
                    assert(c@ =~= target[i as int]);
                }
                c
            };
            nb.push(b);
            i += 1;
        }
        let r = Board { bottles: nb, levels: self.levels };
        proof {
            assert(r@ =~= target);
        }
        r
    }

    /// Builds a board from caller-supplied rows: one row per bottle, listed
    /// top to bottom, zero meaning an empty cell, compacted into the model's
    /// bottom-to-top occupied form. Rejects any shape mismatch.
    pub fn from_rows(rows: &Vec<Vec<u8>>, levels: usize, n_of_bottles: usize) -> (r: Result<
        Board,
        SolveError,
    >)
        requires
            config_ok(levels as int, n_of_bottles as int),
        ensures
            rows_ok(rows.deep_view(), levels as int, n_of_bottles as int) ==> (r matches Ok(b)
                && b.inv() && b.cap() == levels && b@ == board_of_rows(rows.deep_view())),
            !rows_ok(rows.deep_view(), levels as int, n_of_bottles as int) ==> (r matches Err(e)
                && e == SolveError::InputShapeError),
    {
        proof {
            assert(forall|i: int|
                0 <= i < rows@.len() ==> rows.deep_view()[i] == #[trigger] rows@[i]@);
        }
        if rows.len() != n_of_bottles {
            return Err(SolveError::InputShapeError);
        }
        let mut bottles: Vec<Bottle> = Vec::new();
        let mut i: usize = 0;
        while i < n_of_bottles
            invariant
                i <= n_of_bottles,
                rows@.len() == n_of_bottles,
                bottles@.len() == i,
                config_ok(levels as int, n_of_bottles as int),
                forall|j: int| 0 <= j < rows@.len() ==> rows.deep_view()[j] == #[trigger] rows@[j]@,
                forall|j: int| 0 <= j < i ==> #[trigger] rows@[j]@.len() == levels,
                forall|j: int|
                    0 <= j < i ==> (#[trigger] bottles@[j]).inv(levels as nat) && bottles@[j]@
                        == compact(rows@[j]@),
            decreases n_of_bottles - i,
        {
            let row = &rows[i];
            if row.len() != levels {
                return Err(SolveError::InputShapeError);
            }
            let mut cells: Vec<u8> = Vec::new();
            let mut z: usize = 0;
            while z < levels
                invariant
                    z <= levels,
                    cells@.len() == z,
                    forall|k: int| 0 <= k < z ==> #[trigger] cells@[k] == 0,
                decreases levels - z,
            {
                cells.push(0);
                z += 1;
            }
            let mut idx: usize = 0;
            let mut j: usize = row.len();
            proof {
                assert(row@.skip(row@.len() as int) =~= Seq::<u8>::empty());
            }
            while j > 0
                invariant
                    j <= row@.len(),
                    row@.len() == levels,
                    cells@.len() == levels,
                    idx == compact(row@.skip(j as int)).len(),
                    idx <= levels,
                    cells@.take(idx as int) == compact(row@.skip(j as int)),
                    forall|k: int| idx <= k < levels ==> #[trigger] cells@[k] == 0,
                decreases j,
            {
                let c = row[j - 1];
                proof {
                    crate::model::lemma_compact_cons(row@[j - 1], row@.skip(j as int));
                    assert(row@.skip(j - 1) =~= seq![row@[j - 1]] + row@.skip(j as int));
                    lemma_compact_ok(row@.skip(j - 1));
                    assert(row@.skip(j - 1).len() == row@.len() - (j - 1));
                }
                if c != 0 {
                    cells.set(idx, c);
                    proof {
                        assert(cells@.take(idx + 1) =~= compact(row@.skip(j - 1)));
                    }
                    idx += 1;
                }
                j -= 1;
                proof {
                    if c == 0 {
                        assert(cells@.take(idx as int) =~= compact(row@.skip(j as int)));
                    }
                }
            }
            let top = if idx > 0 {
                cells[idx - 1]
            } else {
                0
            };
            let b = Bottle { cells, fill: idx, top };
            proof {
                assert(row@.skip(0) =~= row@);
                lemma_compact_ok(row@);
                assert(b@ =~= compact(row@));
                assert(forall|k: int| 0 <= k < idx ==> b.cells@[k] == compact(row@)[k]);
                if idx > 0 {
                    assert(top_color(b@) == compact(row@)[idx - 1]);
                }
                assert(b.inv(levels as nat));
            }
            bottles.push(b);
            i += 1;
        }
        let r = Board { bottles, levels };
        proof {
            assert(rows_ok(rows.deep_view(), levels as int, n_of_bottles as int));
            assert(r@ =~~= board_of_rows(rows.deep_view()));
        }
        Ok(r)
    }
}

impl Board {
    /// An independent copy of the board.
    pub fn duplicate(&self) -> (r: Board)
        requires
            self.inv(),
        ensures
            r@ == self@,
            r.inv(),
            r.cap() == self.cap(),
    {
        let mut nb: Vec<Bottle> = Vec::new();
        let mut i: usize = 0;
        while i < self.bottles.len()
            invariant
                i <= self.bottles@.len(),
                nb@.len() == i,
                forall|j: int|
                    0 <= j < i ==> (#[trigger] nb@[j]).inv(self.cap()) && nb@[j]@ == self@[j],
            decreases self.bottles@.len() - i,
        {
            let c = clone_bottle(&self.bottles[i]);
            nb.push(c);
            i += 1;
        }
        let r = Board { bottles: nb, levels: self.levels };
        proof {
            assert(r@ =~= self@);
        }
        r
    }
}

/// Whether two boards hold the same contents at the same capacity.
pub fn boards_equal(a: &Board, b: &Board) -> (r: bool)
    requires
        a.inv(),
        b.inv(),
    ensures
        r <==> (a@ == b@ && a.cap() == b.cap()),
{
    if a.levels != b.levels {
        return false;
    }
    if a.bottles.len() != b.bottles.len() {
        assert(a@.len() != b@.len());
        return false;
    }
    let mut i: usize = 0;
    while i < a.bottles.len()
        invariant
            i <= a@.len(),
            a.inv(),
            b.inv(),
            a@.len() == b@.len(),
            forall|j: int| 0 <= j < i ==> #[trigger] a@[j] == b@[j],
        decreases a@.len() - i,
    {
        let x = &a.bottles[i];
        let y = &b.bottles[i];
        if x.fill != y.fill {
            assert(a@[i as int].len() != b@[i as int].len());
            return false;
        }
        let mut k: usize = 0;
        while k < x.fill
            invariant
                k <= x.fill,
                a.inv(),
                b.inv(),
                i < a@.len(),
                i < b@.len(),
                x == &a.bottles[i as int],
                y == &b.bottles[i as int],
                x.fill == y.fill,
                forall|l: int| 0 <= l < k ==> a@[i as int][l] == b@[i as int][l],
            decreases x.fill - k,
        {
            if x.cells[k] != y.cells[k] {
                assert(a@[i as int][k as int] != b@[i as int][k as int]);
                return false;
            }
            k += 1;
        }
        proof {
            assert(a@[i as int] =~= b@[i as int]);
        }
        i += 1;
    }
    proof {
        assert(a@ =~~= b@);
    }
    true
}

} // verus!
