//! General laws of the board model: conservation of colors under pours and
//! the algebra of replaying movement sequences.

use vstd::prelude::*;

use crate::model::Movement;
use crate::model::apply_move;
use crate::model::board_solved;
use crate::model::bottle_mono;
use crate::model::color_count;
use crate::model::color_count_upto;
use crate::model::count_in;
use crate::model::lemma_move_legal_bounds;
use crate::model::move_legal;
use crate::model::pourable;
use crate::model::replay;
use crate::model::replay_ok;

verus! {

/// Counting a color distributes over concatenation.
proof fn lemma_count_in_concat(a: Seq<u8>, b: Seq<u8>, c: u8)
    ensures
        count_in(a + b, c) == count_in(a, c) + count_in(b, c),
    decreases b.len(),
{
    if b.len() == 0 {
        assert(a + b =~= a);
    } else {
        assert((a + b).drop_last() =~= a + b.drop_last());
        assert((a + b).last() == b.last());
        lemma_count_in_concat(a, b.drop_last(), c);
    }
}

/// Counting a color splits at any cut point.
proof fn lemma_count_split(s: Seq<u8>, k: int, c: u8)
    requires
        0 <= k <= s.len(),
    ensures
        count_in(s, c) == count_in(s.take(k), c) + count_in(s.skip(k), c),
{
    assert(s =~= s.take(k) + s.skip(k));
    lemma_count_in_concat(s.take(k), s.skip(k), c);
}

/// How replacing one bottle changes the running color count.
proof fn lemma_ccount_upto_update(bs: Seq<Seq<u8>>, c: u8, i: int, x: Seq<u8>, k: int)
    requires
        0 <= i < bs.len(),
        k <= bs.len(),
    ensures
        0 <= i < k ==> color_count_upto(bs.update(i, x), c, k) + count_in(bs[i], c)
            == color_count_upto(bs, c, k) + count_in(x, c),
        k <= i ==> color_count_upto(bs.update(i, x), c, k) == color_count_upto(bs, c, k),
    decreases k,
{
    if k > 0 {
        lemma_ccount_upto_update(bs, c, i, x, k - 1);
    }
}

/// Conservation: a legal pour moves units between two bottles but never
/// creates or destroys one, so the total count of each color across the
/// whole board is unchanged.
pub proof fn lemma_pour_conservation(bs: Seq<Seq<u8>>, cap: nat, m: Movement, c: u8)
    requires
        move_legal(bs, cap, m),
    ensures
        color_count(apply_move(bs, cap, m), c) == color_count(bs, c),
{
    lemma_move_legal_bounds(bs, cap, m);
    let f = m.from as int;
    let t = m.to as int;
    let src = bs[f];
    let dst = bs[t];
    let cut = src.len() - m.amount;
    let keep = src.take(cut);
    let moved = src.skip(cut);
    let bs1 = bs.update(f, keep);
    let bs2 = bs1.update(t, dst + moved);
    assert(apply_move(bs, cap, m) == bs2);
    lemma_count_split(src, cut, c);
    lemma_count_in_concat(dst, moved, c);
    lemma_ccount_upto_update(bs, c, f, keep, bs.len() as int);
    assert(bs1[t] == dst);
    lemma_ccount_upto_update(bs1, c, t, dst + moved, bs1.len() as int);
}

/// Appending one legal move to a replayed sequence.
pub proof fn lemma_replay_snoc(bs: Seq<Seq<u8>>, cap: nat, ms: Seq<Movement>, m: Movement)
    requires
        replay_ok(bs, cap, ms),
        move_legal(replay(bs, cap, ms), cap, m),
    ensures
        replay_ok(bs, cap, ms.push(m)),
        replay(bs, cap, ms.push(m)) == apply_move(replay(bs, cap, ms), cap, m),
    decreases ms.len(),
{
    if ms.len() == 0 {
        assert(ms.push(m)[0] == m);
        assert(ms.push(m).skip(1) =~= Seq::<Movement>::empty());
        assert(replay(bs, cap, ms) == bs);
        assert(replay_ok(apply_move(bs, cap, m), cap, Seq::<Movement>::empty()));
        assert(replay(apply_move(bs, cap, m), cap, Seq::<Movement>::empty()) == apply_move(
            bs,
            cap,
            m,
        ));
    } else {
        assert(ms.push(m)[0] == ms[0]);
        assert(ms.push(m).skip(1) =~= ms.skip(1).push(m));
        lemma_replay_snoc(apply_move(bs, cap, ms[0]), cap, ms.skip(1), m);
    }
}

/// Replaying a concatenation is replaying the parts one after the other.
pub proof fn lemma_replay_concat(bs: Seq<Seq<u8>>, cap: nat, p: Seq<Movement>, q: Seq<Movement>)
    requires
        replay_ok(bs, cap, p),
        replay_ok(replay(bs, cap, p), cap, q),
    ensures
        replay_ok(bs, cap, p + q),
        replay(bs, cap, p + q) == replay(replay(bs, cap, p), cap, q),
    decreases p.len(),
{
    if p.len() == 0 {
        assert(p + q =~= q);
        assert(replay(bs, cap, p) == bs);
    } else {
        assert((p + q)[0] == p[0]);
        assert((p + q).skip(1) =~= p.skip(1) + q);
        lemma_replay_concat(apply_move(bs, cap, p[0]), cap, p.skip(1), q);
    }
}

/// On a solved board no pour into an empty bottle is legal: every nonempty
/// bottle is single-colored, and pouring a single-colored bottle into an
/// empty one is the forbidden no-op shuffle.
pub proof fn lemma_solved_no_pour_into_empty(bs: Seq<Seq<u8>>, cap: nat, f: int, t: int)
    requires
        board_solved(bs),
        0 <= t < bs.len(),
        bs[t].len() == 0,
    ensures
        !pourable(bs, cap, f, t),
{
    if pourable(bs, cap, f, t) {
        assert(bs[f].len() > 0);
        assert(bottle_mono(bs[f]));
    }
}

} // verus!
