//! Alternation replay: inferring an ordered move sequence from an unordered
//! board snapshot.
//!
//! The snapshot stores only which cells are owned by which player.  The game
//! engine, however, is move-sequence driven.  The only sound assumption
//! derivable from the snapshot is that moves alternated strictly between the
//! two players, starting with the game's starting player.  Scanning the nine
//! cells in row-major order, the starting player's cells fill the even move
//! slots and the other player's cells fill the odd slots.

use vstd::prelude::*;
use crate::game::Player;

verus! {

/// How many cells of `b` hold the value `v`.
pub open spec fn count_marks(b: Seq<u32>, v: u32) -> int
    decreases b.len(),
{
    if b.len() == 0 {
        0
    } else {
        count_marks(b.drop_last(), v) + if b.last() == v {
            1int
        } else {
            0int
        }
    }
}

/// The count invariant of a snapshot: the starting player has made either
/// the same number of moves as the other player or exactly one more.
pub open spec fn counts_ok(b: Seq<u32>, start: Player) -> bool {
    let f = count_marks(b, start.spec_mark());
    let s = count_marks(b, start.spec_other().spec_mark());
    s <= f <= s + 1
}

/// The indices of the cells of `b` holding the value `v`, in increasing
/// order.
pub open spec fn cells_with(b: Seq<u32>, v: u32) -> Seq<int>
    decreases b.len(),
{
    if b.len() == 0 {
        Seq::empty()
    } else {
        cells_with(b.drop_last(), v) + if b.last() == v {
            seq![b.len() - 1]
        } else {
            Seq::empty()
        }
    }
}

/// The sequence that takes its even elements from `f` and its odd elements
/// from `s`, in order.
pub open spec fn interleave(f: Seq<int>, s: Seq<int>) -> Seq<int> {
    Seq::new(f.len() + s.len(), |k: int| if k % 2 == 0 { f[k / 2] } else { s[k / 2] })
}

/// The inferred move order for a snapshot: the starting player's cells in
/// row-major order fill the even slots, the other player's cells the odd
/// slots.
pub open spec fn replay_seq(b: Seq<u32>, start: Player) -> Seq<int> {
    interleave(cells_with(b, start.spec_mark()), cells_with(b, start.spec_other().spec_mark()))
}

/// The player who owns the move in slot `k` of a game started by `start` is
/// player X.
pub open spec fn slot_owner_x(start: Player, k: int) -> bool {
    (k % 2 == 0) == (start is PlayerX)
}

/// The player who owns the move in slot `k` of a game started by `start`.
pub open spec fn slot_mover(start: Player, k: int) -> Player {
    if k % 2 == 0 {
        start
    } else {
        start.spec_other()
    }
}

/// The player who has to move after all cells of `b` were replayed.
pub open spec fn whose_turn(b: Seq<u32>, start: Player) -> Player {
    slot_mover(start, count_marks(b, 1u32) + count_marks(b, 2u32))
}

/// Properties of `cells_with`: it lists exactly the indices of the cells
/// holding `v`, each in range, in strictly increasing order.
pub proof fn lemma_cells_with(b: Seq<u32>, v: u32)
    ensures
        cells_with(b, v).len() == count_marks(b, v),
        forall|k: int|
            0 <= k < cells_with(b, v).len() ==> 0 <= #[trigger] cells_with(b, v)[k] < b.len()
                && b[cells_with(b, v)[k]] == v,
        forall|k1: int, k2: int|
            0 <= k1 < k2 < cells_with(b, v).len() ==> #[trigger] cells_with(b, v)[k1]
                < #[trigger] cells_with(b, v)[k2],
        forall|i: int|
            0 <= i < b.len() && b[i] == v ==> exists|k: int|
                0 <= k < cells_with(b, v).len() && #[trigger] cells_with(b, v)[k] == i,
    decreases b.len(),
{
    if b.len() > 0 {
        let p = b.drop_last();
        lemma_cells_with(p, v);
        assert forall|i: int| 0 <= i < b.len() && b[i] == v implies exists|k: int|
            0 <= k < cells_with(b, v).len() && #[trigger] cells_with(b, v)[k] == i by {
            if i < p.len() {
                assert(p[i] == v);
                let k = choose|k: int| 0 <= k < cells_with(p, v).len() && #[trigger] cells_with(
                    p,
                    v,
                )[k] == i;
                assert(cells_with(b, v)[k] == i);
            } else {
                assert(b.last() == v);
                assert(cells_with(b, v)[cells_with(b, v).len() - 1] == i);
            }
        }
    }
}

/// The cells of a snapshot as the engine holds them after a faithful
/// replay: a map from the row-major index of each occupied cell to whether
/// player X owns it.
pub open spec fn board_marks(b: Seq<u32>) -> Map<int, bool> {
    Map::new(|i: int| 0 <= i < b.len() && b[i] != 0, |i: int| b[i] == 2)
}

/// The engine contents after the first `k` slots of the move order `rs`
/// were replayed, each owned by the player of its slot.
pub open spec fn marks_upto(rs: Seq<int>, start: Player, k: int) -> Map<int, bool>
    decreases k,
{
    if k <= 0 {
        Map::empty()
    } else {
        marks_upto(rs, start, k - 1).insert(rs[k - 1], slot_owner_x(start, k - 1))
    }
}

/// Properties of the inferred move order: under the count invariant it
/// visits exactly the occupied cells, each exactly once, and the cell of
/// slot `k` carries the mark of the player who owns slot `k`.
pub proof fn lemma_replay_seq(b: Seq<u32>, start: Player)
    requires
        b.len() == 9,
        forall|i: int| 0 <= i < 9 ==> b[i] <= 2,
        counts_ok(b, start),
    ensures
        forall|k: int|
            0 <= k < replay_seq(b, start).len() ==> 0 <= #[trigger] replay_seq(b, start)[k] < 9
                && b[replay_seq(b, start)[k]] == (if slot_owner_x(start, k) {
                2u32
            } else {
                1u32
            }),
        forall|k1: int, k2: int|
            0 <= k1 < k2 < replay_seq(b, start).len() ==> #[trigger] replay_seq(b, start)[k1]
                != #[trigger] replay_seq(b, start)[k2],
        forall|i: int|
            0 <= i < 9 && b[i] != 0 ==> exists|k: int|
                0 <= k < replay_seq(b, start).len() && #[trigger] replay_seq(b, start)[k] == i,
{
    let fm = start.spec_mark();
    let sm = start.spec_other().spec_mark();
    let f = cells_with(b, fm);
    let s = cells_with(b, sm);
    let rs = replay_seq(b, start);
    lemma_cells_with(b, fm);
    lemma_cells_with(b, sm);
    assert(s.len() <= f.len() <= s.len() + 1);
    assert forall|k: int| 0 <= k < rs.len() implies 0 <= #[trigger] rs[k] < 9 && b[rs[k]] == (
    if slot_owner_x(start, k) {
        2u32
    } else {
        1u32
    }) by {
        if k % 2 == 0 {
            assert(k / 2 < f.len());
            assert(rs[k] == f[k / 2]);
            assert(b[rs[k]] == fm);
        } else {
            assert(k / 2 < s.len());
            assert(rs[k] == s[k / 2]);
            assert(b[rs[k]] == sm);
        }
    }
    assert forall|k1: int, k2: int| 0 <= k1 < k2 < rs.len() implies #[trigger] rs[k1]
        != #[trigger] rs[k2] by {
        if k1 % 2 == k2 % 2 {
            if k1 % 2 == 0 {
                assert(rs[k1] == f[k1 / 2] && rs[k2] == f[k2 / 2] && k1 / 2 < k2 / 2 < f.len());
                assert(f[k1 / 2] < f[k2 / 2]);
            } else {
                assert(rs[k1] == s[k1 / 2] && rs[k2] == s[k2 / 2] && k1 / 2 < k2 / 2 < s.len());
                assert(s[k1 / 2] < s[k2 / 2]);
            }
        } else {
            assert(b[rs[k1]] != b[rs[k2]]);
        }
    }
    assert forall|i: int| 0 <= i < 9 && b[i] != 0 implies exists|k: int|
        0 <= k < rs.len() && #[trigger] rs[k] == i by {
        if b[i] == fm {
            let j = choose|j: int| 0 <= j < f.len() && #[trigger] f[j] == i;
            assert(rs[2 * j] == f[(2 * j) / 2]);
            assert((2 * j) / 2 == j) by (nonlinear_arith);
            assert(rs[2 * j] == i);
        } else {
            assert(b[i] == sm);
            let j = choose|j: int| 0 <= j < s.len() && #[trigger] s[j] == i;
            assert(rs[2 * j + 1] == s[(2 * j + 1) / 2]);
            assert((2 * j + 1) / 2 == j) by (nonlinear_arith);
            assert(rs[2 * j + 1] == i);
        }
    }
}

/// What `marks_upto` holds after `k` slots: exactly the cells of the first
/// `k` slots, and, since slots never repeat a cell, each cell keeps the
/// owner of its slot.
pub proof fn lemma_marks_upto_lookup(rs: Seq<int>, start: Player, k: int)
    requires
        0 <= k <= rs.len(),
        forall|k1: int, k2: int| 0 <= k1 < k2 < rs.len() ==> #[trigger] rs[k1] != #[trigger] rs[k2],
    ensures
        forall|j: int|
            0 <= j < k ==> #[trigger] marks_upto(rs, start, k).dom().contains(rs[j]) && marks_upto(
                rs,
                start,
                k,
            )[rs[j]] == slot_owner_x(start, j),
        forall|i: int|
            marks_upto(rs, start, k).dom().contains(i) ==> exists|j: int|
                0 <= j < k && #[trigger] rs[j] == i,
    decreases k,
{
    if k > 0 {
        lemma_marks_upto_lookup(rs, start, k - 1);
        assert forall|j: int| 0 <= j < k implies #[trigger] marks_upto(rs, start, k).dom().contains(
            rs[j],
        ) && marks_upto(rs, start, k)[rs[j]] == slot_owner_x(start, j) by {
            assert(marks_upto(rs, start, k) == marks_upto(rs, start, k - 1).insert(
                rs[k - 1],
                slot_owner_x(start, k - 1),
            ));
            if j < k - 1 {
                assert(marks_upto(rs, start, k - 1).dom().contains(rs[j]));
                assert(marks_upto(rs, start, k - 1)[rs[j]] == slot_owner_x(start, j));
                assert(rs[j] != rs[k - 1]);
            }
        }
        assert forall|i: int| marks_upto(rs, start, k).dom().contains(i) implies exists|j: int|
            0 <= j < k && #[trigger] rs[j] == i by {
            if i != rs[k - 1] {
                assert(marks_upto(rs, start, k - 1).dom().contains(i));
            } else {
                assert(rs[k - 1] == i);
            }
        }
    }
}

/// Law: replaying every slot of the inferred move order hands the engine
/// exactly the occupied cells of the snapshot, each with its owner.
pub proof fn lemma_replay_marks(b: Seq<u32>, start: Player)
    requires
        b.len() == 9,
        forall|i: int| 0 <= i < 9 ==> b[i] <= 2,
        counts_ok(b, start),
    ensures
        marks_upto(replay_seq(b, start), start, replay_seq(b, start).len() as int) == board_marks(
            b,
        ),
{
    let rs = replay_seq(b, start);
    lemma_replay_seq(b, start);
    lemma_marks_upto_lookup(rs, start, rs.len() as int);
    let m = marks_upto(rs, start, rs.len() as int);
    assert forall|i: int| m.dom().contains(i) implies board_marks(b).dom().contains(i) && m[i]
        == board_marks(b)[i] by {
        let j = choose|j: int| 0 <= j < rs.len() && #[trigger] rs[j] == i;
        assert(b[i] == (if slot_owner_x(start, j) {
            2u32
        } else {
            1u32
        }));
        assert(m[rs[j]] == slot_owner_x(start, j));
    }
    assert forall|i: int| board_marks(b).dom().contains(i) implies m.dom().contains(i) by {
        let k = choose|k: int| 0 <= k < rs.len() && #[trigger] rs[k] == i;
        assert(m.dom().contains(rs[k]));
    }
    assert(m =~= board_marks(b));
}

/// An all-empty board holds no mark of either player.
pub proof fn lemma_count_all_zero(b: Seq<u32>, v: u32)
    requires
        v != 0,
        forall|i: int| 0 <= i < b.len() ==> b[i] == 0,
    ensures
        count_marks(b, v) == 0,
    decreases b.len(),
{
    if b.len() > 0 {
        lemma_count_all_zero(b.drop_last(), v);
    }
}

/// The inferred move order has one slot for each occupied cell.
pub proof fn lemma_replay_len(b: Seq<u32>, start: Player)
    ensures
        replay_seq(b, start).len() == count_marks(b, 1u32) + count_marks(b, 2u32),
{
    lemma_cells_with(b, start.spec_mark());
    lemma_cells_with(b, start.spec_other().spec_mark());
}

/// Writing a mark into a free cell adds exactly that cell to the board's
/// contents.
pub proof fn lemma_board_marks_update(b: Seq<u32>, i: int, v: u32)
    requires
        0 <= i < b.len(),
        v != 0,
    ensures
        board_marks(b.update(i, v)) == board_marks(b).insert(i, v == 2),
{
    assert(board_marks(b.update(i, v)) =~= board_marks(b).insert(i, v == 2));
}

/// Computes the inferred move order for a snapshot, or `None` when the count
/// invariant is violated, in which case no legal move order exists under the
/// alternation assumption.  Each returned entry is a cell index below nine.
pub fn replay_moves(board: &Vec<u32>, start: Player) -> (r: Option<Vec<u8>>)
    requires
        board@.len() == 9,
    ensures
        r is Some <==> counts_ok(board@, start),
        r matches Some(mv) ==> {
            &&& mv@.len() == replay_seq(board@, start).len()
            &&& forall|k: int|
                0 <= k < mv@.len() ==> #[trigger] mv@[k] as int == replay_seq(board@, start)[k]
        },
{
    let fm = start.mark();
    let sm = start.other().mark();
    let ghost bv = board@;
    let mut firsts: Vec<u8> = Vec::new();
    let mut seconds: Vec<u8> = Vec::new();
    let mut i: usize = 0;
    while i < 9
        invariant
            board@ == bv,
            bv.len() == 9,
            i <= 9,
            fm == start.spec_mark(),
            sm == start.spec_other().spec_mark(),
            firsts@.len() + seconds@.len() <= i,
            firsts@.len() == cells_with(bv.take(i as int), fm).len(),
            forall|k: int|
                0 <= k < firsts@.len() ==> #[trigger] firsts@[k] as int == cells_with(
                    bv.take(i as int),
                    fm,
                )[k],
            seconds@.len() == cells_with(bv.take(i as int), sm).len(),
            forall|k: int|
                0 <= k < seconds@.len() ==> #[trigger] seconds@[k] as int == cells_with(
                    bv.take(i as int),
                    sm,
                )[k],
        decreases 9 - i,
    {
        proof {
            assert(bv.take(i + 1).drop_last() =~= bv.take(i as int));
            assert(bv.take(i + 1).last() == bv[i as int]);
        }
        let c = board[i];
        if c == fm {
            firsts.push(i as u8);
        } else if c == sm {
            seconds.push(i as u8);
        }
        i += 1;
    }
    proof {
        assert(bv.take(9) =~= bv);
        lemma_cells_with(bv, fm);
        lemma_cells_with(bv, sm);
    }
    if !(seconds.len() <= firsts.len() && firsts.len() <= seconds.len() + 1) {
        return None;
    }
    let total = firsts.len() + seconds.len();
    let mut moves: Vec<u8> = Vec::new();
    let mut k: usize = 0;
    while k < total
        invariant
            total == firsts@.len() + seconds@.len(),
            seconds@.len() <= firsts@.len() <= seconds@.len() + 1,
            k <= total,
            firsts@.len() == cells_with(bv, fm).len(),
            forall|j: int|
                0 <= j < firsts@.len() ==> #[trigger] firsts@[j] as int == cells_with(bv, fm)[j],
            seconds@.len() == cells_with(bv, sm).len(),
            forall|j: int|
                0 <= j < seconds@.len() ==> #[trigger] seconds@[j] as int == cells_with(bv, sm)[j],
            fm == start.spec_mark(),
            sm == start.spec_other().spec_mark(),
            moves@.len() == k,
            forall|j: int|
                0 <= j < k ==> #[trigger] moves@[j] as int == replay_seq(bv, start)[j],
        decreases total - k,
    {
        if k % 2 == 0 {
            moves.push(firsts[k / 2]);
        } else {
            moves.push(seconds[k / 2]);
        }
        k += 1;
    }
    Some(moves)
}

} // verus!
