//! The schedule of a pass: which places meet, and in which order.
//!
//! Agents are paired by their places in the population, every place with every
//! later place. [`pairings`] is the schedule of a whole pass, and
//! [`lemma_pairings`] states what makes it a round-robin: each two agents meet
//! exactly once, and no agent meets itself.
use vstd::prelude::*;

verus! {

/// The games that the agent at place `row` opens in a pass over `n` agents: it
/// meets each agent that stands after it, nearest first.
pub open spec fn row_pairs(n: int, row: int) -> Seq<(int, int)> {
    Seq::new((n - 1 - row) as nat, |k: int| (row, row + 1 + k))
}

/// The games of a pass over `n` agents that are opened by the agents at the
/// first `rows` places, in the order in which they are played.
pub open spec fn pairings_before(n: int, rows: int) -> Seq<(int, int)>
    decreases rows,
{
    if rows <= 0 {
        Seq::empty()
    } else {
        pairings_before(n, rows - 1) + row_pairs(n, rows - 1)
    }
}

/// The schedule of one pass over `n` agents: pairs of places, in the order in
/// which they are played.
pub open spec fn pairings(n: nat) -> Seq<(int, int)> {
    pairings_before(n as int, n as int)
}

/// The schedule of a pass over `n` agents up to the point where the agent at
/// place `row` has opened `done` of its games.
pub open spec fn pairings_until(n: int, row: int, done: int) -> Seq<(int, int)> {
    pairings_before(n, row) + row_pairs(n, row).take(done)
}

/// The number of games that the agent at `place` has played when a pass over
/// `n` agents has come to the point where the agent at `row` has opened `done`
/// of its games.
pub open spec fn games_played(n: int, row: int, done: int, place: int) -> int {
    if place < row {
        n - 1
    } else if place == row {
        row + done
    } else if place <= row + done {
        row + 1
    } else {
        row
    }
}

/// The place of the opponent in the game that the agent at `place` plays as
/// its `turn`-th of a pass, counting from 0: it meets the others in the order
/// in which they stand, and passes over itself.
pub open spec fn opponent(place: int, turn: int) -> int {
    if turn < place {
        turn
    } else {
        turn + 1
    }
}

/// One more game of a row extends the schedule by that game, and a row that
/// has opened all its games hands over to the next row.
pub proof fn lemma_pairings_until(n: int, row: int, done: int)
    requires
        0 <= row < n,
        0 <= done <= n - 1 - row,
    ensures
        pairings_until(n, row, 0) == pairings_before(n, row),
        done < n - 1 - row ==> pairings_until(n, row, done + 1) == pairings_until(
            n,
            row,
            done,
        ).push((row, row + 1 + done)),
        pairings_until(n, row, n - 1 - row) == pairings_before(n, row + 1),
{
    assert(pairings_until(n, row, 0) =~= pairings_before(n, row));
    if done < n - 1 - row {
        assert(pairings_until(n, row, done + 1) =~= pairings_until(n, row, done).push(
            (row, row + 1 + done),
        ));
    }
    assert(row_pairs(n, row).take(n - 1 - row) =~= row_pairs(n, row));
}

/// A pass over `n` agents has `n * (n - 1) / 2` games. Each is between two
/// different places, the earlier place named first, so that no agent meets
/// itself. Every two places meet, and no game is played twice, in either order.
pub proof fn lemma_pairings(n: nat)
    ensures
        pairings(n).len() * 2 == n * (n - 1),
        pairings(n).len() == n * (n - 1) / 2,
        forall|k: int|
            0 <= k < pairings(n).len() ==> 0 <= (#[trigger] pairings(n)[k]).0 < pairings(n)[k].1
                < n,
        forall|first: int, second: int|
            0 <= first < second < n ==> pairings(n).contains((first, second)),
        forall|first: int, second: int|
            pairings(n).contains((first, second)) ==> !pairings(n).contains((second, first)),
        pairings(n).no_duplicates(),
{
    lemma_pairings_before(n as int, n as int);
    assert forall|first: int, second: int| pairings(n).contains((first, second)) implies !pairings(
        n,
    ).contains((second, first)) by {
        let k = choose|k: int| 0 <= k < pairings(n).len() && pairings(n)[k] == (first, second);
        assert(pairings(n)[k].0 < pairings(n)[k].1);
        if pairings(n).contains((second, first)) {
            let j = choose|j: int| 0 <= j < pairings(n).len() && pairings(n)[j] == (second, first);
            assert(pairings(n)[j].0 < pairings(n)[j].1);
        }
    }
    assert(n * (n - 1) == n * (2 * n - 1 - n)) by (nonlinear_arith);
}

/// The same of the games that the first `rows` places open.
pub proof fn lemma_pairings_before(n: int, rows: int)
    requires
        0 <= rows <= n,
    ensures
        pairings_before(n, rows).len() * 2 == rows * (2 * n - 1 - rows),
        forall|k: int|
            0 <= k < pairings_before(n, rows).len() ==> 0 <= (#[trigger] pairings_before(
                n,
                rows,
            )[k]).0 < pairings_before(n, rows)[k].1 < n && pairings_before(n, rows)[k].0 < rows,
        forall|first: int, second: int|
            0 <= first < second < n && first < rows ==> pairings_before(n, rows).contains(
                (first, second),
            ),
        pairings_before(n, rows).no_duplicates(),
    decreases rows,
{
    if rows > 0 {
        let row = rows - 1;
        let earlier = pairings_before(n, row);
        let added = row_pairs(n, row);
        let all = pairings_before(n, rows);
        lemma_pairings_before(n, row);
        assert(all == earlier + added);
        assert((row + 1) * (2 * n - 1 - (row + 1)) == row * (2 * n - 1 - row) + 2 * (n - 1 - row))
            by (nonlinear_arith);
        assert forall|first: int, second: int|
            0 <= first < second < n && first < rows implies all.contains((first, second)) by {
            if first < row {
                assert(earlier.contains((first, second)));
                let k = choose|k: int| 0 <= k < earlier.len() && earlier[k] == (first, second);
                assert(all[k] == (first, second));
            } else {
                let k = earlier.len() + (second - row - 1);
                assert(added[second - row - 1] == (first, second));
                assert(all[k] == (first, second));
            }
        }
        assert forall|a: int, b: int| 0 <= a < all.len() && 0 <= b < all.len() && a != b implies all[a]
            != all[b] by {
            if a < earlier.len() && b < earlier.len() {
                assert(earlier[a] != earlier[b]);
            } else if a >= earlier.len() && b >= earlier.len() {
                assert(all[a] == added[a - earlier.len()]);
                assert(all[b] == added[b - earlier.len()]);
            } else if a < earlier.len() {
                assert(earlier[a].0 < row);
                assert(all[b] == added[b - earlier.len()]);
            } else {
                assert(earlier[b].0 < row);
                assert(all[a] == added[a - earlier.len()]);
            }
        }
    }
}

} // verus!
