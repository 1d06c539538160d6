//! Lists of moves in which no move stands twice.
use vstd::prelude::*;
use crate::moves::Move;

verus! {

/// Whether the moves of the list from place `from` on are all different.
#[verifier::opaque]
pub open spec fn distinct_from(moves: Seq<Move>, from: int) -> bool {
    forall|i: int, j: int| from <= i < j < moves.len() ==> moves[i] != moves[j]
}

/// A list with nothing from `from` on has nothing twice there.
pub proof fn lemma_distinct_none(moves: Seq<Move>, from: int)
    requires
        from >= moves.len(),
    ensures
        distinct_from(moves, from),
{
    reveal(distinct_from);
}

/// A move that is not among those from `from` on can follow them.
pub proof fn lemma_distinct_push(moves: Seq<Move>, from: int, m: Move)
    requires
        0 <= from,
        distinct_from(moves, from),
        forall|i: int| from <= i < moves.len() ==> moves[i] != m,
    ensures
        distinct_from(moves.push(m), from),
{
    reveal(distinct_from);
}

/// Two runs of different moves that have no move in common make one run
/// of different moves. `before` is the list as it was at the end of the
/// first run.
pub proof fn lemma_distinct_join(before: Seq<Move>, moves: Seq<Move>, from: int)
    requires
        0 <= from <= before.len() <= moves.len(),
        forall|i: int| 0 <= i < before.len() ==> moves[i] == before[i],
        distinct_from(before, from),
        distinct_from(moves, before.len() as int),
        forall|i: int, j: int|
            from <= i < before.len() && before.len() <= j < moves.len() ==> moves[i] != moves[j],
    ensures
        distinct_from(moves, from),
{
    reveal(distinct_from);
    assert forall|i: int, j: int| from <= i < j < moves.len() implies moves[i] != moves[j] by {
        if j < before.len() {
            assert(before[i] != before[j]);
        }
    }
}

/// A list whose moves are all different holds no move twice.
pub proof fn lemma_distinct_all(moves: Seq<Move>)
    requires
        distinct_from(moves, 0),
    ensures
        moves.no_duplicates(),
{
    reveal(distinct_from);
    assert forall|i: int, j: int|
        0 <= i < moves.len() && 0 <= j < moves.len() && i != j implies moves[i] != moves[j] by {
        if i < j {
            assert(moves[i] != moves[j]);
        } else {
            assert(moves[j] != moves[i]);
        }
    }
}

} // verus!
