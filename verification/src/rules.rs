//! What the solver asks of the functions it is given, and what a board
//! that it returns has to do with them.

use crate::board::{
    assigned_among, cells_in, fits, lemma_fits_open, lemma_valid_state, refines, settled_among,
    valid_board, without, Stage,
};
use crate::candidates::CandidateSet;
use crate::cell::{counted, CellView};
use vstd::prelude::*;

verus! {

/// What is asked of a neighbour function for a board of `size` cells: it can
/// be called on every cell, and names only cells of the board.
pub open spec fn neighbors_ok<NF: Fn(usize) -> Vec<usize>>(neighbors: NF, size: usize) -> bool {
    &&& forall|i: usize| i < size ==> call_requires(neighbors, (i,))
    &&& forall|i: usize, around: Vec<usize>|
        i < size && #[trigger] call_ensures(neighbors, (i,), around) ==> forall|k: int|
            0 <= k < around@.len() ==> #[trigger] around@[k] < size
}

/// What is asked of a reducer for a board of `size` cells with `states`
/// states: it can be called for every cell with any list of cells of the
/// board and the states they hold.
pub open spec fn reducer_ok<RF: Fn(Vec<(usize, usize)>, usize) -> CandidateSet>(
    reducer: RF,
    states: usize,
    size: usize,
) -> bool {
    forall|settled: Vec<(usize, usize)>, i: usize|
        #![trigger call_requires(reducer, (settled, i))]
        i < size && (forall|k: int|
            0 <= k < settled@.len() ==> (#[trigger] settled@[k]).0 < size && settled@[k].1 < states)
            ==> call_requires(reducer, (settled, i))
}

/// Every state below `states` has a positive weight, so that it can be drawn.
pub open spec fn positive<W: Fn(&usize) -> usize>(weights: W, states: usize) -> bool {
    forall|s: usize, w: usize| s < states && #[trigger] call_ensures(weights, (&s,), w) ==> w > 0
}

/// `assignment` solves the problem that the two functions pose on a board of
/// `S` cells with `N` states: whichever of the other cells are known, the
/// reducer, asked about a cell and the known cells among its neighbours with
/// the states that `assignment` gives them, never forbids the state that
/// `assignment` gives the cell.
pub open spec fn solves<NF, RF, const N: usize, const S: usize>(
    topology: NF,
    constraint: RF,
    assignment: Seq<usize>,
) -> bool where NF: Fn(usize) -> Vec<usize>, RF: Fn(Vec<(usize, usize)>, usize) -> CandidateSet {
    forall|i: usize, known: Set<int>, around: Vec<usize>, settled: Vec<(usize, usize)>, answer: CandidateSet|
        #![trigger call_ensures(topology, (i,), around), assigned_among(assignment, known, around@), call_ensures(constraint, (settled, i), answer)]
        {
            &&& i < S
            &&& call_ensures(topology, (i,), around)
            &&& settled@ == assigned_among(assignment, known, around@)
            &&& settled@.len() > 0
            &&& call_ensures(constraint, (settled, i), answer)
        } ==> !counted(answer, N).contains(assignment[i as int] as int)
}

/// Every solution that fills `before` fills `after`.
pub open spec fn keeps<NF, RF, const N: usize, const S: usize>(
    topology: NF,
    constraint: RF,
    before: Seq<CellView>,
    after: Seq<CellView>,
) -> bool where NF: Fn(usize) -> Vec<usize>, RF: Fn(Vec<(usize, usize)>, usize) -> CandidateSet {
    forall|assignment: Seq<usize>|
        #![trigger fits(assignment, before)]
        solves::<NF, RF, N, S>(topology, constraint, assignment) && fits(assignment, before)
            ==> fits(assignment, after)
}

/// No solution fills `board`.
pub open spec fn hopeless<NF, RF, const N: usize, const S: usize>(
    topology: NF,
    constraint: RF,
    board: Seq<CellView>,
) -> bool where NF: Fn(usize) -> Vec<usize>, RF: Fn(Vec<(usize, usize)>, usize) -> CandidateSet {
    forall|assignment: Seq<usize>|
        #![trigger fits(assignment, board)]
        solves::<NF, RF, N, S>(topology, constraint, assignment) ==> !fits(assignment, board)
}

/// Every solution that fills `root` fills `board` or one of `snapshots`: the
/// search has not lost a solution.
pub open spec fn covering<NF, RF, const N: usize, const S: usize>(
    topology: NF,
    constraint: RF,
    root: Seq<CellView>,
    board: Seq<CellView>,
    snapshots: Seq<Seq<CellView>>,
) -> bool where NF: Fn(usize) -> Vec<usize>, RF: Fn(Vec<(usize, usize)>, usize) -> CandidateSet {
    forall|assignment: Seq<usize>|
        #![trigger fits(assignment, root)]
        solves::<NF, RF, N, S>(topology, constraint, assignment) && fits(assignment, root) ==> fits(
            assignment,
            board,
        ) || exists|k: int| 0 <= k < snapshots.len() && fits(assignment, #[trigger] snapshots[k])
}

/// A change of the board by settling that keeps the solutions keeps them on
/// the open part of the board too.
pub proof fn lemma_keeps_open<NF, RF, const N: usize, const S: usize>(
    topology: NF,
    constraint: RF,
    before: Seq<CellView>,
    after: Seq<CellView>,
    barred: Seq<Set<int>>,
) where NF: Fn(usize) -> Vec<usize>, RF: Fn(Vec<(usize, usize)>, usize) -> CandidateSet
    requires
        keeps::<NF, RF, N, S>(topology, constraint, before, after),
        refines(after, before),
    ensures
        keeps::<NF, RF, N, S>(
            topology,
            constraint,
            without(before, barred),
            without(after, barred),
        ),
{
    let open_before = without(before, barred);
    let open_after = without(after, barred);
    assert forall|a: Seq<usize>|
        #![trigger fits(a, open_before)]
        solves::<NF, RF, N, S>(topology, constraint, a) && fits(a, open_before) implies fits(
        a,
        open_after,
    ) by {
        lemma_fits_open(a, before, barred);
        assert(fits(a, after));
        assert forall|j: int| 0 <= j < open_after.len() implies (#[trigger] open_after[j]).admits(
            a[j],
        ) by {
            assert(after[j].admits(a[j]));
            assert(open_before[j].admits(a[j]));
            assert(after[j].refines(before[j]));
        }
    }
}

/// No solution fills the open part of a board that no solution fills.
pub proof fn lemma_hopeless_open<NF, RF, const N: usize, const S: usize>(
    topology: NF,
    constraint: RF,
    board: Seq<CellView>,
    barred: Seq<Set<int>>,
) where NF: Fn(usize) -> Vec<usize>, RF: Fn(Vec<(usize, usize)>, usize) -> CandidateSet
    requires
        hopeless::<NF, RF, N, S>(topology, constraint, board),
    ensures
        hopeless::<NF, RF, N, S>(topology, constraint, without(board, barred)),
{
    assert forall|a: Seq<usize>|
        #![trigger fits(a, without(board, barred))]
        solves::<NF, RF, N, S>(topology, constraint, a) implies !fits(
        a,
        without(board, barred),
    ) by {
        if fits(a, without(board, barred)) {
            lemma_fits_open(a, board, barred);
        }
    }
}

/// A search that has lost no solution loses none when its board changes to
/// one that keeps the solutions.
pub proof fn lemma_covering_step<NF, RF, const N: usize, const S: usize>(
    topology: NF,
    constraint: RF,
    root: Seq<CellView>,
    board: Seq<CellView>,
    snapshots: Seq<Seq<CellView>>,
    next: Seq<CellView>,
) where NF: Fn(usize) -> Vec<usize>, RF: Fn(Vec<(usize, usize)>, usize) -> CandidateSet
    requires
        covering::<NF, RF, N, S>(topology, constraint, root, board, snapshots),
        keeps::<NF, RF, N, S>(topology, constraint, board, next),
    ensures
        covering::<NF, RF, N, S>(topology, constraint, root, next, snapshots),
{
    assert forall|assignment: Seq<usize>|
        #![trigger fits(assignment, root)]
        solves::<NF, RF, N, S>(topology, constraint, assignment) && fits(
            assignment,
            root,
        ) implies fits(assignment, next) || exists|k: int|
        0 <= k < snapshots.len() && fits(assignment, #[trigger] snapshots[k]) by {
        if fits(assignment, board) {
            assert(fits(assignment, next));
        }
    }
}

/// A search that has lost no solution loses none when it leaves a board that
/// no solution fills for the board kept last.
pub proof fn lemma_covering_pop<NF, RF, const N: usize, const S: usize>(
    topology: NF,
    constraint: RF,
    root: Seq<CellView>,
    board: Seq<CellView>,
    snapshots: Seq<Seq<CellView>>,
) where NF: Fn(usize) -> Vec<usize>, RF: Fn(Vec<(usize, usize)>, usize) -> CandidateSet
    requires
        covering::<NF, RF, N, S>(topology, constraint, root, board, snapshots),
        hopeless::<NF, RF, N, S>(topology, constraint, board),
        snapshots.len() > 0,
    ensures
        covering::<NF, RF, N, S>(
            topology,
            constraint,
            root,
            snapshots.last(),
            snapshots.drop_last(),
        ),
{
    let rest = snapshots.drop_last();
    assert forall|assignment: Seq<usize>|
        #![trigger fits(assignment, root)]
        solves::<NF, RF, N, S>(topology, constraint, assignment) && fits(
            assignment,
            root,
        ) implies fits(assignment, snapshots.last()) || exists|k: int|
        0 <= k < rest.len() && fits(assignment, #[trigger] rest[k]) by {
        assert(!fits(assignment, board));
        let k = choose|k: int| 0 <= k < snapshots.len() && fits(assignment, #[trigger] snapshots[k]);
        if k < rest.len() {
            assert(rest[k] == snapshots[k]);
        }
    }
}

/// A search that has lost no solution loses none when its board splits in
/// two that between them keep the solutions, and one of the two is kept.
pub proof fn lemma_covering_push<NF, RF, const N: usize, const S: usize>(
    topology: NF,
    constraint: RF,
    root: Seq<CellView>,
    board: Seq<CellView>,
    snapshots: Seq<Seq<CellView>>,
    next: Seq<CellView>,
    kept: Seq<CellView>,
) where NF: Fn(usize) -> Vec<usize>, RF: Fn(Vec<(usize, usize)>, usize) -> CandidateSet
    requires
        covering::<NF, RF, N, S>(topology, constraint, root, board, snapshots),
        forall|assignment: Seq<usize>|
            #![trigger fits(assignment, board)]
            fits(assignment, board) ==> fits(assignment, next) || fits(assignment, kept),
    ensures
        covering::<NF, RF, N, S>(topology, constraint, root, next, snapshots.push(kept)),
{
    let more = snapshots.push(kept);
    assert forall|assignment: Seq<usize>|
        #![trigger fits(assignment, root)]
        solves::<NF, RF, N, S>(topology, constraint, assignment) && fits(
            assignment,
            root,
        ) implies fits(assignment, next) || exists|k: int|
        0 <= k < more.len() && fits(assignment, #[trigger] more[k]) by {
        if fits(assignment, board) {
            if !fits(assignment, next) {
                assert(more[snapshots.len() as int] == kept);
            }
        } else {
            let k = choose|k: int|
                0 <= k < snapshots.len() && fits(assignment, #[trigger] snapshots[k]);
            assert(more[k] == snapshots[k]);
        }
    }
}


/// The two boards hold the same states in the same cells.
pub open spec fn same_states(board: Seq<CellView>, other: Seq<CellView>) -> bool {
    &&& board.len() == other.len()
    &&& forall|j: int| 0 <= j < board.len() ==> (#[trigger] board[j]).value() == other[j].value()
}

/// Boards that hold the same states have the same settled cells among
/// `around`.
pub proof fn lemma_settled_among_same(
    board: Seq<CellView>,
    other: Seq<CellView>,
    around: Seq<usize>,
)
    requires
        same_states(board, other),
    ensures
        settled_among(board, around) == settled_among(other, around),
    decreases around.len(),
{
    if around.len() > 0 {
        lemma_settled_among_same(board, other, around.drop_last());
        let j = around.last();
        if j < board.len() {
            assert(board[j as int].value() == other[j as int].value());
        }
    }
}

/// The reducer lets cell `i` of `board` take `state`: nothing is settled
/// yet, or the cell has a list of neighbours none of which is settled, or the
/// reducer, asked about the cell and its settled neighbours, can give an
/// answer that does not forbid `state`.
pub open spec fn permits<NF, RF, const N: usize, const S: usize>(
    topology: NF,
    constraint: RF,
    board: Seq<CellView>,
    i: usize,
    state: usize,
) -> bool where NF: Fn(usize) -> Vec<usize>, RF: Fn(Vec<(usize, usize)>, usize) -> CandidateSet {
    ||| cells_in(board, Stage::Settled) == Set::<int>::empty()
    ||| exists|around: Vec<usize>| #[trigger]
        call_ensures(topology, (i,), around) && settled_among(board, around@).len() == 0
    ||| exists|around: Vec<usize>, settled: Vec<(usize, usize)>, answer: CandidateSet|
        #![trigger call_ensures(topology, (i,), around), call_ensures(constraint, (settled, i), answer)]
        {
            &&& call_ensures(topology, (i,), around)
            &&& settled@ == settled_among(board, around@)
            &&& settled@.len() > 0
            &&& call_ensures(constraint, (settled, i), answer)
            &&& !counted(answer, N).contains(state as int)
        }
}

/// Cell `i` of `board` has been reduced against its settled neighbours: the
/// reducer lets it take each of its candidates.
pub open spec fn at_rest<NF, RF, const N: usize, const S: usize>(
    topology: NF,
    constraint: RF,
    board: Seq<CellView>,
    i: usize,
) -> bool where NF: Fn(usize) -> Vec<usize>, RF: Fn(Vec<(usize, usize)>, usize) -> CandidateSet {
    forall|state: usize|
        board[i as int].domain().contains(state as int) ==> #[trigger] permits::<NF, RF, N, S>(
            topology,
            constraint,
            board,
            i,
            state,
        )
}

/// `board` is at a fixpoint of the propagation: every `Unknown` cell has
/// been reduced against its settled neighbours.
pub open spec fn stable<NF, RF, const N: usize, const S: usize>(
    topology: NF,
    constraint: RF,
    board: Seq<CellView>,
) -> bool where NF: Fn(usize) -> Vec<usize>, RF: Fn(Vec<(usize, usize)>, usize) -> CandidateSet {
    forall|i: int|
        0 <= i < board.len() && (#[trigger] board[i]) is Unknown ==> at_rest::<NF, RF, N, S>(
            topology,
            constraint,
            board,
            i as usize,
        )
}

/// `board` waits for nothing but a choice: it is at a fixpoint, unless cells
/// of it are `Reduced` and have yet to be propagated from.
pub open spec fn rested<NF, RF, const N: usize, const S: usize>(
    topology: NF,
    constraint: RF,
    board: Seq<CellView>,
) -> bool where NF: Fn(usize) -> Vec<usize>, RF: Fn(Vec<(usize, usize)>, usize) -> CandidateSet {
    cells_in(board, Stage::Pending) == Set::<int>::empty() ==> stable::<NF, RF, N, S>(
        topology,
        constraint,
        board,
    )
}

/// What the reducer lets a cell take on one board, it lets the cell take on
/// a board that holds the same states.
pub proof fn lemma_permits_same<NF, RF, const N: usize, const S: usize>(
    topology: NF,
    constraint: RF,
    board: Seq<CellView>,
    other: Seq<CellView>,
    i: usize,
    state: usize,
) where NF: Fn(usize) -> Vec<usize>, RF: Fn(Vec<(usize, usize)>, usize) -> CandidateSet
    requires
        permits::<NF, RF, N, S>(topology, constraint, board, i, state),
        same_states(board, other),
    ensures
        permits::<NF, RF, N, S>(topology, constraint, other, i, state),
{
    if cells_in(board, Stage::Settled) == Set::<int>::empty() {
        assert forall|j: int| !cells_in(other, Stage::Settled).contains(j) by {
            if 0 <= j < other.len() && other[j].is_settled() {
                assert(board[j].value() == other[j].value());
                assert(cells_in(board, Stage::Settled).contains(j));
            }
        }
        assert(cells_in(other, Stage::Settled) =~= Set::<int>::empty());
    } else if exists|around: Vec<usize>| #[trigger]
        call_ensures(topology, (i,), around) && settled_among(board, around@).len() == 0 {
        let around = choose|around: Vec<usize>| #[trigger]
            call_ensures(topology, (i,), around) && settled_among(board, around@).len() == 0;
        lemma_settled_among_same(board, other, around@);
    } else {
        let (around, settled, answer) = choose|
            around: Vec<usize>,
            settled: Vec<(usize, usize)>,
            answer: CandidateSet,
        |
            #![trigger call_ensures(topology, (i,), around), call_ensures(constraint, (settled, i), answer)]
            {
                &&& call_ensures(topology, (i,), around)
                &&& settled@ == settled_among(board, around@)
                &&& settled@.len() > 0
                &&& call_ensures(constraint, (settled, i), answer)
                &&& !counted(answer, N).contains(state as int)
            };
        lemma_settled_among_same(board, other, around@);
    }
}

/// A cell that has been reduced against its settled neighbours is so on a
/// board that holds the same states and gives the cell no new candidate.
pub proof fn lemma_at_rest_same<NF, RF, const N: usize, const S: usize>(
    topology: NF,
    constraint: RF,
    board: Seq<CellView>,
    other: Seq<CellView>,
    i: usize,
) where NF: Fn(usize) -> Vec<usize>, RF: Fn(Vec<(usize, usize)>, usize) -> CandidateSet
    requires
        at_rest::<NF, RF, N, S>(topology, constraint, board, i),
        same_states(board, other),
        i < board.len(),
        other[i as int].domain().subset_of(board[i as int].domain()),
    ensures
        at_rest::<NF, RF, N, S>(topology, constraint, other, i),
{
    assert forall|state: usize|
        other[i as int].domain().contains(state as int) implies #[trigger] permits::<NF, RF, N, S>(
        topology,
        constraint,
        other,
        i,
        state,
    ) by {
        assert(permits::<NF, RF, N, S>(topology, constraint, board, i, state));
        lemma_permits_same::<NF, RF, N, S>(topology, constraint, board, other, i, state);
    }
}

/// A board at a fixpoint stays at one when no state changes and no cell
/// gets a new candidate.
pub proof fn lemma_stable_same<NF, RF, const N: usize, const S: usize>(
    topology: NF,
    constraint: RF,
    board: Seq<CellView>,
    other: Seq<CellView>,
) where NF: Fn(usize) -> Vec<usize>, RF: Fn(Vec<(usize, usize)>, usize) -> CandidateSet
    requires
        stable::<NF, RF, N, S>(topology, constraint, board),
        same_states(board, other),
        forall|j: int|
            0 <= j < board.len() ==> (#[trigger] other[j]).domain().subset_of(board[j].domain()),
    ensures
        stable::<NF, RF, N, S>(topology, constraint, other),
{
    assert forall|i: int| 0 <= i < other.len() && (#[trigger] other[i]) is Unknown implies at_rest::<
        NF,
        RF,
        N,
        S,
    >(topology, constraint, other, i as usize) by {
        assert(board[i].value() == other[i].value());
        assert(board[i] is Unknown);
        lemma_at_rest_same::<NF, RF, N, S>(topology, constraint, board, other, i as usize);
    }
}

/// Cell `j` of `board` is settled and was so before `limit`.
pub open spec fn settled_by(board: Seq<CellView>, order: Seq<nat>, limit: nat, j: int) -> bool {
    0 <= j < board.len() && j < order.len() && board[j].value() is Some && order[j] < limit
}

/// The cells among `around` that were settled before `limit`, in that order,
/// each with its state.
pub open spec fn settled_before(
    board: Seq<CellView>,
    order: Seq<nat>,
    limit: nat,
    around: Seq<usize>,
) -> Seq<(usize, usize)>
    decreases around.len(),
{
    if around.len() == 0 {
        Seq::empty()
    } else {
        let before = settled_before(board, order, limit, around.drop_last());
        let j = around.last();
        if settled_by(board, order, limit, j as int) {
            before.push((j, board[j as int].value().unwrap()))
        } else {
            before
        }
    }
}

/// Two boards with the same cells settled before `limit`, holding the same
/// states, have the same such cells among `around`.
pub proof fn lemma_settled_before_same(
    board: Seq<CellView>,
    order: Seq<nat>,
    other: Seq<CellView>,
    other_order: Seq<nat>,
    limit: nat,
    around: Seq<usize>,
)
    requires
        forall|j: int|
            #![trigger settled_by(board, order, limit, j)]
            settled_by(board, order, limit, j) == settled_by(other, other_order, limit, j) && (
            settled_by(board, order, limit, j) ==> board[j].value() == other[j].value()),
    ensures
        settled_before(board, order, limit, around) == settled_before(
            other,
            other_order,
            limit,
            around,
        ),
    decreases around.len(),
{
    if around.len() > 0 {
        lemma_settled_before_same(board, order, other, other_order, limit, around.drop_last());
        let j = around.last() as int;
        assert(settled_by(board, order, limit, j) == settled_by(other, other_order, limit, j));
    }
}

/// Where every settled cell was settled before `limit`, the cells settled
/// before `limit` are the settled cells.
pub proof fn lemma_settled_before_all(
    board: Seq<CellView>,
    order: Seq<nat>,
    limit: nat,
    other: Seq<CellView>,
    around: Seq<usize>,
)
    requires
        forall|j: int|
            #![trigger settled_by(board, order, limit, j)]
            settled_by(board, order, limit, j) == (0 <= j < other.len() && other[j].value()
                is Some) && (settled_by(board, order, limit, j) ==> board[j].value()
                == other[j].value()),
    ensures
        settled_before(board, order, limit, around) == settled_among(other, around),
    decreases around.len(),
{
    if around.len() > 0 {
        lemma_settled_before_all(board, order, limit, other, around.drop_last());
        let j = around.last() as int;
        assert(settled_by(board, order, limit, j) == (0 <= j < other.len() && other[j].value()
            is Some));
    }
}

/// `order` stamps every settled cell of `board` with a time before `clock`.
pub open spec fn timely(board: Seq<CellView>, order: Seq<nat>, clock: nat) -> bool {
    &&& order.len() == board.len()
    &&& clock >= 1
    &&& forall|j: int| 0 <= j < board.len() && (#[trigger] board[j]).is_settled() ==> order[j] < clock
}

/// Cell `i` was settled to a state that the reducer let it take then: no
/// cell was settled before it, or it has a list of neighbours none of which
/// was, or the reducer, asked about the cell and its neighbours settled
/// before it, can give an answer that does not forbid the state.
pub open spec fn allowed<NF, RF, const N: usize, const S: usize>(
    topology: NF,
    constraint: RF,
    board: Seq<CellView>,
    order: Seq<nat>,
    i: int,
) -> bool where NF: Fn(usize) -> Vec<usize>, RF: Fn(Vec<(usize, usize)>, usize) -> CandidateSet {
    ||| forall|j: int| 0 <= j < board.len() && (#[trigger] board[j]).is_settled() ==> order[j] >= order[i]
    ||| exists|around: Vec<usize>| #[trigger]
        call_ensures(topology, (i as usize,), around) && settled_before(
            board,
            order,
            order[i],
            around@,
        ).len() == 0
    ||| exists|around: Vec<usize>, settled: Vec<(usize, usize)>, answer: CandidateSet|
        #![trigger call_ensures(topology, (i as usize,), around), call_ensures(constraint, (settled, i as usize), answer)]
        {
            &&& call_ensures(topology, (i as usize,), around)
            &&& settled@ == settled_before(board, order, order[i], around@)
            &&& settled@.len() > 0
            &&& call_ensures(constraint, (settled, i as usize), answer)
            &&& !counted(answer, N).contains(board[i].value().unwrap() as int)
        }
}

/// The settled cells of `board` were settled in the order of their stamps in
/// `order`, the cells settled in `root` first, and each of the others to a
/// state that the reducer let it take, given the neighbours settled before
/// it.
pub open spec fn lawful<NF, RF, const N: usize, const S: usize>(
    topology: NF,
    constraint: RF,
    root: Seq<CellView>,
    board: Seq<CellView>,
    order: Seq<nat>,
) -> bool where NF: Fn(usize) -> Vec<usize>, RF: Fn(Vec<(usize, usize)>, usize) -> CandidateSet {
    &&& order.len() == board.len()
    &&& root.len() == board.len()
    &&& forall|i: int|
        0 <= i < board.len() && (#[trigger] board[i]).is_settled() ==> if root[i].is_settled() {
            order[i] == 0
        } else {
            order[i] > 0 && allowed::<NF, RF, N, S>(topology, constraint, board, order, i)
        }
    &&& forall|i: int, j: int|
        #![trigger board[i], board[j]]
        0 <= i < board.len() && 0 <= j < board.len() && i != j && board[i].is_settled()
            && board[j].is_settled() && order[i] > 0 ==> order[i] != order[j]
}

/// A lawful board stays lawful when no state changes.
pub proof fn lemma_lawful_keep<NF, RF, const N: usize, const S: usize>(
    topology: NF,
    constraint: RF,
    root: Seq<CellView>,
    board: Seq<CellView>,
    order: Seq<nat>,
    other: Seq<CellView>,
) where NF: Fn(usize) -> Vec<usize>, RF: Fn(Vec<(usize, usize)>, usize) -> CandidateSet
    requires
        lawful::<NF, RF, N, S>(topology, constraint, root, board, order),
        same_states(board, other),
    ensures
        lawful::<NF, RF, N, S>(topology, constraint, root, other, order),
{
    assert forall|j: int| 0 <= j < board.len() implies (#[trigger] other[j]).is_settled()
        == board[j].is_settled() by {
        assert(board[j].value() == other[j].value());
    }
    assert forall|i: int|
        0 <= i < other.len() && (#[trigger] other[i]).is_settled()
            && !root[i].is_settled() implies allowed::<NF, RF, N, S>(
        topology,
        constraint,
        other,
        order,
        i,
    ) by {
        assert(board[i].is_settled());
        assert(board[i].value() == other[i].value());
        assert(allowed::<NF, RF, N, S>(topology, constraint, board, order, i));
        let stamp = order[i];
        assert forall|j: int|
            #![trigger settled_by(board, order, stamp, j)]
            settled_by(board, order, stamp, j) == settled_by(other, order, stamp, j) && (settled_by(
                board,
                order,
                stamp,
                j,
            ) ==> board[j].value() == other[j].value()) by {
            if 0 <= j < board.len() {
                assert(board[j].value() == other[j].value());
            }
        }
        if forall|j: int|
            0 <= j < board.len() && (#[trigger] board[j]).is_settled() ==> order[j] >= order[i] {
            assert forall|j: int|
                0 <= j < other.len() && (#[trigger] other[j]).is_settled() implies order[j]
                >= order[i] by {
                assert(board[j].is_settled());
            }
        } else if exists|around: Vec<usize>| #[trigger]
            call_ensures(topology, (i as usize,), around) && settled_before(
                board,
                order,
                order[i],
                around@,
            ).len() == 0 {
            let around = choose|around: Vec<usize>| #[trigger]
                call_ensures(topology, (i as usize,), around) && settled_before(
                    board,
                    order,
                    order[i],
                    around@,
                ).len() == 0;
            lemma_settled_before_same(board, order, other, order, stamp, around@);
        } else {
            let (around, settled, answer) = choose|
                around: Vec<usize>,
                settled: Vec<(usize, usize)>,
                answer: CandidateSet,
            |
                #![trigger call_ensures(topology, (i as usize,), around), call_ensures(constraint, (settled, i as usize), answer)]
                {
                    &&& call_ensures(topology, (i as usize,), around)
                    &&& settled@ == settled_before(board, order, order[i], around@)
                    &&& settled@.len() > 0
                    &&& call_ensures(constraint, (settled, i as usize), answer)
                    &&& !counted(answer, N).contains(board[i].value().unwrap() as int)
                };
            lemma_settled_before_same(board, order, other, order, stamp, around@);
        }
    }
    assert forall|i: int, j: int|
        #![trigger other[i], other[j]]
        0 <= i < other.len() && 0 <= j < other.len() && i != j && other[i].is_settled()
            && other[j].is_settled() && order[i] > 0 implies order[i] != order[j] by {
        assert(board[i].is_settled() && board[j].is_settled());
    }
}

/// A lawful board stays lawful when one of its `Unknown` cells is settled to
/// a state that the reducer lets it take, and stamped with the time.
pub proof fn lemma_lawful_settle<NF, RF, const N: usize, const S: usize>(
    topology: NF,
    constraint: RF,
    root: Seq<CellView>,
    board: Seq<CellView>,
    order: Seq<nat>,
    clock: nat,
    i: int,
    cell: CellView,
) where NF: Fn(usize) -> Vec<usize>, RF: Fn(Vec<(usize, usize)>, usize) -> CandidateSet
    requires
        lawful::<NF, RF, N, S>(topology, constraint, root, board, order),
        timely(board, order, clock),
        0 <= i < board.len(),
        board[i] is Unknown,
        !root[i].is_settled(),
        cell.is_settled(),
        permits::<NF, RF, N, S>(topology, constraint, board, i as usize, cell.value().unwrap()),
    ensures
        lawful::<NF, RF, N, S>(
            topology,
            constraint,
            root,
            board.update(i, cell),
            order.update(i, clock),
        ),
        timely(board.update(i, cell), order.update(i, clock), clock + 1),
{
    let next = board.update(i, cell);
    let stamps = order.update(i, clock);
    let state = cell.value().unwrap();
    // The cell that is settled now.
    assert(allowed::<NF, RF, N, S>(topology, constraint, next, stamps, i)) by {
        assert forall|j: int|
            #![trigger settled_by(next, stamps, clock, j)]
            settled_by(next, stamps, clock, j) == (0 <= j < board.len() && board[j].value()
                is Some) && (settled_by(next, stamps, clock, j) ==> next[j].value()
                == board[j].value()) by {
            if 0 <= j < board.len() && j != i {
                assert(board[j].is_settled() ==> order[j] < clock);
            }
        }
        if cells_in(board, Stage::Settled) == Set::<int>::empty() {
            assert forall|j: int|
                0 <= j < next.len() && (#[trigger] next[j]).is_settled() implies stamps[j]
                >= stamps[i] by {
                if j != i {
                    assert(cells_in(board, Stage::Settled).contains(j));
                }
            }
        } else if exists|around: Vec<usize>| #[trigger]
            call_ensures(topology, (i as usize,), around) && settled_among(board, around@).len()
                == 0 {
            let around = choose|around: Vec<usize>| #[trigger]
                call_ensures(topology, (i as usize,), around) && settled_among(
                    board,
                    around@,
                ).len() == 0;
            lemma_settled_before_all(next, stamps, clock, board, around@);
        } else {
            let (around, settled, answer) = choose|
                around: Vec<usize>,
                settled: Vec<(usize, usize)>,
                answer: CandidateSet,
            |
                #![trigger call_ensures(topology, (i as usize,), around), call_ensures(constraint, (settled, i as usize), answer)]
                {
                    &&& call_ensures(topology, (i as usize,), around)
                    &&& settled@ == settled_among(board, around@)
                    &&& settled@.len() > 0
                    &&& call_ensures(constraint, (settled, i as usize), answer)
                    &&& !counted(answer, N).contains(state as int)
                };
            lemma_settled_before_all(next, stamps, clock, board, around@);
        }
    }
    // The cells that were settled before.
    assert forall|k: int|
        0 <= k < next.len() && k != i && (#[trigger] next[k]).is_settled()
            && !root[k].is_settled() implies allowed::<NF, RF, N, S>(
        topology,
        constraint,
        next,
        stamps,
        k,
    ) by {
        assert(board[k].is_settled());
        assert(allowed::<NF, RF, N, S>(topology, constraint, board, order, k));
        let stamp = order[k];
        assert(stamp < clock);
        assert forall|j: int|
            #![trigger settled_by(board, order, stamp, j)]
            settled_by(board, order, stamp, j) == settled_by(next, stamps, stamp, j) && (settled_by(
                board,
                order,
                stamp,
                j,
            ) ==> board[j].value() == next[j].value()) by {}
        if forall|j: int|
            0 <= j < board.len() && (#[trigger] board[j]).is_settled() ==> order[j] >= order[k] {
            assert forall|j: int|
                0 <= j < next.len() && (#[trigger] next[j]).is_settled() implies stamps[j]
                >= stamps[k] by {
                if j != i {
                    assert(board[j].is_settled());
                }
            }
        } else if exists|around: Vec<usize>| #[trigger]
            call_ensures(topology, (k as usize,), around) && settled_before(
                board,
                order,
                order[k],
                around@,
            ).len() == 0 {
            let around = choose|around: Vec<usize>| #[trigger]
                call_ensures(topology, (k as usize,), around) && settled_before(
                    board,
                    order,
                    order[k],
                    around@,
                ).len() == 0;
            lemma_settled_before_same(board, order, next, stamps, stamp, around@);
        } else {
            let (around, settled, answer) = choose|
                around: Vec<usize>,
                settled: Vec<(usize, usize)>,
                answer: CandidateSet,
            |
                #![trigger call_ensures(topology, (k as usize,), around), call_ensures(constraint, (settled, k as usize), answer)]
                {
                    &&& call_ensures(topology, (k as usize,), around)
                    &&& settled@ == settled_before(board, order, order[k], around@)
                    &&& settled@.len() > 0
                    &&& call_ensures(constraint, (settled, k as usize), answer)
                    &&& !counted(answer, N).contains(board[k].value().unwrap() as int)
                };
            lemma_settled_before_same(board, order, next, stamps, stamp, around@);
        }
    }
    assert forall|a: int, b: int|
        #![trigger next[a], next[b]]
        0 <= a < next.len() && 0 <= b < next.len() && a != b && next[a].is_settled()
            && next[b].is_settled() && stamps[a] > 0 implies stamps[a] != stamps[b] by {
        if a != i {
            assert(board[a].is_settled());
        }
        if b != i {
            assert(board[b].is_settled());
        }
        if a != i && b != i {
            assert(order[a] != order[b]);
        }
    }
    assert forall|k: int|
        0 <= k < next.len() && (#[trigger] next[k]).is_settled() implies if root[k].is_settled() {
        stamps[k] == 0
    } else {
        stamps[k] > 0 && allowed::<NF, RF, N, S>(topology, constraint, next, stamps, k)
    } by {
        if k != i {
            assert(board[k].is_settled());
        }
    }
}

/// Whatever list the neighbour function returns for cell `i`, cell `j` is
/// in it.
pub open spec fn adjoins<NF: Fn(usize) -> Vec<usize>>(topology: NF, i: usize, j: usize) -> bool {
    forall|around: Vec<usize>| #[trigger] call_ensures(topology, (i,), around) ==> around@.contains(j)
}

/// Whatever the reducer answers, for each settled neighbour `j` holding
/// `v` that it is asked about, it forbids cell `i` at least the states
/// `forbidden(j, v, i)`.
pub open spec fn forbids_each<RF: Fn(Vec<(usize, usize)>, usize) -> CandidateSet>(
    constraint: RF,
    forbidden: spec_fn(usize, usize, usize) -> Set<int>,
) -> bool {
    forall|settled: Vec<(usize, usize)>, i: usize, answer: CandidateSet, k: int|
        #![trigger call_ensures(constraint, (settled, i), answer), settled@[k]]
        call_ensures(constraint, (settled, i), answer) && 0 <= k < settled@.len() ==> forbidden(
            settled@[k].0,
            settled@[k].1,
            i,
        ).subset_of(answer@)
}

/// A cell among `around` that was settled before `limit` is listed with its
/// state among the cells settled before `limit`.
pub proof fn lemma_settled_before_contains(
    board: Seq<CellView>,
    order: Seq<nat>,
    limit: nat,
    around: Seq<usize>,
    j: usize,
)
    requires
        around.contains(j),
        settled_by(board, order, limit, j as int),
    ensures
        settled_before(board, order, limit, around).contains((j, board[j as int].value().unwrap())),
    decreases around.len(),
{
    let listed = settled_before(board, order, limit, around);
    let pair = (j, board[j as int].value().unwrap());
    if around.last() == j {
        assert(listed[listed.len() - 1] == pair);
    } else {
        let shorter = around.drop_last();
        let k = choose|k: int| 0 <= k < around.len() && around[k] == j;
        assert(shorter[k] == j);
        lemma_settled_before_contains(board, order, limit, shorter, j);
        let before = settled_before(board, order, limit, shorter);
        let m = choose|m: int| 0 <= m < before.len() && before[m] == pair;
        assert(listed[m] == pair);
    }
}

/// On a lawful board, a cell that was not settled at the root holds no
/// state that the reducer forbids it for a neighbour settled before it.
pub proof fn lemma_lawful_pairwise<NF, RF, const N: usize, const S: usize>(
    topology: NF,
    constraint: RF,
    root: Seq<CellView>,
    board: Seq<CellView>,
    order: Seq<nat>,
    forbidden: spec_fn(usize, usize, usize) -> Set<int>,
    i: usize,
    j: usize,
) where NF: Fn(usize) -> Vec<usize>, RF: Fn(Vec<(usize, usize)>, usize) -> CandidateSet
    requires
        lawful::<NF, RF, N, S>(topology, constraint, root, board, order),
        valid_board(board, N),
        forbids_each(constraint, forbidden),
        adjoins(topology, i, j),
        i < board.len(),
        j < board.len(),
        board[i as int].is_settled(),
        !root[i as int].is_settled(),
        board[j as int].is_settled(),
        order[j as int] < order[i as int],
    ensures
        !forbidden(j, board[j as int].value().unwrap(), i).contains(
            board[i as int].value().unwrap() as int,
        ),
{
    let stamp = order[i as int];
    let state = board[i as int].value().unwrap();
    let pair = (j, board[j as int].value().unwrap());
    assert(allowed::<NF, RF, N, S>(topology, constraint, board, order, i as int));
    assert(settled_by(board, order, stamp, j as int));
    lemma_valid_state(board, N, i as int);
    if forall|k: int|
        0 <= k < board.len() && (#[trigger] board[k]).is_settled() ==> order[k] >= order[i as int] {
        assert(board[j as int].is_settled());
    } else if exists|around: Vec<usize>| #[trigger]
        call_ensures(topology, (i,), around) && settled_before(board, order, stamp, around@).len()
            == 0 {
        let around = choose|around: Vec<usize>| #[trigger]
            call_ensures(topology, (i,), around) && settled_before(
                board,
                order,
                stamp,
                around@,
            ).len() == 0;
        lemma_settled_before_contains(board, order, stamp, around@, j);
    } else {
        let (around, settled, answer) = choose|
            around: Vec<usize>,
            settled: Vec<(usize, usize)>,
            answer: CandidateSet,
        |
            #![trigger call_ensures(topology, (i,), around), call_ensures(constraint, (settled, i), answer)]
            {
                &&& call_ensures(topology, (i,), around)
                &&& settled@ == settled_before(board, order, stamp, around@)
                &&& settled@.len() > 0
                &&& call_ensures(constraint, (settled, i), answer)
                &&& !counted(answer, N).contains(state as int)
            };
        lemma_settled_before_contains(board, order, stamp, around@, j);
        let k = choose|k: int| 0 <= k < settled@.len() && settled@[k] == pair;
        assert(forbidden(settled@[k].0, settled@[k].1, i).subset_of(answer@));
        assert(!answer@.contains(state as int));
    }
}

/// A board is kept in order: its stamps are timely, it is lawful, and, where
/// it `must_rest`, it waits for nothing but a choice.
pub open spec fn kept_well<NF, RF, const N: usize, const S: usize>(
    topology: NF,
    constraint: RF,
    root: Seq<CellView>,
    board: Seq<CellView>,
    order: Seq<nat>,
    clock: nat,
    must_rest: bool,
) -> bool where NF: Fn(usize) -> Vec<usize>, RF: Fn(Vec<(usize, usize)>, usize) -> CandidateSet {
    &&& timely(board, order, clock)
    &&& lawful::<NF, RF, N, S>(topology, constraint, root, board, order)
    &&& must_rest ==> rested::<NF, RF, N, S>(topology, constraint, board)
}

/// The record of a search is in order. Unless a board that was kept without
/// having been propagated has been taken up again, the board and every
/// board kept are lawful, and every board kept above the first `loose` ones
/// waits for nothing but a choice.
pub open spec fn well_recorded<NF, RF, const N: usize, const S: usize>(
    topology: NF,
    constraint: RF,
    root: Seq<CellView>,
    board: Seq<CellView>,
    snapshots: Seq<Seq<CellView>>,
    order: Seq<nat>,
    orders: Seq<Seq<nat>>,
    clock: nat,
    loose: nat,
    tainted: bool,
) -> bool where NF: Fn(usize) -> Vec<usize>, RF: Fn(Vec<(usize, usize)>, usize) -> CandidateSet {
    &&& orders.len() == snapshots.len()
    &&& !tainted ==> {
        &&& kept_well::<NF, RF, N, S>(topology, constraint, root, board, order, clock, false)
        &&& forall|k: int|
            0 <= k < snapshots.len() ==> kept_well::<NF, RF, N, S>(
                topology,
                constraint,
                root,
                #[trigger] snapshots[k],
                orders[k],
                clock,
                k >= loose,
            )
    }
}

/// A board on which the cells settled are those settled in the root is
/// lawful, with every stamp 0.
pub proof fn lemma_lawful_root<NF, RF, const N: usize, const S: usize>(
    topology: NF,
    constraint: RF,
    root: Seq<CellView>,
) where NF: Fn(usize) -> Vec<usize>, RF: Fn(Vec<(usize, usize)>, usize) -> CandidateSet
    ensures
        lawful::<NF, RF, N, S>(
            topology,
            constraint,
            root,
            root,
            Seq::new(root.len(), |i: int| 0nat),
        ),
        timely(root, Seq::new(root.len(), |i: int| 0nat), 1),
{
}

} // verus!
