use wave_function_collapse::candidates::CandidateSet;
use wave_function_collapse::cell::Cell;
use wave_function_collapse::solver::{Pan, SolverBuilder};

const STATES: usize = 16;

fn alone(_: usize) -> Vec<usize> {
    Vec::new()
}

fn allow_all(_: Vec<(usize, usize)>, _: usize) -> CandidateSet {
    CandidateSet::empty()
}

fn numbered<const S: usize>() -> [Cell<STATES>; S] {
    let mut board = [Cell::<STATES>::default(); S];
    for (i, cell) in board.iter_mut().enumerate() {
        *cell = Cell::collapsed(i);
    }
    board
}

fn values<const S: usize>(board: &[Cell<STATES>; S]) -> Vec<Option<usize>> {
    board.iter().map(|cell| cell.value()).collect()
}

fn fresh_where_blank<const S: usize>(board: &[Cell<STATES>; S]) -> bool {
    board
        .iter()
        .all(|cell| cell.value().is_some() || (cell.is_unknown() && cell.entropy() == STATES))
}

#[test]
fn pan_right_takes_from_the_left() {
    let mut solver = SolverBuilder::new(alone, allow_all).state(numbered::<9>()).build();
    solver.pan(Pan::Right(1), 3);
    assert_eq!(
        values(solver.state()),
        vec![None, Some(0), Some(1), None, Some(3), Some(4), None, Some(6), Some(7)]
    );
    assert!(fresh_where_blank(solver.state()));
    assert!(solver.state()[1].is_collapsed());
}

#[test]
fn pan_left_takes_from_the_right() {
    let mut solver = SolverBuilder::new(alone, allow_all).state(numbered::<9>()).build();
    solver.pan(Pan::Left(1), 3);
    assert_eq!(
        values(solver.state()),
        vec![Some(1), Some(2), None, Some(4), Some(5), None, Some(7), Some(8), None]
    );
    assert!(fresh_where_blank(solver.state()));
}

#[test]
fn pan_up_takes_from_the_row_below() {
    let mut solver = SolverBuilder::new(alone, allow_all).state(numbered::<9>()).build();
    solver.pan(Pan::Up(1), 3);
    assert_eq!(
        values(solver.state()),
        vec![Some(3), Some(4), Some(5), Some(6), Some(7), Some(8), None, None, None]
    );
    assert!(fresh_where_blank(solver.state()));
}

#[test]
fn pan_down_takes_from_the_row_above() {
    let mut solver = SolverBuilder::new(alone, allow_all).state(numbered::<9>()).build();
    solver.pan(Pan::Down(1), 3);
    assert_eq!(
        values(solver.state()),
        vec![None, None, None, Some(0), Some(1), Some(2), Some(3), Some(4), Some(5)]
    );
    assert!(fresh_where_blank(solver.state()));
}

#[test]
fn pan_by_two_on_a_wider_board() {
    let mut solver = SolverBuilder::new(alone, allow_all).state(numbered::<8>()).build();
    solver.pan(Pan::Right(2), 4);
    assert_eq!(
        values(solver.state()),
        vec![None, None, Some(0), Some(1), None, None, Some(4), Some(5)]
    );
    solver.pan(Pan::Down(1), 4);
    assert_eq!(
        values(solver.state()),
        vec![None, None, None, None, None, None, Some(0), Some(1)]
    );
}

#[test]
fn pan_by_nothing_keeps_the_board() {
    let all = vec![
        Some(0),
        Some(1),
        Some(2),
        Some(3),
        Some(4),
        Some(5),
        Some(6),
        Some(7),
        Some(8),
    ];
    let mut solver = SolverBuilder::new(alone, allow_all).state(numbered::<9>()).build();
    solver.pan(Pan::Left(0), 3);
    assert_eq!(values(solver.state()), all);
    solver.pan(Pan::Right(0), 3);
    assert_eq!(values(solver.state()), all);
    solver.pan(Pan::Up(0), 3);
    assert_eq!(values(solver.state()), all);
    solver.pan(Pan::Down(0), 3);
    assert_eq!(values(solver.state()), all);
}

#[test]
fn pan_by_more_than_the_board_blanks_it() {
    for pan in [Pan::Left(3), Pan::Right(3), Pan::Up(3), Pan::Down(3), Pan::Down(usize::MAX)] {
        let mut solver = SolverBuilder::new(alone, allow_all).state(numbered::<9>()).build();
        solver.pan(pan, 3);
        assert_eq!(values(solver.state()), vec![None; 9]);
        assert!(fresh_where_blank(solver.state()));
    }
}

#[test]
fn pan_on_a_board_with_a_short_last_row() {
    let mut solver = SolverBuilder::new(alone, allow_all).state(numbered::<7>()).build();
    solver.pan(Pan::Up(1), 3);
    assert_eq!(
        values(solver.state()),
        vec![Some(3), Some(4), Some(5), Some(6), None, None, None]
    );
    let mut solver = SolverBuilder::new(alone, allow_all).state(numbered::<7>()).build();
    solver.pan(Pan::Left(1), 3);
    assert_eq!(
        values(solver.state()),
        vec![Some(1), Some(2), None, Some(4), Some(5), None, None]
    );
    let mut solver = SolverBuilder::new(alone, allow_all).state(numbered::<7>()).build();
    solver.pan(Pan::Down(1), 3);
    assert_eq!(
        values(solver.state()),
        vec![None, None, None, Some(0), Some(1), Some(2), Some(3)]
    );
    let mut solver = SolverBuilder::new(alone, allow_all).state(numbered::<7>()).build();
    solver.pan(Pan::Right(1), 3);
    assert_eq!(
        values(solver.state()),
        vec![None, Some(0), Some(1), None, Some(3), Some(4), None]
    );
}

#[test]
fn pan_right_then_left_restores_what_stayed_on_the_board() {
    let mut solver = SolverBuilder::new(alone, allow_all).state(numbered::<9>()).build();
    solver.pan(Pan::Right(1), 3);
    solver.pan(Pan::Left(1), 3);
    assert_eq!(
        values(solver.state()),
        vec![Some(0), Some(1), None, Some(3), Some(4), None, Some(6), Some(7), None]
    );
    assert!(fresh_where_blank(solver.state()));

    let mut solver = SolverBuilder::new(alone, allow_all).state(numbered::<8>()).build();
    solver.pan(Pan::Right(3), 4);
    solver.pan(Pan::Left(3), 4);
    assert_eq!(
        values(solver.state()),
        vec![Some(0), None, None, None, Some(4), None, None, None]
    );
}

#[test]
fn pan_keeps_the_stage_of_the_cells_it_moves() {
    let mut board = [Cell::<STATES>::default(); 4];
    board[1] = Cell::reduced(5);
    board[2] = Cell::collapsed(6);
    board[3] = Cell::unknown({
        let mut set = CandidateSet::empty();
        set.insert(1);
        set.insert(2);
        set
    });
    let mut solver = SolverBuilder::new(alone, allow_all).state(board).build();
    solver.pan(Pan::Left(1), 4);
    let state = solver.state();
    assert!(state[0].is_reduced());
    assert_eq!(state[0].value(), Some(5));
    assert!(state[1].is_collapsed());
    assert_eq!(state[1].value(), Some(6));
    assert!(state[2].is_unknown());
    assert_eq!(state[2].state().members(), vec![1, 2]);
    assert!(state[3].is_unknown());
    assert_eq!(state[3].entropy(), STATES);
}

#[test]
fn pan_resets_the_history_to_the_new_board() {
    let mut solver = SolverBuilder::new(alone, allow_all).state(numbered::<9>()).build();
    assert_eq!(solver.depth(), 0);
    solver.pan(Pan::Down(1), 3);
    assert_eq!(solver.depth(), 1);
    solver.pan(Pan::Left(1), 3);
    assert_eq!(solver.depth(), 1);
    let panned = values(solver.state());
    let pending = solver.backtrack().unwrap();
    assert_eq!(pending, Vec::<usize>::new());
    assert_eq!(solver.depth(), 0);
    assert_eq!(values(solver.state()), panned);
}

#[test]
fn solve_after_pan_fills_the_blank_cells() {
    let mut solver = SolverBuilder::new(alone, allow_all)
        .state(numbered::<9>())
        .seed(4)
        .build();
    solver.pan(Pan::Down(2), 3);
    assert_eq!(solver.solve(), Ok(()));
    let state = solver.state();
    assert_eq!(state[6].value(), Some(0));
    assert_eq!(state[7].value(), Some(1));
    assert_eq!(state[8].value(), Some(2));
    assert!(state.iter().all(|cell| cell.is_collapsed()));
    assert!(state.iter().all(|cell| cell.value().unwrap() < STATES));
}
