use vstd::prelude::*;
use crate::adjacency::{adjacency, solve_non_orthogonal};
use crate::grid::{refines, FieldModel, Sudoku, SudokuError};
use crate::local::{local_reduction, solve_simple};
use crate::pointing::{pointing_upto, solve_spots_overlap};

verus! {

/// One round of propagation: local reduction, then adjacency exclusion, then
/// pointing sets. `None` where local reduction meets a contradiction.
pub open spec fn round(c: Seq<FieldModel>, rs: Seq<Seq<(usize, usize)>>) -> Option<Seq<FieldModel>> {
    match local_reduction(c, rs) {
        None => None,
        Some(c1) => Some(pointing_upto(adjacency(c1), rs, rs.len() as int)),
    }
}

/// Runs one round of the three passes in order. After a contradiction the
/// round stops and the grid is left as the failing pass left it.
pub fn propagate_round(sudoku: &mut Sudoku) -> (r: Result<(), SudokuError>)
    requires
        old(sudoku).wf(),
    ensures
        final(sudoku).wf(),
        final(sudoku).constraints == old(sudoku).constraints,
        refines(final(sudoku)@, old(sudoku)@),
        match round(old(sudoku)@, old(sudoku).layout()) {
            None => r == Err::<(), SudokuError>(SudokuError::Contradiction),
            Some(c) => r is Ok && final(sudoku)@ == c,
        },
{
    let ghost c0 = sudoku@;
    solve_simple(sudoku)?;
    let ghost c1 = sudoku@;
    solve_non_orthogonal(sudoku);
    let ghost c2 = sudoku@;
    solve_spots_overlap(sudoku);
    assert(refines(c2, c0));
    Ok(())
}

} // verus!
