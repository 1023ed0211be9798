use vstd::prelude::*;
use crate::grid::{cells_wf, idx, model, refines, strike, FieldModel, Sudoku, SudokuField, SIZE};
use std::ops::Range;

verus! {

/// `(i, j)` and `(x, y)` are the same cell or orthogonal neighbours.
pub open spec fn adjacent(i: int, j: int, x: int, y: int) -> bool {
    (i == x && -1 <= j - y <= 1) || (j == y && -1 <= i - x <= 1)
}

/// The digits `v` and `w` are equal or consecutive.
pub open spec fn near(v: int, w: int) -> bool {
    -1 <= v - w <= 1
}

/// The cell `(i, j)` is solved to a digit next to or equal to `w` and touches `(x, y)`.
pub open spec fn blocks(c: Seq<FieldModel>, i: int, j: int, x: int, y: int, w: int) -> bool {
    &&& 0 <= i < 9
    &&& 0 <= j < 9
    &&& adjacent(i, j, x, y)
    &&& c[idx(i, j)].solved matches Some(v) && near(v as int, w)
}

/// Some cell before position `n` in row-major order blocks `w` at `(x, y)`.
pub open spec fn blocked_before(c: Seq<FieldModel>, n: int, x: int, y: int, w: int) -> bool {
    exists|i: int, j: int| idx(i, j) < n && #[trigger] blocks(c, i, j, x, y, w)
}

/// Some solved cell of the grid blocks `w` at `(x, y)`.
pub open spec fn excluded(c: Seq<FieldModel>, x: int, y: int, w: int) -> bool {
    exists|i: int, j: int| #[trigger] blocks(c, i, j, x, y, w)
}

/// One round of adjacency exclusion on the cells `c`: a candidate stays
/// where no solved cell blocks it.
pub open spec fn adjacency(c: Seq<FieldModel>) -> Seq<FieldModel> {
    Seq::new(
        c.len(),
        |i: int|
            FieldModel {
                cand: Seq::new(9, |k: int| c[i].cand[k] && !excluded(c, i / 9, i % 9, k + 1)),
                solved: c[i].solved,
            },
    )
}

/// `c` is `c0` with the candidate index `k` of `(x, y)` removed exactly where `hit(x, y, k)`.
pub open spec fn shaped(c0: Seq<FieldModel>, c: Seq<FieldModel>, hit: spec_fn(int, int, int) -> bool) -> bool {
    &&& c.len() == 81
    &&& forall|i: int|
        0 <= i < 81 ==> (#[trigger] c[i]).solved == c0[i].solved && c[i].cand.len() == c0[i].cand.len()
    &&& forall|i: int, k: int| 0 <= i < 81 && 0 <= k < 9 && (#[trigger] c[i].cand[k]) ==> c0[i].cand[k]
    &&& forall|x: int, y: int, k: int|
        0 <= x < 9 && 0 <= y < 9 && 0 <= k < 9 ==> (#[trigger] c[idx(x, y)].cand[k]) == (c0[idx(x, y)].cand[k]
            && !hit(x, y, k))
}

/// The range clipped to `[min, max)`.
pub fn constrain_range(range: Range<i8>, min: i8, max: i8) -> (r: Range<i8>)
    ensures
        r.start == if range.start < min { min } else { range.start },
        r.end == if range.end > max { max } else { range.end },
{
    let start = if range.start < min { min } else { range.start };
    let end = if range.end > max { max } else { range.end };
    start..end
}

/// Removes the candidate index `k` from the cell `(x, y)`.
fn clear_candidate(cells: &mut Vec<SudokuField>, x: usize, y: usize, k: usize)
    requires
        old(cells)@.len() == 81,
        x < 9,
        y < 9,
        k < 9,
    ensures
        final(cells)@.len() == 81,
        model(final(cells)@) == model(old(cells)@).update(
            idx(x as int, y as int),
            strike(model(old(cells)@)[idx(x as int, y as int)], k + 1),
        ),
{
    let i = x * SIZE + y;
    let mut f = cells[i];
    f.possible_values[k] = false;
    cells.set(i, f);
    assert(model(cells@) =~= model(old(cells)@).update(
        idx(x as int, y as int),
        strike(model(old(cells)@)[idx(x as int, y as int)], k + 1),
    ));
}

proof fn lemma_shaped_step(
    c0: Seq<FieldModel>,
    c: Seq<FieldModel>,
    hit: spec_fn(int, int, int) -> bool,
    x0: int,
    y0: int,
    k0: int,
)
    requires
        cells_wf(c0),
        shaped(c0, c, hit),
        0 <= x0 < 9,
        0 <= y0 < 9,
        0 <= k0 < 9,
    ensures
        shaped(
            c0,
            c.update(idx(x0, y0), strike(c[idx(x0, y0)], k0 + 1)),
            |x: int, y: int, k: int| hit(x, y, k) || (x == x0 && y == y0 && k == k0),
        ),
{
    let c2 = c.update(idx(x0, y0), strike(c[idx(x0, y0)], k0 + 1));
    assert(c[idx(x0, y0)].cand.len() == 9);
    assert forall|x: int, y: int, k: int| 0 <= x < 9 && 0 <= y < 9 && 0 <= k < 9 implies (
    #[trigger] c2[idx(x, y)].cand[k]) == (c0[idx(x, y)].cand[k] && !(hit(x, y, k) || (x == x0 && y == y0
        && k == k0))) by {
        if idx(x, y) == idx(x0, y0) {
            assert(x == x0 && y == y0);
        }
    }
}

proof fn lemma_shaped_ext(
    c0: Seq<FieldModel>,
    c: Seq<FieldModel>,
    h1: spec_fn(int, int, int) -> bool,
    h2: spec_fn(int, int, int) -> bool,
)
    requires
        shaped(c0, c, h1),
        forall|x: int, y: int, k: int|
            0 <= x < 9 && 0 <= y < 9 && 0 <= k < 9 ==> h1(x, y, k) == #[trigger] h2(x, y, k),
    ensures
        shaped(c0, c, h2),
{
    assert forall|x: int, y: int, k: int| 0 <= x < 9 && 0 <= y < 9 && 0 <= k < 9 implies (
    #[trigger] c[idx(x, y)].cand[k]) == (c0[idx(x, y)].cand[k] && !h2(x, y, k)) by {
        assert(h1(x, y, k) == h2(x, y, k));
    }
}

/// Removes the digits next to or equal to `v` from the cell `(i, j)` and its
/// orthogonal neighbours on the grid.
fn exclude_around(cells: &mut Vec<SudokuField>, i: i8, j: i8, v: u8)
    requires
        old(cells)@.len() == 81,
        cells_wf(model(old(cells)@)),
        0 <= i < 9,
        0 <= j < 9,
        1 <= v <= 9,
    ensures
        shaped(
            model(old(cells)@),
            model(final(cells)@),
            |x: int, y: int, k: int| adjacent(i as int, j as int, x, y) && near(v as int, k + 1),
        ),
{
    let ghost c0 = model(cells@);
    proof {
        lemma_shaped_ext(c0, c0, |x: int, y: int, k: int| false, |x: int, y: int, k: int| false);
    }
    let dr = constrain_range((v as i8 - 2)..(v as i8 + 1), 0, 9);
    let mut w = dr.start;
    while w < dr.end
        invariant
            cells@.len() == 81,
            cells_wf(c0),
            0 <= i < 9,
            0 <= j < 9,
            0 <= dr.start <= w <= dr.end <= 9,
            dr.start == if v - 2 < 0 { 0 } else { v - 2 },
            dr.end == if v + 1 > 9 { 9 } else { v + 1 },
            shaped(
                c0,
                model(cells@),
                |x: int, y: int, k: int| adjacent(i as int, j as int, x, y) && dr.start <= k < w,
            ),
        decreases dr.end - w,
    {
        let rr = constrain_range((i - 1)..(i + 2), 0, 9);
        let mut ii = rr.start;
        while ii < rr.end
            invariant
                cells@.len() == 81,
                cells_wf(c0),
                0 <= i < 9,
                0 <= j < 9,
                0 <= dr.start <= w < dr.end <= 9,
                rr.start == if i - 1 < 0 { 0 } else { i - 1 },
                rr.end == if i + 2 > 9 { 9 } else { i + 2 },
                rr.start <= ii <= rr.end,
                shaped(
                    c0,
                    model(cells@),
                    |x: int, y: int, k: int|
                        (adjacent(i as int, j as int, x, y) && dr.start <= k < w) || (k == w && y == j
                            && rr.start <= x < ii),
                ),
            decreases rr.end - ii,
        {
            proof {
                lemma_shaped_step(c0, model(cells@), |x: int, y: int, k: int|
                        (adjacent(i as int, j as int, x, y) && dr.start <= k < w) || (k == w && y == j
                            && rr.start <= x < ii), ii as int, j as int, w as int);
            }
            clear_candidate(cells, ii as usize, j as usize, w as usize);
            proof {
                lemma_shaped_ext(c0, model(cells@), |x: int, y: int, k: int|
                        ((adjacent(i as int, j as int, x, y) && dr.start <= k < w) || (k == w && y == j
                            && rr.start <= x < ii)) || (x == ii && y == j && k == w), |x: int, y: int, k: int|
                        (adjacent(i as int, j as int, x, y) && dr.start <= k < w) || (k == w && y == j
                            && rr.start <= x < ii + 1));
            }
            ii += 1;
        }
        let cr = constrain_range((j - 1)..(j + 2), 0, 9);
        let mut jj = cr.start;
        proof {
            lemma_shaped_ext(c0, model(cells@), |x: int, y: int, k: int|
                        (adjacent(i as int, j as int, x, y) && dr.start <= k < w) || (k == w && y == j
                            && rr.start <= x < ii), |x: int, y: int, k: int|
                        (adjacent(i as int, j as int, x, y) && dr.start <= k < w) || (k == w && ((y == j
                            && rr.start <= x < rr.end) || (x == i && cr.start <= y < jj))));
        }
        while jj < cr.end
            invariant
                cells@.len() == 81,
                cells_wf(c0),
                0 <= i < 9,
                0 <= j < 9,
                0 <= dr.start <= w < dr.end <= 9,
                rr.start == if i - 1 < 0 { 0 } else { i - 1 },
                rr.end == if i + 2 > 9 { 9 } else { i + 2 },
                cr.start == if j - 1 < 0 { 0 } else { j - 1 },
                cr.end == if j + 2 > 9 { 9 } else { j + 2 },
                cr.start <= jj <= cr.end,
                shaped(
                    c0,
                    model(cells@),
                    |x: int, y: int, k: int|
                        (adjacent(i as int, j as int, x, y) && dr.start <= k < w) || (k == w && ((y == j
                            && rr.start <= x < rr.end) || (x == i && cr.start <= y < jj))),
                ),
            decreases cr.end - jj,
        {
            proof {
                lemma_shaped_step(c0, model(cells@), |x: int, y: int, k: int|
                        (adjacent(i as int, j as int, x, y) && dr.start <= k < w) || (k == w && ((y == j
                            && rr.start <= x < rr.end) || (x == i && cr.start <= y < jj))), i as int, jj as int, w as int);
            }
            clear_candidate(cells, i as usize, jj as usize, w as usize);
            proof {
                lemma_shaped_ext(c0, model(cells@), |x: int, y: int, k: int|
                        ((adjacent(i as int, j as int, x, y) && dr.start <= k < w) || (k == w && ((y == j
                            && rr.start <= x < rr.end) || (x == i && cr.start <= y < jj)))) || (x == i && y == jj && k == w), |x: int, y: int, k: int|
                        (adjacent(i as int, j as int, x, y) && dr.start <= k < w) || (k == w && ((y == j
                            && rr.start <= x < rr.end) || (x == i && cr.start <= y < jj + 1))));
            }
            jj += 1;
        }
        proof {
            lemma_shaped_ext(c0, model(cells@), |x: int, y: int, k: int|
                        (adjacent(i as int, j as int, x, y) && dr.start <= k < w) || (k == w && ((y == j
                            && rr.start <= x < rr.end) || (x == i && cr.start <= y < cr.end))), |x: int, y: int, k: int|
                        adjacent(i as int, j as int, x, y) && dr.start <= k < w + 1);
        }
        w += 1;
    }
    proof {
        lemma_shaped_ext(c0, model(cells@), |x: int, y: int, k: int| adjacent(i as int, j as int, x, y) && dr.start <= k < w,
            |x: int, y: int, k: int| adjacent(i as int, j as int, x, y) && near(v as int, k + 1));
    }
}

proof fn lemma_shaped_compose(
    c0: Seq<FieldModel>,
    c1: Seq<FieldModel>,
    c2: Seq<FieldModel>,
    h1: spec_fn(int, int, int) -> bool,
    h2: spec_fn(int, int, int) -> bool,
)
    requires
        c0.len() == 81,
        shaped(c0, c1, h1),
        shaped(c1, c2, h2),
    ensures
        shaped(c0, c2, |x: int, y: int, k: int| h1(x, y, k) || h2(x, y, k)),
{
    assert forall|x: int, y: int, k: int| 0 <= x < 9 && 0 <= y < 9 && 0 <= k < 9 implies (
    #[trigger] c2[idx(x, y)].cand[k]) == (c0[idx(x, y)].cand[k] && !(h1(x, y, k) || h2(x, y, k))) by {
        assert(c1[idx(x, y)].cand[k] == (c0[idx(x, y)].cand[k] && !h1(x, y, k)));
    }
}

/// One round of adjacency exclusion: every solved cell removes its own digit
/// and the digits next to it from itself and from its orthogonal neighbours.
/// Solved values are left as they were.
pub fn solve_non_orthogonal(sudoku: &mut Sudoku)
    requires
        old(sudoku).wf(),
    ensures
        final(sudoku).wf(),
        final(sudoku).constraints == old(sudoku).constraints,
        refines(final(sudoku)@, old(sudoku)@),
        forall|i: int| 0 <= i < 81 ==> (#[trigger] final(sudoku)@[i]).solved == old(sudoku)@[i].solved,
        forall|x: int, y: int, k: int|
            0 <= x < 9 && 0 <= y < 9 && 0 <= k < 9 ==> (#[trigger] final(sudoku)@[idx(x, y)].cand[k]) == (
            old(sudoku)@[idx(x, y)].cand[k] && !excluded(old(sudoku)@, x, y, k + 1)),
        final(sudoku)@ == adjacency(old(sudoku)@),
{
    let ghost c0 = sudoku@;
    proof {
        lemma_shaped_ext(c0, c0, |x: int, y: int, k: int| false, |x: int, y: int, k: int| blocked_before(c0, 0, x, y, k + 1));
    }
    let mut i: i8 = 0;
    while i < 9
        invariant
            sudoku.constraints == old(sudoku).constraints,
            c0 == old(sudoku)@,
            sudoku.cells@.len() == 81,
            cells_wf(c0),
            0 <= i <= 9,
            shaped(c0, sudoku@, |x: int, y: int, k: int| blocked_before(c0, idx(i as int, 0), x, y, k + 1)),
        decreases 9 - i,
    {
        let mut j: i8 = 0;
        while j < 9
            invariant
                sudoku.constraints == old(sudoku).constraints,
                c0 == old(sudoku)@,
                sudoku.cells@.len() == 81,
                cells_wf(c0),
                0 <= i < 9,
                0 <= j <= 9,
                shaped(c0, sudoku@, |x: int, y: int, k: int| blocked_before(c0, idx(i as int, j as int), x, y, k + 1)),
            decreases 9 - j,
        {
            let field = sudoku.cells[(i as usize) * SIZE + j as usize];
            let ghost c1 = sudoku@;
            let ghost n = idx(i as int, j as int);
            assert(field@ == c1[n]);
            match field.solved_value {
                Some(v) => {
                    exclude_around(&mut sudoku.cells, i, j, v);
                    proof {
                        lemma_shaped_compose(c0, c1, sudoku@,
                            |x: int, y: int, k: int| blocked_before(c0, n, x, y, k + 1),
                            |x: int, y: int, k: int| adjacent(i as int, j as int, x, y) && near(v as int, k + 1));
                    }
                },
                None => {
                    proof {
                        lemma_shaped_ext(c0, c1, |x: int, y: int, k: int| blocked_before(c0, n, x, y, k + 1),
                            |x: int, y: int, k: int| blocked_before(c0, n, x, y, k + 1) || false);
                    }
                },
            }
            proof {
                let h = |x: int, y: int, k: int| blocked_before(c0, n, x, y, k + 1) || (field.solved_value matches Some(v)
                    && adjacent(i as int, j as int, x, y) && near(v as int, k + 1));
                assert forall|x: int, y: int, k: int| 0 <= x < 9 && 0 <= y < 9 && 0 <= k < 9 implies h(x, y, k)
                    == #[trigger] blocked_before(c0, n + 1, x, y, k + 1) by {
                    if blocked_before(c0, n + 1, x, y, k + 1) && !blocked_before(c0, n, x, y, k + 1) {
                        let (a, b) = choose|a: int, b: int| idx(a, b) < n + 1 && #[trigger] blocks(c0, a, b, x, y, k + 1);
                        assert(a == i && b == j);
                    }
                    if field.solved_value matches Some(v) && adjacent(i as int, j as int, x, y) && near(v as int, k + 1) {
                        assert(blocks(c0, i as int, j as int, x, y, k + 1));
                    }
                }
                lemma_shaped_ext(c0, sudoku@, h, |x: int, y: int, k: int| blocked_before(c0, n + 1, x, y, k + 1));
            }
            j += 1;
        }
        i += 1;
    }
    proof {
        assert forall|x: int, y: int, k: int| 0 <= x < 9 && 0 <= y < 9 && 0 <= k < 9 implies blocked_before(c0, 81, x, y, k + 1)
            == #[trigger] excluded(c0, x, y, k + 1) by {
            if excluded(c0, x, y, k + 1) {
                let (a, b) = choose|a: int, b: int| #[trigger] blocks(c0, a, b, x, y, k + 1);
                assert(idx(a, b) < 81);
            }
        }
        let c = sudoku@;
        assert forall|i: int| 0 <= i < 81 implies #[trigger] c[i] == adjacency(c0)[i] by {
            let x = i / 9;
            let y = i % 9;
            assert(idx(x, y) == i);
            assert(c[i].cand =~= adjacency(c0)[i].cand);
        }
        assert(c =~= adjacency(c0));
        assert forall|i: int| 0 <= i < 81 implies (#[trigger] c[i]).wf() by {
            assert(c0[i].wf());
            if c[i].solved is Some {
                assert forall|k: int| 0 <= k < c[i].cand.len() implies !(#[trigger] c[i].cand[k]) by {
                    assert(!c0[i].cand[k]);
                }
            }
        }
    }
}

} // verus!
