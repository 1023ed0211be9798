use vstd::prelude::*;
use crate::grid::{
    cells_wf, cleared, count_true, holds, idx, model, no_candidates, on_grid, refines,
    region_has_value, strike, FieldModel, Sudoku, SudokuError, SudokuField, SIZE,
};

verus! {

/// Whether position `i` of the cell vector is one of the first `n` members of `r`.
pub open spec fn member_upto(r: Seq<(usize, usize)>, n: int, i: int) -> bool {
    exists|k: int| 0 <= k < n && idx(#[trigger] r[k].0 as int, r[k].1 as int) == i
}

/// Whether position `i` of the cell vector is a member of the region `r`.
pub open spec fn member(r: Seq<(usize, usize)>, i: int) -> bool {
    member_upto(r, r.len() as int, i)
}

/// The lowest candidate index at or above `k` (9 when there is none).
pub open spec fn lowest_from(cand: Seq<bool>, k: int) -> int
    decreases 9 - k,
{
    if k >= 9 {
        9
    } else if cand[k] {
        k
    } else {
        lowest_from(cand, k + 1)
    }
}

/// The digit `d` removed from every cell of the region `r`.
pub open spec fn eliminate(c: Seq<FieldModel>, r: Seq<(usize, usize)>, d: int) -> Seq<FieldModel> {
    Seq::new(c.len(), |i: int| if member(r, i) { strike(c[i], d) } else { c[i] })
}

/// Visiting the member `p` of the region `r`: a lone candidate is promoted
/// (`None` where its digit is already solved in `r`), and the digit of a
/// solved cell is removed from the whole region.
pub open spec fn visit(c: Seq<FieldModel>, r: Seq<(usize, usize)>, p: (usize, usize)) -> Option<
    Seq<FieldModel>,
> {
    let i = idx(p.0 as int, p.1 as int);
    let f = c[i];
    if f.solved is None && count_true(f.cand, 9) == 1 {
        let d = (lowest_from(f.cand, 0) + 1) as u8;
        if holds(c, r, d) {
            None
        } else {
            Some(eliminate(c.update(i, cleared(d)), r, d as int))
        }
    } else {
        match f.solved {
            Some(v) => Some(eliminate(c.update(i, cleared(v)), r, v as int)),
            None => Some(c),
        }
    }
}

/// The first `n` members of `r` visited in order.
pub open spec fn visit_upto(c: Seq<FieldModel>, r: Seq<(usize, usize)>, n: int) -> Option<
    Seq<FieldModel>,
>
    decreases n,
{
    if n <= 0 {
        Some(c)
    } else {
        match visit_upto(c, r, n - 1) {
            None => None,
            Some(c1) => visit(c1, r, r[n - 1]),
        }
    }
}

/// The members of the first `n` regions visited in order.
pub open spec fn sweep_upto(c: Seq<FieldModel>, rs: Seq<Seq<(usize, usize)>>, n: int) -> Option<
    Seq<FieldModel>,
>
    decreases n,
{
    if n <= 0 {
        Some(c)
    } else {
        match sweep_upto(c, rs, n - 1) {
            None => None,
            Some(c1) => visit_upto(c1, rs[n - 1], rs[n - 1].len() as int),
        }
    }
}

/// How many of the first `n` members of `r` carry the candidate `d` (on a
/// well-formed grid these are unsolved, since solved cells carry none).
pub open spec fn carriers(c: Seq<FieldModel>, r: Seq<(usize, usize)>, d: int, n: int) -> int
    decreases n,
{
    if n <= 0 {
        0
    } else {
        carriers(c, r, d, n - 1) + if c[idx(r[n - 1].0 as int, r[n - 1].1 as int)].can(d) {
            1int
        } else {
            0int
        }
    }
}

/// The hidden single of `d` in `r`: where `d` is solved nowhere in `r` and
/// exactly one member carries it, that member is solved to `d`.
pub open spec fn hidden(c: Seq<FieldModel>, r: Seq<(usize, usize)>, d: u8) -> Seq<FieldModel> {
    if holds(c, r, d) || carriers(c, r, d as int, r.len() as int) != 1 {
        c
    } else {
        Seq::new(
            c.len(),
            |i: int| if member(r, i) && c[i].can(d as int) { cleared(d) } else { c[i] },
        )
    }
}

/// Hidden singles of the digits `1..=n` in `r`, in increasing order.
pub open spec fn hidden_digits(c: Seq<FieldModel>, r: Seq<(usize, usize)>, n: int) -> Seq<
    FieldModel,
>
    decreases n,
{
    if n <= 0 {
        c
    } else {
        hidden(hidden_digits(c, r, n - 1), r, n as u8)
    }
}

/// Hidden singles over the full regions among the first `n`.
pub open spec fn hidden_upto(c: Seq<FieldModel>, rs: Seq<Seq<(usize, usize)>>, n: int) -> Seq<
    FieldModel,
>
    decreases n,
{
    if n <= 0 {
        c
    } else {
        let c1 = hidden_upto(c, rs, n - 1);
        if rs[n - 1].len() == 9 {
            hidden_digits(c1, rs[n - 1], 9)
        } else {
            c1
        }
    }
}

/// One round of local reduction: `None` when a promotion meets a digit
/// already solved in the region being visited.
pub open spec fn local_reduction(c: Seq<FieldModel>, rs: Seq<Seq<(usize, usize)>>) -> Option<
    Seq<FieldModel>,
> {
    match sweep_upto(c, rs, rs.len() as int) {
        None => None,
        Some(c1) => Some(hidden_upto(c1, rs, rs.len() as int)),
    }
}

proof fn lemma_model_set(cells: Seq<SudokuField>, i: int, f: SudokuField)
    requires
        0 <= i < cells.len(),
    ensures
        model(cells.update(i, f)) == model(cells).update(i, f@),
{
    assert(model(cells.update(i, f)) =~= model(cells).update(i, f@));
}

pub(crate) proof fn lemma_lowest(cand: Seq<bool>, k: int, j: int)
    requires
        0 <= k <= j < 9,
        cand[j],
    ensures
        k <= lowest_from(cand, k) <= j,
        cand[lowest_from(cand, k)],
    decreases 9 - k,
{
    if !cand[k] {
        lemma_lowest(cand, k + 1, j);
    }
}

proof fn lemma_count_witness(s: Seq<bool>, n: int)
    requires
        count_true(s, n) > 0,
    ensures
        exists|j: int| 0 <= j < n && s[j],
    decreases n,
{
    if n > 0 && !s[n - 1] {
        lemma_count_witness(s, n - 1);
    }
}

proof fn lemma_visit_none(c: Seq<FieldModel>, r: Seq<(usize, usize)>, a: int, b: int)
    requires
        0 <= a <= b,
        visit_upto(c, r, a) is None,
    ensures
        visit_upto(c, r, b) is None,
    decreases b - a,
{
    if a < b {
        lemma_visit_none(c, r, a, b - 1);
    }
}

proof fn lemma_sweep_none(c: Seq<FieldModel>, rs: Seq<Seq<(usize, usize)>>, a: int, b: int)
    requires
        0 <= a <= b,
        sweep_upto(c, rs, a) is None,
    ensures
        sweep_upto(c, rs, b) is None,
    decreases b - a,
{
    if a < b {
        lemma_sweep_none(c, rs, a, b - 1);
    }
}

/// Whether the cell has exactly one candidate.
pub fn is_solved(field: &SudokuField) -> (r: bool)
    ensures
        r == (count_true(field@.cand, 9) == 1),
{
    let mut n: usize = 0;
    let mut k: usize = 0;
    while k < SIZE
        invariant
            k <= 9,
            n == count_true(field@.cand, k as int),
            n <= k,
        decreases 9 - k,
    {
        if field.possible_values[k] {
            n += 1;
        }
        k += 1;
    }
    n == 1
}

/// Index of the lowest candidate of the cell (9 when it has none).
fn lowest_candidate(field: &SudokuField) -> (r: usize)
    ensures
        r == lowest_from(field@.cand, 0),
{
    let mut k: usize = 0;
    while k < SIZE
        invariant
            k <= 9,
            lowest_from(field@.cand, 0) == lowest_from(field@.cand, k as int),
        decreases 9 - k,
    {
        if field.possible_values[k] {
            return k;
        }
        k += 1;
    }
    k
}

/// Removes the digit `d` from every cell of the region `fields`.
fn strike_digit(cells: &mut Vec<SudokuField>, fields: &Vec<(usize, usize)>, d: u8)
    requires
        old(cells)@.len() == 81,
        cells_wf(model(old(cells)@)),
        on_grid(fields@),
        1 <= d <= 9,
    ensures
        final(cells)@.len() == 81,
        model(final(cells)@) == eliminate(model(old(cells)@), fields@, d as int),
        cells_wf(model(final(cells)@)),
        refines(model(final(cells)@), model(old(cells)@)),
{
    let ghost orig = model(cells@);
    let mut j: usize = 0;
    while j < fields.len()
        invariant
            cells@.len() == 81,
            on_grid(fields@),
            1 <= d <= 9,
            j <= fields@.len(),
            cells_wf(orig),
            forall|i: int|
                0 <= i < 81 ==> #[trigger] model(cells@)[i] == if member_upto(fields@, j as int, i) {
                    strike(orig[i], d as int)
                } else {
                    orig[i]
                },
        decreases fields@.len() - j,
    {
        let (x, y) = fields[j];
        let i = x * SIZE + y;
        let mut f = cells[i];
        f.possible_values[(d - 1) as usize] = false;
        proof {
            let o = orig[i as int];
            assert(strike(strike(o, d as int), d as int).cand =~= strike(o, d as int).cand);
            assert(idx(fields@[j as int].0 as int, fields@[j as int].1 as int) == i);
            assert(member_upto(fields@, j + 1, i as int));
            assert(f@ == strike(model(cells@)[i as int], d as int));
            assert(f@ == strike(o, d as int));
            lemma_model_set(cells@, i as int, f);
        }
        cells.set(i, f);
        assert forall|i2: int| 0 <= i2 < 81 && i2 != i implies member_upto(fields@, j + 1, i2)
            == member_upto(fields@, j as int, i2) by {
            if member_upto(fields@, j + 1, i2) {
                let k = choose|k: int|
                    0 <= k < j + 1 && idx(#[trigger] fields@[k].0 as int, fields@[k].1 as int) == i2;
                assert(k != j);
            }
        }
        j += 1;
    }
    assert(model(cells@) =~= eliminate(orig, fields@, d as int));
    assert forall|i: int| 0 <= i < 81 implies (#[trigger] model(cells@)[i]).wf() by {
        if model(cells@)[i].solved is Some {
            assert(no_candidates(orig[i].cand));
            assert forall|k: int| 0 <= k < 9 implies !(#[trigger] model(cells@)[i].cand[k]) by {
                assert(!orig[i].cand[k]);
            }
        }
    }
}

/// Visits the member `k` of the region `fields` (see `visit`); on a
/// contradiction the cells are left as they were.
fn visit_cell(cells: &mut Vec<SudokuField>, fields: &Vec<(usize, usize)>, k: usize) -> (r: Result<
    (),
    SudokuError,
>)
    requires
        old(cells)@.len() == 81,
        cells_wf(model(old(cells)@)),
        on_grid(fields@),
        k < fields@.len(),
    ensures
        final(cells)@.len() == 81,
        cells_wf(model(final(cells)@)),
        refines(model(final(cells)@), model(old(cells)@)),
        match visit(model(old(cells)@), fields@, fields@[k as int]) {
            None => r == Err::<(), SudokuError>(SudokuError::Contradiction) && final(cells)@ == old(
                cells,
            )@,
            Some(c) => r is Ok && model(final(cells)@) == c,
        },
{
    let ghost c0 = model(cells@);
    let (x, y) = fields[k];
    let i = x * SIZE + y;
    let f = cells[i];
    assert(c0[i as int] == f@);
    let mut v = f.solved_value;
    if f.solved_value.is_none() && is_solved(&f) {
        let low = lowest_candidate(&f);
        proof {
            lemma_count_witness(f@.cand, 9);
            let j = choose|j: int| 0 <= j < 9 && f@.cand[j];
            lemma_lowest(f@.cand, 0, j);
        }
        let d = (low + 1) as u8;
        if region_has_value(cells, fields, d) {
            return Err(SudokuError::Contradiction);
        }
        v = Some(d);
    }
    match v {
        Some(d) => {
            let g = SudokuField::solved_to(d);
            proof {
                lemma_model_set(cells@, i as int, g);
            }
            cells.set(i, g);
            let ghost c1 = model(cells@);
            assert(refines(c1, c0));
            strike_digit(cells, fields, d);
        },
        None => {},
    }
    Ok(())
}

/// Solves the hidden single of `d` in the region `fields` (see `hidden`).
fn hidden_single(cells: &mut Vec<SudokuField>, fields: &Vec<(usize, usize)>, d: u8)
    requires
        old(cells)@.len() == 81,
        cells_wf(model(old(cells)@)),
        on_grid(fields@),
        1 <= d <= 9,
    ensures
        final(cells)@.len() == 81,
        cells_wf(model(final(cells)@)),
        refines(model(final(cells)@), model(old(cells)@)),
        model(final(cells)@) == hidden(model(old(cells)@), fields@, d),
{
    let ghost orig = model(cells@);
    if region_has_value(cells, fields, d) {
        return;
    }
    let dk = (d - 1) as usize;
    let mut count: usize = 0;
    let mut j: usize = 0;
    while j < fields.len()
        invariant
            cells@.len() == 81,
            orig == model(cells@),
            on_grid(fields@),
            1 <= d <= 9,
            dk == d - 1,
            j <= fields@.len(),
            count == carriers(orig, fields@, d as int, j as int),
            count <= j,
        decreases fields@.len() - j,
    {
        let (x, y) = fields[j];
        if cells[x * SIZE + y].possible_values[dk] {
            count += 1;
        }
        j += 1;
    }
    if count != 1 {
        return;
    }
    j = 0;
    while j < fields.len()
        invariant
            cells@.len() == 81,
            cells_wf(orig),
            on_grid(fields@),
            1 <= d <= 9,
            dk == d - 1,
            j <= fields@.len(),
            forall|i: int|
                0 <= i < 81 ==> #[trigger] model(cells@)[i] == if member_upto(fields@, j as int, i)
                    && orig[i].can(d as int) {
                    cleared(d)
                } else {
                    orig[i]
                },
        decreases fields@.len() - j,
    {
        let (x, y) = fields[j];
        let i = x * SIZE + y;
        assert(idx(fields@[j as int].0 as int, fields@[j as int].1 as int) == i);
        assert(member_upto(fields@, j + 1, i as int));
        assert(cleared(d).cand[d - 1] == false);
        assert(model(cells@)[i as int].cand[d - 1] == cells@[i as int].possible_values@[dk as int]);
        if cells[i].possible_values[dk] {
            assert(model(cells@)[i as int] == orig[i as int]);
            let g = SudokuField::solved_to(d);
            proof {
                lemma_model_set(cells@, i as int, g);
            }
            cells.set(i, g);
        }
        assert forall|i2: int| 0 <= i2 < 81 && i2 != i implies member_upto(fields@, j + 1, i2)
            == member_upto(fields@, j as int, i2) by {
            if member_upto(fields@, j + 1, i2) {
                let k = choose|k: int|
                    0 <= k < j + 1 && idx(#[trigger] fields@[k].0 as int, fields@[k].1 as int) == i2;
                assert(k != j);
            }
        }
        j += 1;
    }
    assert(model(cells@) =~= hidden(orig, fields@, d));
}

/// One round of local reduction over every region, in order: naked singles,
/// removal of solved digits from their regions, then hidden singles in the
/// full regions. Stops with `Contradiction` where a naked single meets its
/// digit already solved in the region being visited.
pub fn solve_simple(sudoku: &mut Sudoku) -> (r: Result<(), SudokuError>)
    requires
        old(sudoku).wf(),
    ensures
        final(sudoku).wf(),
        final(sudoku).constraints == old(sudoku).constraints,
        refines(final(sudoku)@, old(sudoku)@),
        match local_reduction(old(sudoku)@, old(sudoku).layout()) {
            None => r == Err::<(), SudokuError>(SudokuError::Contradiction),
            Some(c) => r is Ok && final(sudoku)@ == c,
        },
{
    let ghost orig = sudoku@;
    let ghost rs = sudoku.layout();
    let mut ri: usize = 0;
    while ri < sudoku.constraints.len()
        invariant
            sudoku.wf(),
            sudoku.constraints == old(sudoku).constraints,
            rs == sudoku.layout(),
            orig == old(sudoku)@,
            ri <= rs.len(),
            refines(sudoku@, orig),
            sweep_upto(orig, rs, ri as int) == Some(sudoku@),
        decreases rs.len() - ri,
    {
        let fields = &sudoku.constraints[ri].fields;
        assert(on_grid(sudoku.constraints@[ri as int].fields@));
        let ghost start = sudoku@;
        let mut k: usize = 0;
        while k < fields.len()
            invariant
                sudoku.wf(),
                sudoku.constraints == old(sudoku).constraints,
                rs == sudoku.layout(),
                orig == old(sudoku)@,
                ri < rs.len(),
                fields@ == rs[ri as int],
                on_grid(fields@),
                k <= fields@.len(),
                refines(sudoku@, orig),
                sweep_upto(orig, rs, ri as int) == Some(start),
                visit_upto(start, fields@, k as int) == Some(sudoku@),
            decreases fields@.len() - k,
        {
            let res = visit_cell(&mut sudoku.cells, fields, k);
            if res.is_err() {
                proof {
                    lemma_visit_none(start, fields@, k + 1, fields@.len() as int);
                    lemma_sweep_none(orig, rs, ri + 1, rs.len() as int);
                }
                return Err(SudokuError::Contradiction);
            }
            k += 1;
        }
        ri += 1;
    }
    let ghost mid = sudoku@;
    ri = 0;
    while ri < sudoku.constraints.len()
        invariant
            sudoku.wf(),
            sudoku.constraints == old(sudoku).constraints,
            rs == sudoku.layout(),
            orig == old(sudoku)@,
            ri <= rs.len(),
            refines(sudoku@, orig),
            sweep_upto(orig, rs, rs.len() as int) == Some(mid),
            hidden_upto(mid, rs, ri as int) == sudoku@,
        decreases rs.len() - ri,
    {
        let fields = &sudoku.constraints[ri].fields;
        assert(on_grid(sudoku.constraints@[ri as int].fields@));
        if fields.len() == SIZE {
            let ghost start = sudoku@;
            let mut d: u8 = 1;
            while d <= 9
                invariant
                    sudoku.wf(),
                    sudoku.constraints == old(sudoku).constraints,
                    rs == sudoku.layout(),
                    orig == old(sudoku)@,
                    ri < rs.len(),
                    fields@ == rs[ri as int],
                    on_grid(fields@),
                    1 <= d <= 10,
                    refines(sudoku@, orig),
                    hidden_upto(mid, rs, ri as int) == start,
                    hidden_digits(start, fields@, d - 1) == sudoku@,
                decreases 10 - d,
            {
                hidden_single(&mut sudoku.cells, fields, d);
                d += 1;
            }
        }
        ri += 1;
    }
    Ok(())
}

} // verus!
