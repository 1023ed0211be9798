use vstd::prelude::*;

verus! {

/// Number of rows, of columns and of digits.
pub const SIZE: usize = 9;

/// Number of cells of the grid.
pub const CELLS: usize = 81;

/// Index of the cell `(x, y)` in the row-major cell vector.
pub open spec fn idx(x: int, y: int) -> int {
    x * 9 + y
}

pub open spec fn in_grid(p: (usize, usize)) -> bool {
    p.0 < 9 && p.1 < 9
}

/// Errors that the engine reports to its caller.
#[derive(Clone, Copy, Debug, PartialEq, Eq, Structural)]
pub enum SudokuError {
    /// A coordinate outside `[0, 9)` or a digit outside `1..=9`.
    InvalidInput,
    /// A deduced value is already solved elsewhere in the region being visited.
    Contradiction,
}

/// One cell: which digits are still possible, and the digit it is solved to.
/// `possible_values[k]` stands for the digit `k + 1`.
#[derive(Clone, Copy, Debug)]
pub struct SudokuField {
    pub possible_values: [bool; 9],
    pub solved_value: Option<u8>,
}

/// What a cell holds, as mathematics: `cand[k]` for the digit `k + 1`.
pub struct FieldModel {
    pub cand: Seq<bool>,
    pub solved: Option<u8>,
}

impl FieldModel {
    /// A solved cell holds a digit in `1..=9` and no candidates.
    pub open spec fn wf(self) -> bool {
        &&& self.cand.len() == 9
        &&& (self.solved matches Some(v) ==> 1 <= v <= 9 && no_candidates(self.cand))
    }

    /// Whether the digit `d` (in `1..=9`) is still a candidate.
    pub open spec fn can(self, d: int) -> bool {
        self.cand[d - 1]
    }
}

pub open spec fn no_candidates(cand: Seq<bool>) -> bool {
    forall|k: int| 0 <= k < cand.len() ==> !#[trigger] cand[k]
}

/// Number of `true` entries among the first `n` of `s`.
pub open spec fn count_true(s: Seq<bool>, n: int) -> int
    decreases n,
{
    if n <= 0 {
        0
    } else {
        count_true(s, n - 1) + if s[n - 1] { 1int } else { 0int }
    }
}

/// A cell solved to `v`, with every candidate cleared.
pub open spec fn cleared(v: u8) -> FieldModel {
    FieldModel { cand: Seq::new(9, |k: int| false), solved: Some(v) }
}

/// The cell with the candidate `d` removed.
pub open spec fn strike(f: FieldModel, d: int) -> FieldModel {
    FieldModel { cand: f.cand.update(d - 1, false), solved: f.solved }
}

impl View for SudokuField {
    type V = FieldModel;

    open spec fn view(&self) -> FieldModel {
        FieldModel { cand: self.possible_values@, solved: self.solved_value }
    }
}

/// The cells as mathematics.
pub open spec fn model(cells: Seq<SudokuField>) -> Seq<FieldModel> {
    cells.map_values(|f: SudokuField| f@)
}

/// Whether position `i` of the cell vector is a member of the region `r`.
pub open spec fn member(r: Seq<(usize, usize)>, i: int) -> bool {
    exists|k: int| 0 <= k < r.len() && idx(#[trigger] r[k].0 as int, r[k].1 as int) == i
}

/// Whether some cell of the region `r` is solved to `v`.
pub open spec fn holds(c: Seq<FieldModel>, r: Seq<(usize, usize)>, v: u8) -> bool {
    exists|k: int| 0 <= k < r.len() && (#[trigger] c[idx(r[k].0 as int, r[k].1 as int)]).solved == Some(v)
}

/// Every coordinate of `r` lies on the grid.
pub open spec fn on_grid(r: Seq<(usize, usize)>) -> bool {
    forall|k: int| 0 <= k < r.len() ==> in_grid(#[trigger] r[k])
}

/// 81 well-formed cells.
pub open spec fn cells_wf(c: Seq<FieldModel>) -> bool {
    &&& c.len() == 81
    &&& forall|i: int| 0 <= i < 81 ==> (#[trigger] c[i]).wf()
}

/// `c2` is `c1` with candidates only removed and solved cells kept as they were.
pub open spec fn refines(c2: Seq<FieldModel>, c1: Seq<FieldModel>) -> bool {
    &&& c2.len() == c1.len()
    &&& forall|i: int, k: int| 0 <= i < c1.len() && 0 <= k < 9 && (#[trigger] c2[i].cand[k]) ==> c1[i].cand[k]
    &&& forall|i: int| 0 <= i < c1.len() && (#[trigger] c1[i].solved) is Some ==> c2[i].solved == c1[i].solved
}

impl SudokuField {
    /// A fresh cell: every digit possible, nothing solved.
    pub fn fresh() -> (r: SudokuField)
        ensures
            r@.solved is None,
            r@.cand == Seq::new(9, |k: int| true),
    {
        SudokuField { possible_values: [true; 9], solved_value: None }
    }

    /// The cell solved to `digit`, with no candidates.
    pub fn solved_to(digit: u8) -> (r: SudokuField)
        requires
            1 <= digit <= 9,
        ensures
            r@ == cleared(digit),
    {
        let r = SudokuField { possible_values: [false; 9], solved_value: Some(digit) };
        assert(r@.cand =~= Seq::new(9, |k: int| false));
        r
    }
}

/// A constraint region: an identifier and an ordered list of coordinates.
pub struct SudokuConstraint {
    pub id: usize,
    pub fields: Vec<(usize, usize)>,
}

impl SudokuConstraint {
    /// Whether some cell of the region is solved to `value`.
    pub fn has_value(&self, sudoku: &Sudoku, value: u8) -> (r: bool)
        requires
            sudoku.wf(),
            forall|k: int| 0 <= k < self.fields@.len() ==> in_grid(#[trigger] self.fields@[k]),
        ensures
            r == holds(model(sudoku.cells@), self.fields@, value),
    {
        region_has_value(&sudoku.cells, &self.fields, value)
    }
}

/// Whether some cell of `fields` is solved to `value`.
pub fn region_has_value(cells: &Vec<SudokuField>, fields: &Vec<(usize, usize)>, value: u8) -> (r: bool)
    requires
        cells@.len() == 81,
        on_grid(fields@),
    ensures
        r == holds(model(cells@), fields@, value),
{
    let mut i: usize = 0;
    while i < fields.len()
        invariant
            cells@.len() == 81,
            on_grid(fields@),
            0 <= i <= fields@.len(),
            forall|k: int|
                0 <= k < i ==> (#[trigger] model(cells@)[idx(fields@[k].0 as int, fields@[k].1 as int)]).solved
                    != Some(value),
        decreases fields@.len() - i,
    {
        let (x, y) = fields[i];
        if cells[x * SIZE + y].solved_value == Some(value) {
            assert(model(cells@)[idx(fields@[i as int].0 as int, fields@[i as int].1 as int)].solved == Some(value));
            return true;
        }
        i += 1;
    }
    false
}

/// The member `k` of the standard region `i`: regions `0..9` fix `x`,
/// regions `9..18` fix `y`, regions `18..27` are the 3x3 boxes.
pub open spec fn standard_cell(i: int, k: int) -> (usize, usize) {
    if i < 9 {
        (i as usize, k as usize)
    } else if i < 18 {
        (k as usize, (i - 9) as usize)
    } else {
        let b = i - 18;
        ((b / 3 * 3 + k / 3) as usize, (b % 3 * 3 + k % 3) as usize)
    }
}

/// The 27 regions of a standard Sudoku: nine lines of each direction and the
/// nine boxes.
pub fn standard_regions() -> (r: Vec<Vec<(usize, usize)>>)
    ensures
        r@.len() == 27,
        forall|i: int| 0 <= i < 27 ==> (#[trigger] r@[i])@.len() == 9 && on_grid(r@[i]@),
        forall|i: int, k: int| 0 <= i < 27 && 0 <= k < 9 ==> (#[trigger] r@[i]@[k]) == standard_cell(i, k),
{
    let mut r: Vec<Vec<(usize, usize)>> = Vec::new();
    let mut i: usize = 0;
    while i < 27
        invariant
            i <= 27,
            r@.len() == i,
            forall|a: int| 0 <= a < i ==> (#[trigger] r@[a])@.len() == 9 && on_grid(r@[a]@),
            forall|a: int, k: int| 0 <= a < i && 0 <= k < 9 ==> (#[trigger] r@[a]@[k]) == standard_cell(a, k),
        decreases 27 - i,
    {
        let mut region: Vec<(usize, usize)> = Vec::new();
        let mut k: usize = 0;
        while k < 9
            invariant
                i < 27,
                k <= 9,
                region@.len() == k,
                on_grid(region@),
                forall|q: int| 0 <= q < k ==> (#[trigger] region@[q]) == standard_cell(i as int, q),
            decreases 9 - k,
        {
            let p = if i < 9 {
                (i, k)
            } else if i < 18 {
                (k, i - 9)
            } else {
                let b = i - 18;
                (b / 3 * 3 + k / 3, b % 3 * 3 + k % 3)
            };
            region.push(p);
            k += 1;
        }
        r.push(region);
        i += 1;
    }
    r
}

/// The grid: 81 cells in row-major order (`(x, y)` at `x * 9 + y`) and the
/// constraint regions, the region at position `i` having identifier `i`.
pub struct Sudoku {
    pub cells: Vec<SudokuField>,
    pub constraints: Vec<SudokuConstraint>,
}

/// The coordinate lists of the regions, in order.
pub open spec fn layout_of(cs: Seq<SudokuConstraint>) -> Seq<Seq<(usize, usize)>> {
    cs.map_values(|c: SudokuConstraint| c.fields@)
}

impl View for Sudoku {
    type V = Seq<FieldModel>;

    open spec fn view(&self) -> Seq<FieldModel> {
        model(self.cells@)
    }
}

impl Sudoku {
    /// The coordinate lists of the regions, in supply order.
    pub open spec fn layout(self) -> Seq<Seq<(usize, usize)>> {
        layout_of(self.constraints@)
    }

    pub open spec fn regions_wf(regions: Seq<SudokuConstraint>) -> bool {
        &&& forall|i: int| 0 <= i < regions.len() ==> (#[trigger] regions[i]).id == i
        &&& forall|i: int| 0 <= i < regions.len() ==> on_grid(#[trigger] regions[i].fields@)
    }

    /// The grid over `regions`: every cell unsolved with every digit possible;
    /// `InvalidInput` where a coordinate lies off the grid.
    pub fn new(regions: &Vec<Vec<(usize, usize)>>) -> (r: Result<Sudoku, SudokuError>)
        ensures
            r is Err <==> exists|i: int| 0 <= i < regions@.len() && !on_grid(#[trigger] regions@[i]@),
            r is Err ==> r == Err::<Sudoku, SudokuError>(SudokuError::InvalidInput),
            r matches Ok(s) ==> {
                &&& s.wf()
                &&& s.constraints@.len() == regions@.len()
                &&& forall|i: int| 0 <= i < regions@.len() ==> (#[trigger] s.layout()[i]) == regions@[i]@
                &&& forall|i: int|
                    0 <= i < 81 ==> (#[trigger] s@[i]).solved is None && s@[i].cand == Seq::new(
                        9,
                        |k: int| true,
                    )
            },
    {
        let mut cells: Vec<SudokuField> = Vec::new();
        let mut i: usize = 0;
        while i < CELLS
            invariant
                i <= 81,
                cells@.len() == i,
                forall|a: int|
                    0 <= a < i ==> (#[trigger] cells@[a])@.solved is None && cells@[a]@.cand == Seq::new(
                        9,
                        |k: int| true,
                    ),
            decreases 81 - i,
        {
            cells.push(SudokuField::fresh());
            i += 1;
        }
        let mut constraints: Vec<SudokuConstraint> = Vec::new();
        let mut ri: usize = 0;
        while ri < regions.len()
            invariant
                ri <= regions@.len(),
                constraints@.len() == ri,
                Self::regions_wf(constraints@),
                forall|a: int| 0 <= a < ri ==> (#[trigger] constraints@[a]).fields@ == regions@[a]@,
            decreases regions@.len() - ri,
        {
            let src = &regions[ri];
            let mut fields: Vec<(usize, usize)> = Vec::new();
            let mut k: usize = 0;
            while k < src.len()
                invariant
                    ri < regions@.len(),
                    src@ == regions@[ri as int]@,
                    k <= src@.len(),
                    fields@ == src@.subrange(0, k as int),
                    on_grid(fields@),
                decreases src@.len() - k,
            {
                let (x, y) = src[k];
                if x >= SIZE || y >= SIZE {
                    assert(!in_grid(regions@[ri as int]@[k as int]));
                    return Err(SudokuError::InvalidInput);
                }
                fields.push((x, y));
                assert(fields@ =~= src@.subrange(0, k + 1));
                k += 1;
            }
            assert(fields@ =~= src@);
            constraints.push(SudokuConstraint { id: ri, fields });
            ri += 1;
        }
        assert forall|i: int| 0 <= i < regions@.len() implies on_grid(#[trigger] regions@[i]@) by {
            assert(on_grid(constraints@[i].fields@));
        }
        let s = Sudoku { cells, constraints };
        assert(cells_wf(s@));
        Ok(s)
    }

    /// Reads the cell `(x, y)`.
    pub fn field(&self, x: usize, y: usize) -> (r: SudokuField)
        requires
            self.wf(),
            x < 9,
            y < 9,
        ensures
            r@ == self@[idx(x as int, y as int)],
    {
        self.cells[x * SIZE + y]
    }

    /// Manual override: the cell `(x, y)` becomes solved to `digit` with no
    /// candidates, whatever the rest of the grid holds.
    pub fn set_cell(&mut self, x: usize, y: usize, digit: u8) -> (r: Result<(), SudokuError>)
        requires
            old(self).wf(),
        ensures
            final(self).wf(),
            final(self).constraints == old(self).constraints,
            r is Err <==> !(x < 9 && y < 9 && 1 <= digit <= 9),
            r is Err ==> r == Err::<(), SudokuError>(SudokuError::InvalidInput) && final(self)@ == old(self)@,
            r is Ok ==> final(self)@ == old(self)@.update(idx(x as int, y as int), cleared(digit)),
    {
        if x >= SIZE || y >= SIZE || digit < 1 || digit > 9 {
            return Err(SudokuError::InvalidInput);
        }
        let f = SudokuField::solved_to(digit);
        let ghost before = self.cells@;
        self.cells.set(x * SIZE + y, f);
        assert(self@ =~= model(before).update(idx(x as int, y as int), cleared(digit)));
        assert(cells_wf(self@));
        Ok(())
    }

    pub open spec fn wf(self) -> bool {
        &&& self.cells@.len() == 81
        &&& cells_wf(self@)
        &&& Self::regions_wf(self.constraints@)
    }
}

} // verus!
