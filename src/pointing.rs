use vstd::prelude::*;
use crate::grid::{
    cells_wf, holds, idx, layout_of, in_grid, model, on_grid, refines, region_has_value, strike,
    FieldModel, Sudoku, SudokuConstraint, SudokuField, CELLS, SIZE,
};
use crate::local::{member, member_upto};

verus! {

/// The first `n` members of `r` that carry the candidate `d`, in order.
pub open spec fn carrying(c: Seq<FieldModel>, r: Seq<(usize, usize)>, d: int, n: int) -> Seq<(usize, usize)>
    decreases n,
{
    if n <= 0 {
        seq![]
    } else {
        let s = carrying(c, r, d, n - 1);
        if c[idx(r[n - 1].0 as int, r[n - 1].1 as int)].can(d) {
            s.push(r[n - 1])
        } else {
            s
        }
    }
}

/// The region `o` is full, differs from the region `ci`, has `d` solved
/// nowhere, and holds every cell of `s`.
pub open spec fn confines(
    c: Seq<FieldModel>,
    rs: Seq<Seq<(usize, usize)>>,
    ci: int,
    o: int,
    d: int,
    s: Seq<(usize, usize)>,
) -> bool {
    &&& 0 <= o < rs.len()
    &&& o != ci
    &&& rs[o].len() == 9
    &&& !holds(c, rs[o], d as u8)
    &&& forall|t: int| 0 <= t < s.len() ==> member(rs[o], idx(#[trigger] s[t].0 as int, s[t].1 as int))
}

/// The pointing-set step for the region `ci` and the digit `d`: where the
/// cells of the full region `ci` that carry `d` all lie in another full region
/// without `d`, `d` is removed from the rest of that region.
pub open spec fn pointing(c: Seq<FieldModel>, rs: Seq<Seq<(usize, usize)>>, ci: int, d: int) -> Seq<FieldModel> {
    let r = rs[ci];
    let s = carrying(c, r, d, r.len() as int);
    if r.len() != 9 || holds(c, r, d as u8) || s.len() == 0 {
        c
    } else {
        Seq::new(
            c.len(),
            |i: int|
                if (exists|o: int| #[trigger] confines(c, rs, ci, o, d, s) && member(rs[o], i))
                    && !member(s, i) {
                    strike(c[i], d)
                } else {
                    c[i]
                },
        )
    }
}

/// Pointing-set steps of the region `ci` for the digits `1..=n`.
pub open spec fn pointing_digits(c: Seq<FieldModel>, rs: Seq<Seq<(usize, usize)>>, ci: int, n: int) -> Seq<FieldModel>
    decreases n,
{
    if n <= 0 {
        c
    } else {
        pointing(pointing_digits(c, rs, ci, n - 1), rs, ci, n)
    }
}

/// Pointing-set steps of the first `n` regions.
pub open spec fn pointing_upto(c: Seq<FieldModel>, rs: Seq<Seq<(usize, usize)>>, n: int) -> Seq<FieldModel>
    decreases n,
{
    if n <= 0 {
        c
    } else {
        pointing_digits(pointing_upto(c, rs, n - 1), rs, n - 1, 9)
    }
}

/// For each cell position, the indices of the regions that hold it.
fn inverse_index(constraints: &Vec<SudokuConstraint>) -> (inv: Vec<Vec<usize>>)
    requires
        Sudoku::regions_wf(constraints@),
    ensures
        inv@.len() == 81,
        forall|i: int, t: int|
            0 <= i < 81 && 0 <= t < inv@[i]@.len() ==> #[trigger] inv@[i]@[t] < constraints@.len()
                && member(constraints@[inv@[i]@[t] as int].fields@, i),
        forall|i: int, o: int|
            0 <= i < 81 && 0 <= o < constraints@.len() && #[trigger] member(constraints@[o].fields@, i)
                ==> inv@[i]@.contains(o as usize),
{
    let mut inv: Vec<Vec<usize>> = Vec::new();
    let mut i: usize = 0;
    while i < CELLS
        invariant
            i <= 81,
            inv@.len() == i,
            forall|a: int| 0 <= a < i ==> (#[trigger] inv@[a])@.len() == 0,
        decreases 81 - i,
    {
        inv.push(Vec::new());
        i += 1;
    }
    let mut ri: usize = 0;
    while ri < constraints.len()
        invariant
            Sudoku::regions_wf(constraints@),
            ri <= constraints@.len(),
            inv@.len() == 81,
            forall|i: int, t: int|
                0 <= i < 81 && 0 <= t < inv@[i]@.len() ==> #[trigger] inv@[i]@[t] < constraints@.len()
                    && member(constraints@[inv@[i]@[t] as int].fields@, i),
            forall|i: int, o: int|
                0 <= i < 81 && 0 <= o < ri && #[trigger] member(constraints@[o].fields@, i)
                    ==> inv@[i]@.contains(o as usize),
        decreases constraints@.len() - ri,
    {
        let fields = &constraints[ri].fields;
        assert(on_grid(constraints@[ri as int].fields@));
        let mut k: usize = 0;
        while k < fields.len()
            invariant
                Sudoku::regions_wf(constraints@),
                ri < constraints@.len(),
                fields@ == constraints@[ri as int].fields@,
                on_grid(fields@),
                k <= fields@.len(),
                inv@.len() == 81,
                forall|i: int, t: int|
                    0 <= i < 81 && 0 <= t < inv@[i]@.len() ==> #[trigger] inv@[i]@[t] < constraints@.len()
                        && member(constraints@[inv@[i]@[t] as int].fields@, i),
                forall|i: int, o: int|
                    0 <= i < 81 && 0 <= o < ri && #[trigger] member(constraints@[o].fields@, i)
                        ==> inv@[i]@.contains(o as usize),
                forall|i: int| 0 <= i < 81 && member_upto(fields@, k as int, i) ==> (#[trigger] inv@[i]@).contains(ri),
            decreases fields@.len() - k,
        {
            let (x, y) = fields[k];
            let p = x * SIZE + y;
            assert(idx(fields@[k as int].0 as int, fields@[k as int].1 as int) == p);
            assert(member(fields@, p as int));
            let ghost old_inv = inv@;
            let mut list: Vec<usize> = Vec::new();
            std::mem::swap(&mut list, &mut inv[p]);
            list.push(ri);
            inv.set(p, list);
            assert forall|i: int| 0 <= i < 81 && member_upto(fields@, k + 1, i) implies (#[trigger] inv@[i]@).contains(ri) by {
                if i != p {
                    let q = choose|q: int| 0 <= q < k + 1 && idx(#[trigger] fields@[q].0 as int, fields@[q].1 as int) == i;
                    assert(q != k);
                    assert(member_upto(fields@, k as int, i));
                    assert(old_inv[i]@.contains(ri));
                } else {
                    assert(inv@[i]@[inv@[i]@.len() - 1] == ri);
                }
            }
            assert forall|i: int, o: int|
                0 <= i < 81 && 0 <= o < ri && #[trigger] member(constraints@[o].fields@, i)
                    implies inv@[i]@.contains(o as usize) by {
                assert(old_inv[i]@.contains(o as usize));
                if i == p {
                    let t = choose|t: int| 0 <= t < old_inv[i]@.len() && old_inv[i]@[t] == o as usize;
                    assert(inv@[i]@[t] == o as usize);
                }
            }
            k += 1;
        }
        ri += 1;
    }
    inv
}

/// Some region among the first `n` of `list` confines `s` and holds position `i`.
pub open spec fn hit_by(
    c: Seq<FieldModel>,
    rs: Seq<Seq<(usize, usize)>>,
    ci: int,
    d: int,
    s: Seq<(usize, usize)>,
    list: Seq<usize>,
    n: int,
    i: int,
) -> bool {
    exists|t: int|
        0 <= t < n && confines(c, rs, ci, #[trigger] list[t] as int, d, s) && member(rs[list[t] as int], i)
}

proof fn lemma_holds_same(c1: Seq<FieldModel>, c2: Seq<FieldModel>, r: Seq<(usize, usize)>, v: u8)
    requires
        c1.len() == 81,
        c2.len() == 81,
        on_grid(r),
        forall|i: int| 0 <= i < 81 ==> (#[trigger] c1[i]).solved == c2[i].solved,
    ensures
        holds(c1, r, v) == holds(c2, r, v),
{
    if holds(c1, r, v) {
        let k = choose|k: int| 0 <= k < r.len() && (#[trigger] c1[idx(r[k].0 as int, r[k].1 as int)]).solved == Some(v);
        assert(in_grid(r[k]));
        assert(c2[idx(r[k].0 as int, r[k].1 as int)].solved == Some(v));
    }
    if holds(c2, r, v) {
        let k = choose|k: int| 0 <= k < r.len() && (#[trigger] c2[idx(r[k].0 as int, r[k].1 as int)]).solved == Some(v);
        assert(in_grid(r[k]));
        assert(c1[idx(r[k].0 as int, r[k].1 as int)].solved == Some(v));
    }
}

/// The members of `fields` that carry the candidate `d`, in order.
fn collect_carrying(cells: &Vec<SudokuField>, fields: &Vec<(usize, usize)>, d: u8) -> (s: Vec<(usize, usize)>)
    requires
        cells@.len() == 81,
        on_grid(fields@),
        1 <= d <= 9,
    ensures
        s@ == carrying(model(cells@), fields@, d as int, fields@.len() as int),
        on_grid(s@),
{
    let mut s: Vec<(usize, usize)> = Vec::new();
    let mut k: usize = 0;
    while k < fields.len()
        invariant
            cells@.len() == 81,
            on_grid(fields@),
            1 <= d <= 9,
            k <= fields@.len(),
            s@ == carrying(model(cells@), fields@, d as int, k as int),
            on_grid(s@),
        decreases fields@.len() - k,
    {
        let (x, y) = fields[k];
        assert(model(cells@)[idx(x as int, y as int)] == cells@[(x * 9 + y) as int]@);
        if cells[x * SIZE + y].possible_values[(d - 1) as usize] {
            s.push((x, y));
        }
        k += 1;
    }
    s
}

/// Whether `(x, y)` is a member of `s`.
fn contains_pos(s: &Vec<(usize, usize)>, x: usize, y: usize) -> (r: bool)
    requires
        on_grid(s@),
        x < 9,
        y < 9,
    ensures
        r == member(s@, idx(x as int, y as int)),
{
    let mut t: usize = 0;
    while t < s.len()
        invariant
            on_grid(s@),
            x < 9,
            y < 9,
            t <= s@.len(),
            !member_upto(s@, t as int, idx(x as int, y as int)),
        decreases s@.len() - t,
    {
        let (a, b) = s[t];
        if a == x && b == y {
            assert(idx(s@[t as int].0 as int, s@[t as int].1 as int) == idx(x as int, y as int));
            return true;
        }
        assert(in_grid(s@[t as int]));
        assert(!member_upto(s@, t + 1, idx(x as int, y as int))) by {
            if member_upto(s@, t + 1, idx(x as int, y as int)) {
                let q = choose|q: int| 0 <= q < t + 1 && idx(#[trigger] s@[q].0 as int, s@[q].1 as int) == idx(x as int, y as int);
                assert(in_grid(s@[q]));
            }
        }
        t += 1;
    }
    false
}

/// Whether `list` holds `o`.
fn list_contains(list: &Vec<usize>, o: usize) -> (r: bool)
    ensures
        r == list@.contains(o),
{
    let mut t: usize = 0;
    while t < list.len()
        invariant
            t <= list@.len(),
            forall|q: int| 0 <= q < t ==> list@[q] != o,
        decreases list@.len() - t,
    {
        if list[t] == o {
            return true;
        }
        t += 1;
    }
    false
}

/// Removes the candidate `d` from the members of `fields` that are not in `s`.
fn clear_outside(cells: &mut Vec<SudokuField>, fields: &Vec<(usize, usize)>, s: &Vec<(usize, usize)>, d: u8)
    requires
        old(cells)@.len() == 81,
        cells_wf(model(old(cells)@)),
        on_grid(fields@),
        on_grid(s@),
        1 <= d <= 9,
    ensures
        final(cells)@.len() == 81,
        forall|i: int|
            0 <= i < 81 ==> #[trigger] model(final(cells)@)[i] == if member(fields@, i) && !member(s@, i) {
                strike(model(old(cells)@)[i], d as int)
            } else {
                model(old(cells)@)[i]
            },
{
    let ghost orig = model(cells@);
    let mut j: usize = 0;
    while j < fields.len()
        invariant
            cells@.len() == 81,
            cells_wf(orig),
            on_grid(fields@),
            on_grid(s@),
            1 <= d <= 9,
            j <= fields@.len(),
            forall|i: int|
                0 <= i < 81 ==> #[trigger] model(cells@)[i] == if member_upto(fields@, j as int, i) && !member(s@, i) {
                    strike(orig[i], d as int)
                } else {
                    orig[i]
                },
        decreases fields@.len() - j,
    {
        let (x, y) = fields[j];
        let i = x * SIZE + y;
        assert(idx(fields@[j as int].0 as int, fields@[j as int].1 as int) == i);
        assert(member_upto(fields@, j + 1, i as int));
        if !contains_pos(s, x, y) {
            let mut f = cells[i];
            f.possible_values[(d - 1) as usize] = false;
            proof {
                let o = orig[i as int];
                assert(strike(strike(o, d as int), d as int).cand =~= strike(o, d as int).cand);
                assert(f@ == strike(model(cells@)[i as int], d as int));
                assert(f@ == strike(o, d as int));
            }
            let ghost before = cells@;
            cells.set(i, f);
            assert(model(cells@) =~= model(before).update(i as int, f@));
        }
        assert forall|i2: int| 0 <= i2 < 81 && i2 != i implies member_upto(fields@, j + 1, i2)
            == member_upto(fields@, j as int, i2) by {
            if member_upto(fields@, j + 1, i2) {
                let k = choose|k: int|
                    0 <= k < j + 1 && idx(#[trigger] fields@[k].0 as int, fields@[k].1 as int) == i2;
                assert(k != j);
            }
        }
        j += 1;
    }
}

/// `inv` lists, for each cell position, exactly the regions of `cs` that hold it.
pub open spec fn indexes(inv: Seq<Vec<usize>>, cs: Seq<SudokuConstraint>) -> bool {
    &&& inv.len() == 81
    &&& forall|i: int, t: int|
        0 <= i < 81 && 0 <= t < inv[i]@.len() ==> #[trigger] inv[i]@[t] < cs.len() && member(
            cs[inv[i]@[t] as int].fields@,
            i,
        )
    &&& forall|i: int, o: int|
        0 <= i < 81 && 0 <= o < cs.len() && #[trigger] member(cs[o].fields@, i) ==> inv[i]@.contains(
            o as usize,
        )
}

/// Whether every member of `s` lies in the region `o`, read from the inverse index.
fn in_all(inv: &Vec<Vec<usize>>, s: &Vec<(usize, usize)>, o: usize, constraints: &Vec<SudokuConstraint>) -> (r: bool)
    requires
        indexes(inv@, constraints@),
        o < constraints@.len(),
        on_grid(s@),
        s@.len() > 0 ==> member(constraints@[o as int].fields@, idx(s@[0].0 as int, s@[0].1 as int)),
    ensures
        r == forall|t: int|
            0 <= t < s@.len() ==> member(constraints@[o as int].fields@, idx(#[trigger] s@[t].0 as int, s@[t].1 as int)),
{
    let mut t: usize = 1;
    while t < s.len()
        invariant
            indexes(inv@, constraints@),
            o < constraints@.len(),
            on_grid(s@),
            1 <= t,
            s@.len() > 0 ==> t <= s@.len(),
            s@.len() > 0 ==> member(constraints@[o as int].fields@, idx(s@[0].0 as int, s@[0].1 as int)),
            forall|q: int| 0 <= q < t && q < s@.len() ==> member(constraints@[o as int].fields@, idx(#[trigger] s@[q].0 as int, s@[q].1 as int)),
        decreases s@.len() - t,
    {
        let (x, y) = s[t];
        assert(in_grid(s@[t as int]));
        let p = x * SIZE + y;
        if !list_contains(&inv[p], o) {
            assert(!member(constraints@[o as int].fields@, idx(s@[t as int].0 as int, s@[t as int].1 as int)));
            return false;
        }
        let ghost q = choose|q: int| 0 <= q < inv@[p as int]@.len() && inv@[p as int]@[q] == o;
        assert(inv@[p as int]@[q] < constraints@.len());
        t += 1;
    }
    true
}

/// The pointing-set step for the region `ci` and the digit `d` (see `pointing`).
fn pointing_step(
    cells: &mut Vec<SudokuField>,
    constraints: &Vec<SudokuConstraint>,
    inv: &Vec<Vec<usize>>,
    ci: usize,
    d: u8,
)
    requires
        old(cells)@.len() == 81,
        cells_wf(model(old(cells)@)),
        Sudoku::regions_wf(constraints@),
        indexes(inv@, constraints@),
        ci < constraints@.len(),
        constraints@[ci as int].fields@.len() == 9,
        1 <= d <= 9,
    ensures
        final(cells)@.len() == 81,
        cells_wf(model(final(cells)@)),
        refines(model(final(cells)@), model(old(cells)@)),
        model(final(cells)@) == pointing(model(old(cells)@), layout_of(constraints@), ci as int, d as int),
{
    let ghost c = model(cells@);
    let ghost rs = layout_of(constraints@);
    let region = &constraints[ci];
    assert(on_grid(region.fields@));
    assert(rs[ci as int] == region.fields@);
    if region_has_value(cells, &region.fields, d) {
        return;
    }
    let valid = collect_carrying(cells, &region.fields, d);
    if valid.len() == 0 {
        return;
    }
    let (x0, y0) = valid[0];
    assert(in_grid(valid@[0]));
    let overl = &inv[x0 * SIZE + y0];
    let ghost anchor = idx(x0 as int, y0 as int);
    let mut t: usize = 0;
    while t < overl.len()
        invariant
            cells@.len() == 81,
            cells_wf(c),
            Sudoku::regions_wf(constraints@),
            indexes(inv@, constraints@),
            rs == layout_of(constraints@),
            ci < constraints@.len(),
            region == constraints@[ci as int],
            1 <= d <= 9,
            on_grid(valid@),
            valid@.len() > 0,
            valid@ == carrying(c, rs[ci as int], d as int, 9),
            anchor == idx(valid@[0].0 as int, valid@[0].1 as int),
            0 <= anchor < 81,
            overl@ == inv@[anchor]@,
            t <= overl@.len(),
            forall|i: int| 0 <= i < 81 ==> (#[trigger] model(cells@)[i]).solved == c[i].solved,
            forall|i: int|
                0 <= i < 81 ==> #[trigger] model(cells@)[i] == if hit_by(c, rs, ci as int, d as int, valid@, overl@, t as int, i)
                    && !member(valid@, i) {
                    strike(c[i], d as int)
                } else {
                    c[i]
                },
        decreases overl@.len() - t,
    {
        let o = overl[t];
        assert(o < constraints@.len() && member(constraints@[o as int].fields@, anchor));
        let other = &constraints[o];
        assert(on_grid(other.fields@));
        assert(rs[o as int] == other.fields@);
        let ghost before = model(cells@);
        let mut confined = false;
        if other.id != region.id && other.fields.len() == SIZE {
            proof {
                lemma_holds_same(before, c, other.fields@, d);
            }
            if !region_has_value(cells, &other.fields, d) {
                if in_all(inv, &valid, o, constraints) {
                    confined = true;
                    clear_outside(cells, &other.fields, &valid, d);
                }
            }
        }
        assert(confined == confines(c, rs, ci as int, o as int, d as int, valid@));
        assert forall|i: int| 0 <= i < 81 implies #[trigger] model(cells@)[i] == if hit_by(c, rs, ci as int, d as int, valid@, overl@, t + 1, i)
                    && !member(valid@, i) {
                    strike(c[i], d as int)
                } else {
                    c[i]
                } by {
            if hit_by(c, rs, ci as int, d as int, valid@, overl@, t + 1, i) && !hit_by(c, rs, ci as int, d as int, valid@, overl@, t as int, i) {
                let q = choose|q: int| 0 <= q < t + 1 && confines(c, rs, ci as int, #[trigger] overl@[q] as int, d as int, valid@)
                    && member(rs[overl@[q] as int], i);
                assert(q == t);
            }
            if confined && member(rs[o as int], i) {
                assert(hit_by(c, rs, ci as int, d as int, valid@, overl@, t + 1, i));
            }
            if confined && member(rs[o as int], i) && !member(valid@, i) {
                assert(c[i].cand.len() == 9);
                assert(strike(strike(c[i], d as int), d as int).cand =~= strike(c[i], d as int).cand);
            }
        }
        t += 1;
    }
    proof {
        assert forall|i: int| 0 <= i < 81 implies hit_by(c, rs, ci as int, d as int, valid@, overl@, overl@.len() as int, i)
            == (exists|o: int| #[trigger] confines(c, rs, ci as int, o, d as int, valid@) && member(rs[o], i)) by {
            if exists|o: int| #[trigger] confines(c, rs, ci as int, o, d as int, valid@) && member(rs[o], i) {
                let o = choose|o: int| #[trigger] confines(c, rs, ci as int, o, d as int, valid@) && member(rs[o], i);
                assert(member(rs[o], anchor));
                assert(member(constraints@[o].fields@, anchor));
                assert(overl@.contains(o as usize));
                let q = choose|q: int| 0 <= q < overl@.len() && overl@[q] == o as usize;
                assert(confines(c, rs, ci as int, overl@[q] as int, d as int, valid@));
            }
        }
        assert(model(cells@) =~= pointing(c, rs, ci as int, d as int));
        let c2 = model(cells@);
        assert forall|i: int| 0 <= i < 81 implies (#[trigger] c2[i]).wf() by {
            assert(c[i].wf());
            if c2[i].solved is Some {
                assert forall|k: int| 0 <= k < c2[i].cand.len() implies !(#[trigger] c2[i].cand[k]) by {
                    assert(!c[i].cand[k]);
                }
            }
        }
    }
}

/// One round of pointing-set elimination: for every full region and every
/// digit solved nowhere in it, where the cells that still carry the digit all
/// lie in another full region holding the first of them and without the
/// digit, the digit is removed from the other cells of that region.
pub fn solve_spots_overlap(sudoku: &mut Sudoku)
    requires
        old(sudoku).wf(),
    ensures
        final(sudoku).wf(),
        final(sudoku).constraints == old(sudoku).constraints,
        refines(final(sudoku)@, old(sudoku)@),
        final(sudoku)@ == pointing_upto(old(sudoku)@, old(sudoku).layout(), old(sudoku).layout().len() as int),
{
    let ghost orig = sudoku@;
    let ghost rs = sudoku.layout();
    let inv = inverse_index(&sudoku.constraints);
    let mut ri: usize = 0;
    while ri < sudoku.constraints.len()
        invariant
            sudoku.wf(),
            sudoku.constraints == old(sudoku).constraints,
            rs == sudoku.layout(),
            orig == old(sudoku)@,
            indexes(inv@, sudoku.constraints@),
            ri <= rs.len(),
            refines(sudoku@, orig),
            pointing_upto(orig, rs, ri as int) == sudoku@,
        decreases rs.len() - ri,
    {
        let ghost start = sudoku@;
        if sudoku.constraints[ri].fields.len() == SIZE {
            let mut d: u8 = 1;
            while d <= 9
                invariant
                    sudoku.wf(),
                    sudoku.constraints == old(sudoku).constraints,
                    rs == sudoku.layout(),
                    orig == old(sudoku)@,
                    indexes(inv@, sudoku.constraints@),
                    ri < rs.len(),
                    sudoku.constraints@[ri as int].fields@.len() == 9,
                    1 <= d <= 10,
                    refines(sudoku@, orig),
                    pointing_upto(orig, rs, ri as int) == start,
                    pointing_digits(start, rs, ri as int, d - 1) == sudoku@,
                decreases 10 - d,
            {
                pointing_step(&mut sudoku.cells, &sudoku.constraints, &inv, ri, d);
                d += 1;
            }
        } else {
            proof {
                lemma_pointing_digits_skip(start, rs, ri as int, 9);
            }
        }
        ri += 1;
    }
}

proof fn lemma_pointing_digits_skip(c: Seq<FieldModel>, rs: Seq<Seq<(usize, usize)>>, ci: int, n: int)
    requires
        0 <= ci < rs.len(),
        rs[ci].len() != 9,
    ensures
        pointing_digits(c, rs, ci, n) == c,
    decreases n,
{
    if n > 0 {
        lemma_pointing_digits_skip(c, rs, ci, n - 1);
    }
}

} // verus!
