use vstd::prelude::*;
use crate::adjacency::{adjacency, adjacent, blocks, excluded, near};
use crate::grid::{in_grid, cells_wf, cleared, count_true, holds, idx, on_grid, strike, FieldModel};
use crate::local::{
    lemma_lowest, lowest_from, carriers, eliminate, hidden, hidden_digits, hidden_upto, local_reduction, member,
    sweep_upto, visit, visit_upto,
};
use crate::pointing::{carrying, confines, pointing, pointing_digits, pointing_upto};
use crate::propagate::round;

verus! {

proof fn lemma_carrying_holds(c: Seq<FieldModel>, r: Seq<(usize, usize)>, d: int, n: int, k: int)
    requires
        0 <= k < n <= r.len(),
        c[idx(r[k].0 as int, r[k].1 as int)].can(d),
    ensures
        member(carrying(c, r, d, n), idx(r[k].0 as int, r[k].1 as int)),
    decreases n,
{
    let s = carrying(c, r, d, n);
    if k == n - 1 {
        assert(s[s.len() - 1] == r[k]);
    } else {
        lemma_carrying_holds(c, r, d, n - 1, k);
        let s1 = carrying(c, r, d, n - 1);
        let q = choose|q: int| 0 <= q < s1.len() && idx(#[trigger] s1[q].0 as int, s1[q].1 as int) == idx(r[k].0 as int, r[k].1 as int);
        assert(s[q] == s1[q]);
    }
}

/// Soundness of a pointing-set deduction: where the step for the full region
/// `ci` and the digit `d` removes `d` from the cell at position `i`, another
/// full region without `d` holds `i` and every member of `ci` that carried
/// `d`, and `i` is not one of those members.
pub proof fn lemma_pointing_sound(c: Seq<FieldModel>, rs: Seq<Seq<(usize, usize)>>, ci: int, d: int, i: int)
    requires
        0 <= ci < rs.len(),
        1 <= d <= 9,
        0 <= i < c.len(),
        c[i].cand.len() == 9,
        c[i].can(d),
        !pointing(c, rs, ci, d)[i].can(d),
    ensures
        exists|o: int|
            #![trigger rs[o]]
            0 <= o < rs.len() && o != ci && rs[o].len() == 9 && !holds(c, rs[o], d as u8) && member(rs[o], i)
                && (forall|k: int|
                0 <= k < rs[ci].len() && c[idx(rs[ci][k].0 as int, rs[ci][k].1 as int)].can(d) ==> member(
                    rs[o],
                    idx(#[trigger] rs[ci][k].0 as int, rs[ci][k].1 as int),
                )) && !(exists|k: int|
                0 <= k < rs[ci].len() && c[idx(rs[ci][k].0 as int, rs[ci][k].1 as int)].can(d) && idx(
                    #[trigger] rs[ci][k].0 as int,
                    rs[ci][k].1 as int,
                ) == i),
{
    let r = rs[ci];
    let s = carrying(c, r, d, r.len() as int);
    let o = choose|o: int| #[trigger] confines(c, rs, ci, o, d, s) && member(rs[o], i);
    assert(!member(s, i));
    assert forall|k: int|
        0 <= k < r.len() && c[idx(r[k].0 as int, r[k].1 as int)].can(d) implies member(
        rs[o],
        idx(#[trigger] r[k].0 as int, r[k].1 as int),
    ) by {
        lemma_carrying_holds(c, r, d, r.len() as int, k);
        let q = choose|q: int| 0 <= q < s.len() && idx(#[trigger] s[q].0 as int, s[q].1 as int) == idx(r[k].0 as int, r[k].1 as int);
        assert(member(rs[o], idx(s[q].0 as int, s[q].1 as int)));
    }
    if exists|k: int|
        0 <= k < r.len() && c[idx(r[k].0 as int, r[k].1 as int)].can(d) && idx(#[trigger] r[k].0 as int, r[k].1 as int) == i {
        let k = choose|k: int|
            0 <= k < r.len() && c[idx(r[k].0 as int, r[k].1 as int)].can(d) && idx(#[trigger] r[k].0 as int, r[k].1 as int) == i;
        lemma_carrying_holds(c, r, d, r.len() as int, k);
    }
}

/// No unsolved member of a region has a single candidate left.
pub open spec fn no_naked_single(c: Seq<FieldModel>, rs: Seq<Seq<(usize, usize)>>) -> bool {
    forall|ri: int, k: int|
        0 <= ri < rs.len() && 0 <= k < rs[ri].len() && (#[trigger] c[idx(rs[ri][k].0 as int, rs[ri][k].1 as int)]).solved is None
            ==> count_true(c[idx(rs[ri][k].0 as int, rs[ri][k].1 as int)].cand, 9) != 1
}

/// No member of a region carries a digit solved in that region.
pub open spec fn solved_digits_removed(c: Seq<FieldModel>, rs: Seq<Seq<(usize, usize)>>) -> bool {
    forall|ri: int, k: int, q: int|
        0 <= ri < rs.len() && 0 <= k < rs[ri].len() && 0 <= q < rs[ri].len() && (#[trigger] c[idx(
            rs[ri][k].0 as int,
            rs[ri][k].1 as int,
        )]).solved is Some ==> !(#[trigger] c[idx(rs[ri][q].0 as int, rs[ri][q].1 as int)]).can(
            c[idx(rs[ri][k].0 as int, rs[ri][k].1 as int)].solved->0 as int,
        )
}

/// No full region has a hidden single.
pub open spec fn no_hidden_single(c: Seq<FieldModel>, rs: Seq<Seq<(usize, usize)>>) -> bool {
    forall|ri: int, d: int|
        0 <= ri < rs.len() && rs[ri].len() == 9 && 1 <= d <= 9 && !holds(c, rs[ri], d as u8) ==> #[trigger] carriers(
            c,
            rs[ri],
            d,
            9,
        ) != 1
}

/// No pointing set has a candidate left to remove.
pub open spec fn no_pointing_set(c: Seq<FieldModel>, rs: Seq<Seq<(usize, usize)>>) -> bool {
    forall|ri: int, d: int, o: int, i: int|
        0 <= ri < rs.len() && rs[ri].len() == 9 && 1 <= d <= 9 && !holds(c, rs[ri], d as u8) && #[trigger] confines(
            c,
            rs,
            ri,
            o,
            d,
            carrying(c, rs[ri], d, 9),
        ) && #[trigger] member(rs[o], i) && !member(carrying(c, rs[ri], d, 9), i) ==> !c[i].can(d)
}

/// No solved cell blocks a candidate of itself or of an orthogonal neighbour.
pub open spec fn no_adjacent_clash(c: Seq<FieldModel>) -> bool {
    forall|x: int, y: int, k: int|
        0 <= x < 9 && 0 <= y < 9 && 0 <= k < 9 && #[trigger] excluded(c, x, y, k + 1) ==> !c[idx(x, y)].cand[k]
}

/// Nothing is left for any of the three passes to deduce.
pub open spec fn stable(c: Seq<FieldModel>, rs: Seq<Seq<(usize, usize)>>) -> bool {
    &&& no_naked_single(c, rs)
    &&& solved_digits_removed(c, rs)
    &&& no_hidden_single(c, rs)
    &&& no_pointing_set(c, rs)
    &&& no_adjacent_clash(c)
}

pub open spec fn all_on_grid(rs: Seq<Seq<(usize, usize)>>) -> bool {
    forall|ri: int| 0 <= ri < rs.len() ==> on_grid(#[trigger] rs[ri])
}

proof fn lemma_strike_absent(f: FieldModel, d: int)
    requires
        f.cand.len() == 9,
        1 <= d <= 9,
        !f.can(d),
    ensures
        strike(f, d) == f,
{
    assert(strike(f, d).cand =~= f.cand);
}

proof fn lemma_visit_stable(c: Seq<FieldModel>, rs: Seq<Seq<(usize, usize)>>, ri: int, k: int)
    requires
        cells_wf(c),
        all_on_grid(rs),
        stable(c, rs),
        0 <= ri < rs.len(),
        0 <= k < rs[ri].len(),
    ensures
        visit(c, rs[ri], rs[ri][k]) == Some(c),
{
    let r = rs[ri];
    assert(on_grid(r));
    let i = idx(r[k].0 as int, r[k].1 as int);
    let f = c[i];
    assert(f.wf());
    if let Some(v) = f.solved {
        assert(f.cand =~= cleared(v).cand);
        assert(c.update(i, cleared(v)) =~= c);
        assert forall|j: int| 0 <= j < c.len() && member(r, j) implies strike(c[j], v as int) == c[j] by {
            let q = choose|q: int| 0 <= q < r.len() && idx(#[trigger] r[q].0 as int, r[q].1 as int) == j;
            assert(!c[idx(r[q].0 as int, r[q].1 as int)].can(v as int));
            lemma_strike_absent(c[j], v as int);
        }
        assert(eliminate(c, r, v as int) =~= c);
    } else {
        assert(count_true(c[idx(rs[ri][k].0 as int, rs[ri][k].1 as int)].cand, 9) != 1);
    }
}

proof fn lemma_visit_upto_stable(c: Seq<FieldModel>, rs: Seq<Seq<(usize, usize)>>, ri: int, n: int)
    requires
        cells_wf(c),
        all_on_grid(rs),
        stable(c, rs),
        0 <= ri < rs.len(),
        0 <= n <= rs[ri].len(),
    ensures
        visit_upto(c, rs[ri], n) == Some(c),
    decreases n,
{
    if n > 0 {
        lemma_visit_upto_stable(c, rs, ri, n - 1);
        lemma_visit_stable(c, rs, ri, n - 1);
    }
}

proof fn lemma_sweep_stable(c: Seq<FieldModel>, rs: Seq<Seq<(usize, usize)>>, n: int)
    requires
        cells_wf(c),
        all_on_grid(rs),
        stable(c, rs),
        0 <= n <= rs.len(),
    ensures
        sweep_upto(c, rs, n) == Some(c),
    decreases n,
{
    if n > 0 {
        lemma_sweep_stable(c, rs, n - 1);
        lemma_visit_upto_stable(c, rs, n - 1, rs[n - 1].len() as int);
    }
}

proof fn lemma_hidden_digits_stable(c: Seq<FieldModel>, rs: Seq<Seq<(usize, usize)>>, ri: int, n: int)
    requires
        stable(c, rs),
        0 <= ri < rs.len(),
        rs[ri].len() == 9,
        0 <= n <= 9,
    ensures
        hidden_digits(c, rs[ri], n) == c,
    decreases n,
{
    if n > 0 {
        lemma_hidden_digits_stable(c, rs, ri, n - 1);
        if !holds(c, rs[ri], n as u8) {
            assert(carriers(c, rs[ri], n, 9) != 1);
        }
    }
}

proof fn lemma_hidden_upto_stable(c: Seq<FieldModel>, rs: Seq<Seq<(usize, usize)>>, n: int)
    requires
        stable(c, rs),
        0 <= n <= rs.len(),
    ensures
        hidden_upto(c, rs, n) == c,
    decreases n,
{
    if n > 0 {
        lemma_hidden_upto_stable(c, rs, n - 1);
        if rs[n - 1].len() == 9 {
            lemma_hidden_digits_stable(c, rs, n - 1, 9);
        }
    }
}

proof fn lemma_pointing_step_stable(c: Seq<FieldModel>, rs: Seq<Seq<(usize, usize)>>, ri: int, d: int)
    requires
        cells_wf(c),
        stable(c, rs),
        0 <= ri < rs.len(),
        1 <= d <= 9,
    ensures
        pointing(c, rs, ri, d) == c,
{
    let r = rs[ri];
    let s = carrying(c, r, d, r.len() as int);
    if r.len() == 9 && !holds(c, r, d as u8) && s.len() != 0 {
        assert forall|i: int| 0 <= i < c.len() implies #[trigger] pointing(c, rs, ri, d)[i] == c[i] by {
            if (exists|o: int| #[trigger] confines(c, rs, ri, o, d, s) && member(rs[o], i)) && !member(s, i) {
                let o = choose|o: int| #[trigger] confines(c, rs, ri, o, d, s) && member(rs[o], i);
                assert(!c[i].can(d));
                lemma_strike_absent(c[i], d);
            }
        }
        assert(pointing(c, rs, ri, d) =~= c);
    }
}

proof fn lemma_pointing_upto_stable(c: Seq<FieldModel>, rs: Seq<Seq<(usize, usize)>>, n: int)
    requires
        cells_wf(c),
        stable(c, rs),
        0 <= n <= rs.len(),
    ensures
        pointing_upto(c, rs, n) == c,
    decreases n,
{
    if n > 0 {
        lemma_pointing_upto_stable(c, rs, n - 1);
        lemma_pointing_digits_stable(c, rs, n - 1, 9);
    }
}

proof fn lemma_pointing_digits_stable(c: Seq<FieldModel>, rs: Seq<Seq<(usize, usize)>>, ri: int, n: int)
    requires
        cells_wf(c),
        stable(c, rs),
        0 <= ri < rs.len(),
        0 <= n <= 9,
    ensures
        pointing_digits(c, rs, ri, n) == c,
    decreases n,
{
    if n > 0 {
        lemma_pointing_digits_stable(c, rs, ri, n - 1);
        lemma_pointing_step_stable(c, rs, ri, n);
    }
}

proof fn lemma_adjacency_stable(c: Seq<FieldModel>)
    requires
        cells_wf(c),
        no_adjacent_clash(c),
    ensures
        adjacency(c) == c,
{
    assert forall|i: int| 0 <= i < c.len() implies #[trigger] adjacency(c)[i] == c[i] by {
        let x = i / 9;
        let y = i % 9;
        assert(idx(x, y) == i);
        assert forall|k: int| 0 <= k < 9 implies #[trigger] adjacency(c)[i].cand[k] == c[i].cand[k] by {
            if excluded(c, x, y, k + 1) {
                assert(!c[idx(x, y)].cand[k]);
            }
        }
        assert(adjacency(c)[i].cand =~= c[i].cand);
    }
    assert(adjacency(c) =~= c);
}

/// Idempotence at a fixpoint: on a grid where no pass has anything left to
/// deduce, a round of the three passes succeeds and changes nothing.
pub proof fn lemma_stable_round(c: Seq<FieldModel>, rs: Seq<Seq<(usize, usize)>>)
    requires
        cells_wf(c),
        all_on_grid(rs),
        stable(c, rs),
    ensures
        round(c, rs) == Some(c),
{
    lemma_sweep_stable(c, rs, rs.len() as int);
    lemma_hidden_upto_stable(c, rs, rs.len() as int);
    assert(local_reduction(c, rs) == Some(c));
    lemma_adjacency_stable(c);
    lemma_pointing_upto_stable(c, rs, rs.len() as int);
}

/// The full region `r` holds the digit `d` somewhere in `sol`.
pub open spec fn has_digit(sol: Seq<u8>, r: Seq<(usize, usize)>, d: int) -> bool {
    exists|k: int| 0 <= k < r.len() && sol[idx(#[trigger] r[k].0 as int, r[k].1 as int)] == d
}

/// `sol` is a solution for the regions `rs`: a digit in `1..=9` per cell,
/// distinct cells of a region hold distinct digits, each full region holds
/// every digit, and orthogonal neighbours hold digits that are neither equal
/// nor consecutive.
pub open spec fn is_solution(sol: Seq<u8>, rs: Seq<Seq<(usize, usize)>>) -> bool {
    &&& sol.len() == 81
    &&& forall|i: int| 0 <= i < 81 ==> 1 <= #[trigger] sol[i] <= 9
    &&& forall|ri: int, a: int, b: int|
        0 <= ri < rs.len() && 0 <= a < rs[ri].len() && 0 <= b < rs[ri].len() && idx(rs[ri][a].0 as int, rs[ri][a].1 as int)
            != idx(rs[ri][b].0 as int, rs[ri][b].1 as int) ==> sol[idx(#[trigger] rs[ri][a].0 as int, rs[ri][a].1 as int)]
            != sol[idx(#[trigger] rs[ri][b].0 as int, rs[ri][b].1 as int)]
    &&& forall|ri: int, d: int| 0 <= ri < rs.len() && rs[ri].len() == 9 && 1 <= d <= 9 ==> #[trigger] has_digit(sol, rs[ri], d)
    &&& forall|i: int, j: int, x: int, y: int|
        0 <= i < 9 && 0 <= j < 9 && 0 <= x < 9 && 0 <= y < 9 && adjacent(i, j, x, y) && !(i == x && j == y) ==> !near(
            #[trigger] sol[idx(i, j)] as int,
            #[trigger] sol[idx(x, y)] as int,
        )
}

/// The cells `c` agree with `sol`: each cell is solved to its digit or is
/// unsolved and still carries it.
pub open spec fn agrees(c: Seq<FieldModel>, sol: Seq<u8>) -> bool {
    &&& c.len() == 81
    &&& forall|i: int|
        0 <= i < 81 ==> (#[trigger] c[i]).cand.len() == 9 && (c[i].solved == Some(sol[i]) || (c[i].solved is None
            && c[i].can(sol[i] as int)))
}

proof fn lemma_count_two(s: Seq<bool>, n: int, a: int, b: int)
    requires
        0 <= a < b < n,
        s[a],
        s[b],
    ensures
        count_true(s, n) >= 2,
    decreases n,
{
    if b < n - 1 {
        lemma_count_two(s, n - 1, a, b);
    } else {
        lemma_count_one(s, n - 1, a);
    }
}

proof fn lemma_count_one(s: Seq<bool>, n: int, a: int)
    requires
        0 <= a < n,
        s[a],
    ensures
        count_true(s, n) >= 1,
    decreases n,
{
    if a < n - 1 {
        lemma_count_one(s, n - 1, a);
    }
    lemma_count_nonneg(s, n - 1);
}

proof fn lemma_count_nonneg(s: Seq<bool>, n: int)
    ensures
        count_true(s, n) >= 0,
    decreases n,
{
    if n > 0 {
        lemma_count_nonneg(s, n - 1);
    }
}

proof fn lemma_carriers_two(c: Seq<FieldModel>, r: Seq<(usize, usize)>, d: int, n: int, a: int, b: int)
    requires
        0 <= a < b < n,
        c[idx(r[a].0 as int, r[a].1 as int)].can(d),
        c[idx(r[b].0 as int, r[b].1 as int)].can(d),
    ensures
        carriers(c, r, d, n) >= 2,
    decreases n,
{
    if b < n - 1 {
        lemma_carriers_two(c, r, d, n - 1, a, b);
    } else {
        lemma_carriers_one(c, r, d, n - 1, a);
    }
}

proof fn lemma_carriers_one(c: Seq<FieldModel>, r: Seq<(usize, usize)>, d: int, n: int, a: int)
    requires
        0 <= a < n,
        c[idx(r[a].0 as int, r[a].1 as int)].can(d),
    ensures
        carriers(c, r, d, n) >= 1,
    decreases n,
{
    if a < n - 1 {
        lemma_carriers_one(c, r, d, n - 1, a);
    }
    lemma_carriers_nonneg(c, r, d, n - 1);
}

proof fn lemma_carriers_nonneg(c: Seq<FieldModel>, r: Seq<(usize, usize)>, d: int, n: int)
    ensures
        carriers(c, r, d, n) >= 0,
    decreases n,
{
    if n > 0 {
        lemma_carriers_nonneg(c, r, d, n - 1);
    }
}

/// Removing from the members of `r` a digit that differs from the solution
/// digit of every member keeps the agreement.
proof fn lemma_eliminate_agrees(c: Seq<FieldModel>, r: Seq<(usize, usize)>, d: int, sol: Seq<u8>)
    requires
        agrees(c, sol),
        sol.len() == 81,
        forall|i: int| 0 <= i < 81 ==> 1 <= #[trigger] sol[i] <= 9,
        on_grid(r),
        1 <= d <= 9,
        forall|k: int| 0 <= k < r.len() && (#[trigger] c[idx(r[k].0 as int, r[k].1 as int)]).solved is None ==> sol[idx(r[k].0 as int, r[k].1 as int)] != d,
    ensures
        agrees(eliminate(c, r, d), sol),
{
    let e = eliminate(c, r, d);
    assert forall|i: int| 0 <= i < 81 implies (#[trigger] e[i]).cand.len() == 9 && (e[i].solved == Some(sol[i]) || (e[i].solved is None
            && e[i].can(sol[i] as int))) by {
        assert(c[i].cand.len() == 9);
        if member(r, i) && c[i].solved is None {
            let k = choose|k: int| 0 <= k < r.len() && idx(#[trigger] r[k].0 as int, r[k].1 as int) == i;
            assert(sol[idx(r[k].0 as int, r[k].1 as int)] != d);
            assert(e[i] == strike(c[i], d));
            assert(1 <= sol[i] <= 9);
            assert(e[i].cand[sol[i] - 1] == c[i].cand[sol[i] - 1]);
        }
    }
}

proof fn lemma_visit_agrees(c: Seq<FieldModel>, rs: Seq<Seq<(usize, usize)>>, ri: int, kp: int, sol: Seq<u8>)
    requires
        agrees(c, sol),
        is_solution(sol, rs),
        all_on_grid(rs),
        0 <= ri < rs.len(),
        0 <= kp < rs[ri].len(),
    ensures
        visit(c, rs[ri], rs[ri][kp]) matches Some(c2) && agrees(c2, sol),
{
    let r = rs[ri];
    assert(on_grid(r));
    let p = r[kp];
    let i = idx(p.0 as int, p.1 as int);
    let f = c[i];
    assert(in_grid(p));
    if f.solved is None && count_true(f.cand, 9) == 1 {
        let a = sol[i] - 1;
        assert(f.cand[a]);
        lemma_lowest(f.cand, 0, a);
        let low = lowest_from(f.cand, 0);
        if low != a {
            if low < a {
                lemma_count_two(f.cand, 9, low, a);
            } else {
                lemma_count_two(f.cand, 9, a, low);
            }
        }
        let d = (low + 1) as u8;
        assert(d == sol[i]);
        if holds(c, r, d) {
            let k = choose|k: int| 0 <= k < r.len() && (#[trigger] c[idx(r[k].0 as int, r[k].1 as int)]).solved == Some(d);
            assert(sol[idx(r[k].0 as int, r[k].1 as int)] == d);
            assert(idx(r[k].0 as int, r[k].1 as int) != i);
            assert(sol[idx(rs[ri][k].0 as int, rs[ri][k].1 as int)] != sol[idx(rs[ri][kp].0 as int, rs[ri][kp].1 as int)]);
        }
        let c1 = c.update(i, cleared(d));
        assert(agrees(c1, sol));
        assert forall|k: int| 0 <= k < r.len() && (#[trigger] c1[idx(r[k].0 as int, r[k].1 as int)]).solved is None implies sol[idx(r[k].0 as int, r[k].1 as int)] != d by {
            assert(idx(r[k].0 as int, r[k].1 as int) != i);
            assert(sol[idx(rs[ri][k].0 as int, rs[ri][k].1 as int)] != sol[idx(rs[ri][kp].0 as int, rs[ri][kp].1 as int)]);
        }
        lemma_eliminate_agrees(c1, r, d as int, sol);
    } else if let Some(v) = f.solved {
        let c1 = c.update(i, cleared(v));
        assert(agrees(c1, sol));
        assert forall|k: int| 0 <= k < r.len() && (#[trigger] c1[idx(r[k].0 as int, r[k].1 as int)]).solved is None implies sol[idx(r[k].0 as int, r[k].1 as int)] != v by {
            assert(idx(r[k].0 as int, r[k].1 as int) != i);
            assert(sol[idx(rs[ri][k].0 as int, rs[ri][k].1 as int)] != sol[idx(rs[ri][kp].0 as int, rs[ri][kp].1 as int)]);
        }
        lemma_eliminate_agrees(c1, r, v as int, sol);
    }
}

proof fn lemma_visit_upto_agrees(c: Seq<FieldModel>, rs: Seq<Seq<(usize, usize)>>, ri: int, n: int, sol: Seq<u8>)
    requires
        agrees(c, sol),
        is_solution(sol, rs),
        all_on_grid(rs),
        0 <= ri < rs.len(),
        0 <= n <= rs[ri].len(),
    ensures
        visit_upto(c, rs[ri], n) matches Some(c2) && agrees(c2, sol),
    decreases n,
{
    if n > 0 {
        lemma_visit_upto_agrees(c, rs, ri, n - 1, sol);
        let c1 = visit_upto(c, rs[ri], n - 1)->0;
        lemma_visit_agrees(c1, rs, ri, n - 1, sol);
    }
}

proof fn lemma_sweep_agrees(c: Seq<FieldModel>, rs: Seq<Seq<(usize, usize)>>, n: int, sol: Seq<u8>)
    requires
        agrees(c, sol),
        is_solution(sol, rs),
        all_on_grid(rs),
        0 <= n <= rs.len(),
    ensures
        sweep_upto(c, rs, n) matches Some(c2) && agrees(c2, sol),
    decreases n,
{
    if n > 0 {
        lemma_sweep_agrees(c, rs, n - 1, sol);
        let c1 = sweep_upto(c, rs, n - 1)->0;
        lemma_visit_upto_agrees(c1, rs, n - 1, rs[n - 1].len() as int, sol);
    }
}

proof fn lemma_hidden_agrees(c: Seq<FieldModel>, rs: Seq<Seq<(usize, usize)>>, ri: int, d: int, sol: Seq<u8>)
    requires
        agrees(c, sol),
        is_solution(sol, rs),
        all_on_grid(rs),
        0 <= ri < rs.len(),
        rs[ri].len() == 9,
        1 <= d <= 9,
    ensures
        agrees(hidden(c, rs[ri], d as u8), sol),
{
    let r = rs[ri];
    assert(on_grid(r));
    if !holds(c, r, d as u8) && carriers(c, r, d, 9) == 1 {
        assert(has_digit(sol, rs[ri], d));
        let ks = choose|k: int| 0 <= k < r.len() && sol[idx(#[trigger] r[k].0 as int, r[k].1 as int)] == d;
        let q = idx(r[ks].0 as int, r[ks].1 as int);
        assert(in_grid(r[ks]));
        assert(c[q].solved is None);
        assert(c[q].can(d));
        let h = hidden(c, r, d as u8);
        assert forall|i: int| 0 <= i < 81 implies (#[trigger] h[i]).cand.len() == 9 && (h[i].solved == Some(sol[i]) || (h[i].solved is None
                && h[i].can(sol[i] as int))) by {
            assert(c[i].cand.len() == 9);
            if member(r, i) && c[i].can(d) {
                let a = choose|a: int| 0 <= a < r.len() && idx(#[trigger] r[a].0 as int, r[a].1 as int) == i;
                if a < ks {
                    lemma_carriers_two(c, r, d, 9, a, ks);
                } else if ks < a {
                    lemma_carriers_two(c, r, d, 9, ks, a);
                }
                assert(sol[i] == d);
            }
        }
    }
}

proof fn lemma_hidden_digits_agrees(c: Seq<FieldModel>, rs: Seq<Seq<(usize, usize)>>, ri: int, n: int, sol: Seq<u8>)
    requires
        agrees(c, sol),
        is_solution(sol, rs),
        all_on_grid(rs),
        0 <= ri < rs.len(),
        rs[ri].len() == 9,
        0 <= n <= 9,
    ensures
        agrees(hidden_digits(c, rs[ri], n), sol),
    decreases n,
{
    if n > 0 {
        lemma_hidden_digits_agrees(c, rs, ri, n - 1, sol);
        lemma_hidden_agrees(hidden_digits(c, rs[ri], n - 1), rs, ri, n, sol);
    }
}

proof fn lemma_hidden_upto_agrees(c: Seq<FieldModel>, rs: Seq<Seq<(usize, usize)>>, n: int, sol: Seq<u8>)
    requires
        agrees(c, sol),
        is_solution(sol, rs),
        all_on_grid(rs),
        0 <= n <= rs.len(),
    ensures
        agrees(hidden_upto(c, rs, n), sol),
    decreases n,
{
    if n > 0 {
        lemma_hidden_upto_agrees(c, rs, n - 1, sol);
        if rs[n - 1].len() == 9 {
            lemma_hidden_digits_agrees(hidden_upto(c, rs, n - 1), rs, n - 1, 9, sol);
        }
    }
}

proof fn lemma_pointing_agrees(c: Seq<FieldModel>, rs: Seq<Seq<(usize, usize)>>, ci: int, d: int, sol: Seq<u8>)
    requires
        agrees(c, sol),
        is_solution(sol, rs),
        all_on_grid(rs),
        0 <= ci < rs.len(),
        1 <= d <= 9,
    ensures
        agrees(pointing(c, rs, ci, d), sol),
{
    let r = rs[ci];
    assert(on_grid(r));
    let s = carrying(c, r, d, r.len() as int);
    if r.len() == 9 && !holds(c, r, d as u8) && s.len() != 0 {
        let pc = pointing(c, rs, ci, d);
        assert(has_digit(sol, rs[ci], d));
        let ks = choose|k: int| 0 <= k < r.len() && sol[idx(#[trigger] r[k].0 as int, r[k].1 as int)] == d;
        let q = idx(r[ks].0 as int, r[ks].1 as int);
        assert(in_grid(r[ks]));
        assert(c[q].solved is None);
        assert(c[q].can(d));
        lemma_carrying_holds(c, r, d, 9, ks);
        assert forall|i: int| 0 <= i < 81 implies (#[trigger] pc[i]).cand.len() == 9 && (pc[i].solved == Some(sol[i]) || (pc[i].solved is None
                && pc[i].can(sol[i] as int))) by {
            assert(c[i].cand.len() == 9);
            if (exists|o: int| #[trigger] confines(c, rs, ci, o, d, s) && member(rs[o], i)) && !member(s, i) {
                let o = choose|o: int| #[trigger] confines(c, rs, ci, o, d, s) && member(rs[o], i);
                if sol[i] == d {
                    let t = choose|t: int| 0 <= t < s.len() && idx(#[trigger] s[t].0 as int, s[t].1 as int) == q;
                    assert(member(rs[o], idx(s[t].0 as int, s[t].1 as int)));
                    let b = choose|b: int| 0 <= b < rs[o].len() && idx(#[trigger] rs[o][b].0 as int, rs[o][b].1 as int) == q;
                    let a = choose|a: int| 0 <= a < rs[o].len() && idx(#[trigger] rs[o][a].0 as int, rs[o][a].1 as int) == i;
                    assert(sol[idx(rs[o][a].0 as int, rs[o][a].1 as int)] == sol[idx(rs[o][b].0 as int, rs[o][b].1 as int)]);
                    assert(i == q);
                    assert(false);
                }
                assert(1 <= sol[i] <= 9);
                assert(pc[i].cand[sol[i] - 1] == c[i].cand[sol[i] - 1]);
            }
        }
    }
}

proof fn lemma_pointing_digits_agrees(c: Seq<FieldModel>, rs: Seq<Seq<(usize, usize)>>, ci: int, n: int, sol: Seq<u8>)
    requires
        agrees(c, sol),
        is_solution(sol, rs),
        all_on_grid(rs),
        0 <= ci < rs.len(),
        0 <= n <= 9,
    ensures
        agrees(pointing_digits(c, rs, ci, n), sol),
    decreases n,
{
    if n > 0 {
        lemma_pointing_digits_agrees(c, rs, ci, n - 1, sol);
        lemma_pointing_agrees(pointing_digits(c, rs, ci, n - 1), rs, ci, n, sol);
    }
}

proof fn lemma_pointing_upto_agrees(c: Seq<FieldModel>, rs: Seq<Seq<(usize, usize)>>, n: int, sol: Seq<u8>)
    requires
        agrees(c, sol),
        is_solution(sol, rs),
        all_on_grid(rs),
        0 <= n <= rs.len(),
    ensures
        agrees(pointing_upto(c, rs, n), sol),
    decreases n,
{
    if n > 0 {
        lemma_pointing_upto_agrees(c, rs, n - 1, sol);
        lemma_pointing_digits_agrees(pointing_upto(c, rs, n - 1), rs, n - 1, 9, sol);
    }
}

proof fn lemma_adjacency_agrees(c: Seq<FieldModel>, rs: Seq<Seq<(usize, usize)>>, sol: Seq<u8>)
    requires
        agrees(c, sol),
        is_solution(sol, rs),
    ensures
        agrees(adjacency(c), sol),
{
    let ac = adjacency(c);
    assert forall|i: int| 0 <= i < 81 implies (#[trigger] ac[i]).cand.len() == 9 && (ac[i].solved == Some(sol[i]) || (ac[i].solved is None
            && ac[i].can(sol[i] as int))) by {
        let x = i / 9;
        let y = i % 9;
        assert(idx(x, y) == i);
        assert(1 <= sol[i] <= 9);
        if c[i].solved is None {
            if excluded(c, x, y, sol[i] as int) {
                let (a, b) = choose|a: int, b: int| #[trigger] blocks(c, a, b, x, y, sol[i] as int);
                assert(c[idx(a, b)].solved == Some(sol[idx(a, b)]));
                assert(!(a == x && b == y));
                assert(!near(sol[idx(a, b)] as int, sol[idx(x, y)] as int));
            }
        }
    }
}

/// A round of the three passes on a grid that agrees with a solution meets
/// no contradiction and leaves a grid that still agrees with it.
pub proof fn lemma_round_keeps_solution(c: Seq<FieldModel>, rs: Seq<Seq<(usize, usize)>>, sol: Seq<u8>)
    requires
        agrees(c, sol),
        is_solution(sol, rs),
        all_on_grid(rs),
    ensures
        round(c, rs) matches Some(c2) && agrees(c2, sol),
{
    lemma_sweep_agrees(c, rs, rs.len() as int, sol);
    let c1 = sweep_upto(c, rs, rs.len() as int)->0;
    lemma_hidden_upto_agrees(c1, rs, rs.len() as int, sol);
    let c2 = hidden_upto(c1, rs, rs.len() as int);
    lemma_adjacency_agrees(c2, rs, sol);
    lemma_pointing_upto_agrees(adjacency(c2), rs, rs.len() as int, sol);
}

/// Region uniqueness: in a grid that agrees with a solution, two distinct
/// cells of a region are never solved to the same digit.
pub proof fn lemma_region_unique(
    c: Seq<FieldModel>,
    rs: Seq<Seq<(usize, usize)>>,
    sol: Seq<u8>,
    ri: int,
    a: int,
    b: int,
)
    requires
        agrees(c, sol),
        is_solution(sol, rs),
        all_on_grid(rs),
        0 <= ri < rs.len(),
        0 <= a < rs[ri].len(),
        0 <= b < rs[ri].len(),
        idx(rs[ri][a].0 as int, rs[ri][a].1 as int) != idx(rs[ri][b].0 as int, rs[ri][b].1 as int),
        c[idx(rs[ri][a].0 as int, rs[ri][a].1 as int)].solved is Some,
    ensures
        c[idx(rs[ri][a].0 as int, rs[ri][a].1 as int)].solved != c[idx(rs[ri][b].0 as int, rs[ri][b].1 as int)].solved,
{
    assert(on_grid(rs[ri]));
    assert(in_grid(rs[ri][a]));
    assert(in_grid(rs[ri][b]));
    assert(sol[idx(rs[ri][a].0 as int, rs[ri][a].1 as int)] != sol[idx(rs[ri][b].0 as int, rs[ri][b].1 as int)]);
}

} // verus!
