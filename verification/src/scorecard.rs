//! The scorecard: drives the backtest over the cross product of
//! (target, selector, entry rule) and ranks the combinations.
//!
//! Scores live in a three-dimensional matrix indexed target, then selector,
//! then entry rule.  Parallel runs hand back `(coordinates, score)` pairs;
//! `scatter_scores` writes each pair into its own cell, a deterministic
//! indexed scatter whose outcome is independent of the pairs' order.

use vstd::prelude::*;

use crate::bar::{series_wf, Candidate, CandidateV};
use crate::engine::{panel_views, run_backtest, spec_run_backtest};
use crate::fixed::{MAX_HORIZON, MAX_PRICE, MAX_SAMPLES, SCALE};
use crate::signals::EntryRule;
use crate::targets::ReturnTarget;

verus! {

/// The views of a score matrix.
pub open spec fn matrix_view(m: Seq<Vec<Vec<u64>>>) -> Seq<Seq<Seq<u64>>> {
    m.map_values(|r: Vec<Vec<u64>>| r@.map_values(|c: Vec<u64>| c@))
}

/// The views of a panel list, one panel per selector.
pub open spec fn panels_views(ps: Seq<Vec<Vec<Candidate>>>) -> Seq<Seq<Seq<CandidateV>>> {
    ps.map_values(|p: Vec<Vec<Candidate>>| panel_views(p@))
}

/// Coordinates lie inside the matrix.
pub open spec fn in_matrix(m: Seq<Seq<Seq<u64>>>, t: int, s: int, g: int) -> bool {
    0 <= t < m.len() && 0 <= s < m[t].len() && 0 <= g < m[t][s].len()
}

/// Matrix iteration order: target, then selector, then entry rule, outer to
/// inner.
pub open spec fn coord_lt(t1: int, s1: int, g1: int, t2: int, s2: int, g2: int) -> bool {
    t1 < t2 || (t1 == t2 && (s1 < s2 || (s1 == s2 && g1 < g2)))
}

/// The scorecard configuration: how many offsets to walk back, and which
/// targets and entry rules to cross with the selectors' candidate panels.
pub struct Scorecard {
    pub back_days: usize,
    pub targets: Vec<ReturnTarget>,
    pub rules: Vec<EntryRule>,
}

impl Scorecard {
    /// All targets and rules are well formed.
    pub open spec fn wf(self) -> bool {
        &&& forall|t: int| 0 <= t < self.targets@.len() ==> (#[trigger] self.targets@[t]).wf()
        &&& forall|g: int| 0 <= g < self.rules@.len() ==> (#[trigger] self.rules@[g]).wf()
    }

    /// Creates a scorecard.
    pub fn new(back_days: usize, targets: Vec<ReturnTarget>, rules: Vec<EntryRule>) -> (sc: Scorecard)
        requires
            forall|t: int| 0 <= t < targets@.len() ==> (#[trigger] targets@[t]).wf(),
            forall|g: int| 0 <= g < rules@.len() ==> (#[trigger] rules@[g]).wf(),
        ensures
            sc.back_days == back_days,
            sc.targets@ == targets@,
            sc.rules@ == rules@,
            sc.wf(),
    {
        Scorecard { back_days, targets, rules }
    }

    /// Runs the full cross product: one walk-forward backtest per
    /// (target, selector, entry rule) triple, the scores stored at their
    /// own coordinates.  `panels[s]` holds selector `s`'s candidates, one
    /// list per offset.
    pub fn run(&self, panels: &Vec<Vec<Vec<Candidate>>>) -> (m: Vec<Vec<Vec<u64>>>)
        requires
            self.wf(),
            forall|s: int| 0 <= s < panels@.len() ==> (#[trigger] panels@[s])@.len() <= MAX_HORIZON,
            forall|s: int, o: int|
                0 <= s < panels@.len() && 0 <= o < panels@[s]@.len() ==> (
                #[trigger] panels@[s]@[o])@.len() <= MAX_SAMPLES,
            forall|s: int, o: int, c: int|
                0 <= s < panels@.len() && 0 <= o < panels@[s]@.len() && 0 <= c
                    < panels@[s]@[o]@.len() ==> series_wf((#[trigger] panels@[s]@[o]@[c])@.data),
        ensures
            matrix_view(m@).len() == self.targets@.len(),
            forall|t: int|
                0 <= t < self.targets@.len() ==> (#[trigger] matrix_view(m@)[t]).len()
                    == panels@.len(),
            forall|t: int, s: int|
                0 <= t < self.targets@.len() && 0 <= s < panels@.len() ==> (#[trigger] matrix_view(
                    m@,
                )[t][s]).len() == self.rules@.len(),
            forall|t: int, s: int, g: int|
                0 <= t < self.targets@.len() && 0 <= s < panels@.len() && 0 <= g
                    < self.rules@.len() ==> #[trigger] matrix_view(m@)[t][s][g]
                    == spec_run_backtest(
                    panels_views(panels@)[s],
                    self.rules@[g],
                    self.targets@[t],
                ),
    {
        let nt: usize = self.targets.len();
        let ns: usize = panels.len();
        let ng: usize = self.rules.len();
        let ghost pv = panels_views(panels@);
        let mut m: Vec<Vec<Vec<u64>>> = Vec::new();
        let mut t: usize = 0;
        while t < nt
            invariant
                self.wf(),
                nt == self.targets@.len(),
                ns == panels@.len(),
                ng == self.rules@.len(),
                pv == panels_views(panels@),
                forall|s: int| 0 <= s < panels@.len() ==> (#[trigger] panels@[s])@.len()
                    <= MAX_HORIZON,
                forall|s: int, o: int|
                    0 <= s < panels@.len() && 0 <= o < panels@[s]@.len() ==> (
                    #[trigger] panels@[s]@[o])@.len() <= MAX_SAMPLES,
                forall|s: int, o: int, c: int|
                    0 <= s < panels@.len() && 0 <= o < panels@[s]@.len() && 0 <= c
                        < panels@[s]@[o]@.len() ==> series_wf(
                        (#[trigger] panels@[s]@[o]@[c])@.data,
                    ),
                t <= nt,
                m@.len() == t,
                forall|a: int|
                    0 <= a < t ==> (#[trigger] matrix_view(m@)[a]).len() == panels@.len(),
                forall|a: int, b: int|
                    0 <= a < t && 0 <= b < ns ==> (#[trigger] matrix_view(m@)[a][b]).len() == ng,
                forall|a: int, b: int, c: int|
                    0 <= a < t && 0 <= b < ns && 0 <= c < ng ==> #[trigger] matrix_view(
                        m@,
                    )[a][b][c] == spec_run_backtest(pv[b], self.rules@[c], self.targets@[a]),
            decreases nt - t,
        {
            let mut row: Vec<Vec<u64>> = Vec::new();
            let mut s: usize = 0;
            while s < ns
                invariant
                    self.wf(),
                    nt == self.targets@.len(),
                    ns == panels@.len(),
                    ng == self.rules@.len(),
                    pv == panels_views(panels@),
                    forall|b: int| 0 <= b < panels@.len() ==> (#[trigger] panels@[b])@.len()
                        <= MAX_HORIZON,
                    forall|b: int, o: int|
                        0 <= b < panels@.len() && 0 <= o < panels@[b]@.len() ==> (
                        #[trigger] panels@[b]@[o])@.len() <= MAX_SAMPLES,
                    forall|b: int, o: int, c: int|
                        0 <= b < panels@.len() && 0 <= o < panels@[b]@.len() && 0 <= c
                            < panels@[b]@[o]@.len() ==> series_wf(
                            (#[trigger] panels@[b]@[o]@[c])@.data,
                        ),
                    t < nt,
                    s <= ns,
                    row@.len() == s,
                    forall|b: int| 0 <= b < s ==> (#[trigger] row@[b])@.len() == ng,
                    forall|b: int, c: int|
                        0 <= b < s && 0 <= c < ng ==> #[trigger] row@[b]@[c] == spec_run_backtest(
                            pv[b],
                            self.rules@[c],
                            self.targets@[t as int],
                        ),
                decreases ns - s,
            {
                let mut cells: Vec<u64> = Vec::new();
                let mut g: usize = 0;
                while g < ng
                    invariant
                        self.wf(),
                        nt == self.targets@.len(),
                        ns == panels@.len(),
                        ng == self.rules@.len(),
                        pv == panels_views(panels@),
                        forall|b: int| 0 <= b < panels@.len() ==> (#[trigger] panels@[b])@.len()
                            <= MAX_HORIZON,
                        forall|b: int, o: int|
                            0 <= b < panels@.len() && 0 <= o < panels@[b]@.len() ==> (
                            #[trigger] panels@[b]@[o])@.len() <= MAX_SAMPLES,
                        forall|b: int, o: int, c: int|
                            0 <= b < panels@.len() && 0 <= o < panels@[b]@.len() && 0 <= c
                                < panels@[b]@[o]@.len() ==> series_wf(
                                (#[trigger] panels@[b]@[o]@[c])@.data,
                            ),
                        t < nt,
                        s < ns,
                        g <= ng,
                        cells@.len() == g,
                        forall|c: int|
                            0 <= c < g ==> #[trigger] cells@[c] == spec_run_backtest(
                                pv[s as int],
                                self.rules@[c],
                                self.targets@[t as int],
                            ),
                    decreases ng - g,
                {
                    proof {
                        assert(pv[s as int] == panel_views(panels@[s as int]@));
                        assert(self.targets@[t as int].wf());
                        assert(self.rules@[g as int].wf());
                    }
                    let score = run_backtest(&panels[s], self.rules[g], &self.targets[t]);
                    cells.push(score);
                    g += 1;
                }
                row.push(cells);
                s += 1;
            }
            proof {
                assert(matrix_view(m@.push(row)) =~= matrix_view(m@).push(
                    row@.map_values(|c: Vec<u64>| c@),
                ));
            }
            m.push(row);
            t += 1;
        }
        m
    }

    /// Scans the matrix for the strict maximum score, first seen winning on
    /// exact ties in target-major order; all-zero matrices keep the origin.
    pub fn find_best_combination(&self, m: &Vec<Vec<Vec<u64>>>) -> (best: (usize, usize, usize, u64))
        ensures
            forall|t: int, s: int, g: int|
                in_matrix(matrix_view(m@), t, s, g) ==> #[trigger] matrix_view(m@)[t][s][g]
                    <= best.3,
            best.3 > 0 ==> in_matrix(matrix_view(m@), best.0 as int, best.1 as int, best.2 as int)
                && matrix_view(m@)[best.0 as int][best.1 as int][best.2 as int] == best.3 && (
            forall|t: int, s: int, g: int|
                in_matrix(matrix_view(m@), t, s, g) && coord_lt(
                    t,
                    s,
                    g,
                    best.0 as int,
                    best.1 as int,
                    best.2 as int,
                ) ==> #[trigger] matrix_view(m@)[t][s][g] < best.3),
            best.3 == 0 ==> best.0 == 0 && best.1 == 0 && best.2 == 0,
    {
        let ghost mv = matrix_view(m@);
        let mut bt: usize = 0;
        let mut bs: usize = 0;
        let mut bg: usize = 0;
        let mut bv: u64 = 0;
        let mut t: usize = 0;
        while t < m.len()
            invariant
                mv == matrix_view(m@),
                mv.len() == m@.len(),
                t <= m@.len(),
                forall|a: int, b: int, c: int|
                    in_matrix(mv, a, b, c) && a < t ==> #[trigger] mv[a][b][c] <= bv,
                bv > 0 ==> in_matrix(mv, bt as int, bs as int, bg as int)
                    && mv[bt as int][bs as int][bg as int] == bv && bt < t && (
                forall|a: int, b: int, c: int|
                    in_matrix(mv, a, b, c) && coord_lt(a, b, c, bt as int, bs as int, bg as int)
                        ==> #[trigger] mv[a][b][c] < bv),
                bv == 0 ==> bt == 0 && bs == 0 && bg == 0,
            decreases m@.len() - t,
        {
            let row = &m[t];
            let mut s: usize = 0;
            while s < row.len()
                invariant
                    mv == matrix_view(m@),
                    mv.len() == m@.len(),
                    t < m@.len(),
                    row@ == m@[t as int]@,
                    mv[t as int].len() == row@.len(),
                    s <= row@.len(),
                    forall|a: int, b: int, c: int|
                        in_matrix(mv, a, b, c) && (a < t || (a == t && b < s)) ==> #[trigger] mv[a][b][c]
                            <= bv,
                    bv > 0 ==> in_matrix(mv, bt as int, bs as int, bg as int)
                        && mv[bt as int][bs as int][bg as int] == bv && (bt < t || (bt == t && bs
                        < s)) && (forall|a: int, b: int, c: int|
                        in_matrix(mv, a, b, c) && coord_lt(
                            a,
                            b,
                            c,
                            bt as int,
                            bs as int,
                            bg as int,
                        ) ==> #[trigger] mv[a][b][c] < bv),
                    bv == 0 ==> bt == 0 && bs == 0 && bg == 0,
                decreases row@.len() - s,
            {
                let cells = &row[s];
                let mut g: usize = 0;
                while g < cells.len()
                    invariant
                        mv == matrix_view(m@),
                        mv.len() == m@.len(),
                        t < m@.len(),
                        row@ == m@[t as int]@,
                        mv[t as int].len() == row@.len(),
                        s < row@.len(),
                        cells@ == m@[t as int]@[s as int]@,
                        mv[t as int][s as int].len() == cells@.len(),
                        g <= cells@.len(),
                        forall|a: int, b: int, c: int|
                            in_matrix(mv, a, b, c) && (a < t || (a == t && b < s) || (a == t && b
                                == s && c < g)) ==> #[trigger] mv[a][b][c] <= bv,
                        bv > 0 ==> in_matrix(mv, bt as int, bs as int, bg as int)
                            && mv[bt as int][bs as int][bg as int] == bv && coord_lt(
                            bt as int,
                            bs as int,
                            bg as int,
                            t as int,
                            s as int,
                            g as int,
                        ) && (forall|a: int, b: int, c: int|
                            in_matrix(mv, a, b, c) && coord_lt(
                                a,
                                b,
                                c,
                                bt as int,
                                bs as int,
                                bg as int,
                            ) ==> #[trigger] mv[a][b][c] < bv),
                        bv == 0 ==> bt == 0 && bs == 0 && bg == 0,
                    decreases cells@.len() - g,
                {
                    proof {
                        assert(mv[t as int][s as int][g as int] == cells@[g as int]);
                    }
                    let score = cells[g];
                    if score > bv {
                        bt = t;
                        bs = s;
                        bg = g;
                        bv = score;
                    }
                    g += 1;
                }
                s += 1;
            }
            t += 1;
        }
        (bt, bs, bg, bv)
    }
}

/// One cell of the matrix replaced.
pub open spec fn set_cell(m: Seq<Seq<Seq<u64>>>, t: int, s: int, g: int, v: u64) -> Seq<Seq<Seq<u64>>> {
    m.update(t, m[t].update(s, m[t][s].update(g, v)))
}

/// Scores scattered into the matrix, one update per pair, in order.
pub open spec fn spec_scatter(m0: Seq<Seq<Seq<u64>>>, scores: Seq<(usize, usize, usize, u64)>) -> Seq<Seq<Seq<u64>>>
    decreases scores.len(),
{
    if scores.len() == 0 {
        m0
    } else {
        let e = scores.last();
        set_cell(spec_scatter(m0, scores.drop_last()), e.0 as int, e.1 as int, e.2 as int, e.3)
    }
}

/// All score coordinates lie inside the matrix.
pub open spec fn scores_in_bounds(m: Seq<Seq<Seq<u64>>>, scores: Seq<(usize, usize, usize, u64)>) -> bool {
    forall|k: int|
        0 <= k < scores.len() ==> in_matrix(
            m,
            (#[trigger] scores[k]).0 as int,
            scores[k].1 as int,
            scores[k].2 as int,
        )
}

/// No two scores share a coordinate.
pub open spec fn scores_distinct(scores: Seq<(usize, usize, usize, u64)>) -> bool {
    forall|j: int, k: int|
        0 <= j < k < scores.len() ==> ((#[trigger] scores[j]).0, scores[j].1, scores[j].2) != ((
        #[trigger] scores[k]).0, scores[k].1, scores[k].2)
}

/// Scattering is a pointwise-determined, order-free write: each pair's cell
/// holds its score, every other cell keeps its old value, and the shape is
/// unchanged.
pub proof fn lemma_scatter_cells(m0: Seq<Seq<Seq<u64>>>, scores: Seq<(usize, usize, usize, u64)>)
    requires
        scores_in_bounds(m0, scores),
        scores_distinct(scores),
    ensures
        spec_scatter(m0, scores).len() == m0.len(),
        forall|t: int|
            0 <= t < m0.len() ==> (#[trigger] spec_scatter(m0, scores)[t]).len() == m0[t].len(),
        forall|t: int, s: int|
            0 <= t < m0.len() && 0 <= s < m0[t].len() ==> (#[trigger] spec_scatter(
                m0,
                scores,
            )[t][s]).len() == m0[t][s].len(),
        forall|k: int|
            0 <= k < scores.len() ==> #[trigger] spec_scatter(m0, scores)[scores[k].0 as int][
                scores[k].1 as int][scores[k].2 as int] == scores[k].3,
        forall|t: int, s: int, g: int|
            in_matrix(m0, t, s, g) && (forall|k: int|
                0 <= k < scores.len() ==> ((#[trigger] scores[k]).0 as int, scores[k].1 as int,
                scores[k].2 as int) != (t, s, g)) ==> #[trigger] spec_scatter(m0, scores)[t][s][g]
                == m0[t][s][g],
    decreases scores.len(),
{
    if scores.len() > 0 {
        let pre = scores.drop_last();
        let e = scores.last();
        assert(forall|k: int| 0 <= k < pre.len() ==> #[trigger] pre[k] == scores[k]);
        assert(scores_in_bounds(m0, pre));
        assert(scores_distinct(pre));
        lemma_scatter_cells(m0, pre);
        let prev = spec_scatter(m0, pre);
        let r = spec_scatter(m0, scores);
        assert(r == set_cell(prev, e.0 as int, e.1 as int, e.2 as int, e.3));
        assert(e == scores[scores.len() - 1]);
        assert(in_matrix(m0, e.0 as int, e.1 as int, e.2 as int));
        assert forall|k: int|
            0 <= k < scores.len() implies #[trigger] r[scores[k].0 as int][scores[k].1 as int][
            scores[k].2 as int] == scores[k].3 by {
            if k == scores.len() - 1 {
            } else {
                assert(pre[k] == scores[k]);
                assert(prev[scores[k].0 as int][scores[k].1 as int][scores[k].2 as int]
                    == scores[k].3);
                assert((scores[k].0, scores[k].1, scores[k].2) != (e.0, e.1, e.2));
            }
        }
        assert forall|t: int, si: int, g: int|
            in_matrix(m0, t, si, g) && (forall|k: int|
                0 <= k < scores.len() ==> ((#[trigger] scores[k]).0 as int, scores[k].1 as int,
                scores[k].2 as int) != (t, si, g)) implies #[trigger] r[t][si][g] == m0[t][si][g] by {
            assert forall|k: int|
                0 <= k < pre.len() implies ((#[trigger] pre[k]).0 as int, pre[k].1 as int,
                pre[k].2 as int) != (t, si, g) by {
                assert(pre[k] == scores[k]);
            }
            assert(prev[t][si][g] == m0[t][si][g]);
            assert((e.0 as int, e.1 as int, e.2 as int) != (t, si, g));
        }
    }
}

/// Determinism of the scatter: two score lists that hold the same pairs —
/// whatever order a parallel run delivered them in — fill the matrix
/// identically.
pub proof fn lemma_scatter_order_independent(
    m0: Seq<Seq<Seq<u64>>>,
    s1: Seq<(usize, usize, usize, u64)>,
    s2: Seq<(usize, usize, usize, u64)>,
)
    requires
        s1.to_set() == s2.to_set(),
        scores_in_bounds(m0, s1),
        scores_distinct(s1),
        scores_distinct(s2),
    ensures
        spec_scatter(m0, s1) == spec_scatter(m0, s2),
{
    assert(scores_in_bounds(m0, s2)) by {
        assert forall|k: int|
            0 <= k < s2.len() implies in_matrix(
            m0,
            (#[trigger] s2[k]).0 as int,
            s2[k].1 as int,
            s2[k].2 as int,
        ) by {
            assert(s2.to_set().contains(s2[k]));
            assert(s1.to_set().contains(s2[k]));
            let j = choose|j: int| 0 <= j < s1.len() && s1[j] == s2[k];
            assert(in_matrix(m0, s1[j].0 as int, s1[j].1 as int, s1[j].2 as int));
        }
    }
    lemma_scatter_cells(m0, s1);
    lemma_scatter_cells(m0, s2);
    let r1 = spec_scatter(m0, s1);
    let r2 = spec_scatter(m0, s2);
    assert forall|t: int, s: int, g: int|
        in_matrix(m0, t, s, g) implies #[trigger] r1[t][s][g] == r2[t][s][g] by {
        if exists|k: int|
            0 <= k < s1.len() && ((#[trigger] s1[k]).0 as int, s1[k].1 as int, s1[k].2 as int) == (
            t,
            s,
            g,
        ) {
            let k = choose|k: int|
                0 <= k < s1.len() && ((#[trigger] s1[k]).0 as int, s1[k].1 as int, s1[k].2 as int)
                    == (t, s, g);
            assert(s1.to_set().contains(s1[k]));
            assert(s2.to_set().contains(s1[k]));
            let j = choose|j: int| 0 <= j < s2.len() && s2[j] == s1[k];
            assert(r1[t][s][g] == s1[k].3);
            assert(r2[t][s][g] == s2[j].3);
            assert forall|k2: int|
                0 <= k2 < s2.len() && ((#[trigger] s2[k2]).0 as int, s2[k2].1 as int,
                s2[k2].2 as int) == (t, s, g) implies s2[k2].3 == s1[k].3 by {
                assert(k2 == j);
            }
        } else {
            assert forall|k: int|
                0 <= k < s2.len() implies ((#[trigger] s2[k]).0 as int, s2[k].1 as int,
                s2[k].2 as int) != (t, s, g) by {
                assert(s2.to_set().contains(s2[k]));
                assert(s1.to_set().contains(s2[k]));
                let j = choose|j: int| 0 <= j < s1.len() && s1[j] == s2[k];
            }
            assert(r1[t][s][g] == m0[t][s][g]);
            assert(r2[t][s][g] == m0[t][s][g]);
        }
    }
    assert forall|t: int| 0 <= t < m0.len() implies #[trigger] r1[t] == r2[t] by {
        assert forall|s: int| 0 <= s < m0[t].len() implies #[trigger] r1[t][s] == r2[t][s] by {
            assert forall|g: int|
                0 <= g < m0[t][s].len() implies #[trigger] r1[t][s][g] == r2[t][s][g] by {
                assert(in_matrix(m0, t, s, g));
            }
            assert(r1[t][s] =~= r2[t][s]);
        }
        assert(r1[t] =~= r2[t]);
    }
    assert(r1 =~= r2);
}

/// Writes one score into its cell.
pub fn set_score(m: &mut Vec<Vec<Vec<u64>>>, t: usize, s: usize, g: usize, v: u64)
    requires
        in_matrix(matrix_view(old(m)@), t as int, s as int, g as int),
    ensures
        matrix_view(final(m)@) == set_cell(matrix_view(old(m)@), t as int, s as int, g as int, v),
{
    let row: &mut Vec<Vec<u64>> = &mut m[t];
    let cells: &mut Vec<u64> = &mut row[s];
    let cell: &mut u64 = &mut cells[g];
    *cell = v;
    proof {
        assert(matrix_view(m@) =~~= set_cell(
            matrix_view(old(m)@),
            t as int,
            s as int,
            g as int,
            v,
        ));
    }
}

/// Scatters scored pairs into the matrix, one cell each: the deterministic
/// reduction step after a parallel run.
pub fn scatter_scores(m: &mut Vec<Vec<Vec<u64>>>, scores: &Vec<(usize, usize, usize, u64)>)
    requires
        scores_in_bounds(matrix_view(old(m)@), scores@),
    ensures
        matrix_view(final(m)@) == spec_scatter(matrix_view(old(m)@), scores@),
{
    let ghost m0 = matrix_view(old(m)@);
    let mut k: usize = 0;
    while k < scores.len()
        invariant
            m0 == matrix_view(old(m)@),
            scores_in_bounds(m0, scores@),
            k <= scores@.len(),
            matrix_view(m@) == spec_scatter(m0, scores@.subrange(0, k as int)),
        decreases scores@.len() - k,
    {
        proof {
            assert(scores@.subrange(0, k + 1 as int).drop_last() =~= scores@.subrange(0, k as int));
            assert(scores@.subrange(0, k + 1 as int).last() == scores@[k as int]);
            assert(forall|j: int|
                0 <= j < k as int ==> #[trigger] scores@.subrange(0, k as int)[j] == scores@[j]);
            assert(scores_in_bounds(m0, scores@.subrange(0, k as int)));
            lemma_scatter_shape(m0, scores@.subrange(0, k as int));
        }
        let (t, s, g, v) = scores[k];
        set_score(m, t, s, g, v);
        k += 1;
    }
    proof {
        assert(scores@.subrange(0, scores@.len() as int) =~= scores@);
    }
}

/// A scatter never changes the matrix's shape.
pub proof fn lemma_scatter_shape(m0: Seq<Seq<Seq<u64>>>, scores: Seq<(usize, usize, usize, u64)>)
    requires
        scores_in_bounds(m0, scores),
    ensures
        spec_scatter(m0, scores).len() == m0.len(),
        forall|t: int|
            0 <= t < m0.len() ==> (#[trigger] spec_scatter(m0, scores)[t]).len() == m0[t].len(),
        forall|t: int, s: int|
            0 <= t < m0.len() && 0 <= s < m0[t].len() ==> (#[trigger] spec_scatter(
                m0,
                scores,
            )[t][s]).len() == m0[t][s].len(),
    decreases scores.len(),
{
    if scores.len() > 0 {
        let pre = scores.drop_last();
        let e = scores.last();
        assert(forall|k: int| 0 <= k < pre.len() ==> #[trigger] pre[k] == scores[k]);
        assert(scores_in_bounds(m0, pre));
        lemma_scatter_shape(m0, pre);
        assert(e == scores[scores.len() - 1]);
        assert(in_matrix(m0, e.0 as int, e.1 as int, e.2 as int));
    }
}


/// One recommended entry: the computed buy price with its derived target
/// and stop prices, and the close before the decision day where the series
/// has one.
#[derive(Debug, Clone)]
pub struct Recommendation {
    pub symbol: String,
    pub buy_price: u64,
    pub target_price: u64,
    pub stop_loss_price: u64,
    pub prev_close: Option<u64>,
}

/// The mathematical content of a `Recommendation`.
pub struct RecommendationV {
    pub symbol: Seq<char>,
    pub buy_price: u64,
    pub target_price: u64,
    pub stop_loss_price: u64,
    pub prev_close: Option<u64>,
}

impl View for Recommendation {
    type V = RecommendationV;

    open spec fn view(&self) -> RecommendationV {
        RecommendationV {
            symbol: self.symbol@,
            buy_price: self.buy_price,
            target_price: self.target_price,
            stop_loss_price: self.stop_loss_price,
            prev_close: self.prev_close,
        }
    }
}

/// The views of a recommendation list.
pub open spec fn rec_views(s: Seq<Recommendation>) -> Seq<RecommendationV> {
    s.map_values(|r: Recommendation| r@)
}

/// The recommendation a target derives from one signal: the target price is
/// the buy price grown by the target return, the stop price the buy price
/// cut by the stop fraction, both rounded down to the price grid.
pub open spec fn spec_recommendation(sig: crate::bar::SignalV, pol: ReturnTarget) -> RecommendationV {
    RecommendationV {
        symbol: sig.symbol,
        buy_price: sig.buy_price as u64,
        target_price: ((sig.buy_price * (SCALE + pol.target_return)) / (SCALE as int)) as u64,
        stop_loss_price: crate::engine::stop_fill_price(
            sig.buy_price as int,
            pol.stop_loss as int,
        ) as u64,
        prev_close: if sig.data.len() > 1 {
            Some(sig.data[sig.data.len() - 2].close)
        } else {
            None
        },
    }
}

/// The recommendations over a signal list, bounded to the first
/// `limit` entries.
pub open spec fn spec_recommendations(sigs: Seq<crate::bar::SignalV>, pol: ReturnTarget, limit: int) -> Seq<RecommendationV> {
    let all = sigs.map_values(|sig: crate::bar::SignalV| spec_recommendation(sig, pol));
    if all.len() > limit {
        all.subrange(0, limit)
    } else {
        all
    }
}

/// Builds the ranked recommendation list of a signal list: at most five
/// entries, each with its derived target and stop prices.
pub fn generate_recommendations(signals: &Vec<crate::bar::Signal>, pol: &ReturnTarget) -> (recs: Vec<Recommendation>)
    requires
        pol.wf(),
        -(SCALE as int) <= pol.target_return <= crate::fixed::MAX_RETURN,
        forall|t: int|
            0 <= t < signals@.len() ==> 0 < (#[trigger] signals@[t])@.buy_price
                <= crate::fixed::MAX_PRICE,
    ensures
        rec_views(recs@) == spec_recommendations(
            crate::bar::sig_views(signals@),
            *pol,
            5,
        ),
{
    let ghost sv = crate::bar::sig_views(signals@);
    let mut recs: Vec<Recommendation> = Vec::new();
    let mut n: usize = signals.len();
    if n > 5 {
        n = 5;
    }
    let mut i: usize = 0;
    while i < n
        invariant
            pol.wf(),
            -(SCALE as int) <= pol.target_return <= crate::fixed::MAX_RETURN,
            sv == crate::bar::sig_views(signals@),
            sv.len() == signals@.len(),
            forall|t: int|
                0 <= t < signals@.len() ==> 0 < (#[trigger] signals@[t])@.buy_price
                    <= crate::fixed::MAX_PRICE,
            n == if signals@.len() > 5 {
                5int
            } else {
                signals@.len() as int
            },
            i <= n,
            rec_views(recs@).len() == i,
            forall|t: int|
                0 <= t < i ==> #[trigger] rec_views(recs@)[t] == spec_recommendation(sv[t], *pol),
        decreases n - i,
    {
        let sig = &signals[i];
        let buy: u64 = sig.buy_price as u64;
        let ghost b = buy as int;
        proof {
            assert(sv[i as int] == signals@[i as int]@);
            assert(b * (SCALE + pol.target_return) <= MAX_PRICE as int * (SCALE as int
                + crate::fixed::MAX_RETURN as int) && 0 <= b * (SCALE + pol.target_return))
                by (nonlinear_arith)
                requires
                    0 < b <= MAX_PRICE,
                    0 <= SCALE + pol.target_return <= SCALE as int + crate::fixed::MAX_RETURN as int,
            ;
            vstd::arithmetic::div_mod::lemma_div_is_ordered(
                b * (SCALE + pol.target_return),
                MAX_PRICE as int * (SCALE as int + crate::fixed::MAX_RETURN as int),
                SCALE as int,
            );
            vstd::arithmetic::div_mod::lemma_div_pos_is_pos(
                b * (SCALE + pol.target_return),
                SCALE as int,
            );
            assert(b * (SCALE - pol.stop_loss) <= b * SCALE && 0 <= b * (SCALE - pol.stop_loss))
                by (nonlinear_arith)
                requires
                    0 < b,
                    0 <= pol.stop_loss <= SCALE,
            ;
            vstd::arithmetic::div_mod::lemma_div_is_ordered(
                b * (SCALE - pol.stop_loss),
                b * SCALE,
                SCALE as int,
            );
            vstd::arithmetic::div_mod::lemma_div_multiples_vanish(b, SCALE as int);
            vstd::arithmetic::div_mod::lemma_div_pos_is_pos(
                b * (SCALE - pol.stop_loss),
                SCALE as int,
            );
        }
        let grown: i128 = (buy as i128) * (SCALE as i128 + pol.target_return as i128);
        let target_price: u64 = ((grown as u128) / (SCALE as u128)) as u64;
        let stop_loss_price: u64 = (crate::fixed::mul_u64(buy, SCALE - pol.stop_loss) / (
        SCALE as u128)) as u64;
        let prev_close: Option<u64> = if sig.data.len() > 1 {
            Some(sig.data[sig.data.len() - 2].close)
        } else {
            None
        };
        let rec = Recommendation {
            symbol: sig.symbol.clone(),
            buy_price: buy,
            target_price,
            stop_loss_price,
            prev_close,
        };
        proof {
            assert(rec@ == spec_recommendation(sv[i as int], *pol));
            assert(rec_views(recs@.push(rec)) =~= rec_views(recs@).push(rec@));
        }
        recs.push(rec);
        i += 1;
    }
    proof {
        let all = sv.map_values(|sig: crate::bar::SignalV| spec_recommendation(sig, *pol));
        assert(all.len() == sv.len());
        if sv.len() > 5 {
            assert(rec_views(recs@) =~= all.subrange(0, 5));
        } else {
            assert(rec_views(recs@) =~= all);
        }
    }
    recs
}

} // verus!
