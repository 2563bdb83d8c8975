//! The wall collider builder: from a set of occupied cells to the rectangles
//! that cover exactly those cells.
use vstd::prelude::*;
use crate::grid::{GridCoords, OccupancySet};
use crate::plates::{is_run, is_window_run, holds_column, row_plates, row_plates_of, Plate};
use crate::rects::{
    covered, covers, has_plate, is_maximal_stack, lemma_plate_in_maximal_stack, merge_plates,
    pairwise_disjoint, plate_in_row, rows_view, rows_wf, Rect,
};

verus! {

/// Whether `rect` is a wall rectangle of `cells`: each of its rows is a
/// maximal run of occupied cells with the columns of `rect`, and neither the
/// row below nor the row above has that same run.
pub open spec fn is_wall_rect(cells: Set<(int, int)>, rect: Rect) -> bool {
    &&& rect.bottom <= rect.top
    &&& forall|y: int| rect.bottom <= y <= rect.top ==> #[trigger] is_run(cells, y, rect.left as int, rect.right as int)
    &&& !is_run(cells, rect.bottom - 1, rect.left as int, rect.right as int)
    &&& !is_run(cells, rect.top + 1, rect.left as int, rect.right as int)
}

/// Whether `rects` are the wall rectangles of `cells`, each once.
pub open spec fn wall_rects_of(cells: Set<(int, int)>, rects: Seq<Rect>) -> bool {
    &&& forall|rect: Rect| #[trigger] rects.contains(rect) <==> is_wall_rect(cells, rect)
    &&& rects.no_duplicates()
}

/// Two maximal runs of one row that share a column are the same run.
proof fn lemma_run_unique(cells: Set<(int, int)>, y: int, x: int, l1: int, r1: int, l2: int, r2: int)
    requires
        is_run(cells, y, l1, r1),
        is_run(cells, y, l2, r2),
        l1 <= x <= r1,
        l2 <= x <= r2,
    ensures
        l1 == l2,
        r1 == r2,
{
    if l1 < l2 {
        assert(cells.contains((l2 - 1, y)));
    } else if l2 < l1 {
        assert(cells.contains((l1 - 1, y)));
    }
    if r1 < r2 {
        assert(cells.contains((r1 + 1, y)));
    } else if r2 < r1 {
        assert(cells.contains((r2 + 1, y)));
    }
}

/// Two wall rectangles of the same cells that share a cell are the same
/// rectangle: the builder's rectangles never overlap.
pub proof fn lemma_wall_rects_disjoint(cells: Set<(int, int)>, a: Rect, b: Rect, p: (int, int))
    requires
        is_wall_rect(cells, a),
        is_wall_rect(cells, b),
        covers(a, p),
        covers(b, p),
    ensures
        a == b,
{
    assert(is_run(cells, p.1, a.left as int, a.right as int));
    assert(is_run(cells, p.1, b.left as int, b.right as int));
    lemma_run_unique(cells, p.1, p.0, a.left as int, a.right as int, b.left as int, b.right as int);
    if a.bottom < b.bottom {
        assert(is_run(cells, b.bottom - 1, a.left as int, a.right as int));
    } else if b.bottom < a.bottom {
        assert(is_run(cells, a.bottom - 1, b.left as int, b.right as int));
    }
    if a.top < b.top {
        assert(is_run(cells, a.top + 1, b.left as int, b.right as int));
    } else if b.top < a.top {
        assert(is_run(cells, b.top + 1, a.left as int, a.right as int));
    }
}

/// Rows of maximal window runs over a box that holds every occupied cell
/// are exactly the maximal runs of the cells.
proof fn lemma_rows_are_runs(cells: Set<(int, int)>, rows: Seq<Seq<Plate>>, lo: GridCoords, hi: GridCoords)
    requires
        forall|p: (int, int)| #[trigger] cells.contains(p) ==> lo.x <= p.0 <= hi.x && lo.y <= p.1 <= hi.y,
        rows.len() == hi.y - lo.y + 1,
        forall|i: int| 0 <= i < rows.len() ==> row_plates_of(cells, lo.y + i, lo.x as int, hi.x as int, #[trigger] rows[i]),
    ensures
        rows_wf(rows, lo.y as int),
        forall|y: int, l: int, r: int| #[trigger] has_plate(rows, lo.y as int, y, l, r) <==> is_run(cells, y, l, r),
{
    assert forall|i: int, a: int, b: int|
        0 <= i < rows.len() && 0 <= a < rows[i].len() && 0 <= b < rows[i].len() && a != b
            implies (#[trigger] rows[i][a]).right < (#[trigger] rows[i][b]).left || rows[i][b].right < rows[i][a].left by {
        assert(row_plates_of(cells, lo.y + i, lo.x as int, hi.x as int, rows[i]));
    }
    assert forall|i: int, k: int| 0 <= i < rows.len() && 0 <= k < rows[i].len()
        implies (#[trigger] rows[i][k]).row == lo.y + i && rows[i][k].left <= rows[i][k].right by {
        assert(row_plates_of(cells, lo.y + i, lo.x as int, hi.x as int, rows[i]));
        assert(is_window_run(cells, lo.y + i, lo.x as int, hi.x as int, rows[i][k]));
    }
    assert forall|y: int, l: int, r: int| #[trigger] has_plate(rows, lo.y as int, y, l, r) <==> is_run(cells, y, l, r) by {
        let i = y - lo.y;
        if has_plate(rows, lo.y as int, y, l, r) {
            assert(row_plates_of(cells, y, lo.x as int, hi.x as int, rows[i]));
            let k = choose|k: int| 0 <= k < rows[i].len() && (#[trigger] rows[i][k]).left == l && rows[i][k].right == r;
            assert(is_window_run(cells, y, lo.x as int, hi.x as int, rows[i][k]));
            if cells.contains((l - 1, y)) {
                assert(lo.x <= l - 1);
            }
            if cells.contains((r + 1, y)) {
                assert(r + 1 <= hi.x);
            }
        }
        if is_run(cells, y, l, r) {
            assert(cells.contains((l, y)));
            assert(cells.contains((r, y)));
            assert(row_plates_of(cells, y, lo.x as int, hi.x as int, rows[i]));
            let k = choose|k: int| 0 <= k < rows[i].len() && holds_column(#[trigger] rows[i][k], l);
            let p = rows[i][k];
            assert(is_window_run(cells, y, lo.x as int, hi.x as int, p));
            if p.left < l {
                assert(cells.contains((l - 1, y)));
            }
            if p.right < r {
                assert(cells.contains((p.right + 1, y)));
            }
            if p.right > r {
                assert(cells.contains((r + 1, y)));
            }
            assert(plate_in_row(rows[i], l, r));
        }
    }
}

/// Builds the wall rectangles of the occupied cells: scans each row of the
/// box that holds every occupied cell into plates, then merges plates of
/// consecutive rows that span the same columns. The rectangles cover every
/// occupied cell and no other, and no two of them share a cell.
pub fn build_wall_rects(occ: &OccupancySet) -> (r: Vec<Rect>)
    ensures
        wall_rects_of(occ@, r@),
        covered(r@) == occ@,
        pairwise_disjoint(r@),
{
    let ghost cells = occ@;
    match occ.bounds() {
        None => {
            let r: Vec<Rect> = Vec::new();
            assert forall|rect: Rect| #[trigger] r@.contains(rect) <==> is_wall_rect(cells, rect) by {
                if is_wall_rect(cells, rect) {
                    assert(is_run(cells, rect.bottom as int, rect.left as int, rect.right as int));
                    assert(cells.contains((rect.left as int, rect.bottom as int)));
                }
            }
            assert(covered(r@) =~= cells);
            r
        },
        Some((lo, hi)) => {
            let mut rows: Vec<Vec<Plate>> = Vec::new();
            let mut y: i64 = lo.y as i64;
            while y <= hi.y as i64
                invariant
                    lo.y <= y <= hi.y + 1,
                    cells == occ@,
                    rows@.len() == y - lo.y,
                    forall|i: int| 0 <= i < rows@.len()
                        ==> row_plates_of(cells, lo.y + i, lo.x as int, hi.x as int, #[trigger] rows@[i]@),
                decreases hi.y + 1 - y,
            {
                let plates = row_plates(occ, y as i32, lo.x, hi.x);
                let ghost before = rows@;
                rows.push(plates);
                assert forall|i: int| 0 <= i < rows@.len()
                    implies row_plates_of(cells, lo.y + i, lo.x as int, hi.x as int, #[trigger] rows@[i]@) by {
                    if i < before.len() {
                        assert(rows@[i] == before[i]);
                    } else {
                        assert(rows@[i] == plates);
                        assert(row_plates_of(occ@, y as int, lo.x as int, hi.x as int, plates@));
                    }
                }
                y = y + 1;
            }
            let ghost pr = rows_view(rows@);
            assert forall|i: int| 0 <= i < pr.len()
                implies row_plates_of(cells, lo.y + i, lo.x as int, hi.x as int, #[trigger] pr[i]) by {
                assert(pr[i] == rows@[i]@);
            }
            proof { lemma_rows_are_runs(cells, pr, lo, hi); }
            let r = merge_plates(&rows, lo.y);
            assert forall|rect: Rect| is_maximal_stack(pr, lo.y as int, rect) <==> is_wall_rect(cells, rect) by {
                if is_maximal_stack(pr, lo.y as int, rect) {
                    assert forall|z: int| rect.bottom <= z <= rect.top
                        implies #[trigger] is_run(cells, z, rect.left as int, rect.right as int) by {
                        assert(has_plate(pr, lo.y as int, z, rect.left as int, rect.right as int));
                    }
                }
                if is_wall_rect(cells, rect) {
                    assert forall|z: int| rect.bottom <= z <= rect.top
                        implies #[trigger] has_plate(pr, lo.y as int, z, rect.left as int, rect.right as int) by {
                        assert(is_run(cells, z, rect.left as int, rect.right as int));
                    }
                }
            }
            assert forall|p: (int, int)| covered(r@).contains(p) <==> cells.contains(p) by {
                if covered(r@).contains(p) {
                    let i = choose|i: int| 0 <= i < r@.len() && covers(#[trigger] r@[i], p);
                    let rect = r@[i];
                    assert(r@.contains(rect));
                    assert(is_maximal_stack(pr, lo.y as int, rect));
                    assert(is_wall_rect(cells, rect));
                    assert(is_run(cells, p.1, rect.left as int, rect.right as int));
                    assert(cells.contains((p.0, p.1)));
                }
                if cells.contains(p) {
                    let i = p.1 - lo.y;
                    assert(row_plates_of(cells, p.1, lo.x as int, hi.x as int, pr[i]));
                    assert(cells.contains((p.0, p.1)));
                    let k = choose|k: int| 0 <= k < pr[i].len() && holds_column(#[trigger] pr[i][k], p.0);
                    let q = pr[i][k];
                    assert(has_plate(pr, lo.y as int, p.1, q.left as int, q.right as int));
                    lemma_plate_in_maximal_stack(pr, lo.y as int, p.1, q.left, q.right);
                    let rect = choose|rect: Rect| #[trigger] is_maximal_stack(pr, lo.y as int, rect) && rect.left == q.left
                        && rect.right == q.right && rect.bottom <= p.1 <= rect.top;
                    assert(r@.contains(rect));
                    let j = choose|j: int| 0 <= j < r@.len() && r@[j] == rect;
                    assert(covers(r@[j], p));
                }
            }
            assert(covered(r@) =~= cells);
            assert forall|i: int, j: int, p: (int, int)|
                0 <= i < r@.len() && 0 <= j < r@.len() && i != j && #[trigger] covers(r@[i], p)
                    implies !#[trigger] covers(r@[j], p) by {
                if covers(r@[j], p) {
                    assert(r@.contains(r@[i]));
                    assert(r@.contains(r@[j]));
                    lemma_wall_rects_disjoint(cells, r@[i], r@[j], p);
                }
            }
            r
        },
    }
}

/// Two runs of the builder on the same cells give the same rectangles: the
/// result is fixed by the cells, whatever order the rectangles come in.
pub proof fn lemma_build_deterministic(cells: Set<(int, int)>, r1: Seq<Rect>, r2: Seq<Rect>)
    requires
        wall_rects_of(cells, r1),
        wall_rects_of(cells, r2),
    ensures
        r1.to_set() == r2.to_set(),
        r1.len() == r2.len(),
        covered(r1) == covered(r2),
{
    assert(r1.to_set() =~= r2.to_set());
    r1.unique_seq_to_set();
    r2.unique_seq_to_set();
    assert forall|p: (int, int)| covered(r1).contains(p) implies covered(r2).contains(p) by {
        let i = choose|i: int| 0 <= i < r1.len() && covers(#[trigger] r1[i], p);
        assert(r1.contains(r1[i]));
        assert(r2.contains(r1[i]));
        let j = choose|j: int| 0 <= j < r2.len() && r2[j] == r1[i];
        assert(covers(r2[j], p));
    }
    assert forall|p: (int, int)| covered(r2).contains(p) implies covered(r1).contains(p) by {
        let i = choose|i: int| 0 <= i < r2.len() && covers(#[trigger] r2[i], p);
        assert(r2.contains(r2[i]));
        assert(r1.contains(r2[i]));
        let j = choose|j: int| 0 <= j < r1.len() && r1[j] == r2[i];
        assert(covers(r1[j], p));
    }
    assert(covered(r1) =~= covered(r2));
}

/// The rectangle of the single cell `c`.
pub open spec fn unit_rect(c: GridCoords) -> Rect {
    Rect { left: c.x, right: c.x, top: c.y, bottom: c.y }
}

/// One rectangle per occupied cell, in the set's order: the baseline that
/// plate merging improves on.
pub fn unit_rects(occ: &OccupancySet) -> (r: Vec<Rect>)
    requires
        occ.wf(),
    ensures
        r@.len() == occ.size(),
        forall|i: int| 0 <= i < r@.len() ==> #[trigger] r@[i] == unit_rect(occ.cell(i)),
        covered(r@) == occ@,
        pairwise_disjoint(r@),
{
    let mut r: Vec<Rect> = Vec::new();
    let n = occ.len();
    let mut i: usize = 0;
    while i < n
        invariant
            i <= n,
            n == occ.size(),
            r@.len() == i,
            forall|k: int| 0 <= k < i ==> #[trigger] r@[k] == unit_rect(occ.cell(k)),
        decreases n - i,
    {
        let c = occ.get(i);
        r.push(Rect { left: c.x, right: c.x, top: c.y, bottom: c.y });
        i = i + 1;
    }
    assert forall|p: (int, int)| covered(r@).contains(p) <==> occ@.contains(p) by {
        if covered(r@).contains(p) {
            let k = choose|k: int| 0 <= k < r@.len() && covers(#[trigger] r@[k], p);
            assert(occ.cell(k)@ == p);
        }
        if occ@.contains(p) {
            let k = choose|k: int| 0 <= k < occ.size() && (#[trigger] occ.cell(k))@ == p;
            assert(covers(r@[k], p));
        }
    }
    assert(covered(r@) =~= occ@);
    assert forall|i: int, j: int, p: (int, int)|
        0 <= i < r@.len() && 0 <= j < r@.len() && i != j && #[trigger] covers(r@[i], p)
            implies !#[trigger] covers(r@[j], p) by {
        occ.lemma_distinct(i, j);
    }
    r
}

/// How wall cells become collider rectangles.
#[derive(Clone, Copy, Debug, PartialEq, Eq, Structural, Hash)]
pub enum ColliderStrategy {
    /// One rectangle per wall cell.
    PerCell,
    /// Maximal row runs, stacked across rows.
    PlateMerge,
}

/// The collider rectangles of the occupied cells under `strategy`. Either
/// way they cover every occupied cell and no other, and never overlap.
pub fn build_rects(occ: &OccupancySet, strategy: ColliderStrategy) -> (r: Vec<Rect>)
    requires
        occ.wf(),
    ensures
        covered(r@) == occ@,
        pairwise_disjoint(r@),
        strategy == ColliderStrategy::PerCell ==> r@.len() == occ.size()
            && forall|i: int| 0 <= i < r@.len() ==> #[trigger] r@[i] == unit_rect(occ.cell(i)),
        strategy == ColliderStrategy::PlateMerge ==> wall_rects_of(occ@, r@),
{
    match strategy {
        ColliderStrategy::PerCell => unit_rects(occ),
        ColliderStrategy::PlateMerge => build_wall_rects(occ),
    }
}

} // verus!
